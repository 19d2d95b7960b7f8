use block_partition::partition;
use block_partition::partition_plain_data;
use block_partition::block::block_partition;
use std::cell::Cell;

fn sorted(v: &[u64]) -> Vec<u64> {
    let mut s = v.to_vec();
    s.sort();
    s
}

fn mixed(len: usize) -> Vec<u64> {
    (0..len as u64).map(|i| (i * 37 + 11) % 101).collect()
}

#[test]
fn empty_returns_zero() {
    let mut v: Vec<u64> = Vec::new();
    let k = partition(&mut v, &5, &|a: &u64, b: &u64| a < b);
    assert_eq!(k, 0);
    assert!(v.is_empty());
    let k2 = partition_plain_data(&mut v, &5, &|a: &u64, b: &u64| a < b);
    assert_eq!(k2, 0);
    assert!(v.is_empty());
}

#[test]
fn concrete_scenario() {
    let mut v: Vec<u64> = vec![5, 3, 8, 1, 9, 2];
    let k = partition(&mut v, &5, &|a: &u64, b: &u64| a < b);
    assert_eq!(k, 3);
    assert_eq!(sorted(&v[..3]), vec![1, 2, 3]);
    assert_eq!(sorted(&v[3..]), vec![5, 8, 9]);
}

#[test]
fn concrete_scenario_plain_data() {
    let mut v: Vec<u64> = vec![5, 3, 8, 1, 9, 2];
    let k = partition_plain_data(&mut v, &5, &|a: &u64, b: &u64| a < b);
    assert_eq!(k, 3);
    assert_eq!(sorted(&v[..3]), vec![1, 2, 3]);
    assert_eq!(sorted(&v[3..]), vec![5, 8, 9]);
}

#[test]
fn permutation_invariant_large() {
    let mut v = mixed(500);
    let before = sorted(&v);
    let k = partition(&mut v, &50, &|a: &u64, b: &u64| a < b);
    assert_eq!(sorted(&v), before);
    for i in 0..k {
        assert!(v[i] < 50);
    }
    for i in k..v.len() {
        assert!(v[i] >= 50);
    }
}

#[test]
fn permutation_invariant_large_plain_data() {
    let mut v = mixed(500);
    let before = sorted(&v);
    let k = partition_plain_data(&mut v, &50, &|a: &u64, b: &u64| a < b);
    assert_eq!(sorted(&v), before);
    for i in 0..k {
        assert!(v[i] < 50);
    }
    for i in k..v.len() {
        assert!(v[i] >= 50);
    }
}

#[test]
fn idempotent_and_no_moves_on_second_run() {
    let mut v = mixed(300);
    let k = partition(&mut v, &50, &|a: &u64, b: &u64| a < b);
    let snapshot = v.clone();
    let k2 = partition(&mut v, &50, &|a: &u64, b: &u64| a < b);
    assert_eq!(k2, k);
    // The minimal-move strategy relocates nothing in an already partitioned
    // range, and the block phase swaps no elements either, so the second run
    // leaves the vector exactly as it was.
    assert_eq!(v, snapshot);
}

#[test]
fn idempotent_count_plain_data() {
    let mut v = mixed(300);
    let k = partition_plain_data(&mut v, &50, &|a: &u64, b: &u64| a < b);
    let before = sorted(&v);
    let k2 = partition_plain_data(&mut v, &50, &|a: &u64, b: &u64| a < b);
    assert_eq!(k2, k);
    assert_eq!(sorted(&v), before);
}

#[test]
fn length_just_below_threshold() {
    // One short of the small-range bound: the block phase must hand the
    // range over whole and untouched.
    let mut v = mixed(255);
    let copy = v.clone();
    let (lo, hi) = block_partition(&mut v, &50, &|a: &u64, b: &u64| a < b);
    assert_eq!((lo, hi), (0, 255));
    assert_eq!(v, copy);
    let k = partition(&mut v, &50, &|a: &u64, b: &u64| a < b);
    for i in 0..k {
        assert!(v[i] < 50);
    }
    for i in k..v.len() {
        assert!(v[i] >= 50);
    }
}

#[test]
fn length_at_threshold_enters_block_phase() {
    // At the bound the block phase runs at least one window pass: the
    // residual it leaves is shorter than two block widths.
    let mut v = mixed(256);
    let before = sorted(&v);
    let (lo, hi) = block_partition(&mut v, &50, &|a: &u64, b: &u64| a < b);
    assert!(hi - lo < 64);
    assert_eq!(sorted(&v), before);
    for i in 0..lo {
        assert!(v[i] < 50);
    }
    for i in hi..v.len() {
        assert!(v[i] >= 50);
    }
}

#[test]
fn alternating_pattern_leaves_empty_residual() {
    // Elements alternate below/above the pivot, so every left window holds
    // as many misplaced elements as its right partner and the two cursors
    // advance in lock step until they meet: the residual is empty.
    let mut v: Vec<u64> = (0..512).map(|i| if i % 2 == 0 { 10 } else { 90 }).collect();
    let (lo, hi) = block_partition(&mut v, &50, &|a: &u64, b: &u64| a < b);
    assert_eq!(lo, hi);
    for i in 0..lo {
        assert!(v[i] < 50);
    }
    for i in hi..v.len() {
        assert!(v[i] >= 50);
    }
    let mut w: Vec<u64> = (0..512).map(|i| if i % 2 == 0 { 10 } else { 90 }).collect();
    let k = partition(&mut w, &50, &|a: &u64, b: &u64| a < b);
    assert_eq!(k, 256);
}

#[test]
fn residual_bounded_in_general() {
    let mut v = mixed(300);
    let (lo, hi) = block_partition(&mut v, &50, &|a: &u64, b: &u64| a < b);
    assert!(lo <= hi);
    assert!(hi - lo < 64);
}

#[test]
fn each_element_judged_once_below_threshold() {
    // Below the small-range bound the dispatcher makes one judging scan:
    // exactly one predicate call per element.
    let calls = Cell::new(0usize);
    let mut v = mixed(200);
    let k = partition(
        &mut v,
        &50,
        &|a: &u64, b: &u64| {
            calls.set(calls.get() + 1);
            a < b
        },
    );
    assert_eq!(calls.get(), 200);
    assert!(k <= 200);
}

#[test]
fn non_copy_elements() {
    let mut v: Vec<String> = vec![
        "pelican".to_string(),
        "ox".to_string(),
        "heron".to_string(),
        "ant".to_string(),
        "albatross".to_string(),
        "bee".to_string(),
    ];
    let pivot = "worm".to_string();
    let k = partition(&mut v, &pivot, &|a: &String, b: &String| a.len() < b.len());
    assert_eq!(k, 3);
    for i in 0..k {
        assert!(v[i].len() < 4);
    }
    for i in k..v.len() {
        assert!(v[i].len() >= 4);
    }
    let mut all: Vec<String> = v.clone();
    all.sort();
    let mut expected = vec![
        "pelican".to_string(),
        "ox".to_string(),
        "heron".to_string(),
        "ant".to_string(),
        "albatross".to_string(),
        "bee".to_string(),
    ];
    expected.sort();
    assert_eq!(all, expected);
}

#[test]
fn non_copy_elements_large() {
    let mut v: Vec<String> = (0..400).map(|i: u64| format!("{:03}", (i * 37 + 11) % 101)).collect();
    let before = {
        let mut s = v.clone();
        s.sort();
        s
    };
    let pivot = "050".to_string();
    let k = partition(&mut v, &pivot, &|a: &String, b: &String| a < b);
    let after = {
        let mut s = v.clone();
        s.sort();
        s
    };
    assert_eq!(before, after);
    for i in 0..k {
        assert!(v[i].as_str() < "050");
    }
    for i in k..v.len() {
        assert!(v[i].as_str() >= "050");
    }
}

#[test]
fn all_below_and_all_above() {
    let mut v: Vec<u64> = (0..300).collect();
    let k = partition(&mut v, &1000, &|a: &u64, b: &u64| a < b);
    assert_eq!(k, 300);
    let mut w: Vec<u64> = (0..300).collect();
    let k2 = partition(&mut w, &0, &|a: &u64, b: &u64| a < b);
    assert_eq!(k2, 0);
}

#[test]
fn equal_elements() {
    let mut v: Vec<u64> = vec![7; 40];
    let k = partition(&mut v, &7, &|a: &u64, b: &u64| a < b);
    assert_eq!(k, 0);
    assert_eq!(v, vec![7; 40]);
}

#[test]
fn single_element() {
    let mut v: Vec<u64> = vec![3];
    let k = partition(&mut v, &5, &|a: &u64, b: &u64| a < b);
    assert_eq!(k, 1);
    assert_eq!(v, vec![3]);
}

#[test]
fn inconsistent_predicate_keeps_permutation() {
    // A predicate that is no order at all: it answers by call parity.  The
    // split point is then unspecified, but the vector must still hold
    // exactly the elements it held before.
    let flip = Cell::new(0usize);
    let mut v = mixed(400);
    let before = sorted(&v);
    let k = partition(
        &mut v,
        &50,
        &|_a: &u64, _b: &u64| {
            flip.set(flip.get() + 1);
            flip.get() % 3 == 0
        },
    );
    assert!(k <= v.len());
    assert_eq!(sorted(&v), before);
}

#[test]
fn inconsistent_predicate_keeps_permutation_plain_data() {
    let flip = Cell::new(0usize);
    let mut v = mixed(400);
    let before = sorted(&v);
    let k = partition_plain_data(
        &mut v,
        &50,
        &|_a: &u64, _b: &u64| {
            flip.set(flip.get() + 1);
            flip.get() % 3 == 0
        },
    );
    assert!(k <= v.len());
    assert_eq!(sorted(&v), before);
}
