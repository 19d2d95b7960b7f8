use block_partition::engine::cyclic_permute;
use block_partition::engine::vec_swap;
use block_partition::scan::fill_offset_block_up;
use block_partition::scan::fill_offset_block_down;
use block_partition::small::small_partition_int_opt;
use block_partition::small::small_partition_move_opt;

#[test]
fn swap_two_positions() {
    let mut v: Vec<String> = vec!["a".to_string(), "b".to_string(), "c".to_string()];
    vec_swap(&mut v, 0, 2);
    assert_eq!(v, vec!["c".to_string(), "b".to_string(), "a".to_string()]);
}

#[test]
fn cycle_moves_values_one_step() {
    let mut v: Vec<u64> = (0..10).collect();
    let left: Vec<usize> = vec![0, 1];
    let right: Vec<usize> = vec![9, 8];
    cyclic_permute(&mut v, &left, &right);
    // Each left position takes its partner's value; the displaced values
    // travel one step along the cycle, the first one closing it.
    assert_eq!(v, vec![9, 8, 2, 3, 4, 5, 6, 7, 0, 1]);
}

#[test]
fn empty_cycle_moves_nothing() {
    let mut v: Vec<u64> = (0..5).collect();
    let left: Vec<usize> = Vec::new();
    let right: Vec<usize> = Vec::new();
    cyclic_permute(&mut v, &left, &right);
    assert_eq!(v, vec![0, 1, 2, 3, 4]);
}

#[test]
fn scan_up_records_rising_offsets() {
    let v: Vec<u64> = (0..32).collect();
    let mut offsets: Vec<u8> = Vec::new();
    // Select the elements judged "not below" the pivot.
    fill_offset_block_up(&v, 0, &16, &|a: &u64, b: &u64| a < b, false, &mut offsets);
    let expected: Vec<u8> = (16..32).collect();
    assert_eq!(offsets, expected);
}

#[test]
fn scan_down_records_falling_offsets() {
    let v: Vec<u64> = (0..32).collect();
    let mut offsets: Vec<u8> = Vec::new();
    // Select the elements judged "below" the pivot, from the high end down.
    fill_offset_block_down(&v, 0, &16, &|a: &u64, b: &u64| a < b, true, &mut offsets);
    let expected: Vec<u8> = (0..16).rev().collect();
    assert_eq!(offsets, expected);
}

#[test]
fn scan_respects_window_base() {
    let v: Vec<u64> = (0..64).collect();
    let mut offsets: Vec<u8> = Vec::new();
    fill_offset_block_up(&v, 32, &48, &|a: &u64, b: &u64| a < b, false, &mut offsets);
    let expected: Vec<u8> = (16..32).collect();
    assert_eq!(offsets, expected);
}

#[test]
fn small_move_partitions_a_subrange() {
    let mut v: Vec<u64> = vec![9, 4, 1, 7, 2, 9];
    let n = small_partition_move_opt(&mut v, 1, 5, &5, &|a: &u64, b: &u64| a < b);
    assert_eq!(n, 3);
    assert_eq!(v[0], 9);
    assert_eq!(v[5], 9);
    let mut inner = v[1..4].to_vec();
    inner.sort();
    assert_eq!(inner, vec![1, 2, 4]);
    assert_eq!(v[4], 7);
}

#[test]
fn small_move_already_partitioned_moves_nothing() {
    let mut v: Vec<u64> = vec![1, 2, 3, 7, 8, 9];
    let n = small_partition_move_opt(&mut v, 0, 6, &5, &|a: &u64, b: &u64| a < b);
    assert_eq!(n, 3);
    assert_eq!(v, vec![1, 2, 3, 7, 8, 9]);
}

#[test]
fn small_scratch_partitions_a_subrange() {
    let mut v: Vec<u64> = vec![9, 4, 1, 7, 2, 9];
    let n = small_partition_int_opt(&mut v, 1, 5, &5, &|a: &u64, b: &u64| a < b);
    assert_eq!(n, 3);
    assert_eq!(v[0], 9);
    assert_eq!(v[5], 9);
    let mut inner = v[1..4].to_vec();
    inner.sort();
    assert_eq!(inner, vec![1, 2, 4]);
    assert_eq!(v[4], 7);
}

#[test]
fn small_scratch_keeps_scan_order_in_prefix() {
    // The scratch strategy writes the "below" elements back in scan order
    // and fills the suffix from its far end, reversing the others.
    let mut v: Vec<u64> = vec![8, 1, 9, 2, 7, 3];
    let n = small_partition_int_opt(&mut v, 0, 6, &5, &|a: &u64, b: &u64| a < b);
    assert_eq!(n, 3);
    assert_eq!(v, vec![1, 2, 3, 7, 9, 8]);
}

#[test]
fn small_move_exact_relocation() {
    // Only the misplaced pair is relocated: 8 and 2 trade places through the
    // cycle; everything else stays put.
    let mut v: Vec<u64> = vec![1, 8, 3, 2, 9];
    let n = small_partition_move_opt(&mut v, 0, 5, &5, &|a: &u64, b: &u64| a < b);
    assert_eq!(n, 3);
    assert_eq!(v, vec![1, 2, 3, 8, 9]);
}
