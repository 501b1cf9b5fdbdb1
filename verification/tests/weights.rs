use netproxy::weights::{co_divisor, divide, get_index};

#[test]
fn test() {
    let mut v = vec![2, 4, 6];
    divide(&mut v);
    assert_eq!(v, [1, 2, 3]);
}

#[test]
fn co_divisor_basics() {
    assert_eq!(co_divisor(12, 8), 4);
    assert_eq!(co_divisor(8, 12), 4);
    assert_eq!(co_divisor(7, 3), 1);
    assert_eq!(co_divisor(5, 0), 5);
    assert_eq!(co_divisor(0, 5), 5);
    assert_eq!(co_divisor(0, 0), 0);
}

#[test]
fn divide_keeps_coprime_weights() {
    let mut v = vec![1, 2, 3];
    divide(&mut v);
    assert_eq!(v, [1, 2, 3]);
}

#[test]
fn divide_takes_out_the_common_factor() {
    let mut v = vec![4, 6, 8];
    divide(&mut v);
    assert_eq!(v, [2, 3, 4]);
    let mut w = vec![6, 12, 18];
    divide(&mut w);
    assert_eq!(w, [1, 2, 3]);
}

#[test]
fn divide_stops_at_an_unlinked_pair() {
    // a pair of zero weights between positive ones keeps the factor
    let mut v = vec![4, 0, 0, 4];
    divide(&mut v);
    assert_eq!(v, [4, 0, 0, 4]);
    // a coprime neighbouring pair stops normalization as well
    let mut w = vec![4, 6, 9];
    divide(&mut w);
    assert_eq!(w, [4, 6, 9]);
}

#[test]
fn divide_refuses_a_factor_that_misses_a_weight() {
    // the neighbouring pairs share four and six, but the smaller of the
    // two does not divide the last weight
    let mut v = vec![4, 12, 6];
    divide(&mut v);
    assert_eq!(v, [4, 12, 6]);
}

#[test]
fn divide_leaves_short_vectors_alone() {
    let mut v = vec![5];
    divide(&mut v);
    assert_eq!(v, [5]);
    let mut w: Vec<usize> = vec![];
    divide(&mut w);
    assert!(w.is_empty());
}

#[test]
fn divide_handles_zero_weights() {
    let mut v = vec![0, 2];
    divide(&mut v);
    assert_eq!(v, [0, 1]);
}

#[test]
fn schedule_expands_in_blocks() {
    assert_eq!(get_index(vec![1, 2, 3]), [0, 1, 1, 2, 2, 2]);
    assert_eq!(get_index(vec![2, 1]), [0, 0, 1]);
}

#[test]
fn schedule_skips_zero_weights() {
    assert_eq!(get_index(vec![0, 2, 0]), [1, 1]);
    assert!(get_index(vec![0, 0]).is_empty());
    assert!(get_index(vec![]).is_empty());
}

#[test]
fn schedule_after_normalization() {
    let mut v = vec![2, 4, 6];
    divide(&mut v);
    assert_eq!(v, [1, 2, 3]);
    assert_eq!(get_index(v), [0, 1, 1, 2, 2, 2]);
}

#[test]
fn schedule_length_is_the_weight_sum() {
    let v = vec![3usize, 0, 2];
    let idx = get_index(v.clone());
    assert_eq!(idx.len(), v.iter().sum::<usize>());
    for (t, w) in v.iter().enumerate() {
        assert_eq!(idx.iter().filter(|i| **i == t).count(), *w);
    }
}
