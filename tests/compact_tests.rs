use compactor::compact;

#[test]
fn test_compact() {
    assert_eq!(compact(vec![1, 2, 3, 4]), vec![1, 2, 3, 4]);
    assert_eq!(compact(vec![0, 1, 2, 3]), vec![1, 2, 3]);
    assert_eq!(compact(vec![0, 1, 2, 3, 0, 0, 0]), vec![1, 2, 3]);
}

#[test]
fn compact_empty() {
    assert_eq!(compact(vec![]), Vec::<i32>::new());
}

#[test]
fn compact_without_zeros_is_unchanged() {
    assert_eq!(compact(vec![1, 2, 3, 4]), vec![1, 2, 3, 4]);
}

#[test]
fn compact_mixed_zeros() {
    assert_eq!(compact(vec![0, 1, 0, 2, 0, 3]), vec![1, 2, 3]);
}

#[test]
fn compact_all_zeros() {
    assert_eq!(compact(vec![0, 0, 0]), Vec::<i32>::new());
}

#[test]
fn compact_result_has_no_zero() {
    let r = compact(vec![0, -7, 0, 0, 9, i32::MIN, 0, i32::MAX]);
    assert!(r.iter().all(|&x| x != 0));
    assert_eq!(r, vec![-7, 9, i32::MIN, i32::MAX]);
}

#[test]
fn compact_length() {
    let with_zero = vec![4, 0, 5];
    assert!(compact(with_zero.clone()).len() < with_zero.len());
    let without_zero = vec![4, -1, 5];
    assert_eq!(compact(without_zero.clone()).len(), without_zero.len());
}

#[test]
fn compact_keeps_order_and_duplicates() {
    assert_eq!(compact(vec![3, 0, 1, 3, 0, 2, 1]), vec![3, 1, 3, 2, 1]);
}
