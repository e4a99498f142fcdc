use ranim::utils::{
    extend_with_last, resize_preserving_order, resize_preserving_order_with_repeated_cnt,
    resize_preserving_order_with_repeated_indices,
};

#[test]
fn test_resize_preserve_order_with_repeated_cnt() {
    let values = vec![0, 1, 2, 3];
    let (v, c) = resize_preserving_order_with_repeated_cnt(&values, 8);
    assert_eq!(v, vec![0, 0, 1, 1, 2, 2, 3, 3]);
    assert_eq!(c, vec![2; 8]);
}

#[test]
fn resize_repeated_indices_doc_example() {
    let values = vec![0, 1, 2, 3];
    let (v, idx) = resize_preserving_order_with_repeated_indices(&values, 8);
    assert_eq!(v, vec![0, 0, 1, 1, 2, 2, 3, 3]);
    assert_eq!(idx, vec![1, 3, 5, 7]);
}

#[test]
fn resize_shrinks_in_order() {
    let values = vec![10, 11, 12, 13, 14, 15];
    assert_eq!(resize_preserving_order(&values, 4), vec![10, 11, 13, 14]);
    assert_eq!(resize_preserving_order(&values, 0), Vec::<i32>::new());
    assert_eq!(resize_preserving_order(&values, 6), values);
}

#[test]
fn extend_with_last_repeats_last() {
    let mut v = vec![1, 2];
    extend_with_last(&mut v, 5);
    assert_eq!(v, vec![1, 2, 2, 2, 2]);
    let mut e: Vec<u8> = vec![];
    extend_with_last(&mut e, 2);
    assert_eq!(e, vec![0, 0]);
}

#[test]
fn repeated_positions_count_the_growth() {
    let values = vec![1, 2, 3];
    let (grown, idx) = resize_preserving_order_with_repeated_indices(&values, 7);
    assert_eq!(grown, resize_preserving_order(&values, 7));
    assert_eq!(idx.len(), 7 - 3);
    let (_, none) = resize_preserving_order_with_repeated_indices(&values, 2);
    assert!(none.is_empty());
    let (_, same) = resize_preserving_order_with_repeated_indices(&values, 3);
    assert!(same.is_empty());
}

#[test]
fn repeated_positions_increase() {
    let values = vec![1, 2, 3];
    let (_, idx) = resize_preserving_order_with_repeated_indices(&values, 7);
    assert_eq!(idx, vec![1, 2, 4, 6]);
    assert!(idx.windows(2).all(|w| w[0] < w[1]));
}

#[test]
fn repeated_counts_share_the_growth() {
    let values = vec![1, 2, 3];
    let (v, c) = resize_preserving_order_with_repeated_cnt(&values, 7);
    assert_eq!(v, vec![1, 1, 1, 2, 2, 3, 3]);
    assert_eq!(c, vec![3, 3, 3, 2, 2, 2, 2]);
    let (v, c) = resize_preserving_order_with_repeated_cnt(&values, 9);
    assert_eq!(v, vec![1, 1, 1, 2, 2, 2, 3, 3, 3]);
    assert_eq!(c, vec![3; 9]);
    let (v, c) = resize_preserving_order_with_repeated_cnt(&values, 2);
    assert_eq!(v, vec![1, 2]);
    assert_eq!(c, vec![1, 1]);
}
