use voxel_rs::collections::merge_arrays;

#[test]
fn merge_ascending_arrays() {
    let mut out = vec![9];
    merge_arrays(&mut out, &[vec![1, 3], vec![2]]);
    assert_eq!(out, vec![1, 2, 3]);
    merge_arrays(&mut out, &[vec![1, 3, 5], vec![2, 4]]);
    assert_eq!(out, vec![1, 2, 3, 4, 5]);
}

#[test]
fn merge_with_ties_and_empty_inputs() {
    let mut out = Vec::new();
    merge_arrays(&mut out, &[vec![1, 2], vec![], vec![0, 2]]);
    assert_eq!(out, vec![0, 1, 2, 2]);
    merge_arrays(&mut out, &[]);
    assert!(out.is_empty());
}

#[test]
fn merge_keeps_everything() {
    let mut out = Vec::new();
    let input = vec![vec![4, 9, 9], vec![3, 10], vec![8]];
    merge_arrays(&mut out, &input);
    assert_eq!(out.len(), 6);
    assert_eq!(out, vec![3, 4, 8, 9, 9, 10]);
}

#[test]
fn merge_unsorted_inputs_takes_least_head_each_step() {
    let mut out = Vec::new();
    merge_arrays(&mut out, &[vec![5, 1], vec![3]]);
    assert_eq!(out, vec![3, 5, 1]);
}
