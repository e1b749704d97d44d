use cdg_player::order::stable_sort;

#[test]
fn sort_is_stable() {
    let keys: Vec<Vec<u32>> = vec![vec![2], vec![1, 5], vec![2], vec![], vec![1], vec![2, 0], vec![1, 5]];
    let items: Vec<usize> = (0..keys.len()).collect();
    let mut expected = items.clone();
    expected.sort_by(|&a, &b| keys[a].cmp(&keys[b]));
    assert_eq!(stable_sort(items, keys.clone()), expected);
    assert_eq!(expected, vec![3, 4, 1, 6, 0, 2, 5]);
}

#[test]
fn sort_of_nothing() {
    let items: Vec<u8> = Vec::new();
    assert!(stable_sort(items, Vec::new()).is_empty());
}
