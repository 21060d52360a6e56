use meetily::order::sort_positions;

#[test]
fn sorts_by_key() {
    assert_eq!(sort_positions(&vec![30, 10, 20]), vec![1, 2, 0]);
    assert_eq!(sort_positions(&Vec::new()), Vec::<usize>::new());
    assert_eq!(sort_positions(&vec![i128::MAX, i128::MIN]), vec![1, 0]);
}

#[test]
fn sorting_only_rearranges() {
    let items = ["b", "a", "b", "c"];
    let order = sort_positions(&vec![3, 1, 3, 2]);
    let mut sorted: Vec<&str> = order.iter().map(|i| items[*i]).collect();
    assert_eq!(sorted, vec!["a", "c", "b", "b"]);
    let mut before = items.to_vec();
    before.sort();
    sorted.sort();
    assert_eq!(sorted, before);
}

#[test]
fn equal_keys_keep_their_order() {
    assert_eq!(sort_positions(&vec![2, 1, 2, 1, 2]), vec![1, 3, 0, 2, 4]);
}
