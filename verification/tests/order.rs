use ltc::order::sort_order;

#[test]
fn order_of_nothing_is_empty() {
    assert_eq!(sort_order(&vec![]), Vec::<usize>::new());
}

#[test]
fn order_of_one_key() {
    assert_eq!(sort_order(&vec![42]), vec![0]);
}

#[test]
fn keys_are_taken_smallest_first() {
    assert_eq!(sort_order(&vec![30, 10, 20]), vec![1, 2, 0]);
    assert_eq!(sort_order(&vec![3, 2, 1, 0]), vec![3, 2, 1, 0]);
    assert_eq!(sort_order(&vec![0, 1, 2, 3]), vec![0, 1, 2, 3]);
}

#[test]
fn equal_keys_keep_the_order_listed() {
    assert_eq!(sort_order(&vec![5, 3, 5, 3, 5]), vec![1, 3, 0, 2, 4]);
    assert_eq!(sort_order(&vec![7, 7, 7]), vec![0, 1, 2]);
}

#[test]
fn negative_and_extreme_keys() {
    assert_eq!(sort_order(&vec![0, i64::MAX, -1, i64::MIN]), vec![3, 2, 0, 1]);
}

#[test]
fn order_names_every_position_once() {
    let keys: Vec<i64> = (0..200).map(|n: i64| (n * 7919) % 101 - 50).collect();
    let order = sort_order(&keys);
    let mut seen = order.clone();
    seen.sort();
    assert_eq!(seen, (0..200).collect::<Vec<usize>>());
    for pair in order.windows(2) {
        let (a, b) = (pair[0], pair[1]);
        assert!(keys[a] < keys[b] || (keys[a] == keys[b] && a < b));
    }
}
