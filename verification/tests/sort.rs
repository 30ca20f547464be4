use machiavelli::sort::sort;

#[test]
fn sort_by_negated_value() {
    let unsorted: Vec<i8> = vec![1, 5, 3, 2, 4];
    let keys: Vec<i64> = unsorted.iter().map(|x| -(*x as i64)).collect();
    let sorted = sort(&unsorted, &keys);
    assert_eq!(vec![5, 4, 3, 2, 1], sorted);
}

#[test]
fn sort_keeps_the_order_of_equal_keys() {
    let items: Vec<char> = vec!['a', 'b', 'c', 'd'];
    let keys: Vec<i64> = vec![2, 1, 2, 1];
    let sorted = sort(&items, &keys);
    assert_eq!(vec!['b', 'd', 'a', 'c'], sorted);
    let same: Vec<i64> = vec![7, 7, 7, 7];
    assert_eq!(sort(&items, &same), items);
}

#[test]
fn sort_of_nothing() {
    let items: Vec<u8> = vec![];
    let keys: Vec<i64> = vec![];
    assert_eq!(sort(&items, &keys), Vec::<u8>::new());
}
