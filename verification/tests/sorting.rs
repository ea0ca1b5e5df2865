use exoquant::sorting::{apply_order, sort_positions};

#[test]
fn positions_come_in_ascending_key_order() {
    assert_eq!(sort_positions(&vec![30, 10, 20]), vec![1, 2, 0]);
}

#[test]
fn equal_keys_keep_their_order() {
    assert_eq!(sort_positions(&vec![3, 1, 2, 1, 3, 1]), vec![1, 3, 5, 2, 0, 4]);
}

#[test]
fn negative_and_wide_keys() {
    let big: i128 = 1 << 100;
    assert_eq!(sort_positions(&vec![big, -big, 0, -1]), vec![1, 3, 2, 0]);
}

#[test]
fn empty_and_single() {
    assert_eq!(sort_positions(&vec![]), Vec::<usize>::new());
    assert_eq!(sort_positions(&vec![5]), vec![0]);
}

#[test]
fn apply_order_rearranges() {
    let items = vec!['a', 'b', 'c'];
    assert_eq!(apply_order(&items, &vec![2, 0, 1]), vec!['c', 'a', 'b']);
    let order = sort_positions(&vec![9, 7, 8]);
    assert_eq!(apply_order(&items, &order), vec!['b', 'c', 'a']);
}
