use distil::rank::sort_by_count;

#[test]
fn sorts_by_descending_count() {
    let sorted = sort_by_count(vec![('a', 1), ('b', 5), ('c', 3)]);
    assert_eq!(sorted, vec![('b', 5), ('c', 3), ('a', 1)]);
}

#[test]
fn ties_keep_their_order() {
    let sorted = sort_by_count(vec![('a', 2), ('b', 7), ('c', 2), ('d', 7), ('e', 2), ('f', 9)]);
    assert_eq!(sorted, vec![('f', 9), ('b', 7), ('d', 7), ('a', 2), ('c', 2), ('e', 2)]);
}

#[test]
fn sorting_nothing_gives_nothing() {
    let sorted: Vec<(u8, usize)> = sort_by_count(Vec::new());
    assert!(sorted.is_empty());
    assert_eq!(sort_by_count(vec![(1u8, 0)]), vec![(1u8, 0)]);
}

#[test]
fn sorted_input_is_left_alone() {
    let entries = vec![(0u8, 9), (1, 9), (2, 4), (3, 0), (4, 0)];
    assert_eq!(sort_by_count(entries.clone()), entries);
}
