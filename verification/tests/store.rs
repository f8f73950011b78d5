use fiddlers_db::store::{push_decimal, IndexedRowIterator};

fn drain(mut it: IndexedRowIterator) -> Vec<(i32, Vec<usize>)> {
    let mut out = Vec::new();
    while let Some(g) = it.next_page() {
        out.push(g);
    }
    out.sort();
    out
}

#[test]
fn groups_slots_by_page_in_order() {
    let it = IndexedRowIterator::new(vec![(3, 1), (1, 7), (3, 0), (2, 2), (1, 4), (3, 5)]);
    let groups = drain(it);
    assert_eq!(groups, vec![(1, vec![7, 4]), (2, vec![2]), (3, vec![1, 0, 5])]);
}

#[test]
fn no_pairs_give_no_pages() {
    let mut it = IndexedRowIterator::new(Vec::new());
    assert!(it.next_page().is_none());
    assert!(it.next_page().is_none());
}

#[test]
fn duplicate_pairs_are_kept() {
    let groups = drain(IndexedRowIterator::new(vec![(9, 3), (9, 3)]));
    assert_eq!(groups, vec![(9, vec![3, 3])]);
}

#[test]
fn negative_slot_ids_are_taken_as_is() {
    let groups = drain(IndexedRowIterator::new(vec![(1, -1)]));
    assert_eq!(groups, vec![(1, vec![usize::MAX])]);
}

#[test]
fn decimal_of_extremes() {
    let mut out = String::from("x");
    push_decimal(&mut out, i32::MAX);
    push_decimal(&mut out, 0);
    push_decimal(&mut out, -10);
    push_decimal(&mut out, i32::MIN);
    assert_eq!(out, "x21474836470-10-2147483648");
}
