use writeback_lru::LinkedList;

#[test]
fn linked_list_test() {
    let mut list = LinkedList::new();
    let rc1 = list.push(1);
    let rc2 = list.push(2);
    let rc3 = list.push(3);
    let rc4 = list.push(4);
    let rc5 = list.push(5);
    list.move_to_last(rc3);
    list.move_to_last(rc1);
    list.move_to_last(rc1);
    assert_eq!(list.remove_first().map(|(h, _v)| h), Some(rc2));
    assert_eq!(list.remove_first().map(|(h, _v)| h), Some(rc4));
    assert_eq!(list.remove_first().map(|(h, _v)| h), Some(rc5));
    assert_eq!(list.remove_first().map(|(h, _v)| h), Some(rc3));
    assert_eq!(list.remove_first().map(|(h, _v)| h), Some(rc1));
    assert_eq!(list.remove_first().map(|(h, _v)| h), None);
}

#[test]
fn removed_values_come_back_in_order() {
    let mut list = LinkedList::new();
    list.push(10);
    list.push(20);
    list.push(30);
    assert_eq!(list.remove_first().map(|(_h, v)| v), Some(10));
    assert_eq!(list.remove_first().map(|(_h, v)| v), Some(20));
    assert_eq!(list.remove_first().map(|(_h, v)| v), Some(30));
    assert!(list.is_empty());
}

#[test]
fn handles_stay_valid_across_unrelated_removals() {
    let mut list = LinkedList::new();
    let a = list.push("a");
    let b = list.push("b");
    let c = list.push("c");
    assert_eq!(*list.get_value(b), "b");
    assert_eq!(list.remove_first().map(|(h, _v)| h), Some(a));
    assert_eq!(*list.get_value(b), "b");
    assert_eq!(*list.get_value(c), "c");
    list.move_to_last(b);
    assert_eq!(list.remove_first().map(|(h, _v)| h), Some(c));
    assert_eq!(list.remove_first().map(|(h, _v)| h), Some(b));
    assert!(list.is_empty());
}
