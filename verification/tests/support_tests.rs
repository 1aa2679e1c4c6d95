use lib::expr_id::ExprIdGenerator;
use lib::linked_list::DoublyLinkedList;

#[test]
fn linked_list_inserts_at_the_tail_and_counts() {
    let mut list = DoublyLinkedList::new();
    assert_eq!(list.length(), 0);
    list.insert(1);
    list.insert(2);
    list.insert(3);
    assert_eq!(list.length(), 3);
}

#[test]
fn delete_removes_the_first_equal_value() {
    let mut list = DoublyLinkedList::new();
    list.insert(1);
    list.insert(2);
    list.insert(1);
    assert!(list.delete(&1));
    assert_eq!(list.length(), 2);
    assert!(list.delete(&1));
    assert_eq!(list.length(), 1);
    assert!(!list.delete(&1));
    assert_eq!(list.length(), 1);
    assert!(list.delete(&2));
    assert_eq!(list.length(), 0);
}

#[test]
fn delete_of_a_missing_value_changes_nothing() {
    let mut list: DoublyLinkedList<i32> = DoublyLinkedList::new();
    assert!(!list.delete(&7));
    list.insert(5);
    assert!(!list.delete(&7));
    assert_eq!(list.length(), 1);
}

#[test]
fn deleting_what_was_just_inserted_restores_the_list() {
    let mut list = DoublyLinkedList::new();
    list.insert("a");
    list.insert("b");
    list.insert("c");
    assert!(list.delete(&"c"));
    assert_eq!(list.length(), 2);
    assert!(list.delete(&"a"));
    assert!(list.delete(&"b"));
    assert_eq!(list.length(), 0);
}

#[test]
fn expression_ids_count_up_from_zero() {
    let mut generator = ExprIdGenerator::new();
    assert!(generator.can_allocate());
    assert_eq!(generator.next(), 0);
    assert_eq!(generator.next(), 1);
    assert_eq!(generator.next(), 2);
}
