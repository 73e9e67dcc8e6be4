use doublelinkedlist::DoubleLinkedList;

#[test]
fn test_list_empty() {
    let list = DoubleLinkedList::<i32>::new();

    assert!(list.head.is_none());
    assert!(list.tail.is_none());
}

#[test]
fn insert_at_front_test() {
    let element = 10;
    let another_element = 100;
    let mut list = DoubleLinkedList::<i32>::new();
    list.insert_at_front(element);
    list.insert_at_front(another_element);

    let front = list.peek_at_front();

    let x = *front.unwrap();

    assert_eq!(another_element, x);
}

#[test]
fn insert_at_back_test() {
    let element = 10;
    let another_element = 100;
    let mut list = DoubleLinkedList::new();
    list.insert_at_end(element);
    list.insert_at_end(another_element);

    let end = list.peek_at_end();

    let x = *end.unwrap();

    assert_eq!(another_element, x);
}

#[test]
fn remove_at_front_test() {
    let mut list = DoubleLinkedList::<i32>::new();

    let front = list.remove_at_front();
    assert!(front.is_none());

    let element = 10;
    list.insert_at_front(element);

    let another_element = 20;
    list.insert_at_end(another_element);

    let front = list.remove_at_front();
    let item = front.unwrap();

    assert_eq!(element, item);

    let front = list.remove_at_front();
    let item = front.unwrap();

    assert_eq!(another_element, item);
}

#[test]
fn remove_at_end_test() {
    let mut list = DoubleLinkedList::<i32>::new();

    let end = list.remove_at_end();
    assert!(end.is_none());

    let element = 10;
    list.insert_at_front(element);

    let another_element = 20;
    list.insert_at_end(another_element);

    let end = list.remove_at_end();

    let item = end.unwrap();

    assert_eq!(another_element, item);

    let end = list.remove_at_front();
    let item = end.unwrap();

    assert_eq!(element, item);
}

#[test]
fn node_create_starts_unlinked() {
    let node = doublelinkedlist::Node::create(42i64);
    assert_eq!(node.element, 42);
    assert!(node.previous.is_none());
    assert!(node.next.is_none());
}

#[test]
fn peek_does_not_remove() {
    let mut list = DoubleLinkedList::<i32>::new();
    assert!(list.peek_at_front().is_none());
    assert!(list.peek_at_end().is_none());

    list.insert_at_end(1);
    list.insert_at_end(2);

    assert_eq!(*list.peek_at_front().unwrap(), 1);
    assert_eq!(*list.peek_at_front().unwrap(), 1);
    assert_eq!(*list.peek_at_end().unwrap(), 2);
    assert_eq!(*list.peek_at_end().unwrap(), 2);

    assert_eq!(list.remove_at_front(), Some(1));
    assert_eq!(list.remove_at_front(), Some(2));
    assert_eq!(list.remove_at_front(), None);
}

#[test]
fn generic_elements_move_by_value() {
    let mut list = DoubleLinkedList::<String>::new();
    list.insert_at_front(String::from("middle"));
    list.insert_at_front(String::from("front"));
    list.insert_at_end(String::from("back"));

    assert_eq!(list.peek_at_front().unwrap().as_str(), "front");
    assert_eq!(list.peek_at_end().unwrap().as_str(), "back");

    assert_eq!(list.remove_at_front(), Some(String::from("front")));
    assert_eq!(list.remove_at_end(), Some(String::from("back")));
    assert_eq!(list.remove_at_end(), Some(String::from("middle")));
    assert_eq!(list.remove_at_end(), None);
}
