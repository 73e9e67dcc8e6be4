use doublelinkedlist::DoubleLinkedList;
use std::collections::VecDeque;

// The list is empty exactly when both anchors are absent, after every
// operation of a mixed sequence.
#[test]
fn empty_iff_anchors_absent() {
    let mut list = DoubleLinkedList::<u32>::new();
    let mut len = 0usize;

    let check = |list: &DoubleLinkedList<u32>, len: usize| {
        assert_eq!(len == 0, list.head.is_none());
        assert_eq!(len == 0, list.tail.is_none());
    };

    check(&list, len);
    list.insert_at_front(1);
    len += 1;
    check(&list, len);
    list.insert_at_end(2);
    len += 1;
    check(&list, len);
    assert!(list.remove_at_end().is_some());
    len -= 1;
    check(&list, len);
    assert!(list.remove_at_front().is_some());
    len -= 1;
    check(&list, len);
    assert!(list.remove_at_front().is_none());
    check(&list, len);
    list.insert_at_end(3);
    len += 1;
    check(&list, len);
    assert!(list.remove_at_end().is_some());
    len -= 1;
    check(&list, len);
}

// Removing from an empty list, front or back, yields nothing, changes
// nothing, and is safe to repeat.
#[test]
fn remove_from_empty_is_harmless() {
    let mut list = DoubleLinkedList::<u8>::new();
    for _ in 0..3 {
        assert!(list.remove_at_front().is_none());
        assert!(list.remove_at_end().is_none());
        assert!(list.head.is_none());
        assert!(list.tail.is_none());
    }

    list.insert_at_front(9);
    assert_eq!(list.remove_at_end(), Some(9));
    for _ in 0..3 {
        assert!(list.remove_at_end().is_none());
        assert!(list.remove_at_front().is_none());
    }
}

// Round trip: front inserts then front removals reverse the insertion order;
// end inserts then end removals reverse it too; opposite ends preserve it.
#[test]
fn round_trips() {
    let elements = [3i32, 1, 4, 1, 5, 9, 2, 6];

    let mut list = DoubleLinkedList::<i32>::new();
    for &e in &elements {
        list.insert_at_front(e);
    }
    let mut out = Vec::new();
    while let Some(e) = list.remove_at_front() {
        out.push(e);
    }
    let reversed: Vec<i32> = elements.iter().rev().copied().collect();
    assert_eq!(out, reversed);

    let mut list = DoubleLinkedList::<i32>::new();
    for &e in &elements {
        list.insert_at_end(e);
    }
    let mut out = Vec::new();
    while let Some(e) = list.remove_at_end() {
        out.push(e);
    }
    assert_eq!(out, reversed);

    let mut list = DoubleLinkedList::<i32>::new();
    for &e in &elements {
        list.insert_at_front(e);
    }
    let mut out = Vec::new();
    while let Some(e) = list.remove_at_end() {
        out.push(e);
    }
    assert_eq!(out, elements.to_vec());

    let mut list = DoubleLinkedList::<i32>::new();
    for &e in &elements {
        list.insert_at_end(e);
    }
    let mut out = Vec::new();
    while let Some(e) = list.remove_at_front() {
        out.push(e);
    }
    assert_eq!(out, elements.to_vec());
}

// Mixed ends: an interleaving of front and end inserts and removals produces
// exactly what the standard double-ended queue produces.
#[test]
fn matches_reference_deque() {
    let mut list = DoubleLinkedList::<u64>::new();
    let mut deque = VecDeque::<u64>::new();

    // 0: insert front, 1: insert end, 2: remove front, 3: remove end,
    // 4: peek front, 5: peek end — in a fixed pseudo-random interleaving.
    let mut state = 11u64;
    for step in 0..400u64 {
        state = state.wrapping_mul(6364136223846793005).wrapping_add(1442695040888963407);
        let action = state % 6;
        match action {
            0 => {
                list.insert_at_front(step);
                deque.push_front(step);
            }
            1 => {
                list.insert_at_end(step);
                deque.push_back(step);
            }
            2 => {
                assert_eq!(list.remove_at_front(), deque.pop_front());
            }
            3 => {
                assert_eq!(list.remove_at_end(), deque.pop_back());
            }
            4 => {
                assert_eq!(list.peek_at_front().copied(), deque.front().copied());
            }
            _ => {
                assert_eq!(list.peek_at_end().copied(), deque.back().copied());
            }
        }
        assert_eq!(list.head.is_none(), deque.is_empty());
        assert_eq!(list.tail.is_none(), deque.is_empty());
    }
    while let Some(e) = deque.pop_front() {
        assert_eq!(list.remove_at_front(), Some(e));
    }
    assert!(list.remove_at_front().is_none());
    assert!(list.remove_at_end().is_none());
}

// Removing the only element takes the list back to the empty state, and it
// then behaves exactly like a freshly built one.
#[test]
fn single_to_empty_behaves_like_fresh() {
    let mut emptied = DoubleLinkedList::<i16>::new();
    emptied.insert_at_end(5);
    assert_eq!(emptied.remove_at_front(), Some(5));
    assert!(emptied.head.is_none());
    assert!(emptied.tail.is_none());

    let mut fresh = DoubleLinkedList::<i16>::new();
    for list in [&mut emptied, &mut fresh] {
        assert!(list.peek_at_front().is_none());
        assert!(list.peek_at_end().is_none());
        assert!(list.remove_at_front().is_none());
        assert!(list.remove_at_end().is_none());
        list.insert_at_front(2);
        list.insert_at_end(3);
        list.insert_at_front(1);
        assert_eq!(list.remove_at_front(), Some(1));
        assert_eq!(list.remove_at_front(), Some(2));
        assert_eq!(list.remove_at_front(), Some(3));
        assert_eq!(list.remove_at_front(), None);
    }
}

// Slot accounting, observed from outside: a long mixed workload that ends
// empty leaves a list that still answers every operation correctly, with
// every slot reclaimed for reuse rather than leaked.
#[test]
fn emptied_list_reuses_slots() {
    let mut list = DoubleLinkedList::<usize>::new();
    for round in 0..50usize {
        for i in 0..round {
            if i % 2 == 0 {
                list.insert_at_front(i);
            } else {
                list.insert_at_end(i);
            }
        }
        for _ in 0..round {
            assert!(list.remove_at_end().is_some());
        }
        assert!(list.remove_at_end().is_none());
        assert!(list.head.is_none());
        assert!(list.tail.is_none());
    }
}
