use text_editor::doubly_linked_list::List;

#[test]
fn basics_stack() {
    let mut list = List::new();

    assert_eq!(list.pop_back(), None);

    list.push_back(1);
    list.push_back(2);
    list.push_back(3);

    assert_eq!(list.pop_back(), Some(3));
    assert_eq!(list.pop_back(), Some(2));

    list.push_back(4);
    list.push_back(5);

    assert_eq!(list.pop_back(), Some(5));
    assert_eq!(list.pop_back(), Some(4));

    assert_eq!(list.pop_back(), Some(1));
    assert_eq!(list.pop_back(), None);

    list.push_back(6);
    list.push_back(7);

    assert_eq!(list.pop_back(), Some(7));
    assert_eq!(list.pop_back(), Some(6));
    assert_eq!(list.pop_back(), None);
}

#[test]
fn basics_queue() {
    let mut list = List::new();

    assert_eq!(list.pop_front(), None);

    list.push_front(1);
    list.push_front(2);
    list.push_front(3);

    assert_eq!(list.pop_front(), Some(3));
    assert_eq!(list.pop_front(), Some(2));

    list.push_front(4);
    list.push_front(5);

    assert_eq!(list.pop_front(), Some(5));
    assert_eq!(list.pop_front(), Some(4));

    assert_eq!(list.pop_front(), Some(1));
    assert_eq!(list.pop_front(), None);

    list.push_front(6);
    list.push_front(7);

    assert_eq!(list.pop_front(), Some(7));
    assert_eq!(list.pop_front(), Some(6));
    assert_eq!(list.pop_front(), None);
}

#[test]
fn test_peek() {
    let mut list = List::new();

    assert_eq!(list.peek_back(), None::<&i32>);
    assert_eq!(list.peek_front(), None::<&i32>);

    list.push_front(1);
    list.push_front(2);
    list.push_front(3);

    assert_eq!(list.peek_back().cloned(), Some(1));
    assert_eq!(list.peek_back().cloned(), Some(1));
    assert_eq!(list.peek_front().cloned(), Some(3));
}

#[test]
fn into_iter() {
    let mut list = List::new();
    list.push_back(1);
    list.push_back(2);
    list.push_back(3);

    let mut iter = list.into_iter();
    assert_eq!(iter.next(), Some(1));
    assert_eq!(iter.next_back(), Some(3));
    assert_eq!(iter.next(), Some(2));
    assert_eq!(iter.next(), None);
    assert_eq!(iter.next_back(), None);
}

#[test]
fn iter() {
    let mut list = List::new();
    list.push_back(1);
    list.push_back(2);
    list.push_back(3);

    let mut iter = list.iter();
    assert_eq!(iter.next(), Some(1).as_ref());
    assert_eq!(iter.next_back(), Some(3).as_ref());
    assert_eq!(iter.next(), Some(2).as_ref());
    assert_eq!(iter.next(), None);
    assert_eq!(iter.next_back(), None);
}

#[test]
fn insert_after_middle_case() {
    let mut list = List::new();
    list.push_back(1);
    list.push_back(2);
    list.push_back(3);
    let head = list.head().unwrap();
    list.insert_node_after(head, 4);
    let mut iter = list.iter();
    assert_eq!(iter.next(), Some(1).as_ref());
    assert_eq!(iter.next(), Some(4).as_ref());
    assert_eq!(iter.next(), Some(2).as_ref());
}

#[test]
fn insert_after_edge_case() {
    let mut list = List::new();
    list.push_back(1);
    list.push_back(2);
    list.push_back(3);
    let tail = list.tail().unwrap();
    list.insert_node_after(tail, 4);
    let mut iter = list.iter();
    assert_eq!(iter.next(), Some(1).as_ref());
    assert_eq!(iter.next(), Some(2).as_ref());
    assert_eq!(iter.next(), Some(3).as_ref());
    assert_eq!(iter.next(), Some(4).as_ref());
    assert_eq!(iter.next(), None);
}

#[test]
fn remove_from_front() {
    let mut list = List::new();
    list.push_back(1);
    list.push_back(2);
    list.push_back(3);
    let head = list.head().unwrap();
    list.remove(head);

    let mut iter = list.iter();
    assert_eq!(iter.next(), Some(2).as_ref());
    assert_eq!(iter.next(), Some(3).as_ref());
    assert_eq!(iter.next(), None);
}

#[test]
fn remove_from_back() {
    let mut list = List::new();
    list.push_back(1);
    list.push_back(2);
    list.push_back(3);
    let tail = list.tail().unwrap();
    list.remove(tail);

    let mut iter = list.iter();
    assert_eq!(iter.next(), Some(1).as_ref());
    assert_eq!(iter.next(), Some(2).as_ref());
    assert_eq!(iter.next(), None);
}

#[test]
fn remove_from_middle() {
    let mut list = List::new();
    list.push_back(1);
    list.push_back(2);
    list.push_back(3);
    let tail = list.tail().unwrap();
    let middle = list.prev(tail).unwrap();
    list.remove(middle);

    let mut iter = list.iter();
    assert_eq!(iter.next(), Some(1).as_ref());
    assert_eq!(iter.next(), Some(3).as_ref());
    assert_eq!(iter.next(), None);
}

#[test]
fn insert_node_before_head() {
    let mut list = List::new();
    list.push_back(2);
    list.push_back(3);
    let head = list.head().unwrap();
    list.insert_node_before(head, 1);

    let mut iter = list.iter();
    assert_eq!(iter.next(), Some(1).as_ref());
    assert_eq!(iter.next(), Some(2).as_ref());
    assert_eq!(iter.next(), Some(3).as_ref());
    assert_eq!(iter.next(), None);
}

#[test]
fn forward_equals_reverse_reversed() {
    let mut list = List::new();
    for x in [10, 20, 30, 40, 50] {
        list.push_back(x);
    }

    let mut forward: Vec<i32> = Vec::new();
    let mut iter = list.iter();
    while let Some(x) = iter.next() {
        forward.push(*x);
    }

    let mut backward: Vec<i32> = Vec::new();
    let mut iter = list.iter();
    while let Some(x) = iter.next_back() {
        backward.push(*x);
    }
    backward.reverse();

    assert_eq!(forward, vec![10, 20, 30, 40, 50]);
    assert_eq!(forward, backward);
}

#[test]
fn handles_stay_valid_across_unrelated_surgery() {
    let mut list = List::new();
    list.push_back(1);
    list.push_back(2);
    list.push_back(3);
    let middle = list.next(list.head().unwrap()).unwrap();

    // surgery elsewhere must not disturb the held handle
    list.push_front(0);
    list.push_back(4);
    let head = list.head().unwrap();
    list.remove(head);

    assert_eq!(list.get(middle), 2);
    list.insert_node_after(middle, 99);

    let mut iter = list.iter();
    assert_eq!(iter.next(), Some(1).as_ref());
    assert_eq!(iter.next(), Some(2).as_ref());
    assert_eq!(iter.next(), Some(99).as_ref());
    assert_eq!(iter.next(), Some(3).as_ref());
    assert_eq!(iter.next(), Some(4).as_ref());
    assert_eq!(iter.next(), None);
}
