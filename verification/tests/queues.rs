use lists::dubdeque::DubDeque;
use lists::unsafelist::UnsafeList;

#[test]
fn dubdeque_basics() {
    let mut dd = DubDeque::new();

    // Check Empty List Behaves Right
    assert_eq!(dd.pop_front(), None);

    // Populate list
    dd.push_front(1);
    dd.push_front(2);
    dd.push_front(3);

    // Check Normal Removal
    assert_eq!(dd.pop_front(), Some(3));
    assert_eq!(dd.pop_front(), Some(2));

    // Push More To Make Sure Nothings Corrupted
    dd.push_front(4);
    dd.push_front(5);

    // Check Removal Again
    assert_eq!(dd.pop_front(), Some(5));
    assert_eq!(dd.pop_front(), Some(4));

    // Check Exaustion
    assert_eq!(dd.pop_front(), Some(1));
    assert_eq!(dd.pop_front(), None);
}

#[test]
fn dubdeque_back_operations() {
    let mut dd = DubDeque::new();
    assert_eq!(dd.pop_back(), None);

    dd.push_back(1);
    dd.push_back(2);
    dd.push_back(3);

    assert_eq!(dd.pop_back(), Some(3));
    assert_eq!(dd.pop_front(), Some(1));
    assert_eq!(dd.pop_back(), Some(2));
    assert_eq!(dd.pop_back(), None);
    assert_eq!(dd.pop_front(), None);
}

#[test]
fn dubdeque_mirrored_sequence_reverses() {
    // Mixed front and back pushes, undone in mirrored order, return the
    // elements in reverse construction order.
    let mut dd = DubDeque::new();
    dd.push_front(1);
    dd.push_back(2);
    dd.push_front(3);
    dd.push_back(4);

    assert_eq!(dd.pop_back(), Some(4));
    assert_eq!(dd.pop_front(), Some(3));
    assert_eq!(dd.pop_back(), Some(2));
    assert_eq!(dd.pop_front(), Some(1));
    assert_eq!(dd.pop_front(), None);
}

#[test]
fn dubdeque_peeks_do_not_mutate() {
    let mut dd = DubDeque::new();
    assert_eq!(dd.peek_front(), None);
    assert_eq!(dd.peek_back(), None);

    dd.push_back(1);
    dd.push_back(2);

    assert_eq!(dd.peek_front(), Some(&1));
    assert_eq!(dd.peek_front(), Some(&1));
    assert_eq!(dd.peek_back(), Some(&2));
    assert_eq!(dd.peek_back(), Some(&2));
    assert_eq!(dd.pop_front(), Some(1));
    assert_eq!(dd.pop_back(), Some(2));
}

#[test]
fn dubdeque_mutable_peeks_are_visible() {
    let mut dd = DubDeque::new();
    assert_eq!(dd.peek_front_mut(), None);
    assert_eq!(dd.peek_back_mut(), None);

    dd.push_back(1);
    dd.push_back(2);

    dd.peek_front_mut().map(|value| {
        *value = 10;
    });
    dd.peek_back_mut().map(|value| {
        *value = 20;
    });

    assert_eq!(dd.peek_front(), Some(&10));
    assert_eq!(dd.peek_back(), Some(&20));
    assert_eq!(dd.pop_front(), Some(10));
    assert_eq!(dd.pop_back(), Some(20));
}

#[test]
fn dubdeque_long_teardown() {
    let mut dd = DubDeque::new();
    let mut i: u64 = 0;
    while i < 100_000 {
        dd.push_front(i);
        i += 1;
    }
    dd.clear();
    assert_eq!(dd.pop_front(), None);
}

#[test]
fn unsafelist_basics() {
    let mut list = UnsafeList::new();

    // Test Empty List Behaves Correctly
    assert_eq!(list.pop(), None);

    list.push(1);
    list.push(2);
    list.push(3);

    // Check Normal Removal
    assert_eq!(list.pop(), Some(1));
    assert_eq!(list.pop(), Some(2));

    // Push More Values to Test Possible Corruptions
    list.push(4);
    list.push(5);

    // Check Removal And Exaustion
    assert_eq!(list.pop(), Some(3));
    assert_eq!(list.pop(), Some(4));
    assert_eq!(list.pop(), Some(5));
    assert_eq!(list.pop(), None);

    // Check That We Can Bounce Back From Nothing
    list.push(6);
    list.push(7);

    assert_eq!(list.pop(), Some(6));
    assert_eq!(list.pop(), Some(7));
    assert_eq!(list.pop(), None);
}

#[test]
fn unsafelist_peeks() {
    let mut list = UnsafeList::new();
    assert_eq!(list.peek(), None);
    assert_eq!(list.peek_mut(), None);

    list.push(1);
    list.push(2);

    assert_eq!(list.peek(), Some(&1));
    list.peek_mut().map(|x| *x *= 10);
    assert_eq!(list.peek(), Some(&10));
    assert_eq!(list.pop(), Some(10));
    assert_eq!(list.peek(), Some(&2));
}

#[test]
fn unsafelist_iter_is_restartable() {
    let mut list = UnsafeList::new();
    list.push(1);
    list.push(2);
    list.push(3);

    let mut first = list.iter();
    assert_eq!(first.next(), Some(&1));
    assert_eq!(first.next(), Some(&2));
    assert_eq!(first.next(), Some(&3));
    assert_eq!(first.next(), None);
    assert_eq!(first.next(), None);

    let mut second = list.iter();
    assert_eq!(second.next(), Some(&1));
    assert_eq!(second.next(), Some(&2));
    assert_eq!(second.next(), Some(&3));
    assert_eq!(second.next(), None);
}

#[test]
fn unsafelist_intoiter_matches_pop_order() {
    let mut popped = UnsafeList::new();
    popped.push(10);
    popped.push(20);
    popped.push(30);
    let mut consumed = UnsafeList::new();
    consumed.push(10);
    consumed.push(20);
    consumed.push(30);

    let mut iter = consumed.into_iter();
    assert_eq!(iter.next(), popped.pop());
    assert_eq!(iter.next(), popped.pop());
    assert_eq!(iter.next(), popped.pop());
    assert_eq!(iter.next(), popped.pop());
}

#[test]
fn crazy_shit() {
    let mut list = UnsafeList::new();

    list.push(1);
    list.push(2);
    list.push(3);

    assert!(list.pop() == Some(1));
    list.push(4);
    assert!(list.pop() == Some(2));
    list.push(5);

    assert!(list.peek() == Some(&3));

    list.push(6);
    list.peek_mut().map(|x| *x *= 10);
    assert!(list.peek() == Some(&30));
    assert!(list.pop() == Some(30));

    let mut it = list.iter_mut();
    while let Some(elem) = it.next(&mut list) {
        *elem *= 100;
    }

    let mut iter = list.iter();
    assert_eq!(iter.next(), Some(&400));
    assert_eq!(iter.next(), Some(&500));
    assert_eq!(iter.next(), Some(&600));
    assert_eq!(iter.next(), None);
    assert_eq!(iter.next(), None);

    assert!(list.pop() == Some(400));
    list.peek_mut().map(|x| *x *= 10);
    assert!(list.peek() == Some(&5000));
    list.push(7);
}

#[test]
fn unsafelist_iter_mut_walks_every_element() {
    let mut list = UnsafeList::new();
    list.push(1);
    list.push(2);
    list.push(3);

    let mut it = list.iter_mut();
    while let Some(elem) = it.next(&mut list) {
        *elem += 10;
    }

    assert_eq!(list.pop(), Some(11));
    assert_eq!(list.pop(), Some(12));
    assert_eq!(list.pop(), Some(13));
    assert_eq!(list.pop(), None);
}

#[test]
fn unsafelist_long_teardown() {
    let mut list = UnsafeList::new();
    let mut i: u64 = 0;
    while i < 100_000 {
        list.push(i);
        i += 1;
    }
    list.clear();
    assert_eq!(list.pop(), None);
}
