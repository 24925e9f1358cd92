use lists::i32list::I32List;
use lists::toughlist::ToughList;

#[test]
fn i32list_basics() {
    let mut list = I32List::new();

    // Check List Empty
    assert_eq!(list.pop(), None);

    // Populate List
    list.push(1);
    list.push(2);
    list.push(3);

    // Check Normal Removal
    assert_eq!(list.pop(), Some(3));
    assert_eq!(list.pop(), Some(2));

    // Push More So Make Sure Nothings Corrupted
    list.push(4);
    list.push(5);

    // Check Normal Removal
    assert_eq!(list.pop(), Some(5));
    assert_eq!(list.pop(), Some(4));

    // Check Exaustion
    assert_eq!(list.pop(), Some(1));
    assert_eq!(list.pop(), None);
}

#[test]
fn i32list_repeated_pops_on_empty_stay_absent() {
    let mut list = I32List::new();
    assert_eq!(list.pop(), None);
    assert_eq!(list.pop(), None);
    assert_eq!(list.pop(), None);
}

#[test]
fn i32list_clear_then_reuse() {
    let mut list = I32List::new();
    list.push(7);
    list.push(8);
    list.clear();
    assert_eq!(list.pop(), None);
    list.push(9);
    assert_eq!(list.pop(), Some(9));
    assert_eq!(list.pop(), None);
}

#[test]
fn test_toughlist() {
    let mut tl = ToughList::new();

    tl.push(1);
    tl.push(2);
    tl.push(3);

    assert_eq!(tl.pop(), Some(3));
    assert_eq!(tl.pop(), Some(2));

    tl.push(4);
    tl.push(5);

    assert_eq!(tl.pop(), Some(5));
    assert_eq!(tl.pop(), Some(4));

    assert_eq!(tl.pop(), Some(1));
    assert_eq!(tl.pop(), None);
}

#[test]
fn test_toughlist_peek() {
    let mut tl = ToughList::new();
    assert_eq!(tl.peek(), None);
    assert_eq!(tl.peek_mut(), None);

    tl.push(1);
    tl.push(2);
    tl.push(3);

    assert_eq!(tl.peek(), Some(&3));
    assert_eq!(tl.peek_mut(), Some(&mut 3));

    tl.peek_mut().map(|value| {
        *value = 100;
    });

    assert_eq!(tl.peek(), Some(&100));
    assert_eq!(tl.pop(), Some(100));
}

#[test]
fn test_intoiter() {
    let mut tl = ToughList::new();

    tl.push(1);
    tl.push(2);
    tl.push(3);

    let mut iter = tl.into_iter();
    assert_eq!(iter.next(), Some(3));
    assert_eq!(iter.next(), Some(2));
    assert_eq!(iter.next(), Some(1));
    assert_eq!(iter.next(), None);
}

#[test]
fn test_iter() {
    let mut tl = ToughList::new();

    tl.push(1);
    tl.push(2);
    tl.push(3);

    let mut iter = tl.iter();
    assert_eq!(iter.next(), Some(&3));
    assert_eq!(iter.next(), Some(&2));
    assert_eq!(iter.next(), Some(&1));
    assert_eq!(iter.next(), None);
}

#[test]
fn toughlist_iter_is_restartable() {
    let mut tl = ToughList::new();
    tl.push("a");
    tl.push("b");

    let mut first = tl.iter();
    assert_eq!(first.next(), Some(&"b"));
    assert_eq!(first.next(), Some(&"a"));
    assert_eq!(first.next(), None);

    let mut second = tl.iter();
    assert_eq!(second.next(), Some(&"b"));
    assert_eq!(second.next(), Some(&"a"));
    assert_eq!(second.next(), None);
}

#[test]
fn toughlist_intoiter_matches_pop_order() {
    let mut popped = ToughList::new();
    popped.push(10);
    popped.push(20);
    popped.push(30);
    let mut consumed = ToughList::new();
    consumed.push(10);
    consumed.push(20);
    consumed.push(30);

    let mut iter = consumed.into_iter();
    assert_eq!(iter.next(), popped.pop());
    assert_eq!(iter.next(), popped.pop());
    assert_eq!(iter.next(), popped.pop());
    assert_eq!(iter.next(), popped.pop());
}

#[test]
fn toughlist_exhaust_then_refill() {
    let mut tl = ToughList::new();
    tl.push(1);
    tl.push(2);
    tl.push(3);
    assert_eq!(tl.pop(), Some(3));
    assert_eq!(tl.pop(), Some(2));
    tl.push(4);
    tl.push(5);
    assert_eq!(tl.pop(), Some(5));
    assert_eq!(tl.pop(), Some(4));
    assert_eq!(tl.pop(), Some(1));
    assert_eq!(tl.pop(), None);
    tl.push(6);
    assert_eq!(tl.pop(), Some(6));
    assert_eq!(tl.pop(), None);
}

#[test]
fn i32list_long_teardown() {
    let mut list = I32List::new();
    let mut i: i32 = 0;
    while i < 100_000 {
        list.push(i);
        i += 1;
    }
    list.clear();
    assert_eq!(list.pop(), None);
}

#[test]
fn toughlist_long_teardown() {
    let mut tl = ToughList::new();
    let mut i: u64 = 0;
    while i < 100_000 {
        tl.push(i);
        i += 1;
    }
    tl.clear();
    assert_eq!(tl.pop(), None);
}
