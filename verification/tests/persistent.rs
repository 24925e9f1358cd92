use lists::reflist::RefList;
use lists::threadlist::ThreadList;

#[test]
fn reflist_basics() {
    let rl = RefList::new();
    assert_eq!(rl.head(), None);

    let rl = rl.prepend(1).prepend(2).prepend(3);
    assert_eq!(rl.head(), Some(&3));

    let rl = rl.tail();
    assert_eq!(rl.head(), Some(&2));

    let rl = rl.tail();
    assert_eq!(rl.head(), Some(&1));

    let rl = rl.tail();
    assert_eq!(rl.head(), None);
}

#[test]
fn reflist_iter() {
    let rl = RefList::new().prepend(1).prepend(2).prepend(3);

    let mut iter = rl.iter();
    assert_eq!(iter.next(), Some(&3));
    assert_eq!(iter.next(), Some(&2));
    assert_eq!(iter.next(), Some(&1));
}

#[test]
fn reflist_structural_sharing() {
    let base = RefList::new().prepend(1).prepend(2);
    let branched = base.prepend(3);

    // The receiver of `prepend` keeps its own head.
    assert_eq!(base.head(), Some(&2));
    assert_eq!(branched.head(), Some(&3));

    // `tail` reads the receiver without changing it.
    let rest = base.tail();
    assert_eq!(rest.head(), Some(&1));
    assert_eq!(base.head(), Some(&2));

    // Dropping the branch leaves the shared chain readable.
    drop(branched);
    assert_eq!(base.head(), Some(&2));
    assert_eq!(base.tail().head(), Some(&1));
}

#[test]
fn reflist_iter_is_restartable() {
    let rl = RefList::new().prepend(1).prepend(2);

    let mut first = rl.iter();
    assert_eq!(first.next(), Some(&2));
    assert_eq!(first.next(), Some(&1));
    assert_eq!(first.next(), None);

    let mut second = rl.iter();
    assert_eq!(second.next(), Some(&2));
    assert_eq!(second.next(), Some(&1));
    assert_eq!(second.next(), None);
}

#[test]
fn reflist_repeated_tail_on_empty_stays_absent() {
    let rl: RefList<i32> = RefList::new();
    assert!(rl.head().is_none());
    let rl = rl.tail();
    assert!(rl.head().is_none());
    let rl = rl.tail();
    assert!(rl.head().is_none());
}

#[test]
fn reflist_clear_stops_at_shared_node() {
    let base = RefList::new().prepend(1).prepend(2);
    let mut branched = base.prepend(3);
    // The branch owns only its own head node; the rest is shared with
    // `base`, which must stay readable after the branch is cleared.
    branched.clear();
    assert_eq!(branched.head(), None);
    assert_eq!(base.head(), Some(&2));
    assert_eq!(base.tail().head(), Some(&1));
}

#[test]
fn reflist_long_teardown() {
    let mut rl = RefList::new();
    let mut i: u64 = 0;
    while i < 100_000 {
        rl = rl.prepend(i);
        i += 1;
    }
    rl.clear();
    assert!(rl.head().is_none());
}

#[test]
fn threadlist_basics() {
    let tl = ThreadList::new();
    assert_eq!(tl.head(), None);

    let tl = tl.prepend(1).prepend(2).prepend(3);
    assert_eq!(tl.head(), Some(&3));

    let tl = tl.tail();
    assert_eq!(tl.head(), Some(&2));

    let tl = tl.tail();
    assert_eq!(tl.head(), Some(&1));

    let tl = tl.tail();
    assert_eq!(tl.head(), None);
}

#[test]
fn threadlist_iter() {
    let tl = ThreadList::new().prepend(1).prepend(2).prepend(3);

    let mut iter = tl.iter();
    assert_eq!(iter.next(), Some(&3));
    assert_eq!(iter.next(), Some(&2));
    assert_eq!(iter.next(), Some(&1));
    assert_eq!(iter.next(), None);
}

#[test]
fn threadlist_structural_sharing() {
    let base = ThreadList::new().prepend(10).prepend(20);
    let branched = base.prepend(30);
    assert_eq!(base.head(), Some(&20));
    assert_eq!(branched.head(), Some(&30));
    drop(branched);
    assert_eq!(base.head(), Some(&20));
    assert_eq!(base.tail().head(), Some(&10));
}

#[test]
fn threadlist_clear_stops_at_shared_node() {
    let base = ThreadList::new().prepend(1).prepend(2);
    let mut branched = base.prepend(3);
    branched.clear();
    assert_eq!(branched.head(), None);
    assert_eq!(base.head(), Some(&2));
    assert_eq!(base.tail().head(), Some(&1));
}

#[test]
fn threadlist_long_teardown() {
    let mut tl = ThreadList::new();
    let mut i: u64 = 0;
    while i < 100_000 {
        tl = tl.prepend(i);
        i += 1;
    }
    tl.clear();
    assert!(tl.head().is_none());
}
