//! An immutable, structurally shared singly linked list built on reference
//! counting.
//!
//! [`RefList::prepend`] and [`RefList::tail`] never touch the receiver: they
//! return a new list whose chain shares every node with the old one, so many
//! lists may branch off a common tail. A node is released only when its last
//! holder lets go. [`RefList::clear`] walks the chain iteratively, reclaiming
//! each node this list owns exclusively, and stops at the first node some
//! other list still shares: that node's remaining holders are responsible for
//! it, and stopping there also keeps the walk from recursing.

use std::rc::Rc;
use vstd::prelude::*;

verus! {

/// A persistent list of `T` values; the view lists the elements from the
/// head down.
pub struct RefList<T> {
    head: Link<T>,
}

type Link<T> = Option<Rc<Node<T>>>;

struct Node<T> {
    elem: T,
    next: Link<T>,
}

/// The elements reachable from a link, nearest first.
spec fn link_view<T>(link: Link<T>) -> Seq<T>
    decreases link,
{
    match link {
        None => Seq::empty(),
        Some(node) => seq![node.elem] + link_view(node.next),
    }
}

impl<T> View for RefList<T> {
    type V = Seq<T>;

    closed spec fn view(&self) -> Seq<T> {
        link_view(self.head)
    }
}

impl<T> RefList<T> {
    /// Creates an empty list that shares nothing.
    pub fn new() -> (list: RefList<T>)
        ensures
            list@ == Seq::<T>::empty(),
    {
        RefList { head: None }
    }

    /// Returns a new list with `elem` in front of this list's elements. The
    /// receiver is not changed; the new list shares the receiver's whole
    /// chain as its tail.
    pub fn prepend(&self, elem: T) -> (extended: RefList<T>)
        ensures
            extended@ == seq![elem] + self@,
    {
        let next = match &self.head {
            None => None,
            Some(rc) => Some(rc.clone()),
        };
        RefList { head: Some(Rc::new(Node { elem, next })) }
    }

    /// Returns a new list viewing this list's elements after the first, or an
    /// empty list if there are none. The receiver is not changed; the new
    /// list shares the receiver's chain.
    pub fn tail(&self) -> (rest: RefList<T>)
        ensures
            self@.len() == 0 ==> rest@ == Seq::<T>::empty(),
            self@.len() > 0 ==> rest@ == self@.drop_first(),
    {
        let head = match &self.head {
            None => None,
            Some(rc) => match &rc.next {
                None => None,
                Some(next_rc) => Some(next_rc.clone()),
            },
        };
        proof {
            if self@.len() > 0 {
                assert(link_view(head) =~= self@.drop_first());
            }
        }
        RefList { head }
    }

    /// Borrows the first element, or returns `None` on an empty list.
    pub fn head(&self) -> (first: Option<&T>)
        ensures
            self@.len() == 0 ==> first.is_none(),
            self@.len() > 0 ==> first.is_some() && *first.unwrap() == self@[0],
    {
        match &self.head {
            None => None,
            Some(rc) => Some(&rc.elem),
        }
    }

    /// Returns a borrowing iterator over the elements from the head down. The
    /// list is left untouched, so a fresh call starts a fresh full pass.
    pub fn iter(&self) -> (it: Iter<'_, T>)
        ensures
            it@ == self@,
    {
        match &self.head {
            None => Iter { next: None },
            Some(rc) => Iter { next: Some(&**rc) },
        }
    }

    /// Releases this list's hold on its chain, leaving the list empty.
    ///
    /// The walk is iterative: each step reclaims the next node if this list
    /// was its only holder, and stops at the first node some other list still
    /// shares, since that node's remaining holders will release it. Neither
    /// outcome recurses, however long the exclusively owned prefix is.
    pub fn clear(&mut self)
        ensures
            final(self)@ == Seq::<T>::empty(),
    {
        let mut cur = self.head.take();
        loop
            invariant
                self@ == Seq::<T>::empty(),
            decreases link_view(cur).len(),
        {
            match cur {
                None => {
                    break;
                },
                Some(rc) => {
                    match Rc::try_unwrap(rc) {
                        Ok(node) => {
                            cur = node.next;
                        },
                        Err(_) => {
                            break;
                        },
                    }
                },
            }
        }
    }
}

/// A borrowing iterator over a [`RefList`]; the view lists the elements not
/// yet yielded.
pub struct Iter<'a, T> {
    next: Option<&'a Node<T>>,
}

impl<'a, T> View for Iter<'a, T> {
    type V = Seq<T>;

    closed spec fn view(&self) -> Seq<T> {
        match self.next {
            None => Seq::empty(),
            Some(node) => seq![node.elem] + link_view(node.next),
        }
    }
}

impl<'a, T> Iter<'a, T> {
    /// Yields a borrow of the next element, or `None` once exhausted.
    pub fn next(&mut self) -> (item: Option<&'a T>)
        ensures
            old(self)@.len() == 0 ==> item.is_none() && final(self)@ == old(self)@,
            old(self)@.len() > 0 ==> item.is_some() && *item.unwrap() == old(self)@[0] && final(self)@ == old(self)@.drop_first(),
    {
        match self.next {
            None => None,
            Some(node) => {
                proof {
                    assert(link_view(node.next) =~= old(self)@.drop_first());
                }
                self.next = match &node.next {
                    None => None,
                    Some(next_rc) => Some(&**next_rc),
                };
                Some(&node.elem)
            },
        }
    }
}

/// Law of structural sharing: prepending builds a list whose first element
/// is the new one and whose remaining elements are exactly the receiver's.
/// `prepend` and `tail` take the receiver by shared reference, so the
/// receiver itself is never changed, and the new list's tail is the shared
/// chain whose head element stays the receiver's own.
pub proof fn lemma_prepend_shares_tail<T>(list: Seq<T>, x: T)
    ensures
        (seq![x] + list).len() == list.len() + 1,
        (seq![x] + list)[0] == x,
        (seq![x] + list).drop_first() == list,
{
    assert((seq![x] + list).drop_first() =~= list);
}

} // verus!
