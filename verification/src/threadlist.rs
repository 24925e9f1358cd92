//! An immutable, structurally shared singly linked list that may be handed
//! across threads.
//!
//! The contract and algorithms are those of [`crate::reflist`], but the nodes
//! are held through atomically reference-counted handles and are never
//! mutated after publication, so a list and its clones can be read from many
//! threads at once without locks. [`ThreadList::clear`] walks the chain
//! iteratively, reclaiming each node this list owns exclusively, and stops at
//! the first node some other list still shares.

use std::sync::Arc;
use vstd::prelude::*;

verus! {

/// A persistent list of `T` values; the view lists the elements from the
/// head down.
pub struct ThreadList<T> {
    head: Link<T>,
}

type Link<T> = Option<Arc<Node<T>>>;

struct Node<T> {
    elem: T,
    next: Link<T>,
}

/// Relies on std's `Arc::try_unwrap`: it returns the pointed-to value when
/// the given handle was the last one, and hands the handle back unchanged
/// otherwise.
#[verifier::external_body]
fn arc_try_unwrap<T>(this: Arc<T>) -> (reclaimed: Result<T, Arc<T>>)
    ensures
        match reclaimed {
            Ok(value) => value == this,
            Err(handle) => handle == this,
        },
{
    Arc::try_unwrap(this)
}

/// The elements reachable from a link, nearest first.
spec fn link_view<T>(link: Link<T>) -> Seq<T>
    decreases link,
{
    match link {
        None => Seq::empty(),
        Some(node) => seq![node.elem] + link_view(node.next),
    }
}

impl<T> View for ThreadList<T> {
    type V = Seq<T>;

    closed spec fn view(&self) -> Seq<T> {
        link_view(self.head)
    }
}

impl<T> ThreadList<T> {
    /// Creates an empty list that shares nothing.
    pub fn new() -> (list: ThreadList<T>)
        ensures
            list@ == Seq::<T>::empty(),
    {
        ThreadList { head: None }
    }

    /// Returns a new list with `elem` in front of this list's elements. The
    /// receiver is not changed; the new list shares the receiver's whole
    /// chain as its tail.
    pub fn prepend(&self, elem: T) -> (extended: ThreadList<T>)
        ensures
            extended@ == seq![elem] + self@,
    {
        let next = match &self.head {
            None => None,
            Some(handle) => Some(handle.clone()),
        };
        ThreadList { head: Some(Arc::new(Node { elem, next })) }
    }

    /// Returns a new list viewing this list's elements after the first, or an
    /// empty list if there are none. The receiver is not changed; the new
    /// list shares the receiver's chain.
    pub fn tail(&self) -> (rest: ThreadList<T>)
        ensures
            self@.len() == 0 ==> rest@ == Seq::<T>::empty(),
            self@.len() > 0 ==> rest@ == self@.drop_first(),
    {
        let head = match &self.head {
            None => None,
            Some(handle) => match &handle.next {
                None => None,
                Some(next_handle) => Some(next_handle.clone()),
            },
        };
        proof {
            if self@.len() > 0 {
                assert(link_view(head) =~= self@.drop_first());
            }
        }
        ThreadList { head }
    }

    /// Borrows the first element, or returns `None` on an empty list.
    pub fn head(&self) -> (first: Option<&T>)
        ensures
            self@.len() == 0 ==> first.is_none(),
            self@.len() > 0 ==> first.is_some() && *first.unwrap() == self@[0],
    {
        match &self.head {
            None => None,
            Some(handle) => Some(&handle.elem),
        }
    }

    /// Returns a borrowing iterator over the elements from the head down. The
    /// list is left untouched, so a fresh call starts a fresh full pass.
    pub fn iter(&self) -> (it: Iter<'_, T>)
        ensures
            it@ == self@,
    {
        match &self.head {
            None => Iter { next: None },
            Some(handle) => Iter { next: Some(&**handle) },
        }
    }

    /// Releases this list's hold on its chain, leaving the list empty.
    ///
    /// The walk is iterative: each step reclaims the next node if this list
    /// was its only holder, and stops at the first node some other list still
    /// shares, since that node's remaining holders will release it. Neither
    /// outcome recurses, however long the exclusively owned prefix is.
    pub fn clear(&mut self)
        ensures
            final(self)@ == Seq::<T>::empty(),
    {
        let mut cur = self.head.take();
        loop
            invariant
                self@ == Seq::<T>::empty(),
            decreases link_view(cur).len(),
        {
            match cur {
                None => {
                    break;
                },
                Some(handle) => {
                    match arc_try_unwrap(handle) {
                        Ok(node) => {
                            cur = node.next;
                        },
                        Err(_) => {
                            break;
                        },
                    }
                },
            }
        }
    }
}

/// A borrowing iterator over a [`ThreadList`]; the view lists the elements not
/// yet yielded.
pub struct Iter<'a, T> {
    next: Option<&'a Node<T>>,
}

impl<'a, T> View for Iter<'a, T> {
    type V = Seq<T>;

    closed spec fn view(&self) -> Seq<T> {
        match self.next {
            None => Seq::empty(),
            Some(node) => seq![node.elem] + link_view(node.next),
        }
    }
}

impl<'a, T> Iter<'a, T> {
    /// Yields a borrow of the next element, or `None` once exhausted.
    pub fn next(&mut self) -> (item: Option<&'a T>)
        ensures
            old(self)@.len() == 0 ==> item.is_none() && final(self)@ == old(self)@,
            old(self)@.len() > 0 ==> item.is_some() && *item.unwrap() == old(self)@[0] && final(self)@ == old(self)@.drop_first(),
    {
        match self.next {
            None => None,
            Some(node) => {
                proof {
                    assert(link_view(node.next) =~= old(self)@.drop_first());
                }
                self.next = match &node.next {
                    None => None,
                    Some(next_handle) => Some(&**next_handle),
                };
                Some(&node.elem)
            },
        }
    }
}

} // verus!
