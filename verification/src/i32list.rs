//! A LIFO stack of `i32` values over a singly linked chain of exclusively
//! owned nodes.
//!
//! Every node is owned by its predecessor (or by the list itself, for the
//! head), so the whole chain is torn down by repeatedly detaching the head.
//! [`I32List::clear`] does exactly that in a loop; a teardown that instead
//! recursed along the chain could exhaust the call stack on a long list.

use vstd::prelude::*;

verus! {

/// A stack of `i32` values; the view lists the elements from the top down.
pub struct I32List {
    head: I32Link,
}

struct I32Node {
    elem: i32,
    next: I32Link,
}

enum I32Link {
    Empty,
    More(Box<I32Node>),
}

/// The elements reachable from a link, nearest first.
spec fn link_view(link: I32Link) -> Seq<i32>
    decreases link,
{
    match link {
        I32Link::Empty => Seq::empty(),
        I32Link::More(node) => seq![node.elem] + link_view(node.next),
    }
}

impl View for I32List {
    type V = Seq<i32>;

    closed spec fn view(&self) -> Seq<i32> {
        link_view(self.head)
    }
}

impl I32List {
    /// Creates an empty stack.
    pub fn new() -> (list: I32List)
        ensures
            list@ == Seq::<i32>::empty(),
    {
        I32List { head: I32Link::Empty }
    }

    /// Pushes `elem` on top of the stack.
    pub fn push(&mut self, elem: i32)
        ensures
            final(self)@ == seq![elem] + old(self)@,
    {
        let mut taken = I32Link::Empty;
        core::mem::swap(&mut taken, &mut self.head);
        let new_node = Box::new(I32Node { elem, next: taken });
        self.head = I32Link::More(new_node);
    }

    /// Removes and returns the top element, or `None` on an empty stack.
    pub fn pop(&mut self) -> (popped: Option<i32>)
        ensures
            old(self)@.len() == 0 ==> popped.is_none() && final(self)@ == old(self)@,
            old(self)@.len() > 0 ==> popped == Some(old(self)@[0]) && final(self)@ == old(self)@.drop_first(),
    {
        match self.pop_node() {
            I32Link::Empty => None,
            I32Link::More(node) => {
                proof {
                    assert(link_view(node.next) =~= old(self)@.drop_first());
                }
                self.head = node.next;
                Some(node.elem)
            },
        }
    }

    /// Detaches the whole chain from the list, leaving the list empty.
    fn pop_node(&mut self) -> (detached: I32Link)
        ensures
            link_view(detached) == old(self)@,
            final(self)@ == Seq::<i32>::empty(),
    {
        let mut taken = I32Link::Empty;
        core::mem::swap(&mut taken, &mut self.head);
        taken
    }

    /// Empties the stack iteratively, detaching one node per step, so that
    /// releasing a long chain never recurses to the chain's depth.
    pub fn clear(&mut self)
        ensures
            final(self)@ == Seq::<i32>::empty(),
    {
        let mut link = self.pop_node();
        loop
            invariant
                self@ == Seq::<i32>::empty(),
            decreases link_view(link).len(),
        {
            match link {
                I32Link::Empty => {
                    break;
                },
                I32Link::More(node) => {
                    link = node.next;
                },
            }
        }
    }
}

} // verus!
