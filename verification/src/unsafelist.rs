//! A FIFO queue of singly linked nodes held in an index-based arena.
//!
//! The classic way to get constant-time appends on a singly linked queue is
//! a raw, non-owning back-pointer to the last node, kept valid by hand and
//! checked by nobody. Here the nodes live in a growable arena instead and
//! link to one another by index, with a free list of vacated slots, so the
//! same manual invariant — the cached tail index always names the current
//! last live node, and is cleared when the queue empties — is stated in
//! [`UnsafeList::well_formed`] and proved at every operation instead of
//! trusted.

use vstd::prelude::*;
use vstd::std_specs::vec::vec_index_mut;
use vstd::pervasive::unreached;

verus! {

struct Node<T> {
    elem: T,
    next: Option<usize>,
}

/// A queue of `T` values; the view lists the elements from the front (the
/// pop side) to the back (the push side).
pub struct UnsafeList<T> {
    nodes: Vec<Option<Node<T>>>,
    free: Vec<usize>,
    head: Option<usize>,
    tail: Option<usize>,
    order: Ghost<Seq<int>>,
}

/// The slots named by `ord` hold the queue's nodes, in queue order, each
/// linking to its successor and the last linking nowhere.
spec fn ord_links_ok<T>(nodes: Seq<Option<Node<T>>>, ord: Seq<int>) -> bool {
    &&& forall|k: int| 0 <= k < ord.len() ==> 0 <= #[trigger] ord[k] < nodes.len()
    &&& forall|k: int| 0 <= k < ord.len() ==> (#[trigger] nodes[ord[k]]) is Some
    &&& forall|j: int, k: int| 0 <= j < k < ord.len() ==> ord[j] != ord[k]
    &&& forall|k: int| 0 <= k < ord.len() - 1 ==> (#[trigger] nodes[ord[k]]).unwrap().next == Some(
        ord[k + 1] as usize,
    )
    &&& ord.len() > 0 ==> nodes[ord[ord.len() - 1]].unwrap().next is None
}

/// Every free-list entry names a distinct vacant slot.
spec fn free_ok<T>(nodes: Seq<Option<Node<T>>>, free: Seq<usize>) -> bool {
    &&& forall|j: int|
        0 <= j < free.len() ==> 0 <= #[trigger] free[j] < nodes.len() && nodes[free[j] as int] is None
    &&& forall|i: int, j: int| 0 <= i < j < free.len() ==> free[i] != free[j]
}

/// The elements of the slots named by `ord`, in that order.
spec fn elems_of<T>(nodes: Seq<Option<Node<T>>>, ord: Seq<int>) -> Seq<T> {
    Seq::new(ord.len(), |k: int| nodes[ord[k]].unwrap().elem)
}

/// Rewriting one chained slot's element — its link untouched — disturbs
/// neither the chain nor the free list.
proof fn lemma_elem_update<T>(
    nodes: Seq<Option<Node<T>>>,
    free: Seq<usize>,
    ord: Seq<int>,
    at: int,
    nodes1: Seq<Option<Node<T>>>,
)
    requires
        ord_links_ok(nodes, ord),
        free_ok(nodes, free),
        0 <= at < ord.len(),
        ({
            let node0 = nodes[ord[at]].unwrap();
            exists|e: T| nodes1 == nodes.update(ord[at], Some(Node { elem: e, next: node0.next }))
        }),
    ensures
        ord_links_ok(nodes1, ord),
        free_ok(nodes1, free),
        elems_of(nodes1, ord) == elems_of(nodes, ord).update(at, nodes1[ord[at]].unwrap().elem),
{
    assert(nodes[ord[at]] is Some);
    assert forall|k: int| 0 <= k < ord.len() implies (#[trigger] nodes1[ord[k]]) is Some by {
        if k != at {
            assert(ord[k] != ord[at]);
            assert(nodes[ord[k]] is Some);
        }
    }
    assert forall|k: int| 0 <= k < ord.len() - 1 implies (#[trigger] nodes1[ord[k]]).unwrap().next
        == Some(ord[k + 1] as usize) by {
        if k != at {
            assert(ord[k] != ord[at]);
        }
        assert(nodes[ord[k]].unwrap().next == Some(ord[k + 1] as usize));
    }
    if ord.len() > 0 {
        assert(nodes1[ord[ord.len() - 1]].unwrap().next is None);
    }
    assert forall|j: int|
        0 <= j < free.len() implies 0 <= #[trigger] free[j] < nodes1.len() && nodes1[free[j] as int] is None by {
        assert(nodes[free[j] as int] is None);
        assert(free[j] != ord[at]);
    }
    assert(elems_of(nodes1, ord) =~= elems_of(nodes, ord).update(at, nodes1[ord[at]].unwrap().elem));
}

impl<T> View for UnsafeList<T> {
    type V = Seq<T>;

    closed spec fn view(&self) -> Seq<T> {
        elems_of(self.nodes@, self.order@)
    }
}

impl<T> UnsafeList<T> {
    /// The arena invariant: the occupied slots form one chain in queue
    /// order, the head and tail indices name its ends (and are cleared when
    /// the queue is empty), and the free list names distinct vacant slots.
    pub closed spec fn well_formed(&self) -> bool {
        &&& self.nodes@.len() == self.nodes.len()
        &&& ord_links_ok(self.nodes@, self.order@)
        &&& free_ok(self.nodes@, self.free@)
        &&& self.head == (if self.order@.len() == 0 {
            Option::<usize>::None
        } else {
            Some(self.order@[0] as usize)
        })
        &&& self.tail == (if self.order@.len() == 0 {
            Option::<usize>::None
        } else {
            Some(self.order@[self.order@.len() - 1] as usize)
        })
    }

    /// Creates an empty queue.
    pub fn new() -> (queue: UnsafeList<T>)
        ensures
            queue.well_formed(),
            queue@ == Seq::<T>::empty(),
    {
        let queue = UnsafeList {
            nodes: Vec::new(),
            free: Vec::new(),
            head: None,
            tail: None,
            order: Ghost(Seq::empty()),
        };
        proof {
            assert(queue@ =~= Seq::<T>::empty());
        }
        queue
    }

    /// Stores `node` in a vacant slot — reusing a freed one if any — and
    /// returns its index. Links, ends and order are left alone.
    fn place(&mut self, node: Node<T>) -> (slot: usize)
        requires
            free_ok(old(self).nodes@, old(self).free@),
        ensures
            final(self).head == old(self).head,
            final(self).tail == old(self).tail,
            final(self).order == old(self).order,
            (slot as int) < final(self).nodes@.len(),
            final(self).nodes@.len() == (if slot as int == old(self).nodes@.len() {
                old(self).nodes@.len() + 1
            } else {
                old(self).nodes@.len()
            }),
            final(self).nodes@[slot as int] == Some(node),
            forall|i: int|
                0 <= i < old(self).nodes@.len() && i != slot as int ==> #[trigger] final(self).nodes@[i] == old(self).nodes@[i],
            slot as int == old(self).nodes@.len() || old(self).nodes@[slot as int] is None,
            free_ok(final(self).nodes@, final(self).free@),
            forall|j: int| 0 <= j < final(self).free@.len() ==> #[trigger] final(self).free@[j] != slot,
    {
        match self.free.pop() {
            Some(slot) => {
                self.nodes[slot] = Some(node);
                slot
            },
            None => {
                let slot = self.nodes.len();
                self.nodes.push(Some(node));
                slot
            },
        }
    }

    /// Appends `elem` at the back of the queue.
    pub fn push(&mut self, elem: T)
        requires
            old(self).well_formed(),
        ensures
            final(self).well_formed(),
            final(self)@ == old(self)@.push(elem),
    {
        let node = Node { elem, next: None };
        let slot = self.place(node);
        match self.tail {
            Some(last) => {
                proof {
                    let ord0 = old(self).order@;
                    assert(old(self).nodes@[ord0[ord0.len() - 1]] is Some);
                    assert(self.nodes@[last as int] == old(self).nodes@[last as int]);
                }
                let slot_ref = vec_index_mut(&mut self.nodes, last);
                match slot_ref {
                    Some(tail_node) => {
                        tail_node.next = Some(slot);
                    },
                    None => {},
                }
            },
            None => {
                self.head = Some(slot);
            },
        }
        self.tail = Some(slot);
        proof {
            self.order@ = old(self).order@.push(slot as int);
        }
        proof {
            let ord0 = old(self).order@;
            let nodes1 = self.nodes@;
            let ord1 = self.order@;
            assert forall|k: int| 0 <= k < ord1.len() implies (#[trigger] nodes1[ord1[k]]) is Some by {
                if k < ord0.len() {
                    assert(old(self).nodes@[ord0[k]] is Some);
                }
            }
            assert forall|k: int| 0 <= k < ord1.len() - 1 implies (#[trigger] nodes1[ord1[k]]).unwrap().next
                == Some(ord1[k + 1] as usize) by {
                assert(old(self).nodes@[ord0[k]] is Some);
                if k < ord0.len() - 1 {
                    assert(ord0[ord0.len() - 1] != ord0[k]);
                }
            }
            assert(self@ =~= old(self)@.push(elem));
        }
    }

    /// Removes and returns the front element, or `None` on an empty queue.
    /// A pop that empties the queue also clears the cached tail index.
    pub fn pop(&mut self) -> (popped: Option<T>)
        requires
            old(self).well_formed(),
        ensures
            final(self).well_formed(),
            old(self)@.len() == 0 ==> popped.is_none() && final(self)@ == old(self)@,
            old(self)@.len() > 0 ==> popped == Some(old(self)@[0]) && final(self)@ == old(self)@.drop_first(),
    {
        match self.head {
            None => None,
            Some(front) => {
                let slot_ref = vec_index_mut(&mut self.nodes, front);
                let taken = slot_ref.take();
                match taken {
                    Some(node) => {
                        self.free.push(front);
                        self.head = node.next;
                        if node.next.is_none() {
                            self.tail = None;
                        }
                        proof {
                            self.order@ = old(self).order@.drop_first();
                        }
                        proof {
                            let ord0 = old(self).order@;
                            let nodes1 = self.nodes@;
                            let ord1 = self.order@;
                            assert forall|k: int| 0 <= k < ord1.len() implies (#[trigger] nodes1[ord1[k]])
                                == old(self).nodes@[ord1[k]] by {
                                assert(ord0[k + 1] != ord0[0]);
                            }
                            assert forall|j: int|
                                0 <= j < self.free@.len() implies 0 <= #[trigger] self.free@[j]
                                < nodes1.len() && nodes1[self.free@[j] as int] is None by {
                                if j < old(self).free@.len() {
                                    assert(old(self).free@[j] != ord0[0]) by {
                                        assert(old(self).nodes@[ord0[0]] is Some);
                                    }
                                }
                            }
                            assert forall|i: int, j: int|
                                0 <= i < j < self.free@.len() implies self.free@[i] != self.free@[j] by {
                                if j == self.free@.len() - 1 {
                                    assert(old(self).nodes@[old(self).free@[i] as int] is None);
                                    assert(old(self).nodes@[ord0[0]] is Some);
                                }
                            }
                            assert(self@ =~= old(self)@.drop_first());
                        }
                        Some(node.elem)
                    },
                    None => unreached(),
                }
            },
        }
    }

    /// Borrows the front element, or returns `None` on an empty queue.
    pub fn peek(&self) -> (front: Option<&T>)
        requires
            self.well_formed(),
        ensures
            self@.len() == 0 ==> front.is_none(),
            self@.len() > 0 ==> front.is_some() && *front.unwrap() == self@[0],
    {
        match self.head {
            None => None,
            Some(front) => {
                proof {
                    assert(self.nodes@[self.order@[0]] is Some);
                    assert(self@[0] == self.nodes@[self.order@[0]].unwrap().elem);
                }
                match vstd::std_specs::vec::vec_index(&self.nodes, front) {
                    Some(node) => Some(&node.elem),
                    None => unreached(),
                }
            },
        }
    }

    /// Mutably borrows the front element, or returns `None` on an empty
    /// queue. A write through the borrow is visible to every later operation.
    pub fn peek_mut(&mut self) -> (front: Option<&mut T>)
        requires
            old(self).well_formed(),
        ensures
            final(self).well_formed(),
            old(self)@.len() == 0 ==> front.is_none() && final(self)@ == old(self)@,
            old(self)@.len() > 0 ==> front.is_some() && *front.unwrap() == old(self)@[0] && final(self)@ == old(self)@.update(0, *final(front.unwrap())),
    {
        match self.head {
            None => None,
            Some(h) => {
                proof {
                    assert(old(self).nodes@[old(self).order@[0]] is Some);
                }
                let slot_ref = vec_index_mut(&mut self.nodes, h);
                match slot_ref {
                    Some(node) => {
                        let elem_ref = &mut node.elem;
                        proof {
                            let ord0 = old(self).order@;
                            let node0 = old(self).nodes@[ord0[0]].unwrap();
                            let nodes1 = old(self).nodes@.update(
                                ord0[0],
                                Some(Node { elem: *final(elem_ref), next: node0.next }),
                            );
                            assert forall|k: int| 0 <= k < ord0.len() implies (
                            #[trigger] nodes1[ord0[k]]) is Some by {
                                if k != 0 {
                                    assert(ord0[0] != ord0[k]);
                                    assert(old(self).nodes@[ord0[k]] is Some);
                                }
                            }
                            assert forall|k: int| 0 <= k < ord0.len() - 1 implies (
                            #[trigger] nodes1[ord0[k]]).unwrap().next == Some(ord0[k + 1] as usize) by {
                                if k != 0 {
                                    assert(ord0[0] != ord0[k]);
                                }
                                assert(old(self).nodes@[ord0[k]].unwrap().next == Some(
                                    ord0[k + 1] as usize,
                                ));
                            }
                            if ord0.len() > 1 {
                                assert(ord0[0] != ord0[ord0.len() - 1]);
                            }
                            assert forall|j: int|
                                0 <= j < old(self).free@.len() implies 0 <= #[trigger] old(
                                self,
                            ).free@[j] < nodes1.len() && nodes1[old(self).free@[j] as int] is None by {
                                assert(old(self).nodes@[old(self).free@[j] as int] is None);
                            }
                            assert(elems_of(nodes1, ord0) =~= elems_of(old(self).nodes@, ord0).update(
                                0,
                                *final(elem_ref),
                            ));
                        }
                        Some(elem_ref)
                    },
                    None => unreached(),
                }
            },
        }
    }

    /// Turns the queue into a consuming iterator that yields the elements
    /// from the front, exactly as repeated `pop` calls would.
    pub fn into_iter(self) -> (it: IntoIter<T>)
        requires
            self.well_formed(),
        ensures
            it.well_formed(),
            it@ == self@,
    {
        IntoIter(self)
    }

    /// Returns a borrowing iterator over the elements from the front. The
    /// queue is left untouched, so a fresh call starts a fresh full pass.
    pub fn iter(&self) -> (it: Iter<'_, T>)
        requires
            self.well_formed(),
        ensures
            it.well_formed(),
            it@ == self@,
    {
        let it = Iter { list: self, cur: self.head, pos: Ghost(0) };
        proof {
            assert(it@ =~= self@);
        }
        it
    }

    /// Returns a mutable cursor positioned at the front of the queue. Each
    /// call of the cursor's `next` on this queue hands out a mutable borrow
    /// of one element, front to back; a write through it is visible to
    /// every later operation.
    pub fn iter_mut(&self) -> (it: IterMut)
        requires
            self.well_formed(),
        ensures
            it.valid_for(self),
            it.position() == 0,
    {
        IterMut { cur: self.head, pos: Ghost(0) }
    }

    /// Empties the queue iteratively, releasing one node per step.
    pub fn clear(&mut self)
        requires
            old(self).well_formed(),
        ensures
            final(self).well_formed(),
            final(self)@ == Seq::<T>::empty(),
    {
        loop
            invariant
                self.well_formed(),
            ensures
                self.well_formed() && self@.len() == 0,
            decreases self@.len(),
        {
            match self.pop() {
                None => {
                    break;
                },
                Some(_) => {},
            }
        }
        proof {
            assert(self@ =~= Seq::<T>::empty());
        }
    }
}

/// A consuming iterator over an [`UnsafeList`]; the view lists the elements
/// not yet yielded.
pub struct IntoIter<T>(UnsafeList<T>);

impl<T> View for IntoIter<T> {
    type V = Seq<T>;

    closed spec fn view(&self) -> Seq<T> {
        self.0@
    }
}

impl<T> IntoIter<T> {
    /// The inner queue is intact.
    pub closed spec fn well_formed(&self) -> bool {
        self.0.well_formed()
    }

    /// Yields the next element by value, or `None` once exhausted.
    pub fn next(&mut self) -> (item: Option<T>)
        requires
            old(self).well_formed(),
        ensures
            final(self).well_formed(),
            old(self)@.len() == 0 ==> item.is_none() && final(self)@ == old(self)@,
            old(self)@.len() > 0 ==> item == Some(old(self)@[0]) && final(self)@ == old(self)@.drop_first(),
    {
        self.0.pop()
    }
}

/// A borrowing iterator over an [`UnsafeList`]; the view lists the elements
/// not yet yielded.
pub struct Iter<'a, T> {
    list: &'a UnsafeList<T>,
    cur: Option<usize>,
    pos: Ghost<int>,
}

impl<'a, T> View for Iter<'a, T> {
    type V = Seq<T>;

    closed spec fn view(&self) -> Seq<T> {
        self.list@.skip(self.pos@)
    }
}

impl<'a, T> Iter<'a, T> {
    /// The iterator sits at a position of the borrowed queue's chain, and
    /// its cursor names the slot of that position's node.
    pub closed spec fn well_formed(&self) -> bool {
        &&& self.list.well_formed()
        &&& 0 <= self.pos@ <= self.list.order@.len()
        &&& self.cur == (if self.pos@ == self.list.order@.len() {
            Option::<usize>::None
        } else {
            Some(self.list.order@[self.pos@] as usize)
        })
    }

    /// Yields a borrow of the next element, or `None` once exhausted.
    pub fn next(&mut self) -> (item: Option<&'a T>)
        requires
            old(self).well_formed(),
        ensures
            final(self).well_formed(),
            old(self)@.len() == 0 ==> item.is_none() && final(self)@ == old(self)@,
            old(self)@.len() > 0 ==> item.is_some() && *item.unwrap() == old(self)@[0] && final(self)@ == old(self)@.drop_first(),
    {
        let list = self.list;
        match self.cur {
            None => None,
            Some(slot) => {
                proof {
                    assert(list.nodes@[list.order@[self.pos@]] is Some);
                }
                match vstd::std_specs::vec::vec_index(&list.nodes, slot) {
                    Some(node) => {
                        self.cur = node.next;
                        proof {
                            self.pos@ = self.pos@ + 1;
                            if old(self).pos@ < list.order@.len() - 1 {
                                assert(node.next == Some(list.order@[old(self).pos@ + 1] as usize));
                            }
                            assert(final(self)@ =~= old(self)@.drop_first());
                        }
                        Some(&node.elem)
                    },
                    None => unreached(),
                }
            },
        }
    }
}

/// A mutable cursor over an [`UnsafeList`]: it walks the queue front to
/// back, and each step yields a mutable borrow of one element of the queue
/// it is handed. It holds no borrow itself between steps.
pub struct IterMut {
    cur: Option<usize>,
    pos: Ghost<int>,
}

impl IterMut {
    /// The cursor sits at a position of `list`'s chain, and its slot index
    /// names that position's node.
    pub closed spec fn valid_for<T>(&self, list: &UnsafeList<T>) -> bool {
        &&& 0 <= self.pos@ <= list.order@.len()
        &&& self.cur == (if self.pos@ == list.order@.len() {
            Option::<usize>::None
        } else {
            Some(list.order@[self.pos@] as usize)
        })
    }

    /// How many elements the cursor has already yielded.
    pub closed spec fn position(&self) -> int {
        self.pos@
    }

    /// Yields a mutable borrow of the next element of `list`, or `None`
    /// once the cursor has walked past the back.
    pub fn next<'a, T>(&mut self, list: &'a mut UnsafeList<T>) -> (item: Option<&'a mut T>)
        requires
            old(list).well_formed(),
            old(self).valid_for(old(list)),
        ensures
            final(list).well_formed(),
            final(self).valid_for(final(list)),
            old(self).position() == old(list)@.len() ==> item.is_none() && final(list)@ == old(list)@ && *final(self) == *old(self),
            old(self).position() < old(list)@.len() ==> item.is_some()
                && *item.unwrap() == old(list)@[old(self).position()]
                && final(list)@ == old(list)@.update(old(self).position(), *final(item.unwrap()))
                && final(self).position() == old(self).position() + 1,
    {
        match self.cur {
            None => None,
            Some(slot) => {
                proof {
                    assert(old(list).nodes@[old(list).order@[self.pos@]] is Some);
                }
                let slot_ref = vec_index_mut(&mut list.nodes, slot);
                match slot_ref {
                    Some(node) => {
                        self.cur = node.next;
                        let elem_ref = &mut node.elem;
                        proof {
                            let ord0 = old(list).order@;
                            let at = self.pos@;
                            let node0 = old(list).nodes@[ord0[at]].unwrap();
                            let nodes1 = old(list).nodes@.update(
                                ord0[at],
                                Some(Node { elem: *final(elem_ref), next: node0.next }),
                            );
                            lemma_elem_update(old(list).nodes@, old(list).free@, ord0, at, nodes1);
                            if at < ord0.len() - 1 {
                                assert(node0.next == Some(ord0[at + 1] as usize));
                            }
                            self.pos@ = at + 1;
                        }
                        Some(elem_ref)
                    },
                    None => unreached(),
                }
            },
        }
    }
}

/// Law: pushing `a`, `b`, `c` into an empty queue and then popping three
/// times yields `a`, `b`, `c` — first in, first out. The steps are stated
/// over the views exactly as the contracts of `push` (which appends to the
/// view) and `pop` (which yields the view's first element and drops it)
/// describe them.
pub proof fn lemma_fifo_order<T>(a: T, b: T, c: T)
    ensures
        ({
            let s3 = Seq::<T>::empty().push(a).push(b).push(c);
            let s2 = s3.drop_first();
            let s1 = s2.drop_first();
            &&& s3.len() == 3 && s3[0] == a
            &&& s2.len() == 2 && s2[0] == b
            &&& s1.len() == 1 && s1[0] == c
            &&& s1.drop_first() == Seq::<T>::empty()
        }),
{
    let s3 = Seq::<T>::empty().push(a).push(b).push(c);
    assert(s3.drop_first().drop_first().drop_first() =~= Seq::<T>::empty());
}

} // verus!
