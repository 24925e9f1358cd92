//! A double-ended queue of doubly linked nodes held in an index-based arena.
//!
//! Every node is reachable from both sides: its predecessor's forward link
//! and its successor's backward link name the same slot, and the queue keeps
//! the slots of both ends. The nodes live in a growable arena and link by
//! index, with a free list of vacated slots, so the bidirectional invariant —
//! each interior node's neighbours point back at it — is stated in
//! [`DubDeque::well_formed`] and proved at every operation.

use vstd::prelude::*;
use vstd::std_specs::vec::vec_index_mut;
use vstd::pervasive::unreached;

verus! {

struct Node<T> {
    elem: T,
    next: Option<usize>,
    prev: Option<usize>,
}

impl<T> Node<T> {
    /// Creates a fresh node holding `elem`, linked to nothing yet.
    fn new(elem: T) -> (node: Node<T>)
        ensures
            node.elem == elem,
            node.next is None,
            node.prev is None,
    {
        Node { elem, next: None, prev: None }
    }
}

/// A deque of `T` values; the view lists the elements from front to back.
pub struct DubDeque<T> {
    nodes: Vec<Option<Node<T>>>,
    free: Vec<usize>,
    head: Option<usize>,
    tail: Option<usize>,
    order: Ghost<Seq<int>>,
}

/// The slots named by `ord` hold the deque's nodes in front-to-back order;
/// each node's forward and backward links name its neighbours' slots, and
/// the two end nodes link outward to nothing.
spec fn ord_links_ok<T>(nodes: Seq<Option<Node<T>>>, ord: Seq<int>) -> bool {
    &&& forall|k: int| 0 <= k < ord.len() ==> 0 <= #[trigger] ord[k] < nodes.len()
    &&& forall|k: int| 0 <= k < ord.len() ==> (#[trigger] nodes[ord[k]]) is Some
    &&& forall|j: int, k: int| 0 <= j < k < ord.len() ==> ord[j] != ord[k]
    &&& forall|k: int| 0 <= k < ord.len() - 1 ==> (#[trigger] nodes[ord[k]]).unwrap().next == Some(
        ord[k + 1] as usize,
    )
    &&& forall|k: int| 1 <= k < ord.len() ==> (#[trigger] nodes[ord[k]]).unwrap().prev == Some(
        ord[k - 1] as usize,
    )
    &&& ord.len() > 0 ==> nodes[ord[ord.len() - 1]].unwrap().next is None
    &&& ord.len() > 0 ==> nodes[ord[0]].unwrap().prev is None
}

/// Every free-list entry names a distinct vacant slot.
spec fn free_ok<T>(nodes: Seq<Option<Node<T>>>, free: Seq<usize>) -> bool {
    &&& forall|j: int|
        0 <= j < free.len() ==> 0 <= #[trigger] free[j] < nodes.len() && nodes[free[j] as int] is None
    &&& forall|i: int, j: int| 0 <= i < j < free.len() ==> free[i] != free[j]
}

/// The elements of the slots named by `ord`, in that order.
spec fn elems_of<T>(nodes: Seq<Option<Node<T>>>, ord: Seq<int>) -> Seq<T> {
    Seq::new(ord.len(), |k: int| nodes[ord[k]].unwrap().elem)
}

/// Rewriting one chained slot's element — its links untouched — disturbs
/// neither the chain nor the free list.
proof fn lemma_elem_update<T>(
    nodes: Seq<Option<Node<T>>>,
    free: Seq<usize>,
    ord: Seq<int>,
    at: int,
    nodes1: Seq<Option<Node<T>>>,
)
    requires
        ord_links_ok(nodes, ord),
        free_ok(nodes, free),
        0 <= at < ord.len(),
        ({
            let node0 = nodes[ord[at]].unwrap();
            exists|e: T|
                nodes1 == nodes.update(
                    ord[at],
                    Some(Node { elem: e, next: node0.next, prev: node0.prev }),
                )
        }),
    ensures
        ord_links_ok(nodes1, ord),
        free_ok(nodes1, free),
{
    assert(nodes[ord[at]] is Some);
    assert forall|k: int| 0 <= k < ord.len() implies (#[trigger] nodes1[ord[k]]) is Some by {
        if k != at {
            assert(ord[k] != ord[at]);
            assert(nodes[ord[k]] is Some);
        }
    }
    assert forall|k: int| 0 <= k < ord.len() - 1 implies (#[trigger] nodes1[ord[k]]).unwrap().next
        == Some(ord[k + 1] as usize) by {
        if k != at {
            assert(ord[k] != ord[at]);
        }
        assert(nodes[ord[k]].unwrap().next == Some(ord[k + 1] as usize));
    }
    assert forall|k: int| 1 <= k < ord.len() implies (#[trigger] nodes1[ord[k]]).unwrap().prev
        == Some(ord[k - 1] as usize) by {
        if k != at {
            assert(ord[k] != ord[at]);
        }
        assert(nodes[ord[k]].unwrap().prev == Some(ord[k - 1] as usize));
    }
    if ord.len() > 0 {
        assert(nodes1[ord[ord.len() - 1]].unwrap().next is None);
        assert(nodes1[ord[0]].unwrap().prev is None);
    }
    assert forall|j: int|
        0 <= j < free.len() implies 0 <= #[trigger] free[j] < nodes1.len() && nodes1[free[j] as int] is None by {
        assert(nodes[free[j] as int] is None);
        assert(free[j] != ord[at]);
    }
}

impl<T> View for DubDeque<T> {
    type V = Seq<T>;

    closed spec fn view(&self) -> Seq<T> {
        elems_of(self.nodes@, self.order@)
    }
}

impl<T> DubDeque<T> {
    /// The arena invariant: the occupied slots form one bidirectionally
    /// consistent chain in deque order, the head and tail indices name its
    /// ends (and are cleared when the deque is empty), and the free list
    /// names distinct vacant slots.
    pub closed spec fn well_formed(&self) -> bool {
        &&& self.nodes@.len() == self.nodes.len()
        &&& ord_links_ok(self.nodes@, self.order@)
        &&& free_ok(self.nodes@, self.free@)
        &&& self.head == (if self.order@.len() == 0 {
            Option::<usize>::None
        } else {
            Some(self.order@[0] as usize)
        })
        &&& self.tail == (if self.order@.len() == 0 {
            Option::<usize>::None
        } else {
            Some(self.order@[self.order@.len() - 1] as usize)
        })
    }

    /// Creates an empty deque.
    pub fn new() -> (deque: DubDeque<T>)
        ensures
            deque.well_formed(),
            deque@ == Seq::<T>::empty(),
    {
        let deque = DubDeque {
            nodes: Vec::new(),
            free: Vec::new(),
            head: None,
            tail: None,
            order: Ghost(Seq::empty()),
        };
        proof {
            assert(deque@ =~= Seq::<T>::empty());
        }
        deque
    }

    /// Stores `node` in a vacant slot — reusing a freed one if any — and
    /// returns its index. Links, ends and order are left alone.
    fn place(&mut self, node: Node<T>) -> (slot: usize)
        requires
            free_ok(old(self).nodes@, old(self).free@),
            old(self).nodes@.len() == old(self).nodes.len(),
        ensures
            final(self).head == old(self).head,
            final(self).tail == old(self).tail,
            final(self).order == old(self).order,
            final(self).nodes@.len() == final(self).nodes.len(),
            (slot as int) < final(self).nodes@.len(),
            final(self).nodes@.len() == (if slot as int == old(self).nodes@.len() {
                old(self).nodes@.len() + 1
            } else {
                old(self).nodes@.len()
            }),
            final(self).nodes@[slot as int] == Some(node),
            forall|i: int|
                0 <= i < old(self).nodes@.len() && i != slot as int ==> #[trigger] final(self).nodes@[i] == old(self).nodes@[i],
            slot as int == old(self).nodes@.len() || old(self).nodes@[slot as int] is None,
            free_ok(final(self).nodes@, final(self).free@),
            forall|j: int| 0 <= j < final(self).free@.len() ==> #[trigger] final(self).free@[j] != slot,
    {
        match self.free.pop() {
            Some(slot) => {
                self.nodes[slot] = Some(node);
                slot
            },
            None => {
                let slot = self.nodes.len();
                self.nodes.push(Some(node));
                slot
            },
        }
    }

    /// Inserts `elem` at the front of the deque.
    pub fn push_front(&mut self, elem: T)
        requires
            old(self).well_formed(),
        ensures
            final(self).well_formed(),
            final(self)@ == seq![elem] + old(self)@,
    {
        let mut node = Node::new(elem);
        node.next = self.head;
        let slot = self.place(node);
        match self.head {
            Some(old_head) => {
                proof {
                    let ord0 = old(self).order@;
                    assert(old(self).nodes@[ord0[0]] is Some);
                    assert(self.nodes@[old_head as int] == old(self).nodes@[old_head as int]);
                }
                let slot_ref = vec_index_mut(&mut self.nodes, old_head);
                match slot_ref {
                    Some(head_node) => {
                        head_node.prev = Some(slot);
                    },
                    None => {},
                }
            },
            None => {
                self.tail = Some(slot);
            },
        }
        self.head = Some(slot);
        proof {
            self.order@ = seq![slot as int] + old(self).order@;
        }
        proof {
            let ord0 = old(self).order@;
            let nodes1 = self.nodes@;
            let ord1 = self.order@;
            assert forall|k: int| 0 <= k < ord1.len() implies (#[trigger] nodes1[ord1[k]]) is Some by {
                if k > 0 {
                    assert(old(self).nodes@[ord0[k - 1]] is Some);
                }
            }
            assert forall|k: int| 0 <= k < ord1.len() - 1 implies (#[trigger] nodes1[ord1[k]]).unwrap().next
                == Some(ord1[k + 1] as usize) by {
                if k > 0 {
                    assert(old(self).nodes@[ord0[k - 1]] is Some);
                    if k > 1 {
                        assert(ord0[0] != ord0[k - 1]);
                    }
                }
            }
            assert forall|k: int| 1 <= k < ord1.len() implies (#[trigger] nodes1[ord1[k]]).unwrap().prev
                == Some(ord1[k - 1] as usize) by {
                assert(old(self).nodes@[ord0[k - 1]] is Some);
                if k > 1 {
                    assert(ord0[0] != ord0[k - 1]);
                }
            }
            if ord0.len() > 0 {
                assert(ord0[0] != ord0[ord0.len() - 1] || ord0.len() == 1);
                assert(nodes1[ord1[ord1.len() - 1]].unwrap().next is None);
            }
            assert(self@ =~= seq![elem] + old(self)@);
        }
    }

    /// Inserts `elem` at the back of the deque.
    pub fn push_back(&mut self, elem: T)
        requires
            old(self).well_formed(),
        ensures
            final(self).well_formed(),
            final(self)@ == old(self)@.push(elem),
    {
        let mut node = Node::new(elem);
        node.prev = self.tail;
        let slot = self.place(node);
        match self.tail {
            Some(old_tail) => {
                proof {
                    let ord0 = old(self).order@;
                    assert(old(self).nodes@[ord0[ord0.len() - 1]] is Some);
                    assert(self.nodes@[old_tail as int] == old(self).nodes@[old_tail as int]);
                }
                let slot_ref = vec_index_mut(&mut self.nodes, old_tail);
                match slot_ref {
                    Some(tail_node) => {
                        tail_node.next = Some(slot);
                    },
                    None => {},
                }
            },
            None => {
                self.head = Some(slot);
            },
        }
        self.tail = Some(slot);
        proof {
            self.order@ = old(self).order@.push(slot as int);
        }
        proof {
            let ord0 = old(self).order@;
            let nodes1 = self.nodes@;
            let ord1 = self.order@;
            assert forall|k: int| 0 <= k < ord1.len() implies (#[trigger] nodes1[ord1[k]]) is Some by {
                if k < ord0.len() {
                    assert(old(self).nodes@[ord0[k]] is Some);
                }
            }
            assert forall|k: int| 0 <= k < ord1.len() - 1 implies (#[trigger] nodes1[ord1[k]]).unwrap().next
                == Some(ord1[k + 1] as usize) by {
                assert(old(self).nodes@[ord0[k]] is Some);
                if k < ord0.len() - 1 {
                    assert(ord0[ord0.len() - 1] != ord0[k]);
                }
            }
            assert forall|k: int| 1 <= k < ord1.len() implies (#[trigger] nodes1[ord1[k]]).unwrap().prev
                == Some(ord1[k - 1] as usize) by {
                if k < ord0.len() {
                    assert(old(self).nodes@[ord0[k]] is Some);
                    if k < ord0.len() - 1 {
                        assert(ord0[ord0.len() - 1] != ord0[k]);
                    }
                }
            }
            if ord0.len() > 0 {
                assert(nodes1[ord1[0]].unwrap().prev is None);
            }
            assert(self@ =~= old(self)@.push(elem));
        }
    }

    /// Removes and returns the front element, or `None` on an empty deque.
    pub fn pop_front(&mut self) -> (popped: Option<T>)
        requires
            old(self).well_formed(),
        ensures
            final(self).well_formed(),
            old(self)@.len() == 0 ==> popped.is_none() && final(self)@ == old(self)@,
            old(self)@.len() > 0 ==> popped == Some(old(self)@[0]) && final(self)@ == old(self)@.drop_first(),
    {
        match self.head {
            None => None,
            Some(front) => {
                let slot_ref = vec_index_mut(&mut self.nodes, front);
                let taken = slot_ref.take();
                match taken {
                    Some(node) => {
                        self.free.push(front);
                        match node.next {
                            Some(new_head) => {
                                proof {
                                    let ord0 = old(self).order@;
                                    assert(old(self).nodes@[ord0[1]] is Some);
                                    assert(ord0[1] != ord0[0]);
                                }
                                let head_ref = vec_index_mut(&mut self.nodes, new_head);
                                match head_ref {
                                    Some(head_node) => {
                                        head_node.prev = None;
                                    },
                                    None => {},
                                }
                                self.head = Some(new_head);
                            },
                            None => {
                                self.head = None;
                                self.tail = None;
                            },
                        }
                        proof {
                            self.order@ = old(self).order@.drop_first();
                        }
                        proof {
                            let ord0 = old(self).order@;
                            let nodes1 = self.nodes@;
                            let ord1 = self.order@;
                            assert forall|k: int| 0 <= k < ord1.len() implies (#[trigger] nodes1[ord1[k]]) is Some by {
                                assert(ord0[k + 1] != ord0[0]);
                                assert(old(self).nodes@[ord0[k + 1]] is Some);
                            }
                            assert forall|k: int| 0 <= k < ord1.len() - 1 implies (
                            #[trigger] nodes1[ord1[k]]).unwrap().next == Some(ord1[k + 1] as usize) by {
                                assert(ord0[k + 1] != ord0[0]);
                                assert(old(self).nodes@[ord0[k + 1]] is Some);
                                if k > 0 {
                                    assert(ord0[k + 1] != ord0[1]);
                                }
                            }
                            assert forall|k: int| 1 <= k < ord1.len() implies (
                            #[trigger] nodes1[ord1[k]]).unwrap().prev == Some(ord1[k - 1] as usize) by {
                                assert(ord0[k + 1] != ord0[0]);
                                assert(ord0[k + 1] != ord0[1]);
                                assert(old(self).nodes@[ord0[k + 1]] is Some);
                            }
                            assert forall|j: int|
                                0 <= j < self.free@.len() implies 0 <= #[trigger] self.free@[j]
                                < nodes1.len() && nodes1[self.free@[j] as int] is None by {
                                if j < old(self).free@.len() {
                                    assert(old(self).free@[j] != ord0[0]) by {
                                        assert(old(self).nodes@[ord0[0]] is Some);
                                    }
                                    if ord0.len() > 1 {
                                        assert(old(self).free@[j] != ord0[1]) by {
                                            assert(old(self).nodes@[ord0[1]] is Some);
                                        }
                                    }
                                }
                            }
                            assert forall|i: int, j: int|
                                0 <= i < j < self.free@.len() implies self.free@[i] != self.free@[j] by {
                                if j == self.free@.len() - 1 {
                                    assert(old(self).nodes@[old(self).free@[i] as int] is None);
                                    assert(old(self).nodes@[ord0[0]] is Some);
                                }
                            }
                            assert(self@ =~= old(self)@.drop_first());
                        }
                        Some(node.elem)
                    },
                    None => unreached(),
                }
            },
        }
    }

    /// Removes and returns the back element, or `None` on an empty deque.
    pub fn pop_back(&mut self) -> (popped: Option<T>)
        requires
            old(self).well_formed(),
        ensures
            final(self).well_formed(),
            old(self)@.len() == 0 ==> popped.is_none() && final(self)@ == old(self)@,
            old(self)@.len() > 0 ==> popped == Some(old(self)@.last()) && final(self)@ == old(self)@.drop_last(),
    {
        match self.tail {
            None => None,
            Some(back) => {
                let slot_ref = vec_index_mut(&mut self.nodes, back);
                let taken = slot_ref.take();
                match taken {
                    Some(node) => {
                        self.free.push(back);
                        match node.prev {
                            Some(new_tail) => {
                                proof {
                                    let ord0 = old(self).order@;
                                    assert(old(self).nodes@[ord0[ord0.len() - 2]] is Some);
                                    assert(ord0[ord0.len() - 2] != ord0[ord0.len() - 1]);
                                }
                                let tail_ref = vec_index_mut(&mut self.nodes, new_tail);
                                match tail_ref {
                                    Some(tail_node) => {
                                        tail_node.next = None;
                                    },
                                    None => {},
                                }
                                self.tail = Some(new_tail);
                            },
                            None => {
                                self.head = None;
                                self.tail = None;
                            },
                        }
                        proof {
                            self.order@ = old(self).order@.drop_last();
                        }
                        proof {
                            let ord0 = old(self).order@;
                            let last: int = ord0.len() - 1;
                            let nodes1 = self.nodes@;
                            let ord1 = self.order@;
                            assert forall|k: int| 0 <= k < ord1.len() implies (#[trigger] nodes1[ord1[k]]) is Some by {
                                assert(ord0[k] != ord0[last]);
                                assert(old(self).nodes@[ord0[k]] is Some);
                            }
                            assert forall|k: int| 0 <= k < ord1.len() - 1 implies (
                            #[trigger] nodes1[ord1[k]]).unwrap().next == Some(ord1[k + 1] as usize) by {
                                assert(ord0[k] != ord0[last]);
                                assert(ord0[k] != ord0[last - 1]);
                                assert(old(self).nodes@[ord0[k]] is Some);
                            }
                            assert forall|k: int| 1 <= k < ord1.len() implies (
                            #[trigger] nodes1[ord1[k]]).unwrap().prev == Some(ord1[k - 1] as usize) by {
                                assert(ord0[k] != ord0[last]);
                                if k < last - 1 {
                                    assert(ord0[k] != ord0[last - 1]);
                                }
                                assert(old(self).nodes@[ord0[k]] is Some);
                            }
                            assert forall|j: int|
                                0 <= j < self.free@.len() implies 0 <= #[trigger] self.free@[j]
                                < nodes1.len() && nodes1[self.free@[j] as int] is None by {
                                if j < old(self).free@.len() {
                                    assert(old(self).free@[j] != ord0[last]) by {
                                        assert(old(self).nodes@[ord0[last]] is Some);
                                    }
                                    if ord0.len() > 1 {
                                        assert(old(self).free@[j] != ord0[last - 1]) by {
                                            assert(old(self).nodes@[ord0[last - 1]] is Some);
                                        }
                                    }
                                }
                            }
                            assert forall|i: int, j: int|
                                0 <= i < j < self.free@.len() implies self.free@[i] != self.free@[j] by {
                                if j == self.free@.len() - 1 {
                                    assert(old(self).nodes@[old(self).free@[i] as int] is None);
                                    assert(old(self).nodes@[ord0[last]] is Some);
                                }
                            }
                            assert(self@ =~= old(self)@.drop_last());
                        }
                        Some(node.elem)
                    },
                    None => unreached(),
                }
            },
        }
    }

    /// Borrows the front element, or returns `None` on an empty deque.
    pub fn peek_front(&self) -> (front: Option<&T>)
        requires
            self.well_formed(),
        ensures
            self@.len() == 0 ==> front.is_none(),
            self@.len() > 0 ==> front.is_some() && *front.unwrap() == self@[0],
    {
        match self.head {
            None => None,
            Some(front) => {
                proof {
                    assert(self.nodes@[self.order@[0]] is Some);
                    assert(self@[0] == self.nodes@[self.order@[0]].unwrap().elem);
                }
                match vstd::std_specs::vec::vec_index(&self.nodes, front) {
                    Some(node) => Some(&node.elem),
                    None => unreached(),
                }
            },
        }
    }

    /// Borrows the back element, or returns `None` on an empty deque.
    pub fn peek_back(&self) -> (back: Option<&T>)
        requires
            self.well_formed(),
        ensures
            self@.len() == 0 ==> back.is_none(),
            self@.len() > 0 ==> back.is_some() && *back.unwrap() == self@.last(),
    {
        match self.tail {
            None => None,
            Some(back) => {
                proof {
                    assert(self.nodes@[self.order@[self.order@.len() - 1]] is Some);
                    assert(self@.last() == self.nodes@[self.order@[self.order@.len() - 1]].unwrap().elem);
                }
                match vstd::std_specs::vec::vec_index(&self.nodes, back) {
                    Some(node) => Some(&node.elem),
                    None => unreached(),
                }
            },
        }
    }

    /// Mutably borrows the front element, or returns `None` on an empty
    /// deque. While the borrow lives no other access to the deque is
    /// possible, and a write through it is visible to every later operation.
    pub fn peek_front_mut(&mut self) -> (front: Option<&mut T>)
        requires
            old(self).well_formed(),
        ensures
            final(self).well_formed(),
            old(self)@.len() == 0 ==> front.is_none() && final(self)@ == old(self)@,
            old(self)@.len() > 0 ==> front.is_some() && *front.unwrap() == old(self)@[0] && final(self)@ == old(self)@.update(0, *final(front.unwrap())),
    {
        match self.head {
            None => None,
            Some(h) => {
                proof {
                    assert(old(self).nodes@[old(self).order@[0]] is Some);
                }
                let slot_ref = vec_index_mut(&mut self.nodes, h);
                match slot_ref {
                    Some(node) => {
                        let elem_ref = &mut node.elem;
                        proof {
                            let ord0 = old(self).order@;
                            let at: int = 0;
                            let node0 = old(self).nodes@[ord0[at]].unwrap();
                            let nodes1 = old(self).nodes@.update(
                                ord0[at],
                                Some(Node { elem: *final(elem_ref), next: node0.next, prev: node0.prev }),
                            );
                            lemma_elem_update(old(self).nodes@, old(self).free@, ord0, at, nodes1);
                            assert(elems_of(nodes1, ord0) =~= elems_of(old(self).nodes@, ord0).update(
                                at,
                                *final(elem_ref),
                            ));
                        }
                        Some(elem_ref)
                    },
                    None => unreached(),
                }
            },
        }
    }

    /// Mutably borrows the back element, or returns `None` on an empty
    /// deque. While the borrow lives no other access to the deque is
    /// possible, and a write through it is visible to every later operation.
    pub fn peek_back_mut(&mut self) -> (back: Option<&mut T>)
        requires
            old(self).well_formed(),
        ensures
            final(self).well_formed(),
            old(self)@.len() == 0 ==> back.is_none() && final(self)@ == old(self)@,
            old(self)@.len() > 0 ==> back.is_some() && *back.unwrap() == old(self)@.last() && final(self)@ == old(self)@.update(old(self)@.len() - 1, *final(back.unwrap())),
    {
        match self.tail {
            None => None,
            Some(t) => {
                proof {
                    assert(old(self).nodes@[old(self).order@[old(self).order@.len() - 1]] is Some);
                }
                let slot_ref = vec_index_mut(&mut self.nodes, t);
                match slot_ref {
                    Some(node) => {
                        let elem_ref = &mut node.elem;
                        proof {
                            let ord0 = old(self).order@;
                            let at: int = ord0.len() - 1;
                            let node0 = old(self).nodes@[ord0[at]].unwrap();
                            let nodes1 = old(self).nodes@.update(
                                ord0[at],
                                Some(Node { elem: *final(elem_ref), next: node0.next, prev: node0.prev }),
                            );
                            lemma_elem_update(old(self).nodes@, old(self).free@, ord0, at, nodes1);
                            assert(elems_of(nodes1, ord0) =~= elems_of(old(self).nodes@, ord0).update(
                                at,
                                *final(elem_ref),
                            ));
                        }
                        Some(elem_ref)
                    },
                    None => unreached(),
                }
            },
        }
    }

    /// Empties the deque by popping the front until nothing is left, one
    /// node per step.
    pub fn clear(&mut self)
        requires
            old(self).well_formed(),
        ensures
            final(self).well_formed(),
            final(self)@ == Seq::<T>::empty(),
    {
        loop
            invariant
                self.well_formed(),
            ensures
                self.well_formed() && self@.len() == 0,
            decreases self@.len(),
        {
            match self.pop_front() {
                None => {
                    break;
                },
                Some(_) => {},
            }
        }
        proof {
            assert(self@ =~= Seq::<T>::empty());
        }
    }
}

/// The deque view reached from `start` by applying `ops` in order: an op
/// carrying `true` pushes its element at the front, one carrying `false` at
/// the back.
pub open spec fn apply_pushes<T>(start: Seq<T>, ops: Seq<(bool, T)>) -> Seq<T>
    decreases ops.len(),
{
    if ops.len() == 0 {
        start
    } else {
        let prior = apply_pushes(start, ops.drop_last());
        if ops.last().0 {
            seq![ops.last().1] + prior
        } else {
            prior.push(ops.last().1)
        }
    }
}

/// The elements carried by `ops`, in push order.
pub open spec fn push_values<T>(ops: Seq<(bool, T)>) -> Seq<T> {
    ops.map_values(|op: (bool, T)| op.1)
}

/// The elements a mirrored teardown pops: each op's element, most recent
/// push first.
pub open spec fn mirrored_pops<T>(ops: Seq<(bool, T)>) -> Seq<T>
    decreases ops.len(),
{
    if ops.len() == 0 {
        Seq::empty()
    } else {
        seq![ops.last().1] + mirrored_pops(ops.drop_last())
    }
}

/// Law of deque symmetry, one step: after any sequence of front and back
/// pushes, undoing the most recent one with the matching pop — a front push
/// with `pop_front`, a back push with `pop_back` — yields exactly that
/// push's element and leaves the deque as it stood before that push. The
/// step is stated over the views as the contracts of `pop_front` and
/// `pop_back` state them; repeating it tears the whole sequence down in
/// mirrored order.
pub proof fn lemma_mirrored_pop_step<T>(start: Seq<T>, ops: Seq<(bool, T)>)
    requires
        ops.len() > 0,
    ensures
        ({
            let before = apply_pushes(start, ops);
            let after = apply_pushes(start, ops.drop_last());
            let op = ops.last();
            &&& before.len() > 0
            &&& op.0 ==> before[0] == op.1 && before.drop_first() == after
            &&& !op.0 ==> before.last() == op.1 && before.drop_last() == after
        }),
{
    let after = apply_pushes(start, ops.drop_last());
    let op = ops.last();
    if op.0 {
        assert((seq![op.1] + after).drop_first() =~= after);
    } else {
        assert(after.push(op.1).drop_last() =~= after);
    }
}

/// Law of deque symmetry, in full: the elements that the mirrored pops
/// return are the pushed elements in reverse construction order.
pub proof fn lemma_mirrored_pops_reverse<T>(ops: Seq<(bool, T)>)
    ensures
        mirrored_pops(ops) == push_values(ops).reverse(),
    decreases ops.len(),
{
    if ops.len() == 0 {
        assert(mirrored_pops(ops) =~= push_values(ops).reverse());
    } else {
        lemma_mirrored_pops_reverse(ops.drop_last());
        assert(push_values(ops.drop_last()) =~= push_values(ops).drop_last());
        assert(mirrored_pops(ops) =~= push_values(ops).reverse());
    }
}

} // verus!
