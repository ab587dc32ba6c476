//! The representation of a list: nodes in the slots of one `Vec`, linked
//! by XOR words, with the invariant that ties them to the elements.

use vstd::prelude::*;

use vstd::std_specs::cmp::PartialEqSpec;

use crate::list::XorList;
use crate::link::{
    lemma_link_decode, lemma_link_linear, lemma_link_lone, lemma_link_shift, link_word, neighbour, shifted, NIL,
};

verus! {

/// One slot of the backing buffer: an element (or `None` for a vacated,
/// "dirty" slot) and the link word that encodes both neighbours.
pub(crate) struct Node<T> {
    pub value: Option<T>,
    pub npx: usize,
}

impl<T> Node<T> {
    /// The neighbour of the node in slot `curr` opposite to `prev`.
    pub(crate) fn next_slot(&self, curr: usize, prev: usize) -> (r: usize)
        ensures
            r == neighbour(self.npx, curr, prev),
    {
        (self.npx ^ prev.wrapping_sub(curr)).wrapping_add(curr)
    }

    /// The neighbour of the node in slot `curr` opposite to `next`; the
    /// same calculation as [`next_slot`](Self::next_slot).
    pub(crate) fn prev_slot(&self, curr: usize, next: usize) -> (r: usize)
        ensures
            r == neighbour(self.npx, curr, next),
    {
        self.next_slot(curr, next)
    }
}

/// A doubly-linked list with XOR-compressed links, backed by a single
/// contiguous buffer.
///
/// All nodes live in slots of `nodes`; slots vacated by pops are kept in
/// `dirty` and reused by later pushes. `head` and `tail` are the slots of
/// the front and back elements, or [`NIL`] for an empty list.
pub(crate) struct RawList<T> {
    pub nodes: Vec<Node<T>>,
    pub dirty: Vec<usize>,
    pub head: usize,
    pub tail: usize,
    /// The occupied slots in traversal order, front to back.
    pub order: Ghost<Seq<usize>>,
}

impl<T> View for RawList<T> {
    type V = Seq<T>;

    /// The elements, front to back.
    closed spec fn view(&self) -> Seq<T> {
        Seq::new(self.order@.len(), |i: int| self.nodes@[self.order@[i] as int].value->0)
    }
}

impl<T> RawList<T> {
    /// The elements in terms of the slots.
    pub(crate) proof fn lemma_view(&self)
        ensures
            self@.len() == self.order@.len(),
            forall|i: int|
                0 <= i < self@.len() ==> #[trigger] self@[i] == self.nodes@[self.order@[i] as int].value->0,
    {
    }

    /// The slot of the element at position `i`, or [`NIL`] when `i` is
    /// outside the list (one step before the front, or past the back).
    pub(crate) open spec fn slot_at(&self, i: int) -> usize {
        if 0 <= i < self.order@.len() {
            self.order@[i]
        } else {
            NIL
        }
    }

    /// What slot `s` holds: its element, or `None` when the slot is dirty
    /// or does not exist.
    pub(crate) open spec fn occupant(&self, s: usize) -> Option<T> {
        if s < self.nodes@.len() {
            self.nodes@[s as int].value
        } else {
            None
        }
    }

    /// The slot that the next push fills: the most recently vacated one,
    /// or a fresh slot at the end of the buffer.
    pub(crate) open spec fn next_free_slot(&self) -> usize {
        if self.dirty@.len() > 0 {
            self.dirty@.last()
        } else {
            self.nodes@.len() as usize
        }
    }

    /// The free list after the next push.
    pub(crate) open spec fn dirty_after_push(&self) -> Seq<usize> {
        if self.dirty@.len() > 0 {
            self.dirty@.drop_last()
        } else {
            self.dirty@
        }
    }

    /// The nodes are laid out in slot order: every link word names the
    /// adjacent slots, and the ends link to [`NIL`].
    pub(crate) open spec fn linear_links(nodes: Seq<Node<T>>) -> bool {
        forall|k: int|
            0 <= k < nodes.len() ==> (#[trigger] nodes[k]).npx == link_word(
                k as usize,
                if k == 0 {
                    NIL
                } else {
                    (k - 1) as usize
                },
                if k + 1 == nodes.len() {
                    NIL
                } else {
                    (k + 1) as usize
                },
            )
    }

    /// The representation invariant.
    pub(crate) open spec fn wf(&self) -> bool {
        let order = self.order@;
        let nodes = self.nodes@;
        let dirty = self.dirty@;
        &&& order.len() + dirty.len() == self.nodes.len()
        &&& order.no_duplicates()
        &&& dirty.no_duplicates()
        &&& forall|i: int| 0 <= i < order.len() ==> (#[trigger] order[i] as int) < nodes.len()
        &&& forall|j: int|
            0 <= j < dirty.len() ==> (#[trigger] dirty[j] as int) < nodes.len() && !order.contains(
                dirty[j],
            )
        &&& forall|s: int|
            0 <= s < nodes.len() ==> ((#[trigger] nodes[s]).value is Some <==> order.contains(
                s as usize,
            ))
        &&& self.head == self.slot_at(0)
        &&& self.tail == self.slot_at(order.len() - 1)
        &&& forall|i: int|
            0 <= i < order.len() ==> (#[trigger] nodes[order[i] as int]).npx == link_word(
                order[i],
                self.slot_at(i - 1),
                self.slot_at(i + 1),
            )
    }

    /// Creates an empty `RawList`.
    pub(crate) fn new() -> (list: Self)
        ensures
            list.wf(),
            list@ == Seq::<T>::empty(),
            list.nodes@.len() == 0,
            list.dirty@.len() == 0,
    {
        RawList { nodes: Vec::new(), dirty: Vec::new(), head: NIL, tail: NIL, order: Ghost(Seq::empty()) }
    }

    /// Returns the number of elements.
    pub(crate) fn len(&self) -> (r: usize)
        requires
            self.wf(),
        ensures
            r == self@.len(),
    {
        self.nodes.len() - self.dirty.len()
    }

    /// Returns `true` if the list contains no elements.
    pub(crate) fn is_empty(&self) -> (r: bool)
        requires
            self.wf(),
        ensures
            r == (self@.len() == 0),
    {
        self.len() == 0
    }

    /// Appends an element to the back of the list and returns the slot
    /// that now holds it.
    pub(crate) fn push_back(&mut self, value: T) -> (slot: usize)
        requires
            old(self).wf(),
        ensures
            final(self).wf(),
            final(self)@ == old(self)@.push(value),
            final(self).order@ == old(self).order@.push(slot),
            slot == old(self).next_free_slot(),
            final(self).dirty@ == old(self).dirty_after_push(),
            forall|s: usize| s != slot ==> final(self).occupant(s) == old(self).occupant(s),
    {
        if self.nodes.len() == 0 {
            return self.push_empty(value);
        }
        let ghost old_order = self.order@;
        let ghost n = old_order.len();
        let idx = match self.dirty.pop() {
            Some(idx) => {
                proof {
                    assert(old(self).dirty@[old(self).dirty@.len() - 1] == idx);
                }
                let npx = XorList::<T>::compute_npx(idx, self.tail, NIL);
                self.nodes.set(idx, Node { value: Some(value), npx });
                idx
            },
            None => {
                let idx = self.nodes.len();
                let npx = XorList::<T>::compute_npx(idx, self.tail, NIL);
                self.nodes.push(Node { value: Some(value), npx });
                assert(self.nodes@.len() == idx + 1);
                idx
            },
        };
        assert(!old_order.contains(idx));
        if self.tail == NIL {
            self.head = idx;
        } else {
            let tail = self.tail;
            proof {
                assert(old_order[n - 1] == tail);
                assert(self.nodes@[tail as int] == old(self).nodes@[tail as int]);
            }
            let prev_idx = self.nodes[tail].prev_slot(tail, NIL);
            proof {
                lemma_link_decode(tail, old(self).slot_at(n - 2), NIL);
            }
            let npx = XorList::<T>::compute_npx(tail, prev_idx, idx);
            let old_value = self.nodes[tail].value.take();
            self.nodes.set(tail, Node { value: old_value, npx });
        }
        self.tail = idx;
        proof {
            self.order@ = old_order.push(idx);
            self.lemma_push_back_wf(*old(self), idx, value);
        }
        idx
    }

    proof fn lemma_push_back_wf(&self, old_list: Self, idx: usize, value: T)
        requires
            old_list.wf(),
            old_list.nodes@.len() > 0,
            idx == old_list.next_free_slot(),
            self.dirty@ == old_list.dirty_after_push(),
            self.nodes@.len() == (if old_list.dirty@.len() > 0 {
                old_list.nodes@.len()
            } else {
                old_list.nodes@.len() + 1
            }),
            self.order@ == old_list.order@.push(idx),
            self.nodes@[idx as int] == (Node {
                value: Some(value),
                npx: link_word(idx, old_list.tail, NIL),
            }),
            old_list.order@.len() > 0 ==> self.nodes@[old_list.tail as int] == (Node {
                value: old_list.nodes@[old_list.tail as int].value,
                npx: link_word(
                    old_list.tail,
                    old_list.slot_at(old_list.order@.len() - 2),
                    idx,
                ),
            }),
            forall|s: int|
                0 <= s < old_list.nodes@.len() && s != idx && s != old_list.tail ==> self.nodes@[s]
                    == old_list.nodes@[s],
            self.head == (if old_list.order@.len() == 0 {
                idx
            } else {
                old_list.head
            }),
            self.tail == idx,
        ensures
            self.wf(),
            self@ == old_list@.push(value),
            forall|s: usize| s != idx ==> self.occupant(s) == old_list.occupant(s),
    {
        let o = old_list.order@;
        let n = o.len();
        let d = old_list.dirty@;
        assert(!o.contains(idx)) by {
            if d.len() > 0 {
                assert(d[d.len() - 1] == idx);
            } else {
                if o.contains(idx) {
                    let k = choose|k: int| 0 <= k < n && o[k] == idx;
                    assert(o[k] < old_list.nodes@.len());
                }
            }
        }
        assert(idx < self.nodes@.len());
        assert forall|j: int| 0 <= j < self.dirty@.len() implies (#[trigger] self.dirty@[j] as int)
            < self.nodes@.len() && !self.order@.contains(self.dirty@[j]) by {
            assert(self.dirty@[j] == d[j]);
            assert(d[j] != d[d.len() - 1]);
            if self.order@.contains(self.dirty@[j]) {
                let k = choose|k: int| 0 <= k < n + 1 && self.order@[k] == self.dirty@[j];
                assert(k < n ==> o[k] == d[j]);
            }
        }
        assert forall|s: int| 0 <= s < self.nodes@.len() implies ((#[trigger] self.nodes@[s]).value is Some
            <==> self.order@.contains(s as usize)) by {
            if s == idx {
                assert(self.order@[n as int] == idx);
            } else {
                assert(s < old_list.nodes@.len());
                assert(self.nodes@[s].value == old_list.nodes@[s].value);
                if o.contains(s as usize) {
                    let k = choose|k: int| 0 <= k < n && o[k] == s as usize;
                    assert(self.order@[k] == s as usize);
                }
                if self.order@.contains(s as usize) {
                    let k = choose|k: int| 0 <= k < n + 1 && self.order@[k] == s as usize;
                    assert(o[k] == s as usize);
                }
            }
        }
        assert forall|i: int| 0 <= i < self.order@.len() implies (#[trigger] self.nodes@[self.order@[i] as int]).npx
            == link_word(self.order@[i], self.slot_at(i - 1), self.slot_at(i + 1)) by {
            if i < n {
                assert(o[i] != idx);
                if i < n - 1 {
                    assert(o[i] != o[n - 1]);
                    assert(old_list.nodes@[o[i] as int].npx == link_word(
                        o[i],
                        old_list.slot_at(i - 1),
                        old_list.slot_at(i + 1),
                    ));
                }
            }
        }
        assert(self@ =~= old_list@.push(value)) by {
            assert forall|i: int| 0 <= i < n implies self@[i] == old_list@[i] by {
                assert(o[i] != idx);
                assert(o[i] < old_list.nodes@.len());
            }
        }
        assert forall|s: usize| s != idx implies self.occupant(s) == old_list.occupant(s) by {
            if s < old_list.nodes@.len() && n > 0 && s == old_list.tail {
            }
        }
    }

    /// Adds an element to the front of the list and returns the slot that
    /// now holds it.
    pub(crate) fn push_front(&mut self, value: T) -> (slot: usize)
        requires
            old(self).wf(),
        ensures
            final(self).wf(),
            final(self)@ == seq![value] + old(self)@,
            final(self).order@ == seq![slot] + old(self).order@,
            slot == old(self).next_free_slot(),
            final(self).dirty@ == old(self).dirty_after_push(),
            forall|s: usize| s != slot ==> final(self).occupant(s) == old(self).occupant(s),
    {
        if self.nodes.len() == 0 {
            let slot = self.push_empty(value);
            proof {
                assert(self@ =~= seq![value] + old(self)@);
                assert(self.order@ =~= seq![slot] + old(self).order@);
            }
            return slot;
        }
        let ghost old_order = self.order@;
        let ghost n = old_order.len();
        let idx = match self.dirty.pop() {
            Some(idx) => {
                proof {
                    assert(old(self).dirty@[old(self).dirty@.len() - 1] == idx);
                }
                let npx = XorList::<T>::compute_npx(idx, NIL, self.head);
                self.nodes.set(idx, Node { value: Some(value), npx });
                idx
            },
            None => {
                let idx = self.nodes.len();
                let npx = XorList::<T>::compute_npx(idx, NIL, self.head);
                self.nodes.push(Node { value: Some(value), npx });
                assert(self.nodes@.len() == idx + 1);
                idx
            },
        };
        if self.head == NIL {
            self.tail = idx;
        } else {
            let head = self.head;
            proof {
                assert(old_order[0] == head);
                assert(old_order.contains(head));
                assert(self.nodes@[head as int] == old(self).nodes@[head as int]);
                lemma_link_decode(head, NIL, old(self).slot_at(1));
            }
            let next_idx = self.nodes[head].next_slot(head, NIL);
            let npx = XorList::<T>::compute_npx(head, idx, next_idx);
            self.nodes[head].npx = npx;
        }
        self.head = idx;
        proof {
            self.order@ = seq![idx] + old_order;
            self.lemma_push_front_wf(*old(self), idx, value);
        }
        idx
    }

    proof fn lemma_push_front_wf(&self, old_list: Self, idx: usize, value: T)
        requires
            old_list.wf(),
            old_list.nodes@.len() > 0,
            idx == old_list.next_free_slot(),
            self.dirty@ == old_list.dirty_after_push(),
            self.nodes@.len() == (if old_list.dirty@.len() > 0 {
                old_list.nodes@.len()
            } else {
                old_list.nodes@.len() + 1
            }),
            self.order@ == seq![idx] + old_list.order@,
            self.nodes@[idx as int] == (Node {
                value: Some(value),
                npx: link_word(idx, NIL, old_list.head),
            }),
            old_list.order@.len() > 0 ==> self.nodes@[old_list.head as int] == (Node {
                value: old_list.nodes@[old_list.head as int].value,
                npx: link_word(old_list.head, idx, old_list.slot_at(1)),
            }),
            forall|s: int|
                0 <= s < old_list.nodes@.len() && s != idx && s != old_list.head ==> self.nodes@[s]
                    == old_list.nodes@[s],
            self.tail == (if old_list.order@.len() == 0 {
                idx
            } else {
                old_list.tail
            }),
            self.head == idx,
        ensures
            self.wf(),
            self@ == seq![value] + old_list@,
            forall|s: usize| s != idx ==> self.occupant(s) == old_list.occupant(s),
    {
        let o = old_list.order@;
        let n = o.len();
        let d = old_list.dirty@;
        let o2 = self.order@;
        assert(!o.contains(idx)) by {
            if d.len() > 0 {
                assert(d[d.len() - 1] == idx);
            } else {
                if o.contains(idx) {
                    let k = choose|k: int| 0 <= k < n && o[k] == idx;
                    assert(o[k] < old_list.nodes@.len());
                }
            }
        }
        assert forall|k: int| 0 <= k < n implies #[trigger] o2[k + 1] == o[k] by {}
        assert(o2.no_duplicates()) by {
            assert forall|a: int, b: int| 0 <= a < b < o2.len() implies o2[a] != o2[b] by {
                if a == 0 {
                    assert(o2[b] == o[b - 1]);
                    assert(o.contains(o[b - 1]));
                } else {
                    assert(o2[a] == o[a - 1]);
                    assert(o2[b] == o[b - 1]);
                }
            }
        }
        assert forall|i: int| 0 <= i < o2.len() implies (#[trigger] o2[i] as int) < self.nodes@.len() by {
            if i > 0 {
                assert(o2[i] == o[i - 1]);
            }
        }
        assert forall|j: int| 0 <= j < self.dirty@.len() implies (#[trigger] self.dirty@[j] as int)
            < self.nodes@.len() && !o2.contains(self.dirty@[j]) by {
            assert(self.dirty@[j] == d[j]);
            assert(d[j] != d[d.len() - 1]);
            if o2.contains(self.dirty@[j]) {
                let k = choose|k: int| 0 <= k < n + 1 && o2[k] == self.dirty@[j];
                assert(k > 0 ==> o[k - 1] == d[j]);
            }
        }
        assert forall|s: int| 0 <= s < self.nodes@.len() implies ((#[trigger] self.nodes@[s]).value is Some
            <==> o2.contains(s as usize)) by {
            if s == idx {
                assert(o2[0] == idx);
            } else {
                assert(s < old_list.nodes@.len());
                assert(self.nodes@[s].value == old_list.nodes@[s].value);
                if o.contains(s as usize) {
                    let k = choose|k: int| 0 <= k < n && o[k] == s as usize;
                    assert(o2[k + 1] == s as usize);
                }
                if o2.contains(s as usize) {
                    let k = choose|k: int| 0 <= k < n + 1 && o2[k] == s as usize;
                    assert(o[k - 1] == s as usize);
                }
            }
        }
        assert forall|i: int| 0 <= i < o2.len() implies (#[trigger] self.nodes@[o2[i] as int]).npx
            == link_word(o2[i], self.slot_at(i - 1), self.slot_at(i + 1)) by {
            if i > 0 {
                assert(o2[i] == o[i - 1]);
                assert(o[i - 1] != idx);
                if i > 1 {
                    assert(o[i - 1] != o[0]);
                    assert(old_list.nodes@[o[i - 1] as int].npx == link_word(
                        o[i - 1],
                        old_list.slot_at(i - 2),
                        old_list.slot_at(i),
                    ));
                }
            }
        }
        assert(self@ =~= seq![value] + old_list@) by {
            assert forall|i: int| 0 <= i < n implies self@[i + 1] == old_list@[i] by {
                assert(o2[i + 1] == o[i]);
                assert(o[i] != idx);
                assert(o[i] < old_list.nodes@.len());
            }
        }
        assert forall|s: usize| s != idx implies self.occupant(s) == old_list.occupant(s) by {
            if s < old_list.nodes@.len() && n > 0 && s == old_list.head {
            }
        }
    }

    /// Removes the first element and returns it, or `None` if the list is
    /// empty. The vacated slot is kept for reuse by later pushes.
    pub(crate) fn pop_front(&mut self) -> (r: Option<T>)
        requires
            old(self).wf(),
        ensures
            final(self).wf(),
            old(self)@.len() == 0 ==> r is None && *final(self) == *old(self),
            old(self)@.len() > 0 ==> {
                &&& r == Some(old(self)@[0])
                &&& final(self)@ == old(self)@.drop_first()
                &&& final(self).order@ == old(self).order@.drop_first()
                &&& final(self).dirty@ == old(self).dirty@.push(old(self).head)
                &&& final(self).occupant(old(self).head) is None
                &&& forall|s: usize|
                    s != old(self).head ==> final(self).occupant(s) == old(self).occupant(s)
            },
            final(self).nodes@.len() == old(self).nodes@.len(),
    {
        if self.is_empty() {
            return None;
        }
        let ghost o = self.order@;
        let ghost n = o.len();
        let head = self.head;
        proof {
            assert(self.nodes@[o[0] as int].npx == link_word(o[0], NIL, self.slot_at(1)));
            lemma_link_decode(head, NIL, self.slot_at(1));
        }
        let next_idx = self.nodes[head].next_slot(head, NIL);
        if next_idx == NIL {
            self.tail = NIL;
        } else {
            proof {
                assert(o[1] == next_idx);
                assert(self.nodes@[o[1] as int].npx == link_word(o[1], o[0], self.slot_at(2)));
                lemma_link_decode(next_idx, head, self.slot_at(2));
            }
            let next_next_idx = self.nodes[next_idx].next_slot(next_idx, head);
            let npx = XorList::<T>::compute_npx(next_idx, NIL, next_next_idx);
            self.nodes[next_idx].npx = npx;
        }
        let removed_value = self.nodes[head].value.take();
        self.dirty.push(head);
        self.head = next_idx;
        proof {
            self.order@ = o.drop_first();
            self.lemma_pop_front_wf(*old(self));
        }
        removed_value
    }

    proof fn lemma_pop_front_wf(&self, old_list: Self)
        requires
            old_list.wf(),
            old_list.order@.len() > 0,
            self.order@ == old_list.order@.drop_first(),
            self.dirty@ == old_list.dirty@.push(old_list.head),
            self.nodes@.len() == old_list.nodes@.len(),
            self.nodes@[old_list.head as int] == (Node::<T> {
                value: None,
                npx: old_list.nodes@[old_list.head as int].npx,
            }),
            old_list.order@.len() > 1 ==> self.nodes@[old_list.slot_at(1) as int] == (Node {
                value: old_list.nodes@[old_list.slot_at(1) as int].value,
                npx: link_word(old_list.slot_at(1), NIL, old_list.slot_at(2)),
            }),
            forall|s: int|
                0 <= s < old_list.nodes@.len() && s != old_list.head && s != old_list.slot_at(1)
                    ==> self.nodes@[s] == old_list.nodes@[s],
            self.head == old_list.slot_at(1),
            self.tail == (if old_list.order@.len() == 1 {
                NIL
            } else {
                old_list.tail
            }),
        ensures
            self.wf(),
            self@ == old_list@.drop_first(),
            self.occupant(old_list.head) is None,
            forall|s: usize| s != old_list.head ==> self.occupant(s) == old_list.occupant(s),
    {
        let o = old_list.order@;
        let n = o.len();
        let d = old_list.dirty@;
        let o2 = self.order@;
        let h = old_list.head;
        assert(o[0] == h);
        assert forall|k: int| 0 <= k < n - 1 implies #[trigger] o2[k] == o[k + 1] by {}
        assert(!o2.contains(h)) by {
            if o2.contains(h) {
                let k = choose|k: int| 0 <= k < n - 1 && o2[k] == h;
                assert(o[k + 1] == o[0]);
            }
        }
        assert(!d.contains(h)) by {
            if d.contains(h) {
                let k = choose|k: int| 0 <= k < d.len() && d[k] == h;
                assert(o.contains(d[k]));
            }
        }
        assert(o2.no_duplicates()) by {
            assert forall|a: int, b: int| 0 <= a < b < o2.len() implies o2[a] != o2[b] by {
                assert(o2[a] == o[a + 1]);
                assert(o2[b] == o[b + 1]);
            }
        }
        assert(self.dirty@.no_duplicates()) by {
            assert forall|a: int, b: int| 0 <= a < b < self.dirty@.len() implies self.dirty@[a] != self.dirty@[b] by {
                if b == d.len() {
                    assert(d.contains(d[a]));
                }
            }
        }
        assert forall|i: int| 0 <= i < o2.len() implies (#[trigger] o2[i] as int) < self.nodes@.len() by {
            assert(o2[i] == o[i + 1]);
        }
        assert forall|j: int| 0 <= j < self.dirty@.len() implies (#[trigger] self.dirty@[j] as int)
            < self.nodes@.len() && !o2.contains(self.dirty@[j]) by {
            if j < d.len() {
                assert(self.dirty@[j] == d[j]);
                if o2.contains(d[j]) {
                    let k = choose|k: int| 0 <= k < n - 1 && o2[k] == d[j];
                    assert(o.contains(o[k + 1]));
                }
            }
        }
        assert forall|s: int| 0 <= s < self.nodes@.len() implies ((#[trigger] self.nodes@[s]).value is Some
            <==> o2.contains(s as usize)) by {
            if s != h {
                assert(self.nodes@[s].value == old_list.nodes@[s].value);
                if o.contains(s as usize) {
                    let k = choose|k: int| 0 <= k < n && o[k] == s as usize;
                    assert(k != 0);
                    assert(o2[k - 1] == s as usize);
                }
                if o2.contains(s as usize) {
                    let k = choose|k: int| 0 <= k < n - 1 && o2[k] == s as usize;
                    assert(o[k + 1] == s as usize);
                }
            }
        }
        assert forall|i: int| 0 <= i < o2.len() implies (#[trigger] self.nodes@[o2[i] as int]).npx
            == link_word(o2[i], self.slot_at(i - 1), self.slot_at(i + 1)) by {
            assert(o2[i] == o[i + 1]);
            assert(o[i + 1] != o[0]);
            if i > 0 {
                assert(o[i + 1] != o[1]);
                assert(old_list.nodes@[o[i + 1] as int].npx == link_word(
                    o[i + 1],
                    old_list.slot_at(i),
                    old_list.slot_at(i + 2),
                ));
            }
        }
        assert(self@ =~= old_list@.drop_first()) by {
            assert forall|i: int| 0 <= i < n - 1 implies self@[i] == old_list@[i + 1] by {
                assert(o2[i] == o[i + 1]);
                assert(o[i + 1] != o[0]);
                assert(o[i + 1] < old_list.nodes@.len());
            }
        }
    }

    /// Removes the last element and returns it, or `None` if the list is
    /// empty. The vacated slot is kept for reuse by later pushes.
    pub(crate) fn pop_back(&mut self) -> (r: Option<T>)
        requires
            old(self).wf(),
        ensures
            final(self).wf(),
            old(self)@.len() == 0 ==> r is None && *final(self) == *old(self),
            old(self)@.len() > 0 ==> {
                &&& r == Some(old(self)@.last())
                &&& final(self)@ == old(self)@.drop_last()
                &&& final(self).order@ == old(self).order@.drop_last()
                &&& final(self).dirty@ == old(self).dirty@.push(old(self).tail)
                &&& final(self).occupant(old(self).tail) is None
                &&& forall|s: usize|
                    s != old(self).tail ==> final(self).occupant(s) == old(self).occupant(s)
            },
            final(self).nodes@.len() == old(self).nodes@.len(),
    {
        if self.is_empty() {
            return None;
        }
        let ghost o = self.order@;
        let ghost n = o.len();
        let tail = self.tail;
        proof {
            assert(self.nodes@[o[n - 1] as int].npx == link_word(o[n - 1], self.slot_at(n - 2), NIL));
            lemma_link_decode(tail, self.slot_at(n - 2), NIL);
        }
        let prev_idx = self.nodes[tail].prev_slot(tail, NIL);
        if prev_idx == NIL {
            self.head = NIL;
        } else {
            proof {
                assert(o[n - 2] == prev_idx);
                assert(self.nodes@[o[n - 2] as int].npx == link_word(o[n - 2], self.slot_at(n - 3), o[n - 1]));
                lemma_link_decode(prev_idx, self.slot_at(n - 3), tail);
            }
            let prev_prev_idx = self.nodes[prev_idx].prev_slot(prev_idx, tail);
            let npx = XorList::<T>::compute_npx(prev_idx, prev_prev_idx, NIL);
            self.nodes[prev_idx].npx = npx;
        }
        let removed_value = self.nodes[tail].value.take();
        self.dirty.push(tail);
        self.tail = prev_idx;
        proof {
            self.order@ = o.drop_last();
            self.lemma_pop_back_wf(*old(self));
        }
        removed_value
    }

    proof fn lemma_pop_back_wf(&self, old_list: Self)
        requires
            old_list.wf(),
            old_list.order@.len() > 0,
            self.order@ == old_list.order@.drop_last(),
            self.dirty@ == old_list.dirty@.push(old_list.tail),
            self.nodes@.len() == old_list.nodes@.len(),
            self.nodes@[old_list.tail as int] == (Node::<T> {
                value: None,
                npx: old_list.nodes@[old_list.tail as int].npx,
            }),
            old_list.order@.len() > 1 ==> self.nodes@[old_list.slot_at(old_list.order@.len() - 2) as int] == (Node {
                value: old_list.nodes@[old_list.slot_at(old_list.order@.len() - 2) as int].value,
                npx: link_word(
                    old_list.slot_at(old_list.order@.len() - 2),
                    old_list.slot_at(old_list.order@.len() - 3),
                    NIL,
                ),
            }),
            forall|s: int|
                0 <= s < old_list.nodes@.len() && s != old_list.tail && s != old_list.slot_at(
                    old_list.order@.len() - 2,
                ) ==> self.nodes@[s] == old_list.nodes@[s],
            self.tail == old_list.slot_at(old_list.order@.len() - 2),
            self.head == (if old_list.order@.len() == 1 {
                NIL
            } else {
                old_list.head
            }),
        ensures
            self.wf(),
            self@ == old_list@.drop_last(),
            self.occupant(old_list.tail) is None,
            forall|s: usize| s != old_list.tail ==> self.occupant(s) == old_list.occupant(s),
    {
        let o = old_list.order@;
        let n = o.len();
        let d = old_list.dirty@;
        let o2 = self.order@;
        let t = old_list.tail;
        assert(o[n - 1] == t);
        assert(!o2.contains(t)) by {
            if o2.contains(t) {
                let k = choose|k: int| 0 <= k < n - 1 && o2[k] == t;
                assert(o[k] == o[n - 1]);
            }
        }
        assert(!d.contains(t)) by {
            if d.contains(t) {
                let k = choose|k: int| 0 <= k < d.len() && d[k] == t;
                assert(o.contains(d[k]));
            }
        }
        assert(self.dirty@.no_duplicates()) by {
            assert forall|a: int, b: int| 0 <= a < b < self.dirty@.len() implies self.dirty@[a] != self.dirty@[b] by {
                if b == d.len() {
                    assert(d.contains(d[a]));
                }
            }
        }
        assert forall|j: int| 0 <= j < self.dirty@.len() implies (#[trigger] self.dirty@[j] as int)
            < self.nodes@.len() && !o2.contains(self.dirty@[j]) by {
            if j < d.len() {
                assert(self.dirty@[j] == d[j]);
                if o2.contains(d[j]) {
                    let k = choose|k: int| 0 <= k < n - 1 && o2[k] == d[j];
                    assert(o.contains(o[k]));
                }
            }
        }
        assert forall|s: int| 0 <= s < self.nodes@.len() implies ((#[trigger] self.nodes@[s]).value is Some
            <==> o2.contains(s as usize)) by {
            if s != t {
                assert(self.nodes@[s].value == old_list.nodes@[s].value);
                if o.contains(s as usize) {
                    let k = choose|k: int| 0 <= k < n && o[k] == s as usize;
                    assert(k != n - 1);
                    assert(o2[k] == s as usize);
                }
                if o2.contains(s as usize) {
                    let k = choose|k: int| 0 <= k < n - 1 && o2[k] == s as usize;
                    assert(o[k] == s as usize);
                }
            }
        }
        assert forall|i: int| 0 <= i < o2.len() implies (#[trigger] self.nodes@[o2[i] as int]).npx
            == link_word(o2[i], self.slot_at(i - 1), self.slot_at(i + 1)) by {
            assert(o2[i] == o[i]);
            assert(o[i] != o[n - 1]);
            if i < n - 2 {
                assert(o[i] != o[n - 2]);
                assert(old_list.nodes@[o[i] as int].npx == link_word(
                    o[i],
                    old_list.slot_at(i - 1),
                    old_list.slot_at(i + 1),
                ));
            }
        }
        assert(self@ =~= old_list@.drop_last()) by {
            assert forall|i: int| 0 <= i < n - 1 implies self@[i] == old_list@[i] by {
                assert(o[i] != o[n - 1]);
                assert(o[i] < old_list.nodes@.len());
            }
        }
    }

    /// The link word of the node at position `i` in terms of its
    /// neighbours, and what decoding it gives in either direction.
    pub(crate) proof fn lemma_link_at(&self, i: int)
        requires
            self.wf(),
            0 <= i < self@.len(),
        ensures
            self.slot_at(i) < self.nodes@.len(),
            self.nodes@[self.slot_at(i) as int].npx == link_word(
                self.slot_at(i),
                self.slot_at(i - 1),
                self.slot_at(i + 1),
            ),
            neighbour(
                self.nodes@[self.slot_at(i) as int].npx,
                self.slot_at(i),
                self.slot_at(i - 1),
            ) == self.slot_at(i + 1),
            neighbour(
                self.nodes@[self.slot_at(i) as int].npx,
                self.slot_at(i),
                self.slot_at(i + 1),
            ) == self.slot_at(i - 1),
            self.nodes@[self.slot_at(i) as int].value == Some(self@[i]),
    {
        let o = self.order@;
        assert(o[i] < self.nodes@.len());
        assert(self.nodes@[o[i] as int].npx == link_word(o[i], self.slot_at(i - 1), self.slot_at(i + 1)));
        assert(o.contains(o[i]));
        lemma_link_decode(self.slot_at(i), self.slot_at(i - 1), self.slot_at(i + 1));
    }

    /// Steps from the element at position `p` (in `curr`, entered from
    /// `prev`) to the slot of position `p + 1`.
    pub(crate) fn step_forward(&self, Ghost(p): Ghost<int>, curr: usize, prev: usize) -> (r: usize)
        requires
            self.wf(),
            0 <= p < self@.len(),
            curr == self.slot_at(p),
            prev == self.slot_at(p - 1),
        ensures
            r == self.slot_at(p + 1),
    {
        proof {
            self.lemma_link_at(p);
        }
        self.nodes[curr].next_slot(curr, prev)
    }

    /// Steps from the element at position `p` (in `curr`, entered from
    /// `next`) to the slot of position `p - 1`.
    pub(crate) fn step_backward(&self, Ghost(p): Ghost<int>, curr: usize, next: usize) -> (r: usize)
        requires
            self.wf(),
            0 <= p < self@.len(),
            curr == self.slot_at(p),
            next == self.slot_at(p + 1),
        ensures
            r == self.slot_at(p - 1),
    {
        proof {
            self.lemma_link_at(p);
        }
        self.nodes[curr].prev_slot(curr, next)
    }

    /// The slots of positions `k` and `k - 1`, found by walking `k` steps
    /// from the front.
    fn seek_front(&self, k: usize) -> (r: (usize, usize))
        requires
            self.wf(),
            k < self@.len(),
        ensures
            r.0 == self.slot_at(k as int),
            r.1 == self.slot_at(k - 1),
    {
        let mut next_slot = self.head;
        let mut curr_slot = NIL;
        let mut j: usize = 0;
        while j < k
            invariant
                self.wf(),
                k < self@.len(),
                j <= k,
                next_slot == self.slot_at(j as int),
                curr_slot == self.slot_at(j - 1),
            decreases k - j,
        {
            let temp = next_slot;
            next_slot = self.step_forward(Ghost(j as int), temp, curr_slot);
            curr_slot = temp;
            j = j + 1;
        }
        (next_slot, curr_slot)
    }

    /// The slots of positions `len - 1 - k` and `len - k`, found by walking
    /// `k` steps from the back.
    fn seek_back(&self, k: usize) -> (r: (usize, usize))
        requires
            self.wf(),
            k < self@.len(),
        ensures
            r.0 == self.slot_at(self@.len() - 1 - k),
            r.1 == self.slot_at(self@.len() - k),
    {
        let len = self.len();
        let mut next_slot = self.tail;
        let mut curr_slot = NIL;
        let mut j: usize = 0;
        while j < k
            invariant
                self.wf(),
                len == self@.len(),
                k < len,
                j <= k,
                next_slot == self.slot_at(len - 1 - j),
                curr_slot == self.slot_at(len - j),
            decreases k - j,
        {
            let temp = next_slot;
            next_slot = self.step_backward(Ghost(len - 1 - j), temp, curr_slot);
            curr_slot = temp;
            j = j + 1;
        }
        (next_slot, curr_slot)
    }

    /// The slot of the element at position `at`, found by walking from
    /// whichever end of the list is closer.
    pub(crate) fn slot_of(&self, at: usize) -> (r: usize)
        requires
            self.wf(),
            at < self@.len(),
        ensures
            r == self.slot_at(at as int),
    {
        let len = self.len();
        if at < len - at {
            self.seek_front(at).0
        } else {
            self.seek_back(len - at - 1).0
        }
    }

    /// A mutable reference to the element at position `i`, held in `slot`.
    pub(crate) fn value_mut(&mut self, Ghost(i): Ghost<int>, slot: usize) -> (r: &mut T)
        requires
            old(self).wf(),
            0 <= i < old(self)@.len(),
            slot == old(self).slot_at(i),
        ensures
            *r == old(self)@[i],
            final(self).wf(),
            final(self)@ == old(self)@.update(i, *final(r)),
            final(self).order@ == old(self).order@,
            final(self).dirty@ == old(self).dirty@,
            final(self).nodes@.len() == old(self).nodes@.len(),
            forall|s: usize| s != slot ==> final(self).occupant(s) == old(self).occupant(s),
            final(self).occupant(slot) == Some(*final(r)),
        no_unwind
    {
        proof {
            self.lemma_link_at(i);
        }
        match &mut self.nodes[slot].value {
            Some(v) => v,
            None => vstd::pervasive::unreached(),
        }
    }

    /// Provides a reference to the front element, or `None` if the list
    /// is empty.
    pub(crate) fn front(&self) -> (r: Option<&T>)
        requires
            self.wf(),
        ensures
            r == (if self@.len() > 0 { Some(&self@[0]) } else { None }),
    {
        if self.head < self.nodes.len() {
            proof {
                self.lemma_link_at(0);
            }
            self.nodes[self.head].value.as_ref()
        } else {
            None
        }
    }


    /// Provides a reference to the back element, or `None` if the list is
    /// empty.
    pub(crate) fn back(&self) -> (r: Option<&T>)
        requires
            self.wf(),
        ensures
            r == (if self@.len() > 0 { Some(&self@.last()) } else { None }),
    {
        if self.tail < self.nodes.len() {
            proof {
                self.lemma_link_at(self@.len() - 1);
            }
            self.nodes[self.tail].value.as_ref()
        } else {
            None
        }
    }


    /// What a slot holds, in terms of the elements: an occupied slot holds
    /// the element at its position in the traversal order, and a slot
    /// holds an element exactly when it occurs in that order.
    pub(crate) proof fn lemma_occupant(&self, s: usize)
        requires
            self.wf(),
        ensures
            self.occupant(s) is Some <==> self.order@.contains(s),
            forall|i: int|
                0 <= i < self@.len() && #[trigger] self.order@[i] == s ==> self.occupant(s) == Some(
                    self@[i],
                ),
    {
        if self.order@.contains(s) {
            let k = choose|k: int| 0 <= k < self.order@.len() && self.order@[k] == s;
            assert(self.order@[k] < self.nodes@.len());
        }
        assert forall|i: int|
            0 <= i < self@.len() && #[trigger] self.order@[i] == s implies self.occupant(s) == Some(
                self@[i],
            ) by {
            self.lemma_link_at(i);
        }
    }

    /// Provides a reference to the element held in `slot` (as returned by
    /// a push), or `None` if the slot is dirty or out of bounds.
    pub(crate) fn slot(&self, slot: usize) -> (r: Option<&T>)
        requires
            self.wf(),
        ensures
            r is Some <==> self.occupant(slot) is Some,
            r is Some ==> *r.unwrap() == self.occupant(slot)->0,
    {
        if slot < self.nodes.len() {
            self.nodes[slot].value.as_ref()
        } else {
            None
        }
    }

    /// Provides a reference to the element held in `slot`, which must not
    /// be dirty.
    pub(crate) fn slot_unchecked(&self, slot: usize) -> (r: &T)
        requires
            self.wf(),
            self.occupant(slot) is Some,
        ensures
            *r == self.occupant(slot)->0,
    {
        self.nodes[slot].value.as_ref().unwrap()
    }



    /// Provides a reference to the element at position `at`, or `None` if
    /// `at` is out of bounds. The list is walked from the nearer end.
    pub(crate) fn get(&self, at: usize) -> (r: Option<&T>)
        requires
            self.wf(),
        ensures
            r == (if at < self@.len() { Some(&self@[at as int]) } else { None }),
    {
        if at >= self.len() {
            return None;
        }
        Some(self.get_unchecked(at))
    }


    /// Provides a reference to the element at position `at`, which must be
    /// in bounds.
    pub(crate) fn get_unchecked(&self, at: usize) -> (r: &T)
        requires
            self.wf(),
            at < self@.len(),
        ensures
            *r == self@[at as int],
    {
        let slot = self.slot_of(at);
        proof {
            self.lemma_link_at(at as int);
        }
        self.nodes[slot].value.as_ref().unwrap()
    }


    /// Removes all elements. The backing buffer is kept, and all of its
    /// slots become dirty, to be reused by later pushes.
    pub(crate) fn clear(&mut self)
        requires
            old(self).wf(),
        ensures
            final(self).wf(),
            final(self)@.len() == 0,
            final(self).nodes@.len() == old(self).nodes@.len(),
            final(self).dirty@ == Seq::new(old(self).nodes@.len(), |i: int| i as usize),
            forall|s: usize| final(self).occupant(s) is None,
    {
        let len = self.nodes.len();
        let mut i: usize = 0;
        while i < len
            invariant
                len == self.nodes@.len(),
                i <= len,
                forall|s: int| 0 <= s < i ==> (#[trigger] self.nodes@[s]).value is None,
            decreases len - i,
        {
            self.nodes[i].value = None;
            i = i + 1;
        }
        let mut dirty: Vec<usize> = Vec::new();
        let mut j: usize = 0;
        while j < len
            invariant
                j <= len,
                dirty@ == Seq::new(j as nat, |k: int| k as usize),
            decreases len - j,
        {
            dirty.push(j);
            proof {
                assert(dirty@ =~= Seq::new((j + 1) as nat, |k: int| k as usize));
            }
            j = j + 1;
        }
        self.dirty = dirty;
        self.head = NIL;
        self.tail = NIL;
        proof {
            self.order@ = Seq::empty();
            assert(self.dirty@.no_duplicates());
            assert(self@ =~= Seq::empty());
        }
    }

    /// Returns `true` if the list contains an element equal to `x`.
    pub(crate) fn contains(&self, x: &T) -> (r: bool)
        where
            T: PartialEq,
        requires
            self.wf(),
        ensures
            T::obeys_eq_spec() ==> (r <==> exists|i: int|
                0 <= i < self@.len() && (#[trigger] self@[i]).eq_spec(x)),
    {
        let len = self.len();
        let mut curr = self.head;
        let mut prev = NIL;
        let mut k: usize = 0;
        while k < len
            invariant
                self.wf(),
                len == self@.len(),
                k <= len,
                curr == self.slot_at(k as int),
                prev == self.slot_at(k - 1),
                T::obeys_eq_spec() ==> forall|i: int| 0 <= i < k ==> !(#[trigger] self@[i]).eq_spec(x),
            decreases len - k,
        {
            proof {
                self.lemma_link_at(k as int);
            }
            let found = *self.nodes[curr].value.as_ref().unwrap() == *x;
            if found {
                return true;
            }
            let next = self.step_forward(Ghost(k as int), curr, prev);
            prev = curr;
            curr = next;
            k = k + 1;
        }
        false
    }



    /// A list whose nodes are laid out in slot order, front to back or back
    /// to front, with no dirty slots, is well formed and holds the nodes'
    /// values in that order.
    proof fn lemma_laid_out_wf(&self, reversed: bool)
        requires
            Self::linear_links(self.nodes@),
            self.nodes@.len() > 0,
            self.dirty@.len() == 0,
            forall|k: int| 0 <= k < self.nodes@.len() ==> (#[trigger] self.nodes@[k]).value is Some,
            reversed ==> self.order@ == Seq::new(
                self.nodes@.len(),
                |i: int| (self.nodes@.len() - 1 - i) as usize,
            ),
            !reversed ==> self.order@ == Seq::new(self.nodes@.len(), |i: int| i as usize),
            self.head == (if reversed {
                (self.nodes@.len() - 1) as usize
            } else {
                0
            }),
            self.tail == (if reversed {
                0
            } else {
                (self.nodes@.len() - 1) as usize
            }),
        ensures
            self.wf(),
            reversed ==> self@ == Seq::new(
                self.nodes@.len(),
                |i: int| self.nodes@[self.nodes@.len() - 1 - i].value->0,
            ),
            !reversed ==> self@ == Seq::new(self.nodes@.len(), |i: int| self.nodes@[i].value->0),
    {
        let m = self.nodes@.len();
        let o = self.order@;
        assert(self.nodes.len() == m);
        assert forall|i: int| 0 <= i < m implies (#[trigger] o[i] as int) == (if reversed {
            m - 1 - i
        } else {
            i
        }) by {}
        assert(o.no_duplicates()) by {
            assert forall|a: int, b: int| 0 <= a < b < m implies o[a] != o[b] by {
                assert(o[a] as int == (if reversed { m - 1 - a } else { a }));
                assert(o[b] as int == (if reversed { m - 1 - b } else { b }));
            }
        }
        assert forall|s: int| 0 <= s < m implies ((#[trigger] self.nodes@[s]).value is Some <==> o.contains(
            s as usize,
        )) by {
            let i = if reversed { m - 1 - s } else { s };
            assert(o[i] == s as usize);
        }
        assert forall|i: int| 0 <= i < m implies (#[trigger] self.nodes@[o[i] as int]).npx == link_word(
            o[i],
            self.slot_at(i - 1),
            self.slot_at(i + 1),
        ) by {
            let k = o[i] as int;
            assert(self.nodes@[k].npx == link_word(
                k as usize,
                if k == 0 { NIL } else { (k - 1) as usize },
                if k + 1 == m { NIL } else { (k + 1) as usize },
            ));
            if reversed {
                lemma_link_decode(
                    k as usize,
                    if k == 0 { NIL } else { (k - 1) as usize },
                    if k + 1 == m { NIL } else { (k + 1) as usize },
                );
                if i > 0 {
                    assert(o[i - 1] as int == k + 1);
                }
                if i + 1 < m {
                    assert(o[i + 1] as int == k - 1);
                }
            } else {
                if i > 0 {
                    assert(o[i - 1] as int == k - 1);
                }
                if i + 1 < m {
                    assert(o[i + 1] as int == k + 1);
                }
            }
        }
        if reversed {
            assert(self@ =~= Seq::new(m, |i: int| self.nodes@[m - 1 - i].value->0));
        } else {
            assert(self@ =~= Seq::new(m, |i: int| self.nodes@[i].value->0));
        }
    }

    /// Repacks the backing buffer so that the slots lie in traversal order,
    /// discarding the dirty slots left behind by removals. The elements
    /// are unaffected; the buffer is rebuilt even when no slot is dirty.
    pub(crate) fn compact(&mut self)
        requires
            old(self).wf(),
        ensures
            final(self).wf(),
            final(self)@ == old(self)@,
            final(self).dirty@.len() == 0,
            final(self).nodes@.len() == old(self)@.len(),
            final(self).order@ == Seq::new(old(self)@.len(), |i: int| i as usize),
    {
        if self.head == NIL {
            self.nodes.clear();
            self.dirty.clear();
            proof {
                assert(self.order@.len() == 0);
                assert(self.order@ =~= Seq::new(0, |i: int| i as usize));
                assert(self@ =~= old(self)@);
            }
            return;
        }
        let ghost pre = *self;
        let len = self.len();
        let mut nodes: Vec<Node<T>> = Vec::with_capacity(len);
        let mut curr = self.head;
        let mut prev = NIL;
        let mut index: usize = 0;
        while curr != NIL
            invariant
                pre.wf(),
                len == pre@.len(),
                len > 0,
                index <= len,
                curr == pre.slot_at(index as int),
                prev == pre.slot_at(index - 1),
                self.nodes@.len() == pre.nodes@.len(),
                forall|s: int| 0 <= s < pre.nodes@.len() ==> (#[trigger] self.nodes@[s]).npx == pre.nodes@[s].npx,
                forall|q: int| index <= q < len ==> self.nodes@[pre.order@[q] as int].value == pre.nodes@[pre.order@[q] as int].value,
                nodes@.len() == index,
                forall|k: int| 0 <= k < index ==> (#[trigger] nodes@[k]).value == Some(pre@[k]),
                forall|k: int| 0 <= k < index ==> (#[trigger] nodes@[k]).npx == link_word(
                    k as usize,
                    if k == 0 { NIL } else { (k - 1) as usize },
                    if k + 1 == len { NIL } else { (k + 1) as usize },
                ),
            decreases len - index,
        {
            proof {
                pre.lemma_link_at(index as int);
                assert(self.nodes@[curr as int].npx == pre.nodes@[curr as int].npx);
            }
            let prev_index = index.wrapping_sub(1);
            let next_index = if index == len - 1 {
                NIL
            } else {
                index + 1
            };
            let npx = XorList::<T>::compute_npx(index, prev_index, next_index);
            let next = self.nodes[curr].next_slot(curr, prev);
            let value = self.nodes[curr].value.take();
            nodes.push(Node { value, npx });
            proof {
                assert forall|q: int| index + 1 <= q < len implies self.nodes@[pre.order@[q] as int].value
                    == pre.nodes@[pre.order@[q] as int].value by {
                    assert(pre.order@[q] != pre.order@[index as int]);
                }
            }
            prev = curr;
            curr = next;
            index = index + 1;
        }
        proof {
            assert(index == len);
        }
        self.nodes = nodes;
        self.dirty.clear();
        self.head = 0;
        self.tail = len - 1;
        proof {
            self.order@ = Seq::new(len as nat, |i: int| i as usize);
            assert(Self::linear_links(self.nodes@));
            self.lemma_laid_out_wf(false);
            assert(self@ =~= pre@);
        }
    }

    /// Returns `true` if the slots already lie in traversal order with no
    /// dirty slots, that is, if [`compact`](Self::compact) would leave the
    /// buffer unchanged.
    pub(crate) fn is_linear(&self) -> (r: bool)
        requires
            self.wf(),
        ensures
            r == (self.dirty@.len() == 0 && self.order@ == Seq::new(self@.len(), |i: int| i as usize)),
    {
        let ghost ident = Seq::new(self@.len(), |i: int| i as usize);
        if self.dirty.len() != 0 {
            return false;
        }
        let len = self.len();
        if len == 0 {
            proof {
                assert(self.order@ =~= ident);
            }
            return true;
        }
        if len == 1 {
            proof {
                if self.head == 0 {
                    assert(self.order@ =~= ident);
                } else {
                    assert(self.order@[0] != ident[0]);
                }
            }
            return self.head == 0;
        }
        if self.head != 0 {
            proof {
                assert(self.order@[0] != ident[0]);
            }
            return false;
        }
        let mut i: usize = 0;
        while i < len - 1
            invariant
                self.wf(),
                len == self@.len(),
                len >= 2,
                i <= len - 1,
                ident == Seq::new(self@.len(), |i: int| i as usize),
                self.dirty@.len() == 0,
                forall|k: int| 0 <= k <= i ==> #[trigger] self.order@[k] == k as usize,
            decreases len - 1 - i,
        {
            proof {
                self.lemma_link_at(i as int);
                lemma_link_linear(i);
                assert(self.slot_at(i as int) == i);
                assert(self.slot_at(i - 1) == (if i == 0 { NIL } else { (i - 1) as usize }));
            }
            if self.nodes[i].npx != NIL ^ 1 {
                proof {
                    assert(self.order@[i + 1] != ident[i + 1]);
                }
                return false;
            }
            proof {
                assert(self.slot_at(i + 1) == i + 1);
            }
            i = i + 1;
        }
        proof {
            assert(self.order@ =~= ident);
            self.lemma_link_at(len - 1);
            assert(self.slot_at(len - 1) == len - 1);
            assert(self.slot_at(len - 2) == len - 2);
        }
        self.nodes[len - 1].npx == XorList::<T>::compute_npx(len - 1, len - 2, NIL)
    }

    /// The position reached after `k` steps of a walk that starts at `p0`
    /// and moves toward the back (`fwd`) or toward the front.
    pub(crate) open spec fn walk_pos(p0: int, fwd: bool, k: int) -> int {
        if fwd {
            p0 + k
        } else {
            p0 - k
        }
    }

    /// Moves the `m` elements of `pre` met by a walk from position `p0` to
    /// the end of the list in the direction `fwd` out of their slots and
    /// into fresh nodes, laid out in walk order. The vacated slots become
    /// dirty, in walk order; their link words are left in place.
    fn drain_run(
        &mut self,
        curr: usize,
        known: usize,
        Ghost(pre): Ghost<Self>,
        Ghost(p0): Ghost<int>,
        Ghost(fwd): Ghost<bool>,
        Ghost(m): Ghost<int>,
    ) -> (r: Vec<Node<T>>)
        requires
            pre.wf(),
            m >= 1,
            fwd ==> p0 + m == pre@.len() && p0 >= 0,
            !fwd ==> p0 == m - 1 && m <= pre@.len(),
            curr == pre.slot_at(p0),
            known == pre.slot_at(Self::walk_pos(p0, fwd, -1)),
            old(self).nodes@.len() == pre.nodes@.len(),
            forall|k: int|
                0 <= k < m ==> old(self).nodes@[pre.order@[Self::walk_pos(p0, fwd, k)] as int]
                    == pre.nodes@[pre.order@[Self::walk_pos(p0, fwd, k)] as int],
        ensures
            r@.len() == m,
            Self::linear_links(r@),
            forall|k: int| 0 <= k < m ==> (#[trigger] r@[k]).value == Some(pre@[Self::walk_pos(p0, fwd, k)]),
            final(self).nodes@.len() == old(self).nodes@.len(),
            forall|k: int|
                0 <= k < m ==> final(self).nodes@[pre.order@[Self::walk_pos(p0, fwd, k)] as int] == (Node::<T> {
                    value: None,
                    npx: old(self).nodes@[pre.order@[Self::walk_pos(p0, fwd, k)] as int].npx,
                }),
            forall|s: int|
                0 <= s < old(self).nodes@.len() && (forall|k: int|
                    0 <= k < m ==> pre.order@[Self::walk_pos(p0, fwd, k)] != s) ==> final(self).nodes@[s]
                    == old(self).nodes@[s],
            final(self).dirty@ == old(self).dirty@ + Seq::new(
                m as nat,
                |k: int| pre.order@[Self::walk_pos(p0, fwd, k)],
            ),
            final(self).head == old(self).head,
            final(self).tail == old(self).tail,
            final(self).order@ == old(self).order@,
    {
        let ghost o = pre.order@;
        let ghost n = pre@.len();
        let mut nodes: Vec<Node<T>> = Vec::new();
        let mut curr = curr;
        let mut known = known;
        let mut count: usize = 0;
        proof {
            assert(self.dirty@ =~= old(self).dirty@ + Seq::new(0, |k: int| o[Self::walk_pos(p0, fwd, k)]));
        }
        while curr != NIL
            invariant
                pre.wf(),
                o == pre.order@,
                n == pre@.len(),
                m >= 1,
                fwd ==> p0 + m == n && p0 >= 0,
                !fwd ==> p0 == m - 1 && m <= n,
                0 <= count <= m,
                curr == pre.slot_at(Self::walk_pos(p0, fwd, count as int)),
                known == pre.slot_at(Self::walk_pos(p0, fwd, count - 1)),
                self.nodes@.len() == pre.nodes@.len(),
                old(self).nodes@.len() == pre.nodes@.len(),
                forall|k: int|
                    0 <= k < m ==> old(self).nodes@[pre.order@[Self::walk_pos(p0, fwd, k)] as int]
                        == pre.nodes@[pre.order@[Self::walk_pos(p0, fwd, k)] as int],
                self.head == old(self).head,
                self.tail == old(self).tail,
                self.order@ == old(self).order@,
                forall|k: int|
                    count <= k < m ==> self.nodes@[o[Self::walk_pos(p0, fwd, k)] as int] == pre.nodes@[o[Self::walk_pos(
                        p0,
                        fwd,
                        k,
                    )] as int],
                forall|k: int|
                    0 <= k < count ==> self.nodes@[o[Self::walk_pos(p0, fwd, k)] as int] == (Node::<T> {
                        value: None,
                        npx: old(self).nodes@[o[Self::walk_pos(p0, fwd, k)] as int].npx,
                    }),
                forall|s: int|
                    0 <= s < old(self).nodes@.len() && (forall|k: int|
                        0 <= k < m ==> o[Self::walk_pos(p0, fwd, k)] != s) ==> self.nodes@[s]
                        == old(self).nodes@[s],
                self.dirty@ == old(self).dirty@ + Seq::new(
                    count as nat,
                    |k: int| o[Self::walk_pos(p0, fwd, k)],
                ),
                nodes@.len() == count,
                forall|k: int| 0 <= k < count ==> (#[trigger] nodes@[k]).value == Some(pre@[Self::walk_pos(p0, fwd, k)]),
                forall|k: int|
                    0 <= k < count ==> (#[trigger] nodes@[k]).npx == link_word(
                        k as usize,
                        if k == 0 { NIL } else { (k - 1) as usize },
                        if k + 1 == m { NIL } else { (k + 1) as usize },
                    ),
            decreases m - count,
        {
            let ghost q = Self::walk_pos(p0, fwd, count as int);
            proof {
                if count == m {
                    assert(q < 0 || q >= n);
                    assert(false);
                }
                pre.lemma_link_at(q);
                assert(self.nodes@[curr as int] == pre.nodes@[curr as int]);
            }
            let next = self.nodes[curr].next_slot(curr, known);
            proof {
                assert(next == pre.slot_at(Self::walk_pos(p0, fwd, count + 1)));
                assert(next == NIL <==> count + 1 == m);
            }
            let value = self.nodes[curr].value.take();
            let next_index = if next != NIL {
                count + 1
            } else {
                NIL
            };
            let npx = XorList::<T>::compute_npx(count, count.wrapping_sub(1), next_index);
            nodes.push(Node { value, npx });
            self.dirty.push(curr);
            proof {
                assert(0 <= q < n);
                assert(curr == o[q]);
                assert(old(self).nodes@[o[q] as int] == pre.nodes@[o[q] as int]);
                assert forall|s: int|
                    0 <= s < old(self).nodes@.len() && (forall|k: int|
                        0 <= k < m ==> o[Self::walk_pos(p0, fwd, k)] != s) implies self.nodes@[s]
                        == old(self).nodes@[s] by {
                    assert(o[Self::walk_pos(p0, fwd, count as int)] != s);
                }
                assert forall|k: int| count + 1 <= k < m implies self.nodes@[o[Self::walk_pos(p0, fwd, k)] as int]
                    == pre.nodes@[o[Self::walk_pos(p0, fwd, k)] as int] by {
                    assert(o[Self::walk_pos(p0, fwd, k)] != o[q]);
                }
                assert forall|k: int| 0 <= k < count + 1 implies self.nodes@[o[Self::walk_pos(p0, fwd, k)] as int]
                    == (Node::<T> {
                    value: None,
                    npx: old(self).nodes@[o[Self::walk_pos(p0, fwd, k)] as int].npx,
                }) by {
                    if k < count {
                        assert(o[Self::walk_pos(p0, fwd, k)] != o[q]);
                    }
                }
                assert(self.dirty@ =~= old(self).dirty@ + Seq::new(
                    (count + 1) as nat,
                    |k: int| o[Self::walk_pos(p0, fwd, k)],
                ));
            }
            known = curr;
            curr = next;
            count = count + 1;
        }
        proof {
            if count < m {
                let q = Self::walk_pos(p0, fwd, count as int);
                assert(0 <= q < n);
                assert(o[q] < pre.nodes@.len());
            }
        }
        nodes
    }

    /// Splits the list into two at position `at`: `self` keeps the
    /// elements before `at` and the returned list holds the rest.
    ///
    /// The split point is reached from whichever end is closer, and the
    /// shorter half is moved into fresh storage: when `at < len - at` the
    /// front half is rebuilt (back to front) and `self` takes it over,
    /// leaving the old storage to the returned list; otherwise the back
    /// half is rebuilt (front to back) into the returned list.
    #[verifier::rlimit(40)]
    #[verifier::spinoff_prover]
    pub(crate) fn split_off(&mut self, at: usize) -> (r: Self)
        requires
            old(self).wf(),
            at <= old(self)@.len(),
        ensures
            final(self).wf(),
            r.wf(),
            final(self)@ == old(self)@.subrange(0, at as int),
            r@ == old(self)@.subrange(at as int, old(self)@.len() as int),
            at == 0 ==> r == *old(self) && final(self).nodes@.len() == 0 && final(self).dirty@.len()
                == 0,
            at != 0 && at == old(self)@.len() ==> *final(self) == *old(self) && r.nodes@.len() == 0
                && r.dirty@.len() == 0,
            0 < at < old(self)@.len() && at < old(self)@.len() - at ==> {
                &&& final(self).nodes@.len() == at
                &&& final(self).dirty@.len() == 0
                &&& final(self).order@ == Seq::new(at as nat, |i: int| (at - 1 - i) as usize)
                &&& r.order@ == old(self).order@.subrange(at as int, old(self)@.len() as int)
                &&& r.nodes@.len() == old(self).nodes@.len()
                &&& r.dirty@ == old(self).dirty@ + Seq::new(
                    at as nat,
                    |k: int| old(self).order@[at - 1 - k],
                )
            },
            0 < at < old(self)@.len() && at >= old(self)@.len() - at ==> {
                &&& final(self).order@ == old(self).order@.subrange(0, at as int)
                &&& final(self).nodes@.len() == old(self).nodes@.len()
                &&& final(self).dirty@ == old(self).dirty@ + Seq::new(
                    (old(self)@.len() - at) as nat,
                    |k: int| old(self).order@[at + k],
                )
                &&& r.nodes@.len() == old(self)@.len() - at
                &&& r.dirty@.len() == 0
                &&& r.order@ == Seq::new((old(self)@.len() - at) as nat, |i: int| i as usize)
            },
    {
        let len = self.len();
        if at == 0 {
            let mut other = Self::new();
            core::mem::swap(self, &mut other);
            proof {
                assert(old(self)@.subrange(0, 0) =~= self@);
                assert(old(self)@.subrange(0, old(self)@.len() as int) =~= old(self)@);
            }
            return other;
        } else if at == len {
            proof {
                assert(old(self)@.subrange(0, at as int) =~= old(self)@);
                assert(old(self)@.subrange(at as int, at as int) =~= Seq::<T>::empty());
            }
            return Self::new();
        }
        let ghost pre = *self;
        if at < len - at {
            // Walk from the front to position `at - 1`; the front half is
            // moved into fresh storage, back to front.
            let (curr, prev) = self.seek_front(at - 1);
            let next_slot = self.step_forward(Ghost(at - 1), curr, prev);
            let next_next_slot = self.step_forward(Ghost(at as int), next_slot, curr);
            let npx = XorList::<T>::compute_npx(next_slot, NIL, next_next_slot);
            self.nodes[next_slot].npx = npx;
            self.head = next_slot;
            proof {
                assert forall|k: int| 0 <= k < at implies self.nodes@[pre.order@[#[trigger] Self::walk_pos(
                    at - 1,
                    false,
                    k,
                )] as int] == pre.nodes@[pre.order@[Self::walk_pos(at - 1, false, k)] as int] by {
                    assert(pre.order@[at - 1 - k] != pre.order@[at as int]);
                }
            }
            let nodes = self.drain_run(
                curr,
                next_slot,
                Ghost(pre),
                Ghost(at - 1),
                Ghost(false),
                Ghost(at as int),
            );
            proof {
                self.order@ = pre.order@.subrange(at as int, len as int);
                self.lemma_split_rest_wf(pre, at as int, true, false, at - 1, at as int, at as int);
            }
            let mut front = RawList {
                nodes,
                dirty: Vec::new(),
                head: at - 1,
                tail: 0,
                order: Ghost(Seq::new(at as nat, |i: int| (at - 1 - i) as usize)),
            };
            proof {
                front.lemma_laid_out_wf(true);
                assert(front@ =~= pre@.subrange(0, at as int));
            }
            core::mem::swap(self, &mut front);
            front
        } else {
            // Walk from the back to position `at`; the back half is moved
            // into fresh storage, front to back.
            let (curr, next) = self.seek_back(len - at - 1);
            let prev = self.step_backward(Ghost(at as int), curr, next);
            let prev_prev = self.step_backward(Ghost(at - 1), prev, curr);
            let npx = XorList::<T>::compute_npx(prev, prev_prev, NIL);
            self.nodes[prev].npx = npx;
            self.tail = prev;
            proof {
                assert forall|k: int| 0 <= k < len - at implies self.nodes@[pre.order@[#[trigger] Self::walk_pos(
                    at as int,
                    true,
                    k,
                )] as int] == pre.nodes@[pre.order@[Self::walk_pos(at as int, true, k)] as int] by {
                    assert(pre.order@[at + k] != pre.order@[at - 1]);
                }
            }
            let nodes = self.drain_run(
                curr,
                prev,
                Ghost(pre),
                Ghost(at as int),
                Ghost(true),
                Ghost(len - at),
            );
            proof {
                self.order@ = pre.order@.subrange(0, at as int);
                self.lemma_split_rest_wf(pre, at as int, false, true, at as int, len - at, at - 1);
            }
            let back = RawList {
                nodes,
                dirty: Vec::new(),
                head: 0,
                tail: len - at - 1,
                order: Ghost(Seq::new((len - at) as nat, |i: int| i as usize)),
            };
            proof {
                back.lemma_laid_out_wf(false);
                assert(back@ =~= pre@.subrange(at as int, len as int));
            }
            back
        }
    }

    /// Builds a list holding the elements of `vec` in order, laid out in
    /// slot order in a single pass: each node's links are derived directly
    /// from its position.
    pub(crate) fn from_vec(vec: Vec<T>) -> (list: Self)
        ensures
            list.wf(),
            list@ == vec@,
            list.dirty@.len() == 0,
            list.nodes@.len() == vec@.len(),
            list.order@ == Seq::new(vec@.len(), |i: int| i as usize),
    {
        let ghost elems = vec@;
        let len = vec.len();
        if len == 0 {
            let list = Self::new();
            proof {
                assert(list.order@ =~= Seq::new(0, |i: int| i as usize));
                assert(list@ =~= vec@);
            }
            return list;
        }
        let mut nodes: Vec<Node<T>> = Vec::with_capacity(len);
        let mut slot: usize = 0;
        for value in it: vec.into_iter()
            invariant
                len == elems.len(),
                len > 0,
                it.seq() == elems,
                slot == it.index(),
                nodes@.len() == slot,
                forall|k: int| 0 <= k < slot ==> (#[trigger] nodes@[k]).value == Some(elems[k]),
                forall|k: int|
                    0 <= k < slot ==> (#[trigger] nodes@[k]).npx == link_word(
                        k as usize,
                        if k == 0 { NIL } else { (k - 1) as usize },
                        if k + 1 == len { NIL } else { (k + 1) as usize },
                    ),
        {
            let prev = slot.wrapping_sub(1);
            let next = if slot == len - 1 {
                NIL
            } else {
                slot + 1
            };
            let npx = XorList::<T>::compute_npx(slot, prev, next);
            nodes.push(Node { value: Some(value), npx });
            slot = slot + 1;
        }
        let list = RawList {
            nodes,
            dirty: Vec::new(),
            head: 0,
            tail: len - 1,
            order: Ghost(Seq::new(len as nat, |i: int| i as usize)),
        };
        proof {
            list.lemma_laid_out_wf(false);
            assert(list@ =~= elems);
        }
        list
    }

    /// Moves all elements of `other` to the back of `self`, leaving `other`
    /// empty.
    ///
    /// When both lists are non-empty, `other`'s buffer is moved wholesale
    /// behind `self`'s: every slot of `other` is shifted up by the length
    /// of `self`'s buffer, and thanks to the self-relative link encoding
    /// only the three link words at the seam are rewritten.
    #[verifier::rlimit(60)]
    #[verifier::spinoff_prover]
    pub(crate) fn append(&mut self, other: &mut Self)
        requires
            old(self).wf(),
            old(other).wf(),
        ensures
            final(self).wf(),
            final(other).wf(),
            final(self)@ == old(self)@ + old(other)@,
            final(other)@.len() == 0,
            old(other)@.len() == 0 ==> *final(self) == *old(self) && *final(other) == *old(other),
            old(other)@.len() > 0 && old(self)@.len() == 0 ==> *final(self) == *old(other)
                && *final(other) == *old(self),
            old(other)@.len() > 0 && old(self)@.len() > 0 ==> {
                &&& final(self).nodes@.len() == old(self).nodes@.len() + old(other).nodes@.len()
                &&& final(self).order@ == old(self).order@ + shifted(
                    old(other).order@,
                    old(self).nodes@.len() as int,
                )
                &&& final(self).dirty@ == old(self).dirty@ + shifted(
                    old(other).dirty@,
                    old(self).nodes@.len() as int,
                )
                &&& forall|s: usize|
                    s < old(self).nodes@.len() ==> final(self).occupant(s) == old(self).occupant(s)
                &&& final(other).nodes@.len() == 0
                &&& final(other).dirty@.len() == 0
                &&& forall|s: int|
                    0 <= s < old(self).nodes@.len() && s != old(self).tail
                        ==> #[trigger] final(self).nodes@[s].npx == old(self).nodes@[s].npx
                &&& forall|s: int|
                    0 <= s < old(other).nodes@.len() && s != old(other).head && s != old(other).tail
                        ==> #[trigger] final(self).nodes@[s + old(self).nodes@.len()].npx
                        == old(other).nodes@[s].npx
            },
    {
        if other.is_empty() {
            return;
        }
        if self.is_empty() {
            core::mem::swap(self, other);
            proof {
                assert(self@ =~= old(self)@ + old(other)@);
            }
            return;
        }
        let ghost a = *self;
        let ghost b = *other;
        let ghost n1 = a@.len();
        let ghost m = b@.len();
        let offset = self.nodes.len();
        let self_tail = self.tail;
        let other_head = other.head;
        let other_tail = other.tail;
        proof {
            a.lemma_link_at(n1 - 1);
            b.lemma_link_at(0);
            b.lemma_link_at(m - 1);
        }
        let self_prev = self.nodes[self_tail].prev_slot(self_tail, NIL);
        let (head_next, tail_prev) = if other_head == other_tail {
            (NIL, NIL)
        } else {
            (
                other.nodes[other_head].next_slot(other_head, NIL),
                other.nodes[other_tail].prev_slot(other_tail, NIL),
            )
        };
        self.nodes.append(&mut other.nodes);
        proof {
            assert(self.nodes@.len() == offset + b.nodes@.len());
            assert(self.nodes.len() == self.nodes@.len());
            if other_head != other_tail {
                assert(m > 1);
                assert(b.order@[0] != b.order@[m - 1]);
            }
        }
        let other_head_slot = offset + other_head;
        let other_tail_slot = offset + other_tail;
        let npx = XorList::<T>::compute_npx(self_tail, self_prev, other_head_slot);
        self.nodes[self_tail].npx = npx;
        if other_head == other_tail {
            let npx = XorList::<T>::compute_npx(other_head_slot, self_tail, NIL);
            self.nodes[other_head_slot].npx = npx;
        } else {
            let npx = XorList::<T>::compute_npx(other_head_slot, self_tail, offset + head_next);
            self.nodes[other_head_slot].npx = npx;
            let npx = XorList::<T>::compute_npx(other_tail_slot, offset + tail_prev, NIL);
            self.nodes[other_tail_slot].npx = npx;
        }
        let other_dirty_len = other.dirty.len();
        let ghost linked = self.nodes@;
        proof {
            assert forall|s: int| 0 <= s < a.nodes@.len() && s != a.tail implies #[trigger] linked[s].npx
                == a.nodes@[s].npx by {}
            assert forall|s: int|
                0 <= s < b.nodes@.len() && s != b.head && s != b.tail implies #[trigger] linked[s
                + a.nodes@.len()].npx == b.nodes@[s].npx by {}
        }
        let mut j: usize = 0;
        while j < other_dirty_len
            invariant
                self.nodes@ == linked,
                self.head == a.head,
                other.nodes@.len() == 0,
                other.dirty@ == b.dirty@,
                other_dirty_len == b.dirty@.len(),
                b.wf(),
                offset == a.nodes@.len(),
                offset + b.nodes@.len() <= usize::MAX,
                j <= other_dirty_len,
                self.dirty@ == a.dirty@ + shifted(b.dirty@.subrange(0, j as int), offset as int),
            decreases other_dirty_len - j,
        {
            proof {
                assert(b.dirty@[j as int] < b.nodes@.len());
            }
            self.dirty.push(other.dirty[j] + offset);
            proof {
                assert(self.dirty@ =~= a.dirty@ + shifted(
                    b.dirty@.subrange(0, j + 1),
                    offset as int,
                ));
            }
            j = j + 1;
        }
        other.dirty.clear();
        self.tail = other_tail_slot;
        other.head = NIL;
        other.tail = NIL;
        proof {
            assert(b.dirty@.subrange(0, b.dirty@.len() as int) =~= b.dirty@);
            self.order@ = a.order@ + shifted(b.order@, offset as int);
            other.order@ = Seq::empty();
            self.lemma_append_wf(a, b);
            assert(other@ =~= Seq::<T>::empty());
        }
    }

    #[verifier::rlimit(50)]
    #[verifier::spinoff_prover]
    proof fn lemma_append_wf(&self, a: Self, b: Self)
        requires
            a.wf(),
            b.wf(),
            a@.len() > 0,
            b@.len() > 0,
            self.nodes@.len() == a.nodes@.len() + b.nodes@.len(),
            forall|s: int|
                0 <= s < a.nodes@.len() && s != a.tail ==> self.nodes@[s] == a.nodes@[s],
            self.nodes@[a.tail as int] == (Node {
                value: a.nodes@[a.tail as int].value,
                npx: link_word(a.tail, a.slot_at(a@.len() - 2), (a.nodes@.len() + b.head) as usize),
            }),
            forall|t: int|
                0 <= t < b.nodes@.len() && t != b.head && t != b.tail ==> self.nodes@[a.nodes@.len() + t]
                    == b.nodes@[t],
            self.nodes@[a.nodes@.len() + b.head] == (Node {
                value: b.nodes@[b.head as int].value,
                npx: link_word(
                    (a.nodes@.len() + b.head) as usize,
                    a.tail,
                    if b@.len() == 1 {
                        NIL
                    } else {
                        (a.nodes@.len() + b.slot_at(1)) as usize
                    },
                ),
            }),
            b@.len() > 1 ==> self.nodes@[a.nodes@.len() + b.tail] == (Node {
                value: b.nodes@[b.tail as int].value,
                npx: link_word(
                    (a.nodes@.len() + b.tail) as usize,
                    (a.nodes@.len() + b.slot_at(b@.len() - 2)) as usize,
                    NIL,
                ),
            }),
            self.order@ == a.order@ + shifted(b.order@, a.nodes@.len() as int),
            self.dirty@ == a.dirty@ + shifted(b.dirty@, a.nodes@.len() as int),
            self.head == a.head,
            self.tail == (a.nodes@.len() + b.tail) as usize,
        ensures
            self.wf(),
            self@ == a@ + b@,
            forall|s: usize| s < a.nodes@.len() ==> self.occupant(s) == a.occupant(s),
    {
        let o1 = a.order@;
        let o2 = b.order@;
        let n1 = o1.len() as int;
        let m = o2.len() as int;
        let off = a.nodes@.len() as int;
        let o = self.order@;
        let d1 = a.dirty@;
        let d2 = b.dirty@;
        let d = self.dirty@;
        assert(self.nodes@.len() == self.nodes.len());
        assert forall|i: int| 0 <= i < n1 + m implies #[trigger] o[i] == (if i < n1 {
            o1[i]
        } else {
            (o2[i - n1] + off) as usize
        }) by {}
        assert forall|i: int| 0 <= i < d1.len() + d2.len() implies #[trigger] d[i] == (if i < d1.len() {
            d1[i]
        } else {
            (d2[i - d1.len()] + off) as usize
        }) by {}
        assert forall|i: int| 0 <= i < m implies (#[trigger] o2[i] as int) < b.nodes@.len() by {}
        assert forall|i: int| 0 <= i < d2.len() implies (#[trigger] d2[i] as int) < b.nodes@.len() by {}
        // Slots of `a` lie below `off`, slots of `b` at or above it.
        assert(o.no_duplicates()) by {
            assert forall|x: int, y: int| 0 <= x < y < n1 + m implies o[x] != o[y] by {
                if y < n1 {
                } else if x < n1 {
                    assert(o1[x] < off);
                } else {
                    assert(o2[x - n1] != o2[y - n1]);
                }
            }
        }
        assert(d.no_duplicates()) by {
            assert forall|x: int, y: int| 0 <= x < y < d.len() implies d[x] != d[y] by {
                if y < d1.len() {
                } else if x < d1.len() {
                    assert(d1[x] < off);
                } else {
                    assert(d2[x - d1.len()] != d2[y - d1.len()]);
                }
            }
        }
        assert forall|i: int| 0 <= i < o.len() implies (#[trigger] o[i] as int) < self.nodes@.len() by {
            if i < n1 {
                assert(o1[i] < a.nodes@.len());
            }
        }
        assert forall|j: int| 0 <= j < d.len() implies (#[trigger] d[j] as int) < self.nodes@.len()
            && !o.contains(d[j]) by {
            if o.contains(d[j]) {
                let i = choose|i: int| 0 <= i < o.len() && o[i] == d[j];
                if j < d1.len() {
                    if i < n1 {
                        assert(o1.contains(d1[j]));
                    } else {
                        assert(d1[j] < off);
                    }
                } else {
                    if i < n1 {
                        assert(o1[i] < off);
                    } else {
                        assert(o2[i - n1] == d2[j - d1.len()]);
                        assert(o2.contains(d2[j - d1.len()]));
                    }
                }
            }
        }
        assert forall|s: int| 0 <= s < self.nodes@.len() implies ((#[trigger] self.nodes@[s]).value is Some
            <==> o.contains(s as usize)) by {
            if s < off {
                assert(self.nodes@[s].value == a.nodes@[s].value);
                if o1.contains(s as usize) {
                    let i = choose|i: int| 0 <= i < n1 && o1[i] == s as usize;
                    assert(o[i] == s as usize);
                }
                if o.contains(s as usize) {
                    let i = choose|i: int| 0 <= i < o.len() && o[i] == s as usize;
                    if i >= n1 {
                        assert(o[i] >= off);
                    }
                    assert(o1[i] == s as usize);
                }
            } else {
                let t = s - off;
                assert(self.nodes@[s].value == b.nodes@[t].value);
                if o2.contains(t as usize) {
                    let i = choose|i: int| 0 <= i < m && o2[i] == t as usize;
                    assert(o[i + n1] == s as usize);
                }
                if o.contains(s as usize) {
                    let i = choose|i: int| 0 <= i < o.len() && o[i] == s as usize;
                    if i < n1 {
                        assert(o1[i] < off);
                    }
                    assert(o2[i - n1] == t as usize);
                }
            }
        }
        assert forall|i: int| 0 <= i < o.len() implies (#[trigger] self.nodes@[o[i] as int]).npx
            == link_word(o[i], self.slot_at(i - 1), self.slot_at(i + 1)) by {
            if i < n1 - 1 {
                assert(o1[i] != a.tail);
                assert(a.nodes@[o1[i] as int].npx == link_word(o1[i], a.slot_at(i - 1), a.slot_at(i + 1)));
            } else if i == n1 - 1 {
                assert(self.slot_at(i + 1) == (off + b.head) as usize);
            } else {
                let k = i - n1;
                if k == 0 {
                    if m > 1 {
                        assert(self.slot_at(i + 1) == (off + o2[1]) as usize);
                    }
                } else if k == m - 1 {
                    assert(self.slot_at(i - 1) == (off + o2[m - 2]) as usize);
                } else {
                    assert(o2[k] != b.head);
                    assert(o2[k] != b.tail);
                    assert(b.nodes@[o2[k] as int].npx == link_word(o2[k], b.slot_at(k - 1), b.slot_at(k + 1)));
                    lemma_link_shift(o2[k], o2[k - 1], o2[k + 1], off as usize);
                    assert(self.slot_at(i - 1) == (o2[k - 1] + off) as usize);
                    assert(self.slot_at(i + 1) == (o2[k + 1] + off) as usize);
                }
            }
        }
        assert(self@ =~= a@ + b@) by {
            assert forall|i: int| 0 <= i < n1 + m implies self@[i] == (a@ + b@)[i] by {
                if i < n1 {
                    a.lemma_link_at(i);
                    assert(o1[i] < off);
                } else {
                    b.lemma_link_at(i - n1);
                }
            }
        }
    }

    /// After a split at `at`, the half left in the old storage is well
    /// formed: the moved positions (before `at` when `front`, from `at` on
    /// otherwise) are dirty, and the node at the seam has been relinked.
    #[verifier::rlimit(50)]
    #[verifier::spinoff_prover]
    proof fn lemma_split_rest_wf(
        &self,
        pre: Self,
        at: int,
        front: bool,
        fwd: bool,
        p0: int,
        m: int,
        b: int,
    )
        requires
            pre.wf(),
            0 < at < pre@.len(),
            fwd == !front,
            p0 == (if front { at - 1 } else { at }),
            m == (if front { at } else { pre@.len() - at }),
            b == (if front { at } else { at - 1 }),
            self.order@ == (if front {
                pre.order@.subrange(at, pre@.len() as int)
            } else {
                pre.order@.subrange(0, at)
            }),
            self.nodes@.len() == pre.nodes@.len(),
            self.dirty@ == pre.dirty@ + Seq::new(
                m as nat,
                |k: int| pre.order@[Self::walk_pos(p0, fwd, k)],
            ),
            forall|k: int|
                0 <= k < m ==> self.nodes@[pre.order@[#[trigger] Self::walk_pos(p0, fwd, k)] as int].value is None,
            forall|s: int|
                0 <= s < pre.nodes@.len() && s != pre.order@[b] && (forall|k: int|
                    0 <= k < m ==> pre.order@[#[trigger] Self::walk_pos(p0, fwd, k)] != s) ==> self.nodes@[s]
                    == pre.nodes@[s],
            front ==> self.nodes@[pre.order@[at] as int] == (Node {
                value: pre.nodes@[pre.order@[at] as int].value,
                npx: link_word(pre.order@[at], NIL, pre.slot_at(at + 1)),
            }),
            !front ==> self.nodes@[pre.order@[at - 1] as int] == (Node {
                value: pre.nodes@[pre.order@[at - 1] as int].value,
                npx: link_word(pre.order@[at - 1], pre.slot_at(at - 2), NIL),
            }),
            self.head == (if front {
                pre.order@[at]
            } else {
                pre.head
            }),
            self.tail == (if front {
                pre.tail
            } else {
                pre.order@[at - 1]
            }),
        ensures
            self.wf(),
            self@ == (if front {
                pre@.subrange(at, pre@.len() as int)
            } else {
                pre@.subrange(0, at)
            }),
    {
        let o = pre.order@;
        let n = o.len() as int;
        let d = pre.dirty@;
        let o2 = self.order@;
        let d2 = self.dirty@;
        let off = if front { at } else { 0 };
        let n2 = n - m;
        assert(o2.len() == n2);
        assert forall|k: int| 0 <= k < m implies #[trigger] Self::walk_pos(p0, fwd, k) == (if front {
            at - 1 - k
        } else {
            at + k
        }) by {}
        assert forall|i: int| 0 <= i < n2 implies #[trigger] o2[i] == o[i + off] by {}
        // Every slot of `pre` lies at exactly one position.
        assert forall|q1: int, q2: int| 0 <= q1 < n && 0 <= q2 < n && q1 != q2 implies o[q1] != o[q2] by {}
        assert(o2.no_duplicates()) by {
            assert forall|a: int, c: int| 0 <= a < c < n2 implies o2[a] != o2[c] by {
                assert(o2[a] == o[a + off]);
                assert(o2[c] == o[c + off]);
            }
        }
        assert forall|j: int| 0 <= j < d2.len() implies (if j < d.len() {
            d2[j] == d[j]
        } else {
            d2[j] == o[Self::walk_pos(p0, fwd, j - d.len())]
        }) by {}
        assert(d2.no_duplicates()) by {
            assert forall|a: int, c: int| 0 <= a < c < d2.len() implies d2[a] != d2[c] by {
                if c < d.len() {
                } else if a < d.len() {
                    let q = Self::walk_pos(p0, fwd, c - d.len());
                    assert(d2[c] == o[q]);
                    assert(o.contains(o[q]));
                    assert(!o.contains(d[a]));
                } else {
                    let qa = Self::walk_pos(p0, fwd, a - d.len());
                    let qc = Self::walk_pos(p0, fwd, c - d.len());
                    assert(qa != qc);
                    assert(o[qa] != o[qc]);
                }
            }
        }
        assert forall|i: int| 0 <= i < o2.len() implies (#[trigger] o2[i] as int) < self.nodes@.len() by {
            assert(o2[i] == o[i + off]);
        }
        assert forall|j: int| 0 <= j < d2.len() implies (#[trigger] d2[j] as int) < self.nodes@.len()
            && !o2.contains(d2[j]) by {
            if j < d.len() {
                assert(d2[j] == d[j]);
                if o2.contains(d2[j]) {
                    let i = choose|i: int| 0 <= i < n2 && o2[i] == d2[j];
                    assert(o.contains(o[i + off]));
                }
            } else {
                let q = Self::walk_pos(p0, fwd, j - d.len());
                assert(d2[j] == o[q]);
                if o2.contains(d2[j]) {
                    let i = choose|i: int| 0 <= i < n2 && o2[i] == d2[j];
                    assert(o[i + off] == o[q]);
                }
            }
        }
        assert forall|s: int| 0 <= s < self.nodes@.len() implies ((#[trigger] self.nodes@[s]).value is Some
            <==> o2.contains(s as usize)) by {
            if o.contains(s as usize) {
                let q = choose|q: int| 0 <= q < n && o[q] == s as usize;
                if 0 <= q - off < n2 {
                    assert(o2[q - off] == s as usize);
                    assert(pre.nodes@[s].value is Some);
                    if q != b {
                        assert forall|k: int| 0 <= k < m implies o[Self::walk_pos(p0, fwd, k)] != s by {
                            assert(Self::walk_pos(p0, fwd, k) != q);
                        }
                    }
                } else {
                    let k = if front { at - 1 - q } else { q - at };
                    assert(Self::walk_pos(p0, fwd, k) == q);
                    assert(self.nodes@[o[Self::walk_pos(p0, fwd, k)] as int].value is None);
                    if o2.contains(s as usize) {
                        let i = choose|i: int| 0 <= i < n2 && o2[i] == s as usize;
                        assert(o[i + off] == o[q]);
                    }
                }
            } else {
                assert(s != o[b]);
                assert forall|k: int| 0 <= k < m implies o[Self::walk_pos(p0, fwd, k)] != s by {
                    assert(o.contains(o[Self::walk_pos(p0, fwd, k)]));
                }
                assert(self.nodes@[s] == pre.nodes@[s]);
                if o2.contains(s as usize) {
                    let i = choose|i: int| 0 <= i < n2 && o2[i] == s as usize;
                    assert(o.contains(o[i + off]));
                }
            }
        }
        assert forall|i: int| 0 <= i < o2.len() implies (#[trigger] self.nodes@[o2[i] as int]).npx
            == link_word(o2[i], self.slot_at(i - 1), self.slot_at(i + 1)) by {
            let q = i + off;
            assert(o2[i] == o[q]);
            if q != b {
                assert forall|k: int| 0 <= k < m implies o[Self::walk_pos(p0, fwd, k)] != o[q] by {
                    assert(Self::walk_pos(p0, fwd, k) != q);
                }
                assert(self.nodes@[o[q] as int] == pre.nodes@[o[q] as int]);
                assert(pre.nodes@[o[q] as int].npx == link_word(o[q], pre.slot_at(q - 1), pre.slot_at(q + 1)));
                assert(self.slot_at(i - 1) == pre.slot_at(q - 1));
                assert(self.slot_at(i + 1) == pre.slot_at(q + 1));
            } else {
                if front {
                    assert(self.slot_at(i + 1) == pre.slot_at(at + 1));
                } else {
                    assert(self.slot_at(i - 1) == pre.slot_at(at - 2));
                }
            }
        }
        if front {
            assert(self@ =~= pre@.subrange(at, n)) by {
                assert forall|i: int| 0 <= i < n2 implies self@[i] == pre@[i + at] by {
                    pre.lemma_link_at(i + at);
                    let q = i + at;
                    if q != b {
                        assert forall|k: int| 0 <= k < m implies o[Self::walk_pos(p0, fwd, k)] != o[q] by {
                            assert(Self::walk_pos(p0, fwd, k) != q);
                        }
                    }
                }
            }
        } else {
            assert(self@ =~= pre@.subrange(0, at)) by {
                assert forall|i: int| 0 <= i < n2 implies self@[i] == pre@[i] by {
                    pre.lemma_link_at(i);
                    if i != b {
                        assert forall|k: int| 0 <= k < m implies o[Self::walk_pos(p0, fwd, k)] != o[i] by {
                            assert(Self::walk_pos(p0, fwd, k) != i);
                        }
                    }
                }
            }
        }
    }

    fn push_empty(&mut self, value: T) -> (slot: usize)
        requires
            old(self).wf(),
            old(self).nodes@.len() == 0,
        ensures
            final(self).wf(),
            final(self)@ == old(self)@.push(value),
            final(self).order@ == old(self).order@.push(slot),
            slot == old(self).next_free_slot(),
            final(self).dirty@ == old(self).dirty_after_push(),
            forall|s: usize| s != slot ==> final(self).occupant(s) == old(self).occupant(s),
    {
        self.head = 0;
        self.tail = 0;
        self.nodes.push(Node { value: Some(value), npx: 0 });
        proof {
            lemma_link_lone();
            self.order@ = seq![0usize];
            assert(old(self).order@.len() == 0);
            assert(self.order@[0] == 0);
            assert(self.order@.contains(0));
            assert(self.order@ =~= old(self).order@.push(0));
            assert(self@ =~= old(self)@.push(value));
        }
        0
    }
}

} // verus!
