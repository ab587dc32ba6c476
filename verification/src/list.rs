//! [`XorList`]: a doubly-linked list with XOR-compressed links, backed by a
//! single contiguous buffer.

use vstd::prelude::*;
use vstd::std_specs::cmp::PartialEqSpec;

use crate::link::{link_word, shifted, NIL};
use crate::raw::RawList;

verus! {

/// A doubly-linked list with XOR-compressed links, backed by a single
/// contiguous buffer.
///
/// All nodes live in slots of one buffer; the slot a push fills stays the
/// element's slot for as long as the element lives, and doubles as an
/// *O*(1) handle for [`slot`](Self::slot) and [`slot_mut`](Self::slot_mut).
/// Slots vacated by pops are marked dirty and reused, most recently vacated
/// first, by later pushes.
pub struct XorList<T> {
    pub(crate) raw: RawList<T>,
}

impl<T> View for XorList<T> {
    type V = Seq<T>;

    /// The elements, front to back.
    closed spec fn view(&self) -> Seq<T> {
        self.raw@
    }
}

impl<T> XorList<T> {
    /// The representation invariant: the slots in traversal order, the
    /// dirty slots and the link words agree.
    #[verifier::type_invariant]
    pub closed spec fn well_formed(&self) -> bool {
        self.raw.wf()
    }

    /// The slots of the elements, front to back.
    pub closed spec fn slot_order(&self) -> Seq<usize> {
        self.raw.order@
    }

    /// The dirty slots, in the order they were vacated.
    pub closed spec fn dirty_slots(&self) -> Seq<usize> {
        self.raw.dirty@
    }

    /// The number of slots in the backing buffer, occupied or dirty.
    pub closed spec fn buffer_len(&self) -> nat {
        self.raw.nodes@.len()
    }

    /// What slot `s` holds: its element, or `None` when the slot is dirty
    /// or does not exist.
    pub closed spec fn occupant(&self, s: usize) -> Option<T> {
        self.raw.occupant(s)
    }

    /// The link word stored in slot `s`.
    pub closed spec fn link_at(&self, s: usize) -> usize {
        self.raw.nodes@[s as int].npx
    }

    /// The slot of the element at position `i`, or [`NIL`] outside the
    /// list.
    pub open spec fn slot_at(&self, i: int) -> usize {
        if 0 <= i < self.slot_order().len() {
            self.slot_order()[i]
        } else {
            NIL
        }
    }

    /// The slot that the next push fills: the most recently vacated one, or
    /// a fresh slot at the end of the buffer.
    pub open spec fn next_free_slot(&self) -> usize {
        if self.dirty_slots().len() > 0 {
            self.dirty_slots().last()
        } else {
            self.buffer_len() as usize
        }
    }

    /// The slot that the `k`-th of a run of pushes fills, counting from
    /// zero: the dirty slots are taken most recently vacated first, then
    /// fresh slots at the end of the buffer.
    pub open spec fn nth_free_slot(&self, k: int) -> usize {
        let d = self.dirty_slots().len() as int;
        if k < d {
            self.dirty_slots()[d - 1 - k]
        } else {
            (self.buffer_len() + k - d) as usize
        }
    }

    /// `after` has the slot layout that `n` pushes at the back leave
    /// behind: the new elements take [`nth_free_slot`](Self::nth_free_slot)
    /// `0` to `n - 1`, consuming the dirty slots before the buffer grows.
    pub open spec fn lays_out_pushes(&self, n: nat, after: Self) -> bool {
        let d = self.dirty_slots().len();
        &&& after.slot_order() == self.slot_order() + Seq::new(n, |k: int| self.nth_free_slot(k))
        &&& after.dirty_slots() == (if n <= d {
            self.dirty_slots().subrange(0, d - n)
        } else {
            Seq::empty()
        })
        &&& after.buffer_len() == (if n <= d {
            self.buffer_len() as int
        } else {
            self.buffer_len() + n - d
        })
    }

    /// The dirty slots after the next push.
    pub open spec fn dirty_after_push(&self) -> Seq<usize> {
        if self.dirty_slots().len() > 0 {
            self.dirty_slots().drop_last()
        } else {
            self.dirty_slots()
        }
    }

    /// The number of slots after the next push.
    pub open spec fn buffer_len_after_push(&self) -> nat {
        if self.dirty_slots().len() > 0 {
            self.buffer_len()
        } else {
            self.buffer_len() + 1
        }
    }

    /// The slots lie in traversal order with no dirty slot.
    pub open spec fn is_laid_out(&self) -> bool {
        &&& self.dirty_slots().len() == 0
        &&& self.slot_order() == Seq::new(self@.len(), |i: int| i as usize)
    }

    /// `after` is what [`push_back`](Self::push_back) of `value` makes of
    /// `self`, the new element landing in `slot`.
    pub open spec fn pushes_back(&self, value: T, slot: usize, after: Self) -> bool {
        &&& after@ == self@.push(value)
        &&& after.slot_order() == self.slot_order().push(slot)
        &&& slot == self.next_free_slot()
        &&& after.dirty_slots() == self.dirty_after_push()
        &&& after.buffer_len() == self.buffer_len_after_push()
        &&& forall|s: usize| s != slot ==> after.occupant(s) == self.occupant(s)
    }

    /// `after` is what [`push_front`](Self::push_front) of `value` makes of
    /// `self`, the new element landing in `slot`.
    pub open spec fn pushes_front(&self, value: T, slot: usize, after: Self) -> bool {
        &&& after@ == seq![value] + self@
        &&& after.slot_order() == seq![slot] + self.slot_order()
        &&& slot == self.next_free_slot()
        &&& after.dirty_slots() == self.dirty_after_push()
        &&& after.buffer_len() == self.buffer_len_after_push()
        &&& forall|s: usize| s != slot ==> after.occupant(s) == self.occupant(s)
    }

    /// `after` and the result `r` are what [`pop_back`](Self::pop_back)
    /// makes of `self`.
    pub open spec fn pops_back(&self, r: Option<T>, after: Self) -> bool {
        let last = self.slot_at(self@.len() - 1);
        &&& after.buffer_len() == self.buffer_len()
        &&& self@.len() == 0 ==> {
            &&& r is None
            &&& after@ == self@
            &&& after.slot_order() == self.slot_order()
            &&& after.dirty_slots() == self.dirty_slots()
        }
        &&& self@.len() > 0 ==> {
            &&& r == Some(self@.last())
            &&& after@ == self@.drop_last()
            &&& after.slot_order() == self.slot_order().drop_last()
            &&& after.dirty_slots() == self.dirty_slots().push(last)
            &&& after.occupant(last) is None
            &&& forall|s: usize| s != last ==> after.occupant(s) == self.occupant(s)
        }
    }

    /// `after` and the result `r` are what [`pop_front`](Self::pop_front)
    /// makes of `self`.
    pub open spec fn pops_front(&self, r: Option<T>, after: Self) -> bool {
        let first = self.slot_at(0);
        &&& after.buffer_len() == self.buffer_len()
        &&& self@.len() == 0 ==> {
            &&& r is None
            &&& after@ == self@
            &&& after.slot_order() == self.slot_order()
            &&& after.dirty_slots() == self.dirty_slots()
        }
        &&& self@.len() > 0 ==> {
            &&& r == Some(self@[0])
            &&& after@ == self@.drop_first()
            &&& after.slot_order() == self.slot_order().drop_first()
            &&& after.dirty_slots() == self.dirty_slots().push(first)
            &&& after.occupant(first) is None
            &&& forall|s: usize| s != first ==> after.occupant(s) == self.occupant(s)
        }
    }

    /// `kept` and `rest` are what [`split_off`](Self::split_off) at `at`
    /// leaves in `self` and returns: the elements before `at` and from
    /// `at` on. Splitting at either end moves the whole list to one side
    /// and leaves a fresh empty list on the other; otherwise the shorter
    /// half is rebuilt into fresh storage and the other half keeps the old
    /// buffer, whose slots of the departed elements become dirty.
    pub open spec fn splits_off(&self, at: int, kept: Self, rest: Self) -> bool {
        let len = self@.len() as int;
        &&& kept@ == self@.subrange(0, at)
        &&& rest@ == self@.subrange(at, len)
        &&& at == 0 ==> rest == *self && kept.buffer_len() == 0 && kept.dirty_slots().len() == 0
        &&& at != 0 && at == len ==> kept == *self && rest.buffer_len() == 0
            && rest.dirty_slots().len() == 0
        &&& 0 < at < len && at < len - at ==> {
            &&& kept.buffer_len() == at
            &&& kept.dirty_slots().len() == 0
            &&& kept.slot_order() == Seq::new(at as nat, |i: int| (at - 1 - i) as usize)
            &&& rest.slot_order() == self.slot_order().subrange(at, len)
            &&& rest.buffer_len() == self.buffer_len()
            &&& rest.dirty_slots() == self.dirty_slots() + Seq::new(
                at as nat,
                |k: int| self.slot_order()[at - 1 - k],
            )
        }
        &&& 0 < at < len && at >= len - at ==> {
            &&& kept.slot_order() == self.slot_order().subrange(0, at)
            &&& kept.buffer_len() == self.buffer_len()
            &&& kept.dirty_slots() == self.dirty_slots() + Seq::new(
                (len - at) as nat,
                |k: int| self.slot_order()[at + k],
            )
            &&& rest.buffer_len() == len - at
            &&& rest.dirty_slots().len() == 0
            &&& rest.slot_order() == Seq::new((len - at) as nat, |i: int| i as usize)
        }
    }

    /// The accessors in terms of the representation.
    pub(crate) proof fn lemma_raw(&self)
        requires
            self.well_formed() || self.raw.wf(),
        ensures
            self.raw.wf(),
            self@ == self.raw@,
            self@.len() == self.raw.order@.len(),
            self.slot_order() == self.raw.order@,
            self.dirty_slots() == self.raw.dirty@,
            self.buffer_len() == self.raw.nodes@.len(),
            forall|s: usize| #[trigger] self.occupant(s) == self.raw.occupant(s),
            forall|i: int| #[trigger] self.slot_at(i) == self.raw.slot_at(i),
    {
        self.raw.lemma_view();
    }

    /// What the invariant says of the public accessors: every element has
    /// its own slot, and a slot holds an element exactly when it appears in
    /// the traversal order, the element at its position.
    pub proof fn lemma_slots(&self)
        requires
            self.well_formed(),
        ensures
            self.slot_order().len() == self@.len(),
            self.slot_order().no_duplicates(),
            self@.len() + self.dirty_slots().len() == self.buffer_len(),
            forall|i: int|
                0 <= i < self@.len() ==> (#[trigger] self.slot_order()[i] as int) < self.buffer_len(),
            self.buffer_len() <= usize::MAX,
            forall|s: usize| #[trigger] self.occupant(s) is Some <==> self.slot_order().contains(s),
            forall|i: int|
                0 <= i < self@.len() ==> #[trigger] self.occupant(self.slot_order()[i]) == Some(
                    self@[i],
                ),
            forall|j: int|
                0 <= j < self.dirty_slots().len() ==> (#[trigger] self.dirty_slots()[j] as int)
                    < self.buffer_len() && self.occupant(self.dirty_slots()[j]) is None,
    {
        self.lemma_raw();
        assert forall|s: usize| #[trigger] self.occupant(s) is Some <==> self.slot_order().contains(s) by {
            self.raw.lemma_occupant(s);
        }
        assert forall|i: int|
            0 <= i < self@.len() implies #[trigger] self.occupant(self.slot_order()[i]) == Some(
                self@[i],
            ) by {
            self.raw.lemma_link_at(i);
        }
        assert forall|j: int| 0 <= j < self.dirty_slots().len() implies (#[trigger] self.dirty_slots()[j] as int)
            < self.buffer_len() && self.occupant(self.dirty_slots()[j]) is None by {
            self.raw.lemma_occupant(self.dirty_slots()[j]);
        }
    }

    /// Moves the representation out, leaving an empty list behind.
    fn take_raw(&mut self) -> (r: RawList<T>)
        ensures
            r == old(self).raw,
            r.wf(),
            final(self).raw.nodes@.len() == 0,
    {
        proof {
            use_type_invariant(&*self);
            self.lemma_raw();
        }
        let mut raw = RawList::new();
        core::mem::swap(&mut raw, &mut self.raw);
        raw
    }

    /// Creates an empty `XorList`.
    pub fn new() -> (list: Self)
        ensures
            list@ == Seq::<T>::empty(),
            list.slot_order() == Seq::<usize>::empty(),
            list.buffer_len() == 0,
            list.dirty_slots().len() == 0,
    {
        XorList { raw: RawList::new() }
    }

    /// The link word of the node in slot `curr` between `prev` and `next`:
    /// `(prev - curr) ^ (next - curr)` with wrapping subtraction.
    pub fn compute_npx(curr: usize, prev: usize, next: usize) -> (r: usize)
        ensures
            r == link_word(curr, prev, next),
    {
        prev.wrapping_sub(curr) ^ next.wrapping_sub(curr)
    }

    /// Returns the number of elements.
    pub fn len(&self) -> (r: usize)
        ensures
            r == self@.len(),
    {
        proof {
            use_type_invariant(self);
            self.lemma_raw();
        }
        self.raw.len()
    }

    /// Returns `true` if the list contains no elements.
    pub fn is_empty(&self) -> (r: bool)
        ensures
            r == (self@.len() == 0),
    {
        proof {
            use_type_invariant(self);
            self.lemma_raw();
        }
        self.raw.is_empty()
    }

    /// The slot of the front element, or [`NIL`] if the list is empty.
    pub fn head(&self) -> (r: usize)
        ensures
            r == self.slot_at(0),
    {
        proof {
            use_type_invariant(self);
            self.lemma_raw();
        }
        self.raw.head
    }

    /// The slot of the back element, or [`NIL`] if the list is empty.
    pub fn tail(&self) -> (r: usize)
        ensures
            r == self.slot_at(self@.len() - 1),
    {
        proof {
            use_type_invariant(self);
            self.lemma_raw();
        }
        self.raw.tail
    }

    /// The dirty slots, in the order they were vacated; the last one is
    /// reused first.
    pub fn dirty(&self) -> (r: &[usize])
        ensures
            r@ == self.dirty_slots(),
    {
        self.raw.dirty.as_slice()
    }

    /// The number of slots in the backing buffer, occupied or dirty.
    pub fn slot_count(&self) -> (r: usize)
        ensures
            r == self.buffer_len(),
    {
        self.raw.nodes.len()
    }

    /// The link word stored in `slot`, which must exist. Dirty slots keep
    /// the link word they had when they were vacated.
    pub fn link_of(&self, slot: usize) -> (r: usize)
        requires
            slot < self.buffer_len(),
        ensures
            r == self.link_at(slot),
    {
        self.raw.nodes[slot].npx
    }

    /// Provides a reference to the front element, or `None` if the list is
    /// empty.
    pub fn front(&self) -> (r: Option<&T>)
        ensures
            r == (if self@.len() > 0 { Some(&self@[0]) } else { None }),
    {
        proof {
            use_type_invariant(self);
            self.lemma_raw();
        }
        self.raw.front()
    }

    /// Provides a reference to the back element, or `None` if the list is
    /// empty.
    pub fn back(&self) -> (r: Option<&T>)
        ensures
            r == (if self@.len() > 0 { Some(&self@.last()) } else { None }),
    {
        proof {
            use_type_invariant(self);
            self.lemma_raw();
        }
        self.raw.back()
    }

    /// A mutable reference to the element at position `i`, held in `slot`.
    pub(crate) fn value_mut(&mut self, Ghost(i): Ghost<int>, slot: usize) -> (r: &mut T)
        requires
            0 <= i < old(self)@.len(),
            slot == old(self).slot_at(i),
        ensures
            *r == old(self)@[i],
            final(self)@ == old(self)@.update(i, *final(r)),
            final(self).slot_order() == old(self).slot_order(),
            final(self).dirty_slots() == old(self).dirty_slots(),
            final(self).buffer_len() == old(self).buffer_len(),
            forall|s: usize| s != slot ==> final(self).occupant(s) == old(self).occupant(s),
            final(self).occupant(slot) == Some(*final(r)),
    {
        proof {
            use_type_invariant(&*self);
            self.lemma_raw();
        }
        self.raw.value_mut(Ghost(i), slot)
    }

    /// Provides a mutable reference to the front element, or `None` if the
    /// list is empty.
    pub fn front_mut(&mut self) -> (r: Option<&mut T>)
        ensures
            old(self)@.len() == 0 ==> r is None && *final(self) == *old(self),
            old(self)@.len() > 0 ==> {
                &&& r is Some
                &&& *r.unwrap() == old(self)@[0]
                &&& final(self)@ == old(self)@.update(0, *final(r.unwrap()))
                &&& final(self).slot_order() == old(self).slot_order()
                &&& final(self).dirty_slots() == old(self).dirty_slots()
            },
    {
        proof {
            use_type_invariant(&*self);
            self.lemma_raw();
        }
        if self.raw.head < self.raw.nodes.len() {
            let head = self.raw.head;
            Some(self.value_mut(Ghost(0), head))
        } else {
            None
        }
    }

    /// Provides a mutable reference to the back element, or `None` if the
    /// list is empty.
    pub fn back_mut(&mut self) -> (r: Option<&mut T>)
        ensures
            old(self)@.len() == 0 ==> r is None && *final(self) == *old(self),
            old(self)@.len() > 0 ==> {
                &&& r is Some
                &&& *r.unwrap() == old(self)@.last()
                &&& final(self)@ == old(self)@.update(old(self)@.len() - 1, *final(r.unwrap()))
                &&& final(self).slot_order() == old(self).slot_order()
                &&& final(self).dirty_slots() == old(self).dirty_slots()
            },
    {
        proof {
            use_type_invariant(&*self);
            self.lemma_raw();
        }
        if self.raw.tail < self.raw.nodes.len() {
            let tail = self.raw.tail;
            let ghost last = self@.len() - 1;
            Some(self.value_mut(Ghost(last), tail))
        } else {
            None
        }
    }

    /// Provides a reference to the element held in `slot` (as returned by
    /// a push), or `None` if the slot is dirty or out of bounds.
    pub fn slot(&self, slot: usize) -> (r: Option<&T>)
        ensures
            r is Some <==> self.occupant(slot) is Some,
            r is Some ==> *r.unwrap() == self.occupant(slot)->0,
    {
        proof {
            use_type_invariant(self);
            self.lemma_raw();
        }
        self.raw.slot(slot)
    }

    /// Provides a reference to the element held in `slot`, which must hold
    /// one.
    pub fn slot_unchecked(&self, slot: usize) -> (r: &T)
        requires
            self.occupant(slot) is Some,
        ensures
            *r == self.occupant(slot)->0,
    {
        proof {
            use_type_invariant(self);
            self.lemma_raw();
        }
        self.raw.slot_unchecked(slot)
    }

    /// Provides a mutable reference to the element held in `slot`, or
    /// `None` if the slot is dirty or out of bounds.
    pub fn slot_mut(&mut self, slot: usize) -> (r: Option<&mut T>)
        ensures
            r is Some <==> old(self).occupant(slot) is Some,
            r is None ==> *final(self) == *old(self),
            r is Some ==> {
                &&& *r.unwrap() == old(self).occupant(slot)->0
                &&& final(self).occupant(slot) == Some(*final(r.unwrap()))
                &&& forall|s: usize| s != slot ==> final(self).occupant(s) == old(self).occupant(s)
                &&& final(self)@ == old(self)@.update(
                    old(self).slot_order().index_of(slot),
                    *final(r.unwrap()),
                )
                &&& final(self).slot_order() == old(self).slot_order()
                &&& final(self).dirty_slots() == old(self).dirty_slots()
            },
    {
        proof {
            use_type_invariant(&*self);
            self.lemma_raw();
        }
        if slot < self.raw.nodes.len() && self.raw.nodes[slot].value.is_some() {
            proof {
                self.raw.lemma_occupant(slot);
                let i = self.raw.order@.index_of(slot);
                assert(0 <= i < self.raw.order@.len() && self.raw.order@[i] == slot);
            }
            let ghost i = self.raw.order@.index_of(slot);
            Some(self.value_mut(Ghost(i), slot))
        } else {
            None
        }
    }

    /// Provides a mutable reference to the element held in `slot`, which
    /// must hold one.
    pub fn slot_unchecked_mut(&mut self, slot: usize) -> (r: &mut T)
        requires
            old(self).occupant(slot) is Some,
        ensures
            *r == old(self).occupant(slot)->0,
            final(self).occupant(slot) == Some(*final(r)),
            forall|s: usize| s != slot ==> final(self).occupant(s) == old(self).occupant(s),
            final(self)@ == old(self)@.update(old(self).slot_order().index_of(slot), *final(r)),
            final(self).slot_order() == old(self).slot_order(),
            final(self).dirty_slots() == old(self).dirty_slots(),
    {
        proof {
            use_type_invariant(&*self);
            self.lemma_raw();
            self.raw.lemma_occupant(slot);
            let i = self.raw.order@.index_of(slot);
            assert(0 <= i < self.raw.order@.len() && self.raw.order@[i] == slot);
        }
        let ghost i = self.raw.order@.index_of(slot);
        self.value_mut(Ghost(i), slot)
    }

    /// Provides a reference to the element at position `at`, or `None` if
    /// `at` is out of bounds. The list is walked from the nearer end.
    pub fn get(&self, at: usize) -> (r: Option<&T>)
        ensures
            r == (if at < self@.len() { Some(&self@[at as int]) } else { None }),
    {
        proof {
            use_type_invariant(self);
            self.lemma_raw();
        }
        self.raw.get(at)
    }

    /// Provides a mutable reference to the element at position `at`, or
    /// `None` if `at` is out of bounds.
    pub fn get_mut(&mut self, at: usize) -> (r: Option<&mut T>)
        ensures
            at >= old(self)@.len() ==> r is None && *final(self) == *old(self),
            at < old(self)@.len() ==> {
                &&& r is Some
                &&& *r.unwrap() == old(self)@[at as int]
                &&& final(self)@ == old(self)@.update(at as int, *final(r.unwrap()))
                &&& final(self).slot_order() == old(self).slot_order()
                &&& final(self).dirty_slots() == old(self).dirty_slots()
            },
    {
        if at >= self.len() {
            return None;
        }
        Some(self.get_unchecked_mut(at))
    }

    /// Provides a reference to the element at position `at`, which must be
    /// in bounds.
    pub fn get_unchecked(&self, at: usize) -> (r: &T)
        requires
            at < self@.len(),
        ensures
            *r == self@[at as int],
    {
        proof {
            use_type_invariant(self);
            self.lemma_raw();
        }
        self.raw.get_unchecked(at)
    }

    /// Provides a mutable reference to the element at position `at`, which
    /// must be in bounds.
    pub fn get_unchecked_mut(&mut self, at: usize) -> (r: &mut T)
        requires
            at < old(self)@.len(),
        ensures
            *r == old(self)@[at as int],
            final(self)@ == old(self)@.update(at as int, *final(r)),
            final(self).slot_order() == old(self).slot_order(),
            final(self).dirty_slots() == old(self).dirty_slots(),
    {
        proof {
            use_type_invariant(&*self);
            self.lemma_raw();
        }
        let slot = self.raw.slot_of(at);
        self.value_mut(Ghost(at as int), slot)
    }

    /// Returns `true` if the list contains an element equal to `x`.
    pub fn contains(&self, x: &T) -> (r: bool)
        where
            T: PartialEq,
        ensures
            T::obeys_eq_spec() ==> (r <==> exists|i: int|
                0 <= i < self@.len() && (#[trigger] self@[i]).eq_spec(x)),
    {
        proof {
            use_type_invariant(self);
            self.lemma_raw();
        }
        self.raw.contains(x)
    }

    /// Removes all elements. The backing buffer is kept, and all of its
    /// slots become dirty, to be reused by later pushes.
    pub fn clear(&mut self)
        ensures
            final(self)@.len() == 0,
            final(self).buffer_len() == old(self).buffer_len(),
            final(self).dirty_slots() == Seq::new(old(self).buffer_len(), |i: int| i as usize),
            forall|s: usize| final(self).occupant(s) is None,
    {
        proof {
            use_type_invariant(&*self);
            self.lemma_raw();
        }
        let mut raw = self.take_raw();
        raw.clear();
        self.raw = raw;
    }

    /// Appends an element to the back of the list and returns the slot that
    /// holds it.
    pub fn push_back(&mut self, value: T) -> (slot: usize)
        ensures
            old(self).pushes_back(value, slot, *final(self)),
    {
        proof {
            use_type_invariant(&*self);
            self.lemma_raw();
        }
        let mut raw = self.take_raw();
        let slot = raw.push_back(value);
        self.raw = raw;
        slot
    }

    /// Adds an element to the front of the list and returns the slot that
    /// holds it.
    pub fn push_front(&mut self, value: T) -> (slot: usize)
        ensures
            old(self).pushes_front(value, slot, *final(self)),
    {
        proof {
            use_type_invariant(&*self);
            self.lemma_raw();
        }
        let mut raw = self.take_raw();
        let slot = raw.push_front(value);
        self.raw = raw;
        slot
    }

    /// Appends an element to the back of the list and returns the slot that
    /// holds it together with a mutable reference to it.
    pub fn push_back_mut(&mut self, value: T) -> (r: (usize, &mut T))
        ensures
            *r.1 == value,
            old(self).pushes_back(*final(r.1), r.0, *final(self)),
    {
        let ghost before = *self;
        let slot = self.push_back(value);
        proof {
            use_type_invariant(&*self);
            self.lemma_raw();
        }
        let ghost last = self@.len() - 1;
        proof {
            lemma_push_update(before@);
        }
        let r = self.value_mut(Ghost(last), slot);
        (slot, r)
    }

    /// Adds an element to the front of the list and returns the slot that
    /// holds it together with a mutable reference to it.
    pub fn push_front_mut(&mut self, value: T) -> (r: (usize, &mut T))
        ensures
            *r.1 == value,
            old(self).pushes_front(*final(r.1), r.0, *final(self)),
    {
        let ghost before = *self;
        let slot = self.push_front(value);
        proof {
            use_type_invariant(&*self);
            self.lemma_raw();
        }
        proof {
            lemma_push_update(before@);
        }
        let r = self.value_mut(Ghost(0), slot);
        (slot, r)
    }

    /// Removes the first element and returns it, or `None` if the list is
    /// empty. The vacated slot is kept for reuse by later pushes.
    pub fn pop_front(&mut self) -> (r: Option<T>)
        ensures
            old(self).pops_front(r, *final(self)),
    {
        proof {
            use_type_invariant(&*self);
            self.lemma_raw();
        }
        let mut raw = self.take_raw();
        let r = raw.pop_front();
        self.raw = raw;
        r
    }

    /// Removes the last element and returns it, or `None` if the list is
    /// empty. The vacated slot is kept for reuse by later pushes.
    pub fn pop_back(&mut self) -> (r: Option<T>)
        ensures
            old(self).pops_back(r, *final(self)),
    {
        proof {
            use_type_invariant(&*self);
            self.lemma_raw();
        }
        let mut raw = self.take_raw();
        let r = raw.pop_back();
        self.raw = raw;
        r
    }
}

impl<T> XorList<T> {
    /// Repacks the backing buffer so that the slots lie in traversal order,
    /// discarding the dirty slots left behind by removals. The elements are
    /// unaffected; the buffer is rebuilt even when no slot is dirty.
    pub fn compact(&mut self)
        ensures
            final(self)@ == old(self)@,
            final(self).is_laid_out(),
            final(self).buffer_len() == old(self)@.len(),
    {
        proof {
            use_type_invariant(&*self);
            self.lemma_raw();
        }
        let mut raw = self.take_raw();
        raw.compact();
        self.raw = raw;
    }

    /// Returns `true` if the slots already lie in traversal order with no
    /// dirty slot, that is, if [`compact`](Self::compact) would leave the
    /// buffer unchanged.
    pub fn is_linear(&self) -> (r: bool)
        ensures
            r == self.is_laid_out(),
    {
        proof {
            use_type_invariant(self);
            self.lemma_raw();
        }
        self.raw.is_linear()
    }

    /// Splits the list into two at position `at`: `self` keeps the elements
    /// before `at` and the returned list holds the rest.
    ///
    /// The split point is reached from whichever end is closer, and the
    /// shorter half is moved into fresh storage: when `at < len - at` the
    /// front half is rebuilt (back to front) and `self` takes it over,
    /// leaving the old storage to the returned list; otherwise the back half
    /// is rebuilt (front to back) into the returned list.
    pub fn split_off(&mut self, at: usize) -> (r: Self)
        requires
            at <= old(self)@.len(),
        ensures
            old(self).splits_off(at as int, *final(self), r),
    {
        proof {
            use_type_invariant(&*self);
            self.lemma_raw();
        }
        let mut raw = self.take_raw();
        let rest = raw.split_off(at);
        self.raw = raw;
        XorList { raw: rest }
    }

    /// Moves all elements of `other` to the back of `self`, leaving `other`
    /// empty.
    ///
    /// When both lists are non-empty, `other`'s buffer is moved wholesale
    /// behind `self`'s: every slot of `other` is shifted up by the length of
    /// `self`'s buffer, and thanks to the self-relative link encoding only
    /// the three link words at the seam (of `self`'s back element and of
    /// `other`'s front and back elements) are rewritten.
    pub fn append(&mut self, other: &mut Self)
        ensures
            final(self)@ == old(self)@ + old(other)@,
            final(other)@.len() == 0,
            old(other)@.len() == 0 ==> *final(self) == *old(self) && *final(other) == *old(other),
            old(other)@.len() > 0 && old(self)@.len() == 0 ==> *final(self) == *old(other)
                && *final(other) == *old(self),
            old(other)@.len() > 0 && old(self)@.len() > 0 ==> {
                &&& final(self).buffer_len() == old(self).buffer_len() + old(other).buffer_len()
                &&& final(self).slot_order() == old(self).slot_order() + shifted(
                    old(other).slot_order(),
                    old(self).buffer_len() as int,
                )
                &&& final(self).dirty_slots() == old(self).dirty_slots() + shifted(
                    old(other).dirty_slots(),
                    old(self).buffer_len() as int,
                )
                &&& forall|s: usize|
                    s < old(self).buffer_len() ==> final(self).occupant(s) == old(self).occupant(s)
                &&& final(other).buffer_len() == 0
                &&& final(other).dirty_slots().len() == 0
                &&& forall|s: usize|
                    s < old(self).buffer_len() && s != old(self).slot_at(old(self)@.len() - 1)
                        ==> #[trigger] final(self).link_at(s) == old(self).link_at(s)
                &&& forall|s: usize|
                    s < old(other).buffer_len() && s != old(other).slot_at(0)
                        && s != old(other).slot_at(old(other)@.len() - 1)
                        ==> #[trigger] final(self).link_at((s + old(self).buffer_len()) as usize)
                        == old(other).link_at(s)
            },
    {
        proof {
            use_type_invariant(&*self);
            use_type_invariant(&*other);
            self.lemma_raw();
            other.lemma_raw();
        }
        let mut raw = self.take_raw();
        let mut other_raw = other.take_raw();
        raw.append(&mut other_raw);
        self.raw = raw;
        other.raw = other_raw;
    }

    /// Appends the elements of `items` to the back of the list, in order,
    /// each placed as [`push_back`](Self::push_back) would place it: into
    /// the dirty slots, most recently vacated first, and then into fresh
    /// slots at the end of the buffer.
    pub fn extend(&mut self, items: Vec<T>)
        ensures
            final(self)@ == old(self)@ + items@,
            old(self).lays_out_pushes(items@.len(), *final(self)),
    {
        let ghost start = *self;
        let ghost elems = items@;
        let ghost d = self.dirty_slots().len() as int;
        proof {
            assert(self.slot_order() =~= start.slot_order() + Seq::new(0, |k: int| start.nth_free_slot(k)));
            assert(self.dirty_slots() =~= start.dirty_slots().subrange(0, d));
        }
        for value in it: items.into_iter()
            invariant
                it.seq() == elems,
                d == start.dirty_slots().len(),
                self@ == start@ + elems.subrange(0, it.index() as int),
                self.slot_order() == start.slot_order() + Seq::new(
                    it.index() as nat,
                    |k: int| start.nth_free_slot(k),
                ),
                it.index() <= d ==> self.dirty_slots() == start.dirty_slots().subrange(0, d - it.index())
                    && self.buffer_len() == start.buffer_len(),
                it.index() > d ==> self.dirty_slots().len() == 0 && self.buffer_len()
                    == start.buffer_len() + it.index() - d,
        {
            let ghost k = it.index() as int;
            proof {
                assert(self.next_free_slot() == start.nth_free_slot(k));
            }
            self.push_back(value);
            proof {
                assert(self@ =~= start@ + elems.subrange(0, k + 1));
                assert(self.slot_order() =~= start.slot_order() + Seq::new(
                    (k + 1) as nat,
                    |j: int| start.nth_free_slot(j),
                ));
                if k < d {
                    assert(self.dirty_slots() =~= start.dirty_slots().subrange(0, d - k - 1));
                }
            }
        }
        proof {
            assert(elems.subrange(0, elems.len() as int) =~= elems);
            assert(self.slot_order() =~= start.slot_order() + Seq::new(
                elems.len(),
                |k: int| start.nth_free_slot(k),
            ));
            if elems.len() > d {
                assert(self.dirty_slots() =~= Seq::empty());
            }
        }
    }

    /// Builds a list holding the elements of `vec` in order, laid out in
    /// slot order in a single pass.
    pub fn from_vec(vec: Vec<T>) -> (list: Self)
        ensures
            list@ == vec@,
            list.is_laid_out(),
            list.buffer_len() == vec@.len(),
    {
        let raw = RawList::from_vec(vec);
        let list = XorList { raw };
        proof {
            list.lemma_raw();
        }
        list
    }
}

impl<T> Default for XorList<T> {
    /// Creates an empty `XorList`.
    fn default() -> (list: Self)
        ensures
            list@ == Seq::<T>::empty(),
            list.slot_order() == Seq::<usize>::empty(),
            list.buffer_len() == 0,
            list.dirty_slots().len() == 0,
    {
        XorList::new()
    }
}

impl<T> From<Vec<T>> for XorList<T> {
    /// Converts a `Vec<T>` into a `XorList<T>` holding the same elements in
    /// the same order, laid out in slot order.
    fn from(vec: Vec<T>) -> (list: Self)
        ensures
            list@ == vec@,
            list.is_laid_out(),
            list.buffer_len() == vec@.len(),
    {
        XorList::from_vec(vec)
    }
}

impl<T> vstd::std_specs::convert::FromSpecImpl<Vec<T>> for XorList<T> {
    open spec fn obeys_from_spec() -> bool {
        false
    }

    open spec fn from_spec(v: Vec<T>) -> Self {
        arbitrary()
    }
}

/// Overwriting the element that a push added is the same as pushing the
/// new value in the first place.
proof fn lemma_push_update<T>(s: Seq<T>)
    ensures
        forall|x: T, y: T| #[trigger] s.push(x).update(s.len() as int, y) == s.push(y),
        forall|x: T, y: T| #[trigger] (seq![x] + s).update(0, y) == seq![y] + s,
{
    assert forall|x: T, y: T| #[trigger] s.push(x).update(s.len() as int, y) == s.push(y) by {
        assert(s.push(x).update(s.len() as int, y) =~= s.push(y));
    }
    assert forall|x: T, y: T| #[trigger] (seq![x] + s).update(0, y) == seq![y] + s by {
        assert((seq![x] + s).update(0, y) =~= seq![y] + s);
    }
}

} // verus!

