//! Iterators over a [`XorList`]: by reference, by mutable reference, and by
//! value.
//!
//! Each iterator walks the list from both ends at once, keeping a pair of
//! adjacent slots at each end so that it can decode the next link.

use vstd::prelude::*;

use crate::cursor::Cursor;
use crate::link::NIL;
use crate::list::XorList;

verus! {

/// An iterator over the elements of a [`XorList`], created by
/// [`XorList::iter`]. It yields the positions `front()` up to (excluding)
/// `back()`, from either end.
pub struct Iter<'a, T> {
    pub(crate) head: usize,
    pub(crate) prev_head: usize,
    pub(crate) tail: usize,
    pub(crate) prev_tail: usize,
    pub(crate) index: usize,
    pub(crate) rem: usize,
    pub(crate) list: &'a XorList<T>,
    /// Whether the last element was taken by `next_back`.
    pub(crate) back_done: bool,
}

impl<'a, T> View for Iter<'a, T> {
    type V = Seq<T>;

    /// The elements still to be yielded, front to back.
    closed spec fn view(&self) -> Seq<T> {
        self.list@.subrange(self.index as int, self.index + self.rem)
    }
}

impl<'a, T> Clone for Iter<'a, T> {
    fn clone(&self) -> (r: Self)
        ensures
            r == *self,
    {
        proof {
            use_type_invariant(self);
        }
        Iter {
            head: self.head,
            prev_head: self.prev_head,
            tail: self.tail,
            prev_tail: self.prev_tail,
            index: self.index,
            rem: self.rem,
            list: self.list,
            back_done: self.back_done,
        }
    }
}

impl<'a, T> Iter<'a, T> {
    /// The iterator's two ends sit on the slots of positions `front()` and
    /// `back() - 1` of a well-formed list, each next to the slot it was
    /// entered from.
    #[verifier::type_invariant]
    pub closed spec fn wf(&self) -> bool {
        &&& self.list.raw.wf()
        &&& self.index + self.rem <= self.list.raw.order@.len()
        &&& self.head == self.list.raw.slot_at(self.index as int)
        &&& self.prev_head == self.list.raw.slot_at(self.index - 1)
        &&& self.tail == self.list.raw.slot_at(self.index + self.rem - 1)
        &&& self.prev_tail == self.list.raw.slot_at(self.index + self.rem)
        &&& self.back_done ==> self.rem == 0 && self.index < self.list.raw.order@.len()
    }

    /// The list being iterated.
    pub closed spec fn list(&self) -> XorList<T> {
        *self.list
    }

    /// The position of the next element from the front.
    pub closed spec fn front(&self) -> int {
        self.index as int
    }

    /// One past the position of the next element from the back.
    pub closed spec fn back(&self) -> int {
        self.index + self.rem
    }

    /// `after` and `r` are what [`next`](Self::next) makes of `self` and
    /// returns: the front element, moving the front up by one, or `None`
    /// with nothing changed once the iterator is exhausted.
    pub open spec fn yields_front(&self, r: Option<&'a T>, after: Self) -> bool {
        &&& after.list() == self.list()
        &&& after.back() == self.back()
        &&& self@.len() == 0 ==> r is None && after == *self
        &&& self@.len() > 0 ==> {
            &&& r == Some(&self@[0])
            &&& after@ == self@.drop_first()
            &&& after.front() == self.front() + 1
            &&& !after.exhausted_from_back()
        }
    }

    /// `after` and `r` are what [`next_back`](Self::next_back) makes of
    /// `self` and returns: the back element, moving the back down by one,
    /// or `None` with nothing changed once the iterator is exhausted.
    pub open spec fn yields_back(&self, r: Option<&'a T>, after: Self) -> bool {
        &&& after.list() == self.list()
        &&& after.front() == self.front()
        &&& self@.len() == 0 ==> r is None && after == *self
        &&& self@.len() > 0 ==> {
            &&& r == Some(&self@.last())
            &&& after@ == self@.drop_last()
            &&& after.back() == self.back() - 1
            &&& after.exhausted_from_back() == (self@.len() == 1)
        }
    }

    /// Whether the iterator was exhausted by [`next_back`](Self::next_back),
    /// that is, the last element was taken from the back.
    pub closed spec fn exhausted_from_back(&self) -> bool {
        self.back_done
    }

    /// What a well-formed iterator's view is.
    pub proof fn lemma_view(&self)
        requires
            self.wf(),
        ensures
            0 <= self.front() <= self.back() <= self.list()@.len(),
            self@ == self.list()@.subrange(self.front(), self.back()),
    {
        self.list.lemma_raw();
    }

    /// What the fields of a well-formed iterator hold.
    pub(crate) proof fn lemma_fields(&self)
        requires
            self.wf(),
        ensures
            self.list.raw.wf(),
            *self.list == self.list(),
            self.list()@.len() == self.list.raw.order@.len(),
            self.list().slot_order() == self.list.raw.order@,
            self.index == self.front(),
            self.index + self.rem == self.back(),
            self.back() <= self.list()@.len(),
            self.head == self.list.raw.slot_at(self.index as int),
            self.prev_head == self.list.raw.slot_at(self.index - 1),
    {
        self.list.lemma_raw();
    }

    /// An iterator over the whole of `list`.
    pub(crate) fn new(list: &'a XorList<T>) -> (r: Self)
        ensures
            r.list() == *list,
            r.front() == 0,
            r.back() == list@.len(),
            !r.exhausted_from_back(),
    {
        proof {
            use_type_invariant(list);
            list.lemma_raw();
        }
        Iter {
            head: list.raw.head,
            prev_head: NIL,
            tail: list.raw.tail,
            prev_tail: NIL,
            index: 0,
            rem: list.len(),
            list,
            back_done: false,
        }
    }

    /// Creates an iterator that starts at `cursor`'s position and runs to
    /// the back of the list; a cursor on the ghost non-element gives an
    /// empty iterator.
    pub fn with_cursor_front(cursor: Cursor<'a, T>) -> (r: Self)
        ensures
            r.list() == cursor.list(),
            r.front() == cursor.pos(),
            r.back() == cursor.list()@.len(),
            !r.exhausted_from_back(),
            r@ == cursor.list()@.subrange(cursor.pos(), cursor.list()@.len() as int),
    {
        proof {
            use_type_invariant(cursor.list);
            cursor.list.lemma_raw();
        }
        proof {
            use_type_invariant(&cursor);
            cursor.lemma_fields();
        }
        let list = cursor.list;
        let rem = list.len() - cursor.index;
        Iter {
            head: cursor.curr_slot,
            prev_head: cursor.prev_slot,
            tail: list.raw.tail,
            prev_tail: NIL,
            index: cursor.index,
            rem,
            list,
            back_done: false,
        }
    }

    /// Creates an iterator that starts at the front of the list and runs up
    /// to and including `cursor`'s position; a cursor on the ghost
    /// non-element gives an empty iterator.
    pub fn with_cursor_back(cursor: Cursor<'a, T>) -> (r: Self)
        ensures
            r.list() == cursor.list(),
            r.front() == 0,
            !r.exhausted_from_back(),
            r.back() == (if cursor.pos() < cursor.list()@.len() {
                cursor.pos() + 1
            } else {
                0
            }),
    {
        proof {
            use_type_invariant(cursor.list);
            cursor.list.lemma_raw();
        }
        proof {
            use_type_invariant(&cursor);
            cursor.lemma_fields();
        }
        let list = cursor.list;
        if cursor.curr_slot == NIL {
            return Iter {
                head: list.raw.head,
                prev_head: NIL,
                tail: NIL,
                prev_tail: list.raw.head,
                index: 0,
                rem: 0,
                list,
                back_done: false,
            };
        }
        let prev_tail = list.raw.step_forward(
            Ghost(cursor.index as int),
            cursor.curr_slot,
            cursor.prev_slot,
        );
        Iter {
            head: list.raw.head,
            prev_head: NIL,
            tail: cursor.curr_slot,
            prev_tail,
            index: 0,
            rem: cursor.index + 1,
            list,
            back_done: false,
        }
    }

    /// Returns a cursor resting on the element the next call to
    /// [`next`](Self::next) would yield. If the iterator is exhausted, the
    /// cursor rests on the ghost non-element.
    pub fn cursor_front(&self) -> (r: Cursor<'a, T>)
        ensures
            r.list() == self.list(),
            r.pos() == (if self.front() < self.back() {
                self.front()
            } else {
                self.list()@.len() as int
            }),
    {
        proof {
            use_type_invariant(self.list);
            self.list.lemma_raw();
            use_type_invariant(&*self);
        }
        if self.rem == 0 {
            let len = self.list.raw.len();
            return Cursor::new_at(self.list, NIL, self.list.raw.tail, len);
        }
        Cursor::new_at(self.list, self.head, self.prev_head, self.index)
    }

    /// The position [`cursor_back`](Self::cursor_back) rests on: that of
    /// the element the next [`next_back`](Self::next_back) would yield.
    /// Once the iterator is exhausted: if [`next_back`](Self::next_back)
    /// took the last element, the position of that element; otherwise the
    /// position just before the back end, or the front of the list (the
    /// ghost non-element if the list is empty) when the back end is at the
    /// front.
    pub open spec fn back_cursor_pos(&self) -> int {
        if self.front() < self.back() {
            self.back() - 1
        } else if self.exhausted_from_back() {
            self.back()
        } else if self.back() > 0 {
            self.back() - 1
        } else {
            0
        }
    }

    /// Returns a cursor resting on the element the next call to
    /// [`next_back`](Self::next_back) would yield.
    ///
    /// If the iterator was exhausted from the back, the cursor rests on the
    /// last element yielded, oriented so that it can still move toward the
    /// back of the list; for an empty list it rests on the ghost
    /// non-element.
    pub fn cursor_back(&self) -> (r: Cursor<'a, T>)
        ensures
            r.list() == self.list(),
            r.pos() == self.back_cursor_pos(),
    {
        proof {
            use_type_invariant(self.list);
            self.list.lemma_raw();
            use_type_invariant(&*self);
        }
        if self.back_done || self.tail == NIL {
            return Cursor::new_at(self.list, self.prev_tail, self.tail, self.index + self.rem);
        }
        let prev_slot = self.list.raw.step_backward(
            Ghost(self.index + self.rem - 1),
            self.tail,
            self.prev_tail,
        );
        Cursor::new_at(self.list, self.tail, prev_slot, self.index + self.rem - 1)
    }

    /// Returns `true` if the iterator has no more elements to yield.
    pub fn is_empty(&self) -> (r: bool)
        ensures
            r == (self@.len() == 0),
    {
        proof {
            use_type_invariant(self.list);
            self.list.lemma_raw();
            use_type_invariant(&*self);
        }
        self.rem == 0
    }

    /// The number of elements still to be yielded.
    pub fn len(&self) -> (r: usize)
        ensures
            r == self@.len(),
    {
        proof {
            use_type_invariant(self.list);
            self.list.lemma_raw();
            use_type_invariant(&*self);
        }
        self.rem
    }

    /// The exact number of elements still to be yielded, as a lower and
    /// an upper bound.
    pub fn size_hint(&self) -> (r: (usize, Option<usize>))
        ensures
            r == (self@.len() as usize, Some(self@.len() as usize)),
    {
        proof {
            use_type_invariant(self.list);
            self.list.lemma_raw();
            use_type_invariant(&*self);
        }
        (self.rem, Some(self.rem))
    }

    /// Yields the next element from the front, or `None` once the two ends
    /// have met.
    pub fn next(&mut self) -> (r: Option<&'a T>)
        ensures
            old(self).yields_front(r, *final(self)),
    {
        proof {
            use_type_invariant(self.list);
            self.list.lemma_raw();
            use_type_invariant(&*self);
        }
        if self.rem == 0 {
            return None;
        }
        let list: &'a XorList<T> = self.list;
        let curr_slot = self.head;
        proof {
            list.raw.lemma_link_at(self.index as int);
        }
        let head = list.raw.step_forward(Ghost(self.index as int), curr_slot, self.prev_head);
        *self = Iter {
            head,
            prev_head: curr_slot,
            tail: self.tail,
            prev_tail: self.prev_tail,
            index: self.index + 1,
            rem: self.rem - 1,
            list,
            back_done: false,
        };
        proof {
            assert(self@ =~= old(self)@.drop_first());
        }
        list.raw.nodes[curr_slot].value.as_ref()
    }

    /// Yields the next element from the back, or `None` once the two ends
    /// have met.
    pub fn next_back(&mut self) -> (r: Option<&'a T>)
        ensures
            old(self).yields_back(r, *final(self)),
    {
        proof {
            use_type_invariant(self.list);
            self.list.lemma_raw();
            use_type_invariant(&*self);
        }
        if self.rem == 0 {
            return None;
        }
        let list: &'a XorList<T> = self.list;
        let curr_slot = self.tail;
        let ghost p = self.index + self.rem - 1;
        proof {
            list.raw.lemma_link_at(p);
        }
        let tail = list.raw.step_backward(Ghost(p), curr_slot, self.prev_tail);
        *self = Iter {
            head: self.head,
            prev_head: self.prev_head,
            tail,
            prev_tail: curr_slot,
            index: self.index,
            rem: self.rem - 1,
            list,
            back_done: self.rem == 1,
        };
        proof {
            assert(self@ =~= old(self)@.drop_last());
        }
        list.raw.nodes[curr_slot].value.as_ref()
    }

    /// Consumes the iterator and returns its back element.
    pub fn last(self) -> (r: Option<&'a T>)
        ensures
            r == (if self@.len() > 0 {
                Some(&self@.last())
            } else {
                None
            }),
    {
        proof {
            use_type_invariant(self.list);
            self.list.lemma_raw();
            use_type_invariant(&self);
        }
        let mut it = self;
        it.next_back()
    }
}

/// A mutable iterator over the elements of a [`XorList`], created by
/// [`XorList::iter_mut`]. Each element is lent out through a mutable
/// reference that lasts until the next call.
///
/// Its fields are public so that contracts can speak of the list the
/// mutable borrow leaves behind; they are meant to be read, not set.
pub struct IterMut<'a, T> {
    /// The slot of the next element from the front.
    pub head: usize,
    /// The slot before it ([`NIL`] at the front of the list).
    pub prev_head: usize,
    /// The slot of the next element from the back.
    pub tail: usize,
    /// The slot after it ([`NIL`] at the back of the list).
    pub prev_tail: usize,
    /// The position of the next element from the front.
    pub index: usize,
    /// The number of elements still to be yielded.
    pub rem: usize,
    /// The list being iterated.
    pub list: &'a mut XorList<T>,
}

impl<'a, T> IterMut<'a, T> {
    /// The iterator's two ends sit on the slots of positions `index` and
    /// `index + rem - 1` of a well-formed list, each next to the slot it
    /// was entered from.
    pub open spec fn wf(&self) -> bool {
        &&& self.index + self.rem <= self.list@.len()
        &&& self.head == self.list.slot_at(self.index as int)
        &&& self.prev_head == self.list.slot_at(self.index - 1)
        &&& self.tail == self.list.slot_at(self.index + self.rem - 1)
        &&& self.prev_tail == self.list.slot_at(self.index + self.rem)
    }

    /// An iterator over the whole of `list`.
    pub(crate) fn new(list: &'a mut XorList<T>) -> (r: Self)
        ensures
            r.wf(),
            *r.list == *old(list),
            r.index == 0,
            r.rem == old(list)@.len(),
            *final(list) == *final(r.list),
    {
        proof {
            use_type_invariant(&*list);
            list.lemma_raw();
        }
        let head = list.raw.head;
        let tail = list.raw.tail;
        let rem = list.len();
        IterMut { head, prev_head: NIL, tail, prev_tail: NIL, index: 0, rem, list }
    }

    /// Returns `true` if the iterator has no more elements to yield.
    pub fn is_empty(&self) -> (r: bool)
        requires
            self.wf(),
        ensures
            r == (self.rem == 0),
    {
        proof {
            use_type_invariant(&*self.list);
            self.list.lemma_raw();
        }
        self.rem == 0
    }

    /// The number of elements still to be yielded.
    pub fn len(&self) -> (r: usize)
        requires
            self.wf(),
        ensures
            r == self.rem,
    {
        proof {
            use_type_invariant(&*self.list);
            self.list.lemma_raw();
        }
        self.rem
    }

    /// The exact number of elements still to be yielded, as a lower and
    /// an upper bound.
    pub fn size_hint(&self) -> (r: (usize, Option<usize>))
        requires
            self.wf(),
        ensures
            r == (self.rem, Some(self.rem)),
    {
        proof {
            use_type_invariant(&*self.list);
            self.list.lemma_raw();
        }
        (self.rem, Some(self.rem))
    }

    /// Lends out the next element from the front, or returns `None` once
    /// the two ends have met.
    pub fn next(&mut self) -> (r: Option<&mut T>)
        requires
            old(self).wf(),
        ensures
            *final(final(self).list) == *final(old(self).list),
            old(self).rem == 0 ==> r is None && *final(self) == *old(self),
            old(self).rem > 0 ==> {
                &&& r is Some
                &&& *r.unwrap() == old(self).list@[old(self).index as int]
                &&& final(self).wf()
                &&& final(self).index == old(self).index + 1
                &&& final(self).rem == old(self).rem - 1
                &&& final(self).list@ == old(self).list@.update(
                    old(self).index as int,
                    *final(r.unwrap()),
                )
                &&& final(self).list.slot_order() == old(self).list.slot_order()
                &&& final(self).list.dirty_slots() == old(self).list.dirty_slots()
            },
    {
        proof {
            use_type_invariant(&*self.list);
            self.list.lemma_raw();
        }
        if self.rem == 0 {
            return None;
        }
        let curr_slot = self.head;
        let ghost p = self.index as int;
        let head = self.list.raw.step_forward(Ghost(p), curr_slot, self.prev_head);
        self.index = self.index + 1;
        self.rem = self.rem - 1;
        self.head = head;
        self.prev_head = curr_slot;
        Some(self.list.value_mut(Ghost(p), curr_slot))
    }

    /// Lends out the next element from the back, or returns `None` once
    /// the two ends have met.
    pub fn next_back(&mut self) -> (r: Option<&mut T>)
        requires
            old(self).wf(),
        ensures
            *final(final(self).list) == *final(old(self).list),
            old(self).rem == 0 ==> r is None && *final(self) == *old(self),
            old(self).rem > 0 ==> {
                &&& r is Some
                &&& *r.unwrap() == old(self).list@[old(self).index + old(self).rem - 1]
                &&& final(self).wf()
                &&& final(self).index == old(self).index
                &&& final(self).rem == old(self).rem - 1
                &&& final(self).list@ == old(self).list@.update(
                    old(self).index + old(self).rem - 1,
                    *final(r.unwrap()),
                )
                &&& final(self).list.slot_order() == old(self).list.slot_order()
                &&& final(self).list.dirty_slots() == old(self).list.dirty_slots()
            },
    {
        proof {
            use_type_invariant(&*self.list);
            self.list.lemma_raw();
        }
        if self.rem == 0 {
            return None;
        }
        let curr_slot = self.tail;
        let ghost p = self.index + self.rem - 1;
        let tail = self.list.raw.step_backward(Ghost(p), curr_slot, self.prev_tail);
        self.rem = self.rem - 1;
        self.tail = tail;
        self.prev_tail = curr_slot;
        Some(self.list.value_mut(Ghost(p), curr_slot))
    }

    /// Consumes the iterator and returns a mutable reference to its back
    /// element.
    pub fn last(self) -> (r: Option<&'a mut T>)
        requires
            self.wf(),
        ensures
            self.rem == 0 ==> r is None && *final(self.list) == *old(self.list),
            self.rem > 0 ==> {
                &&& r is Some
                &&& *r.unwrap() == old(self.list)@[self.index + self.rem - 1]
                &&& final(self.list)@ == old(self.list)@.update(
                    self.index + self.rem - 1,
                    *final(r.unwrap()),
                )
                &&& final(self.list).slot_order() == old(self.list).slot_order()
                &&& final(self.list).dirty_slots() == old(self.list).dirty_slots()
            },
    {
        proof {
            use_type_invariant(&*self.list);
            self.list.lemma_raw();
        }
        if self.rem == 0 {
            return None;
        }
        let ghost p = self.index + self.rem - 1;
        let tail = self.tail;
        let list = self.list;
        Some(list.value_mut(Ghost(p), tail))
    }
}

/// An owning iterator over the elements of a [`XorList`], created by
/// [`XorList::into_iter`]; it pops from either end.
pub struct IntoIter<T> {
    pub(crate) list: XorList<T>,
}

impl<T> View for IntoIter<T> {
    type V = Seq<T>;

    /// The elements still to be yielded, front to back.
    open spec fn view(&self) -> Seq<T> {
        self.list()@
    }
}

impl<T: Clone> Clone for IntoIter<T> {
    /// An iterator over clones of the elements still to be yielded, taken
    /// from a copy of the list laid out in slot order.
    fn clone(&self) -> (r: Self)
        ensures
            r@.len() == self@.len(),
            forall|i: int| 0 <= i < self@.len() ==> cloned::<T>(self@[i], #[trigger] r@[i]),
            r.list().is_laid_out(),
    {
        IntoIter { list: self.list.clone() }
    }
}

impl<T> IntoIter<T> {
    /// The list the remaining elements are taken from.
    pub closed spec fn list(&self) -> XorList<T> {
        self.list
    }

    /// The field holding the list is [`list`](Self::list).
    pub(crate) proof fn lemma_list(&self)
        ensures
            self.list == self.list(),
    {
    }

    /// Yields the next element from the front, popping it off the list
    /// the elements are taken from.
    pub fn next(&mut self) -> (r: Option<T>)
        ensures
            old(self).list().pops_front(r, final(self).list()),
            old(self)@.len() == 0 ==> r is None && final(self)@ == old(self)@,
            old(self)@.len() > 0 ==> r == Some(old(self)@[0]) && final(self)@ == old(self)@.drop_first(),
    {
        self.list.pop_front()
    }

    /// Yields the next element from the back, popping it off the list the
    /// elements are taken from.
    pub fn next_back(&mut self) -> (r: Option<T>)
        ensures
            old(self).list().pops_back(r, final(self).list()),
            old(self)@.len() == 0 ==> r is None && final(self)@ == old(self)@,
            old(self)@.len() > 0 ==> r == Some(old(self)@.last()) && final(self)@ == old(self)@.drop_last(),
    {
        self.list.pop_back()
    }

    /// The number of elements still to be yielded.
    pub fn len(&self) -> (r: usize)
        ensures
            r == self@.len(),
    {
        self.list.len()
    }

    /// The exact number of elements still to be yielded, as a lower and
    /// an upper bound.
    pub fn size_hint(&self) -> (r: (usize, Option<usize>))
        ensures
            r == (self@.len() as usize, Some(self@.len() as usize)),
    {
        let len = self.list.len();
        (len, Some(len))
    }

    /// Consumes the iterator and returns its back element.
    pub fn last(self) -> (r: Option<T>)
        ensures
            r == (if self@.len() > 0 {
                Some(self@.last())
            } else {
                None
            }),
    {
        let mut it = self;
        it.next_back()
    }
}

impl<T> XorList<T> {
    /// Provides a forward (and backward) iterator over the elements.
    pub fn iter(&self) -> (r: Iter<'_, T>)
        ensures
            r.list() == *self,
            r.front() == 0,
            r.back() == self@.len(),
            !r.exhausted_from_back(),
            r@ == self@,
    {
        proof {
            use_type_invariant(self);
            self.lemma_raw();
        }
        let r = Iter::new(self);
        proof {
            assert(r@ =~= self@);
        }
        r
    }

    /// Provides an iterator that lends out mutable references to the
    /// elements.
    pub fn iter_mut(&mut self) -> (r: IterMut<'_, T>)
        ensures
            r.wf(),
            *r.list == *old(self),
            r.index == 0,
            r.rem == old(self)@.len(),
            *final(self) == *final(r.list),
    {
        proof {
            use_type_invariant(&*self);
            self.lemma_raw();
        }
        IterMut::new(self)
    }

    /// Consumes the list into an iterator that yields its elements by
    /// value.
    pub fn into_iter(self) -> (r: IntoIter<T>)
        ensures
            r.list() == self,
            r@ == self@,
    {
        IntoIter { list: self }
    }
}

} // verus!
