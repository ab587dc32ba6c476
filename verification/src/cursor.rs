//! Cursors over a [`XorList`]: iterator-like views that can freely seek
//! back and forth.
//!
//! A cursor rests *on* an element rather than between two. Stepping past
//! the back of the list parks it on a "ghost" non-element, one position
//! past the last element, where [`Cursor::current`] and [`Cursor::index`]
//! return `None`; the cursor for an empty list starts there.

use vstd::prelude::*;

use crate::link::NIL;
use crate::list::XorList;

verus! {

/// A cursor over a [`XorList`] with read-only access.
pub struct Cursor<'a, T> {
    pub(crate) curr_slot: usize,
    pub(crate) prev_slot: usize,
    pub(crate) index: usize,
    pub(crate) list: &'a XorList<T>,
}

impl<'a, T> Clone for Cursor<'a, T> {
    fn clone(&self) -> (r: Self)
        ensures
            r == *self,
    {
        proof {
            use_type_invariant(self);
        }
        Cursor { curr_slot: self.curr_slot, prev_slot: self.prev_slot, index: self.index, list: self.list }
    }
}

impl<'a, T> Cursor<'a, T> {
    /// The cursor rests on position `pos()` of a well-formed list; position
    /// `list()@.len()` is the ghost non-element.
    #[verifier::type_invariant]
    pub closed spec fn wf(&self) -> bool {
        &&& self.list.raw.wf()
        &&& self.index <= self.list.raw.order@.len()
        &&& self.curr_slot == self.list.raw.slot_at(self.index as int)
        &&& self.prev_slot == self.list.raw.slot_at(self.index - 1)
    }

    /// The list the cursor walks.
    pub closed spec fn list(&self) -> XorList<T> {
        *self.list
    }

    /// The position the cursor rests on.
    pub closed spec fn pos(&self) -> int {
        self.index as int
    }

    /// The position [`move_next`](Self::move_next) goes to: one further,
    /// except on the ghost non-element.
    pub open spec fn next_pos(&self) -> int {
        if self.pos() < self.list()@.len() {
            self.pos() + 1
        } else {
            self.pos()
        }
    }

    /// The position [`move_prev`](Self::move_prev) goes to: one back,
    /// except on the front element.
    pub open spec fn prev_pos(&self) -> int {
        if self.pos() > 0 {
            self.pos() - 1
        } else {
            self.pos()
        }
    }

    /// What the fields of a well-formed cursor hold.
    pub(crate) proof fn lemma_fields(&self)
        requires
            self.wf(),
        ensures
            *self.list == self.list(),
            self.index == self.pos(),
            0 <= self.pos() <= self.list()@.len(),
            self.curr_slot == self.list().slot_at(self.pos()),
            self.prev_slot == self.list().slot_at(self.pos() - 1),
    {
        self.list.lemma_raw();
    }

    /// A cursor on position `index` of `list`, given the slots of that
    /// position and of the one before it.
    pub(crate) fn new_at(list: &'a XorList<T>, curr_slot: usize, prev_slot: usize, index: usize) -> (r: Self)
        requires
            index <= list@.len(),
            curr_slot == list.slot_at(index as int),
            prev_slot == list.slot_at(index - 1),
        ensures
            r.list() == *list,
            r.pos() == index,
    {
        proof {
            use_type_invariant(list);
            list.lemma_raw();
        }
        Cursor { curr_slot, prev_slot, index, list }
    }

    /// Returns the cursor's position within the list, or `None` if the
    /// cursor is on the ghost non-element.
    pub fn index(&self) -> (r: Option<usize>)
        ensures
            r == (if self.pos() < self.list()@.len() {
                Some(self.pos() as usize)
            } else {
                None
            }),
    {
        proof {
            use_type_invariant(self.list);
            self.list.lemma_raw();
            use_type_invariant(&*self);
        }
        if self.curr_slot != NIL {
            Some(self.index)
        } else {
            None
        }
    }

    /// Returns the slot holding the element the cursor is on, or `None` if
    /// the cursor is on the ghost non-element.
    pub fn slot(&self) -> (r: Option<usize>)
        ensures
            r == (if self.pos() < self.list()@.len() {
                Some(self.list().slot_at(self.pos()))
            } else {
                None
            }),
    {
        proof {
            use_type_invariant(self.list);
            self.list.lemma_raw();
            use_type_invariant(&*self);
        }
        if self.curr_slot != NIL {
            Some(self.curr_slot)
        } else {
            None
        }
    }

    /// Moves the cursor to the next element of the list. From the last
    /// element this moves onto the ghost non-element; on the ghost it does
    /// nothing.
    pub fn move_next(&mut self)
        ensures
            final(self).list() == old(self).list(),
            final(self).pos() == old(self).next_pos(),
    {
        proof {
            use_type_invariant(self.list);
            self.list.lemma_raw();
            use_type_invariant(&*self);
        }
        if self.curr_slot == NIL {
            return;
        }
        let curr_slot = self.curr_slot;
        let next = self.list.raw.step_forward(Ghost(self.index as int), curr_slot, self.prev_slot);
        *self = Cursor { curr_slot: next, prev_slot: curr_slot, index: self.index + 1, list: self.list };
    }

    /// Moves the cursor to the previous element of the list. From the
    /// ghost non-element this moves back to the last element; on the front
    /// element it does nothing.
    pub fn move_prev(&mut self)
        ensures
            final(self).list() == old(self).list(),
            final(self).pos() == old(self).prev_pos(),
    {
        proof {
            use_type_invariant(self.list);
            self.list.lemma_raw();
            use_type_invariant(&*self);
        }
        if self.prev_slot == NIL {
            return;
        }
        let prev_slot = self.prev_slot;
        let prev_prev = self.list.raw.step_backward(Ghost(self.index - 1), prev_slot, self.curr_slot);
        *self = Cursor { curr_slot: prev_slot, prev_slot: prev_prev, index: self.index - 1, list: self.list };
    }

    /// Returns a reference to the element the cursor is on, or `None` if
    /// the cursor is on the ghost non-element.
    pub fn current(&self) -> (r: Option<&'a T>)
        ensures
            r == (if self.pos() < self.list()@.len() {
                Some(&self.list()@[self.pos()])
            } else {
                None
            }),
    {
        proof {
            use_type_invariant(self.list);
            self.list.lemma_raw();
            use_type_invariant(&*self);
        }
        let list: &'a XorList<T> = self.list;
        if self.curr_slot < list.raw.nodes.len() {
            proof {
                list.raw.lemma_link_at(self.index as int);
            }
            list.raw.nodes[self.curr_slot].value.as_ref()
        } else {
            None
        }
    }

    /// Returns a reference to the element after the cursor, or `None` if
    /// the cursor is on the last element or on the ghost non-element.
    pub fn peek_next(&self) -> (r: Option<&'a T>)
        ensures
            r == (if self.pos() + 1 < self.list()@.len() {
                Some(&self.list()@[self.pos() + 1])
            } else {
                None
            }),
    {
        proof {
            use_type_invariant(self.list);
            self.list.lemma_raw();
            use_type_invariant(&*self);
        }
        if self.curr_slot == NIL {
            return None;
        }
        let list: &'a XorList<T> = self.list;
        let next_slot = list.raw.step_forward(Ghost(self.index as int), self.curr_slot, self.prev_slot);
        if next_slot < list.raw.nodes.len() {
            proof {
                list.raw.lemma_link_at(self.index + 1);
            }
            list.raw.nodes[next_slot].value.as_ref()
        } else {
            None
        }
    }

    /// Returns a reference to the element before the cursor, or `None` if
    /// the cursor is on the front element.
    pub fn peek_prev(&self) -> (r: Option<&'a T>)
        ensures
            r == (if self.pos() > 0 {
                Some(&self.list()@[self.pos() - 1])
            } else {
                None
            }),
    {
        proof {
            use_type_invariant(self.list);
            self.list.lemma_raw();
            use_type_invariant(&*self);
        }
        if self.prev_slot == NIL {
            return None;
        }
        let list: &'a XorList<T> = self.list;
        proof {
            list.raw.lemma_link_at(self.index - 1);
        }
        if self.prev_slot < list.raw.nodes.len() {
            list.raw.nodes[self.prev_slot].value.as_ref()
        } else {
            None
        }
    }

    /// Provides a reference to the front element of the underlying list, or
    /// `None` if the list is empty.
    pub fn front(&self) -> (r: Option<&'a T>)
        ensures
            r == (if self.list()@.len() > 0 {
                Some(&self.list()@[0])
            } else {
                None
            }),
    {
        proof {
            use_type_invariant(self.list);
            self.list.lemma_raw();
            use_type_invariant(&*self);
        }
        let list: &'a XorList<T> = self.list;
        list.front()
    }

    /// Provides a reference to the back element of the underlying list, or
    /// `None` if the list is empty.
    pub fn back(&self) -> (r: Option<&'a T>)
        ensures
            r == (if self.list()@.len() > 0 {
                Some(&self.list()@.last())
            } else {
                None
            }),
    {
        proof {
            use_type_invariant(self.list);
            self.list.lemma_raw();
            use_type_invariant(&*self);
        }
        let list: &'a XorList<T> = self.list;
        list.back()
    }

    /// Provides a read-only reference to the underlying list.
    pub fn as_list(&self) -> (r: &'a XorList<T>)
        ensures
            *r == self.list(),
    {
        proof {
            use_type_invariant(self.list);
            self.list.lemma_raw();
            use_type_invariant(&*self);
        }
        self.list
    }
}

/// A cursor over a [`XorList`] with editing access to the elements.
///
/// Its fields are public so that contracts can speak of the list the
/// mutable borrow leaves behind; they are meant to be read, not set.
pub struct CursorMut<'a, T> {
    /// The slot of the element the cursor rests on ([`NIL`] on the ghost).
    pub curr_slot: usize,
    /// The slot of the element before it ([`NIL`] at the front).
    pub prev_slot: usize,
    /// The position the cursor rests on.
    pub index: usize,
    /// The list the cursor walks.
    pub list: &'a mut XorList<T>,
}

impl<'a, T> CursorMut<'a, T> {
    /// The cursor rests on position `pos()` of a well-formed list; position
    /// `list()@.len()` is the ghost non-element.
    pub open spec fn wf(&self) -> bool {
        &&& self.index <= self.list@.len()
        &&& self.curr_slot == self.list.slot_at(self.index as int)
        &&& self.prev_slot == self.list.slot_at(self.index - 1)
    }

    /// The list the cursor walks.
    pub open spec fn list(&self) -> XorList<T> {
        *self.list
    }

    /// The position the cursor rests on.
    pub open spec fn pos(&self) -> int {
        self.index as int
    }

    /// The position [`move_next`](Self::move_next) goes to: one further,
    /// except on the ghost non-element.
    pub open spec fn next_pos(&self) -> int {
        if self.pos() < self.list()@.len() {
            self.pos() + 1
        } else {
            self.pos()
        }
    }

    /// The position [`move_prev`](Self::move_prev) goes to: one back,
    /// except on the front element.
    pub open spec fn prev_pos(&self) -> int {
        if self.pos() > 0 {
            self.pos() - 1
        } else {
            self.pos()
        }
    }

    /// A cursor on position `index` of `list`, given the slots of that
    /// position and of the one before it.
    pub(crate) fn new_at(list: &'a mut XorList<T>, curr_slot: usize, prev_slot: usize, index: usize) -> (r: Self)
        requires
            index <= old(list)@.len(),
            curr_slot == old(list).slot_at(index as int),
            prev_slot == old(list).slot_at(index - 1),
        ensures
            r.wf(),
            r.list() == *old(list),
            r.pos() == index,
            *final(list) == *final(r.list),
    {
        proof {
            use_type_invariant(&*list);
            list.lemma_raw();
        }
        CursorMut { curr_slot, prev_slot, index, list }
    }

    /// Returns the cursor's position within the list, or `None` if the
    /// cursor is on the ghost non-element.
    pub fn index(&self) -> (r: Option<usize>)
        requires
            self.wf(),
        ensures
            r == (if self.pos() < self.list()@.len() {
                Some(self.pos() as usize)
            } else {
                None
            }),
    {
        proof {
            use_type_invariant(&*self.list);
            self.list.lemma_raw();
        }
        if self.curr_slot != NIL {
            Some(self.index)
        } else {
            None
        }
    }

    /// Returns the slot holding the element the cursor is on, or `None` if
    /// the cursor is on the ghost non-element.
    pub fn slot(&self) -> (r: Option<usize>)
        requires
            self.wf(),
        ensures
            r == (if self.pos() < self.list()@.len() {
                Some(self.list().slot_at(self.pos()))
            } else {
                None
            }),
    {
        proof {
            use_type_invariant(&*self.list);
            self.list.lemma_raw();
        }
        if self.curr_slot != NIL {
            Some(self.curr_slot)
        } else {
            None
        }
    }

    /// Moves the cursor to the next element of the list. From the last
    /// element this moves onto the ghost non-element; on the ghost it does
    /// nothing.
    pub fn move_next(&mut self)
        requires
            old(self).wf(),
        ensures
            *final(final(self).list) == *final(old(self).list),
            final(self).wf(),
            final(self).list() == old(self).list(),
            final(self).pos() == old(self).next_pos(),
    {
        proof {
            use_type_invariant(&*self.list);
            self.list.lemma_raw();
        }
        if self.curr_slot == NIL {
            return;
        }
        let curr_slot = self.curr_slot;
        let next = self.list.raw.step_forward(Ghost(self.index as int), curr_slot, self.prev_slot);
        self.prev_slot = curr_slot;
        self.curr_slot = next;
        self.index = self.index + 1;
    }

    /// Moves the cursor to the previous element of the list. From the
    /// ghost non-element this moves back to the last element; on the front
    /// element it does nothing.
    pub fn move_prev(&mut self)
        requires
            old(self).wf(),
        ensures
            *final(final(self).list) == *final(old(self).list),
            final(self).wf(),
            final(self).list() == old(self).list(),
            final(self).pos() == old(self).prev_pos(),
    {
        proof {
            use_type_invariant(&*self.list);
            self.list.lemma_raw();
        }
        if self.prev_slot == NIL {
            return;
        }
        let prev_slot = self.prev_slot;
        let prev_prev = self.list.raw.step_backward(Ghost(self.index - 1), prev_slot, self.curr_slot);
        self.prev_slot = prev_prev;
        self.curr_slot = prev_slot;
        self.index = self.index - 1;
    }

    /// Returns a mutable reference to the element the cursor is on, or
    /// `None` if the cursor is on the ghost non-element.
    pub fn current(&mut self) -> (r: Option<&mut T>)
        requires
            old(self).wf(),
        ensures
            *final(final(self).list) == *final(old(self).list),
            old(self).pos() == old(self).list()@.len() ==> r is None && *final(self) == *old(self),
            old(self).pos() < old(self).list()@.len() ==> {
                &&& r is Some
                &&& *r.unwrap() == old(self).list()@[old(self).pos()]
                &&& final(self).wf()
                &&& final(self).pos() == old(self).pos()
                &&& final(self).list()@ == old(self).list()@.update(old(self).pos(), *final(r.unwrap()))
                &&& final(self).list().slot_order() == old(self).list().slot_order()
                &&& final(self).list().dirty_slots() == old(self).list().dirty_slots()
            },
    {
        proof {
            use_type_invariant(&*self.list);
            self.list.lemma_raw();
        }
        if self.curr_slot == NIL {
            return None;
        }
        let ghost pos = self.index as int;
        let curr = self.curr_slot;
        Some(self.list.value_mut(Ghost(pos), curr))
    }

    /// Returns a mutable reference to the element after the cursor, or
    /// `None` if the cursor is on the last element or on the ghost
    /// non-element.
    pub fn peek_next(&mut self) -> (r: Option<&mut T>)
        requires
            old(self).wf(),
        ensures
            *final(final(self).list) == *final(old(self).list),
            old(self).pos() + 1 >= old(self).list()@.len() ==> r is None && *final(self) == *old(self),
            old(self).pos() + 1 < old(self).list()@.len() ==> {
                &&& r is Some
                &&& *r.unwrap() == old(self).list()@[old(self).pos() + 1]
                &&& final(self).wf()
                &&& final(self).pos() == old(self).pos()
                &&& final(self).list()@ == old(self).list()@.update(
                    old(self).pos() + 1,
                    *final(r.unwrap()),
                )
                &&& final(self).list().slot_order() == old(self).list().slot_order()
                &&& final(self).list().dirty_slots() == old(self).list().dirty_slots()
            },
    {
        proof {
            use_type_invariant(&*self.list);
            self.list.lemma_raw();
        }
        if self.curr_slot == NIL {
            return None;
        }
        let curr_slot = self.curr_slot;
        let next_slot = self.list.raw.step_forward(Ghost(self.index as int), curr_slot, self.prev_slot);
        if next_slot == NIL {
            return None;
        }
        let ghost pos = self.index + 1;
        Some(self.list.value_mut(Ghost(pos), next_slot))
    }

    /// Returns a mutable reference to the element before the cursor, or
    /// `None` if the cursor is on the front element.
    pub fn peek_prev(&mut self) -> (r: Option<&mut T>)
        requires
            old(self).wf(),
        ensures
            *final(final(self).list) == *final(old(self).list),
            old(self).pos() == 0 ==> r is None && *final(self) == *old(self),
            old(self).pos() > 0 ==> {
                &&& r is Some
                &&& *r.unwrap() == old(self).list()@[old(self).pos() - 1]
                &&& final(self).wf()
                &&& final(self).pos() == old(self).pos()
                &&& final(self).list()@ == old(self).list()@.update(
                    old(self).pos() - 1,
                    *final(r.unwrap()),
                )
                &&& final(self).list().slot_order() == old(self).list().slot_order()
                &&& final(self).list().dirty_slots() == old(self).list().dirty_slots()
            },
    {
        proof {
            use_type_invariant(&*self.list);
            self.list.lemma_raw();
        }
        if self.prev_slot == NIL {
            return None;
        }
        let ghost pos = self.index - 1;
        let prev_slot = self.prev_slot;
        Some(self.list.value_mut(Ghost(pos), prev_slot))
    }

    /// Returns a read-only cursor on the current element, borrowing this
    /// cursor for its lifetime.
    pub fn as_cursor(&self) -> (r: Cursor<'_, T>)
        requires
            self.wf(),
        ensures
            r.list() == self.list(),
            r.pos() == self.pos(),
    {
        proof {
            use_type_invariant(&*self.list);
            self.list.lemma_raw();
        }
        Cursor::new_at(&*self.list, self.curr_slot, self.prev_slot, self.index)
    }

    /// Provides a read-only reference to the cursor's parent list.
    pub fn as_list(&self) -> (r: &XorList<T>)
        requires
            self.wf(),
        ensures
            *r == self.list(),
    {
        proof {
            use_type_invariant(&*self.list);
            self.list.lemma_raw();
        }
        &*self.list
    }
}

impl<T> XorList<T> {
    /// Provides a cursor resting on the front element (on the ghost
    /// non-element if the list is empty), with read-only access.
    pub fn cursor_front(&self) -> (r: Cursor<'_, T>)
        ensures
            r.list() == *self,
            r.pos() == 0,
    {
        proof {
            use_type_invariant(self);
            self.lemma_raw();
        }
        Cursor::new_at(self, self.raw.head, NIL, 0)
    }

    /// Provides a cursor resting on the front element (on the ghost
    /// non-element if the list is empty), with editing access.
    pub fn cursor_front_mut(&mut self) -> (r: CursorMut<'_, T>)
        ensures
            r.wf(),
            r.list() == *old(self),
            r.pos() == 0,
            *final(self) == *final(r.list),
    {
        proof {
            use_type_invariant(&*self);
            self.lemma_raw();
        }
        let head = self.raw.head;
        CursorMut::new_at(self, head, NIL, 0)
    }

    /// Provides a cursor resting on the back element (on the ghost
    /// non-element if the list is empty), with read-only access.
    pub fn cursor_back(&self) -> (r: Cursor<'_, T>)
        ensures
            r.list() == *self,
            r.pos() == (if self@.len() > 0 {
                self@.len() - 1
            } else {
                0
            }),
    {
        proof {
            use_type_invariant(self);
            self.lemma_raw();
        }
        let prev_slot = if self.raw.tail == NIL {
            NIL
        } else {
            self.raw.step_backward(Ghost(self@.len() - 1), self.raw.tail, NIL)
        };
        let len = self.len();
        Cursor::new_at(self, self.raw.tail, prev_slot, len.saturating_sub(1))
    }

    /// Provides a cursor resting on the back element (on the ghost
    /// non-element if the list is empty), with editing access.
    pub fn cursor_back_mut(&mut self) -> (r: CursorMut<'_, T>)
        ensures
            r.wf(),
            r.list() == *old(self),
            r.pos() == (if old(self)@.len() > 0 {
                old(self)@.len() - 1
            } else {
                0
            }),
            *final(self) == *final(r.list),
    {
        proof {
            use_type_invariant(&*self);
            self.lemma_raw();
        }
        let prev_slot = if self.raw.tail == NIL {
            NIL
        } else {
            self.raw.step_backward(Ghost(self@.len() - 1), self.raw.tail, NIL)
        };
        let len = self.len();
        let tail = self.raw.tail;
        CursorMut::new_at(self, tail, prev_slot, len.saturating_sub(1))
    }
}

} // verus!
