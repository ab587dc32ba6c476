//! Properties of [`XorList`] that span several operations, stated over the
//! same specifications the operations' own contracts use.

use core::cmp::Ordering;
use vstd::prelude::*;
use vstd::std_specs::cmp::{PartialEqSpec, PartialOrdSpec};

use crate::cursor::Cursor;
use crate::iter::Iter;
use crate::link::shifted;
use crate::list::XorList;
use crate::traits::{hash_feeds_element, hash_feeds_length, lex_partial_cmp};

verus! {

/// Popping from the back right after pushing at the back gives back the
/// pushed value and restores the elements, their slots and every slot's
/// occupant. The vacated slot goes back where it came from: to the top of
/// the dirty slots if it was taken from there, or it becomes the only
/// dirty slot of a buffer that grew by one.
pub proof fn law_pop_back_undoes_push_back<T>(
    a: XorList<T>,
    x: T,
    slot: usize,
    b: XorList<T>,
    r: Option<T>,
    c: XorList<T>,
)
    requires
        a.well_formed(),
        b.well_formed(),
        c.well_formed(),
        a.pushes_back(x, slot, b),
        b.pops_back(r, c),
    ensures
        r == Some(x),
        c@ == a@,
        c.slot_order() == a.slot_order(),
        c.dirty_slots() == (if a.dirty_slots().len() > 0 {
            a.dirty_slots()
        } else {
            seq![slot]
        }),
        c.buffer_len() == a.buffer_len_after_push(),
        forall|s: usize| #[trigger] c.occupant(s) == a.occupant(s),
{
    a.lemma_slots();
    b.lemma_slots();
    c.lemma_slots();
    assert(b.slot_at(b@.len() - 1) == slot);
    assert(c@ =~= a@);
    assert(c.slot_order() =~= a.slot_order());
    assert(c.dirty_slots() =~= (if a.dirty_slots().len() > 0 {
        a.dirty_slots()
    } else {
        seq![slot]
    }));
    lemma_free_slot_is_vacant(a);
}

/// Popping from the front right after pushing at the front gives back the
/// pushed value and restores the elements, their slots and every slot's
/// occupant; the vacated slot goes back where it came from, as for the
/// back.
pub proof fn law_pop_front_undoes_push_front<T>(
    a: XorList<T>,
    x: T,
    slot: usize,
    b: XorList<T>,
    r: Option<T>,
    c: XorList<T>,
)
    requires
        a.well_formed(),
        b.well_formed(),
        c.well_formed(),
        a.pushes_front(x, slot, b),
        b.pops_front(r, c),
    ensures
        r == Some(x),
        c@ == a@,
        c.slot_order() == a.slot_order(),
        c.dirty_slots() == (if a.dirty_slots().len() > 0 {
            a.dirty_slots()
        } else {
            seq![slot]
        }),
        c.buffer_len() == a.buffer_len_after_push(),
        forall|s: usize| #[trigger] c.occupant(s) == a.occupant(s),
{
    a.lemma_slots();
    b.lemma_slots();
    c.lemma_slots();
    assert(b.slot_at(0) == slot);
    assert(c@ =~= a@);
    assert(c.slot_order() =~= a.slot_order());
    assert(c.dirty_slots() =~= (if a.dirty_slots().len() > 0 {
        a.dirty_slots()
    } else {
        seq![slot]
    }));
    lemma_free_slot_is_vacant(a);
}

/// Pushing at the back and popping at the front make a queue: the element
/// that comes out is the oldest one, and the new one joins at the end.
pub proof fn law_push_back_pop_front_is_fifo<T>(
    a: XorList<T>,
    x: T,
    slot: usize,
    b: XorList<T>,
    r: Option<T>,
    c: XorList<T>,
)
    requires
        a.pushes_back(x, slot, b),
        b.pops_front(r, c),
    ensures
        a@.len() > 0 ==> r == Some(a@[0]) && c@ == a@.drop_first().push(x),
        a@.len() == 0 ==> r == Some(x) && c@.len() == 0,
{
    assert(a@.len() > 0 ==> c@ =~= a@.drop_first().push(x));
}

/// The slot a push returns is a handle on the pushed element: it lies in
/// the buffer and holds exactly that value, and every other slot keeps its
/// occupant.
pub proof fn law_pushed_slot_holds_the_value<T>(a: XorList<T>, x: T, slot: usize, b: XorList<T>)
    requires
        b.well_formed(),
        a.pushes_back(x, slot, b) || a.pushes_front(x, slot, b),
    ensures
        slot < b.buffer_len(),
        b.occupant(slot) == Some(x),
        forall|s: usize| s != slot ==> #[trigger] b.occupant(s) == a.occupant(s),
{
    b.lemma_slots();
    if a.pushes_back(x, slot, b) {
        assert(b.slot_order()[b@.len() - 1] == slot);
        assert(b.occupant(b.slot_order()[b@.len() - 1]) == Some(b@[b@.len() - 1]));
    } else {
        assert(b.slot_order()[0] == slot);
        assert(b.occupant(b.slot_order()[0]) == Some(b@[0]));
    }
}

/// A slot vacated by a pop is the first one the next push fills.
pub proof fn law_vacated_slot_is_reused_first<T>(a: XorList<T>, r: Option<T>, b: XorList<T>)
    requires
        a@.len() > 0,
        a.pops_back(r, b) || a.pops_front(r, b),
    ensures
        a.pops_back(r, b) ==> b.next_free_slot() == a.slot_at(a@.len() - 1),
        a.pops_front(r, b) ==> b.next_free_slot() == a.slot_at(0),
{
}

/// Splitting a list at any position and appending the back part to the
/// front part gives back the elements of the list that was split, in order.
pub proof fn law_split_off_then_append_restores<T>(
    a: XorList<T>,
    at: usize,
    front: XorList<T>,
    back: XorList<T>,
    joined: XorList<T>,
)
    requires
        at <= a@.len(),
        a.splits_off(at as int, front, back),
        joined@ == front@ + back@,
    ensures
        joined@ == a@,
{
    assert(joined@ =~= a@);
}

/// When `append` moves the other list's buffer behind its own, each of the
/// other list's slots moves up by the length of the receiving buffer: a
/// handle into the other list stays valid once shifted by that amount.
pub proof fn law_append_shifts_the_other_handles<T>(a: XorList<T>, b: XorList<T>, joined: XorList<T>)
    requires
        a.well_formed(),
        b.well_formed(),
        joined.well_formed(),
        joined@ == a@ + b@,
        joined.slot_order() == a.slot_order() + shifted(b.slot_order(), a.buffer_len() as int),
        joined.buffer_len() == a.buffer_len() + b.buffer_len(),
    ensures
        forall|s: usize|
            s < b.buffer_len() ==> #[trigger] joined.occupant((s + a.buffer_len()) as usize)
                == b.occupant(s),
{
    a.lemma_slots();
    b.lemma_slots();
    joined.lemma_slots();
    let off = a.buffer_len() as int;
    assert forall|s: usize| s < b.buffer_len() implies #[trigger] joined.occupant(
        (s + a.buffer_len()) as usize,
    ) == b.occupant(s) by {
        let t = (s + off) as usize;
        if b.slot_order().contains(s) {
            let i = b.slot_order().index_of(s);
            assert(joined.slot_order()[a@.len() + i] == t);
            assert(joined.occupant(joined.slot_order()[a@.len() + i]) == Some(joined@[a@.len() + i]));
            assert(b.occupant(b.slot_order()[i]) == Some(b@[i]));
        } else {
            if joined.slot_order().contains(t) {
                let j = joined.slot_order().index_of(t);
                if j < a@.len() {
                    assert(joined.slot_order()[j] == a.slot_order()[j]);
                } else {
                    assert(joined.slot_order()[j] == (b.slot_order()[j - a@.len()] + off) as usize);
                    assert(b.slot_order()[j - a@.len()] == s);
                }
            }
        }
    }
}

/// In a list laid out in slot order (as `compact` and the conversions from
/// a `Vec` leave it), the slot of every element is its position, and the
/// buffer holds nothing else.
pub proof fn law_laid_out_slots_are_positions<T>(a: XorList<T>)
    requires
        a.well_formed(),
        a.is_laid_out(),
    ensures
        a.buffer_len() == a@.len(),
        forall|i: usize| i < a@.len() ==> #[trigger] a.occupant(i) == Some(a@[i as int]),
        forall|s: usize| s >= a@.len() ==> #[trigger] a.occupant(s) is None,
{
    a.lemma_slots();
    assert forall|i: usize| i < a@.len() implies #[trigger] a.occupant(i) == Some(a@[i as int]) by {
        assert(a.slot_order()[i as int] == i);
    }
    assert forall|s: usize| s >= a@.len() implies #[trigger] a.occupant(s) is None by {
        if a.slot_order().contains(s) {
            let j = a.slot_order().index_of(s);
            assert(a.slot_order()[j] == j);
        }
    }
}

/// Compacting a list that is already laid out in slot order changes
/// nothing that can be observed: the elements, their slots, the dirty
/// slots, the buffer and every slot's occupant stay as they were.
pub proof fn law_compact_keeps_a_laid_out_list<T>(a: XorList<T>, b: XorList<T>)
    requires
        a.well_formed(),
        b.well_formed(),
        a.is_laid_out(),
        b@ == a@,
        b.is_laid_out(),
        b.buffer_len() == a@.len(),
    ensures
        b.slot_order() == a.slot_order(),
        b.dirty_slots() == a.dirty_slots(),
        b.buffer_len() == a.buffer_len(),
        forall|s: usize| #[trigger] b.occupant(s) == a.occupant(s),
{
    law_laid_out_slots_are_positions(a);
    law_laid_out_slots_are_positions(b);
    assert(b.dirty_slots() =~= a.dirty_slots());
    assert forall|s: usize| #[trigger] b.occupant(s) == a.occupant(s) by {
        if s < a@.len() {
        } else {
        }
    }
}

/// Equality looks at the elements only: two lists holding equal elements
/// in the same order are equal, whatever their slot layouts, given an
/// element equality that is reflexive.
pub proof fn law_equality_ignores_slot_layout<T: PartialEq>(a: XorList<T>, b: XorList<T>)
    requires
        forall|x: T| #[trigger] x.eq_spec(&x),
        a@ == b@,
    ensures
        a.eq_spec(&b),
{
    assert forall|i: int| 0 <= i < a@.len() implies (#[trigger] a@[i]).eq_spec(&b@[i]) by {
        assert(a@[i] == b@[i]);
    }
}

/// When the element order reports `Equal` exactly for equal elements,
/// `partial_cmp` on two lists reports `Equal` exactly when they are equal.
pub proof fn law_partial_cmp_agrees_with_equality<T: PartialOrd>(a: XorList<T>, b: XorList<T>)
    requires
        forall|x: T, y: T| #[trigger] x.partial_cmp_spec(&y) == Some(Ordering::Equal) <==> x.eq_spec(&y),
    ensures
        (lex_partial_cmp(a@, b@) == Some(Ordering::Equal)) <==> a.eq_spec(&b),
{
    lemma_lex_equal(a@, b@);
}

/// Lexicographic comparison is `Equal` exactly for sequences of the same
/// length whose elements compare `Equal` pairwise.
proof fn lemma_lex_equal<T: PartialOrd>(a: Seq<T>, b: Seq<T>)
    requires
        forall|x: T, y: T| #[trigger] x.partial_cmp_spec(&y) == Some(Ordering::Equal) <==> x.eq_spec(&y),
    ensures
        (lex_partial_cmp(a, b) == Some(Ordering::Equal)) <==> (a.len() == b.len() && forall|i: int|
            0 <= i < a.len() ==> (#[trigger] a[i]).eq_spec(&b[i])),
    decreases a.len(),
{
    if a.len() == 0 || b.len() == 0 {
    } else {
        lemma_lex_equal(a.drop_first(), b.drop_first());
        if a[0].partial_cmp_spec(&b[0]) == Some(Ordering::Equal) {
            if lex_partial_cmp(a, b) == Some(Ordering::Equal) {
                assert forall|i: int| 0 <= i < a.len() implies (#[trigger] a[i]).eq_spec(&b[i]) by {
                    if i > 0 {
                        assert(a.drop_first()[i - 1] == a[i]);
                        assert(b.drop_first()[i - 1] == b[i]);
                    }
                }
            }
            if a.len() == b.len() && forall|i: int| 0 <= i < a.len() ==> (#[trigger] a[i]).eq_spec(&b[i]) {
                assert forall|i: int| 0 <= i < a.drop_first().len() implies (#[trigger] a.drop_first()[i]).eq_spec(
                    &b.drop_first()[i],
                ) by {
                    assert(a[i + 1].eq_spec(&b[i + 1]));
                }
            }
        } else {
            assert(!a[0].eq_spec(&b[0]));
        }
    }
}

/// A list whose elements form a proper prefix of another list's sorts
/// before it, given an element order that is reflexive.
pub proof fn law_proper_prefix_sorts_first<T: PartialOrd>(a: XorList<T>, b: XorList<T>)
    requires
        forall|x: T| #[trigger] x.partial_cmp_spec(&x) == Some(Ordering::Equal),
        a@.len() < b@.len(),
        forall|i: int| 0 <= i < a@.len() ==> #[trigger] a@[i] == b@[i],
    ensures
        lex_partial_cmp(a@, b@) == Some(Ordering::Less),
{
    lemma_prefix_less(a@, b@);
}

/// A proper prefix is lexicographically smaller.
proof fn lemma_prefix_less<T: PartialOrd>(a: Seq<T>, b: Seq<T>)
    requires
        forall|x: T| #[trigger] x.partial_cmp_spec(&x) == Some(Ordering::Equal),
        a.len() < b.len(),
        forall|i: int| 0 <= i < a.len() ==> #[trigger] a[i] == b[i],
    ensures
        lex_partial_cmp(a, b) == Some(Ordering::Less),
    decreases a.len(),
{
    if a.len() > 0 {
        assert(a[0] == b[0]);
        assert forall|i: int| 0 <= i < a.drop_first().len() implies #[trigger] a.drop_first()[i]
            == b.drop_first()[i] by {
            assert(a[i + 1] == b[i + 1]);
        }
        lemma_prefix_less(a.drop_first(), b.drop_first());
    }
}

/// Clearing a list keeps its buffer for reuse: the next push fills one of
/// the cleared slots, the most recently allocated one, without growing the
/// buffer.
pub proof fn law_clear_keeps_the_buffer_for_reuse<T>(a: XorList<T>, b: XorList<T>)
    requires
        a.well_formed(),
        b@.len() == 0,
        b.buffer_len() == a.buffer_len(),
        b.dirty_slots() == Seq::new(a.buffer_len(), |i: int| i as usize),
        a.buffer_len() > 0,
    ensures
        b.next_free_slot() == a.buffer_len() - 1,
        b.buffer_len_after_push() == a.buffer_len(),
{
    a.lemma_slots();
    assert(b.dirty_slots()[a.buffer_len() - 1] == (a.buffer_len() - 1) as usize);
}

/// Stepping a cursor forward and then back returns it to where it was,
/// unless it started on the ghost non-element; stepping back and then
/// forward does the same, unless it started on the front element.
pub proof fn law_cursor_moves_are_inverse<'a, T>(c: Cursor<'a, T>, d: Cursor<'a, T>)
    requires
        c.wf(),
        d.wf(),
        d.list() == c.list(),
    ensures
        d.pos() == c.next_pos() && c.pos() < c.list()@.len() ==> d.prev_pos() == c.pos(),
        d.pos() == c.prev_pos() && c.pos() > 0 ==> d.next_pos() == c.pos(),
{
    c.lemma_fields();
    d.lemma_fields();
}

/// The vacant slot a push fills holds no element before the push.
proof fn lemma_free_slot_is_vacant<T>(a: XorList<T>)
    requires
        a.well_formed(),
    ensures
        a.occupant(a.next_free_slot()) is None,
{
    a.lemma_slots();
    if a.dirty_slots().len() > 0 {
        assert(a.occupant(a.dirty_slots()[a.dirty_slots().len() - 1]) is None);
    } else {
        let s = a.next_free_slot();
        if a.slot_order().contains(s) {
            let i = a.slot_order().index_of(s);
            assert((a.slot_order()[i] as int) < a.buffer_len());
        }
    }
}

/// One operation of the double-ended queue that a list stands for.
pub enum DequeOp<T> {
    /// [`XorList::push_front`] of the value.
    PushFront(T),
    /// [`XorList::push_back`] of the value.
    PushBack(T),
    /// [`XorList::pop_front`].
    PopFront,
    /// [`XorList::pop_back`].
    PopBack,
    /// [`XorList::compact`].
    Compact,
    /// [`XorList::split_off`] at the position, then putting the split-off
    /// elements back at the end with [`XorList::extend`].
    SplitRejoin(usize),
    /// [`XorList::clear`].
    Clear,
}

/// What `op` does to a double-ended queue holding `s`: the new contents
/// and the element it returns, if any.
pub open spec fn deque_step<T>(s: Seq<T>, op: DequeOp<T>) -> (Seq<T>, Option<T>) {
    match op {
        DequeOp::PushFront(x) => (seq![x] + s, None),
        DequeOp::PushBack(x) => (s.push(x), None),
        DequeOp::PopFront => if s.len() == 0 {
            (s, None)
        } else {
            (s.drop_first(), Some(s[0]))
        },
        DequeOp::PopBack => if s.len() == 0 {
            (s, None)
        } else {
            (s.drop_last(), Some(s.last()))
        },
        DequeOp::Compact => (s, None),
        DequeOp::SplitRejoin(_) => (s, None),
        DequeOp::Clear => (Seq::empty(), None),
    }
}

/// The contents of a double-ended queue holding `s` after `ops`, in order.
pub open spec fn deque_run<T>(s: Seq<T>, ops: Seq<DequeOp<T>>) -> Seq<T>
    decreases ops.len(),
{
    if ops.len() == 0 {
        s
    } else {
        deque_step(deque_run(s, ops.drop_last()), ops.last()).0
    }
}

/// `after` and the result `r` are what the list operation for `op`, as its
/// contract states it, makes of `before`.
pub open spec fn performs<T>(before: XorList<T>, op: DequeOp<T>, r: Option<T>, after: XorList<T>) -> bool {
    match op {
        DequeOp::PushFront(x) => r is None && exists|slot: usize| before.pushes_front(x, slot, after),
        DequeOp::PushBack(x) => r is None && exists|slot: usize| before.pushes_back(x, slot, after),
        DequeOp::PopFront => before.pops_front(r, after),
        DequeOp::PopBack => before.pops_back(r, after),
        DequeOp::Compact => r is None && after@ == before@ && after.is_laid_out(),
        DequeOp::SplitRejoin(at) => {
            &&& r is None
            &&& at <= before@.len()
            &&& exists|kept: XorList<T>, rest: XorList<T>|
                before.splits_off(at as int, kept, rest) && after@ == kept@ + rest@
        },
        DequeOp::Clear => r is None && after@.len() == 0,
    }
}

/// One list operation changes the elements exactly as the same operation
/// changes a double-ended queue with the same contents, and returns the
/// same element.
pub proof fn law_operation_matches_a_deque<T>(before: XorList<T>, op: DequeOp<T>, r: Option<T>, after: XorList<T>)
    requires
        performs(before, op, r, after),
    ensures
        after@ == deque_step(before@, op).0,
        r == deque_step(before@, op).1,
{
    match op {
        DequeOp::SplitRejoin(at) => {
            let (kept, rest) = choose|kept: XorList<T>, rest: XorList<T>|
                before.splits_off(at as int, kept, rest) && after@ == kept@ + rest@;
            assert(after@ =~= before@);
        },
        DequeOp::Clear => {
            assert(after@ =~= Seq::<T>::empty());
        },
        _ => {},
    }
}

/// Run side by side from the same contents, a list and a double-ended
/// queue given the same operations stay in lockstep: every operation
/// returns what the queue's returns, and the list ends up holding what the
/// queue holds.
pub proof fn law_lists_run_in_lockstep_with_a_deque<T>(
    lists: Seq<XorList<T>>,
    ops: Seq<DequeOp<T>>,
    results: Seq<Option<T>>,
)
    requires
        lists.len() == ops.len() + 1,
        results.len() == ops.len(),
        forall|i: int|
            0 <= i < ops.len() ==> performs(#[trigger] lists[i], ops[i], results[i], lists[i + 1]),
    ensures
        forall|i: int|
            0 <= i < ops.len() ==> #[trigger] results[i] == deque_step(
                deque_run(lists[0]@, ops.take(i)),
                ops[i],
            ).1,
        lists.last()@ == deque_run(lists[0]@, ops),
    decreases ops.len(),
{
    if ops.len() > 0 {
        let n = ops.len() - 1;
        let front = lists.drop_last();
        law_lists_run_in_lockstep_with_a_deque(front, ops.drop_last(), results.drop_last());
        assert(ops.take(n) =~= ops.drop_last());
        assert(front.last() == lists[n]);
        law_operation_matches_a_deque(lists[n], ops[n], results[n], lists[n + 1]);
        assert forall|i: int| 0 <= i < ops.len() implies #[trigger] results[i] == deque_step(
            deque_run(lists[0]@, ops.take(i)),
            ops[i],
        ).1 by {
            if i < n {
                assert(ops.drop_last().take(i) =~= ops.take(i));
                assert(results.drop_last()[i] == results[i]);
                assert(ops.drop_last()[i] == ops[i]);
            }
        }
    } else {
        assert(ops.take(0) =~= ops);
    }
}

/// `after` and `r` are what one call on `it` makes of it and returns:
/// [`Iter::next_back`] when `from_back`, else [`Iter::next`].
pub open spec fn iter_step<'a, T>(it: Iter<'a, T>, from_back: bool, r: Option<&'a T>, after: Iter<'a, T>) -> bool {
    if from_back {
        it.yields_back(r, after)
    } else {
        it.yields_front(r, after)
    }
}

/// The elements that the calls made from the back (when `back`) or from
/// the front (otherwise) returned, in the order of the calls.
pub open spec fn yielded<'a, T>(from_back: Seq<bool>, rs: Seq<Option<&'a T>>, back: bool) -> Seq<T>
    decreases from_back.len(),
{
    if from_back.len() == 0 || rs.len() == 0 {
        Seq::empty()
    } else {
        let before = yielded(from_back.drop_last(), rs.drop_last(), back);
        match rs.last() {
            Some(x) => if from_back.last() == back {
                before.push(*x)
            } else {
                before
            },
            None => before,
        }
    }
}

/// However calls of `next` and `next_back` on an iterator interleave, the
/// front calls yield the elements in order from the front, the back calls
/// in order from the back, and no element is yielded twice: what the front
/// calls took, what remains, and what the back calls took (last taken
/// first) make up the elements the iterator started with. Once nothing
/// remains, every call returns `None` and changes nothing.
pub proof fn law_iterator_yields_each_element_once<'a, T>(
    its: Seq<Iter<'a, T>>,
    from_back: Seq<bool>,
    rs: Seq<Option<&'a T>>,
)
    requires
        its.len() == from_back.len() + 1,
        rs.len() == from_back.len(),
        forall|i: int|
            0 <= i < from_back.len() ==> #[trigger] iter_step(its[i], from_back[i], rs[i], its[i + 1]),
    ensures
        yielded(from_back, rs, false) + its.last()@ + yielded(from_back, rs, true).reverse() == its[0]@,
        forall|i: int|
            0 <= i < from_back.len() && (#[trigger] its[i])@.len() == 0 ==> rs[i] is None && its[i + 1]
                == its[i],
    decreases from_back.len(),
{
    let n = from_back.len() as int;
    if n == 0 {
        assert(yielded(from_back, rs, false) + its.last()@ + yielded(from_back, rs, true).reverse() =~= its[0]@);
    } else {
        let k = n - 1;
        let prev_its = its.drop_last();
        let prev_dirs = from_back.drop_last();
        let prev_rs = rs.drop_last();
        assert forall|i: int| 0 <= i < prev_dirs.len() implies #[trigger] iter_step(
            prev_its[i],
            prev_dirs[i],
            prev_rs[i],
            prev_its[i + 1],
        ) by {
            assert(iter_step(its[i], from_back[i], rs[i], its[i + 1]));
        }
        law_iterator_yields_each_element_once(prev_its, prev_dirs, prev_rs);
        let a = its[k];
        let b = its[n];
        assert(prev_its.last() == a);
        assert(iter_step(its[k], from_back[k], rs[k], its[k + 1]));
        let f = yielded(prev_dirs, prev_rs, false);
        let g = yielded(prev_dirs, prev_rs, true);
        match rs[k] {
            Some(x) => {
                if from_back[k] {
                    assert(g.push(*x).reverse() =~= seq![*x] + g.reverse());
                    assert(f + b@ + g.push(*x).reverse() =~= f + a@ + g.reverse());
                } else {
                    assert(f.push(*x) + b@ + g.reverse() =~= f + a@ + g.reverse());
                }
            },
            None => {},
        }
        assert forall|i: int|
            0 <= i < from_back.len() && (#[trigger] its[i])@.len() == 0 implies rs[i] is None && its[i
            + 1] == its[i] by {
            assert(iter_step(its[i], from_back[i], rs[i], its[i + 1]));
        }
    }
}

/// Hashing looks at the elements only: two lists holding the same
/// elements in the same order admit exactly the same writes to a hasher
/// (the same length, and the same element at every position), whatever
/// their slot layouts, dirty slots or buffer lengths. Every write that
/// `hash` makes is held to these, so equal lists feed a hasher alike.
pub proof fn law_hash_writes_ignore_slot_layout<T>(a: XorList<T>, b: XorList<T>)
    requires
        a@ == b@,
    ensures
        forall|len: usize| #[trigger] hash_feeds_length(a, len) == hash_feeds_length(b, len),
        forall|k: usize, v: T| #[trigger] hash_feeds_element(a, k, v) == hash_feeds_element(b, k, v),
{
}

} // verus!
