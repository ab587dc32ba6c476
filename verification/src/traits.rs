//! The standard traits of [`XorList`] that compare, copy and build lists
//! by their elements, whatever the slot layout.

use core::cmp::Ordering;
use core::hash::{Hash, Hasher};
use vstd::prelude::*;
use vstd::std_specs::cmp::{OrdSpec, PartialEqSpec, PartialEqSpecImpl, PartialOrdSpec, PartialOrdSpecImpl};
use vstd::std_specs::convert::FromSpecImpl;

use crate::link::NIL;
use crate::list::XorList;

verus! {

impl<T: Clone> Clone for XorList<T> {
    /// A copy laid out in slot order, each element cloned from the element
    /// at the same position.
    fn clone(&self) -> (r: Self)
        ensures
            r@.len() == self@.len(),
            forall|i: int| 0 <= i < self@.len() ==> cloned::<T>(self@[i], #[trigger] r@[i]),
            r.is_laid_out(),
    {
        proof {
            use_type_invariant(self);
            self.lemma_raw();
        }
        let len = self.raw.len();
        let mut list: XorList<T> = XorList::new();
        let mut curr = self.raw.head;
        let mut prev = NIL;
        let mut k: usize = 0;
        proof {
            assert(list.slot_order() =~= Seq::new(0, |i: int| i as usize));
        }
        while k < len
            invariant
                self.raw.wf(),
                len == self@.len(),
                self@ == self.raw@,
                self@.len() == self.raw.order@.len(),
                k <= len,
                curr == self.raw.slot_at(k as int),
                prev == self.raw.slot_at(k - 1),
                list@.len() == k,
                forall|i: int| 0 <= i < k ==> cloned::<T>(self@[i], #[trigger] list@[i]),
                list.dirty_slots().len() == 0,
                list.buffer_len() == k,
                list.slot_order() == Seq::new(k as nat, |i: int| i as usize),
            decreases len - k,
        {
            proof {
                self.raw.lemma_link_at(k as int);
            }
            let value = self.raw.nodes[curr].value.as_ref().unwrap().clone();
            list.push_back(value);
            proof {
                assert(list.slot_order() =~= Seq::new((k + 1) as nat, |i: int| i as usize));
            }
            let next = self.raw.step_forward(Ghost(k as int), curr, prev);
            prev = curr;
            curr = next;
            k = k + 1;
        }
        list
    }
}

impl<T: Clone> XorList<T> {
    /// Makes `self` a copy of `source`: the elements `self` already has
    /// are overwritten in place by clones of `source`'s elements at the
    /// same positions, surplus elements are split off, and missing ones are
    /// pushed at the back.
    pub fn clone_from(&mut self, source: &Self)
        ensures
            final(self)@.len() == source@.len(),
            forall|i: int| 0 <= i < source@.len() ==> cloned::<T>(source@[i], #[trigger] final(self)@[i]),
            old(self)@.len() <= source@.len() ==> old(self).lays_out_pushes(
                (source@.len() - old(self)@.len()) as nat,
                *final(self),
            ),
            old(self)@.len() > source@.len() ==> exists|kept: Self, rest: Self|
                {
                    &&& old(self).splits_off(source@.len() as int, kept, rest)
                    &&& final(self).slot_order() == kept.slot_order()
                    &&& final(self).dirty_slots() == kept.dirty_slots()
                    &&& final(self).buffer_len() == kept.buffer_len()
                },
    {
        proof {
            use_type_invariant(source);
            source.lemma_raw();
        }
        let ghost start = *self;
        let src_len = source.raw.len();
        let ghost mut kept = *self;
        let ghost mut rest = *self;
        if self.len() > src_len {
            let r = self.split_off(src_len);
            proof {
                kept = *self;
                rest = r;
            }
        }
        let ghost split = *self;
        let n = self.len();
        let mut src_curr = source.raw.head;
        let mut src_prev = NIL;
        let mut curr = self.head();
        let mut prev = NIL;
        let ghost order = self.slot_order();
        let mut k: usize = 0;
        while k < n
            invariant
                source.raw.wf(),
                source@ == source.raw@,
                source@.len() == source.raw.order@.len(),
                src_len == source@.len(),
                n <= src_len,
                n == self@.len(),
                k <= n,
                self.slot_order() == order,
                self.dirty_slots() == split.dirty_slots(),
                self.buffer_len() == split.buffer_len(),
                src_curr == source.raw.slot_at(k as int),
                src_prev == source.raw.slot_at(k - 1),
                curr == self.slot_at(k as int),
                prev == self.slot_at(k - 1),
                forall|i: int| 0 <= i < k ==> cloned::<T>(source@[i], #[trigger] self@[i]),
            decreases n - k,
        {
            proof {
                source.raw.lemma_link_at(k as int);
            }
            let value = source.raw.nodes[src_curr].value.as_ref().unwrap().clone();
            *self.value_mut(Ghost(k as int), curr) = value;
            proof {
                use_type_invariant(&*self);
                self.lemma_raw();
            }
            let next = self.raw.step_forward(Ghost(k as int), curr, prev);
            prev = curr;
            curr = next;
            let src_next = source.raw.step_forward(Ghost(k as int), src_curr, src_prev);
            src_prev = src_curr;
            src_curr = src_next;
            k = k + 1;
        }
        let ghost d = split.dirty_slots().len() as int;
        proof {
            assert(split.dirty_slots().subrange(0, d) =~= split.dirty_slots());
            assert(self.slot_order() =~= split.slot_order() + Seq::new(0, |j: int| split.nth_free_slot(j)));
        }
        while k < src_len
            invariant
                source.raw.wf(),
                source@ == source.raw@,
                source@.len() == source.raw.order@.len(),
                src_len == source@.len(),
                n <= k <= src_len,
                n == split@.len(),
                d == split.dirty_slots().len(),
                k == self@.len(),
                src_curr == source.raw.slot_at(k as int),
                src_prev == source.raw.slot_at(k - 1),
                forall|i: int| 0 <= i < k ==> cloned::<T>(source@[i], #[trigger] self@[i]),
                self.slot_order() == split.slot_order() + Seq::new(
                    (k - n) as nat,
                    |j: int| split.nth_free_slot(j),
                ),
                k - n <= d ==> self.dirty_slots() == split.dirty_slots().subrange(0, d - (k - n))
                    && self.buffer_len() == split.buffer_len(),
                k - n > d ==> self.dirty_slots().len() == 0 && self.buffer_len() == split.buffer_len()
                    + (k - n) - d,
            decreases src_len - k,
        {
            proof {
                source.raw.lemma_link_at(k as int);
                assert(self.next_free_slot() == split.nth_free_slot(k - n));
            }
            let value = source.raw.nodes[src_curr].value.as_ref().unwrap().clone();
            self.push_back(value);
            proof {
                assert(self.slot_order() =~= split.slot_order() + Seq::new(
                    (k + 1 - n) as nat,
                    |j: int| split.nth_free_slot(j),
                ));
                if k - n < d {
                    assert(self.dirty_slots() =~= split.dirty_slots().subrange(0, d - (k + 1 - n)));
                }
            }
            let src_next = source.raw.step_forward(Ghost(k as int), src_curr, src_prev);
            src_prev = src_curr;
            src_curr = src_next;
            k = k + 1;
        }
        proof {
            if start@.len() > src_len {
                assert(old(self).splits_off(src_len as int, kept, rest));
                assert(self.slot_order() =~= kept.slot_order());
            } else {
                assert(self.slot_order() =~= start.slot_order() + Seq::new(
                    (src_len - start@.len()) as nat,
                    |j: int| start.nth_free_slot(j),
                ));
                if src_len - start@.len() > d {
                    assert(self.dirty_slots() =~= Seq::empty());
                }
            }
        }
    }
}

impl<T: PartialEq> PartialEq for XorList<T> {
    /// Two lists are equal when they hold equal elements in the same order,
    /// whatever their slot layouts.
    fn eq(&self, other: &Self) -> (r: bool) {
        proof {
            use_type_invariant(self);
            use_type_invariant(other);
            self.lemma_raw();
            other.lemma_raw();
        }
        let len = self.raw.len();
        if len != other.raw.len() {
            return false;
        }
        let mut a = self.raw.head;
        let mut a_prev = NIL;
        let mut b = other.raw.head;
        let mut b_prev = NIL;
        let mut k: usize = 0;
        while k < len
            invariant
                self.raw.wf(),
                other.raw.wf(),
                self@ == self.raw@,
                other@ == other.raw@,
                self@.len() == self.raw.order@.len(),
                other@.len() == other.raw.order@.len(),
                len == self@.len(),
                len == other@.len(),
                k <= len,
                a == self.raw.slot_at(k as int),
                a_prev == self.raw.slot_at(k - 1),
                b == other.raw.slot_at(k as int),
                b_prev == other.raw.slot_at(k - 1),
                T::obeys_eq_spec() ==> forall|i: int| 0 <= i < k ==> (#[trigger] self@[i]).eq_spec(&other@[i]),
            decreases len - k,
        {
            proof {
                self.raw.lemma_link_at(k as int);
                other.raw.lemma_link_at(k as int);
            }
            let x = self.raw.nodes[a].value.as_ref().unwrap();
            let y = other.raw.nodes[b].value.as_ref().unwrap();
            if !x.eq(y) {
                return false;
            }
            let a_next = self.raw.step_forward(Ghost(k as int), a, a_prev);
            a_prev = a;
            a = a_next;
            let b_next = other.raw.step_forward(Ghost(k as int), b, b_prev);
            b_prev = b;
            b = b_next;
            k = k + 1;
        }
        true
    }
}

impl<T: PartialEq> PartialEqSpecImpl for XorList<T> {
    open spec fn obeys_eq_spec() -> bool {
        T::obeys_eq_spec()
    }

    open spec fn eq_spec(&self, other: &Self) -> bool {
        &&& self@.len() == other@.len()
        &&& forall|i: int| 0 <= i < self@.len() ==> (#[trigger] self@[i]).eq_spec(&other@[i])
    }
}

impl<T: Eq> Eq for XorList<T> {

}

/// Compares two sequences lexicographically by their elements' partial
/// order; when one is a prefix of the other, the shorter comes first.
pub open spec fn lex_partial_cmp<T: PartialOrd>(a: Seq<T>, b: Seq<T>) -> Option<Ordering>
    decreases a.len(),
{
    if a.len() == 0 || b.len() == 0 {
        if a.len() < b.len() {
            Some(Ordering::Less)
        } else if b.len() < a.len() {
            Some(Ordering::Greater)
        } else {
            Some(Ordering::Equal)
        }
    } else {
        match a[0].partial_cmp_spec(&b[0]) {
            Some(Ordering::Equal) => lex_partial_cmp(a.drop_first(), b.drop_first()),
            c => c,
        }
    }
}

/// Compares two sequences lexicographically by their elements' total
/// order; when one is a prefix of the other, the shorter comes first.
pub open spec fn lex_total_cmp<T: Ord>(a: Seq<T>, b: Seq<T>) -> Ordering
    decreases a.len(),
{
    if a.len() == 0 || b.len() == 0 {
        if a.len() < b.len() {
            Ordering::Less
        } else if b.len() < a.len() {
            Ordering::Greater
        } else {
            Ordering::Equal
        }
    } else {
        match a[0].cmp_spec(&b[0]) {
            Ordering::Equal => lex_total_cmp(a.drop_first(), b.drop_first()),
            c => c,
        }
    }
}

impl<T: PartialOrd> PartialOrd for XorList<T> {
    /// Lists are ordered lexicographically by their elements; the result is
    /// `None` as soon as two elements at the same position are
    /// incomparable.
    fn partial_cmp(&self, other: &Self) -> (r: Option<Ordering>) {
        proof {
            use_type_invariant(self);
            use_type_invariant(other);
            self.lemma_raw();
            other.lemma_raw();
        }
        let la = self.raw.len();
        let lb = other.raw.len();
        let m = if la < lb {
            la
        } else {
            lb
        };
        let mut a = self.raw.head;
        let mut a_prev = NIL;
        let mut b = other.raw.head;
        let mut b_prev = NIL;
        let mut k: usize = 0;
        let ghost mut g: int = 0;
        proof {
            assert(self@.skip(0) =~= self@);
            assert(other@.skip(0) =~= other@);
        }
        while k < m
            invariant
                self.raw.wf(),
                other.raw.wf(),
                self@ == self.raw@,
                other@ == other.raw@,
                self@.len() == self.raw.order@.len(),
                other@.len() == other.raw.order@.len(),
                la == self@.len(),
                lb == other@.len(),
                m <= la,
                m <= lb,
                m == la || m == lb,
                k == g,
                0 <= g <= m,
                a == self.raw.slot_at(g),
                a_prev == self.raw.slot_at(g - 1),
                b == other.raw.slot_at(g),
                b_prev == other.raw.slot_at(g - 1),
                T::obeys_partial_cmp_spec() ==> lex_partial_cmp(self@, other@) == lex_partial_cmp(
                    self@.skip(g),
                    other@.skip(g),
                ),
            decreases m - k,
        {
            proof {
                self.raw.lemma_link_at(g);
                other.raw.lemma_link_at(g);
                assert(self@.skip(g)[0] == self@[g]);
                assert(other@.skip(g)[0] == other@[g]);
                assert(self@.skip(g).drop_first() =~= self@.skip(g + 1));
                assert(other@.skip(g).drop_first() =~= other@.skip(g + 1));
            }
            let x = self.raw.nodes[a].value.as_ref().unwrap();
            let y = other.raw.nodes[b].value.as_ref().unwrap();
            let c = x.partial_cmp(y);
            match c {
                Some(Ordering::Equal) => {},
                _ => {
                    return c;
                },
            }
            let a_next = self.raw.step_forward(Ghost(g), a, a_prev);
            a_prev = a;
            a = a_next;
            let b_next = other.raw.step_forward(Ghost(g), b, b_prev);
            b_prev = b;
            b = b_next;
            k = k + 1;
            proof {
                g = g + 1;
            }
        }
        if la < lb {
            Some(Ordering::Less)
        } else if lb < la {
            Some(Ordering::Greater)
        } else {
            Some(Ordering::Equal)
        }
    }
}

impl<T: PartialOrd> PartialOrdSpecImpl for XorList<T> {
    open spec fn obeys_partial_cmp_spec() -> bool {
        T::obeys_partial_cmp_spec()
    }

    open spec fn partial_cmp_spec(&self, other: &Self) -> Option<Ordering> {
        lex_partial_cmp(self@, other@)
    }
}

impl<T: Ord> XorList<T> {
    /// Orders lists lexicographically by their elements; when one list is
    /// a prefix of the other, the shorter comes first.
    pub fn cmp(&self, other: &Self) -> (r: Ordering)
        ensures
            T::obeys_cmp_spec() ==> r == lex_total_cmp(self@, other@),
    {
        proof {
            use_type_invariant(self);
            use_type_invariant(other);
            self.lemma_raw();
            other.lemma_raw();
        }
        let la = self.raw.len();
        let lb = other.raw.len();
        let m = if la < lb {
            la
        } else {
            lb
        };
        let mut a = self.raw.head;
        let mut a_prev = NIL;
        let mut b = other.raw.head;
        let mut b_prev = NIL;
        let mut k: usize = 0;
        let ghost mut g: int = 0;
        proof {
            assert(self@.skip(0) =~= self@);
            assert(other@.skip(0) =~= other@);
        }
        while k < m
            invariant
                self.raw.wf(),
                other.raw.wf(),
                self@ == self.raw@,
                other@ == other.raw@,
                self@.len() == self.raw.order@.len(),
                other@.len() == other.raw.order@.len(),
                la == self@.len(),
                lb == other@.len(),
                m <= la,
                m <= lb,
                m == la || m == lb,
                k == g,
                0 <= g <= m,
                a == self.raw.slot_at(g),
                a_prev == self.raw.slot_at(g - 1),
                b == other.raw.slot_at(g),
                b_prev == other.raw.slot_at(g - 1),
                T::obeys_cmp_spec() ==> lex_total_cmp(self@, other@) == lex_total_cmp(
                    self@.skip(g),
                    other@.skip(g),
                ),
            decreases m - k,
        {
            proof {
                self.raw.lemma_link_at(g);
                other.raw.lemma_link_at(g);
                assert(self@.skip(g)[0] == self@[g]);
                assert(other@.skip(g)[0] == other@[g]);
                assert(self@.skip(g).drop_first() =~= self@.skip(g + 1));
                assert(other@.skip(g).drop_first() =~= other@.skip(g + 1));
            }
            let x = self.raw.nodes[a].value.as_ref().unwrap();
            let y = other.raw.nodes[b].value.as_ref().unwrap();
            let c = x.cmp(y);
            match c {
                Ordering::Equal => {},
                _ => {
                    return c;
                },
            }
            let a_next = self.raw.step_forward(Ghost(g), a, a_prev);
            a_prev = a;
            a = a_next;
            let b_next = other.raw.step_forward(Ghost(g), b, b_prev);
            b_prev = b;
            b = b_next;
            k = k + 1;
            proof {
                g = g + 1;
            }
        }
        if la < lb {
            Ordering::Less
        } else if lb < la {
            Ordering::Greater
        } else {
            Ordering::Equal
        }
    }
}

/// Hashing `list` may feed `len` as its length: `len` is the number of
/// elements, whatever the slot layout.
pub open spec fn hash_feeds_length<T>(list: XorList<T>, len: usize) -> bool {
    len == list@.len()
}

/// Hashing `list` may feed `value` as its element at position `k`: it is
/// the element at that position, whatever the slot layout.
pub open spec fn hash_feeds_element<T>(list: XorList<T>, k: usize, value: T) -> bool {
    k < list@.len() && value == list@[k as int]
}

/// Feeds the length `len` of `list` into a hasher, through
/// `Hasher::write_usize`.
///
/// Nothing is stated of the hasher's state, which Verus cannot see; the
/// precondition only holds the caller to feeding the list's length.
#[verifier::external_body]
fn hash_length<T, H: Hasher>(state: &mut H, _list: &XorList<T>, len: usize)
    requires
        hash_feeds_length(*_list, len),
{
    state.write_usize(len)
}

/// Feeds `value`, the element at position `k` of `list`, into a hasher,
/// through the value's `Hash::hash`.
///
/// Nothing is stated of the hasher's state, which Verus cannot see; the
/// precondition only holds the caller to feeding that element.
#[verifier::external_body]
fn hash_value<V: Hash, H: Hasher>(value: &V, state: &mut H, _list: &XorList<V>, k: usize)
    requires
        hash_feeds_element(*_list, k, *value),
{
    value.hash(state)
}

impl<T: Hash> Hash for XorList<T> {
    /// Feeds the length and then the elements, front to back, into the
    /// hasher; the slot layout plays no part.
    fn hash<H: Hasher>(&self, state: &mut H) {
        proof {
            use_type_invariant(self);
            self.lemma_raw();
        }
        let len = self.raw.len();
        hash_length(state, self, len);
        let mut curr = self.raw.head;
        let mut prev = NIL;
        let mut k: usize = 0;
        while k < len
            invariant
                self.raw.wf(),
                self@ == self.raw@,
                self@.len() == self.raw.order@.len(),
                len == self@.len(),
                k <= len,
                curr == self.raw.slot_at(k as int),
                prev == self.raw.slot_at(k - 1),
            decreases len - k,
        {
            proof {
                self.raw.lemma_link_at(k as int);
                self.raw.lemma_view();
            }
            hash_value(self.raw.nodes[curr].value.as_ref().unwrap(), state, self, k);
            let next = self.raw.step_forward(Ghost(k as int), curr, prev);
            prev = curr;
            curr = next;
            k = k + 1;
        }
    }
}

/// Moves the items of an array into a `Vec`, in order, through
/// `Vec::from`.
#[verifier::external_body]
fn array_into_vec<T, const N: usize>(arr: [T; N]) -> (v: Vec<T>)
    ensures
        v@ == arr@,
{
    Vec::from(arr)
}

impl<T, const N: usize> From<[T; N]> for XorList<T> {
    /// Converts an array into a list holding the same elements in the same
    /// order, laid out in slot order.
    fn from(arr: [T; N]) -> (list: Self)
        ensures
            list@ == arr@,
            list.is_laid_out(),
            list.buffer_len() == N,
    {
        XorList::from_vec(array_into_vec(arr))
    }
}

impl<T, const N: usize> FromSpecImpl<[T; N]> for XorList<T> {
    open spec fn obeys_from_spec() -> bool {
        false
    }

    open spec fn from_spec(v: [T; N]) -> Self {
        arbitrary()
    }
}

} // verus!
