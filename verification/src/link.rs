//! Self-relative XOR links.
//!
//! A node in slot `curr` whose neighbours sit in slots `prev` and `next`
//! stores the single word `(prev - curr) ^ (next - curr)`, with wrapping
//! subtraction. Either neighbour is recovered from the other by
//! `(word ^ (known - curr)) + curr`, again with wrapping arithmetic. The
//! missing neighbour at either end of a list is the sentinel [`NIL`].

use vstd::prelude::*;

verus! {

/// The slot index that stands for "no neighbour" (and for "no slot").
pub const NIL: usize = usize::MAX;

/// The link word of the node in slot `curr` between `prev` and `next`.
pub open spec fn link_word(curr: usize, prev: usize, next: usize) -> usize {
    prev.wrapping_sub(curr) ^ next.wrapping_sub(curr)
}

/// The neighbour that a link word `npx` of the node in slot `curr` yields
/// when the other neighbour, `known`, is given.
pub open spec fn neighbour(npx: usize, curr: usize, known: usize) -> usize {
    (npx ^ known.wrapping_sub(curr)).wrapping_add(curr)
}

proof fn lemma_xor_facts(a: usize, b: usize)
    ensures
        (a ^ b) ^ a == b,
        (a ^ b) ^ b == a,
        a ^ b == b ^ a,
        a ^ a == 0,
{
    assert((a ^ b) ^ a == b) by (bit_vector);
    assert((a ^ b) ^ b == a) by (bit_vector);
    assert(a ^ b == b ^ a) by (bit_vector);
    assert(a ^ a == 0) by (bit_vector);
}

proof fn lemma_wrapping_round_trip(x: usize, c: usize)
    ensures
        x.wrapping_sub(c).wrapping_add(c) == x,
{
}

/// The slots of `seq`, each moved up by `off`.
pub open spec fn shifted(seq: Seq<usize>, off: int) -> Seq<usize> {
    Seq::new(seq.len(), |i: int| (seq[i] + off) as usize)
}

/// Decoding a link word with one neighbour gives back the other one, and
/// a link word does not depend on which neighbour is called `prev`.
pub proof fn lemma_link_decode(curr: usize, prev: usize, next: usize)
    ensures
        neighbour(link_word(curr, prev, next), curr, prev) == next,
        neighbour(link_word(curr, prev, next), curr, next) == prev,
        link_word(curr, prev, next) == link_word(curr, next, prev),
{
    let a = prev.wrapping_sub(curr);
    let b = next.wrapping_sub(curr);
    lemma_xor_facts(a, b);
    lemma_wrapping_round_trip(next, curr);
    lemma_wrapping_round_trip(prev, curr);
}

/// The link word of a node with no neighbour on either side is zero.
pub proof fn lemma_link_lone()
    ensures
        link_word(0, NIL, NIL) == 0,
{
    lemma_xor_facts(NIL, NIL);
}

/// Moving a node and both of its neighbours by the same offset leaves its
/// link word unchanged.
pub proof fn lemma_link_shift(curr: usize, prev: usize, next: usize, off: usize)
    requires
        curr + off <= usize::MAX,
        prev + off <= usize::MAX,
        next + off <= usize::MAX,
    ensures
        link_word((curr + off) as usize, (prev + off) as usize, (next + off) as usize)
            == link_word(curr, prev, next),
{
}

/// In a list laid out in slot order, every node but the last has the link
/// word `NIL ^ 1`, and decoding that word steps to the adjacent slot.
pub proof fn lemma_link_linear(i: usize)
    requires
        i < usize::MAX,
    ensures
        link_word(i, if i == 0 { NIL } else { (i - 1) as usize }, (i + 1) as usize) == NIL ^ 1,
        neighbour(NIL ^ 1, i, if i == 0 { NIL } else { (i - 1) as usize }) == i + 1,
{
    lemma_xor_facts(NIL, 1);
}

} // verus!
