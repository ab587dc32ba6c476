//! Debug listings of lists and their iterators: each element's debug text
//! followed by the slot that holds it, front to back.
//!
//! `XorList(420(slot #1) <=> 1337(slot #0))` is the one-line form; the
//! alternate form puts every entry on a line of its own.

use core::fmt::Debug;
use vstd::prelude::*;

use crate::iter::{IntoIter, Iter};
use crate::list::XorList;
use crate::raw::RawList;

verus! {

/// The decimal digit for `d < 10`.
pub open spec fn digit(d: nat) -> char {
    if d == 0 {
        '0'
    } else if d == 1 {
        '1'
    } else if d == 2 {
        '2'
    } else if d == 3 {
        '3'
    } else if d == 4 {
        '4'
    } else if d == 5 {
        '5'
    } else if d == 6 {
        '6'
    } else if d == 7 {
        '7'
    } else if d == 8 {
        '8'
    } else {
        '9'
    }
}

/// The decimal notation of `n`, without leading zeros.
pub open spec fn decimal(n: nat) -> Seq<char>
    decreases n,
{
    if n < 10 {
        seq![digit(n)]
    } else {
        decimal(n / 10).push(digit(n % 10))
    }
}

/// One entry of a listing: an element's debug text and its slot.
pub open spec fn entry(text: Seq<char>, slot: usize) -> Seq<char> {
    text + "(slot #"@ + decimal(slot as nat) + ")"@
}

/// What precedes entry `k` of a listing.
pub open spec fn separator(k: nat, alternate: bool) -> Seq<char> {
    if alternate {
        if k == 0 {
            "\n    "@
        } else {
            "\n    <=> "@
        }
    } else if k == 0 {
        Seq::empty()
    } else {
        " <=> "@
    }
}

/// The entries for the debug texts `texts`, the `k`-th element being held
/// in `slots[k]`.
pub open spec fn entries(texts: Seq<Seq<char>>, slots: Seq<usize>, alternate: bool) -> Seq<char>
    decreases texts.len(),
{
    if texts.len() == 0 {
        Seq::empty()
    } else {
        let k = (texts.len() - 1) as nat;
        entries(texts.drop_last(), slots, alternate) + separator(k, alternate) + entry(
            texts.last(),
            slots[k as int],
        )
    }
}

/// A complete listing: `open`, the entries, and the closing bracket, which
/// the alternate form of a non-empty listing puts on a line of its own.
pub open spec fn listing(open: Seq<char>, texts: Seq<Seq<char>>, slots: Seq<usize>, alternate: bool) -> Seq<char> {
    if alternate && texts.len() > 0 {
        open + entries(texts, slots, alternate) + "\n)"@
    } else {
        open + entries(texts, slots, alternate) + ")"@
    }
}

/// `s` with every line that has a first character indented by four spaces.
pub open spec fn indented(s: Seq<char>) -> Seq<char>
    decreases s.len(),
{
    if s.len() == 0 {
        Seq::empty()
    } else {
        let before = s.drop_last();
        let pad = if before.len() == 0 || before.last() == '\n' {
            "    "@
        } else {
            Seq::empty()
        };
        indented(before) + pad + seq![s.last()]
    }
}

/// The debug text of `value`, the element at position `p` of `raw`,
/// through its `Debug` implementation.
///
/// Calls `<T as Debug>::fmt` through `format!("{:?}")`. What the text is
/// depends on `T`'s implementation, so nothing is stated of it; the
/// precondition only holds the caller to formatting that element.
#[verifier::external_body]
fn debug_text<T: Debug>(value: &T, _raw: &RawList<T>, p: usize) -> String
    requires
        p < _raw@.len(),
        *value == _raw@[p as int],
{
    format!("{:?}", value)
}

/// The one-character string for the digit `d`.
fn digit_str(d: usize) -> (r: &'static str)
    requires
        d < 10,
    ensures
        r@ == seq![digit(d as nat)],
{
    if d == 0 {
        proof {
            reveal_strlit("0");
        }
        "0"
    } else if d == 1 {
        proof {
            reveal_strlit("1");
        }
        "1"
    } else if d == 2 {
        proof {
            reveal_strlit("2");
        }
        "2"
    } else if d == 3 {
        proof {
            reveal_strlit("3");
        }
        "3"
    } else if d == 4 {
        proof {
            reveal_strlit("4");
        }
        "4"
    } else if d == 5 {
        proof {
            reveal_strlit("5");
        }
        "5"
    } else if d == 6 {
        proof {
            reveal_strlit("6");
        }
        "6"
    } else if d == 7 {
        proof {
            reveal_strlit("7");
        }
        "7"
    } else if d == 8 {
        proof {
            reveal_strlit("8");
        }
        "8"
    } else {
        proof {
            reveal_strlit("9");
        }
        "9"
    }
}

/// Appends the decimal notation of `n` to `out`.
fn push_decimal(out: &mut String, n: usize)
    ensures
        final(out)@ == old(out)@ + decimal(n as nat),
    decreases n,
{
    if n >= 10 {
        push_decimal(out, n / 10);
    }
    out.append(digit_str(n % 10));
    proof {
        if n >= 10 {
            assert(old(out)@ + decimal(n as nat) =~= old(out)@ + decimal((n / 10) as nat) + seq![
                digit((n % 10) as nat),
            ]);
        } else {
            assert(old(out)@ + decimal(n as nat) =~= old(out)@ + seq![digit((n % 10) as nat)]);
        }
    }
}

/// Appends `text` to `out` with every line that has a first character
/// indented by four spaces.
fn push_indented(out: &mut String, text: &str)
    ensures
        final(out)@ == old(out)@ + indented(text@),
{
    let ghost start = out@;
    let n = text.unicode_len();
    let mut i: usize = 0;
    let mut line_start = true;
    while i < n
        invariant
            n == text@.len(),
            i <= n,
            out@ == start + indented(text@.subrange(0, i as int)),
            line_start == (i == 0 || text@[i - 1] == '\n'),
        decreases n - i,
    {
        let ghost before = text@.subrange(0, i as int);
        if line_start {
            out.append("    ");
        }
        out.append(text.substring_char(i, i + 1));
        let c = text.get_char(i);
        line_start = c == '\n';
        proof {
            let now = text@.subrange(0, i + 1);
            assert(now.drop_last() =~= before);
            assert(now.last() == text@[i as int]);
            assert(text@.subrange(i as int, i + 1) =~= seq![text@[i as int]]);
        }
        i = i + 1;
    }
    proof {
        assert(text@.subrange(0, n as int) =~= text@);
    }
}

/// Appends the entries for the `count` elements of `raw` from position
/// `from` on, entered at `curr` from `prev`, and returns their debug
/// texts.
fn push_entries<T: Debug>(
    out: &mut String,
    raw: &RawList<T>,
    from: usize,
    count: usize,
    curr: usize,
    prev: usize,
    alternate: bool,
) -> (texts: Ghost<Seq<Seq<char>>>)
    requires
        raw.wf(),
        from + count <= raw@.len(),
        curr == raw.slot_at(from as int),
        prev == raw.slot_at(from - 1),
    ensures
        texts@.len() == count,
        final(out)@ == old(out)@ + entries(
            texts@,
            raw.order@.subrange(from as int, from + count),
            alternate,
        ),
{
    let ghost start = out@;
    let ghost slots = raw.order@.subrange(from as int, from + count);
    let ghost mut texts: Seq<Seq<char>> = Seq::empty();
    let mut curr = curr;
    let mut prev = prev;
    let mut k: usize = 0;
    proof {
        raw.lemma_view();
    }
    while k < count
        invariant
            raw.wf(),
            raw@.len() == raw.order@.len(),
            from + count <= raw@.len(),
            slots == raw.order@.subrange(from as int, from + count),
            k <= count,
            texts.len() == k,
            curr == raw.slot_at(from + k),
            prev == raw.slot_at(from + k - 1),
            out@ == start + entries(texts, slots, alternate),
        decreases count - k,
    {
        let ghost p = from + k;
        proof {
            raw.lemma_link_at(p);
            raw.lemma_occupant(curr);
        }
        let ghost before = out@;
        if alternate {
            if k == 0 {
                out.append("\n    ");
            } else {
                out.append("\n    <=> ");
            }
        } else if k > 0 {
            out.append(" <=> ");
        }
        proof {
            raw.lemma_view();
        }
        let text = debug_text(raw.nodes[curr].value.as_ref().unwrap(), raw, from + k);
        out.append(text.as_str());
        out.append("(slot #");
        push_decimal(out, curr);
        out.append(")");
        proof {
            let next_texts = texts.push(text@);
            assert(next_texts.drop_last() =~= texts);
            assert(slots[k as int] == curr);
            assert(out@ =~= before + separator(k as nat, alternate) + entry(text@, curr));
            texts = next_texts;
        }
        let next = raw.step_forward(Ghost(p), curr, prev);
        prev = curr;
        curr = next;
        k = k + 1;
    }
    Ghost(texts)
}

impl<T: Debug> XorList<T> {
    /// The debug listing of the list: `XorList(` followed by each element's
    /// debug text and slot, front to back, joined by ` <=> `, and `)`. The
    /// alternate form puts each entry on a line of its own.
    pub fn debug_string(&self, alternate: bool) -> (r: String)
        ensures
            exists|texts: Seq<Seq<char>>|
                texts.len() == self@.len() && r@ == listing(
                    "XorList("@,
                    texts,
                    self.slot_order(),
                    alternate,
                ),
    {
        proof {
            use_type_invariant(self);
            self.lemma_raw();
        }
        let mut out = String::new();
        out.append("XorList(");
        let len = self.raw.len();
        let ghost start = out@;
        let texts = push_entries(&mut out, &self.raw, 0, len, self.raw.head, crate::link::NIL, alternate);
        if alternate && len > 0 {
            out.append("\n)");
        } else {
            out.append(")");
        }
        proof {
            assert(self.raw.order@.subrange(0, len as int) =~= self.slot_order());
            assert(out@ =~= listing("XorList("@, texts@, self.slot_order(), alternate));
        }
        out
    }
}

impl<'a, T: Debug> Iter<'a, T> {
    /// The slots that the debug listing shows: those a cursor from
    /// [`cursor_front`](Self::cursor_front) walks over up to the end of the
    /// list, from the next element up to and including the back of the
    /// list, or none once the iterator is exhausted.
    pub open spec fn listed_slots(&self) -> Seq<usize> {
        if self.front() < self.back() {
            self.list().slot_order().subrange(self.front(), self.list()@.len() as int)
        } else {
            Seq::empty()
        }
    }

    /// The debug listing: `Iter(`, then the debug text and slot of each
    /// element from the one [`next`](Self::next) would yield to the back of
    /// the list, and `)`, in one line or, in the alternate form, one entry
    /// per line. An exhausted iterator lists no element.
    pub fn debug_string(&self, alternate: bool) -> (r: String)
        ensures
            exists|texts: Seq<Seq<char>>|
                texts.len() == self.listed_slots().len() && r@ == listing(
                    "Iter("@,
                    texts,
                    self.listed_slots(),
                    alternate,
                ),
    {
        proof {
            use_type_invariant(self);
            self.lemma_fields();
            self.lemma_view();
            self.list.raw.lemma_view();
        }
        let count = if self.rem == 0 {
            0
        } else {
            self.list.raw.len() - self.index
        };
        let mut out = String::new();
        out.append("Iter(");
        let texts = push_entries(&mut out, &self.list.raw, self.index, count, self.head, self.prev_head, alternate);
        if alternate && count > 0 {
            out.append("\n)");
        } else {
            out.append(")");
        }
        proof {
            assert(self.list.raw.order@.subrange(self.index as int, self.index + count) =~= self.listed_slots());
            assert(out@ =~= listing("Iter("@, texts@, self.listed_slots(), alternate));
        }
        out
    }
}

impl<T: Debug> IntoIter<T> {
    /// The debug listing of the elements still to be yielded: the listing
    /// of the list they are taken from, inside `IntoIter(` and `)`. The
    /// alternate form puts that listing on lines of its own, indented by
    /// four spaces and followed by a comma.
    pub fn debug_string(&self, alternate: bool) -> (r: String)
        ensures
            exists|texts: Seq<Seq<char>>|
                texts.len() == self@.len() && r@ == (if alternate {
                    "IntoIter(\n"@ + indented(
                        listing("XorList("@, texts, self.list().slot_order(), true) + ",\n"@,
                    ) + ")"@
                } else {
                    "IntoIter("@ + listing("XorList("@, texts, self.list().slot_order(), false)
                        + ")"@
                }),
    {
        proof {
            self.lemma_list();
        }
        let inner = self.list.debug_string(alternate);
        let ghost texts = choose|texts: Seq<Seq<char>>|
            texts.len() == self@.len() && inner@ == listing(
                "XorList("@,
                texts,
                self.list().slot_order(),
                alternate,
            );
        let mut out = String::new();
        if alternate {
            out.append("IntoIter(\n");
            let mut body = inner;
            body.append(",\n");
            push_indented(&mut out, body.as_str());
        } else {
            out.append("IntoIter(");
            out.append(inner.as_str());
        }
        out.append(")");
        proof {
            let want = if alternate {
                "IntoIter(\n"@ + indented(
                    listing("XorList("@, texts, self.list().slot_order(), true) + ",\n"@,
                ) + ")"@
            } else {
                "IntoIter("@ + listing("XorList("@, texts, self.list().slot_order(), false)
                    + ")"@
            };
            assert(out@ =~= want);
        }
        out
    }
}

} // verus!
