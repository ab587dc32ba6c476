# xorlist_rs

A doubly-linked list whose nodes live in the slots of one `Vec` and store
both links folded into a single self-relative XOR word, verified with Verus.

Every public operation carries a contract over a mathematical model: the
elements as a `Seq<T>`, the slot of each element (`slot_order`), the dirty
slots waiting for reuse (`dirty_slots`), the buffer length and the occupant
of each slot. Slots returned by pushes are stable handles, and the contracts
say exactly which slot a push fills and which slots a pop, split, append,
clear or compaction leaves behind.

## Layout

- `src/link.rs` — the link word `(prev - curr) ^ (next - curr)` and the
  lemmas that decode it and show it survives relocation.
- `src/raw.rs` — the representation (`RawList`): nodes, dirty slots,
  head/tail, and a ghost traversal order; its invariant and all the walking
  and relinking code with their proofs.
- `src/list.rs` — `XorList`, the public list type, with its type invariant
  and contracts.
- `src/cursor.rs`, `src/iter.rs` — cursors and the three iterators.
- `src/traits.rs` — `Clone`, `PartialEq`, `PartialOrd`, ordering, `Hash`
  and conversions.
- `src/debug.rs` — debug listings (`debug_string`) with the element's text
  and slot for each entry.
- `src/laws.rs` — properties that span several operations.
- `tests/` — executable tests.
