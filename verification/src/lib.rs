//! A doubly-linked list that packs both links of every node into a single
//! word, backed by a single `Vec` instead of per-node allocations.

pub mod cursor;
pub mod debug;
pub mod iter;
pub mod laws;
pub mod link;
pub mod list;
mod raw;
pub mod traits;

pub use cursor::{Cursor, CursorMut};
pub use iter::{IntoIter, Iter, IterMut};
pub use link::NIL;
pub use list::XorList;
