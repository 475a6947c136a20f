//! A segment tree over a monoid: point updates, range folds and boundary
//! searches in logarithmic time, with every operation verified against the
//! sequence of items that the tree stands for.
//!
//! - [`monoid`]: the [`Monoid`] trait with its laws, and [`AddU64`].
//! - [`reduction`]: what it means to reduce a sequence, or a range of it.
//! - [`tree`]: [`SegTree`], its construction, `get`, `set` and `fold`.
//! - [`search`]: `max_end` and `min_start`.
//! - [`laws`]: how the operations relate to each other.

pub mod monoid;
pub mod reduction;
pub mod tree;
pub mod search;
pub mod laws;

pub use monoid::{AddU64, Monoid};
pub use tree::SegTree;
