//! A map of non-overlapping ranges over `u32` keys to values.
//!
//! Stored ranges are kept maximal: two stored ranges that touch and carry
//! equal values are always merged into one. Endpoints may be inclusive,
//! exclusive or unbounded.

pub mod bounds;
pub mod coverage;
mod engine;
pub mod iterators;
pub mod laws;
pub mod map;
pub mod range;
pub mod render;
pub mod values;

pub use bounds::Bound;
pub use iterators::Gaps;
pub use iterators::GapsIn;
pub use iterators::IntoIter;
pub use iterators::Iter;
pub use iterators::Ranges;
pub use iterators::Values;
pub use map::RangeMap;
pub use range::EmptyRangeError;
pub use range::Range;
pub use values::ValueEq;
