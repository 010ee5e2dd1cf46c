//! Bounded-grid traversal primitives on a fixed-width unsigned grid.
//!
//! A [`Rect`] is an axis-aligned rectangle given by its origin and extents on
//! the `u16` grid. [`Rows`] and [`Columns`] enumerate its unit-height rows and
//! unit-width columns from either end, meeting in the middle; [`Positions`]
//! enumerates every cell in row-major order. Every cursor advance is proved
//! free of wraparound, even at the largest representable coordinate, and each
//! remaining-count query carries a proof of the conditions under which it is
//! exact.

pub mod columns;
pub mod positions;
pub mod rect;
pub mod rows;

pub use columns::Columns;
pub use positions::Positions;
pub use rect::Position;
pub use rect::Rect;
pub use rows::Rows;
