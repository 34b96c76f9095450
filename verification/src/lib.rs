//! A verified editing core for a closed, cyclic piecewise-cubic boundary.
//!
//! The crate keeps an editable cyclic control polygon together with the
//! piecewise-cubic curve derived from it, answers nearest-segment and
//! nearest-handle queries with exact integer arithmetic, and reads and
//! writes the whole aggregate in a small self-describing text format.
//! All coordinates are integers within [`geom::COORD_LIMIT`]; an embedding
//! application chooses the unit scale.

pub mod codec;
pub mod curve;
pub mod editor;
pub mod geom;
pub mod num;
pub mod timeline;
