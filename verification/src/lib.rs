//! The part of an axis-aligned rectangle that a set of obstructing rectangles
//! leaves free, as a list of rectangles.
//!
//! `Rect::unobstructed_rects` sweeps the columns of the base rectangle from
//! left to right. At each column where an obstruction starts or has just
//! ended it takes the free intervals of that column, closes the growing
//! sections that are no longer free, and starts new ones. The modules follow
//! the sweep: `rect` holds the rectangle, `sweep` the obstructions that
//! matter, the sweep columns and the free intervals of a column, `tracker`
//! the growing sections and the step between two columns, `decompose` the
//! sweep and the proof of what it returns, and `laws` what follows from that.

pub mod decompose;
pub mod laws;
pub mod rect;
pub mod sweep;
pub mod tracker;
