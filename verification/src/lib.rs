//! Backend core of an interactive tabular-data viewer.
//!
//! The library keeps an immutable original table and a derived current view,
//! and lets a caller progressively sort, filter, group, and reset the view.
//! Its heart is the recursive boolean-mask evaluator over a tree of
//! user-defined filter conditions, together with the state transitions that
//! relate the original table, the current view, and an optional grouping
//! descriptor.
//!
//! Cells are modeled as null or text, and the numeric-first comparison
//! policy works on exact decimal values read from that text: a condition
//! value that parses as a decimal number is compared numerically, with no
//! rounding, and anything else falls back to lexicographic order. The
//! number grammar covers plain decimal forms only — exponent notation and
//! the special floating-point words are not numbers here and take the
//! lexicographic path.

pub mod error;
pub mod filter;
pub mod group;
pub mod laws;
pub mod num;
pub mod sort;
pub mod text;
pub mod state;
pub mod table;
