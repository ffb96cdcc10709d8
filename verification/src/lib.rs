//! Reuse-distance analysis of affine loop nests.
//!
//! A loop nest with its array references is walked in program order; each
//! access is mapped to a cache line, and the number of distinct lines touched
//! since the previous access to the same line is tallied in a histogram.
//!
//! - [`nest`] and [`affine`] describe the loops and the accesses of their body;
//! - [`walker`] defines the iteration points of a nest and the lines they
//!   touch, and [`cursor`] hands the points out one at a time;
//! - [`address`] places the arrays and maps an access to its cache line;
//! - [`reuse`] defines the reuse distance of a trace, [`fenwick`] and
//!   [`tracker`] compute it access by access;
//! - [`histogram`] counts the outcomes;
//! - [`trace`] and [`bench`] put the pieces together.

pub mod address;
pub mod affine;
pub mod bench;
pub mod cursor;
pub mod fenwick;
pub mod histogram;
pub mod nest;
pub mod reuse;
pub mod square;
pub mod text;
pub mod trace;
pub mod tracker;
pub mod walker;

pub use crate::bench::{perform_matrix_operations, trace_polybench};
pub use crate::trace::trace_histogram;
