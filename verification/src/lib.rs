//! Correlates byte ranges of source files with the labels that are active over
//! them: marks go in as `(range, label)` pairs in any order, and come out as the
//! canonical partition into maximal ranges of constant label set.
//!
//! - [`partition`] says what the partition of a profile is, and that there is
//!   one only; [`mark`] says what the profile of a set of marks is, and what
//!   follows for its partition.
//! - [`citation::rangemap`] keeps marks in memory as their boundaries and
//!   sweeps them into the partition.
//! - [`schema`], [`marker`], [`region`], [`report`] and [`notification`] are
//!   the same for a store of ordered keys that merges by appending: the keys
//!   and records as they are stored, the sweep over the rows of a file, and
//!   the index in which every label finds its ranges. The store itself is not
//!   part of the library: these modules say what to write and make sense of
//!   what was read.
//! - [`linemap`], [`source`], [`fs`] and [`text`] find lines and columns in
//!   texts; [`analysis`], [`citation`], [`ietf`], [`export`], [`coverage`],
//!   [`rust_source`] and [`html`] are what finds marks and what makes use of
//!   the partition.

pub mod analysis;
pub mod attribute;
pub mod citation;
pub mod coverage;
pub mod error;
pub mod export;
pub mod former;
pub mod fs;
pub mod html;
pub mod ietf;
pub mod linemap;
pub mod manifest;
pub mod mark;
pub mod marker;
pub mod notification;
pub mod partition;
pub mod project;
pub mod region;
pub mod report;
pub mod rust_source;
pub mod schema;
pub mod source;
pub mod text;
