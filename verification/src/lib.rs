//! Extraction and combination of a source file's own module-level
//! documentation.
//!
//! A Rust source file can document the module it forms with inner doc
//! comments: `//!` lines, `/*! ... */` blocks, and `#![doc = "..."]`
//! attributes.  This crate scans the leading inner-annotation region of a
//! file's text, collects those documentation fragments in source order, and
//! joins them into one string; a combiner does the same for an ordered list
//! of files, separating each file's contribution with a blank line and
//! skipping files that contribute nothing.  A text that is not a
//! well-formed source file is an error, never silently empty output: each
//! text is also handed whole to the reference parser, and its verdict
//! gates the result.
//!
//! The behaviour of every function is stated in its contract and verified:
//! the executable scanner in [`extract`] computes exactly the specification
//! functions of [`model`], the combiner in [`combine`] is exact over those,
//! and [`laws`] proves the properties that hold across calls.  Only the
//! reference parser's verdict is taken on trust.

pub mod combine;
pub mod extract;
pub mod laws;
pub mod model;

pub use combine::{combine_docs, CombineError, SourceUnit};
pub use extract::{extract_inner_docs, ExtractError};
pub use model::ParseError;
