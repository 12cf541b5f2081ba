//! A single-label multi-pattern matcher over raw bytes.
//!
//! A [`LabelMaker`] is filled with `(pattern, label)` pairs, frozen once with
//! [`LabelMaker::finalize`], and then asked to categorize texts: a scan runs
//! over the bytes of a text and reports the label of the match that ends
//! last.
//!
//! * [`model`] says what a scan reports, over the dictionary alone.
//! * [`automaton`] holds the trie with its failure links, and proves that
//!   inserting, finalizing and scanning do what the model says.
//! * [`laws`] states what follows for every dictionary and every text.
//! * [`node`] and [`error`] hold the vertex of the trie and the errors.

pub mod automaton;
pub mod error;
pub mod laws;
pub mod model;
pub mod node;

pub use crate::automaton::LabelMaker;
pub use crate::error::LabelError;
