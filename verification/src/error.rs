//! What can go wrong while a dictionary is built or queried.

use vstd::prelude::*;

verus! {

/// The ways in which a call on a [`crate::LabelMaker`] is turned down.
#[derive(Debug, PartialEq, Eq)]
pub enum LabelError {
    /// An insertion was attempted after the automaton had been finalized.
    AlreadyFinalized,
    /// A scan was attempted before the automaton had been finalized.
    NotFinalized,
    /// The pattern is already in the dictionary under another label.
    LabelConflict {
        /// The pattern whose insertion was turned down.
        pattern: String,
        /// The label that the turned-down insertion carried.
        label: String,
        /// The label that the dictionary holds for the pattern.
        existing: String,
    },
}

impl LabelError {
    /// This is the conflict between `label`, offered for `pattern`, and the
    /// label `existing` that the dictionary holds.
    pub open spec fn is_conflict_of(
        &self,
        pattern: Seq<char>,
        label: Seq<char>,
        existing: Seq<char>,
    ) -> bool {
        self matches LabelError::LabelConflict { pattern: p, label: l, existing: e } && p@
            == pattern && l@ == label && e@ == existing
    }
}

} // verus!
