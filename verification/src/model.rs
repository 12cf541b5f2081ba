//! The mathematical model: what a dictionary of patterns says about a text.
//!
//! Nothing here mentions nodes, edges or failure links.  A dictionary is a map
//! from patterns to labels, the state of a scan is a byte string, and the
//! label of a scan is read off the states it passes through.

use vstd::prelude::*;
use vstd::string::StringSliceAdditionalSpecFns;

verus! {

/// A dictionary maps each pattern (a byte string) to its label.
pub type Dictionary = Map<Seq<u8>, Seq<char>>;

/// `p` is the beginning of at least one pattern of `dict`.
pub open spec fn is_known_prefix(dict: Dictionary, p: Seq<u8>) -> bool {
    exists|q: Seq<u8>| #[trigger] dict.dom().contains(q) && p.is_prefix_of(q)
}

/// The state of a scan that has consumed `s`: the longest suffix of `s` that
/// begins some pattern, or the empty string when no suffix does.
pub open spec fn state_after(dict: Dictionary, s: Seq<u8>) -> Seq<u8>
    decreases s.len(),
{
    if s.len() == 0 || is_known_prefix(dict, s) {
        s
    } else {
        state_after(dict, s.drop_first())
    }
}

/// The label reported for `text`: the label of the last position, counted from
/// the first byte on, at which the state of the scan is itself a pattern.
/// No byte, no label.
pub open spec fn scan_label(dict: Dictionary, text: Seq<u8>) -> Option<Seq<char>>
    decreases text.len(),
{
    if text.len() == 0 {
        None
    } else if dict.dom().contains(state_after(dict, text)) {
        Some(dict[state_after(dict, text)])
    } else {
        scan_label(dict, text.drop_last())
    }
}

/// `dict` already holds `pattern`, under a label other than `label`.
pub open spec fn conflicts(dict: Dictionary, pattern: Seq<u8>, label: Seq<char>) -> bool {
    dict.dom().contains(pattern) && dict[pattern] != label
}

/// What becomes of an insertion.
pub enum InsertOutcome {
    /// The pattern is in the dictionary under the given label from now on.
    Accepted,
    /// The automaton is finalized and takes no pattern.
    AlreadyFinalized,
    /// The pattern is in the dictionary under another label, which stays.
    LabelConflict,
}

/// What becomes of inserting `pattern` with `label` into `dict`, depending on
/// whether the automaton is finalized.
pub open spec fn insert_outcome(
    dict: Dictionary,
    finalized: bool,
    pattern: Seq<u8>,
    label: Seq<char>,
) -> InsertOutcome {
    if finalized {
        InsertOutcome::AlreadyFinalized
    } else if conflicts(dict, pattern, label) {
        InsertOutcome::LabelConflict
    } else {
        InsertOutcome::Accepted
    }
}

/// The dictionary after inserting `pattern` with `label` into `dict`: with the
/// new entry where the insertion is accepted, as it was where it is not.
pub open spec fn after_insert(
    dict: Dictionary,
    finalized: bool,
    pattern: Seq<u8>,
    label: Seq<char>,
) -> Dictionary {
    if insert_outcome(dict, finalized, pattern, label) is Accepted {
        dict.insert(pattern, label)
    } else {
        dict
    }
}

/// A pattern with its label.
pub type Entry = (Seq<u8>, Seq<char>);

/// The dictionary that is left when `entries` are inserted one after another,
/// from the first on, into an empty automaton that is not finalized.
pub open spec fn dictionary_of(entries: Seq<Entry>) -> Dictionary
    decreases entries.len(),
{
    if entries.len() == 0 {
        Map::empty()
    } else {
        after_insert(
            dictionary_of(entries.drop_last()),
            false,
            entries.last().0,
            entries.last().1,
        )
    }
}

/// The entries of a build as the model sees them: each pattern by its bytes,
/// each label by its characters.
pub open spec fn entries_view(entries: Seq<(&str, &str)>) -> Seq<Entry> {
    Seq::new(entries.len(), |k: int| (entries[k].0.spec_bytes(), entries[k].1@))
}

/// Entry `k` of `entries` conflicts with an entry before it.
pub open spec fn conflict_at(entries: Seq<Entry>, k: int) -> bool {
    0 <= k < entries.len() && conflicts(
        dictionary_of(entries.take(k)),
        entries[k].0,
        entries[k].1,
    )
}

/// Entry `k` of `entries` is the first that conflicts with an entry before it.
pub open spec fn is_first_conflict(entries: Seq<Entry>, k: int) -> bool {
    conflict_at(entries, k) && forall|j: int| 0 <= j < k ==> !conflict_at(entries, j)
}

/// After the first `k` bytes of `text`, with `k` at least one, the state of
/// the scan is a pattern of `dict`.
pub open spec fn labelled_at(dict: Dictionary, text: Seq<u8>, k: int) -> bool {
    0 < k <= text.len() && dict.dom().contains(state_after(dict, text.take(k)))
}

/// `pattern` occurs somewhere in `text`.
pub open spec fn occurs_in(pattern: Seq<u8>, text: Seq<u8>) -> bool {
    exists|i: int, j: int| 0 <= i <= j <= text.len() && #[trigger] text.subrange(i, j) == pattern
}

/// An optional label as the contracts see it: by its characters.
pub open spec fn label_view(label: Option<String>) -> Option<Seq<char>> {
    match label {
        Some(l) => Some(l@),
        None => None,
    }
}

/// A prefix of a known prefix is a known prefix.
pub proof fn lemma_known_prefix_closed(dict: Dictionary, p: Seq<u8>, k: int)
    requires
        is_known_prefix(dict, p),
        0 <= k <= p.len(),
    ensures
        is_known_prefix(dict, p.take(k)),
{
    let q = choose|q: Seq<u8>| #[trigger] dict.dom().contains(q) && p.is_prefix_of(q);
    assert(p.take(k).is_prefix_of(q));
}

/// The state is never longer than what was consumed.
pub proof fn lemma_state_len(dict: Dictionary, s: Seq<u8>)
    ensures
        state_after(dict, s).len() <= s.len(),
    decreases s.len(),
{
    if !(s.len() == 0 || is_known_prefix(dict, s)) {
        lemma_state_len(dict, s.drop_first());
    }
}

/// The state is a suffix of what was consumed.
pub proof fn lemma_state_is_suffix(dict: Dictionary, s: Seq<u8>)
    ensures
        state_after(dict, s).is_suffix_of(s),
    decreases s.len(),
{
    if !(s.len() == 0 || is_known_prefix(dict, s)) {
        lemma_state_is_suffix(dict, s.drop_first());
        let t = state_after(dict, s);
        assert(t =~= s.subrange(s.len() - t.len(), s.len() as int));
    } else {
        assert(s =~= s.subrange(0, s.len() as int));
    }
}

/// The next state depends on the consumed text only through the current
/// state: consuming `b` after `s` leads where consuming `b` after the state
/// of `s` leads.
pub proof fn lemma_state_step(dict: Dictionary, s: Seq<u8>, b: u8)
    ensures
        state_after(dict, s.push(b)) == state_after(dict, state_after(dict, s).push(b)),
    decreases s.len(),
{
    if !(s.len() == 0 || is_known_prefix(dict, s)) {
        if is_known_prefix(dict, s.push(b)) {
            lemma_known_prefix_closed(dict, s.push(b), s.len() as int);
            assert(s.push(b).take(s.len() as int) =~= s);
        }
        assert(s.push(b).drop_first() =~= s.drop_first().push(b));
        lemma_state_step(dict, s.drop_first(), b);
    }
}

} // verus!
