//! Laws of the dictionary and of the scan, stated over the model.
//!
//! Each law is a consequence of the definitions in [`crate::model`]; the
//! contracts of [`crate::LabelMaker`] tie the executable automaton to the same
//! definitions, so the laws hold of what the automaton returns.

use vstd::prelude::*;
use crate::automaton::LabelMaker;
use crate::model::{
    after_insert, insert_outcome, is_known_prefix, labelled_at, lemma_state_is_suffix, occurs_in,
    scan_label, state_after, Dictionary, InsertOutcome,
};

verus! {

/// The state of a scan is the longest suffix of the consumed text that is
/// empty or begins some pattern: it is such a suffix, and no such suffix `t`
/// is longer.
pub proof fn law_state_is_longest_known_suffix(dict: Dictionary, s: Seq<u8>, t: Seq<u8>)
    ensures
        state_after(dict, s).is_suffix_of(s),
        state_after(dict, s).len() == 0 || is_known_prefix(dict, state_after(dict, s)),
        t.is_suffix_of(s) && (t.len() == 0 || is_known_prefix(dict, t)) ==> t.len()
            <= state_after(dict, s).len(),
    decreases s.len(),
{
    lemma_state_is_suffix(dict, s);
    if !(s.len() == 0 || is_known_prefix(dict, s)) {
        let rest = s.drop_first();
        law_state_is_longest_known_suffix(dict, rest, t);
        if t.is_suffix_of(s) && (t.len() == 0 || is_known_prefix(dict, t)) {
            if t.len() == s.len() {
                assert(t =~= s);
            }
            assert(t =~= rest.subrange(rest.len() - t.len(), rest.len() as int));
        }
    }
}

/// A pattern of the dictionary that has at least one byte, scanned on its
/// own, gets its label.
pub proof fn law_pattern_alone_gets_its_label(dict: Dictionary, pattern: Seq<u8>)
    requires
        dict.dom().contains(pattern),
        pattern.len() > 0,
    ensures
        scan_label(dict, pattern) == Some(dict[pattern]),
{
    assert(pattern.is_prefix_of(pattern));
    assert(is_known_prefix(dict, pattern));
}

/// Inserting a pattern a second time with the label it has is accepted and
/// leaves the dictionary as the first insertion made it.
pub proof fn law_same_insertion_twice(dict: Dictionary, pattern: Seq<u8>, label: Seq<char>)
    requires
        insert_outcome(dict, false, pattern, label) is Accepted,
    ensures
        insert_outcome(after_insert(dict, false, pattern, label), false, pattern, label)
            is Accepted,
        after_insert(after_insert(dict, false, pattern, label), false, pattern, label)
            == after_insert(dict, false, pattern, label),
{
    let once = dict.insert(pattern, label);
    assert(once.insert(pattern, label) =~= once);
}

/// Inserting a pattern a second time with another label is a conflict, and
/// the first label stays.
pub proof fn law_other_label_conflicts(
    dict: Dictionary,
    pattern: Seq<u8>,
    first: Seq<char>,
    second: Seq<char>,
)
    requires
        insert_outcome(dict, false, pattern, first) is Accepted,
        first != second,
    ensures
        insert_outcome(after_insert(dict, false, pattern, first), false, pattern, second)
            is LabelConflict,
        after_insert(after_insert(dict, false, pattern, first), false, pattern, second)[pattern]
            == first,
{
}

/// A finalized automaton turns every insertion down, whatever is inserted,
/// and keeps its dictionary.
pub proof fn law_finalized_takes_nothing(dict: Dictionary, pattern: Seq<u8>, label: Seq<char>)
    ensures
        insert_outcome(dict, true, pattern, label) is AlreadyFinalized,
        after_insert(dict, true, pattern, label) == dict,
{
}

/// Where no pattern of the dictionary occurs in the text, the scan finds no
/// label.
pub proof fn law_no_occurrence_no_label(dict: Dictionary, text: Seq<u8>)
    requires
        forall|p: Seq<u8>| #[trigger] dict.dom().contains(p) ==> !occurs_in(p, text),
    ensures
        scan_label(dict, text) is None,
    decreases text.len(),
{
    if text.len() > 0 {
        let state = state_after(dict, text);
        lemma_state_is_suffix(dict, text);
        assert(occurs_in(state, text)) by {
            assert(text.subrange(text.len() - state.len(), text.len() as int) == state);
        }
        let shorter = text.drop_last();
        assert forall|p: Seq<u8>| #[trigger] dict.dom().contains(p) implies !occurs_in(
            p,
            shorter,
        ) by {
            if occurs_in(p, shorter) {
                let (i, j) = choose|i: int, j: int|
                    0 <= i <= j <= shorter.len() && #[trigger] shorter.subrange(i, j) == p;
                assert(text.subrange(i, j) =~= shorter.subrange(i, j));
            }
        }
        law_no_occurrence_no_label(dict, shorter);
    }
}

/// The scan of the empty text finds no label, whatever the dictionary holds.
pub proof fn law_empty_text_no_label(dict: Dictionary)
    ensures
        scan_label(dict, Seq::<u8>::empty()) is None,
{
}

/// The last match wins: the scan reports the label of the last position at
/// which its state is a pattern, and no label where there is no such
/// position.  An earlier match is forgotten, be it longer or not.
pub proof fn law_last_labelled_state_wins(dict: Dictionary, text: Seq<u8>)
    ensures
        match scan_label(dict, text) {
            Some(label) => exists|k: int|
                {
                    &&& #[trigger] labelled_at(dict, text, k)
                    &&& label == dict[state_after(dict, text.take(k))]
                    &&& forall|j: int| k < j ==> !labelled_at(dict, text, j)
                },
            None => forall|k: int| !labelled_at(dict, text, k),
        },
    decreases text.len(),
{
    if text.len() > 0 {
        let n = text.len() as int;
        assert(text.take(n) =~= text);
        if dict.dom().contains(state_after(dict, text)) {
            assert(labelled_at(dict, text, n));
        } else {
            let shorter = text.drop_last();
            law_last_labelled_state_wins(dict, shorter);
            assert forall|k: int| 0 < k < n implies shorter.take(k) == text.take(k) by {
                assert(shorter.take(k) =~= text.take(k));
            }
            assert forall|k: int| labelled_at(dict, text, k) == labelled_at(dict, shorter, k) by {
                if 0 < k < n {
                    assert(shorter.take(k) == text.take(k));
                }
            }
            if scan_label(dict, shorter) is Some {
                let k = choose|k: int|
                    {
                        &&& #[trigger] labelled_at(dict, shorter, k)
                        &&& scan_label(dict, shorter)->0 == dict[state_after(
                            dict,
                            shorter.take(k),
                        )]
                        &&& forall|j: int| k < j ==> !labelled_at(dict, shorter, j)
                    };
                assert(shorter.take(k) == text.take(k));
                assert(labelled_at(dict, text, k));
            }
        }
    }
}

/// The label that a scan finds belongs to a pattern that occurs in the text.
pub proof fn law_label_has_occurrence(dict: Dictionary, text: Seq<u8>)
    requires
        scan_label(dict, text) is Some,
    ensures
        exists|p: Seq<u8>|
            #[trigger] dict.dom().contains(p) && occurs_in(p, text) && dict[p] == scan_label(
                dict,
                text,
            )->0,
    decreases text.len(),
{
    let state = state_after(dict, text);
    if dict.dom().contains(state) {
        lemma_state_is_suffix(dict, text);
        assert(text.subrange(text.len() - state.len(), text.len() as int) == state);
        assert(occurs_in(state, text));
    } else {
        let shorter = text.drop_last();
        law_label_has_occurrence(dict, shorter);
        let p = choose|p: Seq<u8>|
            #[trigger] dict.dom().contains(p) && occurs_in(p, shorter) && dict[p] == scan_label(
                dict,
                shorter,
            )->0;
        let (i, j) = choose|i: int, j: int|
            0 <= i <= j <= shorter.len() && #[trigger] shorter.subrange(i, j) == p;
        assert(text.subrange(i, j) =~= shorter.subrange(i, j));
        assert(occurs_in(p, text));
    }
}

/// Two automata that hold the same dictionary answer every scan alike,
/// however their nodes were laid out and in whatever order the patterns came.
pub proof fn law_answer_depends_on_dictionary_alone(
    a: &LabelMaker,
    b: &LabelMaker,
    text: Seq<u8>,
)
    requires
        a@ == b@,
    ensures
        scan_label(a@, text) == scan_label(b@, text),
{
}

} // verus!
