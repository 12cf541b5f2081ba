//! Scanning: the step of the automaton, and the scan that is made of steps.

use vstd::prelude::*;
use vstd::string::StringSliceAdditionalSpecFns;
use crate::automaton::LabelMaker;
use crate::error::LabelError;
use crate::model::{
    is_known_prefix, label_view, lemma_state_len, lemma_state_step, scan_label, state_after,
};

verus! {

impl LabelMaker {
    /// One step of the automaton: from node `from`, consume `byte`.
    ///
    /// Falls back along failure links until an edge for `byte` is found or the
    /// root is reached, then takes the edge if there is one.
    pub(super) fn advance(&self, from: usize, byte: u8) -> (next: usize)
        requires
            self.shape_ok(),
            self.labels_ok(),
            self.paths_known(),
            from < self.node_count(),
            self.links_ok_upto(self.path(from as int).len() as int),
        ensures
            next < self.node_count(),
            self.path(next as int) == state_after(self@, self.path(from as int).push(byte)),
    {
        let mut cursor = from;
        while cursor != 0 && self.nodes[cursor].children[byte as usize].is_none()
            invariant
                self.shape_ok(),
                self.labels_ok(),
                self.paths_known(),
                cursor < self.node_count(),
                self.path(cursor as int).len() <= self.path(from as int).len(),
                self.links_ok_upto(self.path(from as int).len() as int),
                state_after(self@, self.path(cursor as int).push(byte)) == state_after(
                    self@,
                    self.path(from as int).push(byte),
                ),
            decreases self.path(cursor as int).len(),
        {
            proof {
                let p = self.path(cursor as int);
                self.lemma_path_not_empty(cursor as int);
                self.lemma_missing_edge(cursor as int, byte);
                assert(self.fail_ok(cursor as int));
                assert(p.push(byte).drop_first() =~= p.drop_first().push(byte));
                lemma_state_step(self@, p.drop_first(), byte);
                lemma_state_len(self@, p.drop_first());
            }
            cursor = self.nodes[cursor].fail.unwrap();
        }
        match self.nodes[cursor].children[byte as usize] {
            Some(child) => {
                proof {
                    assert(self.child(cursor as int, byte) == Some(child));
                    assert(self.path(child as int) == self.path(cursor as int).push(byte));
                    assert(is_known_prefix(self@, self.path(child as int)));
                }
                child
            },
            None => {
                proof {
                    assert(cursor == 0);
                    self.lemma_missing_edge(0, byte);
                    let one = self.path(0).push(byte);
                    assert(one.drop_first() =~= self.path(0));
                    assert(state_after(self@, one) == state_after(self@, one.drop_first()));
                    assert(state_after(self@, self.path(0)) == self.path(0));
                }
                cursor
            },
        }
    }

    /// Scans the bytes of `text` from left to right and returns the label of
    /// the last labelled node that the scan entered, if it entered any.
    ///
    /// The scan starts at the root and enters a node with every byte it
    /// consumes; the root, where it starts, counts only when a byte leads
    /// back to it.  So the empty text has no label.
    pub fn categorize_bytes(&self, text: &[u8]) -> (res: Option<String>)
        requires
            self.wf(),
            self.is_finalized(),
        ensures
            label_view(res) == scan_label(self@, text@),
    {
        let mut cursor: usize = 0;
        let mut found: Option<String> = None;
        let mut i: usize = 0;
        while i < text.len()
            invariant
                self.wf(),
                self.is_finalized(),
                i <= text.len(),
                cursor < self.node_count(),
                self.path(cursor as int) == state_after(self@, text@.take(i as int)),
                label_view(found) == scan_label(self@, text@.take(i as int)),
            decreases text.len() - i,
        {
            let byte = text[i];
            proof {
                let seen = text@.take(i as int);
                lemma_state_step(self@, seen, byte);
                assert(text@.take(i + 1) =~= seen.push(byte));
                assert(seen.push(byte).drop_last() =~= seen);
            }
            cursor = self.advance(cursor, byte);
            match &self.nodes[cursor].label {
                Some(label) => {
                    found = Some(label.clone());
                },
                None => {},
            }
            i += 1;
        }
        proof {
            assert(text@.take(text.len() as int) =~= text@);
        }
        found
    }

    /// Scans `text`, byte by byte, and returns the label of the last labelled
    /// node that the scan entered, if it entered any.
    ///
    /// To call this before [`LabelMaker::finalize`] is a programming error,
    /// which the precondition rules out; [`LabelMaker::try_categorize`]
    /// reports it as an error instead.
    pub fn categorize(&self, text: &str) -> (res: Option<String>)
        requires
            self.wf(),
            self.is_finalized(),
        ensures
            label_view(res) == scan_label(self@, text.spec_bytes()),
    {
        self.categorize_bytes(text.as_bytes())
    }

    /// Scans `text` like [`LabelMaker::categorize`], and reports an automaton
    /// that has not been finalized instead of demanding a finalized one.
    pub fn try_categorize(&self, text: &str) -> (res: Result<Option<String>, LabelError>)
        requires
            self.wf(),
        ensures
            match res {
                Ok(found) => self.is_finalized() && label_view(found) == scan_label(
                    self@,
                    text.spec_bytes(),
                ),
                Err(e) => !self.is_finalized() && e is NotFinalized,
            },
    {
        if self.finalized {
            Ok(self.categorize(text))
        } else {
            Err(LabelError::NotFinalized)
        }
    }
}

} // verus!
