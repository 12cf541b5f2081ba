//! Insertion: walking the trie along a pattern, growing it where it ends,
//! and labelling the node where the pattern ends.

use vstd::prelude::*;
use vstd::string::StringSliceAdditionalSpecFns;
use crate::automaton::LabelMaker;
use crate::error::LabelError;
use crate::model::{after_insert, insert_outcome, is_known_prefix, InsertOutcome};
use crate::node::Node;

verus! {

impl LabelMaker {
    /// Every node but the root lies on the way to some pattern or to `extra`.
    spec fn paths_known_or(&self, extra: Seq<u8>) -> bool {
        forall|n: int|
            0 < n < self.node_count() ==> is_known_prefix(self@, #[trigger] self.path(n))
                || self.path(n).is_prefix_of(extra)
    }

    /// Where every node lies on the way to a pattern or to `extra`, and
    /// `extra` is a pattern, every node lies on the way to a pattern.
    proof fn lemma_all_known_with(&self, extra: Seq<u8>)
        requires
            self@.dom().contains(extra),
            self.paths_known_or(extra),
        ensures
            self.paths_known(),
    {
    }

    /// Adds a blank child to node `at` under byte `b`, and returns its index.
    fn grow(&mut self, at: usize, b: u8) -> (fresh: usize)
        requires
            old(self).shape_ok(),
            old(self).labels_ok(),
            old(self).links_absent(),
            at < old(self).node_count(),
            old(self).child(at as int, b) is None,
        ensures
            final(self).shape_ok(),
            final(self).labels_ok(),
            final(self).links_absent(),
            final(self)@ == old(self)@,
            final(self).spec_is_finalized() == old(self).spec_is_finalized(),
            final(self).node_count() == old(self).node_count() + 1,
            fresh == old(self).node_count(),
            final(self).path(fresh as int) == old(self).path(at as int).push(b),
            forall|i: int|
                0 <= i < old(self).node_count() ==> #[trigger] final(self).path(i) == old(
                    self,
                ).path(i),
    {
        let fresh = self.nodes.len();
        let ghost before = *self;
        let ghost grown = before.path(at as int).push(b);
        proof {
            before.lemma_no_edge_no_node(at as int, b);
            before.lemma_missing_edge(at as int, b);
        }
        self.nodes.push(Node::new());
        self.nodes[at].children[b as usize] = Some(fresh);
        self.paths = Ghost(self.paths@.push(grown));
        self.parents = Ghost(self.parents@.push(at as int));
        proof {
            assert forall|i: int| 0 <= i < before.node_count() implies #[trigger] self.path(i)
                == before.path(i) by {}
            assert forall|i: int, c: u8|
                0 <= i < before.node_count() && !(i == at && c == b) implies #[trigger] self.child(
                i,
                c,
            ) == before.child(i, c) by {}
            assert forall|c: u8| #[trigger] self.child(fresh as int, c) is None by {}
            assert forall|i: int| 0 <= i < self.node_count() implies #[trigger] self.link(i)
                is None by {
                if i < before.node_count() {
                    assert(before.link(i) is None);
                }
            }
            assert(self.child(at as int, b) == Some(fresh));
            assert forall|i: int| 0 <= i < before.node_count() implies #[trigger] self.path(i)
                != grown by {
                assert(before.path(i) == self.path(i));
            }
            assert forall|q: Seq<u8>| #[trigger] self@.dom().contains(q) implies self.has_node(
                q,
            ) by {
                assert(before.has_node(q));
                let w = choose|w: int|
                    0 <= w < before.node_count() && #[trigger] before.path(w) == q;
                assert(self.path(w) == q);
            }
            assert(!self@.dom().contains(grown)) by {
                if self@.dom().contains(grown) {
                    assert(grown.is_prefix_of(grown));
                }
            }
        }
        fresh
    }

    /// Walks from the root along `bytes`, adds the nodes that are missing on
    /// the way, and returns the node where the walk ends.
    fn descend(&mut self, bytes: &[u8]) -> (end: usize)
        requires
            old(self).shape_ok(),
            old(self).labels_ok(),
            old(self).paths_known(),
            old(self).links_absent(),
        ensures
            final(self).shape_ok(),
            final(self).labels_ok(),
            final(self).paths_known_or(bytes@),
            final(self).links_absent(),
            old(self).kept_in(final(self)),
            old(self).grown_along(final(self), bytes@),
            old(self).has_node(bytes@) ==> final(self).node_count() == old(self).node_count(),
            final(self)@ == old(self)@,
            final(self).spec_is_finalized() == old(self).spec_is_finalized(),
            end < final(self).node_count(),
            final(self).path(end as int) == bytes@,
    {
        let mut cur: usize = 0;
        let mut i: usize = 0;
        while i < bytes.len()
            invariant
                self.shape_ok(),
                self.labels_ok(),
                self.paths_known_or(bytes@),
                self.links_absent(),
                old(self).kept_in(self),
                old(self).grown_along(self, bytes@),
                old(self).has_node(bytes@) ==> self.node_count() == old(self).node_count(),
                self.finalized == old(self).finalized,
                self@ == old(self)@,
                i <= bytes.len(),
                cur < self.node_count(),
                self.path(cur as int) == bytes@.take(i as int),
            decreases bytes.len() - i,
        {
            let b = bytes[i];
            proof {
                assert(bytes@.take(i + 1) =~= bytes@.take(i as int).push(b));
                assert(bytes@.take(i + 1).is_prefix_of(bytes@));
            }
            match self.nodes[cur].children[b as usize] {
                Some(child) => {
                    assert(self.child(cur as int, b) == Some(child));
                    cur = child;
                },
                None => {
                    let ghost before = *self;
                    proof {
                        if old(self).has_node(bytes@) {
                            let w = choose|w: int|
                                0 <= w < old(self).node_count() && #[trigger] old(self).path(w)
                                    == bytes@;
                            assert(self.path(w) == bytes@);
                            self.lemma_prefix_has_node(w, i + 1);
                            self.lemma_no_edge_no_node(cur as int, b);
                        }
                    }
                    cur = self.grow(cur, b);
                    proof {
                        assert forall|n: int| 0 < n < self.node_count() implies is_known_prefix(
                            self@,
                            #[trigger] self.path(n),
                        ) || self.path(n).is_prefix_of(bytes@) by {
                            if n < before.node_count() {
                                assert(self.path(n) == before.path(n));
                            }
                        }
                    }
                },
            }
            i += 1;
        }
        proof {
            assert(bytes@.take(bytes.len() as int) =~= bytes@);
        }
        cur
    }

    /// Makes `label` the label of node `at`, and the path of the node a
    /// pattern of the dictionary.
    fn set_label(&mut self, at: usize, label: String)
        requires
            old(self).shape_ok(),
            old(self).labels_ok(),
            old(self).paths_known_or(old(self).path(at as int)),
            old(self).links_absent(),
            !old(self).spec_is_finalized(),
            at < old(self).node_count(),
        ensures
            final(self).wf(),
            !final(self).spec_is_finalized(),
            final(self).node_count() == old(self).node_count(),
            old(self).kept_in(final(self)),
            final(self)@ == old(self)@.insert(old(self).path(at as int), label@),
    {
        let ghost before = *self;
        let ghost pattern = self.path(at as int);
        self.nodes[at].label = Some(label);
        self.dict = Ghost(self.dict@.insert(pattern, label@));
        proof {
            assert forall|n: int| 0 <= n < before.node_count() implies #[trigger] self.path(n)
                == before.path(n) by {}
            assert forall|n: int, c: u8| 0 <= n < before.node_count() implies #[trigger] self.child(
                n,
                c,
            ) == before.child(n, c) by {}
            assert forall|n: int| 0 <= n < self.node_count() implies #[trigger] self.link(n)
                is None by {
                assert(before.link(n) is None);
            }
            assert forall|q: Seq<u8>| #[trigger] self@.dom().contains(q) implies self.has_node(
                q,
            ) by {
                if q == pattern {
                    assert(self.path(at as int) == q);
                } else {
                    assert(before.has_node(q));
                    let w = choose|w: int|
                        0 <= w < before.node_count() && #[trigger] before.path(w) == q;
                    assert(self.path(w) == q);
                }
            }
            assert forall|n: int| 0 < n < self.node_count() implies is_known_prefix(
                self@,
                #[trigger] self.path(n),
            ) || self.path(n).is_prefix_of(pattern) by {
                assert(self.path(n) == before.path(n));
                if is_known_prefix(before@, before.path(n)) {
                    let q = choose|q: Seq<u8>|
                        #[trigger] before@.dom().contains(q) && before.path(n).is_prefix_of(q);
                    assert(self@.dom().contains(q));
                }
            }
            self.lemma_all_known_with(pattern);
        }
    }

    /// Adds `pattern` with `label` to the dictionary.
    ///
    /// Walks the trie along the bytes of `pattern`, creating the nodes that
    /// are missing, and labels the node where the pattern ends.  A finalized
    /// automaton takes no pattern; a pattern that is already there under
    /// another label is turned down and the dictionary stays as it was.
    /// The empty pattern labels the root.
    pub fn insert(&mut self, pattern: &str, label: &str) -> (res: Result<(), LabelError>)
        requires
            old(self).wf(),
        ensures
            final(self).wf(),
            final(self).is_finalized() == old(self).is_finalized(),
            old(self).kept_in(final(self)),
            old(self).grown_along(final(self), pattern.spec_bytes()),
            res is Err || old(self).has_node(pattern.spec_bytes()) ==> final(self).node_count()
                == old(self).node_count(),
            final(self)@ == after_insert(
                old(self)@,
                old(self).is_finalized(),
                pattern.spec_bytes(),
                label@,
            ),
            match insert_outcome(
                old(self)@,
                old(self).is_finalized(),
                pattern.spec_bytes(),
                label@,
            ) {
                InsertOutcome::Accepted => res is Ok,
                InsertOutcome::AlreadyFinalized => res == Err::<(), LabelError>(
                    LabelError::AlreadyFinalized,
                ),
                InsertOutcome::LabelConflict => res is Err && res->Err_0.is_conflict_of(
                    pattern@,
                    label@,
                    old(self)@[pattern.spec_bytes()],
                ),
            },
    {
        if self.finalized {
            return Err(LabelError::AlreadyFinalized);
        }
        let end = self.descend(pattern.as_bytes());
        let owned = label.to_owned();
        match &self.nodes[end].label {
            Some(existing) => {
                if *existing != owned {
                    let err = LabelError::LabelConflict {
                        pattern: pattern.to_owned(),
                        label: owned,
                        existing: existing.clone(),
                    };
                    proof {
                        self.lemma_all_known_with(pattern.spec_bytes());
                    }
                    return Err(err);
                }
            },
            None => {},
        }
        self.set_label(end, owned);
        Ok(())
    }
}

} // verus!
