//! The automaton: a trie in an arena, its failure links, and the scan.
//!
//! This file holds the type, its invariant and what the invariant says about
//! the tree.  Insertion, finalization and scanning each have a file of their
//! own below it.

use vstd::prelude::*;
use crate::model::{is_known_prefix, label_view, state_after, Dictionary};
use crate::node::Node;

mod batch;
mod insertion;
mod linking;
mod scanning;
mod sweep;

verus! {

/// A dictionary of labelled patterns, built by insertion, frozen by
/// [`LabelMaker::finalize`] and then queried with [`LabelMaker::categorize`].
///
/// Node `0` of the arena is the root.  The ghost fields record, for every
/// node, the byte string that leads to it and the node it hangs from, and the
/// dictionary that the labels spell out.
pub struct LabelMaker {
    nodes: Vec<Node>,
    finalized: bool,
    dict: Ghost<Dictionary>,
    paths: Ghost<Seq<Seq<u8>>>,
    parents: Ghost<Seq<int>>,
}

impl View for LabelMaker {
    type V = Dictionary;

    /// The dictionary: every inserted pattern with its label.
    closed spec fn view(&self) -> Dictionary {
        self.dict@
    }
}

impl LabelMaker {
    /// The number of nodes in the arena.
    pub closed spec fn node_count(&self) -> int {
        self.nodes@.len() as int
    }

    /// The byte string that leads from the root to node `i`.
    pub closed spec fn path(&self, i: int) -> Seq<u8> {
        self.paths@[i]
    }

    /// The child of node `i` under byte `b`.
    pub closed spec fn child(&self, i: int, b: u8) -> Option<usize> {
        self.nodes@[i].child(b)
    }

    /// The label on node `i`, by its characters.
    pub closed spec fn label(&self, i: int) -> Option<Seq<char>> {
        label_view(self.nodes@[i].label)
    }

    /// The failure link of node `i`, as it is stored.
    pub closed spec fn link(&self, i: int) -> Option<usize> {
        self.nodes@[i].fail
    }

    /// The node that is reached from node `i` by following failure links `k`
    /// times, stopping early at a node that has none.
    pub open spec fn fall_back(&self, i: int, k: nat) -> int
        decreases k,
    {
        if k == 0 {
            i
        } else {
            match self.link(i) {
                Some(t) => self.fall_back(t as int, (k - 1) as nat),
                None => i,
            }
        }
    }

    /// Some node is reached from the root by `p`.
    pub open spec fn has_node(&self, p: Seq<u8>) -> bool {
        exists|i: int| 0 <= i < self.node_count() && #[trigger] self.path(i) == p
    }

    /// `later` holds every node of `self`, under the same number and at the
    /// end of the same path.
    pub open spec fn kept_in(&self, later: &LabelMaker) -> bool {
        &&& self.node_count() <= later.node_count()
        &&& forall|i: int| 0 <= i < self.node_count() ==> later.path(i) == self.path(i)
    }

    /// Every node of `later` that `self` does not hold lies on the way from
    /// the root to the end of `pattern`.
    pub open spec fn grown_along(&self, later: &LabelMaker, pattern: Seq<u8>) -> bool {
        forall|i: int|
            self.node_count() <= i < later.node_count() ==> (#[trigger] later.path(
                i,
            )).is_prefix_of(pattern)
    }

    /// Whether the failure links have been built.
    pub closed spec fn spec_is_finalized(&self) -> bool {
        self.finalized
    }

    /// The edges form a tree rooted at node `0`, and `paths` and `parents`
    /// describe it.
    spec fn shape_ok(&self) -> bool {
        &&& self.nodes@.len() >= 1
        &&& self.paths@.len() == self.nodes@.len()
        &&& self.parents@.len() == self.nodes@.len()
        &&& self.path(0).len() == 0
        &&& self.link(0) is None
        &&& forall|i: int, b: u8|
            0 <= i < self.node_count() ==> (#[trigger] self.child(i, b) matches Some(c) ==> 0 < c
                < self.node_count() && self.path(c as int) == self.path(i).push(b))
        &&& forall|c: int|
            0 < c < self.node_count() ==> {
                let p = #[trigger] self.parents@[c];
                &&& 0 <= p < self.node_count()
                &&& self.path(c).len() > 0
                &&& self.child(p, self.path(c).last()) matches Some(x) && x == c
            }
        &&& forall|i: int, j: int|
            0 <= i < self.node_count() && 0 <= j < self.node_count() && #[trigger] self.path(i)
                == #[trigger] self.path(j) ==> i == j
    }

    /// The labels on the nodes are the dictionary, and every pattern of the
    /// dictionary has its node.
    spec fn labels_ok(&self) -> bool {
        &&& forall|i: int|
            0 <= i < self.node_count() ==> (#[trigger] self.nodes@[i].label matches Some(l)
                ==> self@.dom().contains(self.path(i)) && self@[self.path(i)] == l@)
        &&& forall|i: int|
            0 <= i < self.node_count() && self@.dom().contains(#[trigger] self.path(i))
                ==> self.nodes@[i].label is Some
        &&& forall|q: Seq<u8>| #[trigger] self@.dom().contains(q) ==> self.has_node(q)
    }

    /// Every node but the root lies on the way to some pattern.
    spec fn paths_known(&self) -> bool {
        forall|i: int| 0 < i < self.node_count() ==> is_known_prefix(self@, #[trigger] self.path(i))
    }

    /// The failure link of node `i` leads to the node of the longest proper
    /// suffix of its path that begins some pattern.
    spec fn fail_ok(&self, i: int) -> bool {
        self.nodes@[i].fail matches Some(t) && t < self.node_count() && self.path(t as int)
            == state_after(self@, self.path(i).drop_first())
    }

    /// The failure links of all nodes at depth `d` or less are in place.
    spec fn links_ok_upto(&self, d: int) -> bool {
        forall|i: int|
            0 < i < self.node_count() && self.path(i).len() <= d ==> #[trigger] self.fail_ok(i)
    }

    /// The failure links of all nodes are in place.
    spec fn links_ok(&self) -> bool {
        forall|i: int| 0 < i < self.node_count() ==> #[trigger] self.fail_ok(i)
    }

    /// No node has a failure link.
    spec fn links_absent(&self) -> bool {
        forall|i: int| 0 <= i < self.node_count() ==> #[trigger] self.link(i) is None
    }

    /// The invariant of the type: a tree whose labels are the dictionary, and
    /// whose failure links are all absent before finalization and all in
    /// place after it.
    pub closed spec fn wf(&self) -> bool {
        &&& self.shape_ok()
        &&& self.labels_ok()
        &&& self.paths_known()
        &&& if self.finalized {
            self.links_ok()
        } else {
            self.links_absent()
        }
    }

    /// An empty automaton: no pattern, not finalized.
    pub fn new() -> (maker: LabelMaker)
        ensures
            maker.wf(),
            !maker.spec_is_finalized(),
            maker@ == Map::<Seq<u8>, Seq<char>>::empty(),
    {
        let mut nodes: Vec<Node> = Vec::new();
        nodes.push(Node::new());
        let ghost paths = seq![Seq::<u8>::empty()];
        let ghost parents = seq![0int];
        LabelMaker {
            nodes,
            finalized: false,
            dict: Ghost(Map::empty()),
            paths: Ghost(paths),
            parents: Ghost(parents),
        }
    }

    /// Whether the failure links have been built.
    #[verifier::when_used_as_spec(spec_is_finalized)]
    pub fn is_finalized(&self) -> (b: bool)
        ensures
            b == self.spec_is_finalized(),
    {
        self.finalized
    }

    /// The number of nodes of the trie, the root included.
    pub fn num_nodes(&self) -> (n: usize)
        ensures
            n == self.node_count(),
    {
        self.nodes.len()
    }

    /// The failure link of node `node`: absent for the root, and for every
    /// node before finalization has set it.
    pub fn fail_link(&self, node: usize) -> (link: Option<usize>)
        requires
            node < self.node_count(),
        ensures
            link == self.link(node as int),
    {
        self.nodes[node].fail
    }

    /// The path of every node but the root has at least one byte.
    proof fn lemma_path_not_empty(&self, i: int)
        requires
            self.shape_ok(),
            0 < i < self.node_count(),
        ensures
            self.path(i).len() > 0,
    {
        assert(0 <= self.parents@[i] < self.node_count());
    }

    /// Every prefix of the path of a node has a node of its own.
    proof fn lemma_prefix_has_node(&self, i: int, k: int)
        requires
            self.shape_ok(),
            0 <= i < self.node_count(),
            0 <= k <= self.path(i).len(),
        ensures
            self.has_node(self.path(i).take(k)),
        decreases self.path(i).len(),
    {
        if k == self.path(i).len() {
            assert(self.path(i).take(k) =~= self.path(i));
        } else {
            let p = self.parents@[i];
            assert(self.path(i) == self.path(p).push(self.path(i).last()));
            self.lemma_prefix_has_node(p, k);
            assert(self.path(p).take(k) =~= self.path(i).take(k));
        }
    }

    /// Whatever begins a pattern has a node.
    proof fn lemma_known_has_node(&self, p: Seq<u8>)
        requires
            self.shape_ok(),
            self.labels_ok(),
            is_known_prefix(self@, p),
        ensures
            self.has_node(p),
    {
        let q = choose|q: Seq<u8>| #[trigger] self@.dom().contains(q) && p.is_prefix_of(q);
        assert(self.has_node(q));
        let i = choose|i: int| 0 <= i < self.node_count() && #[trigger] self.path(i) == q;
        self.lemma_prefix_has_node(i, p.len() as int);
        assert(q.take(p.len() as int) =~= p);
    }

    /// Where a node has no edge for `b`, no node is reached by its path
    /// followed by `b`.
    proof fn lemma_no_edge_no_node(&self, i: int, b: u8)
        requires
            self.shape_ok(),
            0 <= i < self.node_count(),
            self.child(i, b) is None,
        ensures
            !self.has_node(self.path(i).push(b)),
    {
        if self.has_node(self.path(i).push(b)) {
            let x = choose|x: int|
                0 <= x < self.node_count() && #[trigger] self.path(x) == self.path(i).push(b);
            let p = self.parents@[x];
            assert(self.path(x) == self.path(p).push(self.path(x).last()));
            assert(self.path(p) =~= self.path(x).drop_last());
            assert(self.path(i) =~= self.path(x).drop_last());
            assert(p == i);
            assert(false);
        }
    }

    /// Where a node has no edge for `b`, its path followed by `b` begins no
    /// pattern.
    proof fn lemma_missing_edge(&self, i: int, b: u8)
        requires
            self.shape_ok(),
            self.labels_ok(),
            0 <= i < self.node_count(),
            self.child(i, b) is None,
        ensures
            !is_known_prefix(self@, self.path(i).push(b)),
    {
        if is_known_prefix(self@, self.path(i).push(b)) {
            self.lemma_known_has_node(self.path(i).push(b));
            self.lemma_no_edge_no_node(i, b);
        }
    }

    /// `self` and `other` hold the same tree, labels and dictionary, and the
    /// same failure links but for that of node `at`.
    spec fn same_but_link(&self, other: &LabelMaker, at: int) -> bool {
        &&& self.nodes@.len() == other.nodes@.len()
        &&& self.dict@ == other.dict@
        &&& self.paths@ == other.paths@
        &&& self.parents@ == other.parents@
        &&& forall|i: int|
            0 <= i < self.node_count() ==> {
                &&& (#[trigger] self.nodes@[i]).children == other.nodes@[i].children
                &&& self.nodes@[i].label == other.nodes@[i].label
                &&& i != at ==> self.nodes@[i].fail == other.nodes@[i].fail
            }
    }

    /// The failure link of one node bears neither on the tree nor on the
    /// labels, nor on whether the link of another node is right.
    proof fn lemma_same_but_link(&self, other: &LabelMaker, at: int)
        requires
            self.same_but_link(other, at),
            at != 0,
            self.shape_ok(),
            self.labels_ok(),
            self.paths_known(),
        ensures
            other@ == self@,
            other.node_count() == self.node_count(),
            other.shape_ok(),
            other.labels_ok(),
            other.paths_known(),
            forall|i: int| 0 <= i < self.node_count() ==> other.path(i) == self.path(i),
            forall|i: int, b: u8|
                0 <= i < self.node_count() ==> other.child(i, b) == self.child(i, b),
            forall|i: int|
                0 <= i < self.node_count() && i != at ==> other.fail_ok(i) == self.fail_ok(i),
            forall|i: int|
                0 <= i < self.node_count() && i != at ==> other.link(i) == self.link(i),
    {
        assert forall|i: int, b: u8| 0 <= i < self.node_count() implies #[trigger] other.child(
            i,
            b,
        ) == self.child(i, b) by {
            assert(self.nodes@[i].children == other.nodes@[i].children);
        }
        assert forall|i: int| 0 <= i < self.node_count() implies #[trigger] other.nodes@[i].label
            == self.nodes@[i].label by {
            assert(self.nodes@[i].children == other.nodes@[i].children);
        }
        assert forall|i: int| 0 <= i < self.node_count() && i != at implies other.fail_ok(i)
            == self.fail_ok(i) by {
            assert(self.nodes@[i].children == other.nodes@[i].children);
        }
        assert(other.labels_ok()) by {
            assert forall|q: Seq<u8>| #[trigger] other@.dom().contains(q) implies other.has_node(
                q,
            ) by {
                assert(self.has_node(q));
                let w = choose|w: int| 0 <= w < self.node_count() && #[trigger] self.path(w) == q;
                assert(other.path(w) == q);
            }
            assert forall|i: int|
                0 <= i < other.node_count() && other@.dom().contains(
                    #[trigger] other.path(i),
                ) implies other.nodes@[i].label is Some by {
                assert(self.path(i) == other.path(i));
                assert(self.nodes@[i].label == other.nodes@[i].label);
            }
            assert forall|i: int| 0 <= i < other.node_count() implies (
            #[trigger] other.nodes@[i].label matches Some(l) ==> other@.dom().contains(
                other.path(i),
            ) && other@[other.path(i)] == l@) by {
                assert(self.path(i) == other.path(i));
                assert(self.nodes@[i].label == other.nodes@[i].label);
            }
        }
        assert(other.shape_ok()) by {
            assert forall|i: int, j: int|
                0 <= i < other.node_count() && 0 <= j < other.node_count() && #[trigger] other.path(
                    i,
                ) == #[trigger] other.path(j) implies i == j by {
                assert(self.path(i) == self.path(j));
            }
            assert forall|c: int| 0 < c < other.node_count() implies {
                let p = #[trigger] other.parents@[c];
                &&& 0 <= p < other.node_count()
                &&& other.path(c).len() > 0
                &&& other.child(p, other.path(c).last()) matches Some(x) && x == c
            } by {
                let p = self.parents@[c];
                assert(other.child(p, self.path(c).last()) == self.child(p, self.path(c).last()));
            }
            assert forall|i: int, b: u8| 0 <= i < other.node_count() implies (
            #[trigger] other.child(i, b) matches Some(c) ==> 0 < c < other.node_count()
                && other.path(c as int) == other.path(i).push(b)) by {
                assert(other.child(i, b) == self.child(i, b));
            }
        }
        assert(other.paths_known()) by {
            assert forall|i: int| 0 < i < other.node_count() implies is_known_prefix(
                other@,
                #[trigger] other.path(i),
            ) by {
                assert(is_known_prefix(self@, self.path(i)));
            }
        }
    }

    /// The root is node `0`: its path is empty and it has no failure link.
    pub proof fn lemma_root(&self)
        requires
            self.wf(),
        ensures
            self.node_count() >= 1,
            self.path(0) == Seq::<u8>::empty(),
            self.link(0) is None,
    {
        assert(self.path(0) =~= Seq::<u8>::empty());
    }

    /// Every node but the root is reached by a byte string that has at least
    /// one byte and begins some pattern of the dictionary.
    pub proof fn lemma_node_begins_pattern(&self, i: int)
        requires
            self.wf(),
            0 < i < self.node_count(),
        ensures
            self.path(i).len() > 0,
            is_known_prefix(self@, self.path(i)),
    {
        self.lemma_path_not_empty(i);
    }

    /// The nodes are the beginnings of the patterns: a byte string leads to a
    /// node exactly if it is empty or begins some pattern of the dictionary.
    pub proof fn lemma_nodes_are_prefixes(&self, p: Seq<u8>)
        requires
            self.wf(),
        ensures
            self.has_node(p) <==> (p.len() == 0 || is_known_prefix(self@, p)),
    {
        if p.len() == 0 {
            assert(self.path(0) =~= p);
        } else if is_known_prefix(self@, p) {
            self.lemma_known_has_node(p);
        }
    }

    /// An edge leads to the node whose path is longer by the byte of the
    /// edge; where a node has no edge for a byte, there is no such node.
    pub proof fn lemma_edge(&self, i: int, b: u8)
        requires
            self.wf(),
            0 <= i < self.node_count(),
        ensures
            match self.child(i, b) {
                Some(c) => 0 < c < self.node_count() && self.path(c as int) == self.path(i).push(
                    b,
                ),
                None => !self.has_node(self.path(i).push(b)),
            },
    {
        if self.child(i, b) is None {
            self.lemma_no_edge_no_node(i, b);
        }
    }

    /// The labels on the nodes spell the dictionary: a node has a label
    /// exactly if its path is a pattern, and the label is that of the pattern.
    pub proof fn lemma_label(&self, i: int)
        requires
            self.wf(),
            0 <= i < self.node_count(),
        ensures
            self.label(i) == if self@.dom().contains(self.path(i)) {
                Some(self@[self.path(i)])
            } else {
                None
            },
    {
        assert(self.label(i) == label_view(self.nodes@[i].label));
    }

    /// No two nodes are reached by the same byte string.
    pub proof fn lemma_paths_distinct(&self, i: int, j: int)
        requires
            self.wf(),
            0 <= i < self.node_count(),
            0 <= j < self.node_count(),
            self.path(i) == self.path(j),
        ensures
            i == j,
    {
    }

    /// Before finalization no node has a failure link.
    pub proof fn lemma_unlinked_before_finalization(&self, i: int)
        requires
            self.wf(),
            !self.is_finalized(),
            0 <= i < self.node_count(),
        ensures
            self.link(i) is None,
    {
    }
}

} // verus!
