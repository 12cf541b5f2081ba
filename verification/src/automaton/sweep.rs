//! The invariant of the breadth-first sweep that builds the failure links,
//! and why each move of the sweep keeps it.

use vstd::prelude::*;
use vstd::set_lib::{lemma_int_range, lemma_len_subset, set_int_range};
use crate::automaton::LabelMaker;

verus! {

/// The node whose edges the sweep is dealing with: the root while nothing has
/// been taken off the queue, afterwards the node taken off last.
pub(super) open spec fn in_hand(order: Seq<usize>, taken: int) -> int {
    if taken == 0 {
        0
    } else {
        order[taken - 1] as int
    }
}

/// Node `x` is the root or among the first `taken` nodes of `order`.
pub(super) open spec fn expanded(order: Seq<usize>, taken: int, x: int) -> bool {
    x == 0 || exists|k: int| 0 <= k < taken && #[trigger] order[k] == x
}

/// Node `x` is somewhere in `order`.
pub(super) open spec fn listed(order: Seq<usize>, x: int) -> bool {
    exists|k: int| 0 <= k < order.len() && #[trigger] order[k] == x
}

/// A list of distinct indices, all above zero and below `n`, is shorter than
/// `n`.
proof fn lemma_distinct_bounded(order: Seq<usize>, n: int)
    requires
        forall|k: int| 0 <= k < order.len() ==> 0 < #[trigger] order[k] < n,
        forall|j: int, k: int|
            0 <= j < k < order.len() ==> #[trigger] order[j] != #[trigger] order[k],
    ensures
        order.len() < n || order.len() == 0,
{
    if order.len() > 0 {
        let ints = Seq::new(order.len(), |k: int| order[k] as int);
        assert(ints.no_duplicates());
        ints.unique_seq_to_set();
        assert(0 < order[0] < n);
        lemma_int_range(1, n);
        assert(ints.to_set().subset_of(set_int_range(1, n))) by {
            assert forall|v: int| ints.to_set().contains(v) implies set_int_range(1, n).contains(
                v,
            ) by {
                let k = choose|k: int| 0 <= k < ints.len() && ints[k] == v;
                assert(0 < order[k] < n);
            }
        }
        lemma_len_subset(ints.to_set(), set_int_range(1, n));
    }
}

impl LabelMaker {
    /// The state of the breadth-first sweep that builds the failure links.
    ///
    /// `order` lists the nodes in the order in which they were put on the
    /// queue, the first `taken` of them have been taken off it again, and of
    /// the node in hand the edges for the bytes below `upto` have been dealt
    /// with.  Every listed node has its failure link; the list is sorted by
    /// depth, holds no node twice, and holds every child of a node that has
    /// been dealt with.
    #[verifier::opaque]
    pub(super) closed spec fn sweep_ok(&self, order: Seq<usize>, taken: int, upto: int) -> bool {
        let hand = in_hand(order, taken);
        &&& 0 <= taken <= order.len()
        &&& 0 <= upto <= 256
        &&& forall|k: int|
            0 <= k < order.len() ==> 0 < #[trigger] order[k] < self.node_count() && self.fail_ok(
                order[k] as int,
            )
        &&& forall|j: int, k: int|
            0 <= j <= k < order.len() ==> self.path(#[trigger] order[j] as int).len() <= self.path(
                #[trigger] order[k] as int,
            ).len()
        &&& forall|k: int|
            0 <= k < order.len() ==> self.path(#[trigger] order[k] as int).len() <= self.path(
                hand,
            ).len() + 1
        &&& forall|k: int|
            taken <= k < order.len() ==> self.path(hand).len() <= self.path(
                #[trigger] order[k] as int,
            ).len()
        &&& forall|x: int, b: u8|
            0 <= x < self.node_count() && expanded(order, taken, x) && (x != hand || b < upto) ==> (
            #[trigger] self.child(x, b) matches Some(c) ==> listed(order, c as int))
        &&& forall|j: int, k: int|
            0 <= j < k < order.len() ==> #[trigger] order[j] != #[trigger] order[k]
        &&& forall|k: int|
            0 <= k < order.len() ==> {
                let p = self.parents@[#[trigger] order[k] as int];
                expanded(order, taken, p) && (p == hand ==> self.path(order[k] as int).last()
                    < upto)
            }
    }

    /// Before the sweep nothing is listed and the root is in hand.
    pub(super) proof fn lemma_sweep_start(&self)
        requires
            self.shape_ok(),
        ensures
            self.sweep_ok(Seq::<usize>::empty(), 0, 0),
    {
        reveal(LabelMaker::sweep_ok);
    }

    /// The node in hand is a node, and unless it is the root its failure link
    /// is in place.
    pub(super) proof fn lemma_sweep_hand(&self, order: Seq<usize>, taken: int, upto: int)
        requires
            self.shape_ok(),
            self.sweep_ok(order, taken, upto),
        ensures
            0 <= taken <= order.len(),
            0 <= in_hand(order, taken) < self.node_count(),
            in_hand(order, taken) != 0 ==> self.fail_ok(in_hand(order, taken)) && self.path(
                in_hand(order, taken),
            ).len() > 0,
    {
        reveal(LabelMaker::sweep_ok);
        if taken > 0 {
            assert(self.fail_ok(order[taken - 1] as int));
            self.lemma_path_not_empty(order[taken - 1] as int);
        }
    }

    /// A byte for which the node in hand has no edge needs no work.
    pub(super) proof fn lemma_sweep_skip(&self, order: Seq<usize>, taken: int, upto: int)
        requires
            self.sweep_ok(order, taken, upto),
            upto < 256,
            self.child(in_hand(order, taken), upto as u8) is None,
        ensures
            self.sweep_ok(order, taken, upto + 1),
    {
        reveal(LabelMaker::sweep_ok);
    }

    /// A child of the node in hand is not listed before its byte's turn.
    pub(super) proof fn lemma_sweep_child_unlisted(
        &self,
        order: Seq<usize>,
        taken: int,
        upto: int,
        c: int,
    )
        requires
            self.shape_ok(),
            self.sweep_ok(order, taken, upto),
            upto < 256,
            self.child(in_hand(order, taken), upto as u8) matches Some(x) && x == c,
        ensures
            !listed(order, c),
            self.parents@[c] == in_hand(order, taken),
            self.path(c) == self.path(in_hand(order, taken)).push(upto as u8),
    {
        reveal(LabelMaker::sweep_ok);
        let hand = in_hand(order, taken);
        let p = self.parents@[c];
        assert(self.path(c) == self.path(hand).push(upto as u8));
        assert(self.path(c) == self.path(p).push(self.path(c).last()));
        assert(self.path(p) =~= self.path(c).drop_last());
        assert(self.path(hand) =~= self.path(c).drop_last());
        assert(p == hand);
        if listed(order, c) {
            let k = choose|k: int| 0 <= k < order.len() && #[trigger] order[k] == c;
            assert(self.path(order[k] as int).last() < upto);
        }
    }

    /// Once the failure link of a child of the node in hand is set, the child
    /// joins the list.
    pub(super) proof fn lemma_sweep_push(
        &self,
        after: &LabelMaker,
        order: Seq<usize>,
        taken: int,
        upto: int,
        c: usize,
    )
        requires
            self.shape_ok(),
            self.labels_ok(),
            self.paths_known(),
            self.sweep_ok(order, taken, upto),
            upto < 256,
            self.child(in_hand(order, taken), upto as u8) == Some(c),
            self.same_but_link(after, c as int),
            after.fail_ok(c as int),
        ensures
            after.sweep_ok(order.push(c), taken, upto + 1),
    {
        reveal(LabelMaker::sweep_ok);
        let hand = in_hand(order, taken);
        let grown = order.push(c);
        self.lemma_same_but_link(after, c as int);
        self.lemma_sweep_child_unlisted(order, taken, upto, c as int);
        assert(in_hand(grown, taken) == hand);
        assert forall|x: int| expanded(order, taken, x) implies expanded(grown, taken, x) by {
            if x != 0 {
                let k = choose|k: int| 0 <= k < taken && #[trigger] order[k] == x;
                assert(grown[k] == x);
            }
        }
        assert forall|x: int| expanded(grown, taken, x) implies expanded(order, taken, x) by {
            if x != 0 {
                let k = choose|k: int| 0 <= k < taken && #[trigger] grown[k] == x;
                assert(order[k] == x);
            }
        }
        assert forall|x: int| listed(order, x) implies listed(grown, x) by {
            let k = choose|k: int| 0 <= k < order.len() && #[trigger] order[k] == x;
            assert(grown[k] == x);
        }
        assert(listed(grown, c as int)) by {
            assert(grown[order.len() as int] == c);
        }
        assert forall|k: int| 0 <= k < grown.len() implies 0 < #[trigger] grown[k]
            < after.node_count() && after.fail_ok(grown[k] as int) by {
            if k < order.len() {
                assert(order[k] == grown[k]);
                assert(order[k] != c) by {
                    if order[k] == c {
                        assert(listed(order, c as int));
                    }
                }
            }
        }
        assert forall|j: int, k: int| 0 <= j <= k < grown.len() implies after.path(
            #[trigger] grown[j] as int,
        ).len() <= after.path(#[trigger] grown[k] as int).len() by {
            if j < order.len() {
                assert(order[j] == grown[j]);
            }
            if k < order.len() {
                assert(order[k] == grown[k]);
            }
        }
        assert forall|k: int| 0 <= k < grown.len() implies after.path(
            #[trigger] grown[k] as int,
        ).len() <= after.path(hand).len() + 1 by {
            if k < order.len() {
                assert(order[k] == grown[k]);
            }
        }
        assert forall|k: int| taken <= k < grown.len() implies after.path(hand).len()
            <= after.path(#[trigger] grown[k] as int).len() by {
            if k < order.len() {
                assert(order[k] == grown[k]);
            }
        }
        assert forall|x: int, b: u8|
            0 <= x < after.node_count() && expanded(grown, taken, x) && (x != hand || b < upto
                + 1) implies (#[trigger] after.child(x, b) matches Some(d) ==> listed(
            grown,
            d as int,
        )) by {
            assert(after.child(x, b) == self.child(x, b));
            if x == hand && b == upto {
            } else {
                if let Some(d) = self.child(x, b) {
                    assert(listed(order, d as int));
                }
            }
        }
        assert forall|j: int, k: int| 0 <= j < k < grown.len() implies #[trigger] grown[j]
            != #[trigger] grown[k] by {
            assert(order[j] == grown[j]);
            if k < order.len() {
                assert(order[k] == grown[k]);
            } else {
                if order[j] == c {
                    assert(listed(order, c as int));
                }
            }
        }
        assert forall|k: int| 0 <= k < grown.len() implies {
            let p = after.parents@[#[trigger] grown[k] as int];
            expanded(grown, taken, p) && (p == hand ==> after.path(grown[k] as int).last() < upto
                + 1)
        } by {
            if k < order.len() {
                assert(order[k] == grown[k]);
                let p = self.parents@[order[k] as int];
                assert(expanded(order, taken, p));
            } else {
                assert(expanded(order, taken, hand)) by {
                    if taken > 0 {
                        assert(order[taken - 1] == hand);
                    }
                }
            }
        }
    }

    /// Taking the next node off the queue keeps the sweep in order, and the
    /// nodes taken are fewer than the nodes there are.
    pub(super) proof fn lemma_sweep_take(&self, order: Seq<usize>, taken: int)
        requires
            self.shape_ok(),
            self.sweep_ok(order, taken, 256),
            taken < order.len(),
        ensures
            self.sweep_ok(order, taken + 1, 0),
            taken + 1 < self.node_count(),
    {
        reveal(LabelMaker::sweep_ok);
        let hand = in_hand(order, taken);
        let next = order[taken] as int;
        assert(in_hand(order, taken + 1) == next);
        assert forall|x: int| expanded(order, taken, x) implies expanded(order, taken + 1, x)
            && x != next by {
            if x != 0 {
                let k = choose|k: int| 0 <= k < taken && #[trigger] order[k] == x;
                assert(order[k] != order[taken]);
            }
        }
        assert forall|x: int| expanded(order, taken + 1, x) && x != next implies expanded(
            order,
            taken,
            x,
        ) by {
            if x != 0 {
                let k = choose|k: int| 0 <= k < taken + 1 && #[trigger] order[k] == x;
                assert(k < taken);
            }
        }
        assert forall|k: int| 0 <= k < order.len() implies self.path(
            #[trigger] order[k] as int,
        ).len() <= self.path(next).len() + 1 by {
            assert(self.path(hand).len() <= self.path(order[taken] as int).len());
        }
        assert forall|k: int| taken + 1 <= k < order.len() implies self.path(next).len()
            <= self.path(#[trigger] order[k] as int).len() by {
            assert(self.path(order[taken] as int).len() <= self.path(order[k] as int).len());
        }
        assert forall|k: int| 0 <= k < order.len() implies {
            let p = self.parents@[#[trigger] order[k] as int];
            expanded(order, taken + 1, p) && (p == next ==> self.path(order[k] as int).last() < 0)
        } by {
            let p = self.parents@[order[k] as int];
            assert(expanded(order, taken, p));
        }
        lemma_distinct_bounded(order, self.node_count());
    }

    /// Every node that is no deeper than the node in hand is listed.
    pub(super) proof fn lemma_sweep_covers(&self, order: Seq<usize>, taken: int, upto: int, x: int)
        requires
            self.shape_ok(),
            self.sweep_ok(order, taken, upto),
            0 < x < self.node_count(),
            self.path(x).len() <= self.path(in_hand(order, taken)).len(),
        ensures
            listed(order, x),
        decreases self.path(x).len(),
    {
        reveal(LabelMaker::sweep_ok);
        let hand = in_hand(order, taken);
        let p = self.parents@[x];
        let b = self.path(x).last();
        assert(self.path(x) == self.path(p).push(b));
        if p != 0 {
            self.lemma_sweep_covers(order, taken, upto, p);
            let k = choose|k: int| 0 <= k < order.len() && #[trigger] order[k] == p;
            assert(k < taken) by {
                if k >= taken {
                    assert(self.path(hand).len() <= self.path(order[k] as int).len());
                }
            }
            assert(expanded(order, taken, p));
        }
        assert(self.child(p, b) matches Some(c) && c == x);
    }

    /// While the sweep goes on, the failure links of all nodes that are no
    /// deeper than the node in hand are in place.
    pub(super) proof fn lemma_sweep_links(&self, order: Seq<usize>, taken: int, upto: int)
        requires
            self.shape_ok(),
            self.sweep_ok(order, taken, upto),
        ensures
            self.links_ok_upto(self.path(in_hand(order, taken)).len() as int),
    {
        reveal(LabelMaker::sweep_ok);
        assert forall|x: int|
            0 < x < self.node_count() && self.path(x).len() <= self.path(
                in_hand(order, taken),
            ).len() implies #[trigger] self.fail_ok(x) by {
            self.lemma_sweep_covers(order, taken, upto, x);
            let k = choose|k: int| 0 <= k < order.len() && #[trigger] order[k] == x;
            assert(self.fail_ok(order[k] as int));
        }
    }

    /// When the queue has run dry, every node but the root is listed.
    pub(super) proof fn lemma_sweep_reaches(&self, order: Seq<usize>, x: int)
        requires
            self.shape_ok(),
            self.sweep_ok(order, order.len() as int, 256),
            0 < x < self.node_count(),
        ensures
            listed(order, x),
        decreases self.path(x).len(),
    {
        reveal(LabelMaker::sweep_ok);
        let p = self.parents@[x];
        let b = self.path(x).last();
        assert(self.path(x) == self.path(p).push(b));
        if p != 0 {
            self.lemma_sweep_reaches(order, p);
            let k = choose|k: int| 0 <= k < order.len() && #[trigger] order[k] == p;
            assert(expanded(order, order.len() as int, p));
        }
        assert(self.child(p, b) matches Some(c) && c == x);
    }

    /// When the queue has run dry, all failure links are in place.
    pub(super) proof fn lemma_sweep_end(&self, order: Seq<usize>)
        requires
            self.shape_ok(),
            self.sweep_ok(order, order.len() as int, 256),
        ensures
            self.links_ok(),
    {
        reveal(LabelMaker::sweep_ok);
        assert forall|x: int| 0 < x < self.node_count() implies #[trigger] self.fail_ok(x) by {
            self.lemma_sweep_reaches(order, x);
            let k = choose|k: int| 0 <= k < order.len() && #[trigger] order[k] == x;
            assert(self.fail_ok(order[k] as int));
        }
    }
}

} // verus!
