//! Finalization: the failure links, built breadth first.

use vstd::prelude::*;
use std::collections::VecDeque;
use crate::automaton::sweep::in_hand;
use crate::automaton::LabelMaker;
use crate::model::{lemma_state_len, lemma_state_step, state_after};

verus! {

impl LabelMaker {
    /// Points the failure link of node `at` to node `target`.
    fn set_link(&mut self, at: usize, target: usize)
        requires
            0 < at < old(self).node_count(),
        ensures
            old(self).same_but_link(final(self), at as int),
            final(self).finalized == old(self).finalized,
            final(self).nodes@[at as int].fail == Some(target),
    {
        self.nodes[at].fail = Some(target);
    }

    /// Sets the failure link of every child of `current` and puts the
    /// children on the queue, in the order of their bytes.
    ///
    /// A child of the root falls back to the root.  The child of another node
    /// under byte `b` falls back to where the automaton gets from the failure
    /// link of `current` by consuming `b`.
    fn link_children(
        &mut self,
        current: usize,
        queue: &mut VecDeque<usize>,
        Ghost(order): Ghost<Seq<usize>>,
        Ghost(taken): Ghost<int>,
    ) -> (grown: Ghost<Seq<usize>>)
        requires
            old(self).shape_ok(),
            old(self).labels_ok(),
            old(self).paths_known(),
            old(self).sweep_ok(order, taken, 0),
            current == in_hand(order, taken),
            old(queue)@ == order.skip(taken),
        ensures
            final(self).shape_ok(),
            final(self).labels_ok(),
            final(self).paths_known(),
            final(self)@ == old(self)@,
            final(self).spec_is_finalized() == old(self).spec_is_finalized(),
            final(self).node_count() == old(self).node_count(),
            old(self).kept_in(final(self)),
            final(self).sweep_ok(grown@, taken, 256),
            final(queue)@ == grown@.skip(taken),
    {
        let ghost mut order = order;
        let mut b: usize = 0;
        while b < 256
            invariant
                self.shape_ok(),
                self.labels_ok(),
                self.paths_known(),
                self@ == old(self)@,
                self.finalized == old(self).finalized,
                self.node_count() == old(self).node_count(),
                old(self).kept_in(self),
                0 <= b <= 256,
                self.sweep_ok(order, taken, b as int),
                current == in_hand(order, taken),
                queue@ == order.skip(taken),
            decreases 256 - b,
        {
            proof {
                self.lemma_sweep_hand(order, taken, b as int);
            }
            match self.nodes[current].children[b] {
                Some(child) => {
                    let byte = b as u8;
                    let ghost before = *self;
                    proof {
                        assert(self.child(current as int, byte) == Some(child));
                        self.lemma_sweep_child_unlisted(order, taken, b as int, child as int);
                        self.lemma_sweep_links(order, taken, b as int);
                    }
                    let target = if current == 0 {
                        0
                    } else {
                        proof {
                            lemma_state_len(self@, self.path(current as int).drop_first());
                        }
                        let link = self.nodes[current].fail.unwrap();
                        self.advance(link, byte)
                    };
                    self.set_link(child, target);
                    queue.push_back(child);
                    proof {
                        before.lemma_same_but_link(self, child as int);
                        let here = before.path(current as int);
                        assert(here.push(byte).drop_first() =~= if current == 0 {
                            here
                        } else {
                            here.drop_first().push(byte)
                        });
                        if current != 0 {
                            lemma_state_step(self@, here.drop_first(), byte);
                        }
                        assert(self.fail_ok(child as int));
                        before.lemma_sweep_push(self, order, taken, b as int, child);
                        assert(order.push(child).skip(taken) =~= order.skip(taken).push(child));
                        assert(in_hand(order.push(child), taken) == in_hand(order, taken));
                        order = order.push(child);
                    }
                },
                None => {
                    proof {
                        assert(self.child(current as int, b as u8) is None);
                        self.lemma_sweep_skip(order, taken, b as int);
                    }
                },
            }
            b += 1;
        }
        Ghost(order)
    }

    /// Builds the failure links and freezes the dictionary.
    ///
    /// The nodes are visited breadth first, so that the links of all nodes
    /// nearer to the root are in place when a node's own link is computed.
    /// On an automaton that is finalized already this does nothing.
    pub fn finalize(&mut self)
        requires
            old(self).wf(),
        ensures
            final(self).wf(),
            final(self).is_finalized(),
            final(self)@ == old(self)@,
            final(self).node_count() == old(self).node_count(),
            old(self).kept_in(final(self)),
            old(self).is_finalized() ==> forall|i: int|
                0 <= i < old(self).node_count() ==> final(self).link(i) == old(self).link(i),
    {
        if self.finalized {
            return;
        }
        let mut queue: VecDeque<usize> = VecDeque::new();
        let ghost mut order: Seq<usize> = Seq::empty();
        let ghost mut taken: int = 0;
        proof {
            self.lemma_sweep_start();
            assert(queue@ =~= order.skip(taken));
        }
        let grown = self.link_children(0, &mut queue, Ghost(order), Ghost(taken));
        proof {
            order = grown@;
        }
        loop
            invariant
                self.shape_ok(),
                self.labels_ok(),
                self.paths_known(),
                self@ == old(self)@,
                !self.finalized,
                self.node_count() == old(self).node_count(),
                old(self).kept_in(self),
                self.sweep_ok(order, taken, 256),
                queue@ == order.skip(taken),
            ensures
                taken == order.len(),
            decreases self.node_count() - taken,
        {
            proof {
                self.lemma_sweep_hand(order, taken, 256);
            }
            match queue.pop_front() {
                None => {
                    break;
                },
                Some(current) => {
                    proof {
                        assert(order.skip(taken)[0] == order[taken]);
                        self.lemma_sweep_take(order, taken);
                        assert(order.skip(taken).subrange(1, order.skip(taken).len() as int)
                            =~= order.skip(taken + 1));
                        taken = taken + 1;
                    }
                    let grown = self.link_children(current, &mut queue, Ghost(order), Ghost(taken));
                    proof {
                        order = grown@;
                    }
                },
            }
        }
        proof {
            self.lemma_sweep_end(order);
        }
        let ghost before = *self;
        self.finalized = true;
        proof {
            before.lemma_same_but_link(self, -1);
            assert forall|i: int| 0 < i < self.node_count() implies #[trigger] self.fail_ok(i) by {
                assert(before.fail_ok(i));
            }
        }
    }

    /// Once finalized, the failure link of every node but the root leads to
    /// the node of the longest proper suffix of its path that begins some
    /// pattern, and to the root where no proper suffix does.
    pub proof fn lemma_link_target(&self, i: int)
        requires
            self.wf(),
            self.is_finalized(),
            0 < i < self.node_count(),
        ensures
            self.link(i) matches Some(t) && t < self.node_count() && self.path(t as int)
                == state_after(self@, self.path(i).drop_first()),
    {
        assert(self.fail_ok(i));
    }

    /// The failure links are determined by the tree and the dictionary: two
    /// finalized automata that hold the same dictionary and number their
    /// nodes alike have the same failure links.
    pub proof fn lemma_links_determined(&self, other: &LabelMaker, i: int)
        requires
            self.wf(),
            other.wf(),
            self.is_finalized(),
            other.is_finalized(),
            self@ == other@,
            self.node_count() == other.node_count(),
            self.kept_in(other),
            0 <= i < self.node_count(),
        ensures
            self.link(i) == other.link(i),
    {
        if i != 0 {
            self.lemma_link_target(i);
            other.lemma_link_target(i);
            let s = self.link(i)->0 as int;
            let t = other.link(i)->0 as int;
            assert(other.path(s) == self.path(s));
            assert(other.path(t) == other.path(s));
        }
    }

    /// Once finalized, following failure links from any node arrives at the
    /// root after no more steps than the path of the node has bytes.
    pub proof fn lemma_links_reach_root(&self, i: int, k: nat)
        requires
            self.wf(),
            self.is_finalized(),
            0 <= i < self.node_count(),
            k >= self.path(i).len(),
        ensures
            self.fall_back(i, k) == 0,
        decreases k,
    {
        if i != 0 && k > 0 {
            self.lemma_link_target(i);
            self.lemma_node_begins_pattern(i);
            let t = self.link(i)->0 as int;
            lemma_state_len(self@, self.path(i).drop_first());
            self.lemma_links_reach_root(t, (k - 1) as nat);
        } else if i != 0 {
            self.lemma_node_begins_pattern(i);
        }
    }
}

} // verus!
