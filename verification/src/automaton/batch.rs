//! Building a finalized automaton from a list of entries in one call.

use vstd::prelude::*;
use vstd::string::StringSliceAdditionalSpecFns;
use crate::automaton::LabelMaker;
use crate::error::LabelError;
use crate::model::{conflict_at, dictionary_of, entries_view, is_first_conflict, Entry};

verus! {

impl LabelMaker {
    /// Builds a finalized automaton from `entries`, each a pattern with its
    /// label, inserted in the order given.
    ///
    /// The first entry that conflicts with one before it ends the build with
    /// the error that its insertion gives.
    pub fn build(entries: &[(&str, &str)]) -> (res: Result<LabelMaker, LabelError>)
        ensures
            match res {
                Ok(maker) => {
                    &&& maker.wf()
                    &&& maker.is_finalized()
                    &&& maker@ == dictionary_of(entries_view(entries@))
                    &&& forall|k: int| !conflict_at(entries_view(entries@), k)
                },
                Err(e) => exists|k: int|
                    {
                        &&& #[trigger] is_first_conflict(entries_view(entries@), k)
                        &&& e.is_conflict_of(
                            entries@[k].0@,
                            entries@[k].1@,
                            dictionary_of(entries_view(entries@).take(k))[entries_view(
                                entries@,
                            )[k].0],
                        )
                    },
            },
    {
        let ghost all = entries_view(entries@);
        let mut maker = LabelMaker::new();
        let mut i: usize = 0;
        proof {
            assert(all.take(0) =~= Seq::<Entry>::empty());
        }
        while i < entries.len()
            invariant
                all == entries_view(entries@),
                i <= entries.len(),
                maker.wf(),
                !maker.is_finalized(),
                maker@ == dictionary_of(all.take(i as int)),
                forall|j: int| 0 <= j < i ==> !conflict_at(all, j),
            decreases entries.len() - i,
        {
            let (pattern, label) = entries[i];
            proof {
                assert(all[i as int] == (pattern.spec_bytes(), label@));
                assert(all.take(i + 1).drop_last() =~= all.take(i as int));
                assert(all.take(i + 1).last() == all[i as int]);
            }
            match maker.insert(pattern, label) {
                Ok(()) => {},
                Err(e) => {
                    proof {
                        assert(is_first_conflict(all, i as int));
                    }
                    return Err(e);
                },
            }
            i += 1;
        }
        proof {
            assert(all.take(entries.len() as int) =~= all);
        }
        maker.finalize();
        Ok(maker)
    }
}

} // verus!
