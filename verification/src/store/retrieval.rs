//! Retrieval: an alternative for a subtree, and a chunk at random.

use crate::context::Context;
use crate::layout::chunk_path_spec;
use crate::model::{governed_by_other, Occurrence};
use crate::newtypes::{NTermID, NodeID, RuleID};
use crate::random::{choose_below, random_below};
use crate::store::ChunkStore;
use crate::tree::Tree;
use vstd::prelude::*;

verus! {

impl ChunkStore {
    /// Whether the node of `occ` is governed by a rule other than `r`.
    fn is_alternative(&self, occ: Occurrence, r: RuleID) -> (other: bool)
        requires
            self@.valid_occurrence(occ),
        ensures
            other == governed_by_other(self@.trees, r)(occ),
    {
        self.trees[occ.0].get_rule_id(occ.1) != r
    }

    /// The number of occurrences under `nt` whose node is governed by a rule
    /// other than `r`.
    pub fn count_alternatives(&self, r: RuleID, nt: NTermID) -> (n: usize)
        requires
            self.wf(),
        ensures
            n == self@.alternatives(r, nt).len(),
    {
        let pred = Ghost(governed_by_other(self@.trees, r));
        match self.recorded(nt) {
            None => {
                proof {
                    reveal(Seq::filter);
                }
                0
            },
            Some(occs) => {
                let mut n: usize = 0;
                let mut i: usize = 0;
                proof {
                    reveal(Seq::filter);
                    assert(occs@.subrange(0, 0) =~= Seq::<Occurrence>::empty());
                }
                while i < occs.len()
                    invariant
                        i <= occs.len(),
                        self.wf(),
                        self@.index.contains_key(nt),
                        occs@ == self@.index[nt],
                        pred@ == governed_by_other(self@.trees, r),
                        n == occs@.subrange(0, i as int).filter(pred@).len(),
                        n <= i,
                    decreases occs.len() - i,
                {
                    proof {
                        lemma_filter_step(occs@, pred@, i as int);
                        assert(self@.valid_occurrence(self@.index[nt][i as int]));
                    }
                    if self.is_alternative(occs[i], r) {
                        n = n + 1;
                    }
                    i = i + 1;
                }
                proof {
                    assert(occs@.subrange(0, occs@.len() as int) =~= occs@);
                }
                n
            },
        }
    }

    /// The occurrence at position `k` among those under `nt` whose node is
    /// governed by a rule other than `r`: its tree and its node. There is
    /// none where `k` is not below their number.
    pub fn nth_alternative(&self, r: RuleID, nt: NTermID, k: usize) -> (res: Option<
        (&Tree, NodeID),
    >)
        requires
            self.wf(),
        ensures
            res is Some <==> k < self@.alternatives(r, nt).len(),
            res matches Some((tree, node)) ==> {
                let occ = self@.alternatives(r, nt)[k as int];
                &&& self@.valid_occurrence(occ)
                &&& tree@ == self@.trees[occ.0 as int]
                &&& node == occ.1
            },
    {
        let pred = Ghost(governed_by_other(self@.trees, r));
        match self.recorded(nt) {
            None => {
                proof {
                    reveal(Seq::filter);
                }
                None
            },
            Some(occs) => {
                let mut n: usize = 0;
                let mut i: usize = 0;
                proof {
                    reveal(Seq::filter);
                    assert(occs@.subrange(0, 0) =~= Seq::<Occurrence>::empty());
                }
                while i < occs.len()
                    invariant
                        i <= occs.len(),
                        self.wf(),
                        self@.index.contains_key(nt),
                        occs@ == self@.index[nt],
                        occs@ == self@.occurrences(nt),
                        pred@ == governed_by_other(self@.trees, r),
                        n == occs@.subrange(0, i as int).filter(pred@).len(),
                        n <= k,
                        n <= i,
                    decreases occs.len() - i,
                {
                    let occ = occs[i];
                    proof {
                        lemma_filter_step(occs@, pred@, i as int);
                        assert(self@.valid_occurrence(self@.index[nt][i as int]));
                    }
                    if self.is_alternative(occ, r) {
                        if n == k {
                            proof {
                                let head = occs@.subrange(0, i + 1);
                                let tail = occs@.subrange(i + 1, occs@.len() as int);
                                assert(occs@ =~= head + tail);
                                Seq::filter_distributes_over_add(head, tail, pred@);
                                assert(head.filter(pred@)[k as int] == occ);
                                assert(self@.alternatives(r, nt)[k as int] == occ);
                                assert(self.trees[occ.0 as int]@ == self@.trees[occ.0 as int]);
                            }
                            return Some((&self.trees[occ.0], occ.1));
                        }
                        n = n + 1;
                    }
                    i = i + 1;
                }
                proof {
                    assert(occs@.subrange(0, occs@.len() as int) =~= occs@);
                }
                None
            },
        }
    }

    /// Picks, with equal chances, one of the occurrences under the
    /// nonterminal of `r` whose node is governed by a rule other than `r`,
    /// and returns its tree and its node. There is none where no occurrence
    /// is recorded under that nonterminal, or where `r` governs them all.
    pub fn get_alternative_to(&self, r: RuleID, ctx: &Context) -> (res: Option<(&Tree, NodeID)>)
        requires
            self.wf(),
            r.0 < ctx@.len(),
        ensures
            res is Some <==> self@.alternatives(r, ctx@[r.0 as int]).len() > 0,
            res matches Some((tree, node)) ==> {
                &&& exists|k: int|
                    0 <= k < self@.alternatives(r, ctx@[r.0 as int]).len() && tree@
                        == self@.trees[(#[trigger] self@.alternatives(r, ctx@[r.0 as int])[k]).0 as int]
                        && node == self@.alternatives(r, ctx@[r.0 as int])[k].1
                &&& node.0 < tree@.len()
                &&& tree@[node.0 as int].rule != r
            },
    {
        let nt = ctx.get_nt(r);
        let count = self.count_alternatives(r, nt);
        match choose_below(count) {
            None => None,
            Some(k) => {
                let res = self.nth_alternative(r, nt, k);
                proof {
                    let alts = self@.alternatives(r, nt);
                    let pred = governed_by_other(self@.trees, r);
                    self@.occurrences(nt).lemma_filter_pred(pred, k as int);
                    assert(pred(alts[k as int]));
                }
                res
            },
        }
    }

    /// Picks, with equal chances, one of the persisted chunks and returns the
    /// path of its file, whose contents are the chunk. With fewer than two
    /// chunks there is nothing to pick from: no file is named, and the chunk
    /// handed out is the empty byte string.
    pub fn get_chunk(&self) -> (res: Option<String>)
        ensures
            res is None <==> self@.count < 2,
            res matches Some(path) ==> exists|id: nat|
                id < self@.count && path@ == #[trigger] chunk_path_spec(self@.work_dir, id),
    {
        if self.number_of_chunks < 2 {
            return None;
        }
        let id = random_below(self.number_of_chunks);
        let path = self.chunk_path(id);
        proof {
            assert(path@ == chunk_path_spec(self@.work_dir, id as nat));
        }
        Some(path)
    }
}

/// Filtering one element more of a sequence keeps what was filtered, and
/// appends the element where it passes.
proof fn lemma_filter_step<A>(s: Seq<A>, pred: spec_fn(A) -> bool, i: int)
    requires
        0 <= i < s.len(),
    ensures
        s.subrange(0, i + 1).filter(pred) == if pred(s[i]) {
            s.subrange(0, i).filter(pred).push(s[i])
        } else {
            s.subrange(0, i).filter(pred)
        },
{
    reveal(Seq::filter);
    assert(s.subrange(0, i + 1).drop_last() =~= s.subrange(0, i));
}

} // verus!
