//! The state of a store laid out as plain values, and a store made of them.

use crate::dedup::{contents, ChunkSet};
use crate::model::{
    catalogue, distinct_keys, has_entry, lemma_catalogue_entry, occurrence_ok, Entries,
    Occurrence, StoreState, MAX_CHUNK_NODES,
};
use crate::newtypes::NTermID;
use crate::store::{trees_view, ChunkStore};
use crate::tree::Tree;
use std::collections::HashMap;
use vstd::prelude::*;
use vstd::std_specs::iter::IteratorSpec;

verus! {

broadcast use vstd::std_specs::hash::group_hash_axioms;

/// The state of a store laid out as plain values, as a checkpoint holds it.
pub struct StoreParts {
    /// The catalogue: each nonterminal with an occurrence, and its
    /// occurrences, oldest first.
    pub nts_to_chunks: Vec<(NTermID, Vec<Occurrence>)>,
    /// The accepted chunks, by their numbers.
    pub seen_outputs: Vec<Vec<u8>>,
    /// The accepted trees, by their indices.
    pub trees: Vec<Tree>,
    /// The directory below which the chunk files are kept.
    pub work_dir: String,
    /// The number of accepted chunks.
    pub number_of_chunks: usize,
}

/// The entries of a catalogue that is laid out as a list.
pub open spec fn entries_of(listed: Seq<(NTermID, Vec<Occurrence>)>) -> Entries {
    Seq::new(listed.len(), |e: int| (listed[e].0, listed[e].1@))
}

impl View for StoreParts {
    type V = StoreState;

    open spec fn view(&self) -> StoreState {
        StoreState {
            index: catalogue(entries_of(self.nts_to_chunks@)),
            chunks: contents(self.seen_outputs@),
            trees: trees_view(self.trees@),
            work_dir: self.work_dir@,
            count: self.number_of_chunks as nat,
        }
    }
}

impl StoreParts {
    /// The parts are those of a store: no nonterminal is listed twice, and
    /// the invariant of the store holds of what they lay out.
    pub open spec fn wf(&self) -> bool {
        &&& distinct_keys(entries_of(self.nts_to_chunks@))
        &&& self@.wf()
    }
}

/// Some of the first `k` occurrences of `list` lies in the tree with index `t`.
spec fn marked_in(list: Seq<Occurrence>, k: int, t: int) -> bool {
    exists|j: int| 0 <= j < k && j < list.len() && (#[trigger] list[j]).0 == t
}

/// Some occurrence of the first `e` entries lies in the tree with index `t`.
spec fn marked_by(entries: Entries, e: int, t: int) -> bool {
    exists|a: int|
        0 <= a < e && a < entries.len() && marked_in(
            (#[trigger] entries[a]).1,
            entries[a].1.len() as int,
            t,
        )
}

/// Whether `occ` names a node of one of `trees` whose subtree is within the
/// size cap and whose serialization is among `seen`.
fn check_occurrence(trees: &Vec<Tree>, seen: &ChunkSet, occ: Occurrence) -> (ok: bool)
    requires
        seen.wf(),
    ensures
        ok == occurrence_ok(trees_view(trees@), seen@, occ),
{
    if occ.0 >= trees.len() {
        return false;
    }
    let tree = &trees[occ.0];
    proof {
        assert(trees_view(trees@)[occ.0 as int] == tree@);
    }
    if occ.1.0 >= tree.size() {
        return false;
    }
    let node = &tree.nodes[occ.1.0];
    proof {
        assert(tree@[occ.1.0 as int] == node@);
    }
    node.size <= MAX_CHUNK_NODES && seen.contains(&node.text)
}

/// Copies `occs` where each of them is valid, and marks the trees in which
/// they lie.
fn check_list(
    trees: &Vec<Tree>,
    seen: &ChunkSet,
    occs: &Vec<Occurrence>,
    marks: &mut Vec<bool>,
) -> (res: Option<Vec<Occurrence>>)
    requires
        seen.wf(),
        old(marks)@.len() == trees@.len(),
    ensures
        final(marks)@.len() == trees@.len(),
        res is Some <==> forall|k: int|
            0 <= k < occs@.len() ==> occurrence_ok(trees_view(trees@), seen@, #[trigger] occs@[k]),
        res matches Some(list) ==> list@ == occs@ && forall|t: int|
            0 <= t < trees@.len() ==> (#[trigger] final(marks)@[t] <==> old(marks)@[t] || marked_in(
                occs@,
                occs@.len() as int,
                t,
            )),
{
    let ghost before = marks@;
    let mut list: Vec<Occurrence> = Vec::new();
    let mut k: usize = 0;
    while k < occs.len()
        invariant
            k <= occs.len(),
            seen.wf(),
            marks@.len() == trees@.len(),
            before.len() == trees@.len(),
            list@ == occs@.subrange(0, k as int),
            forall|j: int|
                0 <= j < k ==> occurrence_ok(trees_view(trees@), seen@, #[trigger] occs@[j]),
            forall|t: int|
                0 <= t < trees@.len() ==> (#[trigger] marks@[t] <==> before[t] || marked_in(
                    occs@,
                    k as int,
                    t,
                )),
        decreases occs.len() - k,
    {
        let occ = occs[k];
        if !check_occurrence(trees, seen, occ) {
            return None;
        }
        let ghost earlier = marks@;
        marks[occ.0] = true;
        list.push(occ);
        proof {
            assert(list@ =~= occs@.subrange(0, k + 1));
            assert forall|t: int| 0 <= t < trees@.len() implies (#[trigger] marks@[t] <==> before[t]
                || marked_in(occs@, k + 1, t)) by {
                if marked_in(occs@, k as int, t) {
                    let j = choose|j: int|
                        0 <= j < k && j < occs@.len() && (#[trigger] occs@[j]).0 == t;
                    assert(occs@[j].0 == t);
                }
                if t == occ.0 {
                    assert(occs@[k as int].0 == t);
                }
                if marked_in(occs@, k + 1, t) {
                    let j = choose|j: int|
                        0 <= j < k + 1 && j < occs@.len() && (#[trigger] occs@[j]).0 == t;
                    if j < k {
                        assert(occs@[j].0 == t);
                        assert(marked_in(occs@, k as int, t));
                    }
                }
            }
        }
        k = k + 1;
    }
    proof {
        assert(occs@.subrange(0, occs@.len() as int) =~= occs@);
    }
    Some(list)
}

impl ChunkStore {
    /// The nonterminals under which an occurrence is recorded, each once, in
    /// no particular order.
    pub fn nonterminals(&self) -> (list: Vec<NTermID>)
        ensures
            list@.no_duplicates(),
            forall|nt: NTermID|
                #![trigger list@.contains(nt)]
                #![trigger self@.index.contains_key(nt)]
                list@.contains(nt) <==> self@.index.contains_key(nt),
    {
        let mut list: Vec<NTermID> = Vec::new();
        let ghost all = self.nts_to_chunks.keys().remaining();
        for key in it: self.nts_to_chunks.keys()
            invariant
                it.seq() == all,
                list@.len() == it.index(),
                forall|j: int| 0 <= j < list@.len() ==> (#[trigger] list@[j]).0 == *all[j],
        {
            list.push(NTermID(*key));
        }
        proof {
            let keys = all.unref();
            assert(keys.to_set() == self.nts_to_chunks@.dom());
            assert forall|a: int, b: int|
                0 <= a < list@.len() && 0 <= b < list@.len() && a != b implies list@[a]
                != list@[b] by {
                assert(*all[a] != *all[b]);
            }
            assert forall|nt: NTermID| list@.contains(nt) <==> self@.index.contains_key(nt) by {
                if list@.contains(nt) {
                    let j = choose|j: int| 0 <= j < list@.len() && list@[j] == nt;
                    assert(keys[j] == nt.0);
                    assert(keys.to_set().contains(nt.0));
                }
                if self@.index.contains_key(nt) {
                    assert(keys.to_set().contains(nt.0));
                    let j = choose|j: int| 0 <= j < keys.len() && keys[j] == nt.0;
                    assert(list@[j] == nt);
                }
            }
        }
        list
    }

    /// Lays the store out as plain values.
    pub fn into_parts(self) -> (parts: StoreParts)
        requires
            self.wf(),
        ensures
            parts.wf(),
            parts@ == self@,
    {
        let keys = self.nonterminals();
        let mut listed: Vec<(NTermID, Vec<Occurrence>)> = Vec::new();
        let mut i: usize = 0;
        while i < keys.len()
            invariant
                i <= keys.len(),
                self.wf(),
                listed@.len() == i,
                forall|nt: NTermID|
                    #![trigger keys@.contains(nt)]
                    #![trigger self@.index.contains_key(nt)]
                    keys@.contains(nt) <==> self@.index.contains_key(nt),
                forall|a: int|
                    0 <= a < i ==> (#[trigger] listed@[a]).0 == keys@[a] && self@.index.contains_key(
                        keys@[a],
                    ) && listed@[a].1@ == self@.index[keys@[a]],
            decreases keys.len() - i,
        {
            let nt = keys[i];
            proof {
                assert(keys@.contains(keys@[i as int]));
            }
            let occs = self.occurrences(nt);
            listed.push((nt, occs));
            i = i + 1;
        }
        let ghost view = self@;
        let ghost entries = entries_of(listed@);
        proof {
            assert forall|a: int, b: int| 0 <= a < b < entries.len() implies (#[trigger] entries[a]).0
                != (#[trigger] entries[b]).0 by {
                assert(listed@[a].0 == keys@[a] && listed@[b].0 == keys@[b]);
            }
            assert forall|nt: NTermID| has_entry(entries, nt) <==> view.index.contains_key(nt) by {
                if has_entry(entries, nt) {
                    let e = choose|e: int| 0 <= e < entries.len() && (#[trigger] entries[e]).0 == nt;
                    assert(listed@[e].0 == keys@[e]);
                    assert(keys@.contains(keys@[e]));
                }
                if view.index.contains_key(nt) {
                    let j = choose|j: int| 0 <= j < keys@.len() && keys@[j] == nt;
                    assert(listed@[j].0 == nt);
                    assert(entries[j].0 == nt);
                }
            }
            assert forall|nt: NTermID| has_entry(entries, nt) implies #[trigger] catalogue(entries)[nt]
                == view.index[nt] by {
                let e = choose|e: int| 0 <= e < entries.len() && (#[trigger] entries[e]).0 == nt;
                lemma_catalogue_entry(entries, e);
                assert(listed@[e].0 == keys@[e]);
            }
            assert(catalogue(entries) =~= view.index);
        }
        let ChunkStore { nts_to_chunks: _, seen_outputs, trees, work_dir, number_of_chunks } = self;
        StoreParts {
            nts_to_chunks: listed,
            seen_outputs: seen_outputs.into_vec(),
            trees,
            work_dir,
            number_of_chunks,
        }
    }

    /// The store that `parts` lay out, where they are those of a store;
    /// nothing where they are not.
    pub fn from_parts(parts: StoreParts) -> (res: Option<ChunkStore>)
        ensures
            res is Some <==> parts.wf(),
            res matches Some(store) ==> store.wf() && store@ == parts@,
    {
        let ghost view = parts@;
        let ghost entries = entries_of(parts.nts_to_chunks@);
        let ghost ok = parts.wf();
        let StoreParts { nts_to_chunks: listed, seen_outputs, trees, work_dir, number_of_chunks } =
            parts;
        if number_of_chunks != seen_outputs.len() {
            return None;
        }
        let seen = match ChunkSet::from_vec(seen_outputs) {
            Some(seen) => seen,
            None => {
                return None;
            },
        };
        let mut marks: Vec<bool> = Vec::new();
        while marks.len() < trees.len()
            invariant
                marks@.len() <= trees@.len(),
                forall|t: int| 0 <= t < marks@.len() ==> !#[trigger] marks@[t],
            decreases trees.len() - marks.len(),
        {
            marks.push(false);
        }
        let mut index: HashMap<usize, Vec<Occurrence>> = HashMap::new();
        let mut e: usize = 0;
        while e < listed.len()
            invariant
                e <= listed.len(),
                entries == entries_of(listed@),
                ok == parts.wf(),
                ok == (distinct_keys(entries) && view.wf()),
                view.index == catalogue(entries),
                view.chunks == seen@,
                view.trees == trees_view(trees@),
                seen.wf(),
                marks@.len() == trees@.len(),
                forall|nt: NTermID|
                    #![trigger index@.contains_key(nt.0)]
                    index@.contains_key(nt.0) <==> has_entry(entries.subrange(0, e as int), nt),
                forall|a: int|
                    0 <= a < e ==> index@.contains_key((#[trigger] entries[a]).0.0)
                        && index@[entries[a].0.0]@ == entries[a].1,
                distinct_keys(entries.subrange(0, e as int)),
                forall|a: int| 0 <= a < e ==> (#[trigger] entries[a]).1.len() > 0,
                forall|a: int, k: int|
                    0 <= a < e && 0 <= k < entries[a].1.len() ==> occurrence_ok(
                        view.trees,
                        view.chunks,
                        #[trigger] entries[a].1[k],
                    ),
                forall|t: int|
                    0 <= t < trees@.len() ==> (#[trigger] marks@[t] <==> marked_by(
                        entries,
                        e as int,
                        t,
                    )),
            decreases listed.len() - e,
        {
            let nt = listed[e].0;
            let ghost head = entries.subrange(0, e as int);
            let ghost earlier = marks@;
            proof {
                assert(entries[e as int] == (nt, listed@[e as int].1@));
            }
            if index.contains_key(&nt.0) {
                proof {
                    let a = choose|a: int| 0 <= a < head.len() && (#[trigger] head[a]).0 == nt;
                    assert(entries[a].0 == entries[e as int].0);
                }
                return None;
            }
            if listed[e].1.len() == 0 {
                proof {
                    if distinct_keys(entries) {
                        lemma_catalogue_entry(entries, e as int);
                    }
                }
                return None;
            }
            let list = match check_list(&trees, &seen, &listed[e].1, &mut marks) {
                Some(list) => list,
                None => {
                    proof {
                        if distinct_keys(entries) {
                            lemma_catalogue_entry(entries, e as int);
                            let occs = entries[e as int].1;
                            let k = choose|k: int|
                                0 <= k < occs.len() && !occurrence_ok(
                                    view.trees,
                                    view.chunks,
                                    #[trigger] occs[k],
                                );
                            assert(!view.valid_occurrence(view.index[nt][k]));
                        }
                    }
                    return None;
                },
            };
            let ghost filed = index@;
            index.insert(nt.0, list);
            proof {
                let next = entries.subrange(0, e + 1);
                assert(next =~= head.push(entries[e as int]));
                assert forall|a: int, b: int| 0 <= a < b < next.len() implies (#[trigger] next[a]).0
                    != (#[trigger] next[b]).0 by {
                    if b < e {
                        assert(head[a].0 != head[b].0);
                    } else {
                        assert(head[a].0 == next[a].0);
                        assert(has_entry(head, next[a].0));
                    }
                }
                assert forall|other: NTermID|
                    #![trigger index@.contains_key(other.0)]
                    index@.contains_key(other.0) <==> has_entry(next, other) by {
                    if has_entry(next, other) {
                        let a = choose|a: int| 0 <= a < next.len() && (#[trigger] next[a]).0 == other;
                        if a < e {
                            assert(head[a].0 == other);
                            assert(has_entry(head, other));
                        }
                    }
                    if index@.contains_key(other.0) {
                        if other == nt {
                            assert(next[e as int].0 == other);
                        } else {
                            assert(filed.contains_key(other.0));
                            let a = choose|a: int|
                                0 <= a < head.len() && (#[trigger] head[a]).0 == other;
                            assert(next[a].0 == other);
                        }
                    }
                }
                assert forall|a: int| 0 <= a < e + 1 implies index@.contains_key(
                    (#[trigger] entries[a]).0.0,
                ) && index@[entries[a].0.0]@ == entries[a].1 by {
                    if a < e {
                        assert(head[a].0 == entries[a].0);
                        assert(has_entry(head, entries[a].0));
                    }
                }
                assert forall|t: int| 0 <= t < trees@.len() implies (#[trigger] marks@[t]
                    <==> marked_by(entries, e + 1, t)) by {
                    let occs = entries[e as int].1;
                    if marked_by(entries, e as int, t) {
                        let a = choose|a: int|
                            0 <= a < e && a < entries.len() && marked_in(
                                (#[trigger] entries[a]).1,
                                entries[a].1.len() as int,
                                t,
                            );
                        assert(marked_in(entries[a].1, entries[a].1.len() as int, t));
                    }
                    if marked_in(occs, occs.len() as int, t) {
                        assert(marked_in(
                            entries[e as int].1,
                            entries[e as int].1.len() as int,
                            t,
                        ));
                    }
                    if marked_by(entries, e + 1, t) {
                        let a = choose|a: int|
                            0 <= a < e + 1 && a < entries.len() && marked_in(
                                (#[trigger] entries[a]).1,
                                entries[a].1.len() as int,
                                t,
                            );
                        if a < e {
                            assert(marked_by(entries, e as int, t));
                        }
                    }
                }
            }
            e = e + 1;
        }
        proof {
            assert(entries.subrange(0, e as int) =~= entries);
        }
        let mut t: usize = 0;
        while t < trees.len()
            invariant
                t <= trees.len(),
                e == entries.len(),
                view.index == catalogue(entries),
                ok == parts.wf(),
                ok == (distinct_keys(entries) && view.wf()),
                view.trees == trees_view(trees@),
                marks@.len() == trees@.len(),
                forall|x: int|
                    0 <= x < trees@.len() ==> (#[trigger] marks@[x] <==> marked_by(
                        entries,
                        e as int,
                        x,
                    )),
                forall|x: int| 0 <= x < t ==> #[trigger] marks@[x],
            decreases trees.len() - t,
        {
            if !marks[t] {
                proof {
                    if ok {
                        assert(view.referenced(t as int));
                        let (nt, k) = choose|nt: NTermID, k: int|
                            view.index.contains_key(nt) && 0 <= k < view.index[nt].len() && (
                            #[trigger] view.index[nt][k]).0 == t;
                        assert(has_entry(entries, nt));
                        let a = choose|a: int|
                            0 <= a < entries.len() && (#[trigger] entries[a]).0 == nt;
                        lemma_catalogue_entry(entries, a);
                        assert(entries[a].1[k].0 == t);
                        assert(marked_in(entries[a].1, entries[a].1.len() as int, t as int));
                        assert(marked_by(entries, e as int, t as int));
                    }
                }
                return None;
            }
            t = t + 1;
        }
        let store = ChunkStore {
            nts_to_chunks: index,
            seen_outputs: seen,
            trees,
            work_dir,
            number_of_chunks,
        };
        proof {
            assert forall|nt: NTermID| has_entry(entries, nt) implies #[trigger] store@.index[nt]
                == view.index[nt] by {
                let a = choose|a: int| 0 <= a < entries.len() && (#[trigger] entries[a]).0 == nt;
                lemma_catalogue_entry(entries, a);
            }
            assert(store@.index =~= view.index);
            assert(store@ == view);
            assert forall|nt: NTermID| #[trigger] view.index.contains_key(nt) implies view.index[nt].len()
                > 0 by {
                let a = choose|a: int| 0 <= a < entries.len() && (#[trigger] entries[a]).0 == nt;
                lemma_catalogue_entry(entries, a);
            }
            assert forall|nt: NTermID, k: int|
                view.index.contains_key(nt) && 0 <= k < view.index[nt].len() implies view.valid_occurrence(
            #[trigger] view.index[nt][k]) by {
                let a = choose|a: int| 0 <= a < entries.len() && (#[trigger] entries[a]).0 == nt;
                lemma_catalogue_entry(entries, a);
                assert(occurrence_ok(view.trees, view.chunks, entries[a].1[k]));
            }
            assert forall|x: int| 0 <= x < view.trees.len() implies #[trigger] view.referenced(x) by {
                assert(marks@[x]);
                assert(marked_by(entries, e as int, x));
                let a = choose|a: int|
                    0 <= a < e && a < entries.len() && marked_in(
                        (#[trigger] entries[a]).1,
                        entries[a].1.len() as int,
                        x,
                    );
                let occs = entries[a].1;
                let k = choose|k: int|
                    0 <= k < occs.len() && k < occs.len() && (#[trigger] occs[k]).0 == x;
                lemma_catalogue_entry(entries, a);
                assert(view.index[entries[a].0][k].0 == x);
            }
        }
        Some(store)
    }
}

} // verus!
