//! What holds of every store, stated over its model.

use crate::layout::{chunk_path_spec, lemma_chunk_paths_distinct};
use crate::model::{
    governed_by_other, harvest, lemma_harvest_contains, lemma_harvest_no_duplicates,
    lemma_harvest_under_members, nonterm_of, within_cap, Occurrence, StoreState,
};
use crate::newtypes::{NTermID, RuleID};
use crate::tree::NodeView;
use vstd::prelude::*;

verus! {

/// No bytes are persisted twice: ingestion writes no file for bytes that the
/// store already holds, writes no two files with the same bytes, and leaves
/// every chunk held once.
pub proof fn law_no_chunk_twice(s: StoreState, tree: Seq<NodeView>, rules: Seq<NTermID>)
    requires
        s.wf(),
    ensures
        s.ingest(tree, rules).chunks.no_duplicates(),
        forall|k: int|
            0 <= k < s.chunk_files(tree).len() ==> !s.chunks.contains(
                (#[trigger] s.chunk_files(tree)[k]).1,
            ),
        forall|j: int, k: int|
            0 <= j < k < s.chunk_files(tree).len() ==> (#[trigger] s.chunk_files(tree)[j]).1 != (
            #[trigger] s.chunk_files(tree)[k]).1,
{
    let fresh = harvest(s.chunks, tree, tree.len());
    let all = s.chunks + fresh;
    lemma_harvest_no_duplicates(s.chunks, tree, tree.len());
    assert forall|k: int| 0 <= k < fresh.len() implies !s.chunks.contains(#[trigger] fresh[k]) by {
        if s.chunks.contains(fresh[k]) {
            let c = choose|c: int| 0 <= c < s.chunks.len() && s.chunks[c] == fresh[k];
            assert(all[c] == all[s.chunks.len() + k]);
        }
    }
    assert forall|j: int, k: int| 0 <= j < k < fresh.len() implies fresh[j] != fresh[k] by {
        assert(all[s.chunks.len() + j] != all[s.chunks.len() + k]);
    }
}

/// Where two trees hold a node each with the same serialization, and the
/// node of the first is within the size cap, ingesting the second after the
/// first writes no file with those bytes, and the store then holds them as
/// one chunk.
pub proof fn law_dedup_across_trees(
    s: StoreState,
    first: Seq<NodeView>,
    second: Seq<NodeView>,
    rules: Seq<NTermID>,
    i: int,
    j: int,
)
    requires
        s.wf(),
        0 <= i < first.len(),
        0 <= j < second.len(),
        within_cap(first[i]),
        first[i].text == second[j].text,
    ensures
        forall|k: int|
            0 <= k < s.ingest(first, rules).chunk_files(second).len() ==> (
            #[trigger] s.ingest(first, rules).chunk_files(second)[k]).1 != second[j].text,
        s.ingest(first, rules).ingest(second, rules).chunks.contains(second[j].text),
        s.ingest(first, rules).ingest(second, rules).chunks.no_duplicates(),
{
    let t = first[i].text;
    let fresh = harvest(s.chunks, first, first.len());
    let mid = s.ingest(first, rules);
    lemma_harvest_contains(s.chunks, first, first.len());
    if !s.chunks.contains(t) {
        assert(fresh.contains(t));
        let c = choose|c: int| 0 <= c < fresh.len() && fresh[c] == t;
        assert(mid.chunks[s.chunks.len() + c] == t);
    } else {
        let c = choose|c: int| 0 <= c < s.chunks.len() && s.chunks[c] == t;
        assert(mid.chunks[c] == t);
    }
    assert(mid.chunks.contains(t));
    lemma_harvest_contains(mid.chunks, second, second.len());
    let next = harvest(mid.chunks, second, second.len());
    assert forall|k: int| 0 <= k < next.len() implies #[trigger] next[k] != t by {
        if next[k] == t {
            assert(next.contains(t));
        }
    }
    let c = choose|c: int| 0 <= c < mid.chunks.len() && mid.chunks[c] == t;
    assert(mid.ingest(second, rules).chunks[c] == t);
    lemma_harvest_no_duplicates(s.chunks, first, first.len());
    lemma_harvest_no_duplicates(mid.chunks, second, second.len());
}

/// Every file that ingestion writes holds the serialization of a subtree of
/// at most thirty nodes.
pub proof fn law_size_cap(s: StoreState, tree: Seq<NodeView>, k: int)
    requires
        0 <= k < s.chunk_files(tree).len(),
    ensures
        exists|i: int|
            0 <= i < tree.len() && (#[trigger] tree[i]).size <= 30 && tree[i].text
                == s.chunk_files(tree)[k].1,
{
    let fresh = harvest(s.chunks, tree, tree.len());
    lemma_harvest_contains(s.chunks, tree, tree.len());
    assert(fresh.contains(fresh[k]));
}

/// A tree without a subtree of at most thirty nodes leaves the store as it
/// was, and no file is written for it.
pub proof fn law_oversized_tree_ignored(s: StoreState, tree: Seq<NodeView>, rules: Seq<NTermID>)
    requires
        forall|i: int| 0 <= i < tree.len() ==> (#[trigger] tree[i]).size > 30,
    ensures
        s.ingest(tree, rules) == s,
        s.chunk_files(tree).len() == 0,
{
    let fresh = harvest(s.chunks, tree, tree.len());
    lemma_harvest_contains(s.chunks, tree, tree.len());
    if fresh.len() > 0 {
        assert(fresh.contains(fresh[0]));
    }
}

/// A tree is kept exactly when it yields a chunk. One that yields none
/// leaves the store as it was: the number of trees, and every list of
/// occurrences. One that yields a chunk is kept under the next index.
pub proof fn law_retention(s: StoreState, tree: Seq<NodeView>, rules: Seq<NTermID>)
    ensures
        s.chunk_files(tree).len() == 0 ==> s.ingest(tree, rules) == s,
        s.chunk_files(tree).len() > 0 ==> s.ingest(tree, rules).trees == s.trees.push(tree),
{
}

/// A tree whose subtrees within the size cap are all held by the store
/// already yields no chunk, and so leaves the store as it was.
pub proof fn law_known_tree_dropped(s: StoreState, tree: Seq<NodeView>, rules: Seq<NTermID>)
    requires
        forall|i: int|
            0 <= i < tree.len() && within_cap(#[trigger] tree[i]) ==> s.chunks.contains(
                tree[i].text,
            ),
    ensures
        s.ingest(tree, rules) == s,
        s.chunk_files(tree).len() == 0,
{
    let fresh = harvest(s.chunks, tree, tree.len());
    lemma_harvest_contains(s.chunks, tree, tree.len());
    if fresh.len() > 0 {
        assert(fresh.contains(fresh[0]));
    }
}

/// What retrieval chooses from: each alternative to `r` under `nt` is one of
/// the occurrences recorded under `nt`, and no node of theirs is governed by
/// `r`.
pub proof fn law_alternatives_exclude_rule(s: StoreState, r: RuleID, nt: NTermID, k: int)
    requires
        0 <= k < s.alternatives(r, nt).len(),
    ensures
        s.occurrences(nt).contains(s.alternatives(r, nt)[k]),
        s.trees[s.alternatives(r, nt)[k].0 as int][s.alternatives(r, nt)[k].1.0 as int].rule
            != r,
{
    let pred = governed_by_other(s.trees, r);
    let alts = s.alternatives(r, nt);
    s.occurrences(nt).lemma_filter_pred(pred, k);
    assert(alts.contains(alts[k]));
    s.occurrences(nt).lemma_filter_contains_rev(pred, alts[k]);
}

/// The chunk that gets a number is the contents of the file of that number:
/// ingestion leaves the chunks that were numbered before as they were, and
/// hands out, for each number that it assigns, the file of that number with
/// the chunk of that number.
pub proof fn law_files_hold_chunks(
    s: StoreState,
    tree: Seq<NodeView>,
    rules: Seq<NTermID>,
    id: int,
)
    requires
        s.wf(),
        0 <= id < s.ingest(tree, rules).count,
    ensures
        id < s.ingest(tree, rules).chunks.len(),
        id < s.count ==> s.ingest(tree, rules).chunks[id] == s.chunks[id],
        id >= s.count ==> id - s.count < s.chunk_files(tree).len() && s.chunk_files(tree)[id
            - s.count] == (
            chunk_path_spec(s.work_dir, id as nat),
            s.ingest(tree, rules).chunks[id],
        ),
{
}

/// The counter grows by the number of files that ingestion writes, and no
/// path is used twice: not among those files, and not for a chunk numbered
/// before.
pub proof fn law_numbers_never_reused(s: StoreState, tree: Seq<NodeView>, rules: Seq<NTermID>)
    requires
        s.wf(),
    ensures
        s.ingest(tree, rules).count == s.count + s.chunk_files(tree).len(),
        s.ingest(tree, rules).work_dir == s.work_dir,
        forall|j: int, k: int|
            0 <= j < k < s.chunk_files(tree).len() ==> (#[trigger] s.chunk_files(tree)[j]).0 != (
            #[trigger] s.chunk_files(tree)[k]).0,
        forall|id: nat, k: int|
            id < s.count && 0 <= k < s.chunk_files(tree).len() ==> #[trigger] chunk_path_spec(
                s.work_dir,
                id,
            ) != (#[trigger] s.chunk_files(tree)[k]).0,
{
    let files = s.chunk_files(tree);
    assert forall|j: int, k: int| 0 <= j < k < files.len() implies (#[trigger] files[j]).0 != (
    #[trigger] files[k]).0 by {
        lemma_chunk_paths_distinct(s.work_dir, (s.count + j) as nat, (s.count + k) as nat);
    }
    assert forall|id: nat, k: int| id < s.count && 0 <= k < files.len() implies #[trigger] chunk_path_spec(
        s.work_dir,
        id,
    ) != (#[trigger] files[k]).0 by {
        lemma_chunk_paths_distinct(s.work_dir, id, (s.count + k) as nat);
    }
}

/// The store only grows: ingestion keeps every chunk under its number, every
/// tree under its index, and every occurrence at its place in its list.
pub proof fn law_store_only_grows(s: StoreState, tree: Seq<NodeView>, rules: Seq<NTermID>)
    ensures
        s.chunks.is_prefix_of(s.ingest(tree, rules).chunks),
        s.trees.is_prefix_of(s.ingest(tree, rules).trees),
        s.count <= s.ingest(tree, rules).count,
        forall|nt: NTermID| #[trigger]
            s.occurrences(nt).is_prefix_of(s.ingest(tree, rules).occurrences(nt)),
{
    let t = s.ingest(tree, rules);
    assert forall|nt: NTermID| #[trigger] s.occurrences(nt).is_prefix_of(t.occurrences(nt)) by {
        if harvest(s.chunks, tree, tree.len()).len() > 0 && !t.index.contains_key(nt) {
            assert(s.occurrences(nt) =~= Seq::<Occurrence>::empty());
        }
    }
}

/// Each occurrence that ingestion records lies in the tree that is being
/// ingested, at a node whose subtree is within the size cap, and is filed
/// under the nonterminal of the rule that governs the node.
pub proof fn law_occurrences_filed_by_rule(
    s: StoreState,
    tree: Seq<NodeView>,
    rules: Seq<NTermID>,
    nt: NTermID,
    k: int,
)
    requires
        tree.len() <= usize::MAX,
        s.trees.len() <= usize::MAX,
        s.occurrences(nt).len() <= k < s.ingest(tree, rules).occurrences(nt).len(),
    ensures
        s.ingest(tree, rules).occurrences(nt)[k].0 == s.trees.len(),
        s.ingest(tree, rules).trees[s.trees.len() as int] == tree,
        s.ingest(tree, rules).occurrences(nt)[k].1.0 < tree.len(),
        within_cap(tree[s.ingest(tree, rules).occurrences(nt)[k].1.0 as int]),
        nonterm_of(rules, tree, s.ingest(tree, rules).occurrences(nt)[k].1.0 as int) == nt,
{
    lemma_harvest_under_members(
        s.chunks,
        tree,
        rules,
        s.trees.len() as usize,
        nt,
        tree.len(),
    );
    let fresh = s.fresh_under(tree, rules, nt, tree.len());
    assert(s.ingest(tree, rules).occurrences(nt)[k] == fresh[k - s.occurrences(nt).len()]);
}

} // verus!
