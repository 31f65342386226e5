//! The chunk store as a mathematical value, and what ingestion and retrieval
//! mean on it.

use crate::layout::chunk_path_spec;
use crate::newtypes::{NTermID, NodeID, RuleID};
use crate::tree::NodeView;
use vstd::prelude::*;

verus! {

/// The largest subtree, in nodes, that becomes a chunk.
pub const MAX_CHUNK_NODES: usize = 30;

/// A place where a chunk can be found: the index of an accepted tree, and a
/// node of that tree.
pub type Occurrence = (usize, NodeID);

/// The state of a chunk store.
pub struct StoreState {
    /// For each nonterminal with a chunk, the occurrences recorded under it,
    /// oldest first.
    pub index: Map<NTermID, Seq<Occurrence>>,
    /// The accepted chunks; the one at position `k` is persisted in file `k`.
    pub chunks: Seq<Seq<u8>>,
    /// The accepted trees.
    pub trees: Seq<Seq<NodeView>>,
    /// The directory below which the chunk files are kept.
    pub work_dir: Seq<char>,
    /// The number of chunks accepted so far, which is the number of the next
    /// chunk file.
    pub count: nat,
}

/// A file to be written for a chunk: its path and its contents.
pub type FileView = (Seq<char>, Seq<u8>);

/// The subtree at `node` is small enough to become a chunk.
pub open spec fn within_cap(node: NodeView) -> bool {
    node.size <= MAX_CHUNK_NODES
}

/// Node `i` of `tree` yields a new chunk for a store that holds the chunks
/// `seen`: its subtree is within the size cap, and its serialization is
/// neither among `seen` nor that of an earlier node within the cap.
pub open spec fn is_novel(seen: Seq<Seq<u8>>, tree: Seq<NodeView>, i: int) -> bool {
    &&& 0 <= i < tree.len()
    &&& within_cap(tree[i])
    &&& !seen.contains(tree[i].text)
    &&& forall|j: int| 0 <= j < i && within_cap(#[trigger] tree[j]) ==> tree[j].text != tree[i].text
}

/// The chunks that the first `n` nodes of `tree` yield, in node order.
pub open spec fn harvest(seen: Seq<Seq<u8>>, tree: Seq<NodeView>, n: nat) -> Seq<Seq<u8>>
    decreases n,
{
    if n == 0 {
        Seq::empty()
    } else {
        let before = harvest(seen, tree, (n - 1) as nat);
        if is_novel(seen, tree, n - 1) {
            before.push(tree[n - 1].text)
        } else {
            before
        }
    }
}

/// The nonterminal of the rule that governs node `i` of `tree`.
pub open spec fn nonterm_of(rules: Seq<NTermID>, tree: Seq<NodeView>, i: int) -> NTermID {
    rules[tree[i].rule.0 as int]
}

/// The occurrences that the first `n` nodes of `tree` yield under the
/// nonterminal `nt`, in node order, when the tree gets the index `tid`.
pub open spec fn harvest_under(
    seen: Seq<Seq<u8>>,
    tree: Seq<NodeView>,
    rules: Seq<NTermID>,
    tid: usize,
    nt: NTermID,
    n: nat,
) -> Seq<Occurrence>
    decreases n,
{
    if n == 0 {
        Seq::empty()
    } else {
        let before = harvest_under(seen, tree, rules, tid, nt, (n - 1) as nat);
        if is_novel(seen, tree, n - 1) && nonterm_of(rules, tree, n - 1) == nt {
            before.push((tid, NodeID((n - 1) as usize)))
        } else {
            before
        }
    }
}

/// The test that retrieval puts to an occurrence: its node is governed by a
/// rule other than `r`.
pub open spec fn governed_by_other(trees: Seq<Seq<NodeView>>, r: RuleID) -> spec_fn(
    Occurrence,
) -> bool {
    |occ: Occurrence| trees[occ.0 as int][occ.1.0 as int].rule != r
}

/// `occ` names a node of one of `trees` whose subtree is within the size cap
/// and whose serialization is one of `chunks`.
pub open spec fn occurrence_ok(
    trees: Seq<Seq<NodeView>>,
    chunks: Seq<Seq<u8>>,
    occ: Occurrence,
) -> bool {
    &&& occ.0 < trees.len()
    &&& occ.1.0 < trees[occ.0 as int].len()
    &&& within_cap(trees[occ.0 as int][occ.1.0 as int])
    &&& chunks.contains(trees[occ.0 as int][occ.1.0 as int].text)
}

/// A catalogue written out as a list: each nonterminal with its occurrences.
pub type Entries = Seq<(NTermID, Seq<Occurrence>)>;

/// No nonterminal has two entries.
pub open spec fn distinct_keys(entries: Entries) -> bool {
    forall|a: int, b: int|
        0 <= a < b < entries.len() ==> (#[trigger] entries[a]).0 != (#[trigger] entries[b]).0
}

/// `nt` has an entry.
pub open spec fn has_entry(entries: Entries, nt: NTermID) -> bool {
    exists|e: int| 0 <= e < entries.len() && (#[trigger] entries[e]).0 == nt
}

/// The catalogue that a list of entries with distinct keys writes out.
pub open spec fn catalogue(entries: Entries) -> Map<NTermID, Seq<Occurrence>> {
    Map::new(
        |nt: NTermID| has_entry(entries, nt),
        |nt: NTermID|
            entries[choose|e: int| 0 <= e < entries.len() && (#[trigger] entries[e]).0 == nt].1,
    )
}

impl StoreState {
    /// The store that a session starts with.
    pub open spec fn empty(work_dir: Seq<char>) -> StoreState {
        StoreState {
            index: Map::empty(),
            chunks: Seq::empty(),
            trees: Seq::empty(),
            work_dir,
            count: 0,
        }
    }

    /// The occurrences recorded under `nt`, oldest first.
    pub open spec fn occurrences(self, nt: NTermID) -> Seq<Occurrence> {
        if self.index.contains_key(nt) {
            self.index[nt]
        } else {
            Seq::empty()
        }
    }

    /// `occ` names a node of an accepted tree whose subtree is within the
    /// size cap and whose serialization is an accepted chunk.
    pub open spec fn valid_occurrence(self, occ: Occurrence) -> bool {
        occurrence_ok(self.trees, self.chunks, occ)
    }

    /// Some occurrence lies in the tree with index `t`.
    pub open spec fn referenced(self, t: int) -> bool {
        exists|nt: NTermID, k: int|
            self.index.contains_key(nt) && 0 <= k < self.index[nt].len() && (
            #[trigger] self.index[nt][k]).0 == t
    }

    /// The invariant of the store: the counter is the number of chunks; no
    /// chunk is held twice; a nonterminal is a key only with an occurrence;
    /// every occurrence is valid; every accepted tree holds an occurrence.
    pub open spec fn wf(self) -> bool {
        &&& self.count == self.chunks.len()
        &&& self.chunks.no_duplicates()
        &&& forall|nt: NTermID| #[trigger]
            self.index.contains_key(nt) ==> self.index[nt].len() > 0
        &&& forall|nt: NTermID, k: int|
            self.index.contains_key(nt) && 0 <= k < self.index[nt].len()
                ==> self.valid_occurrence(#[trigger] self.index[nt][k])
        &&& forall|t: int| 0 <= t < self.trees.len() ==> #[trigger] self.referenced(t)
    }

    /// The occurrences that the first `n` nodes of `tree` add under `nt`
    /// when the tree is ingested.
    pub open spec fn fresh_under(
        self,
        tree: Seq<NodeView>,
        rules: Seq<NTermID>,
        nt: NTermID,
        n: nat,
    ) -> Seq<Occurrence> {
        harvest_under(self.chunks, tree, rules, self.trees.len() as usize, nt, n)
    }

    /// The catalogue once the first `n` nodes of `tree` have been taken in:
    /// under each nonterminal, what was recorded before, followed by what
    /// those nodes yield.
    pub open spec fn index_after(
        self,
        tree: Seq<NodeView>,
        rules: Seq<NTermID>,
        n: nat,
    ) -> Map<NTermID, Seq<Occurrence>> {
        Map::new(
            |nt: NTermID|
                self.index.contains_key(nt) || self.fresh_under(tree, rules, nt, n).len() > 0,
            |nt: NTermID| self.occurrences(nt) + self.fresh_under(tree, rules, nt, n),
        )
    }

    /// The store after `tree` has been offered to it. A tree that yields no
    /// chunk leaves the store as it was; otherwise the chunks and occurrences
    /// that it yields are appended, and the tree is kept under the next index.
    pub open spec fn ingest(self, tree: Seq<NodeView>, rules: Seq<NTermID>) -> StoreState {
        let fresh = harvest(self.chunks, tree, tree.len());
        if fresh.len() == 0 {
            self
        } else {
            StoreState {
                index: self.index_after(tree, rules, tree.len()),
                chunks: self.chunks + fresh,
                trees: self.trees.push(tree),
                work_dir: self.work_dir,
                count: self.count + fresh.len(),
            }
        }
    }

    /// The files to be written when `tree` is ingested: one for each chunk
    /// that it yields, numbered on from the counter.
    pub open spec fn chunk_files(self, tree: Seq<NodeView>) -> Seq<FileView> {
        let fresh = harvest(self.chunks, tree, tree.len());
        Seq::new(
            fresh.len(),
            |k: int| (chunk_path_spec(self.work_dir, (self.count + k) as nat), fresh[k]),
        )
    }

    /// The occurrences under `nt` whose node is governed by a rule other
    /// than `r`, oldest first.
    pub open spec fn alternatives(self, r: RuleID, nt: NTermID) -> Seq<Occurrence> {
        self.occurrences(nt).filter(governed_by_other(self.trees, r))
    }
}

/// What the first `n` nodes of a tree yield are the serializations, not among
/// `seen`, of its nodes within the size cap.
pub proof fn lemma_harvest_contains(seen: Seq<Seq<u8>>, tree: Seq<NodeView>, n: nat)
    requires
        n <= tree.len(),
    ensures
        forall|t: Seq<u8>| #[trigger]
            harvest(seen, tree, n).contains(t) <==> !seen.contains(t) && exists|j: int|
                0 <= j < n && within_cap(#[trigger] tree[j]) && tree[j].text == t,
    decreases n,
{
    if n > 0 {
        let m = (n - 1) as nat;
        let before = harvest(seen, tree, m);
        let now = harvest(seen, tree, n);
        lemma_harvest_contains(seen, tree, m);
        assert forall|t: Seq<u8>| #[trigger]
            now.contains(t) <==> !seen.contains(t) && exists|j: int|
                0 <= j < n && within_cap(#[trigger] tree[j]) && tree[j].text == t by {
            if now.contains(t) {
                let k = choose|k: int| 0 <= k < now.len() && now[k] == t;
                if k < before.len() {
                    assert(before[k] == t);
                    assert(before.contains(t));
                } else {
                    assert(is_novel(seen, tree, m as int));
                    assert(within_cap(tree[m as int]) && tree[m as int].text == t);
                }
            }
            if !seen.contains(t) && exists|j: int|
                0 <= j < n && within_cap(#[trigger] tree[j]) && tree[j].text == t {
                let j = choose|j: int|
                    0 <= j < n && within_cap(#[trigger] tree[j]) && tree[j].text == t;
                if is_novel(seen, tree, m as int) && tree[m as int].text == t {
                    assert(now.last() == t);
                } else if j < m {
                    assert(before.contains(t));
                    let k = choose|k: int| 0 <= k < before.len() && before[k] == t;
                    assert(now[k] == t);
                } else {
                    assert(j == m);
                    assert(!is_novel(seen, tree, m as int));
                    let e = choose|e: int|
                        0 <= e < m && within_cap(#[trigger] tree[e]) && tree[e].text
                            == tree[m as int].text;
                    assert(before.contains(t));
                    let k = choose|k: int| 0 <= k < before.len() && before[k] == t;
                    assert(now[k] == t);
                }
            }
        }
    } else {
        assert forall|t: Seq<u8>| !(#[trigger] harvest(seen, tree, n).contains(t)) by {}
    }
}

/// A node within the size cap yields a chunk exactly when its serialization
/// is not among the chunks held once the nodes before it have been taken in.
pub proof fn lemma_novel_iff_unseen(seen: Seq<Seq<u8>>, tree: Seq<NodeView>, i: nat)
    requires
        i < tree.len(),
    ensures
        is_novel(seen, tree, i as int) <==> within_cap(tree[i as int]) && !(seen + harvest(
            seen,
            tree,
            i,
        )).contains(tree[i as int].text),
{
    lemma_harvest_contains(seen, tree, i);
    lemma_contains_either(seen, harvest(seen, tree, i), tree[i as int].text);
}

/// What two lists joined hold is what one of them holds.
pub proof fn lemma_contains_either(a: Seq<Seq<u8>>, b: Seq<Seq<u8>>, t: Seq<u8>)
    ensures
        (a + b).contains(t) <==> a.contains(t) || b.contains(t),
{
    if (a + b).contains(t) {
        let k = choose|k: int| 0 <= k < (a + b).len() && (a + b)[k] == t;
        if k < a.len() {
            assert(a[k] == t);
        } else {
            assert(b[k - a.len()] == t);
        }
    }
    if a.contains(t) {
        let k = choose|k: int| 0 <= k < a.len() && a[k] == t;
        assert((a + b)[k] == t);
    }
    if b.contains(t) {
        let k = choose|k: int| 0 <= k < b.len() && b[k] == t;
        assert((a + b)[a.len() + k] == t);
    }
}

/// Taking in the chunks that a tree yields keeps every chunk held once.
pub proof fn lemma_harvest_no_duplicates(seen: Seq<Seq<u8>>, tree: Seq<NodeView>, n: nat)
    requires
        n <= tree.len(),
        seen.no_duplicates(),
    ensures
        (seen + harvest(seen, tree, n)).no_duplicates(),
    decreases n,
{
    if n > 0 {
        let m = (n - 1) as nat;
        let before = harvest(seen, tree, m);
        lemma_harvest_no_duplicates(seen, tree, m);
        if is_novel(seen, tree, m as int) {
            let t = tree[m as int].text;
            lemma_novel_iff_unseen(seen, tree, m);
            let all = seen + before;
            assert(seen + before.push(t) =~= all.push(t));
            assert forall|a: int, b: int|
                0 <= a < all.push(t).len() && 0 <= b < all.push(t).len() && a != b implies all.push(
                t,
            )[a] != all.push(t)[b] by {
                if a < all.len() && b < all.len() {
                    assert(all[a] != all[b]);
                } else if a < all.len() {
                    assert(all.contains(all[a]));
                } else {
                    assert(all.contains(all[b]));
                }
            }
        }
    } else {
        assert(seen + harvest(seen, tree, n) =~= seen);
    }
}

/// Each occurrence that a tree yields under `nt` lies in that tree, at a
/// node that yields a chunk and is governed by a rule of `nt`.
pub proof fn lemma_harvest_under_members(
    seen: Seq<Seq<u8>>,
    tree: Seq<NodeView>,
    rules: Seq<NTermID>,
    tid: usize,
    nt: NTermID,
    n: nat,
)
    requires
        n <= tree.len() <= usize::MAX,
    ensures
        forall|k: int|
            0 <= k < harvest_under(seen, tree, rules, tid, nt, n).len() ==> {
                let occ = #[trigger] harvest_under(seen, tree, rules, tid, nt, n)[k];
                &&& occ.0 == tid
                &&& occ.1.0 < n
                &&& is_novel(seen, tree, occ.1.0 as int)
                &&& nonterm_of(rules, tree, occ.1.0 as int) == nt
            },
    decreases n,
{
    if n > 0 {
        let m = (n - 1) as nat;
        lemma_harvest_under_members(seen, tree, rules, tid, nt, m);
        let before = harvest_under(seen, tree, rules, tid, nt, m);
        let now = harvest_under(seen, tree, rules, tid, nt, n);
        assert forall|k: int| 0 <= k < now.len() implies {
            let occ = #[trigger] now[k];
            &&& occ.0 == tid
            &&& occ.1.0 < n
            &&& is_novel(seen, tree, occ.1.0 as int)
            &&& nonterm_of(rules, tree, occ.1.0 as int) == nt
        } by {
            if k < before.len() {
                assert(now[k] == before[k]);
            }
        }
    }
}

/// A node that yields a chunk yields an occurrence under the nonterminal of
/// its rule.
pub proof fn lemma_novel_is_harvested(
    seen: Seq<Seq<u8>>,
    tree: Seq<NodeView>,
    rules: Seq<NTermID>,
    tid: usize,
    i: int,
    n: nat,
)
    requires
        n <= tree.len() <= usize::MAX,
        0 <= i < n,
        is_novel(seen, tree, i),
    ensures
        harvest(seen, tree, n).contains(tree[i].text),
        harvest_under(seen, tree, rules, tid, nonterm_of(rules, tree, i), n).contains(
            (tid, NodeID(i as usize)),
        ),
    decreases n,
{
    let nt = nonterm_of(rules, tree, i);
    let chunks = harvest(seen, tree, n);
    let occs = harvest_under(seen, tree, rules, tid, nt, n);
    if i == n - 1 {
        assert(chunks.last() == tree[i].text);
        assert(occs.last() == (tid, NodeID(i as usize)));
    } else {
        let m = (n - 1) as nat;
        lemma_novel_is_harvested(seen, tree, rules, tid, i, m);
        let before = harvest(seen, tree, m);
        let k = choose|k: int| 0 <= k < before.len() && before[k] == tree[i].text;
        assert(chunks[k] == tree[i].text);
        let under = harvest_under(seen, tree, rules, tid, nt, m);
        let j = choose|j: int| 0 <= j < under.len() && under[j] == (tid, NodeID(i as usize));
        assert(occs[j] == (tid, NodeID(i as usize)));
    }
}

/// Where a tree yields a chunk, one of its nodes does.
pub proof fn lemma_harvest_witness(seen: Seq<Seq<u8>>, tree: Seq<NodeView>, n: nat)
    requires
        n <= tree.len(),
        harvest(seen, tree, n).len() > 0,
    ensures
        exists|i: int| 0 <= i < n && is_novel(seen, tree, i),
    decreases n,
{
    if n > 0 && !is_novel(seen, tree, n - 1) {
        lemma_harvest_witness(seen, tree, (n - 1) as nat);
    }
}

/// Ingestion keeps the invariant of the store.
pub proof fn lemma_ingest_wf(s: StoreState, tree: Seq<NodeView>, rules: Seq<NTermID>)
    requires
        s.wf(),
        tree.len() <= usize::MAX,
        s.trees.len() <= usize::MAX,
    ensures
        s.ingest(tree, rules).wf(),
{
    let fresh = harvest(s.chunks, tree, tree.len());
    let tid = s.trees.len() as usize;
    let t = s.ingest(tree, rules);
    if fresh.len() > 0 {
        lemma_harvest_no_duplicates(s.chunks, tree, tree.len());
        assert forall|nt: NTermID, k: int|
            t.index.contains_key(nt) && 0 <= k < t.index[nt].len() implies t.valid_occurrence(
            #[trigger] t.index[nt][k],
        ) by {
            let occ = t.index[nt][k];
            let old_len = s.occurrences(nt).len();
            if k < old_len {
                assert(occ == s.index[nt][k]);
                assert(s.valid_occurrence(occ));
                let text = s.trees[occ.0 as int][occ.1.0 as int].text;
                let c = choose|c: int| 0 <= c < s.chunks.len() && s.chunks[c] == text;
                assert(t.chunks[c] == text);
            } else {
                lemma_harvest_under_members(s.chunks, tree, rules, tid, nt, tree.len());
                assert(occ == s.fresh_under(tree, rules, nt, tree.len())[k - old_len]);
                lemma_novel_is_harvested(s.chunks, tree, rules, tid, occ.1.0 as int, tree.len());
                let text = tree[occ.1.0 as int].text;
                let c = choose|c: int| 0 <= c < fresh.len() && fresh[c] == text;
                assert(t.chunks[s.chunks.len() + c] == text);
            }
        }
        assert forall|x: int| 0 <= x < t.trees.len() implies #[trigger] t.referenced(x) by {
            if x < s.trees.len() {
                assert(s.referenced(x));
                let (nt, k) = choose|nt: NTermID, k: int|
                    s.index.contains_key(nt) && 0 <= k < s.index[nt].len() && (
                    #[trigger] s.index[nt][k]).0 == x;
                assert(t.index.contains_key(nt));
                assert(t.index[nt][k].0 == x);
            } else {
                lemma_harvest_witness(s.chunks, tree, tree.len());
                let i = choose|i: int| 0 <= i < tree.len() && is_novel(s.chunks, tree, i);
                let nt = nonterm_of(rules, tree, i);
                lemma_novel_is_harvested(s.chunks, tree, rules, tid, i, tree.len());
                let under = s.fresh_under(tree, rules, nt, tree.len());
                let k = choose|k: int| 0 <= k < under.len() && under[k] == (tid, NodeID(i as usize));
                assert(t.index.contains_key(nt));
                assert(t.index[nt][s.occurrences(nt).len() + k].0 == x);
            }
        }
    }
}

/// A list of entries with distinct keys writes out, for the key of each
/// entry, the occurrences of that entry.
pub proof fn lemma_catalogue_entry(entries: Entries, a: int)
    requires
        distinct_keys(entries),
        0 <= a < entries.len(),
    ensures
        catalogue(entries).contains_key(entries[a].0),
        catalogue(entries)[entries[a].0] == entries[a].1,
{
    let nt = entries[a].0;
    assert(has_entry(entries, nt));
    let e = choose|e: int| 0 <= e < entries.len() && (#[trigger] entries[e]).0 == nt;
    if e < a {
        assert(entries[e].0 != entries[a].0);
    } else if a < e {
        assert(entries[a].0 != entries[e].0);
    }
}

} // verus!
