//! The chunk store: its state, and the ingestion of trees.

use crate::context::{covers, Context};
use crate::dedup::ChunkSet;
use crate::layout::{chunk_path, chunk_path_spec};
use crate::model::{
    harvest, harvest_under, is_novel, lemma_contains_either, lemma_harvest_under_members,
    lemma_ingest_wf,
    lemma_novel_is_harvested, lemma_novel_iff_unseen, nonterm_of, Occurrence, StoreState,
    MAX_CHUNK_NODES,
};
use crate::newtypes::{NTermID, NodeID};
use crate::tree::{NodeView, Tree};
use std::collections::HashMap;
use vstd::prelude::*;

pub mod checkpoint;
pub mod retrieval;

verus! {

broadcast use vstd::std_specs::hash::group_hash_axioms;

/// A chunk that ingestion has accepted and that is to be persisted: the path
/// of its file, and the bytes to write there.
pub struct ChunkFile {
    pub path: String,
    pub bytes: Vec<u8>,
}

/// The corpus of chunks of one fuzzing session.
pub struct ChunkStore {
    nts_to_chunks: HashMap<usize, Vec<Occurrence>>,
    seen_outputs: ChunkSet,
    trees: Vec<Tree>,
    work_dir: String,
    number_of_chunks: usize,
}

/// The catalogue of occurrences as a map from nonterminals.
spec fn index_view(m: Map<usize, Vec<Occurrence>>) -> Map<NTermID, Seq<Occurrence>> {
    Map::new(|nt: NTermID| m.contains_key(nt.0), |nt: NTermID| m[nt.0]@)
}

/// The views of the trees of a list.
pub open spec fn trees_view(trees: Seq<Tree>) -> Seq<Seq<NodeView>> {
    Seq::new(trees.len(), |i: int| trees[i]@)
}

impl View for ChunkStore {
    type V = StoreState;

    closed spec fn view(&self) -> StoreState {
        StoreState {
            index: index_view(self.nts_to_chunks@),
            chunks: self.seen_outputs@,
            trees: trees_view(self.trees@),
            work_dir: self.work_dir@,
            count: self.number_of_chunks as nat,
        }
    }
}

/// Appends `occ` to the occurrences recorded under `nt`.
fn record(index: &mut HashMap<usize, Vec<Occurrence>>, nt: NTermID, occ: Occurrence)
    ensures
        index_view(final(index)@).dom() == index_view(old(index)@).dom().insert(nt),
        index_view(final(index)@)[nt] == (if index_view(old(index)@).contains_key(nt) {
            index_view(old(index)@)[nt]
        } else {
            Seq::empty()
        }).push(occ),
        forall|other: NTermID|
            other != nt && index_view(old(index)@).contains_key(other) ==> index_view(
                final(index)@,
            )[other] == index_view(old(index)@)[other],
{
    let ghost before = index@;
    let key = nt.0;
    let mut list = match index.remove(&key) {
        Some(list) => list,
        None => Vec::new(),
    };
    list.push(occ);
    index.insert(key, list);
    proof {
        assert(index_view(index@).dom() =~= index_view(before).dom().insert(nt));
    }
}

impl ChunkStore {
    /// The invariant of the store.
    pub open spec fn wf(&self) -> bool {
        &&& self@.wf()
        &&& self.seen_ok()
    }

    /// The invariant of the set of accepted chunks.
    pub closed spec fn seen_ok(&self) -> bool {
        self.seen_outputs.wf()
    }

    /// An empty store that keeps its chunk files below `work_dir`.
    pub fn new(work_dir: String) -> (store: ChunkStore)
        ensures
            store.wf(),
            store@ == StoreState::empty(work_dir@),
    {
        let store = ChunkStore {
            nts_to_chunks: HashMap::new(),
            seen_outputs: ChunkSet::new(),
            trees: Vec::new(),
            work_dir,
            number_of_chunks: 0,
        };
        proof {
            assert(store@.index =~= Map::empty());
            assert(store@.trees =~= Seq::empty());
        }
        store
    }

    /// The files that ingesting `tree` would have persisted, in the order of
    /// their numbers; the store stays as it is. A caller that writes them
    /// before it ingests the tree never holds a chunk that is not on disk.
    pub fn chunk_files(&self, tree: &Tree) -> (files: Vec<ChunkFile>)
        requires
            self.wf(),
            self@.count + tree@.len() <= usize::MAX,
        ensures
            files@.len() == self@.chunk_files(tree@).len(),
            forall|k: int|
                0 <= k < files@.len() ==> (#[trigger] files@[k].path@, files@[k].bytes@)
                    == self@.chunk_files(tree@)[k],
    {
        let ghost seen = self@.chunks;
        let ghost nodes = tree@;
        let size = tree.size();
        let mut fresh = ChunkSet::new();
        let mut files: Vec<ChunkFile> = Vec::new();
        let mut i: usize = 0;
        while i < size
            invariant
                i <= size,
                size == nodes.len(),
                nodes == tree@,
                seen == self@.chunks,
                self.wf(),
                self@.count + nodes.len() <= usize::MAX,
                fresh.wf(),
                fresh@ == harvest(seen, nodes, i as nat),
                fresh@.len() <= i,
                files@.len() == fresh@.len(),
                forall|k: int|
                    0 <= k < files@.len() ==> (#[trigger] files@[k].path@, files@[k].bytes@) == (
                        chunk_path_spec(self@.work_dir, (self@.count + k) as nat),
                        fresh@[k],
                    ),
            decreases size - i,
        {
            let node = &tree.nodes[i];
            proof {
                lemma_novel_iff_unseen(seen, nodes, i as nat);
                lemma_contains_either(seen, fresh@, node.text@);
                assert(nodes[i as int] == node@);
            }
            if node.size <= MAX_CHUNK_NODES && !self.seen_outputs.contains(&node.text)
                && !fresh.contains(&node.text) {
                let bytes = node.text.clone();
                let copy = node.text.clone();
                proof {
                    assert(bytes@ =~= node.text@);
                    assert(copy@ =~= node.text@);
                }
                let path = chunk_path(self.work_dir.as_str(), self.number_of_chunks + files.len());
                fresh.insert(bytes);
                files.push(ChunkFile { path, bytes: copy });
            }
            i = i + 1;
        }
        files
    }

    /// Offers `tree` to the store. Every node whose subtree has at most
    /// thirty nodes and whose serialization the store has not seen yields a
    /// chunk: the serialization joins the accepted chunks, the node is
    /// recorded under the nonterminal of its rule, and the chunk gets the
    /// next number. The tree is kept if it yielded a chunk, and dropped
    /// otherwise. Returned are the files to persist, in the order of their
    /// numbers.
    pub fn add_tree(&mut self, tree: Tree, ctx: &Context) -> (files: Vec<ChunkFile>)
        requires
            old(self).wf(),
            covers(ctx@, tree@),
        ensures
            final(self).wf(),
            final(self)@ == old(self)@.ingest(tree@, ctx@),
            files@.len() == old(self)@.chunk_files(tree@).len(),
            forall|k: int|
                0 <= k < files@.len() ==> (#[trigger] files@[k].path@, files@[k].bytes@) == old(
                    self,
                )@.chunk_files(tree@)[k],
    {
        let ghost start = self@;
        let ghost rules = ctx@;
        let ghost nodes = tree@;
        let id = self.trees.len();
        let size = tree.size();
        let mut files: Vec<ChunkFile> = Vec::new();
        let mut i: usize = 0;
        while i < size
            invariant
                i <= size,
                size == nodes.len(),
                nodes == tree@,
                rules == ctx@,
                covers(rules, nodes),
                start.wf(),
                id == start.trees.len(),
                self.seen_outputs.wf(),
                self@.trees == start.trees,
                self@.work_dir == start.work_dir,
                self@.chunks == start.chunks + harvest(start.chunks, nodes, i as nat),
                self@.count == start.count + harvest(start.chunks, nodes, i as nat).len(),
                self@.index == start.index_after(nodes, rules, i as nat),
                files@.len() == harvest(start.chunks, nodes, i as nat).len(),
                forall|k: int|
                    0 <= k < files@.len() ==> (#[trigger] files@[k].path@, files@[k].bytes@) == (
                        chunk_path_spec(start.work_dir, (start.count + k) as nat),
                        harvest(start.chunks, nodes, i as nat)[k],
                    ),
            decreases size - i,
        {
            let node = &tree.nodes[i];
            let ghost index = self@.index;
            proof {
                lemma_novel_iff_unseen(start.chunks, nodes, i as nat);
                assert(nodes[i as int] == node@);
            }
            if node.size <= MAX_CHUNK_NODES && !self.seen_outputs.contains(&node.text) {
                let nt = ctx.get_nt(node.rule);
                let bytes = node.text.clone();
                let copy = node.text.clone();
                proof {
                    assert(bytes@ =~= node.text@);
                    assert(copy@ =~= node.text@);
                }
                self.seen_outputs.insert(bytes);
                record(&mut self.nts_to_chunks, nt, (id, NodeID(i)));
                let path = chunk_path(self.work_dir.as_str(), self.number_of_chunks);
                files.push(ChunkFile { path, bytes: copy });
                self.number_of_chunks = self.seen_outputs.len();
                proof {
                    assert(is_novel(start.chunks, nodes, i as int));
                    assert(nt == nonterm_of(rules, nodes, i as int));
                    assert(self@.chunks =~= start.chunks + harvest(
                        start.chunks,
                        nodes,
                        (i + 1) as nat,
                    ));
                    let next = start.index_after(nodes, rules, (i + 1) as nat);
                    assert(self@.index.dom() == index.dom().insert(nt));
                    assert forall|other: NTermID| next.contains_key(other) implies #[trigger] self@.index[other]
                        == next[other] by {
                        let before = start.fresh_under(nodes, rules, other, i as nat);
                        if other == nt {
                            if !index.contains_key(nt) {
                                assert(Seq::<Occurrence>::empty() =~= start.occurrences(nt)
                                    + before);
                            }
                            assert((start.occurrences(nt) + before).push((id, NodeID(i)))
                                =~= start.occurrences(nt) + before.push((id, NodeID(i))));
                        } else {
                            assert(index.contains_key(other));
                        }
                    }
                    assert(self@.index =~= next);
                }
            } else {
                proof {
                    assert(!is_novel(start.chunks, nodes, i as int));
                    assert(self@.index =~= start.index_after(nodes, rules, (i + 1) as nat));
                }
            }
            i = i + 1;
        }
        if files.len() > 0 {
            self.trees.push(tree);
            proof {
                assert(self@.trees =~= start.trees.push(nodes));
            }
        } else {
            proof {
                assert(self@.chunks =~= start.chunks);
                assert forall|nt: NTermID|
                    (#[trigger] harvest_under(start.chunks, nodes, rules, id, nt, size as nat)).len()
                        == 0 by {
                    let under = harvest_under(start.chunks, nodes, rules, id, nt, size as nat);
                    if under.len() > 0 {
                        lemma_harvest_under_members(
                            start.chunks,
                            nodes,
                            rules,
                            id,
                            nt,
                            size as nat,
                        );
                        let occ = under[0];
                        lemma_novel_is_harvested(
                            start.chunks,
                            nodes,
                            rules,
                            id,
                            occ.1.0 as int,
                            size as nat,
                        );
                    }
                }
                assert forall|nt: NTermID| start.index.contains_key(nt) implies start.occurrences(nt)
                    + #[trigger] harvest_under(start.chunks, nodes, rules, id, nt, size as nat)
                    == start.index[nt] by {
                    let under = harvest_under(start.chunks, nodes, rules, id, nt, size as nat);
                    assert(start.occurrences(nt) + under =~= start.occurrences(nt));
                }
                assert(self@.index =~= start.index);
            }
        }
        proof {
            lemma_ingest_wf(start, nodes, rules);
            assert(self@ == start.ingest(nodes, rules));
        }
        files
    }

    /// The occurrences recorded under `nt`, if there are any.
    fn recorded(&self, nt: NTermID) -> (list: Option<&Vec<Occurrence>>)
        requires
            self.wf(),
        ensures
            list is Some <==> self@.index.contains_key(nt),
            list matches Some(occs) ==> occs@ == self@.index[nt] && occs@ == self@.occurrences(nt),
            list is None ==> self@.occurrences(nt) == Seq::<Occurrence>::empty(),
    {
        self.nts_to_chunks.get(&nt.0)
    }

    /// The number of accepted trees.
    pub fn trees(&self) -> (n: usize)
        ensures
            n == self@.trees.len(),
    {
        self.trees.len()
    }

    /// The number of accepted chunks, which is the number of the next chunk
    /// file.
    pub fn number_of_chunks(&self) -> (n: usize)
        ensures
            n == self@.count,
    {
        self.number_of_chunks
    }

    /// The directory below which the chunk files are kept.
    pub fn work_dir(&self) -> (dir: &String)
        ensures
            dir@ == self@.work_dir,
    {
        &self.work_dir
    }

    /// The accepted tree with the index `index`, if there is one.
    pub fn tree(&self, index: usize) -> (res: Option<&Tree>)
        ensures
            res is Some <==> index < self@.trees.len(),
            res matches Some(tree) ==> tree@ == self@.trees[index as int],
    {
        if index < self.trees.len() {
            Some(&self.trees[index])
        } else {
            None
        }
    }

    /// The chunk with the number `id`, if there is one.
    pub fn chunk(&self, id: usize) -> (res: Option<&Vec<u8>>)
        ensures
            res is Some <==> id < self@.chunks.len(),
            res matches Some(bytes) ==> bytes@ == self@.chunks[id as int],
    {
        if id < self.seen_outputs.len() {
            Some(self.seen_outputs.get(id))
        } else {
            None
        }
    }

    /// Whether `bytes` is an accepted chunk.
    pub fn contains_chunk(&self, bytes: &Vec<u8>) -> (found: bool)
        requires
            self.wf(),
        ensures
            found == self@.chunks.contains(bytes@),
    {
        self.seen_outputs.contains(bytes)
    }

    /// The occurrences recorded under `nt`, oldest first.
    pub fn occurrences(&self, nt: NTermID) -> (list: Vec<Occurrence>)
        requires
            self.wf(),
        ensures
            list@ == self@.occurrences(nt),
    {
        let mut list: Vec<Occurrence> = Vec::new();
        match self.recorded(nt) {
            None => {},
            Some(occs) => {
                let mut i: usize = 0;
                while i < occs.len()
                    invariant
                        i <= occs.len(),
                        list@ == occs@.subrange(0, i as int),
                    decreases occs.len() - i,
                {
                    list.push(occs[i]);
                    i = i + 1;
                    proof {
                        assert(list@ =~= occs@.subrange(0, i as int));
                    }
                }
                proof {
                    assert(occs@.subrange(0, occs@.len() as int) =~= occs@);
                }
            },
        }
        list
    }
    /// The path of the file that holds chunk number `id`.
    pub fn chunk_path(&self, id: usize) -> (path: String)
        ensures
            path@ == chunk_path_spec(self@.work_dir, id as nat),
    {
        chunk_path(self.work_dir.as_str(), id)
    }
}

} // verus!
