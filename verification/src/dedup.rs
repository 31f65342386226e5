//! The set of chunks that the store has accepted, each held once and in the
//! order of acceptance, and found by a digest of its bytes.

use std::collections::hash_map::DefaultHasher;
use std::collections::HashMap;
use std::hash::Hasher;
use vstd::prelude::*;
use vstd::std_specs::hash::DefaultHasherAdditionalSpecFns;

verus! {

broadcast use vstd::std_specs::hash::group_hash_axioms;

/// Whether two byte strings are the same.
pub fn same_bytes(a: &Vec<u8>, b: &Vec<u8>) -> (same: bool)
    ensures
        same == (a@ == b@),
{
    if a.len() != b.len() {
        return false;
    }
    let mut i: usize = 0;
    while i < a.len()
        invariant
            i <= a.len(),
            a.len() == b.len(),
            forall|j: int| 0 <= j < i ==> a@[j] == b@[j],
        decreases a.len() - i,
    {
        if a[i] != b[i] {
            return false;
        }
        i = i + 1;
    }
    proof {
        assert(a@ =~= b@);
    }
    true
}

/// The digest under which a chunk is filed: what the standard hasher gives
/// for its bytes.
spec fn digest(bytes: Seq<u8>) -> u64 {
    DefaultHasher::spec_finish(seq![bytes])
}

/// Computes the digest of `bytes`.
fn digest_of(bytes: &Vec<u8>) -> (d: u64)
    ensures
        d == digest(bytes@),
{
    let mut hasher = DefaultHasher::new();
    hasher.write(bytes.as_slice());
    proof {
        assert(hasher@ =~= seq![bytes@]);
    }
    hasher.finish()
}

/// The position `k` is among those of `bucket`.
spec fn lists(bucket: Seq<usize>, k: int) -> bool {
    exists|j: int| 0 <= j < bucket.len() && #[trigger] bucket[j] == k
}

/// The byte strings that a list of buffers holds.
pub open spec fn contents(buffers: Seq<Vec<u8>>) -> Seq<Seq<u8>> {
    Seq::new(buffers.len(), |i: int| buffers[i]@)
}

/// The first `n` of `chunks` are filed in `buckets`, each under its digest,
/// and nothing else is.
spec fn filed(chunks: Seq<Seq<u8>>, buckets: Map<u64, Vec<usize>>, n: int) -> bool {
    &&& forall|k: int|
        0 <= k < n ==> buckets.contains_key(digest(#[trigger] chunks[k])) && lists(
            buckets[digest(chunks[k])]@,
            k,
        )
    &&& forall|d: u64, j: int|
        buckets.contains_key(d) && 0 <= j < buckets[d]@.len() ==> (#[trigger] buckets[d]@[j]) < n
}

/// Whether `bytes` is one of the first `n` of `chunks`, which are filed in
/// `buckets`.
fn find(
    chunks: &Vec<Vec<u8>>,
    buckets: &HashMap<u64, Vec<usize>>,
    bytes: &Vec<u8>,
    Ghost(n): Ghost<int>,
) -> (found: bool)
    requires
        0 <= n <= chunks@.len(),
        filed(contents(chunks@), buckets@, n),
    ensures
        found == contents(chunks@).subrange(0, n).contains(bytes@),
{
    let ghost held = contents(chunks@);
    let d = digest_of(bytes);
    match buckets.get(&d) {
        None => {
            proof {
                if held.subrange(0, n).contains(bytes@) {
                    let k = choose|k: int| 0 <= k < n && held.subrange(0, n)[k] == bytes@;
                    assert(buckets@.contains_key(digest(held[k])));
                }
            }
            false
        },
        Some(bucket) => {
            let mut j: usize = 0;
            while j < bucket.len()
                invariant
                    j <= bucket.len(),
                    0 <= n <= chunks@.len(),
                    held == contents(chunks@),
                    filed(held, buckets@, n),
                    buckets@.contains_key(d),
                    buckets@[d] == *bucket,
                    forall|i: int| 0 <= i < j ==> held[bucket@[i] as int] != bytes@,
                decreases bucket.len() - j,
            {
                let k = bucket[j];
                proof {
                    assert(buckets@[d]@[j as int] < n);
                }
                if same_bytes(&chunks[k], bytes) {
                    proof {
                        assert(held.subrange(0, n)[k as int] == bytes@);
                    }
                    return true;
                }
                j = j + 1;
            }
            proof {
                if held.subrange(0, n).contains(bytes@) {
                    let k = choose|k: int| 0 <= k < n && held.subrange(0, n)[k] == bytes@;
                    assert(lists(buckets@[digest(held[k])]@, k));
                    let i = choose|i: int| 0 <= i < bucket@.len() && #[trigger] bucket@[i] == k;
                    assert(held[bucket@[i] as int] != bytes@);
                }
            }
            false
        },
    }
}

/// Files the chunk at position `k`, whose digest is `d`.
fn file(
    buckets: &mut HashMap<u64, Vec<usize>>,
    d: u64,
    k: usize,
    Ghost(chunks): Ghost<Seq<Seq<u8>>>,
)
    requires
        k < chunks.len(),
        d == digest(chunks[k as int]),
        filed(chunks, old(buckets)@, k as int),
    ensures
        filed(chunks, final(buckets)@, k + 1),
{
    let ghost before = buckets@;
    let mut bucket = match buckets.remove(&d) {
        Some(bucket) => bucket,
        None => Vec::new(),
    };
    let ghost earlier = bucket@;
    bucket.push(k);
    buckets.insert(d, bucket);
    proof {
        assert forall|i: int| 0 <= i < k + 1 implies buckets@.contains_key(
            digest(#[trigger] chunks[i]),
        ) && lists(buckets@[digest(chunks[i])]@, i) by {
            let di = digest(chunks[i]);
            if i < k {
                assert(before.contains_key(di) && lists(before[di]@, i));
                if di == d {
                    let at = choose|at: int| 0 <= at < earlier.len() && #[trigger] earlier[at] == i;
                    assert(buckets@[d]@[at] == i);
                }
            } else {
                assert(buckets@[d]@[earlier.len() as int] == k);
            }
        }
        assert forall|e: u64, j: int|
            buckets@.contains_key(e) && 0 <= j < buckets@[e]@.len() implies (
        #[trigger] buckets@[e]@[j]) < k + 1 by {
            if e == d {
                if j < earlier.len() {
                    assert(before[d]@[j] < k);
                }
            } else {
                assert(before[e]@[j] < k);
            }
        }
    }
}

/// Appending a byte string that a list without repetitions does not hold
/// gives a list without repetitions.
pub proof fn lemma_push_fresh(list: Seq<Seq<u8>>, bytes: Seq<u8>)
    requires
        list.no_duplicates(),
        !list.contains(bytes),
    ensures
        list.push(bytes).no_duplicates(),
{
    let all = list.push(bytes);
    assert forall|i: int, j: int| 0 <= i < all.len() && 0 <= j < all.len() && i != j implies all[i]
        != all[j] by {
        if i < list.len() && j < list.len() {
            assert(list[i] != list[j]);
        } else if i < list.len() {
            assert(list.contains(list[i]));
        } else {
            assert(list.contains(list[j]));
        }
    }
}

/// The chunks accepted so far. Its view lists them in the order in which
/// they were accepted; none occurs twice.
pub struct ChunkSet {
    /// The chunks, in the order of acceptance.
    chunks: Vec<Vec<u8>>,
    /// For each digest, the positions of the chunks that have it.
    buckets: HashMap<u64, Vec<usize>>,
}

impl View for ChunkSet {
    type V = Seq<Seq<u8>>;

    closed spec fn view(&self) -> Seq<Seq<u8>> {
        contents(self.chunks@)
    }
}

impl ChunkSet {
    /// No chunk occurs twice, and every chunk is filed under its digest.
    pub open spec fn wf(&self) -> bool {
        &&& self@.no_duplicates()
        &&& self.all_filed()
    }

    /// Every chunk is filed under its digest.
    pub closed spec fn all_filed(&self) -> bool {
        filed(self@, self.buckets@, self@.len() as int)
    }

    /// The empty set.
    pub fn new() -> (set: ChunkSet)
        ensures
            set@ == Seq::<Seq<u8>>::empty(),
            set.wf(),
    {
        let set = ChunkSet { chunks: Vec::new(), buckets: HashMap::new() };
        proof {
            assert(set@ =~= Seq::<Seq<u8>>::empty());
        }
        set
    }

    /// The set of the byte strings of `chunks`, in their order, where none
    /// occurs twice among them; nothing where one does.
    pub fn from_vec(chunks: Vec<Vec<u8>>) -> (res: Option<ChunkSet>)
        ensures
            res is Some <==> contents(chunks@).no_duplicates(),
            res matches Some(set) ==> set.wf() && set@ == contents(chunks@),
    {
        let ghost held = contents(chunks@);
        let mut buckets: HashMap<u64, Vec<usize>> = HashMap::new();
        let mut k: usize = 0;
        while k < chunks.len()
            invariant
                k <= chunks.len(),
                held == contents(chunks@),
                filed(held, buckets@, k as int),
                held.subrange(0, k as int).no_duplicates(),
            decreases chunks.len() - k,
        {
            let ghost head = held.subrange(0, k as int);
            if find(&chunks, &buckets, &chunks[k], Ghost(k as int)) {
                proof {
                    let i = choose|i: int| 0 <= i < k && head[i] == held[k as int];
                    assert(held[i] == held[k as int]);
                }
                return None;
            }
            let d = digest_of(&chunks[k]);
            file(&mut buckets, d, k, Ghost(held));
            proof {
                lemma_push_fresh(head, held[k as int]);
                assert(held.subrange(0, k + 1) =~= head.push(held[k as int]));
            }
            k = k + 1;
        }
        proof {
            assert(held.subrange(0, k as int) =~= held);
        }
        Some(ChunkSet { chunks, buckets })
    }

    /// The chunks, in the order of acceptance.
    pub fn into_vec(self) -> (chunks: Vec<Vec<u8>>)
        ensures
            contents(chunks@) == self@,
    {
        self.chunks
    }

    /// The number of chunks.
    pub fn len(&self) -> (n: usize)
        ensures
            n == self@.len(),
    {
        self.chunks.len()
    }

    /// The chunk that was accepted as number `k`.
    pub fn get(&self, k: usize) -> (chunk: &Vec<u8>)
        requires
            k < self@.len(),
        ensures
            chunk@ == self@[k as int],
    {
        &self.chunks[k]
    }

    /// Whether `bytes` has been accepted.
    pub fn contains(&self, bytes: &Vec<u8>) -> (found: bool)
        requires
            self.wf(),
        ensures
            found == self@.contains(bytes@),
    {
        proof {
            assert(self@.subrange(0, self@.len() as int) =~= self@);
        }
        find(&self.chunks, &self.buckets, bytes, Ghost(self.chunks@.len() as int))
    }

    /// Accepts `bytes` as the next chunk.
    pub fn insert(&mut self, bytes: Vec<u8>)
        requires
            old(self).wf(),
            !old(self)@.contains(bytes@),
        ensures
            final(self).wf(),
            final(self)@ == old(self)@.push(bytes@),
    {
        let ghost before = self@;
        let ghost text = bytes@;
        let d = digest_of(&bytes);
        let k = self.chunks.len();
        self.chunks.push(bytes);
        proof {
            assert(self@ =~= before.push(text));
            lemma_push_fresh(before, text);
            assert forall|i: int| 0 <= i < k implies #[trigger] self@[i] == before[i] by {}
        }
        let ghost held = self@;
        file(&mut self.buckets, d, k, Ghost(held));
    }
}

} // verus!
