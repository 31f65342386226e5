use chunkstore::{ChunkStore, Context, NTermID, Node, NodeID, RuleID, StoreParts, Tree};

const A: NTermID = NTermID(0);
const B: NTermID = NTermID(1);

fn node(rule: usize, size: usize, text: &str) -> Node {
    Node { rule: RuleID(rule), size, text: text.as_bytes().to_vec() }
}

fn grammar() -> Context {
    let mut ctx = Context::new();
    ctx.add_rule(A);
    ctx.add_rule(B);
    ctx
}

/// The parts of a store that has ingested the tree "a b" with the subtree "b".
fn parts() -> StoreParts {
    StoreParts {
        nts_to_chunks: vec![(A, vec![(0, NodeID(0))]), (B, vec![(0, NodeID(1))])],
        seen_outputs: vec![b"a b".to_vec(), b"b".to_vec()],
        trees: vec![Tree::new(vec![node(0, 2, "a b"), node(1, 1, "b")])],
        work_dir: "/w".to_string(),
        number_of_chunks: 2,
    }
}

#[test]
fn a_store_is_restored_from_its_parts() {
    let ctx = grammar();
    let mut cks = ChunkStore::new("/w".to_string());
    cks.add_tree(Tree::new(vec![node(0, 2, "a b"), node(1, 1, "b")]), &ctx);
    cks.add_tree(Tree::new(vec![node(1, 3, "b b"), node(1, 1, "b"), node(0, 40, "huge")]), &ctx);
    let mut keys = cks.nonterminals();
    keys.sort_by_key(|nt| nt.0);
    assert_eq!(keys, vec![A, B]);

    let parts = cks.into_parts();
    assert_eq!(parts.number_of_chunks, 3);
    assert_eq!(parts.seen_outputs, vec![b"a b".to_vec(), b"b".to_vec(), b"b b".to_vec()]);
    assert_eq!(parts.work_dir, "/w");
    assert_eq!(parts.trees.len(), 2);
    let mut listed = parts.nts_to_chunks.clone();
    listed.sort_by_key(|entry| entry.0 .0);
    assert_eq!(
        listed,
        vec![(A, vec![(0, NodeID(0))]), (B, vec![(0, NodeID(1)), (1, NodeID(0))])]
    );

    let cks = ChunkStore::from_parts(parts).expect("the parts of a store");
    assert_eq!(cks.number_of_chunks(), 3);
    assert_eq!(cks.trees(), 2);
    assert_eq!(cks.work_dir(), "/w");
    assert_eq!(cks.occurrences(A), vec![(0, NodeID(0))]);
    assert_eq!(cks.occurrences(B), vec![(0, NodeID(1)), (1, NodeID(0))]);
    assert_eq!(cks.chunk(2).unwrap(), b"b b");
    assert_eq!(cks.tree(1).unwrap().unparse_to_vec(), b"b b");
    assert!(cks.contains_chunk(&b"a b".to_vec()));
    assert!(!cks.contains_chunk(&b"huge".to_vec()));
}

#[test]
fn a_restored_store_goes_on_where_it_stopped() {
    let ctx = grammar();
    let mut cks = ChunkStore::from_parts(parts()).unwrap();
    let files = cks.add_tree(Tree::new(vec![node(0, 2, "a b"), node(1, 1, "c")]), &ctx);
    assert_eq!(files.len(), 1);
    assert_eq!(files[0].path, "/w/outputs/chunks/chunk_000000002");
    assert_eq!(files[0].bytes, b"c");
    assert_eq!(cks.occurrences(B), vec![(0, NodeID(1)), (1, NodeID(1))]);
    assert_eq!(cks.trees(), 2);
}

#[test]
fn an_empty_store_is_restored_from_empty_parts() {
    let parts = ChunkStore::new("dir".to_string()).into_parts();
    assert!(parts.nts_to_chunks.is_empty());
    assert!(parts.seen_outputs.is_empty());
    assert!(parts.trees.is_empty());
    assert_eq!(parts.number_of_chunks, 0);
    let cks = ChunkStore::from_parts(parts).unwrap();
    assert_eq!(cks.trees(), 0);
    assert_eq!(cks.work_dir(), "dir");
}

#[test]
fn parts_with_a_wrong_counter_are_refused() {
    let mut p = parts();
    p.number_of_chunks = 3;
    assert!(ChunkStore::from_parts(p).is_none());
    let mut p = parts();
    p.number_of_chunks = 1;
    assert!(ChunkStore::from_parts(p).is_none());
}

#[test]
fn parts_with_a_chunk_held_twice_are_refused() {
    let mut p = parts();
    p.seen_outputs.push(b"a b".to_vec());
    p.number_of_chunks = 3;
    assert!(ChunkStore::from_parts(p).is_none());
}

#[test]
fn parts_with_a_nonterminal_listed_twice_are_refused() {
    let mut p = parts();
    p.nts_to_chunks.push((A, vec![(0, NodeID(1))]));
    assert!(ChunkStore::from_parts(p).is_none());
}

#[test]
fn parts_with_an_empty_list_of_occurrences_are_refused() {
    let mut p = parts();
    p.nts_to_chunks.push((NTermID(9), vec![]));
    assert!(ChunkStore::from_parts(p).is_none());
}

#[test]
fn parts_with_an_occurrence_outside_the_trees_are_refused() {
    let mut p = parts();
    p.nts_to_chunks[0].1.push((1, NodeID(0)));
    assert!(ChunkStore::from_parts(p).is_none());
    let mut p = parts();
    p.nts_to_chunks[0].1.push((0, NodeID(2)));
    assert!(ChunkStore::from_parts(p).is_none());
}

#[test]
fn parts_with_an_occurrence_over_the_size_cap_are_refused() {
    let mut p = parts();
    p.trees[0].nodes[0].size = 31;
    assert!(ChunkStore::from_parts(p).is_none());
    let mut p = parts();
    p.trees[0].nodes[0].size = 30;
    assert!(ChunkStore::from_parts(p).is_some());
}

#[test]
fn parts_with_an_occurrence_that_is_no_chunk_are_refused() {
    let mut p = parts();
    p.trees[0].nodes[1].text = b"x".to_vec();
    assert!(ChunkStore::from_parts(p).is_none());
}

#[test]
fn parts_with_a_tree_that_holds_no_occurrence_are_refused() {
    let mut p = parts();
    p.trees.push(Tree::new(vec![node(1, 1, "b")]));
    assert!(ChunkStore::from_parts(p).is_none());
}

#[test]
fn parts_may_hold_chunks_without_an_occurrence() {
    // A chunk stays in the store though no occurrence points at its bytes.
    let mut p = parts();
    p.seen_outputs.push(b"left over".to_vec());
    p.number_of_chunks = 3;
    let cks = ChunkStore::from_parts(p).unwrap();
    assert_eq!(cks.chunk(2).unwrap(), b"left over");
}
