use chunkstore::{ChunkFile, ChunkStore, Context, NTermID, Node, NodeID, RuleID, Tree};

const A: NTermID = NTermID(0);
const B: NTermID = NTermID(1);
const C: NTermID = NTermID(2);

fn node(rule: RuleID, size: usize, text: &str) -> Node {
    Node { rule, size, text: text.as_bytes().to_vec() }
}

/// The grammar A -> "a" B, B -> "b" C, C -> "c".
fn abc_grammar() -> (Context, RuleID, RuleID, RuleID) {
    let mut ctx = Context::new();
    let r1 = ctx.add_rule(A);
    let r2 = ctx.add_rule(B);
    let r3 = ctx.add_rule(C);
    (ctx, r1, r2, r3)
}

fn tree_from_a(r1: RuleID, r2: RuleID, r3: RuleID) -> Tree {
    Tree::new(vec![node(r1, 3, "a b c"), node(r2, 2, "b c"), node(r3, 1, "c")])
}

fn tree_from_b(r2: RuleID, r3: RuleID) -> Tree {
    Tree::new(vec![node(r2, 2, "b c"), node(r3, 1, "c")])
}

fn paths(files: &[ChunkFile]) -> Vec<String> {
    files.iter().map(|f| f.path.clone()).collect()
}

#[test]
fn chunk_store() {
    let (ctx, r1, r2, r3) = abc_grammar();
    let tree = tree_from_a(r1, r2, r3);
    let mut cks = ChunkStore::new("/tmp/".to_string());
    assert!(ctx.covers(&tree));
    cks.add_tree(tree, &ctx);
    assert!(cks.contains_chunk(&"a b c".as_bytes().to_vec()));
    assert!(cks.contains_chunk(&"b c".as_bytes().to_vec()));
    assert!(cks.contains_chunk(&"c".as_bytes().to_vec()));
    assert_eq!(cks.occurrences(A).len(), 1);
    let (tree_id, _) = cks.occurrences(A)[0];
    assert_eq!(cks.tree(tree_id).unwrap().unparse_to_vec(), "a b c".as_bytes());

    let tree = tree_from_b(r2, r3);
    cks.add_tree(tree, &ctx);
    assert_eq!(cks.number_of_chunks(), 3);
    assert_eq!(cks.occurrences(B).len(), 1);
    let (tree_id, node_id) = cks.occurrences(B)[0];
    assert_eq!(
        cks.tree(tree_id).unwrap().unparse_node_to_vec(node_id),
        "b c".as_bytes()
    );
}

#[test]
fn ingesting_a_tree_yields_one_file_per_novel_subtree() {
    let (ctx, r1, r2, r3) = abc_grammar();
    let mut cks = ChunkStore::new("/tmp/".to_string());
    let files = cks.add_tree(tree_from_a(r1, r2, r3), &ctx);
    assert_eq!(files.len(), 3);
    assert_eq!(files[0].path, "/tmp//outputs/chunks/chunk_000000000");
    assert_eq!(files[0].bytes, b"a b c");
    assert_eq!(files[1].path, "/tmp//outputs/chunks/chunk_000000001");
    assert_eq!(files[1].bytes, b"b c");
    assert_eq!(files[2].path, "/tmp//outputs/chunks/chunk_000000002");
    assert_eq!(files[2].bytes, b"c");
    assert_eq!(cks.number_of_chunks(), 3);
    assert_eq!(cks.trees(), 1);
    assert_eq!(cks.occurrences(A), vec![(0, NodeID(0))]);
    assert_eq!(cks.occurrences(B), vec![(0, NodeID(1))]);
    assert_eq!(cks.occurrences(C), vec![(0, NodeID(2))]);
    assert_eq!(cks.chunk(0).unwrap(), b"a b c");
    assert_eq!(cks.chunk(1).unwrap(), b"b c");
    assert_eq!(cks.chunk(2).unwrap(), b"c");
    assert!(cks.chunk(3).is_none());
}

#[test]
fn a_tree_without_novel_chunks_is_dropped() {
    let (ctx, r1, r2, r3) = abc_grammar();
    let mut cks = ChunkStore::new("/tmp/".to_string());
    cks.add_tree(tree_from_a(r1, r2, r3), &ctx);
    let files = cks.add_tree(tree_from_b(r2, r3), &ctx);
    assert!(files.is_empty());
    assert_eq!(cks.trees(), 1);
    assert_eq!(cks.number_of_chunks(), 3);
    assert!(cks.tree(1).is_none());
    assert_eq!(cks.occurrences(A), vec![(0, NodeID(0))]);
    assert_eq!(cks.occurrences(B), vec![(0, NodeID(1))]);
    assert_eq!(cks.occurrences(C), vec![(0, NodeID(2))]);
}

#[test]
fn the_same_bytes_are_never_persisted_twice() {
    let (ctx, r1, r2, r3) = abc_grammar();
    let mut cks = ChunkStore::new("work".to_string());
    // Twice the same bytes within one tree, and once more in a later tree.
    let first = Tree::new(vec![node(r1, 3, "x"), node(r2, 2, "x"), node(r3, 1, "y")]);
    let files = cks.add_tree(first, &ctx);
    assert_eq!(files.len(), 2);
    assert_eq!(files[0].bytes, b"x");
    assert_eq!(files[1].bytes, b"y");
    assert_eq!(cks.occurrences(A), vec![(0, NodeID(0))]);
    assert!(cks.occurrences(B).is_empty());
    let second = Tree::new(vec![node(r2, 2, "x"), node(r3, 1, "z")]);
    let files = cks.add_tree(second, &ctx);
    assert_eq!(files.len(), 1);
    assert_eq!(files[0].path, "work/outputs/chunks/chunk_000000002");
    assert_eq!(files[0].bytes, b"z");
    assert_eq!(cks.number_of_chunks(), 3);
    assert_eq!(cks.trees(), 2);
    assert!(cks.occurrences(B).is_empty());
    assert_eq!(cks.occurrences(C), vec![(0, NodeID(2)), (1, NodeID(1))]);
}

#[test]
fn subtrees_over_thirty_nodes_yield_no_chunk() {
    let (ctx, r1, r2, r3) = abc_grammar();
    let mut cks = ChunkStore::new("work".to_string());
    let tree = Tree::new(vec![node(r1, 31, "big"), node(r2, 30, "fits"), node(r3, 1, "leaf")]);
    let files = cks.add_tree(tree, &ctx);
    assert_eq!(files.len(), 2);
    assert_eq!(files[0].bytes, b"fits");
    assert_eq!(files[1].bytes, b"leaf");
    assert!(!cks.contains_chunk(&b"big".to_vec()));
    assert!(cks.occurrences(A).is_empty());
    assert_eq!(cks.occurrences(B), vec![(0, NodeID(1))]);

    // A tree of oversized subtrees alone leaves no trace.
    let mut cks = ChunkStore::new("work".to_string());
    let tree = Tree::new(vec![node(r1, 31, "big"), node(r2, 100, "bigger")]);
    let files = cks.add_tree(tree, &ctx);
    assert!(files.is_empty());
    assert_eq!(cks.trees(), 0);
    assert_eq!(cks.number_of_chunks(), 0);
}

#[test]
fn an_oversized_subtree_does_not_shadow_a_small_one_with_the_same_bytes() {
    let (ctx, r1, r2, _) = abc_grammar();
    let mut cks = ChunkStore::new("work".to_string());
    let tree = Tree::new(vec![node(r1, 31, "same"), node(r2, 2, "same")]);
    let files = cks.add_tree(tree, &ctx);
    assert_eq!(files.len(), 1);
    assert_eq!(cks.occurrences(B), vec![(0, NodeID(1))]);
    assert!(cks.occurrences(A).is_empty());
}

#[test]
fn an_empty_tree_is_dropped() {
    let (ctx, _, _, _) = abc_grammar();
    let mut cks = ChunkStore::new("work".to_string());
    let files = cks.add_tree(Tree::new(vec![]), &ctx);
    assert!(files.is_empty());
    assert_eq!(cks.trees(), 0);
}

#[test]
fn a_new_store_is_empty() {
    let cks = ChunkStore::new("/somewhere".to_string());
    assert_eq!(cks.trees(), 0);
    assert_eq!(cks.number_of_chunks(), 0);
    assert_eq!(cks.work_dir(), "/somewhere");
    assert!(cks.occurrences(A).is_empty());
    assert!(cks.tree(0).is_none());
    assert!(cks.chunk(0).is_none());
}

#[test]
fn chunk_numbers_go_on_from_the_counter() {
    let (ctx, r1, r2, r3) = abc_grammar();
    let mut cks = ChunkStore::new("d".to_string());
    let mut all = Vec::new();
    for round in 0..4u8 {
        let tree = Tree::new(vec![
            node(r1, 3, &format!("a{round}")),
            node(r2, 2, &format!("b{round}")),
            node(r3, 1, "c"),
        ]);
        let before = cks.number_of_chunks();
        let files = cks.add_tree(tree, &ctx);
        assert_eq!(cks.number_of_chunks(), before + files.len());
        for (k, file) in files.iter().enumerate() {
            assert_eq!(file.path, cks.chunk_path(before + k));
            assert_eq!(&file.bytes, cks.chunk(before + k).unwrap());
        }
        all.extend(paths(&files));
    }
    assert_eq!(all.len(), 9);
    let mut unique = all.clone();
    unique.sort();
    unique.dedup();
    assert_eq!(unique.len(), all.len());
}

#[test]
fn get_chunk_names_no_file_with_fewer_than_two_chunks() {
    let (ctx, _, _, r3) = abc_grammar();
    let mut cks = ChunkStore::new("/tmp/".to_string());
    assert_eq!(cks.get_chunk(), None);
    cks.add_tree(Tree::new(vec![node(r3, 1, "c")]), &ctx);
    assert_eq!(cks.number_of_chunks(), 1);
    for _ in 0..50 {
        assert_eq!(cks.get_chunk(), None);
    }
}

#[test]
fn get_chunk_names_a_persisted_file() {
    let (ctx, r1, r2, r3) = abc_grammar();
    let mut cks = ChunkStore::new("/tmp/".to_string());
    let files = cks.add_tree(tree_from_a(r1, r2, r3), &ctx);
    let written = paths(&files);
    let mut hits = vec![0usize; written.len()];
    for _ in 0..300 {
        let path = cks.get_chunk().expect("three chunks are stored");
        let k = written.iter().position(|p| *p == path).expect("a file that was written");
        hits[k] += 1;
    }
    assert!(hits.iter().all(|&n| n > 0));
}

#[test]
fn get_chunk_with_two_chunks() {
    let (ctx, _, r2, r3) = abc_grammar();
    let mut cks = ChunkStore::new("w".to_string());
    let files = cks.add_tree(tree_from_b(r2, r3), &ctx);
    assert_eq!(files.len(), 2);
    for _ in 0..50 {
        let path = cks.get_chunk().unwrap();
        assert!(path == files[0].path || path == files[1].path);
    }
}

#[test]
fn the_files_of_a_tree_are_known_before_it_is_ingested() {
    let (ctx, r1, r2, r3) = abc_grammar();
    let mut cks = ChunkStore::new("/tmp/".to_string());
    cks.add_tree(tree_from_b(r2, r3), &ctx);

    let tree = Tree::new(vec![
        node(r1, 3, "a b c"),
        node(r2, 2, "b c"),
        node(r3, 1, "d"),
        node(r3, 1, "d"),
        node(r1, 31, "too big"),
    ]);
    let planned = cks.chunk_files(&tree);
    assert_eq!(planned.len(), 2);
    assert_eq!(planned[0].path, "/tmp//outputs/chunks/chunk_000000002");
    assert_eq!(planned[0].bytes, b"a b c");
    assert_eq!(planned[1].path, "/tmp//outputs/chunks/chunk_000000003");
    assert_eq!(planned[1].bytes, b"d");
    // The store is as it was.
    assert_eq!(cks.number_of_chunks(), 2);
    assert_eq!(cks.trees(), 1);
    assert!(!cks.contains_chunk(&b"d".to_vec()));

    let written = cks.add_tree(tree, &ctx);
    assert_eq!(paths(&written), paths(&planned));
    for (w, p) in written.iter().zip(planned.iter()) {
        assert_eq!(w.bytes, p.bytes);
    }
    assert_eq!(cks.number_of_chunks(), 4);
    assert!(cks.chunk_files(&tree_from_a(r1, r2, r3)).is_empty());
}
