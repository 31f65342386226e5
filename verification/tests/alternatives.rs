use chunkstore::{ChunkStore, Context, NTermID, Node, NodeID, RuleID, Tree};

const EXPR: NTermID = NTermID(10);
const TERM: NTermID = NTermID(20);

fn node(rule: RuleID, size: usize, text: &str) -> Node {
    Node { rule, size, text: text.as_bytes().to_vec() }
}

/// Rules 0, 1, 2 and 3 belong to EXPR, rule 4 to TERM, rule 5 to a
/// nonterminal that no tree uses.
fn grammar() -> Context {
    let mut ctx = Context::new();
    for _ in 0..4 {
        ctx.add_rule(EXPR);
    }
    ctx.add_rule(TERM);
    ctx.add_rule(NTermID(30));
    ctx
}

/// A store with four EXPR occurrences, governed by the rules 0, 1, 1 and 2,
/// and one TERM occurrence.
fn store(ctx: &Context) -> ChunkStore {
    let mut cks = ChunkStore::new("w".to_string());
    cks.add_tree(
        Tree::new(vec![node(RuleID(0), 3, "e0"), node(RuleID(1), 1, "e1"), node(RuleID(4), 1, "t")]),
        ctx,
    );
    cks.add_tree(Tree::new(vec![node(RuleID(1), 2, "e1'"), node(RuleID(2), 1, "e2")]), ctx);
    assert_eq!(
        cks.occurrences(EXPR),
        vec![(0, NodeID(0)), (0, NodeID(1)), (1, NodeID(0)), (1, NodeID(1))]
    );
    cks
}

#[test]
fn alternatives_are_counted_and_indexed() {
    let ctx = grammar();
    let cks = store(&ctx);
    assert_eq!(cks.count_alternatives(RuleID(0), EXPR), 3);
    assert_eq!(cks.count_alternatives(RuleID(1), EXPR), 2);
    assert_eq!(cks.count_alternatives(RuleID(3), EXPR), 4);
    assert_eq!(cks.count_alternatives(RuleID(4), TERM), 0);
    assert_eq!(cks.count_alternatives(RuleID(5), NTermID(30)), 0);

    let (tree, n) = cks.nth_alternative(RuleID(1), EXPR, 0).unwrap();
    assert_eq!((tree.unparse_to_vec(), n), (b"e0".to_vec(), NodeID(0)));
    let (tree, n) = cks.nth_alternative(RuleID(1), EXPR, 1).unwrap();
    assert_eq!((tree.unparse_to_vec(), n), (b"e1'".to_vec(), NodeID(1)));
    assert_eq!(tree.unparse_node_to_vec(n), b"e2");
    assert!(cks.nth_alternative(RuleID(1), EXPR, 2).is_none());
    assert!(cks.nth_alternative(RuleID(4), TERM, 0).is_none());
    assert!(cks.nth_alternative(RuleID(5), NTermID(30), 0).is_none());
}

#[test]
fn no_alternative_without_an_occurrence_of_the_nonterminal() {
    let ctx = grammar();
    let cks = store(&ctx);
    assert!(cks.get_alternative_to(RuleID(5), &ctx).is_none());
    let empty = ChunkStore::new("w".to_string());
    assert!(empty.get_alternative_to(RuleID(0), &ctx).is_none());
}

#[test]
fn no_alternative_where_the_rule_governs_every_occurrence() {
    let ctx = grammar();
    let cks = store(&ctx);
    for _ in 0..50 {
        assert!(cks.get_alternative_to(RuleID(4), &ctx).is_none());
    }
}

#[test]
fn an_alternative_is_never_governed_by_the_rule_itself() {
    let ctx = grammar();
    let cks = store(&ctx);
    for r in 0..4 {
        for _ in 0..200 {
            let (tree, n) = cks.get_alternative_to(RuleID(r), &ctx).expect("an alternative");
            assert_ne!(tree.get_rule_id(n), RuleID(r));
            assert_eq!(ctx.get_nt(tree.get_rule_id(n)), EXPR);
            assert!(tree.subtree_size(n) <= 30);
        }
    }
}

#[test]
fn a_single_alternative_is_always_chosen() {
    let mut ctx = Context::new();
    let r0 = ctx.add_rule(EXPR);
    let r1 = ctx.add_rule(EXPR);
    let mut cks = ChunkStore::new("w".to_string());
    cks.add_tree(Tree::new(vec![node(r0, 2, "x y"), node(r1, 1, "y")]), &ctx);
    for _ in 0..50 {
        let (tree, n) = cks.get_alternative_to(r0, &ctx).unwrap();
        assert_eq!(n, NodeID(1));
        assert_eq!(tree.unparse_node_to_vec(n), b"y");
        let (_, n) = cks.get_alternative_to(r1, &ctx).unwrap();
        assert_eq!(n, NodeID(0));
    }
}

#[test]
fn alternatives_are_chosen_with_equal_chances() {
    let ctx = grammar();
    let cks = store(&ctx);
    // Rule 3 governs no occurrence, so all four are eligible.
    let draws = 40_000usize;
    let mut hits = [0usize; 4];
    let all = cks.occurrences(EXPR);
    for _ in 0..draws {
        let (tree, n) = cks.get_alternative_to(RuleID(3), &ctx).unwrap();
        let k = all
            .iter()
            .position(|&(t, m)| m == n && cks.tree(t).unwrap().unparse_to_vec() == tree.unparse_to_vec())
            .unwrap();
        hits[k] += 1;
    }
    for &n in hits.iter() {
        // The expected count is 10000, with a standard deviation below 90.
        assert!(n > 9_000 && n < 11_000, "hits: {:?}", hits);
    }

    // Rule 0 governs one of them: the other three share the draws.
    let mut hits = [0usize; 4];
    for _ in 0..30_000 {
        let (tree, n) = cks.get_alternative_to(RuleID(0), &ctx).unwrap();
        let k = all
            .iter()
            .position(|&(t, m)| m == n && cks.tree(t).unwrap().unparse_to_vec() == tree.unparse_to_vec())
            .unwrap();
        hits[k] += 1;
    }
    assert_eq!(hits[0], 0);
    for &n in hits[1..].iter() {
        assert!(n > 9_000 && n < 11_000, "hits: {:?}", hits);
    }
}
