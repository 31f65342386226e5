//! Derivation trees as the chunk store reads them: for each node, in
//! preorder, the rule that governs it, the number of nodes below and
//! including it, and the serialized form of its subtree.

use crate::newtypes::{NodeID, RuleID};
use vstd::prelude::*;

verus! {

/// One node of a derivation tree.
pub struct Node {
    /// The rule that governs the node.
    pub rule: RuleID,
    /// The number of nodes of the subtree rooted here.
    pub size: usize,
    /// The canonical serialization of the subtree rooted here. The store reads
    /// it only where the subtree is small enough to become a chunk.
    pub text: Vec<u8>,
}

/// What a [`Node`] holds, as a mathematical value.
pub struct NodeView {
    pub rule: RuleID,
    pub size: usize,
    pub text: Seq<u8>,
}

impl View for Node {
    type V = NodeView;

    open spec fn view(&self) -> NodeView {
        NodeView { rule: self.rule, size: self.size, text: self.text@ }
    }
}

/// A derivation tree: its nodes in preorder.
pub struct Tree {
    pub nodes: Vec<Node>,
}

impl View for Tree {
    type V = Seq<NodeView>;

    open spec fn view(&self) -> Seq<NodeView> {
        Seq::new(self.nodes@.len(), |i: int| self.nodes@[i]@)
    }
}

impl Tree {
    /// A tree of the given nodes.
    pub fn new(nodes: Vec<Node>) -> (tree: Tree)
        ensures
            tree.nodes == nodes,
    {
        Tree { nodes }
    }

    /// The number of nodes.
    pub fn size(&self) -> (n: usize)
        ensures
            n == self@.len(),
    {
        self.nodes.len()
    }

    /// The number of nodes of the subtree rooted at `n`.
    pub fn subtree_size(&self, n: NodeID) -> (size: usize)
        requires
            n.0 < self@.len(),
        ensures
            size == self@[n.0 as int].size,
    {
        self.nodes[n.0].size
    }

    /// The rule that governs node `n`.
    pub fn get_rule_id(&self, n: NodeID) -> (rule: RuleID)
        requires
            n.0 < self@.len(),
        ensures
            rule == self@[n.0 as int].rule,
    {
        self.nodes[n.0].rule
    }

    /// Appends the serialization of the subtree rooted at `n` to `buffer`.
    pub fn unparse(&self, n: NodeID, buffer: &mut Vec<u8>)
        requires
            n.0 < self@.len(),
        ensures
            final(buffer)@ == old(buffer)@ + self@[n.0 as int].text,
    {
        let text = &self.nodes[n.0].text;
        let ghost before = buffer@;
        let mut i: usize = 0;
        while i < text.len()
            invariant
                i <= text.len(),
                buffer@ == before + text@.subrange(0, i as int),
            decreases text.len() - i,
        {
            buffer.push(text[i]);
            i = i + 1;
            proof {
                assert(text@.subrange(0, i as int) =~= text@.subrange(0, i - 1).push(
                    text@[i - 1],
                ));
                assert(buffer@ =~= before + text@.subrange(0, i as int));
            }
        }
        proof {
            assert(text@.subrange(0, text@.len() as int) =~= text@);
        }
    }

    /// The serialization of the whole tree.
    pub fn unparse_to_vec(&self) -> (bytes: Vec<u8>)
        requires
            self@.len() > 0,
        ensures
            bytes@ == self@[0].text,
    {
        self.unparse_node_to_vec(NodeID(0))
    }

    /// The serialization of the subtree rooted at `n`.
    pub fn unparse_node_to_vec(&self, n: NodeID) -> (bytes: Vec<u8>)
        requires
            n.0 < self@.len(),
        ensures
            bytes@ == self@[n.0 as int].text,
    {
        let mut bytes: Vec<u8> = Vec::new();
        self.unparse(n, &mut bytes);
        proof {
            assert(bytes@ =~= self@[n.0 as int].text);
        }
        bytes
    }
}

} // verus!
