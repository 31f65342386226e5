//! Identifiers of nonterminals, rules and tree nodes.

use vstd::prelude::*;

verus! {

/// Identifies a nonterminal of the grammar.
#[derive(PartialEq, Eq, Structural, Clone, Copy, Debug, Hash)]
pub struct NTermID(pub usize);

/// Identifies a production of the grammar.
#[derive(PartialEq, Eq, Structural, Clone, Copy, Debug, Hash)]
pub struct RuleID(pub usize);

/// Names a node of one derivation tree by its position in preorder; it means
/// nothing without that tree.
#[derive(PartialEq, Eq, Structural, Clone, Copy, Debug, Hash)]
pub struct NodeID(pub usize);

impl NTermID {
    /// The identifier's number.
    pub fn to_i(&self) -> (i: usize)
        ensures
            i == self.0,
    {
        self.0
    }
}

impl RuleID {
    /// The identifier's number.
    pub fn to_i(&self) -> (i: usize)
        ensures
            i == self.0,
    {
        self.0
    }
}

impl NodeID {
    /// The node's position in its tree.
    pub fn to_i(&self) -> (i: usize)
        ensures
            i == self.0,
    {
        self.0
    }
}

} // verus!
