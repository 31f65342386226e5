//! The grammar as the chunk store reads it: which nonterminal each rule
//! belongs to.

use crate::newtypes::{NTermID, RuleID};
use crate::tree::{NodeView, Tree};
use vstd::prelude::*;

verus! {

/// The rule table of a grammar. Rules are numbered from zero in the order in
/// which they were added.
pub struct Context {
    /// The nonterminal of each rule, by the rule's number.
    pub nonterms: Vec<NTermID>,
}

impl View for Context {
    type V = Seq<NTermID>;

    open spec fn view(&self) -> Seq<NTermID> {
        self.nonterms@
    }
}

/// Every rule that governs a node of `tree` is a rule of the grammar `rules`.
pub open spec fn covers(rules: Seq<NTermID>, tree: Seq<NodeView>) -> bool {
    forall|i: int| 0 <= i < tree.len() ==> (#[trigger] tree[i]).rule.0 < rules.len()
}

impl Context {
    /// A grammar without rules.
    pub fn new() -> (ctx: Context)
        ensures
            ctx@ == Seq::<NTermID>::empty(),
    {
        Context { nonterms: Vec::new() }
    }

    /// Adds a rule of the nonterminal `nt` and returns its identifier.
    pub fn add_rule(&mut self, nt: NTermID) -> (rule: RuleID)
        ensures
            final(self)@ == old(self)@.push(nt),
            rule.0 == old(self)@.len(),
    {
        let rule = RuleID(self.nonterms.len());
        self.nonterms.push(nt);
        rule
    }

    /// Whether `rule` is a rule of this grammar.
    pub fn has_rule(&self, rule: RuleID) -> (known: bool)
        ensures
            known == (rule.0 < self@.len()),
    {
        rule.0 < self.nonterms.len()
    }

    /// The nonterminal that `rule` belongs to.
    pub fn get_nt(&self, rule: RuleID) -> (nt: NTermID)
        requires
            rule.0 < self@.len(),
        ensures
            nt == self@[rule.0 as int],
    {
        self.nonterms[rule.0]
    }

    /// Whether every rule that governs a node of `tree` is a rule of this
    /// grammar.
    pub fn covers(&self, tree: &Tree) -> (all: bool)
        ensures
            all == covers(self@, tree@),
    {
        let mut i: usize = 0;
        while i < tree.nodes.len()
            invariant
                i <= tree.nodes.len(),
                tree@.len() == tree.nodes.len(),
                forall|j: int| 0 <= j < i ==> (#[trigger] tree@[j]).rule.0 < self@.len(),
            decreases tree.nodes.len() - i,
        {
            if tree.nodes[i].rule.0 >= self.nonterms.len() {
                proof {
                    assert(tree@[i as int].rule.0 >= self@.len());
                }
                return false;
            }
            i = i + 1;
        }
        true
    }
}

} // verus!
