//! Looks for patterns that are more than a name.
use crate::ast::{trees, Kind, Node, PatKind};
use crate::measure::{any_pattern, has_pattern};
use vstd::prelude::*;

verus! {

/// Remembers whether a pattern that is more than a name was met.
pub struct DestructuringVisitor {
    pub found: bool,
}

impl DestructuringVisitor {
    /// Goes through a node and everything below it.
    pub fn visit(&mut self, node: &Node)
        ensures
            final(self).found == (old(self).found || has_pattern(node@)),
        decreases node,
    {
        broadcast use crate::ast::group_trees;

        for i in 0..node.children.len()
            invariant
                self.found == (old(self).found || exists|j: int|
                    0 <= j < i && has_pattern(#[trigger] node@.children[j])),
        {
            assert(node@.children[i as int] == node.children[i as int]@);
            self.visit(&node.children[i]);
        }
        match node.kind {
            Kind::Pat(PatKind::Ident) => {},
            Kind::Pat(_) => {
                self.found = true;
            },
            _ => {},
        }
    }
}

/// Whether a pattern that is more than a name stands anywhere in the statements.
pub fn has_destruturing(nodes: &Vec<Node>) -> (found: bool)
    ensures
        found == any_pattern(trees(nodes@)),
{
    let mut v = DestructuringVisitor { found: false };
    for i in 0..nodes.len()
        invariant
            v.found == exists|j: int| 0 <= j < i && has_pattern(#[trigger] trees(nodes@)[j]),
    {
        assert(trees(nodes@)[i as int] == nodes@[i as int]@);
        v.visit(&nodes[i]);
    }
    v.found
}

} // verus!
