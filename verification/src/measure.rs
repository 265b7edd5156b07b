//! How much destructuring a tree holds, and how deep its statements are nested.
//!
//! Every time the pass goes over a tree that it has made itself, that tree holds less destructuring
//! than the tree it was made from, or as much of it but in fewer nested statement lists.
use crate::ast::{Kind, PartKind, PatKind, PropKind, StmtKind, Tree};
use vstd::prelude::*;

verus! {

/// Whether this is a pattern that is more than a name.
pub open spec fn complex_pat(t: Tree) -> bool {
    match t.kind {
        Kind::Pat(PatKind::Ident) => false,
        Kind::Pat(_) => true,
        _ => false,
    }
}

/// Whether this declarator binds anything but a single name.
pub open spec fn complex_decl(d: Tree) -> bool {
    match d.kind {
        Kind::Part(PartKind::Declarator { definite }) => d.children.len() == 2
            && d.children[0].kind != Kind::Pat(PatKind::Ident),
        _ => false,
    }
}

/// Whether one of the declarators binds anything but a single name.
pub open spec fn any_complex(ds: Seq<Tree>) -> bool {
    exists|i: int| 0 <= i < ds.len() && complex_decl(#[trigger] ds[i])
}

/// Whether a pattern that is more than a name stands anywhere in the tree.
pub open spec fn has_pattern(t: Tree) -> bool
    decreases t,
{
    complex_pat(t) || exists|i: int|
        0 <= i < t.children.len() && has_pattern(#[trigger] t.children[i])
}

/// Such a pattern is found wherever it stands, and nothing else is taken for one.
pub proof fn law_has_pattern(t: Tree)
    ensures
        t.kind is Pat && t.kind != Kind::Pat(PatKind::Ident) ==> has_pattern(t),
        forall|i: int|
            0 <= i < t.children.len() && has_pattern(#[trigger] t.children[i]) ==> has_pattern(t),
        !(t.kind is Pat && t.kind != Kind::Pat(PatKind::Ident)) && (forall|i: int|
            0 <= i < t.children.len() ==> !has_pattern(#[trigger] t.children[i])) ==> !has_pattern(
            t,
        ),
{
}

/// Whether a pattern that is more than a name stands anywhere in one of the trees.
pub open spec fn any_pattern(ts: Seq<Tree>) -> bool {
    exists|i: int| 0 <= i < ts.len() && has_pattern(#[trigger] ts[i])
}

/// Whether the children of such a node are a list of statements.
pub open spec fn is_stmts(kind: Kind) -> bool {
    match kind {
        Kind::Stmt(StmtKind::Block) => true,
        Kind::Part(PartKind::Stmts) => true,
        Kind::Part(PartKind::TsModuleBlock) => true,
        Kind::Module => true,
        Kind::Script => true,
        _ => false,
    }
}

/// How many of the trees are patterns that are more than a name.
pub open spec fn count_complex(ts: Seq<Tree>) -> nat
    decreases ts.len(),
{
    if ts.len() == 0 {
        0
    } else {
        (if complex_pat(ts[0]) {
            1nat
        } else {
            0nat
        }) + count_complex(ts.drop_first())
    }
}

/// Whether a loop declares anything but single names.
pub open spec fn complex_head(t: Tree) -> bool {
    t.children.len() > 0 && match t.children[0].kind {
        Kind::Stmt(StmtKind::VarDecl { kind, declare }) => any_complex(t.children[0].children),
        _ => false,
    }
}

/// How many of the patterns below a node become declarations of their own.
pub open spec fn hoisted(t: Tree) -> nat {
    match t.kind {
        Kind::Part(PartKind::Params) => count_complex(t.children),
        Kind::Part(PartKind::Catch) => count_complex(t.children),
        Kind::Prop(PropKind::Setter) => count_complex(t.children),
        Kind::Stmt(StmtKind::ForIn) => if complex_head(t) {
            1
        } else {
            0
        },
        Kind::Stmt(StmtKind::ForOf { is_await }) => if complex_head(t) {
            1
        } else {
            0
        },
        _ => 0,
    }
}

/// How much destructuring a tree holds: its patterns that are more than a name, those that become
/// declarations of their own counted twice.
pub open spec fn weight(t: Tree) -> nat
    decreases t,
{
    (if complex_pat(t) {
        1nat
    } else {
        0nat
    }) + hoisted(t) + weights(t.children)
}

/// How much destructuring the trees hold together.
pub open spec fn weights(ts: Seq<Tree>) -> nat
    decreases ts,
{
    if ts.len() == 0 {
        0
    } else {
        weight(ts[0]) + weights(ts.drop_first())
    }
}

/// How many lists of statements are nested in one another.
pub open spec fn depth(t: Tree) -> nat
    decreases t,
{
    (if is_stmts(t.kind) {
        1nat
    } else {
        0nat
    }) + depths(t.children)
}

/// How many lists of statements are nested in one another, in the deepest of the trees.
pub open spec fn depths(ts: Seq<Tree>) -> nat
    decreases ts,
{
    if ts.len() == 0 {
        0
    } else if depth(ts[0]) >= depths(ts.drop_first()) {
        depth(ts[0])
    } else {
        depths(ts.drop_first())
    }
}

/// How many nodes a tree has.
pub open spec fn size(t: Tree) -> nat
    decreases t,
{
    1 + sizes(t.children)
}

/// How many nodes the trees have together, and one more for each of them.
pub open spec fn sizes(ts: Seq<Tree>) -> nat
    decreases ts,
{
    if ts.len() == 0 {
        0
    } else {
        1 + size(ts[0]) + sizes(ts.drop_first())
    }
}

} // verus!
