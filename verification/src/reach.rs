//! Where a pattern can stand so that the pass takes it apart.
//!
//! The pass goes over a tree more than once. What has to hold of a node depends on what it stands
//! for and on which rounds are still to come: [`ok`] says it, for a node and everything below.
use crate::ast::{
    AssignOp, ExprKind, Kind, MemberKind, PartKind, PatKind, PatPropKind, PropKind, PropNameKind,
    StmtKind, Tree,
};
use crate::measure::{any_complex, complex_pat, is_stmts};
use crate::nullness::nullable;
use crate::rules::{all_decls, is_decl};
use vstd::prelude::*;

verus! {

/// Which rounds of the pass are still to come over a node.
pub enum Mode {
    /// Declarations are lowered, and then assignments.
    Source,
    /// Declarations are lowered twice, assignments only in lists of statements.
    Twice,
    /// Declarations are lowered once, assignments only in lists of statements.
    Once,
    /// Assignments are lowered.
    Assigns,
    /// Nothing has to be lowered any more.
    Clean,
}

/// What a node stands for.
pub enum Role {
    /// A statement, an expression, or a part of one.
    Plain,
    /// An expression, or nothing.
    Init,
    /// A name.
    Leaf,
    /// The name of a property in a pattern.
    Key,
    /// A pattern in a declaration.
    Decl,
    /// An element of an array pattern in a declaration.
    DeclElem,
    /// A property of an object pattern in a declaration.
    DeclProp,
    /// A pattern that is assigned to.
    Target,
    /// An element of an array pattern that is assigned to.
    TargetElem,
    /// A property of an object pattern that is assigned to.
    TargetProp,
    /// A parameter.
    Param,
    /// The parameters of a function.
    Params,
    /// The parameters of a function, all of them names.
    SimpleParams,
    /// The parameter of a catch clause, or nothing.
    CatchParam,
    /// The parameter of a catch clause, a name, or nothing.
    SimpleCatchParam,
    /// A declarator.
    Declarator,
    /// A declarator of a single name.
    Simple,
    /// The declaration in the head of a `for .. in` or `for .. of` loop.
    ForHead,
    /// A declarator in the head of a `for .. in` or `for .. of` loop.
    ForDecl,
    /// Something that is dropped.
    Dropped,
}

/// Which rounds are to come over what was gone over once.
pub open spec fn after(m: Mode) -> Mode {
    match m {
        Mode::Source => Mode::Assigns,
        Mode::Twice => Mode::Once,
        Mode::Once => Mode::Clean,
        Mode::Assigns => Mode::Assigns,
        Mode::Clean => Mode::Clean,
    }
}

/// Whether declarations are still lowered.
pub open spec fn lowers(m: Mode) -> bool {
    m is Source || m is Twice || m is Once
}

/// Which rounds are to come over the statements of a list.
pub open spec fn stmts_mode(m: Mode) -> Mode {
    if lowers(m) {
        Mode::Source
    } else {
        m
    }
}

/// Which rounds are to come over what the lowering of declarations does not reach.
pub open spec fn still_mode(m: Mode) -> Mode {
    if m is Source || m is Assigns {
        Mode::Assigns
    } else {
        Mode::Clean
    }
}

/// Which rounds are to come over what is in a function expression or in an object literal: the
/// lowering of assignments does not go into it, but lowers the declarations in it once more.
pub open spec fn expr_mode(m: Mode) -> Mode {
    match m {
        Mode::Source => Mode::Twice,
        Mode::Assigns => Mode::Once,
        _ => m,
    }
}

/// Which rounds are to come over what is in the parameters of a function: it ends up in the list of
/// statements that is its body.
pub open spec fn param_mode(m: Mode) -> Mode {
    if m is Twice {
        Mode::Source
    } else {
        m
    }
}

/// Whether one of the parameters is taken apart.
pub open spec fn any_taken(ps: Seq<Tree>) -> bool {
    exists|i: int| 0 <= i < ps.len() && taken(#[trigger] ps[i])
}

/// Whether such a parameter is taken apart.
pub open spec fn taken(p: Tree) -> bool {
    p.kind == Kind::Pat(PatKind::Array) || p.kind == Kind::Pat(PatKind::Object) || p.kind
        == Kind::Pat(PatKind::Assign)
}

/// What child `i` of a plain node stands for, and which rounds are to come over it.
pub open spec fn below_plain(m: Mode, t: Tree, i: int) -> (Role, Mode) {
    match t.kind {
        Kind::Stmt(StmtKind::ForIn) => below_for(m, t, i),
        Kind::Stmt(StmtKind::ForOf { is_await }) => below_for(m, t, i),
        Kind::Stmt(StmtKind::VarDecl { kind, declare }) => if lowers(m) {
            (Role::Declarator, m)
        } else {
            (Role::Simple, m)
        },
        Kind::Part(PartKind::Function { is_async, is_generator }) => if t.children[2].kind
            == Kind::Absent {
            (Role::Plain, still_mode(m))
        } else if i == 0 {
            (if lowers(m) {
                Role::Params
            } else {
                Role::SimpleParams
            }, param_mode(m))
        } else {
            (Role::Plain, m)
        },
        Kind::Member(MemberKind::Constructor) => if t.children[2].kind == Kind::Absent {
            (Role::Plain, still_mode(m))
        } else if i == 1 {
            (if lowers(m) {
                Role::Params
            } else {
                Role::SimpleParams
            }, param_mode(m))
        } else {
            (Role::Plain, m)
        },
        Kind::Prop(PropKind::Setter) => if t.children[2].kind == Kind::Absent {
            (Role::Plain, still_mode(m))
        } else if i == 1 {
            (if lowers(m) {
                Role::Decl
            } else {
                Role::Plain
            }, param_mode(m))
        } else {
            (Role::Plain, m)
        },
        Kind::Part(PartKind::Catch) => if i == 0 {
            (if lowers(m) {
                Role::CatchParam
            } else {
                Role::SimpleCatchParam
            }, param_mode(m))
        } else {
            (Role::Plain, m)
        },
        Kind::Expr(ExprKind::Arrow { is_async, is_generator }) => if i == 0 {
            (if lowers(m) {
                Role::Params
            } else {
                Role::SimpleParams
            }, param_mode(m))
        } else if m is Twice && any_taken(t.children[0].children) && t.children[1].kind
            != Kind::Stmt(StmtKind::Block) {
            (Role::Plain, Mode::Source)
        } else {
            (Role::Plain, m)
        },
        Kind::Expr(ExprKind::Fn) => (Role::Plain, expr_mode(m)),
        Kind::Expr(ExprKind::Object) => (Role::Plain, expr_mode(m)),
        Kind::Expr(ExprKind::Assign(AssignOp::Assign)) => if i == 0 && t.children[0].kind is Pat
            && (m is Source || m is Assigns) {
            (Role::Target, m)
        } else {
            (Role::Plain, m)
        },
        _ => if is_stmts(t.kind) {
            (Role::Plain, stmts_mode(m))
        } else {
            (Role::Plain, m)
        },
    }
}

/// What child `i` of a `for .. in` or `for .. of` loop stands for, and which rounds are to come
/// over it: the pass takes its head apart and does not go into the rest.
pub open spec fn below_for(m: Mode, t: Tree, i: int) -> (Role, Mode) {
    if i > 0 {
        (Role::Plain, still_mode(m))
    } else if t.children[0].kind is Stmt {
        (Role::ForHead, m)
    } else {
        (Role::Plain, m)
    }
}

/// Whether a plain node has the children that its kind says.
pub open spec fn fits_plain(m: Mode, t: Tree) -> bool {
    match t.kind {
        Kind::Stmt(StmtKind::ForIn) => fits_for(t),
        Kind::Stmt(StmtKind::ForOf { is_await }) => fits_for(t),
        Kind::Part(PartKind::Function { is_async, is_generator }) => t.children.len() == 3
            && t.children[0].kind == Kind::Part(PartKind::Params) && is_body(t.children[2]),
        Kind::Member(MemberKind::Constructor) => t.children.len() == 3 && t.children[1].kind
            == Kind::Part(PartKind::Params) && is_body(t.children[2]),
        Kind::Prop(PropKind::Setter) => t.children.len() == 3 && (t.children[2].kind
            != Kind::Absent ==> t.children[1].kind is Pat) && is_body(t.children[2]),
        Kind::Part(PartKind::Catch) => t.children.len() == 2 && t.children[1].kind == Kind::Stmt(
            StmtKind::Block,
        ),
        Kind::Expr(ExprKind::Arrow { is_async, is_generator }) => t.children.len() == 2
            && t.children[0].kind == Kind::Part(PartKind::Params) && (t.children[1].kind is Expr
            || t.children[1].kind == Kind::Stmt(StmtKind::Block)),
        Kind::Expr(ExprKind::Assign(AssignOp::Assign)) => t.children.len() == 2 && (
        t.children[0].kind is Pat || t.children[0].kind is Expr) && t.children[1].kind is Expr,
        Kind::Pat(PatKind::Ident) => t.children.len() == 0,
        Kind::Pat(_) => false,
        _ => true,
    }
}

/// Whether a `for .. in` or `for .. of` loop has the children that its kind says.
pub open spec fn fits_for(t: Tree) -> bool {
    t.children.len() == 3 && match t.children[0].kind {
        Kind::Stmt(StmtKind::VarDecl { kind, declare }) => true,
        Kind::Pat(PatKind::Ident) => true,
        _ => false,
    }
}

/// Whether this is the body of a function, or nothing.
pub open spec fn is_body(t: Tree) -> bool {
    t.kind == Kind::Absent || t.kind == Kind::Stmt(StmtKind::Block)
}

/// What child `i` of a node stands for, and which rounds are to come over it.
pub open spec fn below(r: Role, m: Mode, t: Tree, i: int) -> (Role, Mode) {
    match r {
        Role::Plain => below_plain(m, t, i),
        Role::Init => below_plain(m, t, i),
        Role::Leaf => (Role::Leaf, m),
        Role::Key => (Role::Plain, m),
        Role::Decl => below_decl(m, t, i),
        Role::DeclElem => if t.kind is Pat && t.kind->Pat_0 is Rest {
            (Role::Decl, m)
        } else {
            below_decl(m, t, i)
        },
        Role::DeclProp => if i == 0 {
            (if t.kind == Kind::PatProp(PatPropKind::KeyValue) {
                Role::Key
            } else {
                Role::Leaf
            }, m)
        } else {
            (if t.kind == Kind::PatProp(PatPropKind::KeyValue) {
                Role::Decl
            } else {
                Role::Init
            }, m)
        },
        Role::Target => below_target(m, t, i),
        Role::TargetElem => match t.kind {
            Kind::Pat(PatKind::Assign) => if i == 0 {
                (Role::Target, m)
            } else {
                (Role::Plain, m)
            },
            Kind::Pat(PatKind::Rest { dot3 }) => (Role::Target, m),
            _ => below_target(m, t, i),
        },
        Role::TargetProp => if i == 0 {
            (if t.kind == Kind::PatProp(PatPropKind::KeyValue) {
                Role::Key
            } else {
                Role::Leaf
            }, m)
        } else {
            (if t.kind == Kind::PatProp(PatPropKind::KeyValue) {
                Role::Plain
            } else {
                Role::Init
            }, m)
        },
        Role::Param => below_param(m, t, i),
        Role::Params => (Role::Param, m),
        Role::SimpleParams => (Role::Plain, m),
        Role::CatchParam => below_param(m, t, i),
        Role::SimpleCatchParam => (Role::Plain, m),
        Role::Declarator => if i == 0 {
            (Role::Decl, m)
        } else {
            (Role::Init, m)
        },
        Role::Simple => if i == 0 {
            (Role::Plain, m)
        } else {
            (Role::Init, m)
        },
        Role::ForHead => if any_complex(t.children) {
            (Role::ForDecl, if m is Source {
                Mode::Source
            } else {
                Mode::Once
            })
        } else {
            (Role::Simple, still_mode(m))
        },
        Role::ForDecl => if i == 0 {
            (Role::Decl, m)
        } else {
            (Role::Dropped, m)
        },
        Role::Dropped => (Role::Dropped, m),
    }
}

/// What child `i` of a pattern in a declaration stands for, and which rounds are to come over it.
pub open spec fn below_decl(m: Mode, t: Tree, i: int) -> (Role, Mode) {
    match t.kind {
        Kind::Pat(PatKind::Array) => (Role::DeclElem, m),
        Kind::Pat(PatKind::Object) => (Role::DeclProp, m),
        _ => if i == 0 {
            (Role::Decl, m)
        } else {
            (Role::Plain, m)
        },
    }
}

/// What child `i` of a parameter stands for, and which rounds are to come over it.
pub open spec fn below_param(m: Mode, t: Tree, i: int) -> (Role, Mode) {
    match t.kind {
        Kind::Pat(PatKind::Rest { dot3 }) => (Role::Decl, m),
        Kind::Pat(PatKind::Expr) => (Role::Plain, m),
        _ => below_decl(m, t, i),
    }
}

/// What child `i` of a pattern that is assigned to stands for, and which rounds are to come over
/// it.
pub open spec fn below_target(m: Mode, t: Tree, i: int) -> (Role, Mode) {
    match t.kind {
        Kind::Pat(PatKind::Array) => (Role::TargetElem, m),
        Kind::Pat(PatKind::Object) => (Role::TargetProp, m),
        _ => (Role::Plain, m),
    }
}

/// Whether a node can stand for this, with the children that it has.
pub open spec fn fits(r: Role, m: Mode, t: Tree) -> bool {
    match r {
        Role::Plain => fits_plain(m, t),
        Role::Init => fits_init(t) && fits_plain(m, t),
        Role::Leaf => t.kind == Kind::Part(PartKind::Ident) && t.children.len() == 0,
        Role::Key => fits_key(t),
        Role::Decl => fits_decl(t),
        Role::DeclElem => match t.kind {
            Kind::Absent => t.children.len() == 0,
            Kind::Pat(PatKind::Rest { dot3 }) => t.children.len() == 1,
            _ => fits_decl(t),
        },
        Role::DeclProp => fits_prop(t),
        Role::Target => fits_target(t),
        Role::TargetElem => match t.kind {
            Kind::Absent => t.children.len() == 0,
            Kind::Pat(PatKind::Assign) => t.children.len() == 2 && t.children[1].kind is Expr,
            Kind::Pat(PatKind::Rest { dot3 }) => t.children.len() == 1,
            _ => fits_target(t),
        },
        Role::TargetProp => fits_prop(t) && (t.kind == Kind::PatProp(PatPropKind::KeyValue)
            ==> t.children[1].kind == Kind::Pat(PatKind::Ident)),
        Role::Param => fits_param(t),
        Role::Params => t.kind == Kind::Part(PartKind::Params),
        Role::SimpleParams => t.kind == Kind::Part(PartKind::Params) && forall|i: int|
            0 <= i < t.children.len() ==> (#[trigger] t.children[i]).kind == Kind::Pat(
                PatKind::Ident,
            ),
        Role::CatchParam => (t.kind == Kind::Absent && t.children.len() == 0) || fits_param(t),
        Role::SimpleCatchParam => (t.kind == Kind::Absent || t.kind == Kind::Pat(PatKind::Ident))
            && t.children.len() == 0,
        Role::Declarator => {
            &&& is_decl(t)
            &&& t.children[0].kind is Pat
            &&& complex_pat(t.children[0]) ==> t.children[1].kind != Kind::Absent
            &&& t.children[0].kind == Kind::Pat(PatKind::Object) ==> nullable(
                t.children[1],
            ) is Some
        },
        Role::Simple => is_decl(t) && t.children[0].kind == Kind::Pat(PatKind::Ident),
        Role::ForHead => (t.kind is Stmt && t.kind->Stmt_0 is VarDecl) && (any_complex(t.children)
            ==> lowers(m) && all_decls(t.children)),
        Role::ForDecl => is_decl(t) && t.children[0].kind is Pat,
        Role::Dropped => true,
    }
}

/// Whether this is an expression, or nothing.
pub open spec fn fits_init(t: Tree) -> bool {
    t.kind is Expr || (t.kind == Kind::Absent && t.children.len() == 0)
}

/// Whether this is the name of a property.
pub open spec fn fits_key(t: Tree) -> bool {
    match t.kind {
        Kind::PropName(PropNameKind::Computed) => t.children.len() == 1
            && t.children[0].kind is Expr,
        Kind::PropName(_) => t.children.len() == 0,
        _ => false,
    }
}

/// Whether this is a pattern that a declaration can have.
pub open spec fn fits_decl(t: Tree) -> bool {
    match t.kind {
        Kind::Pat(PatKind::Ident) => t.children.len() == 0,
        Kind::Pat(PatKind::Array) => true,
        Kind::Pat(PatKind::Object) => true,
        Kind::Pat(PatKind::Assign) => t.children.len() == 2 && t.children[1].kind is Expr && (
        t.children[0].kind == Kind::Pat(PatKind::Object) ==> nullable(t.children[1]) is Some),
        _ => false,
    }
}

/// Whether this is a property that an object pattern can have.
pub open spec fn fits_prop(t: Tree) -> bool {
    t.children.len() == 2 && (t.kind == Kind::PatProp(PatPropKind::KeyValue) || t.kind
        == Kind::PatProp(PatPropKind::Assign))
}

/// Whether this is a pattern that can be assigned to.
pub open spec fn fits_target(t: Tree) -> bool {
    match t.kind {
        Kind::Pat(PatKind::Ident) => t.children.len() == 0,
        Kind::Pat(PatKind::Array) => true,
        Kind::Pat(PatKind::Object) => true,
        Kind::Pat(PatKind::Expr) => t.children.len() == 1 && t.children[0].kind is Expr,
        _ => false,
    }
}

/// Whether this is a parameter.
pub open spec fn fits_param(t: Tree) -> bool {
    match t.kind {
        Kind::Pat(PatKind::Rest { dot3 }) => t.children.len() == 1,
        Kind::Pat(PatKind::Expr) => t.children.len() == 1,
        _ => fits_decl(t),
    }
}

/// Whether everything in a tree stands where the rounds that are to come take it apart.
pub open spec fn ok(r: Role, m: Mode, t: Tree) -> bool
    decreases t,
{
    fits(r, m, t) && forall|i: int|
        0 <= i < t.children.len() ==> ok(
            below(r, m, t, i).0,
            below(r, m, t, i).1,
            #[trigger] t.children[i],
        )
}

/// Whether that holds of each of the trees.
pub open spec fn all_ok(r: Role, m: Mode, ts: Seq<Tree>) -> bool {
    forall|i: int| 0 <= i < ts.len() ==> ok(r, m, #[trigger] ts[i])
}

} // verus!
