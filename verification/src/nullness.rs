//! Which expressions can have `null` or `undefined` as their value.
use crate::ast::{ExprKind, Kind, LitKind, Node, Tree};
use vstd::prelude::*;

verus! {

/// Whether the value of an expression can be `null` or `undefined`, as far as its form shows. There
/// is no answer for JSX.
pub open spec fn nullable(t: Tree) -> Option<bool>
    decreases t,
{
    match t.kind {
        Kind::Expr(kind) => match kind {
            ExprKind::Lit(LitKind::Null) => Some(true),
            ExprKind::Lit(_) => Some(false),
            ExprKind::Array => Some(false),
            ExprKind::Arrow { is_async, is_generator } => Some(false),
            ExprKind::Object => Some(false),
            ExprKind::Fn => Some(false),
            ExprKind::Class => Some(false),
            ExprKind::Tpl => Some(false),
            ExprKind::TsNonNull => Some(false),
            // The value is that of the expression inside.
            ExprKind::Paren => if t.children.len() > 0 {
                nullable(t.children[0])
            } else {
                None
            },
            ExprKind::TsAs => if t.children.len() > 0 {
                nullable(t.children[0])
            } else {
                None
            },
            ExprKind::TsTypeAssertion => if t.children.len() > 0 {
                nullable(t.children[0])
            } else {
                None
            },
            ExprKind::TsTypeCast => if t.children.len() > 0 {
                nullable(t.children[0])
            } else {
                None
            },
            // The value is that of the last expression.
            ExprKind::Sequence => if t.children.len() > 0 {
                nullable(t.children[t.children.len() - 1])
            } else {
                Some(true)
            },
            // The value is that of the right-hand side.
            ExprKind::Assign(op) => if t.children.len() == 2 {
                nullable(t.children[1])
            } else {
                None
            },
            // The value is that of either branch.
            ExprKind::Cond => if t.children.len() == 3 {
                match nullable(t.children[1]) {
                    Some(false) => nullable(t.children[2]),
                    answer => answer,
                }
            } else {
                None
            },
            ExprKind::JSXMember => None,
            ExprKind::JSXNamespacedName => None,
            ExprKind::JSXEmpty => None,
            ExprKind::JSXElement => None,
            ExprKind::JSXFragment => None,
            _ => Some(true),
        },
        _ => None,
    }
}

/// Objects of any sort and the literals other than `null` are not null, names, parts of objects and
/// the results of calls can be, and what only passes a value on is null where that is.
pub proof fn law_nullable(t: Tree)
    requires
        t.kind is Expr,
    ensures
        match t.kind->Expr_0 {
            ExprKind::Array
            | ExprKind::Object
            | ExprKind::Fn
            | ExprKind::Class
            | ExprKind::Tpl
            | ExprKind::TsNonNull => nullable(t) == Some(false),
            ExprKind::Arrow { is_async, is_generator } => nullable(t) == Some(false),
            ExprKind::Lit(kind) => nullable(t) == Some(kind == LitKind::Null),
            ExprKind::This
            | ExprKind::Ident
            | ExprKind::Call
            | ExprKind::TaggedTpl
            | ExprKind::MetaProp
            | ExprKind::Await
            | ExprKind::PrivateName => nullable(t) == Some(true),
            ExprKind::Member { computed } => nullable(t) == Some(true),
            ExprKind::New { has_args } => nullable(t) == Some(true),
            ExprKind::Yield { delegate } => nullable(t) == Some(true),
            ExprKind::Unary(op) => nullable(t) == Some(true),
            ExprKind::Update { op, prefix } => nullable(t) == Some(true),
            ExprKind::Bin(op) => nullable(t) == Some(true),
            ExprKind::Paren
            | ExprKind::TsAs
            | ExprKind::TsTypeAssertion
            | ExprKind::TsTypeCast => t.children.len() > 0 ==> nullable(t) == nullable(
                t.children[0],
            ),
            ExprKind::Sequence => t.children.len() > 0 ==> nullable(t) == nullable(
                t.children.last(),
            ),
            ExprKind::Assign(op) => t.children.len() == 2 ==> nullable(t) == nullable(
                t.children[1],
            ),
            ExprKind::Cond => t.children.len() == 3 && nullable(t.children[1]) is Some && nullable(
                t.children[2],
            ) is Some ==> nullable(t) == Some(
                nullable(t.children[1]) == Some(true) || nullable(t.children[2]) == Some(true),
            ),
            ExprKind::JSXMember
            | ExprKind::JSXNamespacedName
            | ExprKind::JSXEmpty
            | ExprKind::JSXElement
            | ExprKind::JSXFragment => nullable(t) is None,
        },
{
}

/// Whether the value of an expression can be `null` or `undefined`, as far as its form shows. There
/// is no answer for JSX.
pub fn can_be_null(e: &Node) -> (answer: Option<bool>)
    ensures
        answer == nullable(e@),
    decreases e,
{
    broadcast use crate::ast::group_trees;

    match e.kind {
        Kind::Expr(kind) => match kind {
            ExprKind::Lit(LitKind::Null) => Some(true),
            ExprKind::Lit(_)
            | ExprKind::Array
            | ExprKind::Arrow { .. }
            | ExprKind::Object
            | ExprKind::Fn
            | ExprKind::Class
            | ExprKind::Tpl
            | ExprKind::TsNonNull => Some(false),
            ExprKind::Paren
            | ExprKind::TsAs
            | ExprKind::TsTypeAssertion
            | ExprKind::TsTypeCast => if e.children.len() > 0 {
                can_be_null(&e.children[0])
            } else {
                None
            },
            ExprKind::Sequence => if e.children.len() > 0 {
                can_be_null(&e.children[e.children.len() - 1])
            } else {
                Some(true)
            },
            ExprKind::Assign(_) => if e.children.len() == 2 {
                can_be_null(&e.children[1])
            } else {
                None
            },
            ExprKind::Cond => if e.children.len() == 3 {
                match can_be_null(&e.children[1]) {
                    Some(false) => can_be_null(&e.children[2]),
                    answer => answer,
                }
            } else {
                None
            },
            ExprKind::JSXMember
            | ExprKind::JSXNamespacedName
            | ExprKind::JSXEmpty
            | ExprKind::JSXElement
            | ExprKind::JSXFragment => None,
            _ => Some(true),
        },
        _ => None,
    }
}

} // verus!
