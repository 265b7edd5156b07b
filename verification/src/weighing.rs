//! The amount of destructuring in a tree, piece by piece.
use crate::ast::{ExprKind, Kind, Span, Tree};
use crate::factory::{
    absent, assign_expr, cond_expr, declarator, helper_call, ident_expr, ident_pat, member,
    non_null_expr, number, prop_name_expr, ref_idx_expr, ref_prop_expr, slice_call,
};
use crate::hygiene::Name;
use crate::measure::{complex_pat, count_complex, depth, depths, is_stmts, weight, weights};
use vstd::prelude::*;

verus! {

/// Two rows of trees behind each other.
pub proof fn lemma_add(a: Seq<Tree>, b: Seq<Tree>)
    ensures
        weights(a + b) == weights(a) + weights(b),
        depths(a + b) == (if depths(a) >= depths(b) {
            depths(a)
        } else {
            depths(b)
        }),
        count_complex(a + b) == count_complex(a) + count_complex(b),
    decreases a.len(),
{
    if a.len() == 0 {
        assert(a + b =~= b);
    } else {
        assert((a + b).drop_first() =~= a.drop_first() + b);
        lemma_add(a.drop_first(), b);
    }
}

/// A single tree.
pub proof fn lemma_one(t: Tree)
    ensures
        weights(seq![t]) == weight(t),
        depths(seq![t]) == depth(t),
        count_complex(seq![t]) == (if complex_pat(t) {
            1nat
        } else {
            0nat
        }),
{
    assert(seq![t].drop_first() =~= Seq::empty());
    assert(weights(Seq::empty()) == 0);
    assert(depths(Seq::empty()) == 0);
    assert(count_complex(Seq::empty()) == 0);
    reveal_with_fuel(weights, 2);
    reveal_with_fuel(depths, 2);
    reveal_with_fuel(count_complex, 2);
}

/// One more tree at the end.
pub proof fn lemma_push(ts: Seq<Tree>, t: Tree)
    ensures
        weights(ts.push(t)) == weights(ts) + weight(t),
        depths(ts.push(t)) == (if depths(ts) >= depth(t) {
            depths(ts)
        } else {
            depth(t)
        }),
        count_complex(ts.push(t)) == count_complex(ts) + count_complex(seq![t]),
{
    assert(ts.push(t) =~= ts + seq![t]);
    lemma_add(ts, seq![t]);
    lemma_one(t);
}

/// Two trees.
pub proof fn lemma_two(a: Tree, b: Tree)
    ensures
        weights(seq![a, b]) == weight(a) + weight(b),
        depths(seq![a, b]) == (if depth(a) >= depth(b) {
            depth(a)
        } else {
            depth(b)
        }),
        count_complex(seq![a, b]) == count_complex(seq![a]) + count_complex(seq![b]),
{
    assert(seq![a, b] =~= seq![a] + seq![b]);
    lemma_add(seq![a], seq![b]);
    lemma_one(a);
    lemma_one(b);
}

/// Three trees.
pub proof fn lemma_three(a: Tree, b: Tree, c: Tree)
    ensures
        weights(seq![a, b, c]) == weight(a) + weight(b) + weight(c),
        depths(seq![a, b, c]) >= depth(a),
        depths(seq![a, b, c]) >= depth(b),
        depths(seq![a, b, c]) >= depth(c),
        depths(seq![a, b, c]) == depth(a) || depths(seq![a, b, c]) == depth(b) || depths(
            seq![a, b, c],
        ) == depth(c),
        count_complex(seq![a, b, c]) == count_complex(seq![a]) + count_complex(seq![b])
            + count_complex(seq![c]),
{
    assert(seq![a, b, c] =~= seq![a, b] + seq![c]);
    lemma_add(seq![a, b], seq![c]);
    lemma_two(a, b);
    lemma_one(c);
}

/// One of the trees.
pub proof fn lemma_index(ts: Seq<Tree>, i: int)
    requires
        0 <= i < ts.len(),
    ensures
        weight(ts[i]) <= weights(ts),
        depth(ts[i]) <= depths(ts),
    decreases ts.len(),
{
    if i > 0 {
        lemma_index(ts.drop_first(), i - 1);
    }
}

/// Names and other trees without children.
pub proof fn lemma_leaf(t: Tree)
    requires
        t.children.len() == 0,
        !complex_pat(t),
    ensures
        weight(t) == 0,
        depth(t) <= 1,
        !is_stmts(t.kind) ==> depth(t) == 0,
{
    assert(t.children =~= Seq::empty());
    assert(count_complex(t.children) == 0);
    assert(weights(t.children) == 0);
    assert(depths(t.children) == 0);
}

pub proof fn lemma_names(name: Name)
    ensures
        weight(ident_expr(name)) == 0,
        depth(ident_expr(name)) == 0,
        weight(ident_pat(name)) == 0,
        depth(ident_pat(name)) == 0,
        weight(absent()) == 0,
        depth(absent()) == 0,
{
    lemma_leaf(ident_expr(name));
    lemma_leaf(ident_pat(name));
    lemma_leaf(absent());
}

pub proof fn lemma_member(object: Name, property: Tree, computed: bool)
    ensures
        weight(member(object, property, computed)) == weight(property),
        depth(member(object, property, computed)) == depth(property),
{
    lemma_names(object);
    lemma_two(ident_expr(object), property);
}

/// What is made for an element of an array pattern.
pub proof fn lemma_elem_exprs(object: Name, i: int, span: Span)
    ensures
        weight(ref_idx_expr(object, i)) == 0,
        depth(ref_idx_expr(object, i)) == 0,
        weight(slice_call(object, i, span)) == 0,
        depth(slice_call(object, i, span)) == 0,
{
    lemma_leaf(number(i, crate::factory::dummy()));
    lemma_leaf(number(i, span));
    lemma_member(object, number(i, crate::factory::dummy()), true);
    let slice = ident_expr(crate::factory::quoted("slice"@));
    lemma_leaf(slice);
    lemma_member(object, slice, false);
    lemma_two(member(object, slice, false), number(i, span));
}

/// What is made for a default value.
pub proof fn lemma_cond_expr(tmp: Name, default: Tree)
    ensures
        weight(cond_expr(tmp, default)) == weight(default),
        depth(cond_expr(tmp, default)) == depth(default),
{
    let cond = cond_expr(tmp, default);
    let test = cond.children[0];
    let void = test.children[1];
    lemma_names(tmp);
    lemma_leaf(void.children[0]);
    lemma_one(void.children[0]);
    lemma_two(ident_expr(tmp), void);
    lemma_three(test, default, ident_expr(tmp));
}

/// What is made for the check of an object.
pub proof fn lemma_non_null_expr(object: Name, throw: Name)
    ensures
        weight(non_null_expr(object, throw)) == 0,
        depth(non_null_expr(object, throw)) == 0,
{
    let cond = non_null_expr(object, throw);
    let call = cond.children[2];
    let error = call.children[1];
    lemma_names(object);
    lemma_names(throw);
    lemma_leaf(error.children[0]);
    lemma_leaf(error.children[1]);
    lemma_two(error.children[0], error.children[1]);
    lemma_two(ident_expr(throw), error);
    lemma_three(ident_expr(object), ident_expr(object), call);
}

/// What is made for the call of a helper.
pub proof fn lemma_helper_call(helper: Name, object: Name)
    ensures
        weight(helper_call(helper, object)) == 0,
        depth(helper_call(helper, object)) == 0,
{
    lemma_names(helper);
    lemma_names(object);
    lemma_two(ident_expr(helper), ident_expr(object));
}

/// What is made of the name of a property.
pub proof fn lemma_prop_name(object: Name, key: Tree)
    ensures
        prop_name_expr(key) matches Some(e) ==> weight(e) <= weight(key) && depth(e) <= depth(key)
            && weight(ref_prop_expr(object, e)) == weight(e) && depth(ref_prop_expr(object, e))
            == depth(e),
{
    match prop_name_expr(key) {
        None => {},
        Some(e) => {
            lemma_member(object, e, e.kind != Kind::Expr(ExprKind::Ident));
            if e.children.len() == 0 && !complex_pat(e) {
                lemma_leaf(e);
            }
            if key.children.len() == 1 {
                lemma_index(key.children, 0);
            }
        },
    }
}

pub proof fn lemma_declarator(span: Span, name: Tree, init: Tree)
    ensures
        weight(declarator(span, name, init)) == weight(name) + weight(init),
        depth(declarator(span, name, init)) == (if depth(name) >= depth(init) {
            depth(name)
        } else {
            depth(init)
        }),
{
    lemma_two(name, init);
}

pub proof fn lemma_assign_expr(span: Span, left: Tree, right: Tree)
    ensures
        weight(assign_expr(span, left, right)) == weight(left) + weight(right),
        depth(assign_expr(span, left, right)) == (if depth(left) >= depth(right) {
            depth(left)
        } else {
            depth(right)
        }),
{
    lemma_two(left, right);
}

} // verus!
