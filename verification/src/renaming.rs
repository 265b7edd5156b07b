//! What comes out does not depend on what was made before, up to the contexts of new names.
use crate::ast::{
    AssignOp, ExprKind, Kind, MemberKind, PartKind, PatKind, PatPropKind, PropKind, Span, StmtKind,
    Tree, VarDeclKind,
};
use crate::factory::{
    absent, assign_expr, cond_expr, declarator, dummy, helper_call, ident_expr, ident_pat, inner,
    member, non_null_expr, number, prop_name_expr, quoted, ref_idx_expr, ref_prop_expr, seq_expr,
    slice_call, var_decl,
};
use crate::growth::{grown, law_fresh};
use crate::hygiene::{Env, Name, Refusal};
use crate::measure::{
    any_complex, any_pattern, complex_decl, complex_pat, count_complex, depth, depths, has_pattern,
    is_stmts, size, sizes, weight, weights,
};
use crate::nullness::nullable;
use crate::rules::{
    alias_ident, all_decls, array_ident, assign, assign_all, assign_elem, assign_elems, assign_prop,
    assign_props, assign_stmts, copied_array, copied_object, declare_vars, elem_decl, fold,
    fold_all, fold_arrow, fold_catch, fold_constructor, fold_decls, fold_fn_like, fold_for,
    fold_function, fold_setter, fold_stmts, init_all, is_decl, lower_assign, lower_decl,
    lower_decls, lower_elems, lower_prop, lower_props, name_of, non_null_ident, object_ident,
    prepend, reassign, ref_ident, ref_text, refold, return_stmt, split_params, tmp_ident, with,
};
use vstd::prelude::*;

verus! {

/// Whether each context on one side stands for one on the other side, and the other way round.
#[verifier::opaque]
pub open spec fn one_to_one(r: Set<(u32, u32)>) -> bool {
    forall|p: (u32, u32), q: (u32, u32)| #[trigger]
        r.contains(p) && #[trigger] r.contains(q) ==> (p.0 == q.0) == (p.1 == q.1)
}

/// Whether two spans are the same up to the renaming of contexts.
pub open spec fn same_span(a: Span, b: Span, r: Set<(u32, u32)>) -> bool {
    a.lo == b.lo && a.hi == b.hi && r.contains((a.ctxt, b.ctxt))
}

/// Whether two trees are the same up to the renaming of contexts.
pub open spec fn same(t: Tree, u: Tree, r: Set<(u32, u32)>) -> bool
    decreases t,
{
    &&& t.kind == u.kind
    &&& (t.kind matches Kind::Pat(PatKind::Rest { dot3 }) ==> r.contains((dot3.ctxt, dot3.ctxt)))
    &&& t.text == u.text
    &&& same_span(t.span, u.span, r)
    &&& t.children.len() == u.children.len()
    &&& forall|i: int|
        0 <= i < t.children.len() ==> same(#[trigger] t.children[i], u.children[i], r)
}

/// Whether two rows of trees are the same up to the renaming of contexts.
pub open spec fn same_all(ts: Seq<Tree>, us: Seq<Tree>, r: Set<(u32, u32)>) -> bool {
    ts.len() == us.len() && forall|i: int|
        0 <= i < ts.len() ==> same(#[trigger] ts[i], us[i], r)
}

/// Whether two names are the same up to the renaming of contexts.
pub open spec fn same_name(a: Name, b: Name, r: Set<(u32, u32)>) -> bool {
    a.text == b.text && same_span(a.span, b.span, r)
}

/// Whether this is the context of the helpers.
pub open spec fn is_helper(env: Env, ctxt: u32) -> bool {
    ctxt < env.contexts.len() && env.contexts[ctxt as int] == (0u32, env.helpers.mark)
}

/// Whether a renaming leads from contexts of one state to contexts of another. It is one to one,
/// and the empty context and the context of the helpers only stand for themselves.
pub open spec fn linked(e: Env, f: Env, r: Set<(u32, u32)>) -> bool {
    &&& e.wf()
    &&& f.wf()
    &&& r.contains((0u32, 0u32))
    &&& one_to_one(r)
    &&& within(e, f, r)
}

/// Whether the contexts of a renaming are contexts of the two states, and the context of the
/// helpers stands for that of the helpers.
#[verifier::opaque]
pub open spec fn within(e: Env, f: Env, r: Set<(u32, u32)>) -> bool {
    forall|p: (u32, u32)| #[trigger]
        r.contains(p) ==> {
            &&& p.0 < e.contexts.len()
            &&& p.1 < f.contexts.len()
            &&& is_helper(e, p.0) == is_helper(f, p.1)
        }
}

/// Whether a renaming goes on from another one, to which it only [`adds`].
pub open spec fn ext(
    e: Env,
    f: Env,
    r: Set<(u32, u32)>,
    e1: Env,
    f1: Env,
    r1: Set<(u32, u32)>,
) -> bool {
    &&& grown(e, e1)
    &&& grown(f, f1)
    &&& linked(e1, f1, r1)
    &&& forall|p: (u32, u32)| #[trigger] r.contains(p) ==> r1.contains(p)
    &&& adds(e, f, r, e1, f1, r1)
}

/// Whether what is new in a renaming are contexts that neither state had before, and at most the
/// context of the helpers besides.
#[verifier::opaque]
pub open spec fn adds(
    e: Env,
    f: Env,
    r: Set<(u32, u32)>,
    e1: Env,
    f1: Env,
    r1: Set<(u32, u32)>,
) -> bool {
    forall|p: (u32, u32)| #[trigger]
        r1.contains(p) && !r.contains(p) ==> (p.0 >= e.contexts.len() && p.1 >= f.contexts.len())
            || (is_helper(e1, p.0) && is_helper(f1, p.1))
}

/// Whether two runs end alike: both with a result, both with a tree that cannot be taken apart, or
/// one of them with a full table.
pub open spec fn alike<A>(x: Result<A, Refusal>, y: Result<A, Refusal>) -> bool {
    match (x, y) {
        (Err(a), Err(b)) => a == b || a is Full || b is Full,
        (Err(a), Ok(_)) => a is Full,
        (Ok(_), Err(b)) => b is Full,
        (Ok(_), Ok(_)) => true,
    }
}

/// Whether two runs end alike, and in trees that are the same up to a renaming that goes on from
/// the given one.
pub open spec fn meet(
    x: Result<(Tree, Env), Refusal>,
    y: Result<(Tree, Env), Refusal>,
    e: Env,
    f: Env,
    r: Set<(u32, u32)>,
    r1: Set<(u32, u32)>,
) -> bool {
    alike(x, y) && (x matches Ok((t, e1)) ==> y matches Ok((u, f1)) ==> ext(e, f, r, e1, f1, r1)
        && same(t, u, r1))
}

/// Whether two runs end alike, and in rows of trees that are the same up to such a renaming.
pub open spec fn meet_all(
    x: Result<(Seq<Tree>, Env), Refusal>,
    y: Result<(Seq<Tree>, Env), Refusal>,
    e: Env,
    f: Env,
    r: Set<(u32, u32)>,
    r1: Set<(u32, u32)>,
) -> bool {
    alike(x, y) && (x matches Ok((ts, e1)) ==> y matches Ok((us, f1)) ==> ext(e, f, r, e1, f1, r1)
        && same_all(ts, us, r1))
}

spec fn meet_name(
    x: Result<(Name, Seq<Tree>, Env), Refusal>,
    y: Result<(Name, Seq<Tree>, Env), Refusal>,
    e: Env,
    f: Env,
    r: Set<(u32, u32)>,
    r1: Set<(u32, u32)>,
) -> bool {
    alike(x, y) && (x matches Ok((a, ts, e1)) ==> y matches Ok((b, us, f1)) ==> ext(
        e,
        f,
        r,
        e1,
        f1,
        r1,
    ) && same_name(a, b, r1) && same_all(ts, us, r1))
}

spec fn meet_two(
    x: Result<(Seq<Tree>, Seq<Tree>, Env), Refusal>,
    y: Result<(Seq<Tree>, Seq<Tree>, Env), Refusal>,
    e: Env,
    f: Env,
    r: Set<(u32, u32)>,
    r1: Set<(u32, u32)>,
) -> bool {
    alike(x, y) && (x matches Ok((ts, vs, e1)) ==> y matches Ok((us, ws, f1)) ==> ext(
        e,
        f,
        r,
        e1,
        f1,
        r1,
    ) && same_all(ts, us, r1) && same_all(vs, ws, r1))
}

spec fn meet_assign(
    x: Result<(Tree, Seq<Tree>, Env), Refusal>,
    y: Result<(Tree, Seq<Tree>, Env), Refusal>,
    e: Env,
    f: Env,
    r: Set<(u32, u32)>,
    r1: Set<(u32, u32)>,
) -> bool {
    alike(x, y) && (x matches Ok((t, vs, e1)) ==> y matches Ok((u, ws, f1)) ==> ext(
        e,
        f,
        r,
        e1,
        f1,
        r1,
    ) && same(t, u, r1) && same_all(vs, ws, r1))
}

/// Nothing happens on either side.
proof fn lemma_ext_refl(e: Env, f: Env, r: Set<(u32, u32)>)
    requires
        linked(e, f, r),
    ensures
        ext(e, f, r, e, f, r),
{
    reveal(adds);
}

/// One step after another.
proof fn lemma_ext_trans(
    e: Env,
    f: Env,
    r: Set<(u32, u32)>,
    e1: Env,
    f1: Env,
    r1: Set<(u32, u32)>,
    e2: Env,
    f2: Env,
    r2: Set<(u32, u32)>,
)
    requires
        ext(e, f, r, e1, f1, r1),
        ext(e1, f1, r1, e2, f2, r2),
    ensures
        ext(e, f, r, e2, f2, r2),
{
    reveal(adds);
    crate::growth::lemma_trans(e, e1, e2);
    crate::growth::lemma_trans(f, f1, f2);
    assert forall|p: (u32, u32)| #[trigger] r2.contains(p) && !r.contains(p) implies (p.0
        >= e.contexts.len() && p.1 >= f.contexts.len()) || (is_helper(e2, p.0) && is_helper(
        f2,
        p.1,
    )) by {
        if r1.contains(p) {
            if is_helper(e1, p.0) {
                assert(e2.contexts[p.0 as int] == e1.contexts[p.0 as int]);
            }
            if is_helper(f1, p.1) {
                assert(f2.contexts[p.1 as int] == f1.contexts[p.1 as int]);
            }
        }
    }
}

/// What is the same stays the same when the renaming goes on.
proof fn lemma_mono(t: Tree, u: Tree, r: Set<(u32, u32)>, r1: Set<(u32, u32)>)
    requires
        same(t, u, r),
        forall|p: (u32, u32)| #[trigger] r.contains(p) ==> r1.contains(p),
    ensures
        same(t, u, r1),
    decreases t,
{
    assert forall|i: int| 0 <= i < t.children.len() implies same(
        #[trigger] t.children[i],
        u.children[i],
        r1,
    ) by {
        lemma_mono(t.children[i], u.children[i], r, r1);
    }
}

pub proof fn lemma_mono_all(ts: Seq<Tree>, us: Seq<Tree>, r: Set<(u32, u32)>, r1: Set<(u32, u32)>)
    requires
        same_all(ts, us, r),
        forall|p: (u32, u32)| #[trigger] r.contains(p) ==> r1.contains(p),
    ensures
        same_all(ts, us, r1),
{
    assert forall|i: int| 0 <= i < ts.len() implies same(#[trigger] ts[i], us[i], r1) by {
        lemma_mono(ts[i], us[i], r, r1);
    }
}

proof fn lemma_children(t: Tree, u: Tree, r: Set<(u32, u32)>)
    requires
        same(t, u, r),
    ensures
        same_all(t.children, u.children, r),
{
}

proof fn lemma_with(t: Tree, u: Tree, ts: Seq<Tree>, us: Seq<Tree>, r: Set<(u32, u32)>)
    requires
        same(t, u, r),
        same_all(ts, us, r),
    ensures
        same(with(t, ts), with(u, us), r),
{
    assert forall|i: int| 0 <= i < ts.len() implies same(
        #[trigger] with(t, ts).children[i],
        with(u, us).children[i],
        r,
    ) by {
        assert(same(ts[i], us[i], r));
    }
}

proof fn lemma_drop(ts: Seq<Tree>, us: Seq<Tree>, r: Set<(u32, u32)>)
    requires
        same_all(ts, us, r),
        ts.len() > 0,
    ensures
        same(ts[0], us[0], r),
        same_all(ts.drop_first(), us.drop_first(), r),
{
    assert forall|i: int| 0 <= i < ts.drop_first().len() implies same(
        #[trigger] ts.drop_first()[i],
        us.drop_first()[i],
        r,
    ) by {
        assert(same(ts[i + 1], us[i + 1], r));
    }
}

proof fn lemma_push(ts: Seq<Tree>, us: Seq<Tree>, t: Tree, u: Tree, r: Set<(u32, u32)>)
    requires
        same_all(ts, us, r),
        same(t, u, r),
    ensures
        same_all(ts.push(t), us.push(u), r),
{
    assert forall|i: int| 0 <= i < ts.push(t).len() implies same(
        #[trigger] ts.push(t)[i],
        us.push(u)[i],
        r,
    ) by {
        if i < ts.len() {
            assert(same(ts[i], us[i], r));
        }
    }
}

proof fn lemma_add(
    a: Seq<Tree>,
    b: Seq<Tree>,
    ts: Seq<Tree>,
    us: Seq<Tree>,
    r: Set<(u32, u32)>,
)
    requires
        same_all(a, b, r),
        same_all(ts, us, r),
    ensures
        same_all(a + ts, b + us, r),
{
    assert forall|i: int| 0 <= i < (a + ts).len() implies same(
        #[trigger] (a + ts)[i],
        (b + us)[i],
        r,
    ) by {
        if i < a.len() {
            assert(same(a[i], b[i], r));
        } else {
            assert(same(ts[i - a.len()], us[i - a.len()], r));
        }
    }
}

proof fn lemma_seq1(a: Tree, b: Tree, r: Set<(u32, u32)>)
    requires
        same(a, b, r),
    ensures
        same_all(seq![a], seq![b], r),
{
    let ts = seq![a];
    let us = seq![b];
    assert forall|i: int| 0 <= i < ts.len() implies same(#[trigger] ts[i], us[i], r) by {
        assert(i == 0);
    }
}

proof fn lemma_seq2(a: Tree, a2: Tree, b: Tree, b2: Tree, r: Set<(u32, u32)>)
    requires
        same(a, b, r),
        same(a2, b2, r),
    ensures
        same_all(seq![a, a2], seq![b, b2], r),
{
    let ts = seq![a, a2];
    let us = seq![b, b2];
    assert forall|i: int| 0 <= i < ts.len() implies same(#[trigger] ts[i], us[i], r) by {
        assert(i == 0 || i == 1);
    }
}

proof fn lemma_seq3(
    a: Tree,
    a2: Tree,
    a3: Tree,
    b: Tree,
    b2: Tree,
    b3: Tree,
    r: Set<(u32, u32)>,
)
    requires
        same(a, b, r),
        same(a2, b2, r),
        same(a3, b3, r),
    ensures
        same_all(seq![a, a2, a3], seq![b, b2, b3], r),
{
    let ts = seq![a, a2, a3];
    let us = seq![b, b2, b3];
    assert forall|i: int| 0 <= i < ts.len() implies same(#[trigger] ts[i], us[i], r) by {
        assert(i == 0 || i == 1 || i == 2);
    }
}

/// A node with three other children.
proof fn lemma_with3(
    t: Tree,
    u: Tree,
    a: Tree,
    a2: Tree,
    a3: Tree,
    b: Tree,
    b2: Tree,
    b3: Tree,
    r: Set<(u32, u32)>,
)
    requires
        same(t, u, r),
        same(a, b, r),
        same(a2, b2, r),
        same(a3, b3, r),
    ensures
        same(with(t, seq![a, a2, a3]), with(u, seq![b, b2, b3]), r),
{
    lemma_seq3(a, a2, a3, b, b2, b3, r);
    lemma_with(t, u, seq![a, a2, a3], seq![b, b2, b3], r);
}

/// A piece of syntax without text.
proof fn lemma_inner(
    kind: Kind,
    a: Span,
    b: Span,
    ts: Seq<Tree>,
    us: Seq<Tree>,
    r: Set<(u32, u32)>,
)
    requires
        !(kind is Pat),
        same_span(a, b, r),
        same_all(ts, us, r),
    ensures
        same(inner(kind, a, ts), inner(kind, b, us), r),
{
    let t = inner(kind, a, ts);
    let u = inner(kind, b, us);
    assert forall|i: int| 0 <= i < t.children.len() implies same(
        #[trigger] t.children[i],
        u.children[i],
        r,
    ) by {
        assert(same(ts[i], us[i], r));
    }
}

proof fn lemma_names(a: Name, b: Name, r: Set<(u32, u32)>)
    requires
        same_name(a, b, r),
        r.contains((0u32, 0u32)),
    ensures
        same(ident_expr(a), ident_expr(b), r),
        same(ident_pat(a), ident_pat(b), r),
        same(absent(), absent(), r),
{
}

proof fn lemma_declarator(
    a: Span,
    b: Span,
    name: Tree,
    name2: Tree,
    init: Tree,
    init2: Tree,
    r: Set<(u32, u32)>,
)
    requires
        same_span(a, b, r),
        same(name, name2, r),
        same(init, init2, r),
    ensures
        same(declarator(a, name, init), declarator(b, name2, init2), r),
{
    lemma_seq2(name, init, name2, init2, r);
    lemma_inner(
        Kind::Part(PartKind::Declarator { definite: false }),
        a,
        b,
        seq![name, init],
        seq![name2, init2],
        r,
    );
}

proof fn lemma_assign_expr(
    a: Span,
    b: Span,
    left: Tree,
    left2: Tree,
    right: Tree,
    right2: Tree,
    r: Set<(u32, u32)>,
)
    requires
        same_span(a, b, r),
        same(left, left2, r),
        same(right, right2, r),
    ensures
        same(assign_expr(a, left, right), assign_expr(b, left2, right2), r),
{
    lemma_seq2(left, right, left2, right2, r);
    lemma_inner(
        Kind::Expr(ExprKind::Assign(AssignOp::Assign)),
        a,
        b,
        seq![left, right],
        seq![left2, right2],
        r,
    );
}

proof fn lemma_member(
    a: Name,
    b: Name,
    property: Tree,
    property2: Tree,
    computed: bool,
    r: Set<(u32, u32)>,
)
    requires
        same_name(a, b, r),
        same(property, property2, r),
        r.contains((0u32, 0u32)),
    ensures
        same(member(a, property, computed), member(b, property2, computed), r),
{
    lemma_names(a, b, r);
    lemma_seq2(ident_expr(a), property, ident_expr(b), property2, r);
    lemma_inner(
        Kind::Expr(ExprKind::Member { computed }),
        dummy(),
        dummy(),
        seq![ident_expr(a), property],
        seq![ident_expr(b), property2],
        r,
    );
}

proof fn lemma_elem_exprs(a: Name, b: Name, i: int, span: Span, r: Set<(u32, u32)>)
    requires
        same_name(a, b, r),
        r.contains((0u32, 0u32)),
        r.contains((span.ctxt, span.ctxt)),
    ensures
        same(ref_idx_expr(a, i), ref_idx_expr(b, i), r),
        same(slice_call(a, i, span), slice_call(b, i, span), r),
{
    let n = number(i, dummy());
    let k = number(i, span);
    assert(same(n, n, r));
    assert(same(k, k, r));
    lemma_member(a, b, n, n, true, r);
    let slice = ident_expr(quoted("slice"@));
    assert(same(slice, slice, r));
    lemma_member(a, b, slice, slice, false, r);
    lemma_seq2(member(a, slice, false), k, member(b, slice, false), k, r);
    lemma_inner(
        Kind::Expr(ExprKind::Call),
        dummy(),
        dummy(),
        seq![member(a, slice, false), k],
        seq![member(b, slice, false), k],
        r,
    );
}

proof fn lemma_cond(a: Name, b: Name, default: Tree, default2: Tree, r: Set<(u32, u32)>)
    requires
        same_name(a, b, r),
        same(default, default2, r),
        r.contains((0u32, 0u32)),
    ensures
        same(cond_expr(a, default), cond_expr(b, default2), r),
{
    let t = cond_expr(a, default);
    let u = cond_expr(b, default2);
    let test = t.children[0];
    let test2 = u.children[0];
    let void = test.children[1];
    let zero = number(0, dummy());
    lemma_names(a, b, r);
    assert(same(zero, zero, r));
    lemma_seq1(zero, zero, r);
    lemma_inner(void.kind, dummy(), dummy(), seq![zero], seq![zero], r);
    assert(test2.children[1] == void);
    lemma_seq2(ident_expr(a), void, ident_expr(b), void, r);
    lemma_inner(
        test.kind,
        dummy(),
        dummy(),
        seq![ident_expr(a), void],
        seq![ident_expr(b), void],
        r,
    );
    lemma_seq3(test, default, ident_expr(a), test2, default2, ident_expr(b), r);
    lemma_inner(
        t.kind,
        dummy(),
        dummy(),
        seq![test, default, ident_expr(a)],
        seq![test2, default2, ident_expr(b)],
        r,
    );
}

proof fn lemma_non_null(a: Name, b: Name, throw: Name, throw2: Name, r: Set<(u32, u32)>)
    requires
        same_name(a, b, r),
        same_name(throw, throw2, r),
        r.contains((0u32, 0u32)),
    ensures
        same(non_null_expr(a, throw), non_null_expr(b, throw2), r),
{
    let t = non_null_expr(a, throw);
    let u = non_null_expr(b, throw2);
    let call = t.children[2];
    let call2 = u.children[2];
    let error = call.children[1];
    lemma_names(a, b, r);
    lemma_names(throw, throw2, r);
    assert(same(error.children[0], error.children[0], r));
    assert(same(error.children[1], error.children[1], r));
    lemma_seq2(
        error.children[0],
        error.children[1],
        error.children[0],
        error.children[1],
        r,
    );
    lemma_inner(error.kind, dummy(), dummy(), error.children, error.children, r);
    assert(call2.children[1] == error);
    lemma_seq2(ident_expr(throw), error, ident_expr(throw2), error, r);
    lemma_inner(
        call.kind,
        dummy(),
        dummy(),
        seq![ident_expr(throw), error],
        seq![ident_expr(throw2), error],
        r,
    );
    lemma_seq3(
        ident_expr(a),
        ident_expr(a),
        call,
        ident_expr(b),
        ident_expr(b),
        call2,
        r,
    );
    lemma_inner(
        t.kind,
        dummy(),
        dummy(),
        seq![ident_expr(a), ident_expr(a), call],
        seq![ident_expr(b), ident_expr(b), call2],
        r,
    );
}

/// Both sides hold as much destructuring, in the same places.
proof fn lemma_measure(t: Tree, u: Tree, r: Set<(u32, u32)>)
    requires
        same(t, u, r),
    ensures
        weight(t) == weight(u),
        depth(t) == depth(u),
        has_pattern(t) == has_pattern(u),
    decreases t,
{
    lemma_children(t, u, r);
    lemma_measures(t.children, u.children, r);
    if t.children.len() > 0 && t.children[0].kind is Stmt {
        assert(same(t.children[0], u.children[0], r));
        lemma_children(t.children[0], u.children[0], r);
        lemma_complex(t.children[0].children, u.children[0].children, r);
    }
    assert(any_pattern(t.children) == any_pattern(u.children));
    assert(has_pattern(t) == (complex_pat(t) || any_pattern(t.children)));
    assert(has_pattern(u) == (complex_pat(u) || any_pattern(u.children)));
}

proof fn lemma_measures(ts: Seq<Tree>, us: Seq<Tree>, r: Set<(u32, u32)>)
    requires
        same_all(ts, us, r),
    ensures
        weights(ts) == weights(us),
        depths(ts) == depths(us),
        count_complex(ts) == count_complex(us),
        any_pattern(ts) == any_pattern(us),
    decreases ts,
{
    if ts.len() > 0 {
        lemma_drop(ts, us, r);
        lemma_measure(ts[0], us[0], r);
        let ts1 = ts.drop_first();
        let us1 = us.drop_first();
        lemma_measures(ts1, us1, r);
        assert(any_pattern(ts) == (has_pattern(ts[0]) || any_pattern(ts1))) by {
            lemma_any_pattern(ts);
        }
        assert(any_pattern(us) == (has_pattern(us[0]) || any_pattern(us1))) by {
            lemma_any_pattern(us);
        }
    }
}

proof fn lemma_any_pattern(ts: Seq<Tree>)
    requires
        ts.len() > 0,
    ensures
        any_pattern(ts) == (has_pattern(ts[0]) || any_pattern(ts.drop_first())),
{
    let rest = ts.drop_first();
    if any_pattern(ts) && !has_pattern(ts[0]) {
        let i = choose|i: int| 0 <= i < ts.len() && has_pattern(#[trigger] ts[i]);
        assert(has_pattern(rest[i - 1]));
    }
    if any_pattern(rest) {
        let i = choose|i: int| 0 <= i < rest.len() && has_pattern(#[trigger] rest[i]);
        assert(has_pattern(ts[i + 1]));
    }
}

proof fn lemma_complex(ds: Seq<Tree>, cs: Seq<Tree>, r: Set<(u32, u32)>)
    requires
        same_all(ds, cs, r),
    ensures
        any_complex(ds) == any_complex(cs),
        all_decls(ds) == all_decls(cs),
{
    assert forall|i: int| 0 <= i < ds.len() implies complex_decl(#[trigger] ds[i]) == complex_decl(
        cs[i],
    ) && is_decl(ds[i]) == is_decl(cs[i]) by {
        assert(same(ds[i], cs[i], r));
        if ds[i].children.len() == 2 {
            assert(same(ds[i].children[0], cs[i].children[0], r));
        }
    }
    if any_complex(ds) {
        let i = choose|i: int| 0 <= i < ds.len() && complex_decl(#[trigger] ds[i]);
        assert(complex_decl(cs[i]));
    }
    if any_complex(cs) {
        let i = choose|i: int| 0 <= i < cs.len() && complex_decl(#[trigger] cs[i]);
        assert(complex_decl(ds[i]));
    }
    if all_decls(ds) {
        assert forall|i: int| 0 <= i < cs.len() implies is_decl(#[trigger] cs[i]) by {
            assert(is_decl(ds[i]));
        }
    }
    if all_decls(cs) {
        assert forall|i: int| 0 <= i < ds.len() implies is_decl(#[trigger] ds[i]) by {
            assert(is_decl(cs[i]));
        }
    }
}

proof fn lemma_nullable(t: Tree, u: Tree, r: Set<(u32, u32)>)
    requires
        same(t, u, r),
    ensures
        nullable(t) == nullable(u),
    decreases t,
{
    assert forall|i: int| 0 <= i < t.children.len() implies nullable(#[trigger] t.children[i])
        == nullable(u.children[i]) by {
        lemma_nullable(t.children[i], u.children[i], r);
    }
}

/// A new name on either side.
proof fn lemma_private(
    a: Span,
    b: Span,
    text: Seq<char>,
    e: Env,
    f: Env,
    r: Set<(u32, u32)>,
) -> (r1: Set<(u32, u32)>)
    requires
        linked(e, f, r),
        a.lo == b.lo,
        a.hi == b.hi,
    ensures
        alike(e.private_ident(a, text), f.private_ident(b, text)),
        e.private_ident(a, text) matches Ok((name, e1)) ==> f.private_ident(b, text) matches Ok(
            (name2, f1),
        ) ==> ext(e, f, r, e1, f1, r1) && same_name(name, name2, r1),
{
    reveal(one_to_one);
    reveal(within);
    reveal(adds);
    law_fresh(e, a, text);
    law_fresh(f, b, text);
    let p = (e.contexts.len() as u32, f.contexts.len() as u32);
    let r1 = r.insert(p);
    match (e.private_ident(a, text), f.private_ident(b, text)) {
        (Ok((name, e1)), Ok((name2, f1))) => {
            assert(p.0 == e.contexts.len() && p.1 == f.contexts.len());
            assert forall|q: (u32, u32)| #[trigger] r1.contains(q) implies q.0 < e1.contexts.len()
                && q.1 < f1.contexts.len() && is_helper(e1, q.0) == is_helper(f1, q.1) by {
                if q != p {
                    assert(r.contains(q));
                    assert(e1.contexts[q.0 as int] == e.contexts[q.0 as int]);
                    assert(f1.contexts[q.1 as int] == f.contexts[q.1 as int]);
                }
            }
            assert forall|q: (u32, u32), s: (u32, u32)| #[trigger]
                r1.contains(q) && #[trigger] r1.contains(s) implies (q.0 == s.0) == (q.1
                == s.1) by {
                if q != p {
                    assert(r.contains(q));
                }
                if s != p {
                    assert(r.contains(s));
                }
            }
        },
        _ => {},
    }
    r1
}

/// The name of a helper on either side.
proof fn lemma_helper(text: Seq<char>, e: Env, f: Env, r: Set<(u32, u32)>) -> (r1: Set<(u32, u32)>)
    requires
        linked(e, f, r),
    ensures
        alike(e.helper(text), f.helper(text)),
        e.helper(text) matches Ok((name, e1)) ==> f.helper(text) matches Ok((name2, f1)) ==> ext(
            e,
            f,
            r,
            e1,
            f1,
            r1,
        ) && same_name(name, name2, r1),
{
    reveal(one_to_one);
    reveal(within);
    reveal(adds);
    match (e.helper(text), f.helper(text)) {
        (Ok((name, e1)), Ok((name2, f1))) => {
            crate::growth::lemma_helper(e, text);
            crate::growth::lemma_helper(f, text);
            let p = (name.span.ctxt, name2.span.ctxt);
            let r1 = r.insert(p);
            assert(is_helper(e1, p.0)) by {
                if e.contexts.contains((0u32, e.helpers.mark)) {
                    let i = e.contexts.index_of((0u32, e.helpers.mark));
                    assert(e.contexts[i] == (0u32, e.helpers.mark));
                    assert(i <= u32::MAX);
                }
            }
            assert(is_helper(f1, p.1)) by {
                if f.contexts.contains((0u32, f.helpers.mark)) {
                    let i = f.contexts.index_of((0u32, f.helpers.mark));
                    assert(f.contexts[i] == (0u32, f.helpers.mark));
                    assert(i <= u32::MAX);
                }
            }
            assert forall|q: (u32, u32)| #[trigger] r1.contains(q) implies q.0 < e1.contexts.len()
                && q.1 < f1.contexts.len() && is_helper(e1, q.0) == is_helper(f1, q.1) by {
                if q != p {
                    assert(r.contains(q));
                    assert(e1.contexts[q.0 as int] == e.contexts[q.0 as int]);
                    assert(f1.contexts[q.1 as int] == f.contexts[q.1 as int]);
                }
            }
            assert forall|q: (u32, u32), s: (u32, u32)| #[trigger]
                r1.contains(q) && #[trigger] r1.contains(s) implies (q.0 == s.0) == (q.1
                == s.1) by {
                if q == p && s != p {
                    assert(r.contains(s));
                    lemma_one_helper(e1, s.0, p.0);
                    lemma_one_helper(f1, s.1, p.1);
                } else if s == p && q != p {
                    assert(r.contains(q));
                    lemma_one_helper(e1, q.0, p.0);
                    lemma_one_helper(f1, q.1, p.1);
                } else if q != p && s != p {
                    assert(r.contains(q) && r.contains(s));
                }
            }
            r1
        },
        _ => r,
    }
}

/// The empty context only stands for itself.
proof fn lemma_empty(a: u32, b: u32, r: Set<(u32, u32)>)
    requires
        one_to_one(r),
        r.contains((0u32, 0u32)),
        r.contains((a, b)),
    ensures
        (a == 0) == (b == 0),
{
    reveal(one_to_one);
}

/// There is one context of the helpers.
proof fn lemma_one_helper(e: Env, c: u32, h: u32)
    requires
        e.wf(),
        c < e.contexts.len(),
        is_helper(e, h),
    ensures
        is_helper(e, c) == (c == h),
{
}

proof fn lemma_throw(e: Env, f: Env, r: Set<(u32, u32)>) -> (r1: Set<(u32, u32)>)
    requires
        linked(e, f, r),
    ensures
        alike(e.throw(), f.throw()),
        e.throw() matches Ok((name, e1)) ==> f.throw() matches Ok((name2, f1)) ==> ext(
            e,
            f,
            r,
            e1,
            f1,
            r1,
        ) && same_name(name, name2, r1),
{
    reveal(within);
    reveal(adds);
    let r1 = lemma_helper("_throw"@, e, f, r);
    r1
}

proof fn lemma_to_array(e: Env, f: Env, r: Set<(u32, u32)>) -> (r1: Set<(u32, u32)>)
    requires
        linked(e, f, r),
    ensures
        alike(e.to_array(), f.to_array()),
        e.to_array() matches Ok((name, e1)) ==> f.to_array() matches Ok((name2, f1)) ==> ext(
            e,
            f,
            r,
            e1,
            f1,
            r1,
        ) && same_name(name, name2, r1),
{
    reveal(within);
    reveal(adds);
    let r1 = lemma_helper("_toArray"@, e, f, r);
    r1
}

/// A new name with its declarator on either side.
proof fn lemma_new(
    ds: Seq<Tree>,
    cs: Seq<Tree>,
    a: Span,
    b: Span,
    name: Name,
    name2: Name,
    init: Tree,
    init2: Tree,
    r: Set<(u32, u32)>,
)
    requires
        same_all(ds, cs, r),
        same_span(a, b, r),
        same_name(name, name2, r),
        same(init, init2, r),
        r.contains((0u32, 0u32)),
    ensures
        same_all(
            ds.push(declarator(a, ident_pat(name), init)),
            cs.push(declarator(b, ident_pat(name2), init2)),
            r,
        ),
{
    lemma_names(name, name2, r);
    lemma_declarator(a, b, ident_pat(name), ident_pat(name2), init, init2, r);
    lemma_push(
        ds,
        cs,
        declarator(a, ident_pat(name), init),
        declarator(b, ident_pat(name2), init2),
        r,
    );
}

proof fn lemma_ref_ident(
    ds: Seq<Tree>,
    init: Tree,
    e: Env,
    cs: Seq<Tree>,
    init2: Tree,
    f: Env,
    r: Set<(u32, u32)>,
) -> (r1: Set<(u32, u32)>)
    requires
        linked(e, f, r),
        same_all(ds, cs, r),
        same(init, init2, r),
    ensures
        meet_name(ref_ident(ds, init, e), ref_ident(cs, init2, f), e, f, r, r1),
{
    lemma_ext_refl(e, f, r);
    if init.kind == Kind::Expr(ExprKind::Ident) {
        r
    } else {
        let a = if init.kind == Kind::Absent {
            dummy()
        } else {
            init.span
        };
        let b = if init2.kind == Kind::Absent {
            dummy()
        } else {
            init2.span
        };
        assert(ref_text(init) == ref_text(init2)) by {
            if init.children.len() == 2 {
                assert(same(init.children[0], init2.children[0], r));
                assert(same(init.children[1], init2.children[1], r));
            }
        }
        let text = ref_text(init);
        let r1 = lemma_private(a, b, text, e, f, r);
        match (e.private_ident(a, text), f.private_ident(b, text)) {
            (Ok((name, e1)), Ok((name2, f1))) => {
                lemma_mono_all(ds, cs, r, r1);
                lemma_mono(init, init2, r, r1);
                lemma_new(ds, cs, a, b, name, name2, init, init2, r1);
            },
            _ => {},
        }
        r1
    }
}

proof fn lemma_tmp_ident(
    ds: Seq<Tree>,
    init: Tree,
    a: Span,
    e: Env,
    cs: Seq<Tree>,
    init2: Tree,
    b: Span,
    f: Env,
    r: Set<(u32, u32)>,
) -> (r1: Set<(u32, u32)>)
    requires
        linked(e, f, r),
        same_all(ds, cs, r),
        same(init, init2, r),
        same_span(a, b, r),
    ensures
        meet_name(tmp_ident(ds, init, a, e), tmp_ident(cs, init2, b, f), e, f, r, r1),
{
    lemma_ext_refl(e, f, r);
    lemma_empty(init.span.ctxt, init2.span.ctxt, r);
    if init.kind == Kind::Expr(ExprKind::Ident) && init.span.ctxt != 0 {
        r
    } else {
        let r1 = lemma_private(a, b, "tmp"@, e, f, r);
        match (e.private_ident(a, "tmp"@), f.private_ident(b, "tmp"@)) {
            (Ok((name, e1)), Ok((name2, f1))) => {
                lemma_mono_all(ds, cs, r, r1);
                lemma_mono(init, init2, r, r1);
                lemma_new(ds, cs, dummy(), dummy(), name, name2, init, init2, r1);
            },
            _ => {},
        }
        r1
    }
}

proof fn lemma_non_null_ident(
    ds: Seq<Tree>,
    name: Name,
    checked: bool,
    e: Env,
    cs: Seq<Tree>,
    name2: Name,
    f: Env,
    r: Set<(u32, u32)>,
) -> (r1: Set<(u32, u32)>)
    requires
        linked(e, f, r),
        same_all(ds, cs, r),
        same_name(name, name2, r),
    ensures
        meet_name(
            non_null_ident(ds, name, checked, e),
            non_null_ident(cs, name2, checked, f),
            e,
            f,
            r,
            r1,
        ),
{
    lemma_ext_refl(e, f, r);
    if !checked {
        r
    } else {
        let r1 = lemma_throw(e, f, r);
        match (e.throw(), f.throw()) {
            (Ok((throw, e1)), Ok((throw2, f1))) => {
                lemma_mono_all(ds, cs, r, r1);
                lemma_non_null(name, name2, throw, throw2, r1);
                let test = non_null_expr(name, throw);
                let test2 = non_null_expr(name2, throw2);
                let r2 = lemma_ref_ident(ds, test, e1, cs, test2, f1, r1);
                match (ref_ident(ds, test, e1), ref_ident(cs, test2, f1)) {
                    (Ok((n, ds1, e2)), Ok((n2, cs1, f2))) => lemma_ext_trans(
                        e,
                        f,
                        r,
                        e1,
                        f1,
                        r1,
                        e2,
                        f2,
                        r2,
                    ),
                    _ => {},
                }
                r2
            },
            _ => r,
        }
    }
}

proof fn lemma_alias_ident(
    ds: Seq<Tree>,
    init: Tree,
    e: Env,
    cs: Seq<Tree>,
    init2: Tree,
    f: Env,
    r: Set<(u32, u32)>,
) -> (r1: Set<(u32, u32)>)
    requires
        linked(e, f, r),
        same_all(ds, cs, r),
        same(init, init2, r),
    ensures
        meet_name(alias_ident(ds, init, e), alias_ident(cs, init2, f), e, f, r, r1),
{
    lemma_ext_refl(e, f, r);
    let text = "_"@ + init.text;
    let r1 = lemma_private(init.span, init2.span, text, e, f, r);
    match (e.private_ident(init.span, text), f.private_ident(init2.span, text)) {
        (Ok((name, e1)), Ok((name2, f1))) => {
            lemma_mono_all(ds, cs, r, r1);
            lemma_mono(init, init2, r, r1);
            lemma_new(ds, cs, init.span, init2.span, name, name2, init, init2, r1);
        },
        _ => {},
    }
    r1
}

proof fn lemma_array_ident(
    elems: Seq<Tree>,
    ds: Seq<Tree>,
    init: Tree,
    e: Env,
    elems2: Seq<Tree>,
    cs: Seq<Tree>,
    init2: Tree,
    f: Env,
    r: Set<(u32, u32)>,
) -> (r1: Set<(u32, u32)>)
    requires
        linked(e, f, r),
        same_all(elems, elems2, r),
        same_all(ds, cs, r),
        same(init, init2, r),
    ensures
        meet_name(array_ident(elems, ds, init, e), array_ident(elems2, cs, init2, f), e, f, r, r1),
{
    lemma_ext_refl(e, f, r);
    lemma_empty(init.span.ctxt, init2.span.ctxt, r);
    assert(copied_array(elems, init) == copied_array(elems2, init2));
    if !copied_array(elems, init) {
        lemma_ref_ident(ds, init, e, cs, init2, f, r)
    } else {
        let r1 = lemma_alias_ident(ds, init, e, cs, init2, f, r);
        match (alias_ident(ds, init, e), alias_ident(cs, init2, f)) {
            (Ok((alias, ds1, e1)), Ok((alias2, cs1, f1))) => {
                let r2 = lemma_to_array(e1, f1, r1);
                match (e1.to_array(), f1.to_array()) {
                    (Ok((helper, e2)), Ok((helper2, f2))) => {
                        lemma_ext_trans(e, f, r, e1, f1, r1, e2, f2, r2);
                        let text = "_"@ + init.text + "2"@;
                        let r3 = lemma_private(dummy(), dummy(), text, e2, f2, r2);
                        match (e2.private_ident(dummy(), text), f2.private_ident(dummy(), text)) {
                            (Ok((name, e3)), Ok((name2, f3))) => {
                                lemma_ext_trans(e, f, r, e2, f2, r2, e3, f3, r3);
                                lemma_mono_all(ds1, cs1, r1, r3);
                                lemma_names(helper, helper2, r3);
                                lemma_names(alias, alias2, r3);
                                lemma_seq2(
                                    ident_expr(helper),
                                    ident_expr(alias),
                                    ident_expr(helper2),
                                    ident_expr(alias2),
                                    r3,
                                );
                                lemma_inner(
                                    Kind::Expr(ExprKind::Call),
                                    dummy(),
                                    dummy(),
                                    seq![ident_expr(helper), ident_expr(alias)],
                                    seq![ident_expr(helper2), ident_expr(alias2)],
                                    r3,
                                );
                                lemma_new(
                                    ds1,
                                    cs1,
                                    dummy(),
                                    dummy(),
                                    name,
                                    name2,
                                    helper_call(helper, alias),
                                    helper_call(helper2, alias2),
                                    r3,
                                );
                            },
                            _ => {},
                        }
                        r3
                    },
                    _ => r,
                }
            },
            _ => r,
        }
    }
}

proof fn lemma_object_ident(
    props: Seq<Tree>,
    ds: Seq<Tree>,
    init: Tree,
    e: Env,
    props2: Seq<Tree>,
    cs: Seq<Tree>,
    init2: Tree,
    f: Env,
    r: Set<(u32, u32)>,
) -> (r1: Set<(u32, u32)>)
    requires
        linked(e, f, r),
        same_all(props, props2, r),
        same_all(ds, cs, r),
        same(init, init2, r),
    ensures
        meet_name(
            object_ident(props, ds, init, e),
            object_ident(props2, cs, init2, f),
            e,
            f,
            r,
            r1,
        ),
{
    lemma_ext_refl(e, f, r);
    lemma_empty(init.span.ctxt, init2.span.ctxt, r);
    assert(copied_object(props, init) == copied_object(props2, init2));
    if copied_object(props, init) {
        lemma_alias_ident(ds, init, e, cs, init2, f, r)
    } else {
        lemma_nullable(init, init2, r);
        let checked = nullable(init) == Some(true);
        let r1 = lemma_ref_ident(ds, init, e, cs, init2, f, r);
        match (ref_ident(ds, init, e), ref_ident(cs, init2, f)) {
            (Ok((object, ds1, e1)), Ok((object2, cs1, f1))) => {
                let r2 = lemma_non_null_ident(ds1, object, checked, e1, cs1, object2, f1, r1);
                match (
                    non_null_ident(ds1, object, checked, e1),
                    non_null_ident(cs1, object2, checked, f1),
                ) {
                    (Ok((n, ds2, e2)), Ok((n2, cs2, f2))) => lemma_ext_trans(
                        e,
                        f,
                        r,
                        e1,
                        f1,
                        r1,
                        e2,
                        f2,
                        r2,
                    ),
                    _ => {},
                }
                r2
            },
            _ => r,
        }
    }
}

/// What becomes of a tree on either side.
proof fn lemma_fold(t: Tree, e: Env, u: Tree, f: Env, r: Set<(u32, u32)>) -> (r1: Set<(u32, u32)>)
    requires
        linked(e, f, r),
        same(t, u, r),
    ensures
        meet(fold(t, e), fold(u, f), e, f, r, r1),
    decreases weight(t), 2 * depth(t) + 10, 2 * size(t),
{
    lemma_ext_refl(e, f, r);
    lemma_children(t, u, r);
    match t.kind {
        Kind::Stmt(StmtKind::ForIn) => lemma_fold_for(t, e, u, f, r),
        Kind::Stmt(StmtKind::ForOf { is_await }) => lemma_fold_for(t, e, u, f, r),
        Kind::Part(PartKind::Function { is_async, is_generator }) => lemma_fold_function(
            t,
            e,
            u,
            f,
            r,
        ),
        Kind::Member(MemberKind::Constructor) => lemma_fold_constructor(t, e, u, f, r),
        Kind::Prop(PropKind::Setter) => lemma_fold_setter(t, e, u, f, r),
        Kind::Part(PartKind::Catch) => lemma_fold_catch(t, e, u, f, r),
        Kind::Expr(ExprKind::Arrow { is_async, is_generator }) => lemma_fold_arrow(t, e, u, f, r),
        Kind::Stmt(StmtKind::VarDecl { kind, declare }) => {
            let r1 = lemma_fold_decls(t.children, e, u.children, f, r);
            match (fold_decls(t.children, e), fold_decls(u.children, f)) {
                (Ok((ts, e1)), Ok((us, f1))) => {
                    lemma_mono(t, u, r, r1);
                    lemma_with(t, u, ts, us, r1);
                },
                _ => {},
            }
            r1
        },
        _ => if is_stmts(t.kind) {
            let r1 = lemma_fold_stmts(t.children, e, u.children, f, r);
            match (fold_stmts(t.children, e), fold_stmts(u.children, f)) {
                (Ok((ts, e1)), Ok((us, f1))) => {
                    lemma_mono(t, u, r, r1);
                    lemma_with(t, u, ts, us, r1);
                },
                _ => {},
            }
            r1
        } else {
            let r1 = lemma_fold_all(t.children, Seq::empty(), e, u.children, Seq::empty(), f, r);
            match (
                fold_all(t.children, Seq::empty(), e),
                fold_all(u.children, Seq::empty(), f),
            ) {
                (Ok((ts, e1)), Ok((us, f1))) => {
                    lemma_mono(t, u, r, r1);
                    lemma_with(t, u, ts, us, r1);
                },
                _ => {},
            }
            r1
        },
    }
}

pub proof fn lemma_fold_all(
    ts: Seq<Tree>,
    done: Seq<Tree>,
    e: Env,
    us: Seq<Tree>,
    done2: Seq<Tree>,
    f: Env,
    r: Set<(u32, u32)>,
) -> (r1: Set<(u32, u32)>)
    requires
        linked(e, f, r),
        same_all(ts, us, r),
        same_all(done, done2, r),
    ensures
        meet_all(fold_all(ts, done, e), fold_all(us, done2, f), e, f, r, r1),
    decreases weights(ts), 2 * depths(ts) + 10, 2 * sizes(ts),
{
    lemma_ext_refl(e, f, r);
    if ts.len() == 0 {
        r
    } else {
        lemma_drop(ts, us, r);
        let r1 = lemma_fold(ts[0], e, us[0], f, r);
        match (fold(ts[0], e), fold(us[0], f)) {
            (Ok((t, e1)), Ok((u, f1))) => {
                let ts1 = ts.drop_first();
                let us1 = us.drop_first();
                lemma_mono_all(ts1, us1, r, r1);
                lemma_mono_all(done, done2, r, r1);
                lemma_push(done, done2, t, u, r1);
                let r2 = lemma_fold_all(ts1, done.push(t), e1, us1, done2.push(u), f1, r1);
                match (fold_all(ts1, done.push(t), e1), fold_all(us1, done2.push(u), f1)) {
                    (Ok((out, e2)), Ok((out2, f2))) => lemma_ext_trans(
                        e,
                        f,
                        r,
                        e1,
                        f1,
                        r1,
                        e2,
                        f2,
                        r2,
                    ),
                    _ => {},
                }
                r2
            },
            _ => r,
        }
    }
}

/// What becomes of a list of declarators on either side.
proof fn lemma_fold_decls(
    ds: Seq<Tree>,
    e: Env,
    cs: Seq<Tree>,
    f: Env,
    r: Set<(u32, u32)>,
) -> (r1: Set<(u32, u32)>)
    requires
        linked(e, f, r),
        same_all(ds, cs, r),
    ensures
        meet_all(fold_decls(ds, e), fold_decls(cs, f), e, f, r, r1),
    decreases weights(ds), 2 * depths(ds) + 10, 2 * sizes(ds) + 1,
{
    lemma_ext_refl(e, f, r);
    lemma_measures(ds, cs, r);
    let r1 = lemma_fold_all(ds, Seq::empty(), e, cs, Seq::empty(), f, r);
    match (fold_all(ds, Seq::empty(), e), fold_all(cs, Seq::empty(), f)) {
        (Ok((ds1, e1)), Ok((cs1, f1))) => {
            lemma_complex(ds1, cs1, r1);
            if any_complex(ds1) {
                let bound = weights(ds);
                let none = Seq::<Tree>::empty();
                let r2 = lemma_lower_decls(ds1, none, e1, cs1, none, f1, bound, r1);
                match (lower_decls(ds1, none, e1, bound), lower_decls(cs1, none, f1, bound)) {
                    (Ok((out, e2)), Ok((out2, f2))) => lemma_ext_trans(
                        e,
                        f,
                        r,
                        e1,
                        f1,
                        r1,
                        e2,
                        f2,
                        r2,
                    ),
                    _ => {},
                }
                r2
            } else {
                r1
            }
        },
        _ => r,
    }
}

proof fn lemma_refold(
    ds: Seq<Tree>,
    e: Env,
    cs: Seq<Tree>,
    f: Env,
    bound: nat,
    r: Set<(u32, u32)>,
) -> (r1: Set<(u32, u32)>)
    requires
        linked(e, f, r),
        same_all(ds, cs, r),
    ensures
        meet_all(refold(ds, e, bound), refold(cs, f, bound), e, f, r, r1),
    decreases bound, 0nat, 0nat,
{
    lemma_ext_refl(e, f, r);
    lemma_measures(ds, cs, r);
    if weights(ds) < bound {
        lemma_fold_decls(ds, e, cs, f, r)
    } else {
        r
    }
}

/// One declarator that the pass made, behind those that are done, on either side.
proof fn lemma_refold_one(
    d: Tree,
    done: Seq<Tree>,
    e: Env,
    c: Tree,
    done2: Seq<Tree>,
    f: Env,
    bound: nat,
    r: Set<(u32, u32)>,
) -> (r1: Set<(u32, u32)>)
    requires
        linked(e, f, r),
        same(d, c, r),
        same_all(done, done2, r),
    ensures
        alike(refold(seq![d], e, bound), refold(seq![c], f, bound)),
        refold(seq![d], e, bound) matches Ok((ds, e1)) ==> refold(seq![c], f, bound) matches Ok(
            (cs, f1),
        ) ==> ext(e, f, r, e1, f1, r1) && same_all(done + ds, done2 + cs, r1),
    decreases bound, 0nat, 1nat,
{
    lemma_ext_refl(e, f, r);
    lemma_seq1(d, c, r);
    let r1 = lemma_refold(seq![d], e, seq![c], f, bound, r);
    match (refold(seq![d], e, bound), refold(seq![c], f, bound)) {
        (Ok((ds, e1)), Ok((cs, f1))) => {
            lemma_mono_all(done, done2, r, r1);
            lemma_add(done, done2, ds, cs, r1);
        },
        _ => {},
    }
    r1
}

pub proof fn lemma_lower_decls(
    ds: Seq<Tree>,
    done: Seq<Tree>,
    e: Env,
    cs: Seq<Tree>,
    done2: Seq<Tree>,
    f: Env,
    bound: nat,
    r: Set<(u32, u32)>,
) -> (r1: Set<(u32, u32)>)
    requires
        linked(e, f, r),
        same_all(ds, cs, r),
        same_all(done, done2, r),
    ensures
        meet_all(
            lower_decls(ds, done, e, bound),
            lower_decls(cs, done2, f, bound),
            e,
            f,
            r,
            r1,
        ),
    decreases bound, 3nat, ds.len(),
{
    lemma_ext_refl(e, f, r);
    if ds.len() == 0 {
        r
    } else {
        lemma_drop(ds, cs, r);
        let r1 = lemma_lower_decl(ds[0], done, e, cs[0], done2, f, bound, r);
        match (lower_decl(ds[0], done, e, bound), lower_decl(cs[0], done2, f, bound)) {
            (Ok((done1, e1)), Ok((done3, f1))) => {
                let ds1 = ds.drop_first();
                let cs1 = cs.drop_first();
                lemma_mono_all(ds1, cs1, r, r1);
                let r2 = lemma_lower_decls(ds1, done1, e1, cs1, done3, f1, bound, r1);
                match (lower_decls(ds1, done1, e1, bound), lower_decls(cs1, done3, f1, bound)) {
                    (Ok((out, e2)), Ok((out2, f2))) => lemma_ext_trans(
                        e,
                        f,
                        r,
                        e1,
                        f1,
                        r1,
                        e2,
                        f2,
                        r2,
                    ),
                    _ => {},
                }
                r2
            },
            _ => r,
        }
    }
}

proof fn lemma_lower_decl(
    d: Tree,
    done: Seq<Tree>,
    e: Env,
    c: Tree,
    done2: Seq<Tree>,
    f: Env,
    bound: nat,
    r: Set<(u32, u32)>,
) -> (r1: Set<(u32, u32)>)
    requires
        linked(e, f, r),
        same(d, c, r),
        same_all(done, done2, r),
    ensures
        meet_all(
            lower_decl(d, done, e, bound),
            lower_decl(c, done2, f, bound),
            e,
            f,
            r,
            r1,
        ),
    decreases bound, 2nat, 0nat,
{
    lemma_ext_refl(e, f, r);
    if !is_decl(d) {
        r
    } else {
        let name = d.children[0];
        let init = d.children[1];
        let name2 = c.children[0];
        let init2 = c.children[1];
        assert(same(name, name2, r));
        assert(same(init, init2, r));
        lemma_children(name, name2, r);
        lemma_nullable(init, init2, r);
        match name.kind {
            Kind::Pat(PatKind::Ident) => {
                lemma_push(done, done2, d, c, r);
                r
            },
            Kind::Pat(PatKind::Array) => {
                let r1 = lemma_array_ident(
                    name.children,
                    done,
                    init,
                    e,
                    name2.children,
                    done2,
                    init2,
                    f,
                    r,
                );
                match (
                    array_ident(name.children, done, init, e),
                    array_ident(name2.children, done2, init2, f),
                ) {
                    (Ok((object, done1, e1)), Ok((object2, done3, f1))) => {
                        let elems = name.children;
                        let elems2 = name2.children;
                        lemma_mono_all(elems, elems2, r, r1);
                        let r2 = lemma_lower_elems(
                            elems,
                            0,
                            object,
                            done1,
                            e1,
                            elems2,
                            object2,
                            done3,
                            f1,
                            bound,
                            r1,
                        );
                        match (
                            lower_elems(elems, 0, object, done1, e1, bound),
                            lower_elems(elems2, 0, object2, done3, f1, bound),
                        ) {
                            (Ok((out, e2)), Ok((out2, f2))) => lemma_ext_trans(
                                e,
                                f,
                                r,
                                e1,
                                f1,
                                r1,
                                e2,
                                f2,
                                r2,
                            ),
                            _ => {},
                        }
                        r2
                    },
                    _ => r,
                }
            },
            Kind::Pat(PatKind::Object) => {
                let r1 = lemma_object_ident(
                    name.children,
                    done,
                    init,
                    e,
                    name2.children,
                    done2,
                    init2,
                    f,
                    r,
                );
                match (
                    object_ident(name.children, done, init, e),
                    object_ident(name2.children, done2, init2, f),
                ) {
                    (Ok((object, done1, e1)), Ok((object2, done3, f1))) => {
                        let props = name.children;
                        let props2 = name2.children;
                        lemma_mono_all(props, props2, r, r1);
                        let r2 = lemma_lower_props(
                            props,
                            0,
                            object,
                            done1,
                            e1,
                            props2,
                            object2,
                            done3,
                            f1,
                            bound,
                            r1,
                        );
                        match (
                            lower_props(props, 0, object, done1, e1, bound),
                            lower_props(props2, 0, object2, done3, f1, bound),
                        ) {
                            (Ok((out, e2)), Ok((out2, f2))) => lemma_ext_trans(
                                e,
                                f,
                                r,
                                e1,
                                f1,
                                r1,
                                e2,
                                f2,
                                r2,
                            ),
                            _ => {},
                        }
                        r2
                    },
                    _ => r,
                }
            },
            Kind::Pat(PatKind::Assign) => if name.children.len() != 2 {
                r
            } else {
                let r1 = lemma_tmp_ident(done, init, name.span, e, done2, init2, name2.span, f, r);
                match (
                    tmp_ident(done, init, name.span, e),
                    tmp_ident(done2, init2, name2.span, f),
                ) {
                    (Ok((tmp, done1, e1)), Ok((tmp2, done3, f1))) => {
                        let left = name.children[0];
                        let left2 = name2.children[0];
                        let default = name.children[1];
                        let default2 = name2.children[1];
                        lemma_mono(left, left2, r, r1);
                        lemma_mono(default, default2, r, r1);
                        lemma_cond(tmp, tmp2, default, default2, r1);
                        let value = cond_expr(tmp, default);
                        let value2 = cond_expr(tmp2, default2);
                        lemma_declarator(name.span, name2.span, left, left2, value, value2, r1);
                        let sub = declarator(name.span, left, value);
                        let sub2 = declarator(name2.span, left2, value2);
                        let r2 = lemma_refold_one(sub, done1, e1, sub2, done3, f1, bound, r1);
                        match (refold(seq![sub], e1, bound), refold(seq![sub2], f1, bound)) {
                            (Ok((out, e2)), Ok((out2, f2))) => lemma_ext_trans(
                                e,
                                f,
                                r,
                                e1,
                                f1,
                                r1,
                                e2,
                                f2,
                                r2,
                            ),
                            _ => {},
                        }
                        r2
                    },
                    _ => r,
                }
            },
            _ => r,
        }
    }
}

/// The declarator for an element of an array pattern on either side.
proof fn lemma_elem_decl(
    elem: Tree,
    i: int,
    object: Name,
    elem2: Tree,
    object2: Name,
    r: Set<(u32, u32)>,
)
    requires
        same(elem, elem2, r),
        same_name(object, object2, r),
        r.contains((0u32, 0u32)),
    ensures
        (elem_decl(elem, i, object) is Some) == (elem_decl(elem2, i, object2) is Some),
        elem_decl(elem, i, object) matches Some(d) ==> elem_decl(elem2, i, object2) matches Some(c)
            ==> same(d, c, r),
{
    match elem.kind {
        Kind::Pat(PatKind::Rest { dot3 }) => if elem.children.len() == 1 {
            lemma_elem_exprs(object, object2, i, dot3, r);
            assert(same(elem.children[0], elem2.children[0], r));
            lemma_declarator(
                dot3,
                dot3,
                elem.children[0],
                elem2.children[0],
                slice_call(object, i, dot3),
                slice_call(object2, i, dot3),
                r,
            );
        },
        _ => {
            lemma_elem_exprs(object, object2, i, dummy(), r);
            lemma_declarator(
                elem.span,
                elem2.span,
                elem,
                elem2,
                ref_idx_expr(object, i),
                ref_idx_expr(object2, i),
                r,
            );
        },
    }
}

proof fn lemma_lower_elems(
    elems: Seq<Tree>,
    i: nat,
    object: Name,
    done: Seq<Tree>,
    e: Env,
    elems2: Seq<Tree>,
    object2: Name,
    done2: Seq<Tree>,
    f: Env,
    bound: nat,
    r: Set<(u32, u32)>,
) -> (r1: Set<(u32, u32)>)
    requires
        linked(e, f, r),
        same_all(elems, elems2, r),
        same_name(object, object2, r),
        same_all(done, done2, r),
    ensures
        meet_all(
            lower_elems(elems, i, object, done, e, bound),
            lower_elems(elems2, i, object2, done2, f, bound),
            e,
            f,
            r,
            r1,
        ),
    decreases bound, 1nat, elems.len() - i,
{
    lemma_ext_refl(e, f, r);
    if i >= elems.len() {
        r
    } else {
        let elem = elems[i as int];
        let elem2 = elems2[i as int];
        assert(same(elem, elem2, r));
        if elem.kind == Kind::Absent {
            lemma_lower_elems(elems, i + 1, object, done, e, elems2, object2, done2, f, bound, r)
        } else {
            lemma_elem_decl(elem, i as int, object, elem2, object2, r);
            match (elem_decl(elem, i as int, object), elem_decl(elem2, i as int, object2)) {
                (Some(d), Some(c)) => {
                    let r1 = lemma_refold_one(d, done, e, c, done2, f, bound, r);
                    match (refold(seq![d], e, bound), refold(seq![c], f, bound)) {
                        (Ok((ds, e1)), Ok((cs, f1))) => {
                            lemma_mono_all(elems, elems2, r, r1);
                            let r2 = lemma_lower_elems(
                                elems,
                                i + 1,
                                object,
                                done + ds,
                                e1,
                                elems2,
                                object2,
                                done2 + cs,
                                f1,
                                bound,
                                r1,
                            );
                            match (
                                lower_elems(elems, i + 1, object, done + ds, e1, bound),
                                lower_elems(elems2, i + 1, object2, done2 + cs, f1, bound),
                            ) {
                                (Ok((out, e2)), Ok((out2, f2))) => lemma_ext_trans(
                                    e,
                                    f,
                                    r,
                                    e1,
                                    f1,
                                    r1,
                                    e2,
                                    f2,
                                    r2,
                                ),
                                _ => {},
                            }
                            r2
                        },
                        _ => r,
                    }
                },
                _ => r,
            }
        }
    }
}

/// The name of a property as an expression on either side.
proof fn lemma_prop_name(key: Tree, object: Name, key2: Tree, object2: Name, r: Set<(u32, u32)>)
    requires
        same(key, key2, r),
        same_name(object, object2, r),
        r.contains((0u32, 0u32)),
    ensures
        (prop_name_expr(key) is Some) == (prop_name_expr(key2) is Some),
        prop_name_expr(key) matches Some(p) ==> prop_name_expr(key2) matches Some(q) ==> same(
            ref_prop_expr(object, p),
            ref_prop_expr(object2, q),
            r,
        ),
{
    match (prop_name_expr(key), prop_name_expr(key2)) {
        (Some(p), Some(q)) => {
            assert(same(p, q, r)) by {
                if key.children.len() == 1 {
                    assert(same(key.children[0], key2.children[0], r));
                }
            }
            lemma_member(object, object2, p, q, p.kind != Kind::Expr(ExprKind::Ident), r);
        },
        _ => {},
    }
}

proof fn lemma_lower_prop(
    prop: Tree,
    object: Name,
    done: Seq<Tree>,
    e: Env,
    prop2: Tree,
    object2: Name,
    done2: Seq<Tree>,
    f: Env,
    bound: nat,
    r: Set<(u32, u32)>,
) -> (r1: Set<(u32, u32)>)
    requires
        linked(e, f, r),
        same(prop, prop2, r),
        same_name(object, object2, r),
        same_all(done, done2, r),
    ensures
        meet_all(
            lower_prop(prop, object, done, e, bound),
            lower_prop(prop2, object2, done2, f, bound),
            e,
            f,
            r,
            r1,
        ),
    decreases bound, 1nat, 0nat,
{
    lemma_ext_refl(e, f, r);
    if prop.children.len() != 2 {
        r
    } else {
        let key = prop.children[0];
        let value = prop.children[1];
        let key2 = prop2.children[0];
        let value2 = prop2.children[1];
        assert(same(key, key2, r));
        assert(same(value, value2, r));
        match prop.kind {
            Kind::PatProp(PatPropKind::KeyValue) => {
                lemma_prop_name(key, object, key2, object2, r);
                match (prop_name_expr(key), prop_name_expr(key2)) {
                    (Some(p), Some(q)) => {
                        let init = ref_prop_expr(object, p);
                        let init2 = ref_prop_expr(object2, q);
                        lemma_declarator(prop.span, prop2.span, value, value2, init, init2, r);
                        lemma_refold_one(
                            declarator(prop.span, value, init),
                            done,
                            e,
                            declarator(prop2.span, value2, init2),
                            done2,
                            f,
                            bound,
                            r,
                        )
                    },
                    _ => r,
                }
            },
            Kind::PatProp(PatPropKind::Assign) => {
                let name = name_of(key);
                let name2 = name_of(key2);
                let property = ref_prop_expr(object, ident_expr(name));
                let property2 = ref_prop_expr(object2, ident_expr(name2));
                lemma_names(name, name2, r);
                lemma_member(object, object2, ident_expr(name), ident_expr(name2), false, r);
                if value.kind == Kind::Absent {
                    lemma_declarator(
                        prop.span,
                        prop2.span,
                        ident_pat(name),
                        ident_pat(name2),
                        property,
                        property2,
                        r,
                    );
                    lemma_refold_one(
                        declarator(prop.span, ident_pat(name), property),
                        done,
                        e,
                        declarator(prop2.span, ident_pat(name2), property2),
                        done2,
                        f,
                        bound,
                        r,
                    )
                } else {
                    let r1 = lemma_ref_ident(done, property, e, done2, property2, f, r);
                    match (ref_ident(done, property, e), ref_ident(done2, property2, f)) {
                        (Ok((tmp, done1, e1)), Ok((tmp2, done3, f1))) => {
                            lemma_mono(value, value2, r, r1);
                            lemma_names(name, name2, r1);
                            lemma_cond(tmp, tmp2, value, value2, r1);
                            let init = cond_expr(tmp, value);
                            let init2 = cond_expr(tmp2, value2);
                            lemma_declarator(
                                prop.span,
                                prop2.span,
                                ident_pat(name),
                                ident_pat(name2),
                                init,
                                init2,
                                r1,
                            );
                            let sub = declarator(prop.span, ident_pat(name), init);
                            let sub2 = declarator(prop2.span, ident_pat(name2), init2);
                            let r2 = lemma_refold_one(sub, done1, e1, sub2, done3, f1, bound, r1);
                            match (refold(seq![sub], e1, bound), refold(seq![sub2], f1, bound)) {
                                (Ok((out, e2)), Ok((out2, f2))) => lemma_ext_trans(
                                    e,
                                    f,
                                    r,
                                    e1,
                                    f1,
                                    r1,
                                    e2,
                                    f2,
                                    r2,
                                ),
                                _ => {},
                            }
                            r2
                        },
                        _ => r,
                    }
                }
            },
            _ => r,
        }
    }
}

proof fn lemma_lower_props(
    props: Seq<Tree>,
    i: nat,
    object: Name,
    done: Seq<Tree>,
    e: Env,
    props2: Seq<Tree>,
    object2: Name,
    done2: Seq<Tree>,
    f: Env,
    bound: nat,
    r: Set<(u32, u32)>,
) -> (r1: Set<(u32, u32)>)
    requires
        linked(e, f, r),
        same_all(props, props2, r),
        same_name(object, object2, r),
        same_all(done, done2, r),
    ensures
        meet_all(
            lower_props(props, i, object, done, e, bound),
            lower_props(props2, i, object2, done2, f, bound),
            e,
            f,
            r,
            r1,
        ),
    decreases bound, 1nat, 1 + props.len() - i,
{
    lemma_ext_refl(e, f, r);
    if i >= props.len() {
        r
    } else {
        let prop = props[i as int];
        let prop2 = props2[i as int];
        assert(same(prop, prop2, r));
        let r1 = lemma_lower_prop(prop, object, done, e, prop2, object2, done2, f, bound, r);
        match (
            lower_prop(prop, object, done, e, bound),
            lower_prop(prop2, object2, done2, f, bound),
        ) {
            (Ok((done1, e1)), Ok((done3, f1))) => {
                lemma_mono_all(props, props2, r, r1);
                let r2 = lemma_lower_props(
                    props,
                    i + 1,
                    object,
                    done1,
                    e1,
                    props2,
                    object2,
                    done3,
                    f1,
                    bound,
                    r1,
                );
                match (
                    lower_props(props, i + 1, object, done1, e1, bound),
                    lower_props(props2, i + 1, object2, done3, f1, bound),
                ) {
                    (Ok((out, e2)), Ok((out2, f2))) => lemma_ext_trans(
                        e,
                        f,
                        r,
                        e1,
                        f1,
                        r1,
                        e2,
                        f2,
                        r2,
                    ),
                    _ => {},
                }
                r2
            },
            _ => r,
        }
    }
}

/// The declarators in the head of a loop on either side, with a name as their initial value.
proof fn lemma_init_all(ds: Seq<Tree>, name: Name, cs: Seq<Tree>, name2: Name, r: Set<(u32, u32)>)
    requires
        same_all(ds, cs, r),
        all_decls(ds),
        same_name(name, name2, r),
        r.contains((0u32, 0u32)),
    ensures
        same_all(init_all(ds, name), init_all(cs, name2), r),
{
    lemma_names(name, name2, r);
    let ts = init_all(ds, name);
    let us = init_all(cs, name2);
    assert forall|i: int| 0 <= i < ts.len() implies same(#[trigger] ts[i], us[i], r) by {
        assert(same(ds[i], cs[i], r));
        assert(is_decl(ds[i]));
        assert(same(ds[i].children[0], cs[i].children[0], r));
        lemma_seq2(
            ds[i].children[0],
            ident_expr(name),
            cs[i].children[0],
            ident_expr(name2),
            r,
        );
        lemma_with(
            ds[i],
            cs[i],
            seq![ds[i].children[0], ident_expr(name)],
            seq![cs[i].children[0], ident_expr(name2)],
            r,
        );
    }
}

proof fn lemma_prepend(stmt: Tree, body: Tree, stmt2: Tree, body2: Tree, r: Set<(u32, u32)>)
    requires
        same(stmt, stmt2, r),
        same(body, body2, r),
        r.contains((0u32, 0u32)),
    ensures
        same(prepend(stmt, body), prepend(stmt2, body2), r),
{
    if body.kind == Kind::Stmt(StmtKind::Block) {
        lemma_children(body, body2, r);
        lemma_seq1(stmt, stmt2, r);
        lemma_add(seq![stmt], seq![stmt2], body.children, body2.children, r);
        lemma_with(body, body2, seq![stmt] + body.children, seq![stmt2] + body2.children, r);
    } else {
        lemma_seq2(stmt, body, stmt2, body2, r);
        lemma_inner(
            Kind::Stmt(StmtKind::Block),
            dummy(),
            dummy(),
            seq![stmt, body],
            seq![stmt2, body2],
            r,
        );
    }
}

proof fn lemma_fold_for(
    t: Tree,
    e: Env,
    u: Tree,
    f: Env,
    r: Set<(u32, u32)>,
) -> (r1: Set<(u32, u32)>)
    requires
        linked(e, f, r),
        same(t, u, r),
    ensures
        meet(fold_for(t, e), fold_for(u, f), e, f, r, r1),
    decreases weight(t), 5nat, 0nat,
{
    lemma_ext_refl(e, f, r);
    lemma_measure(t, u, r);
    if t.children.len() != 3 {
        r
    } else {
        let left = t.children[0];
        let left2 = u.children[0];
        assert(same(left, left2, r));
        lemma_children(left, left2, r);
        lemma_complex(left.children, left2.children, r);
        match left.kind {
            Kind::Stmt(StmtKind::VarDecl { kind, declare }) => if !any_complex(left.children)
                || !all_decls(left.children) {
                r
            } else {
                let r1 = lemma_private(dummy(), dummy(), "ref"@, e, f, r);
                match (e.private_ident(dummy(), "ref"@), f.private_ident(dummy(), "ref"@)) {
                    (Ok((name, e1)), Ok((name2, f1))) => {
                        lemma_mono(t, u, r, r1);
                        lemma_mono_all(left.children, left2.children, r, r1);
                        lemma_init_all(left.children, name, left2.children, name2, r1);
                        let ready = init_all(left.children, name);
                        let ready2 = init_all(left2.children, name2);
                        let r2 = lemma_refold(ready, e1, ready2, f1, weight(t), r1);
                        match (refold(ready, e1, weight(t)), refold(ready2, f1, weight(t))) {
                            (Ok((ds, e2)), Ok((cs, f2))) => {
                                lemma_ext_trans(e, f, r, e1, f1, r1, e2, f2, r2);
                                lemma_for_parts(t, u, name, name2, ds, cs, r1, r2);
                            },
                            _ => {},
                        }
                        r2
                    },
                    _ => r,
                }
            },
            _ => r,
        }
    }
}

/// The loop that is put together on either side.
proof fn lemma_for_parts(
    t: Tree,
    u: Tree,
    name: Name,
    name2: Name,
    ds: Seq<Tree>,
    cs: Seq<Tree>,
    r: Set<(u32, u32)>,
    r1: Set<(u32, u32)>,
)
    requires
        same(t, u, r),
        t.children.len() == 3,
        same_name(name, name2, r),
        same_all(ds, cs, r1),
        r1.contains((0u32, 0u32)),
        forall|p: (u32, u32)| #[trigger] r.contains(p) ==> r1.contains(p),
    ensures
        ({
            let left = t.children[0];
            let left2 = u.children[0];
            same(
                with(
                    t,
                    seq![
                        with(left, seq![declarator(dummy(), ident_pat(name), absent())]),
                        t.children[1],
                        prepend(var_decl(VarDeclKind::Let, left.span, ds), t.children[2]),
                    ],
                ),
                with(
                    u,
                    seq![
                        with(left2, seq![declarator(dummy(), ident_pat(name2), absent())]),
                        u.children[1],
                        prepend(var_decl(VarDeclKind::Let, left2.span, cs), u.children[2]),
                    ],
                ),
                r1,
            )
        }),
{
    lemma_mono(t, u, r, r1);
    let left = t.children[0];
    let left2 = u.children[0];
    assert(same(left, left2, r1));
    assert(same(t.children[1], u.children[1], r1));
    assert(same(t.children[2], u.children[2], r1));
    lemma_names(name, name2, r1);
    let d = declarator(dummy(), ident_pat(name), absent());
    let c = declarator(dummy(), ident_pat(name2), absent());
    lemma_declarator(dummy(), dummy(), ident_pat(name), ident_pat(name2), absent(), absent(), r1);
    lemma_seq1(d, c, r1);
    lemma_with(left, left2, seq![d], seq![c], r1);
    let stmt = var_decl(VarDeclKind::Let, left.span, ds);
    let stmt2 = var_decl(VarDeclKind::Let, left2.span, cs);
    lemma_inner(stmt.kind, left.span, left2.span, ds, cs, r1);
    lemma_prepend(stmt, t.children[2], stmt2, u.children[2], r1);
    lemma_with3(
        t,
        u,
        with(left, seq![d]),
        t.children[1],
        prepend(stmt, t.children[2]),
        with(left2, seq![c]),
        u.children[1],
        prepend(stmt2, u.children[2]),
        r1,
    );
}

/// Parameters on either side. The first row of the results is the parameters, the second one the
/// declarators.
proof fn lemma_split_params(
    ps: Seq<Tree>,
    done: Seq<Tree>,
    ds: Seq<Tree>,
    e: Env,
    qs: Seq<Tree>,
    done2: Seq<Tree>,
    cs: Seq<Tree>,
    f: Env,
    r: Set<(u32, u32)>,
) -> (r1: Set<(u32, u32)>)
    requires
        linked(e, f, r),
        same_all(ps, qs, r),
        same_all(done, done2, r),
        same_all(ds, cs, r),
    ensures
        meet_two(split_params(ps, done, ds, e), split_params(qs, done2, cs, f), e, f, r, r1),
    decreases ps.len(),
{
    lemma_ext_refl(e, f, r);
    if ps.len() == 0 {
        r
    } else {
        lemma_drop(ps, qs, r);
        let p = ps[0];
        let q = qs[0];
        let ps1 = ps.drop_first();
        let qs1 = qs.drop_first();
        match p.kind {
            Kind::Pat(PatKind::Ident) => {
                lemma_push(done, done2, p, q, r);
                lemma_split_params(ps1, done.push(p), ds, e, qs1, done2.push(q), cs, f, r)
            },
            Kind::Pat(kind) => if kind == PatKind::Array || kind == PatKind::Object || kind
                == PatKind::Assign {
                let r1 = lemma_private(p.span, q.span, "ref"@, e, f, r);
                match (e.private_ident(p.span, "ref"@), f.private_ident(q.span, "ref"@)) {
                    (Ok((name, e1)), Ok((name2, f1))) => {
                        lemma_mono_all(ps1, qs1, r, r1);
                        lemma_mono_all(done, done2, r, r1);
                        lemma_mono_all(ds, cs, r, r1);
                        lemma_mono(p, q, r, r1);
                        lemma_names(name, name2, r1);
                        let done1 = done.push(ident_pat(name));
                        let done3 = done2.push(ident_pat(name2));
                        lemma_push(done, done2, ident_pat(name), ident_pat(name2), r1);
                        let d = declarator(p.span, p, ident_expr(name));
                        let c = declarator(q.span, q, ident_expr(name2));
                        lemma_declarator(
                            p.span,
                            q.span,
                            p,
                            q,
                            ident_expr(name),
                            ident_expr(name2),
                            r1,
                        );
                        lemma_push(ds, cs, d, c, r1);
                        let r2 = lemma_split_params(
                            ps1,
                            done1,
                            ds.push(d),
                            e1,
                            qs1,
                            done3,
                            cs.push(c),
                            f1,
                            r1,
                        );
                        match (
                            split_params(ps1, done1, ds.push(d), e1),
                            split_params(qs1, done3, cs.push(c), f1),
                        ) {
                            (Ok((a, b, e2)), Ok((a2, b2, f2))) => lemma_ext_trans(
                                e,
                                f,
                                r,
                                e1,
                                f1,
                                r1,
                                e2,
                                f2,
                                r2,
                            ),
                            _ => {},
                        }
                        r2
                    },
                    _ => r,
                }
            } else {
                lemma_split_params(ps1, done, ds, e, qs1, done2, cs, f, r)
            },
            _ => r,
        }
    }
}

proof fn lemma_fn_like(
    ps: Seq<Tree>,
    ss: Seq<Tree>,
    e: Env,
    qs: Seq<Tree>,
    ss2: Seq<Tree>,
    f: Env,
    bound: nat,
    r: Set<(u32, u32)>,
) -> (r1: Set<(u32, u32)>)
    requires
        linked(e, f, r),
        same_all(ps, qs, r),
        same_all(ss, ss2, r),
    ensures
        meet_two(
            fold_fn_like(ps, ss, e, bound),
            fold_fn_like(qs, ss2, f, bound),
            e,
            f,
            r,
            r1,
        ),
    decreases bound, 4nat, 0nat,
{
    lemma_ext_refl(e, f, r);
    let none = Seq::<Tree>::empty();
    let r1 = lemma_split_params(ps, none, none, e, qs, none, none, f, r);
    match (split_params(ps, none, none, e), split_params(qs, none, none, f)) {
        (Ok((ps1, ds, e1)), Ok((qs1, cs, f1))) => {
            lemma_mono_all(ss, ss2, r, r1);
            if ds.len() == 0 {
                r1
            } else {
                let r2 = lemma_refold(ds, e1, cs, f1, bound, r1);
                match (refold(ds, e1, bound), refold(cs, f1, bound)) {
                    (Ok((ds1, e2)), Ok((cs1, f2))) => {
                        lemma_ext_trans(e, f, r, e1, f1, r1, e2, f2, r2);
                        lemma_mono_all(ps1, qs1, r1, r2);
                        lemma_mono_all(ss, ss2, r1, r2);
                        let stmt = var_decl(VarDeclKind::Let, dummy(), ds1);
                        let stmt2 = var_decl(VarDeclKind::Let, dummy(), cs1);
                        lemma_inner(stmt.kind, dummy(), dummy(), ds1, cs1, r2);
                        lemma_seq1(stmt, stmt2, r2);
                        lemma_add(seq![stmt], seq![stmt2], ss, ss2, r2);
                    },
                    _ => {},
                }
                r2
            }
        },
        _ => r,
    }
}

/// As many trees come out as go in.
proof fn lemma_fold_all_len(ts: Seq<Tree>, env: Env)
    ensures
        fold_all(ts, Seq::empty(), env) matches Ok((out, env1)) ==> out.len() == ts.len(),
{
    crate::shrink::lemma_fold_all_each(ts, Seq::empty(), env);
}

#[verifier::rlimit(40)]
proof fn lemma_fold_function(
    t: Tree,
    e: Env,
    u: Tree,
    f: Env,
    r: Set<(u32, u32)>,
) -> (r1: Set<(u32, u32)>)
    requires
        linked(e, f, r),
        same(t, u, r),
    ensures
        meet(fold_function(t, e), fold_function(u, f), e, f, r, r1),
    decreases weight(t), 2 * depth(t) + 10, 2 * size(t) - 1,
{
    lemma_ext_refl(e, f, r);
    lemma_measure(t, u, r);
    lemma_children(t, u, r);
    if t.children.len() != 3 {
        r
    } else {
        assert(same(t.children[0], u.children[0], r));
        assert(same(t.children[2], u.children[2], r));
        if t.children[0].kind != Kind::Part(PartKind::Params) || t.children[2].kind
            == Kind::Absent || t.children[2].kind != Kind::Stmt(StmtKind::Block) {
            r
        } else {
            let none = Seq::<Tree>::empty();
            lemma_fold_all_len(t.children, e);
            let r1 = lemma_fold_all(t.children, none, e, u.children, none, f, r);
            match (fold_all(t.children, none, e), fold_all(u.children, none, f)) {
                (Ok((cs, e1)), Ok((ds, f1))) => {
                    lemma_mono(t, u, r, r1);
                    assert(same(cs[0], ds[0], r1));
                    assert(same(cs[1], ds[1], r1));
                    assert(same(cs[2], ds[2], r1));
                    lemma_children(cs[0], ds[0], r1);
                    lemma_children(cs[2], ds[2], r1);
                    let r2 = lemma_fn_like(
                        cs[0].children,
                        cs[2].children,
                        e1,
                        ds[0].children,
                        ds[2].children,
                        f1,
                        weight(t),
                        r1,
                    );
                    match (
                        fold_fn_like(cs[0].children, cs[2].children, e1, weight(t)),
                        fold_fn_like(ds[0].children, ds[2].children, f1, weight(t)),
                    ) {
                        (Ok((ps, ss, e2)), Ok((qs, ss2, f2))) => {
                            lemma_ext_trans(e, f, r, e1, f1, r1, e2, f2, r2);
                            lemma_mono(t, u, r1, r2);
                            lemma_mono(cs[0], ds[0], r1, r2);
                            lemma_mono(cs[1], ds[1], r1, r2);
                            lemma_mono(cs[2], ds[2], r1, r2);
                            lemma_with(cs[0], ds[0], ps, qs, r2);
                            lemma_with(cs[2], ds[2], ss, ss2, r2);
                            lemma_with3(
                                t,
                                u,
                                with(cs[0], ps),
                                cs[1],
                                with(cs[2], ss),
                                with(ds[0], qs),
                                ds[1],
                                with(ds[2], ss2),
                                r2,
                            );
                        },
                        _ => {},
                    }
                    r2
                },
                _ => r,
            }
        }
    }
}

#[verifier::rlimit(40)]
proof fn lemma_fold_constructor(
    t: Tree,
    e: Env,
    u: Tree,
    f: Env,
    r: Set<(u32, u32)>,
) -> (r1: Set<(u32, u32)>)
    requires
        linked(e, f, r),
        same(t, u, r),
    ensures
        meet(fold_constructor(t, e), fold_constructor(u, f), e, f, r, r1),
    decreases weight(t), 2 * depth(t) + 10, 2 * size(t) - 1,
{
    lemma_ext_refl(e, f, r);
    lemma_measure(t, u, r);
    lemma_children(t, u, r);
    if t.children.len() != 3 {
        r
    } else {
        assert(same(t.children[1], u.children[1], r));
        assert(same(t.children[2], u.children[2], r));
        if t.children[1].kind != Kind::Part(PartKind::Params) || t.children[2].kind
            == Kind::Absent || t.children[2].kind != Kind::Stmt(StmtKind::Block) {
            r
        } else {
            let none = Seq::<Tree>::empty();
            lemma_fold_all_len(t.children, e);
            let r1 = lemma_fold_all(t.children, none, e, u.children, none, f, r);
            match (fold_all(t.children, none, e), fold_all(u.children, none, f)) {
                (Ok((cs, e1)), Ok((ds, f1))) => {
                    lemma_mono(t, u, r, r1);
                    assert(same(cs[0], ds[0], r1));
                    assert(same(cs[1], ds[1], r1));
                    assert(same(cs[2], ds[2], r1));
                    lemma_children(cs[1], ds[1], r1);
                    lemma_children(cs[2], ds[2], r1);
                    let r2 = lemma_fn_like(
                        cs[1].children,
                        cs[2].children,
                        e1,
                        ds[1].children,
                        ds[2].children,
                        f1,
                        weight(t),
                        r1,
                    );
                    match (
                        fold_fn_like(cs[1].children, cs[2].children, e1, weight(t)),
                        fold_fn_like(ds[1].children, ds[2].children, f1, weight(t)),
                    ) {
                        (Ok((ps, ss, e2)), Ok((qs, ss2, f2))) => {
                            lemma_ext_trans(e, f, r, e1, f1, r1, e2, f2, r2);
                            lemma_mono(t, u, r1, r2);
                            lemma_mono(cs[0], ds[0], r1, r2);
                            lemma_mono(cs[1], ds[1], r1, r2);
                            lemma_mono(cs[2], ds[2], r1, r2);
                            lemma_with(cs[1], ds[1], ps, qs, r2);
                            lemma_with(cs[2], ds[2], ss, ss2, r2);
                            lemma_with3(
                                t,
                                u,
                                cs[0],
                                with(cs[1], ps),
                                with(cs[2], ss),
                                ds[0],
                                with(ds[1], qs),
                                with(ds[2], ss2),
                                r2,
                            );
                        },
                        _ => {},
                    }
                    r2
                },
                _ => r,
            }
        }
    }
}

#[verifier::rlimit(40)]
proof fn lemma_fold_setter(
    t: Tree,
    e: Env,
    u: Tree,
    f: Env,
    r: Set<(u32, u32)>,
) -> (r1: Set<(u32, u32)>)
    requires
        linked(e, f, r),
        same(t, u, r),
    ensures
        meet(fold_setter(t, e), fold_setter(u, f), e, f, r, r1),
    decreases weight(t), 2 * depth(t) + 10, 2 * size(t) - 1,
{
    lemma_ext_refl(e, f, r);
    lemma_measure(t, u, r);
    lemma_children(t, u, r);
    if t.children.len() != 3 {
        r
    } else {
        assert(same(t.children[2], u.children[2], r));
        if t.children[2].kind == Kind::Absent || t.children[2].kind != Kind::Stmt(
            StmtKind::Block,
        ) {
            r
        } else {
            let none = Seq::<Tree>::empty();
            lemma_fold_all_len(t.children, e);
            let r1 = lemma_fold_all(t.children, none, e, u.children, none, f, r);
            match (fold_all(t.children, none, e), fold_all(u.children, none, f)) {
                (Ok((cs, e1)), Ok((ds, f1))) => {
                    lemma_mono(t, u, r, r1);
                    assert(same(cs[0], ds[0], r1));
                    assert(same(cs[1], ds[1], r1));
                    assert(same(cs[2], ds[2], r1));
                    lemma_seq1(cs[1], ds[1], r1);
                    lemma_children(cs[2], ds[2], r1);
                    let r2 = lemma_fn_like(
                        seq![cs[1]],
                        cs[2].children,
                        e1,
                        seq![ds[1]],
                        ds[2].children,
                        f1,
                        weight(t),
                        r1,
                    );
                    match (
                        fold_fn_like(seq![cs[1]], cs[2].children, e1, weight(t)),
                        fold_fn_like(seq![ds[1]], ds[2].children, f1, weight(t)),
                    ) {
                        (Ok((ps, ss, e2)), Ok((qs, ss2, f2))) => {
                            lemma_ext_trans(e, f, r, e1, f1, r1, e2, f2, r2);
                            lemma_mono(t, u, r1, r2);
                            lemma_mono(cs[0], ds[0], r1, r2);
                            lemma_mono(cs[2], ds[2], r1, r2);
                            lemma_with(cs[2], ds[2], ss, ss2, r2);
                            if ps.len() == 1 {
                                assert(same(ps[0], qs[0], r2));
                                lemma_with3(
                                    t,
                                    u,
                                    cs[0],
                                    ps[0],
                                    with(cs[2], ss),
                                    ds[0],
                                    qs[0],
                                    with(ds[2], ss2),
                                    r2,
                                );
                            }
                        },
                        _ => {},
                    }
                    r2
                },
                _ => r,
            }
        }
    }
}

#[verifier::rlimit(40)]
proof fn lemma_fold_catch(
    t: Tree,
    e: Env,
    u: Tree,
    f: Env,
    r: Set<(u32, u32)>,
) -> (r1: Set<(u32, u32)>)
    requires
        linked(e, f, r),
        same(t, u, r),
    ensures
        meet(fold_catch(t, e), fold_catch(u, f), e, f, r, r1),
    decreases weight(t), 2 * depth(t) + 10, 2 * size(t) - 1,
{
    lemma_ext_refl(e, f, r);
    lemma_measure(t, u, r);
    lemma_children(t, u, r);
    if t.children.len() != 2 {
        r
    } else {
        assert(same(t.children[1], u.children[1], r));
        if t.children[1].kind != Kind::Stmt(StmtKind::Block) {
            r
        } else {
            let none = Seq::<Tree>::empty();
            lemma_fold_all_len(t.children, e);
            let r1 = lemma_fold_all(t.children, none, e, u.children, none, f, r);
            match (fold_all(t.children, none, e), fold_all(u.children, none, f)) {
                (Ok((cs, e1)), Ok((ds, f1))) => {
                    lemma_mono(t, u, r, r1);
                    assert(same(cs[0], ds[0], r1));
                    assert(same(cs[1], ds[1], r1));
                    if cs[0].kind == Kind::Absent {
                        lemma_with(t, u, cs, ds, r1);
                        r1
                    } else {
                        lemma_seq1(cs[0], ds[0], r1);
                        lemma_children(cs[1], ds[1], r1);
                        let r2 = lemma_fn_like(
                            seq![cs[0]],
                            cs[1].children,
                            e1,
                            seq![ds[0]],
                            ds[1].children,
                            f1,
                            weight(t),
                            r1,
                        );
                        match (
                            fold_fn_like(seq![cs[0]], cs[1].children, e1, weight(t)),
                            fold_fn_like(seq![ds[0]], ds[1].children, f1, weight(t)),
                        ) {
                            (Ok((ps, ss, e2)), Ok((qs, ss2, f2))) => {
                                lemma_ext_trans(e, f, r, e1, f1, r1, e2, f2, r2);
                                lemma_mono(t, u, r1, r2);
                                lemma_mono(cs[1], ds[1], r1, r2);
                                lemma_with(cs[1], ds[1], ss, ss2, r2);
                                let p = if ps.len() == 0 {
                                    absent()
                                } else {
                                    ps[0]
                                };
                                let q = if qs.len() == 0 {
                                    absent()
                                } else {
                                    qs[0]
                                };
                                assert(same(p, q, r2));
                                lemma_seq2(p, with(cs[1], ss), q, with(ds[1], ss2), r2);
                                lemma_with(
                                    t,
                                    u,
                                    seq![p, with(cs[1], ss)],
                                    seq![q, with(ds[1], ss2)],
                                    r2,
                                );
                            },
                            _ => {},
                        }
                        r2
                    }
                },
                _ => r,
            }
        }
    }
}

#[verifier::rlimit(40)]
proof fn lemma_fold_arrow(
    t: Tree,
    e: Env,
    u: Tree,
    f: Env,
    r: Set<(u32, u32)>,
) -> (r1: Set<(u32, u32)>)
    requires
        linked(e, f, r),
        same(t, u, r),
    ensures
        meet(fold_arrow(t, e), fold_arrow(u, f), e, f, r, r1),
    decreases weight(t), 2 * depth(t) + 10, 2 * size(t) - 1,
{
    lemma_ext_refl(e, f, r);
    lemma_measure(t, u, r);
    lemma_children(t, u, r);
    if t.children.len() != 2 {
        r
    } else {
        assert(same(t.children[0], u.children[0], r));
        if t.children[0].kind != Kind::Part(PartKind::Params) {
            r
        } else {
            let none = Seq::<Tree>::empty();
            lemma_fold_all_len(t.children, e);
            let r1 = lemma_fold_all(t.children, none, e, u.children, none, f, r);
            match (fold_all(t.children, none, e), fold_all(u.children, none, f)) {
                (Ok((cs, e1)), Ok((ds, f1))) => {
                    lemma_mono(t, u, r, r1);
                    assert(same(cs[0], ds[0], r1));
                    assert(same(cs[1], ds[1], r1));
                    lemma_children(cs[0], ds[0], r1);
                    lemma_children(cs[1], ds[1], r1);
                    let block = cs[1].kind == Kind::Stmt(StmtKind::Block);
                    let value = return_stmt(cs[1]);
                    let value2 = return_stmt(ds[1]);
                    lemma_seq1(cs[1], ds[1], r1);
                    lemma_inner(
                        value.kind,
                        cs[1].span,
                        ds[1].span,
                        seq![cs[1]],
                        seq![ds[1]],
                        r1,
                    );
                    lemma_seq1(value, value2, r1);
                    let body = if block {
                        cs[1].children
                    } else {
                        seq![value]
                    };
                    let body2 = if block {
                        ds[1].children
                    } else {
                        seq![value2]
                    };
                    let r2 = lemma_fn_like(
                        cs[0].children,
                        body,
                        e1,
                        ds[0].children,
                        body2,
                        f1,
                        weight(t),
                        r1,
                    );
                    match (
                        fold_fn_like(cs[0].children, body, e1, weight(t)),
                        fold_fn_like(ds[0].children, body2, f1, weight(t)),
                    ) {
                        (Ok((ps, ss, e2)), Ok((qs, ss2, f2))) => {
                            lemma_ext_trans(e, f, r, e1, f1, r1, e2, f2, r2);
                            lemma_mono(t, u, r1, r2);
                            lemma_mono(cs[0], ds[0], r1, r2);
                            lemma_mono(cs[1], ds[1], r1, r2);
                            lemma_with(cs[0], ds[0], ps, qs, r2);
                            lemma_with(cs[1], ds[1], ss, ss2, r2);
                            lemma_inner(
                                Kind::Stmt(StmtKind::Block),
                                cs[1].span,
                                ds[1].span,
                                ss,
                                ss2,
                                r2,
                            );
                            let b = if block {
                                with(cs[1], ss)
                            } else if ss.len() == 1 {
                                cs[1]
                            } else {
                                inner(Kind::Stmt(StmtKind::Block), cs[1].span, ss)
                            };
                            let b2 = if block {
                                with(ds[1], ss2)
                            } else if ss2.len() == 1 {
                                ds[1]
                            } else {
                                inner(Kind::Stmt(StmtKind::Block), ds[1].span, ss2)
                            };
                            assert(same(b, b2, r2));
                            lemma_seq2(with(cs[0], ps), b, with(ds[0], qs), b2, r2);
                            lemma_with(
                                t,
                                u,
                                seq![with(cs[0], ps), b],
                                seq![with(ds[0], qs), b2],
                                r2,
                            );
                        },
                        _ => {},
                    }
                    r2
                },
                _ => r,
            }
        }
    }
}

proof fn lemma_fold_stmts(
    ts: Seq<Tree>,
    e: Env,
    us: Seq<Tree>,
    f: Env,
    r: Set<(u32, u32)>,
) -> (r1: Set<(u32, u32)>)
    requires
        linked(e, f, r),
        same_all(ts, us, r),
    ensures
        meet_all(fold_stmts(ts, e), fold_stmts(us, f), e, f, r, r1),
    decreases weights(ts), 2 * depths(ts) + 12, 2 * sizes(ts) + 1,
{
    lemma_ext_refl(e, f, r);
    lemma_measures(ts, us, r);
    if !any_pattern(ts) {
        r
    } else {
        let none = Seq::<Tree>::empty();
        let r1 = lemma_fold_all(ts, none, e, us, none, f, r);
        match (fold_all(ts, none, e), fold_all(us, none, f)) {
            (Ok((ts1, e1)), Ok((us1, f1))) => {
                let bound = weights(ts);
                let deep = depths(ts);
                let r2 = lemma_assign_stmts(ts1, none, e1, us1, none, f1, bound, deep, r1);
                match (
                    assign_stmts(ts1, none, e1, bound, deep),
                    assign_stmts(us1, none, f1, bound, deep),
                ) {
                    (Ok((out, e2)), Ok((out2, f2))) => lemma_ext_trans(
                        e,
                        f,
                        r,
                        e1,
                        f1,
                        r1,
                        e2,
                        f2,
                        r2,
                    ),
                    _ => {},
                }
                r2
            },
            _ => r,
        }
    }
}

proof fn lemma_declare_vars(
    done: Seq<Tree>,
    vars: Seq<Tree>,
    t: Tree,
    done2: Seq<Tree>,
    vars2: Seq<Tree>,
    u: Tree,
    r: Set<(u32, u32)>,
)
    requires
        same_all(done, done2, r),
        same_all(vars, vars2, r),
        same(t, u, r),
        r.contains((0u32, 0u32)),
    ensures
        same_all(declare_vars(done, vars, t), declare_vars(done2, vars2, u), r),
{
    let stmt = var_decl(VarDeclKind::Var, dummy(), vars);
    let stmt2 = var_decl(VarDeclKind::Var, dummy(), vars2);
    lemma_inner(stmt.kind, dummy(), dummy(), vars, vars2, r);
    lemma_push(done, done2, t, u, r);
    lemma_push(done, done2, stmt, stmt2, r);
    lemma_push(done.push(stmt), done2.push(stmt2), t, u, r);
}

proof fn lemma_assign_stmts(
    ts: Seq<Tree>,
    done: Seq<Tree>,
    e: Env,
    us: Seq<Tree>,
    done2: Seq<Tree>,
    f: Env,
    bound: nat,
    deep: nat,
    r: Set<(u32, u32)>,
) -> (r1: Set<(u32, u32)>)
    requires
        linked(e, f, r),
        same_all(ts, us, r),
        same_all(done, done2, r),
    ensures
        meet_all(
            assign_stmts(ts, done, e, bound, deep),
            assign_stmts(us, done2, f, bound, deep),
            e,
            f,
            r,
            r1,
        ),
    decreases bound, 2 * deep + 11, ts.len(),
{
    lemma_ext_refl(e, f, r);
    if ts.len() == 0 {
        r
    } else {
        lemma_drop(ts, us, r);
        lemma_measure(ts[0], us[0], r);
        if weight(ts[0]) < bound || (weight(ts[0]) == bound && depth(ts[0]) <= deep) {
            let none = Seq::<Tree>::empty();
            let r1 = lemma_assign(ts[0], none, e, us[0], none, f, r);
            match (assign(ts[0], none, e), assign(us[0], none, f)) {
                (Ok((t, vars, e1)), Ok((u, vars2, f1))) => {
                    let ts1 = ts.drop_first();
                    let us1 = us.drop_first();
                    lemma_mono_all(ts1, us1, r, r1);
                    lemma_mono_all(done, done2, r, r1);
                    lemma_declare_vars(done, vars, t, done2, vars2, u, r1);
                    let done1 = declare_vars(done, vars, t);
                    let done3 = declare_vars(done2, vars2, u);
                    let r2 = lemma_assign_stmts(
                        ts1,
                        done1,
                        e1,
                        us1,
                        done3,
                        f1,
                        bound,
                        deep,
                        r1,
                    );
                    match (
                        assign_stmts(ts1, done1, e1, bound, deep),
                        assign_stmts(us1, done3, f1, bound, deep),
                    ) {
                        (Ok((out, e2)), Ok((out2, f2))) => lemma_ext_trans(
                            e,
                            f,
                            r,
                            e1,
                            f1,
                            r1,
                            e2,
                            f2,
                            r2,
                        ),
                        _ => {},
                    }
                    r2
                },
                _ => r,
            }
        } else {
            r
        }
    }
}

/// What becomes of the assignments in a tree on either side.
proof fn lemma_assign(
    t: Tree,
    vars: Seq<Tree>,
    e: Env,
    u: Tree,
    vars2: Seq<Tree>,
    f: Env,
    r: Set<(u32, u32)>,
) -> (r1: Set<(u32, u32)>)
    requires
        linked(e, f, r),
        same(t, u, r),
        same_all(vars, vars2, r),
    ensures
        meet_assign(assign(t, vars, e), assign(u, vars2, f), e, f, r, r1),
    decreases weight(t), 2 * depth(t) + 10, 2 * size(t) + 1,
{
    lemma_ext_refl(e, f, r);
    lemma_measure(t, u, r);
    lemma_children(t, u, r);
    let bound = weight(t);
    let none = Seq::<Tree>::empty();
    if t.kind == Kind::Expr(ExprKind::Fn) || t.kind == Kind::Expr(ExprKind::Object) {
        let r1 = lemma_fold(t, e, u, f, r);
        match (fold(t, e), fold(u, f)) {
            (Ok((t1, e1)), Ok((u1, f1))) => {
                lemma_mono_all(vars, vars2, r, r1);
                let r2 = lemma_lower_assign(t1, vars, e1, u1, vars2, f1, bound, r1);
                match (lower_assign(t1, vars, e1, bound), lower_assign(u1, vars2, f1, bound)) {
                    (Ok((out, vs, e2)), Ok((out2, ws, f2))) => lemma_ext_trans(
                        e,
                        f,
                        r,
                        e1,
                        f1,
                        r1,
                        e2,
                        f2,
                        r2,
                    ),
                    _ => {},
                }
                r2
            },
            _ => r,
        }
    } else {
        let r1 = lemma_assign_all(t.children, none, vars, e, u.children, none, vars2, f, r);
        match (
            assign_all(t.children, none, vars, e),
            assign_all(u.children, none, vars2, f),
        ) {
            (Ok((cs, vs, e1)), Ok((ds, ws, f1))) => {
                lemma_mono(t, u, r, r1);
                lemma_with(t, u, cs, ds, r1);
                if t.kind is Expr {
                    let t1 = with(t, cs);
                    let u1 = with(u, ds);
                    let r2 = lemma_lower_assign(t1, vs, e1, u1, ws, f1, bound, r1);
                    match (lower_assign(t1, vs, e1, bound), lower_assign(u1, ws, f1, bound)) {
                        (Ok((out, vs1, e2)), Ok((out2, ws1, f2))) => lemma_ext_trans(
                            e,
                            f,
                            r,
                            e1,
                            f1,
                            r1,
                            e2,
                            f2,
                            r2,
                        ),
                        _ => {},
                    }
                    r2
                } else {
                    r1
                }
            },
            _ => r,
        }
    }
}

proof fn lemma_assign_all(
    ts: Seq<Tree>,
    done: Seq<Tree>,
    vars: Seq<Tree>,
    e: Env,
    us: Seq<Tree>,
    done2: Seq<Tree>,
    vars2: Seq<Tree>,
    f: Env,
    r: Set<(u32, u32)>,
) -> (r1: Set<(u32, u32)>)
    requires
        linked(e, f, r),
        same_all(ts, us, r),
        same_all(done, done2, r),
        same_all(vars, vars2, r),
    ensures
        meet_two(
            assign_all(ts, done, vars, e),
            assign_all(us, done2, vars2, f),
            e,
            f,
            r,
            r1,
        ),
    decreases weights(ts), 2 * depths(ts) + 10, 2 * sizes(ts),
{
    lemma_ext_refl(e, f, r);
    if ts.len() == 0 {
        r
    } else {
        lemma_drop(ts, us, r);
        let r1 = lemma_assign(ts[0], vars, e, us[0], vars2, f, r);
        match (assign(ts[0], vars, e), assign(us[0], vars2, f)) {
            (Ok((t, vs, e1)), Ok((u, ws, f1))) => {
                let ts1 = ts.drop_first();
                let us1 = us.drop_first();
                lemma_mono_all(ts1, us1, r, r1);
                lemma_mono_all(done, done2, r, r1);
                lemma_push(done, done2, t, u, r1);
                let done1 = done.push(t);
                let done3 = done2.push(u);
                let r2 = lemma_assign_all(ts1, done1, vs, e1, us1, done3, ws, f1, r1);
                match (assign_all(ts1, done1, vs, e1), assign_all(us1, done3, ws, f1)) {
                    (Ok((out, vs1, e2)), Ok((out2, ws1, f2))) => lemma_ext_trans(
                        e,
                        f,
                        r,
                        e1,
                        f1,
                        r1,
                        e2,
                        f2,
                        r2,
                    ),
                    _ => {},
                }
                r2
            },
            _ => r,
        }
    }
}

proof fn lemma_reassign(
    t: Tree,
    vars: Seq<Tree>,
    e: Env,
    u: Tree,
    vars2: Seq<Tree>,
    f: Env,
    bound: nat,
    r: Set<(u32, u32)>,
) -> (r1: Set<(u32, u32)>)
    requires
        linked(e, f, r),
        same(t, u, r),
        same_all(vars, vars2, r),
    ensures
        meet_assign(reassign(t, vars, e, bound), reassign(u, vars2, f, bound), e, f, r, r1),
    decreases bound, 0nat, 0nat,
{
    lemma_ext_refl(e, f, r);
    lemma_measure(t, u, r);
    if weight(t) < bound {
        lemma_assign(t, vars, e, u, vars2, f, r)
    } else {
        r
    }
}

/// A sequence of assignments that ends with a name on either side.
proof fn lemma_seq_expr(
    exprs: Seq<Tree>,
    name: Name,
    exprs2: Seq<Tree>,
    name2: Name,
    r: Set<(u32, u32)>,
)
    requires
        same_all(exprs, exprs2, r),
        same_name(name, name2, r),
        r.contains((0u32, 0u32)),
    ensures
        same(
            seq_expr(exprs.push(ident_expr(name))),
            seq_expr(exprs2.push(ident_expr(name2))),
            r,
        ),
{
    lemma_names(name, name2, r);
    lemma_push(exprs, exprs2, ident_expr(name), ident_expr(name2), r);
    let t = seq_expr(exprs.push(ident_expr(name)));
    let u = seq_expr(exprs2.push(ident_expr(name2)));
    lemma_inner(t.kind, dummy(), dummy(), t.children, u.children, r);
}

proof fn lemma_lower_assign(
    t: Tree,
    vars: Seq<Tree>,
    e: Env,
    u: Tree,
    vars2: Seq<Tree>,
    f: Env,
    bound: nat,
    r: Set<(u32, u32)>,
) -> (r1: Set<(u32, u32)>)
    requires
        linked(e, f, r),
        same(t, u, r),
        same_all(vars, vars2, r),
    ensures
        meet_assign(
            lower_assign(t, vars, e, bound),
            lower_assign(u, vars2, f, bound),
            e,
            f,
            r,
            r1,
        ),
    decreases bound, 3nat, 0nat,
{
    lemma_ext_refl(e, f, r);
    if t.kind != Kind::Expr(ExprKind::Assign(AssignOp::Assign)) || t.children.len() != 2 {
        r
    } else {
        let left = t.children[0];
        let left2 = u.children[0];
        let right = t.children[1];
        let right2 = u.children[1];
        assert(same(left, left2, r));
        assert(same(right, right2, r));
        lemma_children(left, left2, r);
        lemma_assign_expr(t.span, u.span, left, left2, right, right2, r);
        match left.kind {
            Kind::Pat(PatKind::Expr) => {
                if left.children.len() == 1 {
                    assert(same(left.children[0], left2.children[0], r));
                    lemma_assign_expr(
                        t.span,
                        u.span,
                        left.children[0],
                        left2.children[0],
                        right,
                        right2,
                        r,
                    );
                }
                r
            },
            Kind::Pat(PatKind::Array) => lemma_assign_pattern(
                left,
                right,
                vars,
                e,
                left2,
                right2,
                vars2,
                f,
                bound,
                r,
            ),
            Kind::Pat(PatKind::Object) => lemma_assign_pattern(
                left,
                right,
                vars,
                e,
                left2,
                right2,
                vars2,
                f,
                bound,
                r,
            ),
            _ => r,
        }
    }
}

/// What stands for an assignment to an array or an object pattern.
spec fn assign_pattern(left: Tree, right: Tree, vars: Seq<Tree>, env: Env, bound: nat) -> Result<
    (Tree, Seq<Tree>, Env),
    Refusal,
> {
    match ref_ident(vars, absent(), env) {
        Err(refusal) => Err(refusal),
        Ok((object, vars1, env1)) => match if left.kind == Kind::Pat(PatKind::Array) {
            assign_elems(
                left.children,
                0,
                object,
                seq![assign_expr(dummy(), ident_pat(object), right)],
                vars1,
                env1,
                bound,
            )
        } else {
            assign_props(
                left.children,
                0,
                object,
                seq![assign_expr(left.span, ident_pat(object), right)],
                vars1,
                env1,
            )
        } {
            Err(refusal) => Err(refusal),
            Ok((exprs, vars2, env2)) => Ok(
                (seq_expr(exprs.push(ident_expr(object))), vars2, env2),
            ),
        },
    }
}

proof fn lemma_assign_pattern(
    left: Tree,
    right: Tree,
    vars: Seq<Tree>,
    e: Env,
    left2: Tree,
    right2: Tree,
    vars2: Seq<Tree>,
    f: Env,
    bound: nat,
    r: Set<(u32, u32)>,
) -> (r1: Set<(u32, u32)>)
    requires
        linked(e, f, r),
        same(left, left2, r),
        same(right, right2, r),
        same_all(vars, vars2, r),
    ensures
        meet_assign(
            assign_pattern(left, right, vars, e, bound),
            assign_pattern(left2, right2, vars2, f, bound),
            e,
            f,
            r,
            r1,
        ),
    decreases bound, 2nat, 0nat,
{
    lemma_ext_refl(e, f, r);
    let none = absent();
    assert(same(none, none, r));
    let r1 = lemma_ref_ident(vars, none, e, vars2, none, f, r);
    match (ref_ident(vars, none, e), ref_ident(vars2, none, f)) {
        (Ok((object, vs, e1)), Ok((object2, ws, f1))) => {
            lemma_mono(left, left2, r, r1);
            lemma_mono(right, right2, r, r1);
            lemma_children(left, left2, r1);
            lemma_names(object, object2, r1);
            let array = left.kind == Kind::Pat(PatKind::Array);
            let span = if array {
                dummy()
            } else {
                left.span
            };
            let span2 = if array {
                dummy()
            } else {
                left2.span
            };
            let first = assign_expr(span, ident_pat(object), right);
            let first2 = assign_expr(span2, ident_pat(object2), right2);
            lemma_assign_expr(
                span,
                span2,
                ident_pat(object),
                ident_pat(object2),
                right,
                right2,
                r1,
            );
            lemma_seq1(first, first2, r1);
            let ps = left.children;
            let qs = left2.children;
            let xs = seq![first];
            let ys = seq![first2];
            if array {
                let r2 = lemma_assign_elems(
                    ps,
                    0,
                    object,
                    xs,
                    vs,
                    e1,
                    qs,
                    object2,
                    ys,
                    ws,
                    f1,
                    bound,
                    r1,
                );
                match (
                    assign_elems(ps, 0, object, xs, vs, e1, bound),
                    assign_elems(qs, 0, object2, ys, ws, f1, bound),
                ) {
                    (Ok((exprs, vs1, e2)), Ok((exprs2, ws1, f2))) => {
                        lemma_ext_trans(e, f, r, e1, f1, r1, e2, f2, r2);
                        lemma_seq_expr(exprs, object, exprs2, object2, r2);
                    },
                    _ => {},
                }
                r2
            } else {
                let r2 = lemma_assign_props(
                    ps,
                    0,
                    object,
                    xs,
                    vs,
                    e1,
                    qs,
                    object2,
                    ys,
                    ws,
                    f1,
                    r1,
                );
                match (
                    assign_props(ps, 0, object, xs, vs, e1),
                    assign_props(qs, 0, object2, ys, ws, f1),
                ) {
                    (Ok((exprs, vs1, e2)), Ok((exprs2, ws1, f2))) => {
                        lemma_ext_trans(e, f, r, e1, f1, r1, e2, f2, r2);
                        lemma_seq_expr(exprs, object, exprs2, object2, r2);
                    },
                    _ => {},
                }
                r2
            }
        },
        _ => r,
    }
}

proof fn lemma_assign_elem(
    elem: Tree,
    i: int,
    object: Name,
    xs: Seq<Tree>,
    vars: Seq<Tree>,
    e: Env,
    elem2: Tree,
    object2: Name,
    ys: Seq<Tree>,
    vars2: Seq<Tree>,
    f: Env,
    bound: nat,
    r: Set<(u32, u32)>,
) -> (r1: Set<(u32, u32)>)
    requires
        linked(e, f, r),
        same(elem, elem2, r),
        same_name(object, object2, r),
        same_all(xs, ys, r),
        same_all(vars, vars2, r),
    ensures
        meet_two(
            assign_elem(elem, i, object, xs, vars, e, bound),
            assign_elem(elem2, i, object2, ys, vars2, f, bound),
            e,
            f,
            r,
            r1,
        ),
    decreases bound, 1nat, 0nat,
{
    lemma_ext_refl(e, f, r);
    lemma_elem_exprs(object, object2, i, dummy(), r);
    match elem.kind {
        Kind::Pat(PatKind::Assign) => if elem.children.len() != 2 {
            r
        } else {
            let left = elem.children[0];
            let left2 = elem2.children[0];
            let default = elem.children[1];
            let default2 = elem2.children[1];
            assert(same(left, left2, r));
            assert(same(default, default2, r));
            lemma_names(object, object2, r);
            let none = absent();
            let r1 = lemma_ref_ident(vars, none, e, vars2, none, f, r);
            match (ref_ident(vars, none, e), ref_ident(vars2, none, f)) {
                (Ok((tmp, vs, e1)), Ok((tmp2, ws, f1))) => {
                    lemma_mono(left, left2, r, r1);
                    lemma_mono(default, default2, r, r1);
                    lemma_cond(tmp, tmp2, default, default2, r1);
                    let value = cond_expr(tmp, default);
                    let value2 = cond_expr(tmp2, default2);
                    lemma_assign_expr(elem.span, elem2.span, left, left2, value, value2, r1);
                    let sub = assign_expr(elem.span, left, value);
                    let sub2 = assign_expr(elem2.span, left2, value2);
                    let r2 = lemma_reassign(sub, vs, e1, sub2, ws, f1, bound, r1);
                    match (reassign(sub, vs, e1, bound), reassign(sub2, ws, f1, bound)) {
                        (Ok((t, vs1, e2)), Ok((u, ws1, f2))) => {
                            lemma_ext_trans(e, f, r, e1, f1, r1, e2, f2, r2);
                            lemma_mono_all(xs, ys, r, r2);
                            lemma_names(tmp, tmp2, r2);
                            lemma_elem_exprs(object, object2, i, dummy(), r2);
                            let first = assign_expr(
                                dummy(),
                                ident_pat(tmp),
                                ref_idx_expr(object, i),
                            );
                            let first2 = assign_expr(
                                dummy(),
                                ident_pat(tmp2),
                                ref_idx_expr(object2, i),
                            );
                            lemma_assign_expr(
                                dummy(),
                                dummy(),
                                ident_pat(tmp),
                                ident_pat(tmp2),
                                ref_idx_expr(object, i),
                                ref_idx_expr(object2, i),
                                r2,
                            );
                            lemma_push(xs, ys, first, first2, r2);
                            lemma_push(xs.push(first), ys.push(first2), t, u, r2);
                        },
                        _ => {},
                    }
                    r2
                },
                _ => r,
            }
        },
        Kind::Pat(PatKind::Rest { dot3 }) => if elem.children.len() != 1 {
            r
        } else {
            assert(same(elem.children[0], elem2.children[0], r));
            lemma_assign_one(
                elem.span,
                elem.children[0],
                slice_call(object, i, dummy()),
                xs,
                vars,
                e,
                elem2.span,
                elem2.children[0],
                slice_call(object2, i, dummy()),
                ys,
                vars2,
                f,
                bound,
                r,
            )
        },
        _ => lemma_assign_one(
            elem.span,
            elem,
            ref_idx_expr(object, i),
            xs,
            vars,
            e,
            elem2.span,
            elem2,
            ref_idx_expr(object2, i),
            ys,
            vars2,
            f,
            bound,
            r,
        ),
    }
}

/// One assignment that the pass made, behind those that are done, on either side.
proof fn lemma_assign_one(
    a: Span,
    left: Tree,
    right: Tree,
    xs: Seq<Tree>,
    vars: Seq<Tree>,
    e: Env,
    b: Span,
    left2: Tree,
    right2: Tree,
    ys: Seq<Tree>,
    vars2: Seq<Tree>,
    f: Env,
    bound: nat,
    r: Set<(u32, u32)>,
) -> (r1: Set<(u32, u32)>)
    requires
        linked(e, f, r),
        same_span(a, b, r),
        same(left, left2, r),
        same(right, right2, r),
        same_all(xs, ys, r),
        same_all(vars, vars2, r),
    ensures
        meet_assign(
            reassign(assign_expr(a, left, right), vars, e, bound),
            reassign(assign_expr(b, left2, right2), vars2, f, bound),
            e,
            f,
            r,
            r1,
        ),
        reassign(assign_expr(a, left, right), vars, e, bound) matches Ok((t, vs, e1)) ==> (reassign(
            assign_expr(b, left2, right2),
            vars2,
            f,
            bound,
        ) matches Ok((u, ws, f1)) ==> same_all(xs.push(t), ys.push(u), r1)),
    decreases bound, 0nat, 1nat,
{
    lemma_ext_refl(e, f, r);
    lemma_assign_expr(a, b, left, left2, right, right2, r);
    let t = assign_expr(a, left, right);
    let u = assign_expr(b, left2, right2);
    let r1 = lemma_reassign(t, vars, e, u, vars2, f, bound, r);
    match (reassign(t, vars, e, bound), reassign(u, vars2, f, bound)) {
        (Ok((t1, vs, e1)), Ok((u1, ws, f1))) => {
            lemma_mono_all(xs, ys, r, r1);
            lemma_push(xs, ys, t1, u1, r1);
        },
        _ => {},
    }
    r1
}

proof fn lemma_assign_elems(
    elems: Seq<Tree>,
    i: nat,
    object: Name,
    xs: Seq<Tree>,
    vars: Seq<Tree>,
    e: Env,
    elems2: Seq<Tree>,
    object2: Name,
    ys: Seq<Tree>,
    vars2: Seq<Tree>,
    f: Env,
    bound: nat,
    r: Set<(u32, u32)>,
) -> (r1: Set<(u32, u32)>)
    requires
        linked(e, f, r),
        same_all(elems, elems2, r),
        same_name(object, object2, r),
        same_all(xs, ys, r),
        same_all(vars, vars2, r),
    ensures
        meet_two(
            assign_elems(elems, i, object, xs, vars, e, bound),
            assign_elems(elems2, i, object2, ys, vars2, f, bound),
            e,
            f,
            r,
            r1,
        ),
    decreases bound, 1nat, 1 + elems.len() - i,
{
    lemma_ext_refl(e, f, r);
    if i >= elems.len() {
        r
    } else {
        let elem = elems[i as int];
        let elem2 = elems2[i as int];
        let k = i as int;
        assert(same(elem, elem2, r));
        if elem.kind == Kind::Absent {
            lemma_assign_elems(
                elems,
                i + 1,
                object,
                xs,
                vars,
                e,
                elems2,
                object2,
                ys,
                vars2,
                f,
                bound,
                r,
            )
        } else {
            let r1 = lemma_assign_elem(
                elem,
                k,
                object,
                xs,
                vars,
                e,
                elem2,
                object2,
                ys,
                vars2,
                f,
                bound,
                r,
            );
            match (
                assign_elem(elem, k, object, xs, vars, e, bound),
                assign_elem(elem2, k, object2, ys, vars2, f, bound),
            ) {
                (Ok((xs1, vs, e1)), Ok((ys1, ws, f1))) => {
                    lemma_mono_all(elems, elems2, r, r1);
                    let r2 = lemma_assign_elems(
                        elems,
                        i + 1,
                        object,
                        xs1,
                        vs,
                        e1,
                        elems2,
                        object2,
                        ys1,
                        ws,
                        f1,
                        bound,
                        r1,
                    );
                    match (
                        assign_elems(elems, i + 1, object, xs1, vs, e1, bound),
                        assign_elems(elems2, i + 1, object2, ys1, ws, f1, bound),
                    ) {
                        (Ok((xs2, vs1, e2)), Ok((ys2, ws1, f2))) => lemma_ext_trans(
                            e,
                            f,
                            r,
                            e1,
                            f1,
                            r1,
                            e2,
                            f2,
                            r2,
                        ),
                        _ => {},
                    }
                    r2
                },
                _ => r,
            }
        }
    }
}

proof fn lemma_assign_prop(
    prop: Tree,
    object: Name,
    xs: Seq<Tree>,
    vars: Seq<Tree>,
    e: Env,
    prop2: Tree,
    object2: Name,
    ys: Seq<Tree>,
    vars2: Seq<Tree>,
    f: Env,
    r: Set<(u32, u32)>,
) -> (r1: Set<(u32, u32)>)
    requires
        linked(e, f, r),
        same(prop, prop2, r),
        same_name(object, object2, r),
        same_all(xs, ys, r),
        same_all(vars, vars2, r),
    ensures
        meet_two(
            assign_prop(prop, object, xs, vars, e),
            assign_prop(prop2, object2, ys, vars2, f),
            e,
            f,
            r,
            r1,
        ),
{
    lemma_ext_refl(e, f, r);
    if prop.children.len() != 2 {
        r
    } else {
        let key = prop.children[0];
        let value = prop.children[1];
        let key2 = prop2.children[0];
        let value2 = prop2.children[1];
        assert(same(key, key2, r));
        assert(same(value, value2, r));
        match prop.kind {
            Kind::PatProp(PatPropKind::KeyValue) => {
                lemma_prop_name(key, object, key2, object2, r);
                match (prop_name_expr(key), prop_name_expr(key2)) {
                    (Some(p), Some(q)) => {
                        let right = ref_prop_expr(object, p);
                        let right2 = ref_prop_expr(object2, q);
                        lemma_assign_expr(prop.span, prop2.span, value, value2, right, right2, r);
                        lemma_push(
                            xs,
                            ys,
                            assign_expr(prop.span, value, right),
                            assign_expr(prop2.span, value2, right2),
                            r,
                        );
                    },
                    _ => {},
                }
                r
            },
            Kind::PatProp(PatPropKind::Assign) => {
                let name = name_of(key);
                let name2 = name_of(key2);
                let right = ref_prop_expr(object, ident_expr(name));
                let right2 = ref_prop_expr(object2, ident_expr(name2));
                lemma_names(name, name2, r);
                lemma_member(object, object2, ident_expr(name), ident_expr(name2), false, r);
                if value.kind == Kind::Absent {
                    lemma_assign_expr(
                        prop.span,
                        prop2.span,
                        ident_pat(name),
                        ident_pat(name2),
                        right,
                        right2,
                        r,
                    );
                    lemma_push(
                        xs,
                        ys,
                        assign_expr(prop.span, ident_pat(name), right),
                        assign_expr(prop2.span, ident_pat(name2), right2),
                        r,
                    );
                    r
                } else {
                    let none = absent();
                    let r1 = lemma_ref_ident(vars, none, e, vars2, none, f, r);
                    match (ref_ident(vars, none, e), ref_ident(vars2, none, f)) {
                        (Ok((tmp, vs, e1)), Ok((tmp2, ws, f1))) => {
                            lemma_mono_all(xs, ys, r, r1);
                            lemma_mono(value, value2, r, r1);
                            lemma_mono(right, right2, r, r1);
                            lemma_names(name, name2, r1);
                            lemma_names(tmp, tmp2, r1);
                            lemma_cond(tmp, tmp2, value, value2, r1);
                            let first = assign_expr(prop.span, ident_pat(tmp), right);
                            let first2 = assign_expr(prop2.span, ident_pat(tmp2), right2);
                            lemma_assign_expr(
                                prop.span,
                                prop2.span,
                                ident_pat(tmp),
                                ident_pat(tmp2),
                                right,
                                right2,
                                r1,
                            );
                            lemma_push(xs, ys, first, first2, r1);
                            let test = cond_expr(tmp, value);
                            let test2 = cond_expr(tmp2, value2);
                            lemma_assign_expr(
                                prop.span,
                                prop2.span,
                                ident_pat(name),
                                ident_pat(name2),
                                test,
                                test2,
                                r1,
                            );
                            lemma_push(
                                xs.push(first),
                                ys.push(first2),
                                assign_expr(prop.span, ident_pat(name), test),
                                assign_expr(prop2.span, ident_pat(name2), test2),
                                r1,
                            );
                        },
                        _ => {},
                    }
                    r1
                }
            },
            _ => r,
        }
    }
}

proof fn lemma_assign_props(
    props: Seq<Tree>,
    i: nat,
    object: Name,
    xs: Seq<Tree>,
    vars: Seq<Tree>,
    e: Env,
    props2: Seq<Tree>,
    object2: Name,
    ys: Seq<Tree>,
    vars2: Seq<Tree>,
    f: Env,
    r: Set<(u32, u32)>,
) -> (r1: Set<(u32, u32)>)
    requires
        linked(e, f, r),
        same_all(props, props2, r),
        same_name(object, object2, r),
        same_all(xs, ys, r),
        same_all(vars, vars2, r),
    ensures
        meet_two(
            assign_props(props, i, object, xs, vars, e),
            assign_props(props2, i, object2, ys, vars2, f),
            e,
            f,
            r,
            r1,
        ),
    decreases props.len() - i,
{
    lemma_ext_refl(e, f, r);
    if i >= props.len() {
        r
    } else {
        let prop = props[i as int];
        let prop2 = props2[i as int];
        assert(same(prop, prop2, r));
        let r1 = lemma_assign_prop(prop, object, xs, vars, e, prop2, object2, ys, vars2, f, r);
        match (
            assign_prop(prop, object, xs, vars, e),
            assign_prop(prop2, object2, ys, vars2, f),
        ) {
            (Ok((xs1, vs, e1)), Ok((ys1, ws, f1))) => {
                lemma_mono_all(props, props2, r, r1);
                let r2 = lemma_assign_props(
                    props,
                    i + 1,
                    object,
                    xs1,
                    vs,
                    e1,
                    props2,
                    object2,
                    ys1,
                    ws,
                    f1,
                    r1,
                );
                match (
                    assign_props(props, i + 1, object, xs1, vs, e1),
                    assign_props(props2, i + 1, object2, ys1, ws, f1),
                ) {
                    (Ok((xs2, vs1, e2)), Ok((ys2, ws1, f2))) => lemma_ext_trans(
                        e,
                        f,
                        r,
                        e1,
                        f1,
                        r1,
                        e2,
                        f2,
                        r2,
                    ),
                    _ => {},
                }
                r2
            },
            _ => r,
        }
    }
}

/// Trees that are the same up to a renaming become the same, up to a renaming that goes on from it.
pub proof fn law_renamed(t: Tree, e: Env, u: Tree, f: Env, r: Set<(u32, u32)>)
    requires
        linked(e, f, r),
        same(t, u, r),
    ensures
        exists|r1: Set<(u32, u32)>| #[trigger] meet(fold(t, e), fold(u, f), e, f, r, r1),
{
    let r1 = lemma_fold(t, e, u, f, r);
    assert(meet(fold(t, e), fold(u, f), e, f, r, r1));
}

/// The renaming that leaves every context as it is, as far as both states know it and agree on
/// whether it is that of the helpers.
pub open spec fn kept(e: Env, f: Env) -> Set<(u32, u32)> {
    Set::new(
        |p: (u32, u32)|
            p.0 == p.1 && p.0 < e.contexts.len() && p.0 < f.contexts.len() && is_helper(e, p.0)
                == is_helper(f, p.0),
    )
}

pub proof fn lemma_kept(e: Env, f: Env)
    requires
        e.wf(),
        f.wf(),
    ensures
        linked(e, f, kept(e, f)),
{
    reveal(one_to_one);
    reveal(within);
}

/// What comes out does not depend on what was made before: from any two states, a tree whose
/// contexts they both know becomes the same, up to the contexts of new names and of the helpers.
pub proof fn law_two_states(t: Tree, e: Env, f: Env)
    requires
        e.wf(),
        f.wf(),
        same(t, t, kept(e, f)),
    ensures
        exists|r: Set<(u32, u32)>| #[trigger]
            meet(fold(t, e), fold(t, f), e, f, kept(e, f), r),
{
    lemma_kept(e, f);
    law_renamed(t, e, t, f, kept(e, f));
}

} // verus!
