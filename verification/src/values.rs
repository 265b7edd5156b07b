//! What the value of an assignment to a pattern is, and which names it needs.
use crate::ast::{AssignOp, ExprKind, Kind, PatKind, Tree};
use crate::factory::{
    absent, assign_expr, cond_expr, declarator, dummy, ident_expr, ident_pat, ref_idx_expr,
    slice_call,
};
use crate::growth::{grown, law_fresh, law_grown};
use crate::hygiene::{Env, Name};
use crate::measure::{depth, depths, size, sizes, weight, weights};
use crate::rules::{
    assign, assign_all, assign_elem, assign_elems, assign_prop, assign_props, fold, lower_assign,
    name_of, reassign, ref_ident, with,
};
use crate::shrink::assigned;
use vstd::prelude::*;

verus! {

/// Whether this declares a name that is spelled `ref` and gives it no value.
pub open spec fn is_var(d: Tree) -> bool {
    let name = var_name(d);
    d == declarator(dummy(), ident_pat(name), absent()) && name.text == "ref"@
}

/// The name that a declarator of a name declares.
pub open spec fn var_name(d: Tree) -> Name {
    name_of(d.children[0])
}

/// Whether only declarators of names without values were added at the end, and, where the state was
/// in order, these names are new and all different: their contexts come one after the other, behind
/// those that were there.
pub open spec fn added(vars: Seq<Tree>, env: Env, vars1: Seq<Tree>, env1: Env) -> bool {
    &&& vars.len() <= vars1.len()
    &&& forall|i: int| 0 <= i < vars.len() ==> vars1[i] == #[trigger] vars[i]
    &&& forall|i: int| vars.len() <= i < vars1.len() ==> is_var(#[trigger] vars1[i])
    &&& grown(env, env1)
    &&& env.wf() ==> forall|i: int|
        vars.len() <= i < vars1.len() ==> env.contexts.len() <= var_name(
            #[trigger] vars1[i],
        ).span.ctxt < env1.contexts.len()
    &&& env.wf() ==> forall|i: int, j: int|
        vars.len() <= i < j < vars1.len() ==> var_name(#[trigger] vars1[i]).span.ctxt < var_name(
            #[trigger] vars1[j],
        ).span.ctxt
}

proof fn lemma_trans(a: Seq<Tree>, env: Env, b: Seq<Tree>, env1: Env, c: Seq<Tree>, env2: Env)
    requires
        added(a, env, b, env1),
        added(b, env1, c, env2),
    ensures
        added(a, env, c, env2),
{
    crate::growth::lemma_trans(env, env1, env2);
    assert forall|i: int| 0 <= i < a.len() implies c[i] == #[trigger] a[i] by {
        assert(b[i] == a[i]);
    }
    assert forall|i: int| a.len() <= i < c.len() implies is_var(#[trigger] c[i]) && (env.wf()
        ==> env.contexts.len() <= var_name(c[i]).span.ctxt < env2.contexts.len()) && (i < b.len()
        ==> c[i] == b[i]) by {
        if i < b.len() {
            assert(c[i] == b[i]);
        }
    }
    if env.wf() {
        assert forall|i: int, j: int| a.len() <= i < j < c.len() implies var_name(
            #[trigger] c[i],
        ).span.ctxt < var_name(#[trigger] c[j]).span.ctxt by {
            if j < b.len() {
                assert(c[i] == b[i] && c[j] == b[j]);
            } else if i < b.len() {
                assert(c[i] == b[i]);
            }
        }
    }
}

proof fn lemma_ref_ident(vars: Seq<Tree>, env: Env)
    ensures
        ref_ident(vars, absent(), env) matches Ok((name, vars1, env1)) ==> added(
            vars,
            env,
            vars1,
            env1,
        ) && vars1.len() == vars.len() + 1 && vars1.last().children[0] == ident_pat(name),
{
    match ref_ident(vars, absent(), env) {
        Err(_) => {},
        Ok((name, vars1, env1)) => {
            let d = declarator(dummy(), ident_pat(name), absent());
            assert(d.children[0] == ident_pat(name));
            assert(name_of(d.children[0]) == name);
            assert(vars1 == vars.push(d));
            crate::growth::lemma_private(env, dummy(), "ref"@);
            if env.wf() {
                law_fresh(env, dummy(), "ref"@);
            }
        },
    }
}

/// Lowering assignments declares names that are spelled `ref`, without values, and changes nothing
/// else that is declared. The names are new, and no two of them are the same.
pub proof fn law_vars(t: Tree, vars: Seq<Tree>, env: Env)
    ensures
        assign(t, vars, env) matches Ok((t1, vars1, env1)) ==> added(vars, env, vars1, env1),
    decreases weight(t), 2 * depth(t) + 10, 2 * size(t) + 1,
{
    if t.kind == Kind::Expr(ExprKind::Fn) || t.kind == Kind::Expr(ExprKind::Object) {
        match fold(t, env) {
            Err(_) => {},
            Ok((t1, env1)) => {
                law_grown(t, env);
                assert(added(vars, env, vars, env1));
                lemma_lower_assign(t1, vars, env1, weight(t));
                match lower_assign(t1, vars, env1, weight(t)) {
                    Err(_) => {},
                    Ok((t2, vars2, env2)) => lemma_trans(vars, env, vars, env1, vars2, env2),
                }
            },
        }
    } else {
        lemma_assign_all(t.children, Seq::empty(), vars, env);
        match assign_all(t.children, Seq::empty(), vars, env) {
            Err(_) => {},
            Ok((cs, vars1, env1)) => {
                lemma_lower_assign(with(t, cs), vars1, env1, weight(t));
                match lower_assign(with(t, cs), vars1, env1, weight(t)) {
                    Err(_) => {},
                    Ok((t2, vars2, env2)) => lemma_trans(vars, env, vars1, env1, vars2, env2),
                }
            },
        }
    }
}

proof fn lemma_assign_all(ts: Seq<Tree>, done: Seq<Tree>, vars: Seq<Tree>, env: Env)
    ensures
        assign_all(ts, done, vars, env) matches Ok((out, vars1, env1)) ==> added(
            vars,
            env,
            vars1,
            env1,
        ),
    decreases weights(ts), 2 * depths(ts) + 10, 2 * sizes(ts),
{
    if ts.len() > 0 {
        law_vars(ts[0], vars, env);
        match assign(ts[0], vars, env) {
            Err(_) => {},
            Ok((t, vars1, env1)) => {
                lemma_assign_all(ts.drop_first(), done.push(t), vars1, env1);
                match assign_all(ts.drop_first(), done.push(t), vars1, env1) {
                    Err(_) => {},
                    Ok((out, vars2, env2)) => lemma_trans(vars, env, vars1, env1, vars2, env2),
                }
            },
        }
    }
}

proof fn lemma_reassign(t: Tree, vars: Seq<Tree>, env: Env, bound: nat)
    ensures
        reassign(t, vars, env, bound) matches Ok((t1, vars1, env1)) ==> added(
            vars,
            env,
            vars1,
            env1,
        ),
    decreases bound, 0nat, 0nat,
{
    if weight(t) < bound {
        law_vars(t, vars, env);
    }
}

proof fn lemma_lower_assign(t: Tree, vars: Seq<Tree>, env: Env, bound: nat)
    ensures
        lower_assign(t, vars, env, bound) matches Ok((t1, vars1, env1)) ==> added(
            vars,
            env,
            vars1,
            env1,
        ),
    decreases bound, 3nat, 0nat,
{
    if t.children.len() == 2 {
        let left = t.children[0];
        let right = t.children[1];
        lemma_ref_ident(vars, env);
        match ref_ident(vars, absent(), env) {
            Err(_) => {},
            Ok((object, vars1, env1)) => {
                let first = seq![assign_expr(dummy(), ident_pat(object), right)];
                lemma_assign_elems(left.children, 0, object, first, vars1, env1, bound);
                match assign_elems(left.children, 0, object, first, vars1, env1, bound) {
                    Err(_) => {},
                    Ok((exprs, vars2, env2)) => lemma_trans(vars, env, vars1, env1, vars2, env2),
                }
                let first = seq![assign_expr(left.span, ident_pat(object), right)];
                lemma_assign_props(left.children, 0, object, first, vars1, env1);
                match assign_props(left.children, 0, object, first, vars1, env1) {
                    Err(_) => {},
                    Ok((exprs, vars2, env2)) => lemma_trans(vars, env, vars1, env1, vars2, env2),
                }
            },
        }
    }
}

proof fn lemma_assign_elem(
    elem: Tree,
    i: int,
    object: Name,
    exprs: Seq<Tree>,
    vars: Seq<Tree>,
    env: Env,
    bound: nat,
)
    ensures
        assign_elem(elem, i, object, exprs, vars, env, bound) matches Ok((exprs1, vars1, env1))
            ==> added(vars, env, vars1, env1),
    decreases bound, 1nat, 0nat,
{
    match elem.kind {
        Kind::Pat(PatKind::Assign) => if elem.children.len() == 2 {
            lemma_ref_ident(vars, env);
            match ref_ident(vars, absent(), env) {
                Err(_) => {},
                Ok((tmp, vars1, env1)) => {
                    let sub = assign_expr(
                        elem.span,
                        elem.children[0],
                        cond_expr(tmp, elem.children[1]),
                    );
                    lemma_reassign(sub, vars1, env1, bound);
                    match reassign(sub, vars1, env1, bound) {
                        Err(_) => {},
                        Ok((t, vars2, env2)) => lemma_trans(vars, env, vars1, env1, vars2, env2),
                    }
                },
            }
        },
        Kind::Pat(PatKind::Rest { dot3 }) => lemma_reassign(
            assign_expr(elem.span, elem.children[0], slice_call(object, i, dummy())),
            vars,
            env,
            bound,
        ),
        _ => lemma_reassign(
            assign_expr(elem.span, elem, ref_idx_expr(object, i)),
            vars,
            env,
            bound,
        ),
    }
}

proof fn lemma_assign_elems(
    elems: Seq<Tree>,
    i: nat,
    object: Name,
    exprs: Seq<Tree>,
    vars: Seq<Tree>,
    env: Env,
    bound: nat,
)
    ensures
        assign_elems(elems, i, object, exprs, vars, env, bound) matches Ok((exprs1, vars1, env1))
            ==> added(vars, env, vars1, env1),
    decreases bound, 1nat, 1 + elems.len() - i,
{
    if i < elems.len() {
        let elem = elems[i as int];
        if elem.kind == Kind::Absent {
            lemma_assign_elems(elems, i + 1, object, exprs, vars, env, bound);
        } else {
            lemma_assign_elem(elem, i as int, object, exprs, vars, env, bound);
            match assign_elem(elem, i as int, object, exprs, vars, env, bound) {
                Err(_) => {},
                Ok((exprs1, vars1, env1)) => {
                    lemma_assign_elems(elems, i + 1, object, exprs1, vars1, env1, bound);
                    match assign_elems(elems, i + 1, object, exprs1, vars1, env1, bound) {
                        Err(_) => {},
                        Ok((exprs2, vars2, env2)) => lemma_trans(
                            vars,
                            env,
                            vars1,
                            env1,
                            vars2,
                            env2,
                        ),
                    }
                },
            }
        }
    }
}

proof fn lemma_assign_props(
    props: Seq<Tree>,
    i: nat,
    object: Name,
    exprs: Seq<Tree>,
    vars: Seq<Tree>,
    env: Env,
)
    ensures
        assign_props(props, i, object, exprs, vars, env) matches Ok((exprs1, vars1, env1))
            ==> added(vars, env, vars1, env1),
    decreases props.len() - i,
{
    if i < props.len() {
        lemma_ref_ident(vars, env);
        match assign_prop(props[i as int], object, exprs, vars, env) {
            Err(_) => {},
            Ok((exprs1, vars1, env1)) => {
                assert(added(vars, env, vars1, env1));
                lemma_assign_props(props, i + 1, object, exprs1, vars1, env1);
                match assign_props(props, i + 1, object, exprs1, vars1, env1) {
                    Err(_) => {},
                    Ok((exprs2, vars2, env2)) => lemma_trans(vars, env, vars1, env1, vars2, env2),
                }
            },
        }
    }
}

/// The first of the assignments stays the first.
proof fn lemma_elems_first(
    elems: Seq<Tree>,
    i: nat,
    object: Name,
    exprs: Seq<Tree>,
    vars: Seq<Tree>,
    env: Env,
    bound: nat,
)
    requires
        exprs.len() > 0,
    ensures
        assign_elems(elems, i, object, exprs, vars, env, bound) matches Ok((exprs1, vars1, env1))
            ==> exprs1.len() >= exprs.len() && exprs1[0] == exprs[0],
    decreases elems.len() - i,
{
    if i < elems.len() {
        let elem = elems[i as int];
        if elem.kind == Kind::Absent {
            lemma_elems_first(elems, i + 1, object, exprs, vars, env, bound);
        } else {
            match assign_elem(elem, i as int, object, exprs, vars, env, bound) {
                Err(_) => {},
                Ok((exprs1, vars1, env1)) => lemma_elems_first(
                    elems,
                    i + 1,
                    object,
                    exprs1,
                    vars1,
                    env1,
                    bound,
                ),
            }
        }
    }
}

/// The first of the assignments stays the first.
proof fn lemma_props_first(
    props: Seq<Tree>,
    i: nat,
    object: Name,
    exprs: Seq<Tree>,
    vars: Seq<Tree>,
    env: Env,
)
    requires
        exprs.len() > 0,
    ensures
        assign_props(props, i, object, exprs, vars, env) matches Ok((exprs1, vars1, env1))
            ==> exprs1.len() >= exprs.len() && exprs1[0] == exprs[0],
    decreases props.len() - i,
{
    if i < props.len() {
        match assign_prop(props[i as int], object, exprs, vars, env) {
            Err(_) => {},
            Ok((exprs1, vars1, env1)) => lemma_props_first(
                props,
                i + 1,
                object,
                exprs1,
                vars1,
                env1,
            ),
        }
    }
}

/// An assignment to an array or object pattern becomes a sequence. It first gives the value that is
/// assigned to a name, and ends with that name, so that its value is the value of the assignment.
/// The name is one of those that are declared for it.
#[verifier::rlimit(60)]
pub proof fn law_value(t: Tree, vars: Seq<Tree>, env: Env)
    requires
        t.kind == Kind::Expr(ExprKind::Assign(AssignOp::Assign)),
        t.children.len() == 2,
        t.children[0].kind == Kind::Pat(PatKind::Array) || t.children[0].kind == Kind::Pat(
            PatKind::Object,
        ),
    ensures
        assign(t, vars, env) matches Ok((t1, vars1, env1)) ==> {
            let name = name_of(t1.children.last());
            &&& t1.kind == Kind::Expr(ExprKind::Sequence)
            &&& t1.children.len() >= 2
            &&& t1.children.last() == ident_expr(name)
            &&& t1.children[0].kind == Kind::Expr(ExprKind::Assign(AssignOp::Assign))
            &&& t1.children[0].children.len() == 2
            &&& t1.children[0].children[0] == ident_pat(name)
            &&& assigned(t.children[1], t1.children[0].children[1])
            &&& exists|i: int|
                vars.len() <= i < vars1.len() && (#[trigger] vars1[i]).children[0] == ident_pat(
                    name,
                )
        },
{
    crate::shrink::lemma_assign_all_each(t.children, Seq::empty(), vars, env);
    lemma_assign_all(t.children, Seq::empty(), vars, env);
    match assign_all(t.children, Seq::empty(), vars, env) {
        Err(_) => {},
        Ok((cs, vars1, env1)) => {
            assert(assigned(t.children[0], cs.skip(0)[0]));
            assert(assigned(t.children[1], cs.skip(0)[1]));
            crate::shrink::lemma_assign_kind(t.children[0], cs[0]);
            let left = cs[0];
            let right = cs[1];
            assert(with(t, cs).children == cs);
            lemma_ref_ident(vars1, env1);
            match ref_ident(vars1, absent(), env1) {
                Err(_) => {},
                Ok((object, vars2, env2)) => {
                    let span = if left.kind == Kind::Pat(PatKind::Array) {
                        dummy()
                    } else {
                        left.span
                    };
                    let first = assign_expr(span, ident_pat(object), right);
                    let bound = weight(t);
                    lemma_elems_first(left.children, 0, object, seq![first], vars2, env2, bound);
                    lemma_props_first(left.children, 0, object, seq![first], vars2, env2);
                    lemma_assign_elems(left.children, 0, object, seq![first], vars2, env2, bound);
                    lemma_assign_props(left.children, 0, object, seq![first], vars2, env2);
                    match assign(t, vars, env) {
                        Err(_) => {},
                        Ok((t1, vars3, env3)) => {
                            assert(lower_assign(with(t, cs), vars1, env1, bound) == assign(
                                t,
                                vars,
                                env,
                            ));
                            assert(t1.children[0] == first);
                            assert(t1.children.last() == ident_expr(object));
                            assert(added(vars2, env2, vars3, env3));
                            let i = vars1.len() as int;
                            assert(vars3[i] == vars2[i]);
                            assert(vars3[i].children[0] == ident_pat(object));
                        },
                    }
                },
            }
        },
    }
}

} // verus!
