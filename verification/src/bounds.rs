//! That the bounds in the rules always hold, and that it does not matter which bound is taken.
use crate::ast::{AssignOp, ExprKind, Kind, MemberKind, PartKind, PatKind, PropKind, Tree};
use crate::factory::{absent, assign_expr, dummy, ident_pat};
use crate::hygiene::{Env, Name};
use crate::measure::{
    any_complex, complex_head, complex_pat, count_complex, depth, depths, weight, weights,
};
use crate::rules::{
    all_decls, assign, assign_all, assign_elem, assign_elems, assign_stmts, declare_vars, fold,
    fold_all, fold_decls, fold_fn_like, init_all, lower_assign, lower_decls, reassign, ref_ident,
    refold, split_params, with,
};
use crate::shrink::{is_loop, lemma_elem_assigns, lemma_fold_all_count, lemma_init_all};
use crate::weighing::{lemma_index, lemma_one, lemma_two};
use vstd::prelude::*;

verus! {

/// Declarators that hold less than the bound become what they become without one.
pub proof fn law_refold(ds: Seq<Tree>, env: Env, bound: nat)
    requires
        weights(ds) < bound,
    ensures
        refold(ds, env, bound) == fold_decls(ds, env),
{
}

/// An assignment that holds less than the bound becomes what it becomes without one.
pub proof fn law_reassign(t: Tree, vars: Seq<Tree>, env: Env, bound: nat)
    requires
        weight(t) < bound,
    ensures
        reassign(t, vars, env, bound) == assign(t, vars, env),
{
}

/// Declarators become the same under every bound that is no less than what they hold.
pub proof fn law_lower_decls(ds: Seq<Tree>, done: Seq<Tree>, env: Env, k: nat, m: nat)
    requires
        weights(ds) <= k,
        weights(ds) <= m,
    ensures
        lower_decls(ds, done, env, k) == lower_decls(ds, done, env, m),
{
    let none = Seq::<Tree>::empty();
    crate::joining::lemma_lower_decls(ds, none, done, env, k, m);
    assert(none + done =~= done);
    match lower_decls(ds, done, env, m) {
        Err(_) => {},
        Ok((out, env1)) => assert(none + out =~= out),
    }
}

/// In a list of declarators, every bound can be taken that is no less than what the list holds.
pub proof fn law_fold_decls(ds: Seq<Tree>, env: Env, bound: nat)
    requires
        weights(ds) <= bound,
    ensures
        fold_decls(ds, env) == match fold_all(ds, Seq::empty(), env) {
            Err(refusal) => Err(refusal),
            Ok((ds1, env1)) => if any_complex(ds1) {
                lower_decls(ds1, Seq::empty(), env1, bound)
            } else {
                Ok((ds1, env1))
            },
        },
{
    crate::shrink::lemma_fold_all(ds, Seq::empty(), env);
    match fold_all(ds, Seq::empty(), env) {
        Err(_) => {},
        Ok((ds1, env1)) => {
            assert(ds1.skip(0) =~= ds1);
            law_lower_decls(ds1, Seq::empty(), env1, weights(ds), bound);
        },
    }
}

/// An expression becomes the same under every bound that is no less than what it holds.
pub proof fn law_lower_assign(t: Tree, vars: Seq<Tree>, env: Env, k: nat, m: nat)
    requires
        weight(t) <= k,
        weight(t) <= m,
    ensures
        lower_assign(t, vars, env, k) == lower_assign(t, vars, env, m),
{
    if t.kind == Kind::Expr(ExprKind::Assign(AssignOp::Assign)) && t.children.len() == 2 {
        let left = t.children[0];
        let right = t.children[1];
        assert(t.children =~= seq![left, right]);
        lemma_two(left, right);
        if left.kind == Kind::Pat(PatKind::Array) {
            match ref_ident(vars, absent(), env) {
                Err(_) => {},
                Ok((object, vars1, env1)) => lemma_assign_elems(
                    left.children,
                    0,
                    object,
                    seq![assign_expr(dummy(), ident_pat(object), right)],
                    vars1,
                    env1,
                    k,
                    m,
                ),
            }
        }
    }
}

proof fn lemma_assign_elem(
    elem: Tree,
    i: int,
    object: Name,
    exprs: Seq<Tree>,
    vars: Seq<Tree>,
    env: Env,
    k: nat,
    m: nat,
)
    requires
        weight(elem) < k,
        weight(elem) < m,
    ensures
        assign_elem(elem, i, object, exprs, vars, env, k) == assign_elem(
            elem,
            i,
            object,
            exprs,
            vars,
            env,
            m,
        ),
{
    lemma_elem_assigns(elem, i, object, object);
    if elem.kind == Kind::Pat(PatKind::Assign) {
        match ref_ident(vars, absent(), env) {
            Err(_) => {},
            Ok((tmp, vars1, env1)) => lemma_elem_assigns(elem, i, object, tmp),
        }
    }
}

proof fn lemma_assign_elems(
    elems: Seq<Tree>,
    i: nat,
    object: Name,
    exprs: Seq<Tree>,
    vars: Seq<Tree>,
    env: Env,
    k: nat,
    m: nat,
)
    requires
        weights(elems) < k,
        weights(elems) < m,
    ensures
        assign_elems(elems, i, object, exprs, vars, env, k) == assign_elems(
            elems,
            i,
            object,
            exprs,
            vars,
            env,
            m,
        ),
    decreases elems.len() - i,
{
    if i < elems.len() {
        let elem = elems[i as int];
        if elem.kind == Kind::Absent {
            lemma_assign_elems(elems, i + 1, object, exprs, vars, env, k, m);
        } else {
            lemma_index(elems, i as int);
            lemma_assign_elem(elem, i as int, object, exprs, vars, env, k, m);
            match assign_elem(elem, i as int, object, exprs, vars, env, k) {
                Err(_) => {},
                Ok((exprs1, vars1, env1)) => lemma_assign_elems(
                    elems,
                    i + 1,
                    object,
                    exprs1,
                    vars1,
                    env1,
                    k,
                    m,
                ),
            }
        }
    }
}

/// In an expression, every bound can be taken that is no less than what the expression holds.
pub proof fn law_assign(t: Tree, vars: Seq<Tree>, env: Env, bound: nat)
    requires
        t.kind is Expr,
        weight(t) <= bound,
    ensures
        assign(t, vars, env) == if t.kind == Kind::Expr(ExprKind::Fn) || t.kind == Kind::Expr(
            ExprKind::Object,
        ) {
            match fold(t, env) {
                Err(refusal) => Err(refusal),
                Ok((t1, env1)) => lower_assign(t1, vars, env1, bound),
            }
        } else {
            match assign_all(t.children, Seq::empty(), vars, env) {
                Err(refusal) => Err(refusal),
                Ok((cs, vars1, env1)) => lower_assign(with(t, cs), vars1, env1, bound),
            }
        },
{
    crate::shrink::law_shrunk(t, env);
    match fold(t, env) {
        Err(_) => {},
        Ok((t1, env1)) => law_lower_assign(t1, vars, env1, weight(t), bound),
    }
    crate::shrink::lemma_assign_all(t.children, Seq::empty(), vars, env);
    match assign_all(t.children, Seq::empty(), vars, env) {
        Err(_) => {},
        Ok((cs, vars1, env1)) => {
            assert(cs.skip(0) =~= cs);
            assert(weight(t) == weights(t.children));
            assert(weight(with(t, cs)) == weights(cs));
            law_lower_assign(with(t, cs), vars1, env1, weight(t), bound);
        },
    }
}

/// Whether a statement holds no more destructuring than the bound, and where it holds as much, is
/// nested no deeper than `deep`.
pub open spec fn fits(t: Tree, bound: nat, deep: nat) -> bool {
    weight(t) < bound || (weight(t) == bound && depth(t) <= deep)
}

/// In a list of statements, every statement fits when its assignments are lowered.
pub proof fn law_fits(ts: Seq<Tree>, env: Env)
    ensures
        fold_all(ts, Seq::empty(), env) matches Ok((ts1, env1)) ==> forall|i: int|
            0 <= i < ts1.len() ==> fits(#[trigger] ts1[i], weights(ts), depths(ts)),
{
    crate::shrink::lemma_fold_all(ts, Seq::empty(), env);
    match fold_all(ts, Seq::empty(), env) {
        Err(_) => {},
        Ok((ts1, env1)) => {
            assert(ts1.skip(0) =~= ts1);
            assert forall|i: int| 0 <= i < ts1.len() implies fits(
                #[trigger] ts1[i],
                weights(ts),
                depths(ts),
            ) by {
                lemma_index(ts1, i);
            }
        },
    }
}

/// Statements become the same under all bounds that they fit.
pub proof fn law_assign_stmts(
    ts: Seq<Tree>,
    done: Seq<Tree>,
    env: Env,
    k: nat,
    deep: nat,
    m: nat,
    deep2: nat,
)
    requires
        forall|i: int| 0 <= i < ts.len() ==> fits(#[trigger] ts[i], k, deep),
        forall|i: int| 0 <= i < ts.len() ==> fits(#[trigger] ts[i], m, deep2),
    ensures
        assign_stmts(ts, done, env, k, deep) == assign_stmts(ts, done, env, m, deep2),
    decreases ts.len(),
{
    if ts.len() > 0 {
        assert(fits(ts[0], k, deep) && fits(ts[0], m, deep2));
        let rest = ts.drop_first();
        assert forall|i: int| 0 <= i < rest.len() implies fits(#[trigger] rest[i], k, deep) && fits(
            rest[i],
            m,
            deep2,
        ) by {
            assert(fits(ts[i + 1], k, deep) && fits(ts[i + 1], m, deep2));
        }
        match assign(ts[0], Seq::empty(), env) {
            Err(_) => {},
            Ok((t, vars, env1)) => law_assign_stmts(
                rest,
                declare_vars(done, vars, t),
                env1,
                k,
                deep,
                m,
                deep2,
            ),
        }
    }
}

/// The declarators in the head of a loop hold less than the loop when they have got a value.
pub proof fn law_loop(t: Tree, name: Name)
    requires
        is_loop(t.kind),
        t.children.len() == 3,
        complex_head(t),
        all_decls(t.children[0].children),
    ensures
        weights(init_all(t.children[0].children, name)) < weight(t),
{
    lemma_init_all(t.children[0].children, name);
    lemma_index(t.children, 0);
}

/// What the parameters of a function hold, those that are taken apart counted twice.
pub open spec fn params_weight(params: Seq<Tree>) -> nat {
    weights(params) + count_complex(params)
}

/// Parameters and a body become the same under every bound that is no less than what the parameters
/// hold.
pub proof fn law_fn_like(params: Seq<Tree>, stmts: Seq<Tree>, env: Env, k: nat, m: nat)
    requires
        params_weight(params) <= k,
        params_weight(params) <= m,
    ensures
        fold_fn_like(params, stmts, env, k) == fold_fn_like(params, stmts, env, m),
{
    crate::shrink::lemma_split_params(params, Seq::empty(), Seq::empty(), env);
    match split_params(params, Seq::empty(), Seq::empty(), env) {
        Err(_) => {},
        Ok((ps, decls, env1)) => if decls.len() > 0 {
            assert(weights(decls) < k && weights(decls) < m);
            assert(refold(decls, env1, k) == fold_decls(decls, env1));
            assert(refold(decls, env1, m) == fold_decls(decls, env1));
        },
    }
}

/// The parameters among the parts of something that has parameters, after these parts were lowered:
/// those of a function, a constructor or an arrow function, and those of a setter or a catch
/// clause, which has one.
pub open spec fn params_of(kind: Kind, parts: Seq<Tree>) -> Seq<Tree> {
    match kind {
        Kind::Member(MemberKind::Constructor) => parts[1].children,
        Kind::Prop(PropKind::Setter) => seq![parts[1]],
        Kind::Part(PartKind::Catch) => seq![parts[0]],
        _ => parts[0].children,
    }
}

/// Whether this is something with parameters whose parts are all there.
pub open spec fn has_params(t: Tree) -> bool {
    match t.kind {
        Kind::Part(PartKind::Function { is_async, is_generator }) => t.children.len() == 3
            && t.children[0].kind == Kind::Part(PartKind::Params),
        Kind::Member(MemberKind::Constructor) => t.children.len() == 3 && t.children[1].kind
            == Kind::Part(PartKind::Params),
        Kind::Prop(PropKind::Setter) => t.children.len() == 3,
        Kind::Part(PartKind::Catch) => t.children.len() == 2,
        Kind::Expr(ExprKind::Arrow { is_async, is_generator }) => t.children.len() == 2
            && t.children[0].kind == Kind::Part(PartKind::Params),
        _ => false,
    }
}

/// The parameters of a function, a constructor, a setter, a catch clause or an arrow function hold
/// no more than the whole.
pub proof fn law_params_bound(t: Tree, env: Env)
    requires
        has_params(t),
    ensures
        fold_all(t.children, Seq::empty(), env) matches Ok((cs, env1)) ==> params_weight(
            params_of(t.kind, cs),
        ) <= weight(t),
{
    crate::shrink::lemma_fold_all(t.children, Seq::empty(), env);
    lemma_fold_all_count(t.children, env);
    match fold_all(t.children, Seq::empty(), env) {
        Err(_) => {},
        Ok((cs, env1)) => {
            assert(cs.skip(0) =~= cs);
            let i: int = match t.kind {
                Kind::Member(MemberKind::Constructor) => 1,
                Kind::Prop(PropKind::Setter) => 1,
                _ => 0,
            };
            assert(cs[i].kind == t.children[i].kind);
            lemma_index(cs, i);
            lemma_one(cs[i]);
            lemma_count(cs, i);
        },
    }
}

proof fn lemma_count(ts: Seq<Tree>, i: int)
    requires
        0 <= i < ts.len(),
    ensures
        complex_pat(ts[i]) ==> count_complex(ts) > 0,
    decreases ts.len(),
{
    if i > 0 {
        lemma_count(ts.drop_first(), i - 1);
    }
}

} // verus!
