//! What the pass keeps: nodes that it does not take apart, and the statements of a list and of the
//! body of a loop or a function, all of them and in their order.
use crate::ast::{
    AssignOp, ExprKind, Kind, MemberKind, PartKind, PatKind, PropKind, Span, StmtKind, Tree,
    VarDeclKind,
};
use crate::factory::{declarator, dummy, ident_expr, var_decl};
use crate::growth::law_fresh;
use crate::hygiene::{Env, Name};
use crate::meaning::{below, binds, declares_all, outline, runs, value, Event, Right, Value};
use crate::measure::{any_complex, any_pattern, complex_head, is_stmts, weight, weights};
use crate::quiet::active;
use crate::reach::taken;
use crate::reading::{all_ready, ready};
use crate::rules::{
    all_decls, assign, assign_all, assign_stmts, declare_vars, fold, fold_all, fold_arrow,
    fold_catch, fold_constructor, fold_decls, fold_fn_like, fold_for, fold_function, fold_setter,
    init_all, is_decl, refold, split_params, with,
};
use crate::shrink::{assigned, folded, is_loop};
use crate::unpacking::{param_name, replaced, unpacked};
use vstd::prelude::*;

verus! {

/// Whether the second row holds what becomes of the first one, tree by tree.
pub open spec fn folded_each(ts: Seq<Tree>, ts1: Seq<Tree>) -> bool {
    ts1.len() == ts.len() && forall|i: int|
        0 <= i < ts.len() ==> folded(ts[i], #[trigger] ts1[i])
}

/// Whether the second row holds what becomes of the assignments in the first one, tree by tree.
pub open spec fn assigned_each(ts: Seq<Tree>, ts1: Seq<Tree>) -> bool {
    ts1.len() == ts.len() && forall|i: int|
        0 <= i < ts.len() ==> assigned(ts[i], #[trigger] ts1[i])
}

/// Whether these are the same node but for their children.
pub open spec fn same_node(t: Tree, t1: Tree) -> bool {
    t1.kind == t.kind && t1.text == t.text && t1.span == t.span
}

/// Trees are gone over one by one.
pub proof fn law_each(ts: Seq<Tree>, env: Env)
    ensures
        fold_all(ts, Seq::empty(), env) matches Ok((ts1, env1)) ==> folded_each(ts, ts1),
{
    crate::shrink::lemma_fold_all_each(ts, Seq::empty(), env);
    match fold_all(ts, Seq::empty(), env) {
        Err(_) => {},
        Ok((ts1, env1)) => {
            assert(ts1.skip(0) =~= ts1);
            assert forall|i: int| 0 <= i < ts.len() implies folded(ts[i], #[trigger] ts1[i]) by {
                assert(folded(ts[i], ts1.skip(0)[i]));
            }
        },
    }
}

/// Every node stays what it is, and where it is. One that is no function, list of statements, loop
/// or declaration keeps its children, in their order, as far as nothing in them is lowered.
pub proof fn law_kept(t: Tree, env: Env)
    ensures
        fold(t, env) matches Ok((t1, env1)) ==> same_node(t, t1) && (!active(t.kind)
            ==> folded_each(t.children, t1.children)),
{
    law_each(t.children, env);
}

/// A declaration of single names keeps its declarators, in their order.
pub proof fn law_plain_declaration(t: Tree, env: Env)
    requires
        t.kind is Stmt,
        t.kind->Stmt_0 is VarDecl,
        !any_complex(t.children),
    ensures
        fold(t, env) matches Ok((t1, env1)) ==> folded_each(t.children, t1.children),
{
    law_each(t.children, env);
    match fold_all(t.children, Seq::empty(), env) {
        Err(_) => {},
        Ok((ds, env1)) => {
            assert forall|i: int| 0 <= i < ds.len() implies !crate::measure::complex_decl(
                #[trigger] ds[i],
            ) by {
                let d = t.children[i];
                assert(folded(d, ds[i]));
                assert(!crate::measure::complex_decl(d));
                lemma_kept_folded(d, ds[i]);
                if !active(d.kind) && d.children.len() == 2 {
                    assert(folded(d.children[0], ds[i].children[0]));
                    lemma_kept_folded(d.children[0], ds[i].children[0]);
                }
            }
            assert(!any_complex(ds));
        },
    }
}

proof fn lemma_kept_folded(t: Tree, t1: Tree)
    requires
        folded(t, t1),
    ensures
        same_node(t, t1),
        !active(t.kind) ==> folded_each(t.children, t1.children),
{
    let env = choose|env: Env| (#[trigger] fold(t, env)) matches Ok((x, env1)) && x == t1;
    law_kept(t, env);
}

/// When assignments are lowered, every node but an assignment stays what it is, and where it is. It
/// keeps its children, in their order, as far as there are no assignments in them. Function
/// expressions and objects are left to the lowering of declarations.
pub proof fn law_assign_kept(t: Tree, vars: Seq<Tree>, env: Env)
    requires
        t.kind != Kind::Expr(ExprKind::Assign(AssignOp::Assign)),
    ensures
        assign(t, vars, env) matches Ok((t1, vars1, env1)) ==> same_node(t, t1) && if t.kind
            == Kind::Expr(ExprKind::Fn) || t.kind == Kind::Expr(ExprKind::Object) {
            folded(t, t1) && vars1 == vars
        } else {
            assigned_each(t.children, t1.children)
        },
{
    crate::shrink::lemma_assign_all_each(t.children, Seq::empty(), vars, env);
    match assign(t, vars, env) {
        Err(_) => {},
        Ok((t1, vars1, env1)) => if t.kind == Kind::Expr(ExprKind::Fn) || t.kind == Kind::Expr(
            ExprKind::Object,
        ) {
            assert(fold(t, env) matches Ok((x, e)) && x == t1);
        } else {
            let (cs, vars2, env2) = assign_all(t.children, Seq::empty(), vars, env)->Ok_0;
            assert(cs.skip(0) =~= cs);
            assert(t1 == with(t, cs));
            assert forall|i: int| 0 <= i < cs.len() implies assigned(
                t.children[i],
                #[trigger] cs[i],
            ) by {
                assert(assigned(t.children[i], cs.skip(0)[i]));
            }
        },
    }
}

/// What is done to bind a value to the patterns of declarators, one after the other.
pub open spec fn binds_each(ds: Seq<Tree>, v: Value) -> Seq<Event>
    decreases ds.len(),
{
    if ds.len() == 0 {
        Seq::empty()
    } else {
        binds(outline(ds[0].children[0]), v, Right::Made) + binds_each(ds.drop_first(), v)
    }
}

/// The statements that the body of a loop runs.
pub open spec fn body_stmts(body: Tree) -> Seq<Tree> {
    if body.kind == Kind::Stmt(StmtKind::Block) {
        body.children
    } else {
        seq![body]
    }
}

proof fn lemma_init_all(ds: Seq<Tree>, name: Name, env: Env, n: nat, last: Env)
    requires
        all_decls(ds),
        forall|i: int|
            0 <= i < ds.len() ==> below(outline((#[trigger] ds[i]).children[0]), n),
        name.span.ctxt < env.contexts.len(),
        name.span.ctxt != 0,
    ensures
        all_ready(init_all(ds, name), env, n),
        declares_all(init_all(ds, name), Map::empty(), last) == binds_each(ds, Value::Name(name)),
    decreases ds.len(),
{
    let ts = init_all(ds, name);
    let e = ident_expr(name);
    crate::reading::lemma_made(name, e, true, 0, dummy());
    assert forall|i: int| 0 <= i < ts.len() implies ready(#[trigger] ts[i], env, n) by {
        assert(is_decl(ds[i]));
        assert(ts[i].children[0] == ds[i].children[0]);
        assert(ts[i].children[1] == e);
    }
    if ds.len() > 0 {
        let rest = ds.drop_first();
        assert forall|i: int| 0 <= i < rest.len() implies is_decl(#[trigger] rest[i]) && below(
            outline(rest[i].children[0]),
            n,
        ) by {
            assert(is_decl(ds[i + 1]));
        }
        lemma_init_all(rest, name, env, n, last);
        assert(ts.drop_first() =~= init_all(rest, name));
        assert(ts[0].children[0] == ds[0].children[0]);
        assert(ts[0].children[1] == e);
        assert(value(e, Map::empty(), last) == Value::Name(name));
    }
}

/// A loop over patterns becomes a loop over a new name, over the same object. Its body first
/// declares what the patterns bind when the value of that name is bound to them. Behind that stand
/// the statements of the old body, all of them and in their order. Any other loop stays as it is.
#[verifier::rlimit(40)]
pub proof fn law_loop_body(t: Tree, env: Env)
    requires
        is_loop(t.kind),
        t.children.len() == 3,
        env.wf(),
        complex_head(t) ==> all_decls(t.children[0].children) && forall|i: int|
            0 <= i < t.children[0].children.len() ==> below(
                outline((#[trigger] t.children[0].children[i]).children[0]),
                env.contexts.len(),
            ),
    ensures
        fold(t, env) is Ok ==> t.children[0].kind == Kind::Pat(PatKind::Ident) || (
        t.children[0].kind is Stmt && t.children[0].kind->Stmt_0 is VarDecl),
        fold(t, env) matches Ok((t1, env1)) ==> if !complex_head(t) {
            t1 == t && env1 == env
        } else {
            let left = t.children[0];
            let left1 = t1.children[0];
            let body1 = t1.children[2];
            let target = left1.children[0].children[0];
            let name = Name { text: target.text, span: target.span };
            let first = body1.children[0];
            &&& same_node(t, t1)
            &&& t1.children.len() == 3
            &&& t1.children[1] == t.children[1]
            &&& same_node(left, left1)
            &&& left1.children.len() == 1
            &&& is_decl(left1.children[0])
            &&& target.kind == Kind::Pat(PatKind::Ident)
            &&& target.children.len() == 0
            &&& name.text == "ref"@
            &&& name.span == (Span { lo: 0, hi: 0, ctxt: env.contexts.len() as u32 })
            &&& left1.children[0].children[1].kind == Kind::Absent
            &&& body1.kind == Kind::Stmt(StmtKind::Block)
            &&& t.children[2].kind == Kind::Stmt(StmtKind::Block) ==> same_node(
                t.children[2],
                body1,
            )
            &&& body1.children.len() > 0
            &&& body1.children.skip(1) == body_stmts(t.children[2])
            &&& first.kind == Kind::Stmt(
                StmtKind::VarDecl { kind: VarDeclKind::Let, declare: false },
            )
            &&& first.span == left.span
            &&& runs(first.children, Map::empty(), env.contexts.len() + 1, env1).0 == binds_each(
                left.children,
                Value::Name(name),
            )
        },
{
    assert(fold(t, env) == fold_for(t, env));
    let left = t.children[0];
    match fold_for(t, env) {
        Err(_) => {},
        Ok((t1, env2)) => if complex_head(t) {
            let (name, env1) = env.private_ident(dummy(), "ref"@)->Ok_0;
            law_fresh(env, dummy(), "ref"@);
            crate::growth::lemma_private(env, dummy(), "ref"@);
            let ready_ds = init_all(left.children, name);
            let (ds, last) = refold(ready_ds, env1, weight(t))->Ok_0;
            let n = env.contexts.len() + 1;
            assert(env1.contexts.len() == n);
            assert forall|i: int| 0 <= i < left.children.len() implies below(
                outline((#[trigger] left.children[i]).children[0]),
                n,
            ) by {
                lemma_below(outline(left.children[i].children[0]), env.contexts.len(), n);
            }
            lemma_init_all(left.children, name, env1, n, env2);
            crate::reading::lemma_fold_decls(ready_ds, env1, Map::empty(), n, env2);
            let body = t.children[2];
            let body1 = t1.children[2];
            let stmt = var_decl(VarDeclKind::Let, left.span, ds);
            if body.kind == Kind::Stmt(StmtKind::Block) {
                assert(body1.children == seq![stmt] + body.children);
                assert(body1.children.skip(1) =~= body.children);
            } else {
                assert(body1.children == seq![stmt, body]);
                assert(body1.children.skip(1) =~= seq![body]);
            }
            let d = declarator(dummy(), crate::factory::ident_pat(name), crate::factory::absent());
            assert(t1.children[0].children[0] == d);
            assert(d.children[0] == crate::factory::ident_pat(name));
            assert(d.children[1] == crate::factory::absent());
            assert(name == (Name {
                text: "ref"@,
                span: Span { lo: 0, hi: 0, ctxt: env.contexts.len() as u32 },
            }));
        },
    }
}

proof fn lemma_below(t: Tree, n: nat, m: nat)
    requires
        below(t, n),
        n <= m,
    ensures
        below(t, m),
    decreases t,
{
    assert forall|i: int| 0 <= i < t.children.len() implies below(#[trigger] t.children[i], m) by {
        lemma_below(t.children[i], n, m);
    }
}

/// What is done to bind the values of the names that take the places of parameters. These names
/// have the contexts from `n` on.
pub open spec fn binds_params(params: Seq<Tree>, n: nat) -> Seq<Event>
    decreases params.len(),
{
    if params.len() == 0 {
        Seq::empty()
    } else if taken(params[0]) {
        binds(outline(params[0]), Value::Name(param_name(params[0], n)), Right::Made)
            + binds_params(params.drop_first(), n + 1)
    } else {
        binds_params(params.drop_first(), n)
    }
}

/// Whether the parameters `params` of a body are replaced by `params1`, and what is in them is
/// bound at the start of the body: before the statements, which stay, in their order.
pub open spec fn takes(
    params: Seq<Tree>,
    stmts: Seq<Tree>,
    params1: Seq<Tree>,
    stmts1: Seq<Tree>,
    env: Env,
    env1: Env,
) -> bool {
    let n = env.contexts.len();
    let k = unpacked(params, n).len();
    &&& forall|i: int| 0 <= i < params.len() ==> (#[trigger] params[i]).kind is Pat
    &&& params1 == replaced(params, n)
    &&& if k == 0 {
        stmts1 == stmts
    } else {
        &&& stmts1.len() == stmts.len() + 1
        &&& stmts1.skip(1) == stmts
        &&& stmts1[0].kind == Kind::Stmt(
            StmtKind::VarDecl { kind: VarDeclKind::Let, declare: false },
        )
        &&& known_params(params, n) ==> runs(stmts1[0].children, Map::empty(), n + k, env1).0
            == binds_params(params, n)
    }
}

/// Whether every context in the parameters is one of the first `n`.
pub open spec fn known_params(params: Seq<Tree>, n: nat) -> bool {
    forall|i: int| 0 <= i < params.len() ==> below(outline(#[trigger] params[i]), n)
}

proof fn lemma_unpacked(params: Seq<Tree>, m: nat, n: nat, env: Env, k: nat, last: Env)
    requires
        known_params(params, m),
        m <= n,
        0 < n,
        n + unpacked(params, n).len() <= k,
        k <= env.contexts.len(),
        unpacked(params, n).len() > 0 ==> n + unpacked(params, n).len() <= u32::MAX + 1,
    ensures
        all_ready(unpacked(params, n), env, k),
        declares_all(unpacked(params, n), Map::empty(), last) == binds_params(params, n),
    decreases params.len(),
{
    let ds = unpacked(params, n);
    if params.len() > 0 {
        let rest = params.drop_first();
        assert forall|i: int| 0 <= i < rest.len() implies below(outline(#[trigger] rest[i]), m) by {
            assert(below(outline(params[i + 1]), m));
        }
        if taken(params[0]) {
            let name = param_name(params[0], n);
            let e = ident_expr(name);
            let d = declarator(params[0].span, params[0], e);
            let more = unpacked(rest, n + 1);
            lemma_unpacked(rest, m, n + 1, env, k, last);
            assert(ds == seq![d] + more);
            crate::reading::lemma_made(name, e, true, 0, dummy());
            assert(d.children[0] == params[0]);
            assert(d.children[1] == e);
            lemma_below(outline(params[0]), m, k);
            assert(name.span.ctxt == n);
            assert(ready(d, env, k));
            assert forall|i: int| 0 <= i < ds.len() implies ready(#[trigger] ds[i], env, k) by {
                if i > 0 {
                    assert(ds[i] == more[i - 1]);
                }
            }
            assert(ds.drop_first() =~= more);
            assert(ds[0] == d);
            assert(value(e, Map::empty(), last) == Value::Name(name));
        } else {
            lemma_unpacked(rest, m, n, env, k, last);
        }
    }
}

/// Every parameter is a pattern.
proof fn lemma_patterns(params: Seq<Tree>, done: Seq<Tree>, decls: Seq<Tree>, env: Env)
    ensures
        split_params(params, done, decls, env) is Ok ==> forall|i: int|
            0 <= i < params.len() ==> (#[trigger] params[i]).kind is Pat,
    decreases params.len(),
{
    if params.len() > 0 && split_params(params, done, decls, env) is Ok {
        let p = params[0];
        let rest = params.drop_first();
        if p.kind == Kind::Pat(PatKind::Ident) {
            lemma_patterns(rest, done.push(p), decls, env);
        } else if taken(p) {
            let (name, env1) = env.private_ident(p.span, "ref"@)->Ok_0;
            lemma_patterns(
                rest,
                done.push(crate::factory::ident_pat(name)),
                decls.push(declarator(p.span, p, ident_expr(name))),
                env1,
            );
        } else {
            lemma_patterns(rest, done, decls, env);
        }
        assert forall|i: int| 0 <= i < params.len() implies (#[trigger] params[i]).kind is Pat by {
            if i > 0 {
                assert(params[i] == rest[i - 1]);
            }
        }
    }
}

/// What becomes of the parameters and of the statements of a body.
pub proof fn law_takes(params: Seq<Tree>, stmts: Seq<Tree>, env: Env, bound: nat)
    requires
        env.wf(),
    ensures
        fold_fn_like(params, stmts, env, bound) matches Ok((params1, stmts1, env1)) ==> takes(
            params,
            stmts,
            params1,
            stmts1,
            env,
            env1,
        ),
{
    crate::unpacking::law_first(params, stmts, env, bound);
    lemma_patterns(params, Seq::empty(), Seq::empty(), env);
    crate::growth::lemma_split_params(params, Seq::empty(), Seq::empty(), env);
    match fold_fn_like(params, stmts, env, bound) {
        Err(_) => {},
        Ok((params1, stmts1, env2)) => {
            let n = env.contexts.len();
            let ds = unpacked(params, n);
            if ds.len() > 0 {
                let (ps, decls, env1) = split_params(params, Seq::empty(), Seq::empty(), env)->Ok_0;
                let (out, last) = fold_decls(ds, env1)->Ok_0;
                let stmt = var_decl(VarDeclKind::Let, dummy(), out);
                assert(stmts1 == seq![stmt] + stmts);
                assert(stmts1.skip(1) =~= stmts);
                assert(stmts1[0] == stmt);
                if known_params(params, n) {
                    let k = n + ds.len();
                    crate::unpacking::lemma_count(params, env);
                    lemma_unpacked(params, n, n, env1, k, env2);
                    crate::reading::lemma_fold_decls(ds, env1, Map::empty(), k, env2);
                }
            }
        },
    }
}

/// The parameters without those that are left out: a rest, and what can only be assigned to.
pub open spec fn kept_params(params: Seq<Tree>) -> Seq<Tree>
    decreases params.len(),
{
    if params.len() == 0 {
        Seq::empty()
    } else {
        let rest = kept_params(params.drop_first());
        match params[0].kind {
            Kind::Pat(PatKind::Rest { dot3 }) => rest,
            Kind::Pat(PatKind::Expr) => rest,
            Kind::Pat(_) => seq![params[0]] + rest,
            _ => rest,
        }
    }
}

/// How many of the parameters are more than names.
pub open spec fn patterns(ps: Seq<Tree>) -> nat
    decreases ps.len(),
{
    if ps.len() == 0 {
        0
    } else {
        (if ps[0].kind == Kind::Pat(PatKind::Ident) {
            0nat
        } else {
            1nat
        }) + patterns(ps.drop_first())
    }
}

/// Whether a parameter stays or has a new name in its place: `q` is that name, with a context that
/// is none of the first `n`.
pub open spec fn stands_for(p: Tree, q: Tree, n: nat) -> bool {
    if p.kind == Kind::Pat(PatKind::Ident) {
        q == p
    } else {
        &&& q.kind == Kind::Pat(PatKind::Ident)
        &&& q.text == "ref"@
        &&& q.children.len() == 0
        &&& q.span.lo == p.span.lo
        &&& q.span.hi == p.span.hi
        &&& q.span.ctxt >= n
    }
}

/// What is done to bind the value of each new name to the parameter in whose place it stands.
pub open spec fn binds_by(ps: Seq<Tree>, qs: Seq<Tree>) -> Seq<Event>
    decreases ps.len(),
{
    if ps.len() == 0 {
        Seq::empty()
    } else {
        let rest = binds_by(ps.drop_first(), qs.drop_first());
        if ps[0].kind == Kind::Pat(PatKind::Ident) {
            rest
        } else {
            binds(
                outline(ps[0]),
                Value::Name(Name { text: qs[0].text, span: qs[0].span }),
                Right::Made,
            ) + rest
        }
    }
}

proof fn lemma_places(params: Seq<Tree>, m: nat, n: nat)
    requires
        m <= n,
        forall|i: int| 0 <= i < params.len() ==> (#[trigger] params[i]).kind is Pat,
        unpacked(params, n).len() > 0 ==> n + unpacked(params, n).len() <= u32::MAX + 1,
    ensures
        ({
            let ps = kept_params(params);
            let qs = replaced(params, n);
            &&& qs.len() == ps.len()
            &&& forall|i: int| 0 <= i < ps.len() ==> stands_for(ps[i], #[trigger] qs[i], m)
            &&& unpacked(params, n).len() == patterns(ps)
            &&& binds_params(params, n) == binds_by(ps, qs)
        }),
    decreases params.len(),
{
    if params.len() > 0 {
        let p = params[0];
        let more = params.drop_first();
        assert forall|i: int| 0 <= i < more.len() implies (#[trigger] more[i]).kind is Pat by {
            assert(more[i] == params[i + 1]);
        }
        let ps = kept_params(params);
        let qs = replaced(params, n);
        if p.kind == Kind::Pat(PatKind::Ident) {
            lemma_places(more, m, n);
            let qs1 = replaced(more, n);
            assert(ps.drop_first() =~= kept_params(more));
            assert(qs.drop_first() =~= qs1);
            assert forall|i: int| 0 <= i < ps.len() implies stands_for(
                ps[i],
                #[trigger] qs[i],
                m,
            ) by {
                if i > 0 {
                    assert(qs[i] == qs1[i - 1]);
                }
            }
        } else if taken(p) {
            lemma_places(more, m, n + 1);
            let qs1 = replaced(more, n + 1);
            assert(ps.drop_first() =~= kept_params(more));
            assert(qs.drop_first() =~= qs1);
            assert(qs[0] == crate::factory::ident_pat(param_name(p, n)));
            assert forall|i: int| 0 <= i < ps.len() implies stands_for(
                ps[i],
                #[trigger] qs[i],
                m,
            ) by {
                if i > 0 {
                    assert(qs[i] == qs1[i - 1]);
                }
            }
        } else {
            lemma_places(more, m, n);
        }
    }
}

/// Every parameter that is not left out keeps its place: a name stays, and any other is replaced by
/// a new name. The value of each new name is bound, by the first statement of the body and in the
/// order of the parameters, to the parameter in whose place it stands.
pub proof fn law_places(params: Seq<Tree>, stmts: Seq<Tree>, env: Env, bound: nat)
    requires
        env.wf(),
        known_params(params, env.contexts.len()),
    ensures
        fold_fn_like(params, stmts, env, bound) matches Ok((qs, stmts1, env1)) ==> {
            let ps = kept_params(params);
            let n = env.contexts.len();
            &&& qs.len() == ps.len()
            &&& forall|i: int| 0 <= i < ps.len() ==> stands_for(ps[i], #[trigger] qs[i], n)
            &&& if patterns(ps) == 0 {
                stmts1 == stmts
            } else {
                &&& stmts1.len() == stmts.len() + 1
                &&& stmts1.skip(1) == stmts
                &&& runs(stmts1[0].children, Map::empty(), n + patterns(ps), env1).0 == binds_by(
                    ps,
                    qs,
                )
            }
        },
{
    law_takes(params, stmts, env, bound);
    crate::unpacking::lemma_count(params, env);
    match fold_fn_like(params, stmts, env, bound) {
        Err(_) => {},
        Ok((qs, stmts1, env1)) => lemma_places(params, env.contexts.len(), env.contexts.len()),
    }
}

/// The parameters of a function with a body are taken apart at the start of the body.
pub proof fn law_function(t: Tree, env: Env)
    requires
        t.kind is Part,
        t.kind->Part_0 is Function,
        t.children.len() == 3,
        env.wf(),
    ensures
        fold(t, env) matches Ok((t1, env2)) ==> if t.children[2].kind == Kind::Absent {
            t1 == t
        } else {
            &&& fold_all(t.children, Seq::empty(), env) matches Ok((cs, env1)) && folded_each(
                t.children,
                cs,
            ) && t1.children.len() == 3 && same_node(cs[0], t1.children[0]) && t1.children[1]
                == cs[1] && same_node(cs[2], t1.children[2]) && takes(
                cs[0].children,
                cs[2].children,
                t1.children[0].children,
                t1.children[2].children,
                env1,
                env2,
            )
        },
{
    assert(fold(t, env) == fold_function(t, env));
    law_each(t.children, env);
    crate::growth::lemma_fold_all(t.children, Seq::empty(), env);
    match fold_all(t.children, Seq::empty(), env) {
        Err(_) => {},
        Ok((cs, env1)) => law_takes(cs[0].children, cs[2].children, env1, weight(t)),
    }
}

/// The parameters of a constructor with a body are taken apart at the start of the body.
pub proof fn law_constructor(t: Tree, env: Env)
    requires
        t.kind == Kind::Member(MemberKind::Constructor),
        t.children.len() == 3,
        env.wf(),
    ensures
        fold(t, env) matches Ok((t1, env2)) ==> if t.children[2].kind == Kind::Absent {
            t1 == t
        } else {
            &&& fold_all(t.children, Seq::empty(), env) matches Ok((cs, env1)) && folded_each(
                t.children,
                cs,
            ) && t1.children.len() == 3 && t1.children[0] == cs[0] && same_node(
                cs[1],
                t1.children[1],
            ) && same_node(cs[2], t1.children[2]) && takes(
                cs[1].children,
                cs[2].children,
                t1.children[1].children,
                t1.children[2].children,
                env1,
                env2,
            )
        },
{
    assert(fold(t, env) == fold_constructor(t, env));
    law_each(t.children, env);
    crate::growth::lemma_fold_all(t.children, Seq::empty(), env);
    match fold_all(t.children, Seq::empty(), env) {
        Err(_) => {},
        Ok((cs, env1)) => law_takes(cs[1].children, cs[2].children, env1, weight(t)),
    }
}

/// The parameter of a setter with a body is taken apart at the start of the body.
pub proof fn law_setter(t: Tree, env: Env)
    requires
        t.kind == Kind::Prop(PropKind::Setter),
        t.children.len() == 3,
        env.wf(),
    ensures
        fold(t, env) matches Ok((t1, env2)) ==> if t.children[2].kind == Kind::Absent {
            t1 == t
        } else {
            &&& fold_all(t.children, Seq::empty(), env) matches Ok((cs, env1)) && folded_each(
                t.children,
                cs,
            ) && t1.children.len() == 3 && t1.children[0] == cs[0] && same_node(
                cs[2],
                t1.children[2],
            ) && takes(
                seq![cs[1]],
                cs[2].children,
                seq![t1.children[1]],
                t1.children[2].children,
                env1,
                env2,
            )
        },
{
    assert(fold(t, env) == fold_setter(t, env));
    law_each(t.children, env);
    crate::growth::lemma_fold_all(t.children, Seq::empty(), env);
    match fold_all(t.children, Seq::empty(), env) {
        Err(_) => {},
        Ok((cs, env1)) => {
            law_takes(seq![cs[1]], cs[2].children, env1, weight(t));
            match fold_fn_like(seq![cs[1]], cs[2].children, env1, weight(t)) {
                Err(_) => {},
                Ok((ps, ss, env2)) => if ps.len() == 1 {
                    assert(ps =~= seq![ps[0]]);
                },
            }
        },
    }
}

/// The parameter of a catch clause is taken apart at the start of its body. A rest is left out.
pub proof fn law_catch(t: Tree, env: Env)
    requires
        t.kind == Kind::Part(PartKind::Catch),
        t.children.len() == 2,
        env.wf(),
    ensures
        fold(t, env) matches Ok((t1, env2)) ==> {
            &&& fold_all(t.children, Seq::empty(), env) matches Ok((cs, env1)) && folded_each(
                t.children,
                cs,
            ) && t1.children.len() == 2 && same_node(cs[1], t1.children[1]) && if cs[0].kind
                == Kind::Absent {
                t1.children == cs
            } else {
                takes(
                    seq![cs[0]],
                    cs[1].children,
                    if t1.children[0].kind == Kind::Absent {
                        Seq::empty()
                    } else {
                        seq![t1.children[0]]
                    },
                    t1.children[1].children,
                    env1,
                    env2,
                )
            }
        },
{
    assert(fold(t, env) == fold_catch(t, env));
    law_each(t.children, env);
    crate::growth::lemma_fold_all(t.children, Seq::empty(), env);
    match fold_all(t.children, Seq::empty(), env) {
        Err(_) => {},
        Ok((cs, env1)) => {
            law_takes(seq![cs[0]], cs[1].children, env1, weight(t));
            match fold_fn_like(seq![cs[0]], cs[1].children, env1, weight(t)) {
                Err(_) => {},
                Ok((ps, ss, env2)) => {
                    let one = seq![cs[0]];
                    assert(one.drop_first() =~= Seq::empty());
                    let n = env1.contexts.len();
                    assert(replaced(Seq::<Tree>::empty(), n) =~= Seq::empty());
                    assert(replaced(Seq::<Tree>::empty(), n + 1) =~= Seq::empty());
                    assert(replaced(one, n).len() <= 1);
                    if ps.len() > 0 {
                        assert(ps =~= seq![ps[0]]);
                    } else {
                        assert(ps =~= Seq::empty());
                    }
                },
            }
        },
    }
}

/// The parameters of an arrow function are taken apart at the start of its body. Where the body is
/// an expression and something is taken apart, it is returned behind that.
pub proof fn law_arrow(t: Tree, env: Env)
    requires
        t.kind is Expr,
        t.kind->Expr_0 is Arrow,
        t.children.len() == 2,
        env.wf(),
    ensures
        fold(t, env) matches Ok((t1, env2)) ==> {
            &&& fold_all(t.children, Seq::empty(), env) matches Ok((cs, env1)) && folded_each(
                t.children,
                cs,
            ) && t1.children.len() == 2 && same_node(cs[0], t1.children[0]) && {
                let body = t1.children[1];
                let nothing = unpacked(cs[0].children, env1.contexts.len()).len() == 0;
                if cs[1].kind == Kind::Stmt(StmtKind::Block) {
                    same_node(cs[1], body) && takes(
                        cs[0].children,
                        cs[1].children,
                        t1.children[0].children,
                        body.children,
                        env1,
                        env2,
                    )
                } else if nothing {
                    body == cs[1] && t1.children[0].children == replaced(
                        cs[0].children,
                        env1.contexts.len(),
                    )
                } else {
                    let value = body.children[1];
                    &&& body.kind == Kind::Stmt(StmtKind::Block)
                    &&& body.span == cs[1].span
                    &&& body.children.len() == 2
                    &&& value.kind == Kind::Stmt(StmtKind::Return)
                    &&& value.span == cs[1].span
                    &&& value.children == seq![cs[1]]
                    &&& takes(
                        cs[0].children,
                        seq![value],
                        t1.children[0].children,
                        body.children,
                        env1,
                        env2,
                    )
                }
            }
        },
{
    assert(fold(t, env) == fold_arrow(t, env));
    law_each(t.children, env);
    crate::growth::lemma_fold_all(t.children, Seq::empty(), env);
    match fold_all(t.children, Seq::empty(), env) {
        Err(_) => {},
        Ok((cs, env1)) => {
            let value = crate::rules::return_stmt(cs[1]);
            law_takes(cs[0].children, cs[1].children, env1, weight(t));
            law_takes(cs[0].children, seq![value], env1, weight(t));
            match fold_fn_like(cs[0].children, seq![value], env1, weight(t)) {
                Err(_) => {},
                Ok((ps, ss, env2)) => if unpacked(
                    cs[0].children,
                    env1.contexts.len(),
                ).len() > 0 {
                    assert(ss.skip(1)[0] == ss[1]);
                    assert(ss[1] == value);
                },
            }
        },
    }
}

/// Whether `out` starts with what becomes of a statement that was made `mid`: behind a declaration
/// of the names that its assignments need, if they need any.
pub open spec fn lays(t: Tree, mid: Tree, env: Env, out: Seq<Tree>) -> bool {
    &&& folded(t, mid)
    &&& assign(mid, Seq::empty(), env) matches Ok((t1, vars, env1)) && out.len() >= width(mid, env)
        && out[width(mid, env) - 1] == t1 && (vars.len() > 0 ==> out[0].kind == Kind::Stmt(
        StmtKind::VarDecl { kind: VarDeclKind::Var, declare: false },
    ) && out[0].children == vars)
}

/// How many statements stand for one.
pub open spec fn width(mid: Tree, env: Env) -> int {
    match assign(mid, Seq::empty(), env) {
        Err(_) => 0,
        Ok((t1, vars, env1)) => if vars.len() == 0 {
            1
        } else {
            2
        },
    }
}

/// Whether `out` holds what becomes of the statements, of all of them and in their order.
pub open spec fn laid(ts: Seq<Tree>, out: Seq<Tree>) -> bool
    decreases ts.len(),
{
    if ts.len() == 0 {
        out.len() == 0
    } else {
        exists|mid: Tree, env: Env| #[trigger]
            lays(ts[0], mid, env, out) && laid(ts.drop_first(), out.skip(width(mid, env)))
    }
}

proof fn lemma_laid(
    ts: Seq<Tree>,
    mids: Seq<Tree>,
    done: Seq<Tree>,
    env: Env,
    bound: nat,
    deep: nat,
)
    requires
        folded_each(ts, mids),
    ensures
        assign_stmts(mids, done, env, bound, deep) matches Ok((out, env1)) ==> out.len()
            >= done.len() && out.take(done.len() as int) == done && laid(
            ts,
            out.skip(done.len() as int),
        ),
    decreases ts.len(),
{
    match assign_stmts(mids, done, env, bound, deep) {
        Err(_) => {},
        Ok((out, env2)) => if ts.len() == 0 {
            assert(out.take(done.len() as int) =~= done);
        } else {
            let (t1, vars, env1) = assign(mids[0], Seq::empty(), env)->Ok_0;
            let done1 = declare_vars(done, vars, t1);
            let rest = ts.drop_first();
            let more = mids.drop_first();
            assert forall|i: int| 0 <= i < rest.len() implies folded(
                rest[i],
                #[trigger] more[i],
            ) by {
                assert(folded(ts[i + 1], mids[i + 1]));
            }
            lemma_laid(rest, more, done1, env1, bound, deep);
            let n = done.len() as int;
            let w = width(mids[0], env);
            assert(done1.len() == n + w);
            assert(out.take(n) =~= done1.take(n));
            assert(done1.take(n) =~= done);
            let tail = out.skip(n);
            assert(tail.skip(w) =~= out.skip(n + w));
            assert(tail[w - 1] == out.take(n + w)[n + w - 1]);
            assert(tail[0] == out.take(n + w)[n]);
            assert(folded(ts[0], mids[0]));
            assert(lays(ts[0], mids[0], env, tail));
        },
    }
}

/// A list of statements in which no pattern stands stays as it is. Of any other, every statement is
/// kept, in its order: first the declarations in it are lowered and then the assignments, and the
/// names that these need are declared right before it.
pub proof fn law_statements(t: Tree, env: Env)
    requires
        is_stmts(t.kind),
    ensures
        fold(t, env) matches Ok((t1, env1)) ==> same_node(t, t1) && if !any_pattern(t.children) {
            t1 == t && env1 == env
        } else {
            laid(t.children, t1.children)
        },
{
    law_each(t.children, env);
    if any_pattern(t.children) {
        match fold_all(t.children, Seq::empty(), env) {
            Err(_) => {},
            Ok((mids, env1)) => {
                let bound = weights(t.children);
                let deep = crate::measure::depths(t.children);
                lemma_laid(t.children, mids, Seq::empty(), env1, bound, deep);
                match assign_stmts(mids, Seq::empty(), env1, bound, deep) {
                    Err(_) => {},
                    Ok((out, env2)) => assert(out.skip(0) =~= out),
                }
            },
        }
    } else {
        assert(with(t, t.children) == t);
    }
}

} // verus!
