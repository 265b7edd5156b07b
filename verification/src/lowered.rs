//! The pass handles every tree whose patterns stand where it takes them apart, and leaves none.
use crate::ast::{
    AssignOp, ExprKind, Kind, MemberKind, PartKind, PatKind, PatPropKind, PropKind, Span, StmtKind,
    Tree, VarDeclKind,
};
use crate::factory::{
    absent, assign_expr, cond_expr, declarator, dummy, helper_call, ident_expr, ident_pat, inner,
    non_null_expr, prop_name_expr, ref_idx_expr, ref_prop_expr, seq_expr, slice_call, var_decl,
};
use crate::hygiene::{Env, Name, Refusal};
use crate::measure::{
    any_complex, any_pattern, complex_decl, count_complex, depth, depths, has_pattern, is_stmts,
    size, sizes, weight, weights,
};
use crate::nullness::nullable;
use crate::quiet::active;
use crate::reach::{
    after, all_ok, any_taken, below, fits, lowers, ok, param_mode, still_mode, stmts_mode, taken,
    Mode, Role,
};
use crate::rules::{
    alias_ident, array_ident, assign, assign_all, assign_elem, assign_elems, assign_prop,
    assign_props, assign_stmts, copied_array, copied_object, declare_vars, elem_decl, fold,
    fold_all, fold_arrow, fold_catch, fold_constructor, fold_decls, fold_fn_like, fold_for,
    fold_function, fold_setter, fold_stmts, init_all, lower_assign, lower_decl, lower_decls,
    lower_elems, lower_prop, lower_props, name_of, non_null_ident, object_ident, prepend, reassign,
    ref_ident, refold, return_stmt, split_params, tmp_ident, with,
};
use crate::shrink::{folded, is_loop};
use crate::standing::{
    lemma_clean, lemma_fold_nullable, lemma_no_pattern, lemma_ok1, lemma_ok2, lemma_ok3,
    lemma_ok_cond, lemma_ok_elem_exprs, lemma_ok_helper_call, lemma_ok_member, lemma_ok_names,
    lemma_ok_non_null, lemma_weaken, weaker,
};
use vstd::prelude::*;

verus! {

/// Whether names can be made: there is a root mark, and the helpers carry another.
pub open spec fn usable(env: Env) -> bool {
    env.marks.len() > 0 && env.helpers.mark != 0
}

/// Whether a tree came out that can stand for `r` where the rounds `m` are to come, or none because
/// the table is full.
pub open spec fn good(res: Result<(Tree, Env), Refusal>, r: Role, m: Mode) -> bool {
    match res {
        Ok((t, env)) => ok(r, m, t) && usable(env),
        Err(refusal) => refusal is Full,
    }
}

/// Whether such trees came out.
pub open spec fn good_all(res: Result<(Seq<Tree>, Env), Refusal>, r: Role, m: Mode) -> bool {
    match res {
        Ok((ts, env)) => all_ok(r, m, ts) && usable(env),
        Err(refusal) => refusal is Full,
    }
}

/// Whether a name came out, with declarators of names.
spec fn good_name(res: Result<(Name, Seq<Tree>, Env), Refusal>, m: Mode) -> bool {
    match res {
        Ok((name, ds, env)) => all_ok(Role::Simple, m, ds) && usable(env),
        Err(refusal) => refusal is Full,
    }
}

/// Whether the lowering of declarations goes over what stands for this.
spec fn walked(r: Role) -> bool {
    !(r is ForHead || r is ForDecl || r is Dropped)
}

/// What each child of a node stands for.
spec fn states(r: Role, m: Mode, t: Tree) -> Seq<(Role, Mode)> {
    Seq::new(t.children.len(), |i: int| below(r, m, t, i))
}

proof fn lemma_push_ok(r: Role, m: Mode, ts: Seq<Tree>, t: Tree)
    requires
        all_ok(r, m, ts),
        ok(r, m, t),
    ensures
        all_ok(r, m, ts.push(t)),
{
    assert forall|i: int| 0 <= i < ts.push(t).len() implies ok(
        r,
        m,
        #[trigger] ts.push(t)[i],
    ) by {
        if i < ts.len() {
            assert(ts.push(t)[i] == ts[i]);
        }
    }
}

proof fn lemma_add_ok(r: Role, m: Mode, a: Seq<Tree>, b: Seq<Tree>)
    requires
        all_ok(r, m, a),
        all_ok(r, m, b),
    ensures
        all_ok(r, m, a + b),
{
    assert forall|i: int| 0 <= i < (a + b).len() implies ok(r, m, #[trigger] (a + b)[i]) by {
        if i < a.len() {
            assert((a + b)[i] == a[i]);
        } else {
            assert((a + b)[i] == b[i - a.len()]);
        }
    }
}

proof fn lemma_weaken_all(r: Role, m: Mode, r2: Role, m2: Mode, ts: Seq<Tree>)
    requires
        all_ok(r, m, ts),
        forall|t: Tree| weaker(r, m, r2, m2, t),
    ensures
        all_ok(r2, m2, ts),
{
    assert forall|i: int| 0 <= i < ts.len() implies ok(r2, m2, #[trigger] ts[i]) by {
        lemma_weaken(r, m, r2, m2, ts[i]);
    }
}

/// A declarator of a name.
proof fn lemma_simple(m: Mode, span: Span, name: Name, init: Tree)
    requires
        ok(Role::Init, m, init),
    ensures
        ok(Role::Simple, m, declarator(span, ident_pat(name), init)),
{
    lemma_ok_names(m, name);
    lemma_ok2(
        Role::Simple,
        m,
        declarator(span, ident_pat(name), init),
        ident_pat(name),
        init,
    );
}

/// A declarator of a pattern.
proof fn lemma_declarator(m: Mode, span: Span, name: Tree, init: Tree)
    requires
        ok(Role::Decl, m, name),
        ok(Role::Init, m, init),
        init.kind is Expr,
        name.kind == Kind::Pat(PatKind::Object) ==> nullable(init) is Some,
    ensures
        ok(Role::Declarator, m, declarator(span, name, init)),
        all_ok(Role::Declarator, m, seq![declarator(span, name, init)]),
{
    let d = declarator(span, name, init);
    lemma_ok2(Role::Declarator, m, d, name, init);
    assert forall|i: int| 0 <= i < seq![d].len() implies ok(
        Role::Declarator,
        m,
        #[trigger] seq![d][i],
    ) by {
        assert(seq![d][i] == d);
    }
}

proof fn lemma_ref_ident(m: Mode, decls: Seq<Tree>, init: Tree, env: Env)
    requires
        all_ok(Role::Simple, m, decls),
        ok(Role::Init, m, init),
        usable(env),
    ensures
        good_name(ref_ident(decls, init, env), m),
{
    match ref_ident(decls, init, env) {
        Err(_) => {},
        Ok((name, decls1, env1)) => if init.kind != Kind::Expr(ExprKind::Ident) {
            let span = if init.kind == Kind::Absent {
                dummy()
            } else {
                init.span
            };
            lemma_simple(m, span, name, init);
            lemma_push_ok(Role::Simple, m, decls, declarator(span, ident_pat(name), init));
        },
    }
}

proof fn lemma_tmp_ident(m: Mode, decls: Seq<Tree>, init: Tree, span: Span, env: Env)
    requires
        all_ok(Role::Simple, m, decls),
        ok(Role::Init, m, init),
        usable(env),
    ensures
        good_name(tmp_ident(decls, init, span, env), m),
{
    match tmp_ident(decls, init, span, env) {
        Err(_) => {},
        Ok((name, decls1, env1)) => {
            lemma_simple(m, dummy(), name, init);
            lemma_push_ok(Role::Simple, m, decls, declarator(dummy(), ident_pat(name), init));
        },
    }
}

proof fn lemma_non_null_ident(m: Mode, decls: Seq<Tree>, name: Name, checked: bool, env: Env)
    requires
        all_ok(Role::Simple, m, decls),
        usable(env),
    ensures
        good_name(non_null_ident(decls, name, checked, env), m),
{
    if checked {
        match env.throw() {
            Err(_) => {},
            Ok((throw, env1)) => {
                lemma_ok_non_null(m, name, throw);
                lemma_ref_ident(m, decls, non_null_expr(name, throw), env1);
            },
        }
    }
}

proof fn lemma_alias_ident(m: Mode, decls: Seq<Tree>, init: Tree, env: Env)
    requires
        all_ok(Role::Simple, m, decls),
        ok(Role::Init, m, init),
        usable(env),
    ensures
        good_name(alias_ident(decls, init, env), m),
{
    match alias_ident(decls, init, env) {
        Err(_) => {},
        Ok((name, decls1, env1)) => {
            lemma_simple(m, init.span, name, init);
            lemma_push_ok(Role::Simple, m, decls, declarator(init.span, ident_pat(name), init));
        },
    }
}

proof fn lemma_array_ident(elems: Seq<Tree>, m: Mode, decls: Seq<Tree>, init: Tree, env: Env)
    requires
        all_ok(Role::Simple, m, decls),
        ok(Role::Init, m, init),
        usable(env),
    ensures
        good_name(array_ident(elems, decls, init, env), m),
{
    if !copied_array(elems, init) {
        lemma_ref_ident(m, decls, init, env);
    } else {
        lemma_alias_ident(m, decls, init, env);
        match array_ident(elems, decls, init, env) {
            Err(_) => {},
            Ok((name, decls3, env3)) => {
                let (alias, decls1, env1) = alias_ident(decls, init, env)->Ok_0;
                let (helper, env2) = env1.to_array()->Ok_0;
                let call = helper_call(helper, alias);
                lemma_ok_helper_call(m, helper, alias);
                lemma_simple(m, dummy(), name, call);
                lemma_push_ok(
                    Role::Simple,
                    m,
                    decls1,
                    declarator(dummy(), ident_pat(name), call),
                );
            },
        }
    }
}

proof fn lemma_object_ident(props: Seq<Tree>, m: Mode, decls: Seq<Tree>, init: Tree, env: Env)
    requires
        all_ok(Role::Simple, m, decls),
        ok(Role::Init, m, init),
        usable(env),
    ensures
        good_name(object_ident(props, decls, init, env), m),
{
    if copied_object(props, init) {
        lemma_alias_ident(m, decls, init, env);
    } else {
        lemma_ref_ident(m, decls, init, env);
        match ref_ident(decls, init, env) {
            Err(_) => {},
            Ok((object, decls1, env1)) => lemma_non_null_ident(
                m,
                decls1,
                object,
                nullable(init) == Some(true),
                env1,
            ),
        }
    }
}

/// A child of a node over whose children alone the lowering of declarations went.
proof fn lemma_fold_child(r: Role, m: Mode, t: Tree, t1: Tree, i: int)
    requires
        fits(r, m, t),
        walked(r),
        !active(t.kind),
        t1.kind == t.kind,
        t1.children.len() == t.children.len(),
        forall|j: int|
            0 <= j < t.children.len() ==> (#[trigger] t1.children[j]).kind == t.children[j].kind,
        0 <= i < t.children.len(),
    ensures
        walked(below(r, m, t, i).0),
        weaker(
            below(r, m, t, i).0,
            after(below(r, m, t, i).1),
            below(r, after(m), t1, i).0,
            below(r, after(m), t1, i).1,
            t1.children[i],
        ),
{
}

/// A node over whose children alone the lowering of declarations went.
proof fn lemma_fold_node(r: Role, m: Mode, t: Tree, cs: Seq<Tree>)
    requires
        ok(r, m, t),
        walked(r),
        !active(t.kind),
        cs.len() == t.children.len(),
        forall|i: int|
            0 <= i < cs.len() ==> ok(states(r, m, t)[i].0, after(states(r, m, t)[i].1), cs[i])
                && folded(t.children[i], #[trigger] cs[i]),
    ensures
        ok(r, after(m), with(t, cs)),
{
    let t1 = with(t, cs);
    assert forall|i: int| 0 <= i < cs.len() implies (#[trigger] t1.children[i]).kind
        == t.children[i].kind && nullable(t1.children[i]) == nullable(t.children[i]) by {
        assert(folded(t.children[i], cs[i]));
        crate::shrink::lemma_fold_kind(t.children[i], cs[i]);
        if t.children[i].kind is Expr {
            lemma_fold_nullable(t.children[i], cs[i]);
        }
    }
    assert(fits(r, after(m), t1));
    assert forall|i: int| 0 <= i < t1.children.len() implies ok(
        below(r, after(m), t1, i).0,
        below(r, after(m), t1, i).1,
        #[trigger] t1.children[i],
    ) by {
        assert(folded(t.children[i], cs[i]));
        lemma_fold_child(r, m, t, t1, i);
        lemma_weaken(
            below(r, m, t, i).0,
            after(below(r, m, t, i).1),
            below(r, after(m), t1, i).0,
            below(r, after(m), t1, i).1,
            cs[i],
        );
    }
}

/// Whether each of the trees is a name.
spec fn all_names(ps: Seq<Tree>) -> bool {
    forall|i: int|
        0 <= i < ps.len() ==> (#[trigger] ps[i]).kind == Kind::Pat(PatKind::Ident)
            && ps[i].children.len() == 0
}

/// Parameters are replaced by names and declarators.
proof fn lemma_split_params(
    m: Mode,
    params: Seq<Tree>,
    done: Seq<Tree>,
    decls: Seq<Tree>,
    env: Env,
)
    requires
        all_ok(Role::Param, m, params),
        all_names(done),
        all_ok(Role::Declarator, m, decls),
        usable(env),
    ensures
        match split_params(params, done, decls, env) {
            Ok((ps, ds, env1)) => {
                &&& all_names(ps)
                &&& all_ok(Role::Declarator, m, ds)
                &&& usable(env1)
                &&& ds.len() >= decls.len()
                &&& (ds.len() == decls.len()) == !any_taken(params)
                &&& (forall|i: int|
                    0 <= i < params.len() ==> taken(#[trigger] params[i]) || params[i].kind
                        == Kind::Pat(PatKind::Ident)) ==> ps.len() == done.len() + params.len()
            },
            Err(refusal) => refusal is Full,
        },
    decreases params.len(),
{
    if params.len() > 0 {
        let param = params[0];
        let rest = params.drop_first();
        assert forall|i: int| 0 <= i < rest.len() implies ok(Role::Param, m, #[trigger] rest[i])
            && (taken(params[i + 1]) == taken(rest[i])) by {
            assert(rest[i] == params[i + 1]);
        }
        assert(any_taken(params) == (taken(param) || any_taken(rest))) by {
            if any_taken(params) && !taken(param) {
                let i = choose|i: int| 0 <= i < params.len() && taken(#[trigger] params[i]);
                assert(taken(rest[i - 1]));
            }
            if any_taken(rest) {
                let i = choose|i: int| 0 <= i < rest.len() && taken(#[trigger] rest[i]);
                assert(taken(params[i + 1]));
            }
        }
        assert(ok(Role::Param, m, param));
        match param.kind {
            Kind::Pat(PatKind::Ident) => {
                lemma_split_params(m, rest, done.push(param), decls, env);
            },
            Kind::Pat(kind) => if taken(param) {
                match env.private_ident(param.span, "ref"@) {
                    Err(_) => {},
                    Ok((name, env1)) => {
                        lemma_ok_names(m, name);
                        assert(ok(Role::Decl, m, param));
                        lemma_declarator(m, param.span, param, ident_expr(name));
                        let d = declarator(param.span, param, ident_expr(name));
                        lemma_push_ok(Role::Declarator, m, decls, d);
                        lemma_split_params(
                            m,
                            rest,
                            done.push(ident_pat(name)),
                            decls.push(d),
                            env1,
                        );
                    },
                }
            } else {
                lemma_split_params(m, rest, done, decls, env);
            },
            _ => {},
        }
    }
}

/// A declaration of names before the statements of a block.
proof fn lemma_prepend(m: Mode, stmt: Tree, body: Tree)
    requires
        !lowers(m),
        ok(Role::Plain, m, stmt),
        ok(Role::Plain, m, body),
    ensures
        ok(Role::Plain, m, prepend(stmt, body)),
{
    let block = prepend(stmt, body);
    if body.kind == Kind::Stmt(StmtKind::Block) {
        assert forall|i: int| 0 <= i < block.children.len() implies ok(
            Role::Plain,
            m,
            #[trigger] block.children[i],
        ) by {
            if i > 0 {
                assert(block.children[i] == body.children[i - 1]);
            }
        }
    } else {
        lemma_ok2(Role::Plain, m, block, stmt, body);
    }
}

/// Statements in a block.
proof fn lemma_block(m: Mode, t: Tree, stmts: Seq<Tree>)
    requires
        is_stmts(t.kind),
        all_ok(Role::Plain, stmts_mode(m), stmts),
    ensures
        ok(Role::Plain, m, with(t, stmts)),
{
    let block = with(t, stmts);
    assert forall|i: int| 0 <= i < block.children.len() implies ok(
        below(Role::Plain, m, block, i).0,
        below(Role::Plain, m, block, i).1,
        #[trigger] block.children[i],
    ) by {
        assert(ok(Role::Plain, stmts_mode(m), stmts[i]));
    }
}

/// A declaration.
proof fn lemma_var_decl(m: Mode, t: Tree, ds: Seq<Tree>)
    requires
        t.kind is Stmt,
        t.kind->Stmt_0 is VarDecl,
        all_ok(Role::Simple, m, ds),
    ensures
        ok(Role::Plain, m, with(t, ds)),
{
    let t1 = with(t, ds);
    assert forall|i: int| 0 <= i < t1.children.len() implies ok(
        below(Role::Plain, m, t1, i).0,
        below(Role::Plain, m, t1, i).1,
        #[trigger] t1.children[i],
    ) by {
        assert(ok(Role::Simple, m, ds[i]));
        lemma_weaken(Role::Simple, m, Role::Declarator, m, ds[i]);
    }
}

/// Names as the parameters of a function.
proof fn lemma_params(m: Mode, t: Tree, ps: Seq<Tree>)
    requires
        t.kind == Kind::Part(PartKind::Params),
        all_names(ps),
    ensures
        ok(Role::SimpleParams, m, with(t, ps)),
        ok(Role::Params, m, with(t, ps)),
        !any_taken(with(t, ps).children),
{
    let t1 = with(t, ps);
    assert forall|i: int| 0 <= i < t1.children.len() implies (#[trigger] t1.children[i]).kind
        == Kind::Pat(PatKind::Ident) && ok(Role::Plain, m, t1.children[i]) by {
        assert(t1.children[i] == ps[i]);
    }
    lemma_weaken(Role::SimpleParams, m, Role::Params, m, t1);
}

/// The parameters of a function, after the lowering of declarations went over them.
proof fn lemma_param_list(m: Mode, p: Tree)
    requires
        ok(
            if lowers(m) {
                Role::Params
            } else {
                Role::SimpleParams
            },
            after(param_mode(m)),
            p,
        ),
    ensures
        all_ok(Role::Param, after(param_mode(m)), p.children),
        !lowers(m) ==> !any_taken(p.children),
{
    let n = after(param_mode(m));
    assert forall|i: int| 0 <= i < p.children.len() implies ok(
        Role::Param,
        n,
        #[trigger] p.children[i],
    ) by {
        if !lowers(m) {
            assert(ok(Role::Plain, n, p.children[i]));
            lemma_weaken(Role::Plain, n, Role::Param, n, p.children[i]);
        }
    }
}

/// What the lowering of declarations makes of a tree can stand where the rounds that are left are
/// to come.
proof fn lemma_fold(r: Role, m: Mode, t: Tree, env: Env)
    requires
        ok(r, m, t),
        walked(r),
        usable(env),
    ensures
        good(fold(t, env), r, after(m)),
    decreases weight(t), 2 * depth(t) + 10, 2 * size(t), 0nat,
{
    if !active(t.kind) {
        assert forall|i: int| 0 <= i < t.children.len() implies walked(
            #[trigger] below(r, m, t, i).0,
        ) by {
            lemma_fold_child(r, m, t, t, i);
        }
        lemma_children(r, m, t, env);
        match fold_all(t.children, Seq::empty(), env) {
            Err(_) => {},
            Ok((cs, env1)) => lemma_fold_node(r, m, t, cs),
        }
    } else {
        assert(r is Plain || r is Init);
        match t.kind {
            Kind::Stmt(StmtKind::ForIn) => lemma_fold_for(m, t, env),
            Kind::Stmt(StmtKind::ForOf { is_await }) => lemma_fold_for(m, t, env),
            Kind::Stmt(StmtKind::VarDecl { kind, declare }) => {
                let role = if lowers(m) {
                    Role::Declarator
                } else {
                    Role::Simple
                };
                assert forall|i: int| 0 <= i < t.children.len() implies ok(
                    Role::Declarator,
                    m,
                    #[trigger] t.children[i],
                ) by {
                    assert(ok(role, m, t.children[i]));
                    lemma_weaken(role, m, Role::Declarator, m, t.children[i]);
                }
                lemma_fold_decls(m, t.children, env);
                match fold_decls(t.children, env) {
                    Err(_) => {},
                    Ok((ds, env1)) => lemma_var_decl(after(m), t, ds),
                }
            },
            Kind::Part(PartKind::Function { is_async, is_generator }) => lemma_fold_function(
                m,
                t,
                env,
            ),
            Kind::Member(MemberKind::Constructor) => lemma_fold_constructor(m, t, env),
            Kind::Prop(PropKind::Setter) => lemma_fold_setter(m, t, env),
            Kind::Part(PartKind::Catch) => lemma_fold_catch(m, t, env),
            Kind::Expr(ExprKind::Arrow { is_async, is_generator }) => {
                assert forall|i: int| 0 <= i < t.children.len() implies ok(
                    below(Role::Plain, m, t, i).0,
                    below(Role::Plain, m, t, i).1,
                    #[trigger] t.children[i],
                ) by {
                    assert(below(r, m, t, i) == below(Role::Plain, m, t, i));
                }
                lemma_fold_arrow(m, t, env);
                match fold_arrow(t, env) {
                    Err(_) => {},
                    Ok((t1, env1)) => {
                        assert forall|i: int| 0 <= i < t1.children.len() implies ok(
                            below(Role::Init, after(m), t1, i).0,
                            below(Role::Init, after(m), t1, i).1,
                            #[trigger] t1.children[i],
                        ) by {
                            assert(below(Role::Init, after(m), t1, i) == below(
                                Role::Plain,
                                after(m),
                                t1,
                                i,
                            ));
                        }
                    },
                }
            },
            _ => {
                let sm = stmts_mode(m);
                assert forall|i: int| 0 <= i < t.children.len() implies ok(
                    Role::Plain,
                    sm,
                    #[trigger] t.children[i],
                ) by {
                    assert(below(r, m, t, i) == (Role::Plain, sm));
                }
                lemma_fold_stmts(sm, t.children, env);
                match fold_stmts(t.children, env) {
                    Err(_) => {},
                    Ok((out, env1)) => {
                        lemma_weaken_all(
                            Role::Plain,
                            Mode::Clean,
                            Role::Plain,
                            stmts_mode(after(m)),
                            out,
                        );
                        lemma_block(after(m), t, out);
                    },
                }
            },
        }
    }
}

/// The children of a node, one by one.
proof fn lemma_children(r: Role, m: Mode, t: Tree, env: Env)
    requires
        ok(r, m, t),
        usable(env),
        forall|i: int| 0 <= i < t.children.len() ==> walked(#[trigger] below(r, m, t, i).0),
    ensures
        match fold_all(t.children, Seq::empty(), env) {
            Ok((cs, env1)) => {
                &&& usable(env1)
                &&& cs.len() == t.children.len()
                &&& weights(cs) <= weights(t.children)
                &&& forall|i: int|
                    0 <= i < cs.len() ==> ok(
                        states(r, m, t)[i].0,
                        after(states(r, m, t)[i].1),
                        cs[i],
                    ) && folded(t.children[i], #[trigger] cs[i]) && cs[i].kind == t.children[i].kind
            },
            Err(refusal) => refusal is Full,
        },
    decreases weights(t.children), 2 * depths(t.children) + 10, 2 * sizes(t.children), 1nat,
{
    let sts = states(r, m, t);
    assert forall|i: int| 0 <= i < t.children.len() implies ok(
        sts[i].0,
        sts[i].1,
        #[trigger] t.children[i],
    ) && walked(sts[i].0) by {
        assert(walked(below(r, m, t, i).0));
        assert(sts[i] == below(r, m, t, i));
    }
    lemma_fold_all(sts, t.children, Seq::empty(), env);
    crate::shrink::lemma_fold_all(t.children, Seq::empty(), env);
    crate::shrink::lemma_fold_all_each(t.children, Seq::empty(), env);
    crate::shrink::lemma_fold_all_count(t.children, env);
    match fold_all(t.children, Seq::empty(), env) {
        Err(_) => {},
        Ok((cs, env1)) => {
            assert(cs.skip(0) =~= cs);
            assert forall|i: int| 0 <= i < cs.len() implies ok(sts[i].0, after(sts[i].1), cs[i])
                && folded(t.children[i], #[trigger] cs[i]) && cs[i].kind == t.children[i].kind by {
                assert(folded(t.children[i], cs.skip(0)[i]));
            }
        },
    }
}

proof fn lemma_fold_all(sts: Seq<(Role, Mode)>, ts: Seq<Tree>, done: Seq<Tree>, env: Env)
    requires
        sts.len() == ts.len(),
        forall|i: int|
            0 <= i < ts.len() ==> ok(sts[i].0, sts[i].1, #[trigger] ts[i]) && walked(sts[i].0),
        usable(env),
    ensures
        match fold_all(ts, done, env) {
            Ok((out, env1)) => {
                &&& usable(env1)
                &&& forall|i: int|
                    0 <= i < ts.len() ==> ok(
                        sts[i].0,
                        after(sts[i].1),
                        #[trigger] out.skip(done.len() as int)[i],
                    )
            },
            Err(refusal) => refusal is Full,
        },
    decreases weights(ts), 2 * depths(ts) + 10, 2 * sizes(ts), 0nat,
{
    if ts.len() > 0 {
        assert(ok(sts[0].0, sts[0].1, ts[0]));
        lemma_fold(sts[0].0, sts[0].1, ts[0], env);
        match fold(ts[0], env) {
            Err(_) => {},
            Ok((t, env1)) => {
                let rest = ts.drop_first();
                let sts1 = sts.drop_first();
                assert forall|i: int| 0 <= i < rest.len() implies ok(
                    sts1[i].0,
                    sts1[i].1,
                    #[trigger] rest[i],
                ) && walked(sts1[i].0) by {
                    assert(rest[i] == ts[i + 1]);
                }
                lemma_fold_all(sts1, rest, done.push(t), env1);
                crate::shrink::lemma_fold_all_each(rest, done.push(t), env1);
                match fold_all(ts, done, env) {
                    Err(_) => {},
                    Ok((out, env2)) => {
                        let n = done.len() as int;
                        assert forall|i: int| 0 <= i < ts.len() implies ok(
                            sts[i].0,
                            after(sts[i].1),
                            #[trigger] out.skip(n)[i],
                        ) by {
                            if i == 0 {
                                assert(out.skip(n)[0] == out.take(n + 1)[n]);
                            } else {
                                assert(out.skip(n)[i] == out.skip(n + 1)[i - 1]);
                                assert(sts1[i - 1] == sts[i]);
                            }
                        }
                    },
                }
            },
        }
    }
}

proof fn lemma_fold_decls(m: Mode, ds: Seq<Tree>, env: Env)
    requires
        all_ok(Role::Declarator, m, ds),
        usable(env),
    ensures
        good_all(fold_decls(ds, env), Role::Simple, after(m)),
    decreases weights(ds), 2 * depths(ds) + 10, 2 * sizes(ds) + 1, 0nat,
{
    let sts = Seq::new(ds.len(), |i: int| (Role::Declarator, m));
    lemma_fold_all(sts, ds, Seq::empty(), env);
    crate::shrink::lemma_fold_all(ds, Seq::empty(), env);
    crate::shrink::lemma_fold_all_count(ds, env);
    match fold_all(ds, Seq::empty(), env) {
        Err(_) => {},
        Ok((ds1, env1)) => {
            assert(ds1.skip(0) =~= ds1);
            assert forall|i: int| 0 <= i < ds1.len() implies ok(
                Role::Declarator,
                after(m),
                #[trigger] ds1[i],
            ) by {
                assert(ds1.skip(0)[i] == ds1[i]);
                assert(sts[i].0 is Declarator);
            }
            if any_complex(ds1) {
                lemma_lower_decls(m, ds1, Seq::empty(), env1, weights(ds));
            } else {
                assert forall|i: int| 0 <= i < ds1.len() implies ok(
                    Role::Simple,
                    after(m),
                    #[trigger] ds1[i],
                ) by {
                    lemma_is_simple(after(m), ds1[i]);
                }
            }
        },
    }
}

proof fn lemma_refold(m: Mode, ds: Seq<Tree>, env: Env, bound: nat)
    requires
        all_ok(Role::Declarator, m, ds),
        usable(env),
        weights(ds) < bound,
    ensures
        good_all(refold(ds, env, bound), Role::Simple, after(m)),
    decreases bound, 0nat, 0nat, 0nat,
{
    lemma_fold_decls(m, ds, env);
}

/// A declarator that the pass made of what it has gone over.
proof fn lemma_refold_one(m: Mode, d: Tree, done: Seq<Tree>, env: Env, bound: nat)
    requires
        ok(Role::Declarator, after(m), d),
        all_ok(Role::Simple, after(m), done),
        usable(env),
        weights(seq![d]) < bound,
    ensures
        match refold(seq![d], env, bound) {
            Ok((ds, env1)) => all_ok(Role::Simple, after(m), done + ds) && usable(env1),
            Err(refusal) => refusal is Full,
        },
    decreases bound, 0nat, 0nat, 1nat,
{
    assert forall|i: int| 0 <= i < seq![d].len() implies ok(
        Role::Declarator,
        m,
        #[trigger] seq![d][i],
    ) by {
        lemma_weaken(Role::Declarator, after(m), Role::Declarator, m, d);
    }
    lemma_refold(m, seq![d], env, bound);
    match refold(seq![d], env, bound) {
        Err(_) => {},
        Ok((ds, env1)) => lemma_add_ok(Role::Simple, after(m), done, ds),
    }
}

proof fn lemma_lower_decls(m: Mode, ds: Seq<Tree>, done: Seq<Tree>, env: Env, bound: nat)
    requires
        all_ok(Role::Declarator, after(m), ds),
        all_ok(Role::Simple, after(m), done),
        usable(env),
        weights(ds) <= bound,
    ensures
        good_all(lower_decls(ds, done, env, bound), Role::Simple, after(m)),
    decreases bound, 3nat, ds.len(), 0nat,
{
    if ds.len() > 0 {
        lemma_lower_decl(m, ds[0], done, env, bound);
        match lower_decl(ds[0], done, env, bound) {
            Err(_) => {},
            Ok((done1, env1)) => {
                assert forall|i: int| 0 <= i < ds.drop_first().len() implies ok(
                    Role::Declarator,
                    after(m),
                    #[trigger] ds.drop_first()[i],
                ) by {
                    assert(ds.drop_first()[i] == ds[i + 1]);
                }
                lemma_lower_decls(m, ds.drop_first(), done1, env1, bound);
            },
        }
    }
}

#[verifier::rlimit(40)]
proof fn lemma_lower_decl(m: Mode, d: Tree, done: Seq<Tree>, env: Env, bound: nat)
    requires
        ok(Role::Declarator, after(m), d),
        all_ok(Role::Simple, after(m), done),
        usable(env),
        weight(d) <= bound,
    ensures
        good_all(lower_decl(d, done, env, bound), Role::Simple, after(m)),
    decreases bound, 2nat, 0nat, 0nat,
{
    let n = after(m);
    let name = d.children[0];
    let init = d.children[1];
    assert(d.children =~= seq![name, init]);
    crate::weighing::lemma_two(name, init);
    assert(weight(name) <= bound);
    assert(ok(Role::Decl, n, name));
    assert(ok(Role::Init, n, init));
    match name.kind {
        Kind::Pat(PatKind::Ident) => {
            lemma_is_simple(n, d);
            lemma_push_ok(Role::Simple, n, done, d);
        },
        Kind::Pat(PatKind::Array) => {
            lemma_array_ident(name.children, n, done, init, env);
            match array_ident(name.children, done, init, env) {
                Err(_) => {},
                Ok((object, done1, env1)) => {
                    assert forall|i: int| 0 <= i < name.children.len() implies ok(
                        Role::DeclElem,
                        n,
                        #[trigger] name.children[i],
                    ) by {}
                    lemma_lower_elems(m, name.children, 0, object, done1, env1, bound);
                },
            }
        },
        Kind::Pat(PatKind::Object) => {
            lemma_object_ident(name.children, n, done, init, env);
            match object_ident(name.children, done, init, env) {
                Err(_) => {},
                Ok((object, done1, env1)) => {
                    assert forall|i: int| 0 <= i < name.children.len() implies ok(
                        Role::DeclProp,
                        n,
                        #[trigger] name.children[i],
                    ) by {}
                    lemma_lower_props(m, name.children, 0, object, done1, env1, bound);
                },
            }
        },
        _ => {
            lemma_tmp_ident(n, done, init, name.span, env);
            match tmp_ident(done, init, name.span, env) {
                Err(_) => {},
                Ok((tmp, done1, env1)) => {
                    let left = name.children[0];
                    let default = name.children[1];
                    assert(name.children =~= seq![left, default]);
                    crate::weighing::lemma_two(left, default);
                    let sub = declarator(name.span, left, cond_expr(tmp, default));
                    crate::weighing::lemma_cond_expr(tmp, default);
                    crate::weighing::lemma_declarator(name.span, left, cond_expr(tmp, default));
                    crate::weighing::lemma_one(sub);
                    assert(ok(Role::Decl, n, left));
                    assert(ok(Role::Plain, n, default));
                    lemma_ok_cond(n, tmp, default);
                    lemma_declarator(n, name.span, left, cond_expr(tmp, default));
                    lemma_refold_one(m, sub, done1, env1, bound);
                },
            }
        },
    }
}

/// A declarator that takes nothing apart.
proof fn lemma_is_simple(m: Mode, d: Tree)
    requires
        ok(Role::Declarator, m, d),
        !complex_decl(d),
    ensures
        ok(Role::Simple, m, d),
{
    let name = d.children[0];
    assert(ok(Role::Decl, m, name));
    assert(ok(Role::Plain, m, name));
    assert forall|i: int| 0 <= i < d.children.len() implies ok(
        below(Role::Simple, m, d, i).0,
        below(Role::Simple, m, d, i).1,
        #[trigger] d.children[i],
    ) by {
        assert(ok(below(Role::Declarator, m, d, i).0, m, d.children[i]));
    }
}

proof fn lemma_lower_elems(
    m: Mode,
    elems: Seq<Tree>,
    i: nat,
    object: Name,
    done: Seq<Tree>,
    env: Env,
    bound: nat,
)
    requires
        i <= elems.len(),
        all_ok(Role::DeclElem, after(m), elems),
        all_ok(Role::Simple, after(m), done),
        usable(env),
        weights(elems) < bound,
    ensures
        good_all(lower_elems(elems, i, object, done, env, bound), Role::Simple, after(m)),
    decreases bound, 1nat, elems.len() - i, 0nat,
{
    if i < elems.len() {
        let elem = elems[i as int];
        let n = after(m);
        assert(ok(Role::DeclElem, n, elem));
        crate::weighing::lemma_index(elems, i as int);
        if elem.kind == Kind::Absent {
            lemma_lower_elems(m, elems, i + 1, object, done, env, bound);
        } else {
            match elem.kind {
                Kind::Pat(PatKind::Rest { dot3 }) => {
                    lemma_ok_elem_exprs(n, object, i as int, dot3);
                    assert(ok(Role::Decl, n, elem.children[0]));
                    lemma_declarator(
                        n,
                        dot3,
                        elem.children[0],
                        slice_call(object, i as int, dot3),
                    );
                },
                _ => {
                    lemma_ok_elem_exprs(n, object, i as int, dummy());
                    assert(ok(Role::Decl, n, elem)) by {
                        assert forall|j: int| 0 <= j < elem.children.len() implies ok(
                            below(Role::Decl, n, elem, j).0,
                            below(Role::Decl, n, elem, j).1,
                            #[trigger] elem.children[j],
                        ) by {
                            assert(below(Role::DeclElem, n, elem, j) == below(
                                Role::Decl,
                                n,
                                elem,
                                j,
                            ));
                        }
                    }
                    lemma_declarator(n, elem.span, elem, ref_idx_expr(object, i as int));
                },
            }
            match elem_decl(elem, i as int, object) {
                None => {},
                Some(d) => {
                    crate::shrink::lemma_elem_decl(elem, i as int, object);
                    crate::weighing::lemma_one(d);
                    lemma_refold_one(m, d, done, env, bound);
                    match refold(seq![d], env, bound) {
                        Err(_) => {},
                        Ok((ds, env1)) => lemma_lower_elems(
                            m,
                            elems,
                            i + 1,
                            object,
                            done + ds,
                            env1,
                            bound,
                        ),
                    }
                },
            }
        }
    }
}

proof fn lemma_lower_prop(
    m: Mode,
    prop: Tree,
    object: Name,
    done: Seq<Tree>,
    env: Env,
    bound: nat,
)
    requires
        ok(Role::DeclProp, after(m), prop),
        all_ok(Role::Simple, after(m), done),
        usable(env),
        weight(prop) < bound,
    ensures
        good_all(lower_prop(prop, object, done, env, bound), Role::Simple, after(m)),
    decreases bound, 1nat, 0nat, 0nat,
{
    let n = after(m);
    let key = prop.children[0];
    let value = prop.children[1];
    if prop.kind == Kind::PatProp(PatPropKind::KeyValue) {
        assert(ok(Role::Key, n, key));
        assert(ok(Role::Decl, n, value));
        lemma_key(n, object, key);
        let property = prop_name_expr(key)->Some_0;
        lemma_declarator(n, prop.span, value, ref_prop_expr(object, property));
        crate::shrink::lemma_prop_decls(prop, object, object);
        lemma_refold_one(
            m,
            declarator(prop.span, value, ref_prop_expr(object, property)),
            done,
            env,
            bound,
        );
    } else {
        assert(ok(Role::Init, n, value));
        let name = name_of(key);
        let property = ref_prop_expr(object, ident_expr(name));
        lemma_ok_names(n, name);
        lemma_ok_member(n, object, ident_expr(name), false);
        crate::shrink::lemma_prop_decls(prop, object, object);
        if value.kind == Kind::Absent {
            lemma_declarator(n, prop.span, ident_pat(name), property);
            lemma_refold_one(
                m,
                declarator(prop.span, ident_pat(name), property),
                done,
                env,
                bound,
            );
        } else {
            lemma_ref_ident(n, done, property, env);
            match ref_ident(done, property, env) {
                Err(_) => {},
                Ok((tmp, done1, env1)) => {
                    crate::shrink::lemma_prop_decls(prop, object, tmp);
                    lemma_init_plain(n, value);
                    lemma_ok_cond(n, tmp, value);
                    lemma_declarator(n, prop.span, ident_pat(name), cond_expr(tmp, value));
                    lemma_refold_one(
                        m,
                        declarator(prop.span, ident_pat(name), cond_expr(tmp, value)),
                        done1,
                        env1,
                        bound,
                    );
                },
            }
        }
    }
}

/// A default value as an expression.
proof fn lemma_init_plain(m: Mode, t: Tree)
    requires
        ok(Role::Init, m, t),
    ensures
        ok(Role::Plain, m, t),
{
    assert forall|i: int| 0 <= i < t.children.len() implies ok(
        below(Role::Plain, m, t, i).0,
        below(Role::Plain, m, t, i).1,
        #[trigger] t.children[i],
    ) by {
        assert(below(Role::Init, m, t, i) == below(Role::Plain, m, t, i));
    }
}

/// The name of a property as an expression.
proof fn lemma_key(m: Mode, object: Name, key: Tree)
    requires
        ok(Role::Key, m, key),
    ensures
        prop_name_expr(key) is Some,
        ok(Role::Init, m, ref_prop_expr(object, prop_name_expr(key)->Some_0)),
        ok(Role::Plain, m, ref_prop_expr(object, prop_name_expr(key)->Some_0)),
        nullable(ref_prop_expr(object, prop_name_expr(key)->Some_0)) is Some,
{
    let e = prop_name_expr(key)->Some_0;
    assert(ok(Role::Plain, m, e));
    lemma_ok_member(m, object, e, e.kind != Kind::Expr(ExprKind::Ident));
}

proof fn lemma_lower_props(
    m: Mode,
    props: Seq<Tree>,
    i: nat,
    object: Name,
    done: Seq<Tree>,
    env: Env,
    bound: nat,
)
    requires
        i <= props.len(),
        all_ok(Role::DeclProp, after(m), props),
        all_ok(Role::Simple, after(m), done),
        usable(env),
        weights(props) < bound,
    ensures
        good_all(lower_props(props, i, object, done, env, bound), Role::Simple, after(m)),
    decreases bound, 1nat, 1 + props.len() - i, 0nat,
{
    if i < props.len() {
        crate::weighing::lemma_index(props, i as int);
        lemma_lower_prop(m, props[i as int], object, done, env, bound);
        match lower_prop(props[i as int], object, done, env, bound) {
            Err(_) => {},
            Ok((done1, env1)) => lemma_lower_props(m, props, i + 1, object, done1, env1, bound),
        }
    }
}

/// A loop whose head takes nothing apart stays as it is.
proof fn lemma_still_for(m: Mode, t: Tree)
    requires
        is_loop(t.kind),
        ok(Role::Plain, m, t),
        t.children[0].kind is Stmt ==> !any_complex(t.children[0].children),
    ensures
        ok(Role::Plain, after(m), t),
{
    let left = t.children[0];
    assert(ok(below(Role::Plain, m, t, 0).0, m, left));
    assert(ok(below(Role::Plain, after(m), t, 0).0, after(m), left)) by {
        if left.kind is Stmt {
            assert forall|i: int| 0 <= i < left.children.len() implies ok(
                below(Role::ForHead, after(m), left, i).0,
                below(Role::ForHead, after(m), left, i).1,
                #[trigger] left.children[i],
            ) by {
                assert(below(Role::ForHead, m, left, i) == below(
                    Role::ForHead,
                    after(m),
                    left,
                    i,
                ));
            }
        }
    }
    assert forall|i: int| 0 <= i < t.children.len() implies ok(
        below(Role::Plain, after(m), t, i).0,
        below(Role::Plain, after(m), t, i).1,
        #[trigger] t.children[i],
    ) by {
        if i > 0 {
            assert(below(Role::Plain, m, t, i) == below(Role::Plain, after(m), t, i));
        }
    }
}

/// The declarators in the head of a loop, each with a name as its initial value.
proof fn lemma_init_all(m: Mode, ds: Seq<Tree>, name: Name)
    requires
        all_ok(Role::ForDecl, m, ds),
    ensures
        all_ok(Role::Declarator, m, init_all(ds, name)),
{
    lemma_ok_names(m, name);
    assert forall|i: int| 0 <= i < ds.len() implies ok(
        Role::Declarator,
        m,
        #[trigger] init_all(ds, name)[i],
    ) by {
        let d = ds[i];
        assert(ok(Role::ForDecl, m, d));
        assert(ok(Role::Decl, m, d.children[0]));
        lemma_ok2(
            Role::Declarator,
            m,
            init_all(ds, name)[i],
            d.children[0],
            ident_expr(name),
        );
    }
}

proof fn lemma_fold_for(m: Mode, t: Tree, env: Env)
    requires
        is_loop(t.kind),
        ok(Role::Plain, m, t),
        usable(env),
    ensures
        good(fold_for(t, env), Role::Plain, after(m)),
    decreases weight(t), 5nat, 0nat, 0nat,
{
    let left = t.children[0];
    if left.kind is Stmt && any_complex(left.children) {
        let k = if m is Source {
            Mode::Source
        } else {
            Mode::Once
        };
        let s = still_mode(m);
        assert(ok(Role::ForHead, m, left));
        assert(ok(Role::Plain, s, t.children[1]));
        assert(ok(Role::Plain, s, t.children[2]));
        assert forall|i: int| 0 <= i < left.children.len() implies ok(
            Role::ForDecl,
            k,
            #[trigger] left.children[i],
        ) by {
            assert(below(Role::ForHead, m, left, i) == (Role::ForDecl, k));
        }
        match env.private_ident(dummy(), "ref"@) {
            Err(_) => {},
            Ok((name, env1)) => {
                let ready = init_all(left.children, name);
                lemma_init_all(k, left.children, name);
                crate::shrink::lemma_init_all(left.children, name);
                assert(t.children =~= seq![left, t.children[1], t.children[2]]);
                crate::weighing::lemma_three(left, t.children[1], t.children[2]);
                lemma_refold(k, ready, env1, weight(t));
                match refold(ready, env1, weight(t)) {
                    Err(_) => {},
                    Ok((ds, env2)) => {
                        let d = declarator(dummy(), ident_pat(name), absent());
                        let head = with(left, seq![d]);
                        let stmt = var_decl(VarDeclKind::Let, left.span, ds);
                        let body = prepend(stmt, t.children[2]);
                        lemma_ok_names(s, name);
                        lemma_simple(s, dummy(), name, absent());
                        assert(!any_complex(head.children)) by {
                            assert(head.children[0] == d);
                        }
                        lemma_ok1(Role::ForHead, after(m), head, d);
                        lemma_var_decl(s, stmt, ds);
                        lemma_prepend(s, stmt, t.children[2]);
                        lemma_ok3(
                            Role::Plain,
                            after(m),
                            with(t, seq![head, t.children[1], body]),
                            head,
                            t.children[1],
                            body,
                        );
                    },
                }
            },
        }
    } else {
        lemma_still_for(m, t);
    }
}

proof fn lemma_fn_like(m: Mode, params: Seq<Tree>, stmts: Seq<Tree>, env: Env, bound: nat)
    requires
        all_ok(Role::Param, after(param_mode(m)), params),
        !lowers(m) ==> !any_taken(params),
        all_ok(Role::Plain, stmts_mode(after(m)), stmts),
        usable(env),
        weights(params) + count_complex(params) <= bound,
    ensures
        match fold_fn_like(params, stmts, env, bound) {
            Ok((ps, ss, env1)) => {
                &&& all_names(ps)
                &&& all_ok(Role::Plain, stmts_mode(after(m)), ss)
                &&& usable(env1)
                &&& if any_taken(params) {
                    ss.len() == stmts.len() + 1
                } else {
                    ss == stmts
                }
                &&& (forall|i: int|
                    0 <= i < params.len() ==> taken(#[trigger] params[i]) || params[i].kind
                        == Kind::Pat(PatKind::Ident)) ==> ps.len() == params.len()
            },
            Err(refusal) => refusal is Full,
        },
    decreases bound, 4nat, 0nat, 0nat,
{
    let pm = param_mode(m);
    lemma_split_params(after(pm), params, Seq::empty(), Seq::empty(), env);
    crate::shrink::lemma_split_params(params, Seq::empty(), Seq::empty(), env);
    match split_params(params, Seq::empty(), Seq::empty(), env) {
        Err(_) => {},
        Ok((ps, decls, env1)) => if decls.len() > 0 {
            lemma_weaken_all(Role::Declarator, after(pm), Role::Declarator, pm, decls);
            lemma_refold(pm, decls, env1, bound);
            match refold(decls, env1, bound) {
                Err(_) => {},
                Ok((decls1, env2)) => {
                    let stmt = var_decl(VarDeclKind::Let, dummy(), decls1);
                    let q = stmts_mode(after(m));
                    lemma_var_decl(after(pm), stmt, decls1);
                    lemma_weaken(Role::Plain, after(pm), Role::Plain, q, stmt);
                    assert forall|i: int| 0 <= i < seq![stmt].len() implies ok(
                        Role::Plain,
                        q,
                        #[trigger] seq![stmt][i],
                    ) by {}
                    lemma_add_ok(Role::Plain, q, seq![stmt], stmts);
                },
            }
        },
    }
}

/// A function without a body stays as it is.
proof fn lemma_still_fn(m: Mode, t: Tree)
    requires
        ok(Role::Plain, m, t),
        t.children.len() == 3,
        t.children[2].kind == Kind::Absent,
        t.kind is Part && t.kind->Part_0 is Function || t.kind == Kind::Member(
            MemberKind::Constructor,
        ) || t.kind == Kind::Prop(PropKind::Setter),
    ensures
        ok(Role::Plain, after(m), t),
{
    assert forall|i: int| 0 <= i < t.children.len() implies ok(
        below(Role::Plain, after(m), t, i).0,
        below(Role::Plain, after(m), t, i).1,
        #[trigger] t.children[i],
    ) by {
        assert(below(Role::Plain, m, t, i) == below(Role::Plain, after(m), t, i));
    }
}

/// The statements in the body of a function.
proof fn lemma_body(m: Mode, body: Tree)
    requires
        ok(Role::Plain, m, body),
        body.kind == Kind::Stmt(StmtKind::Block),
    ensures
        all_ok(Role::Plain, stmts_mode(m), body.children),
{
    assert forall|i: int| 0 <= i < body.children.len() implies ok(
        Role::Plain,
        stmts_mode(m),
        #[trigger] body.children[i],
    ) by {
        assert(below(Role::Plain, m, body, i) == (Role::Plain, stmts_mode(m)));
    }
}

#[verifier::rlimit(40)]
proof fn lemma_fold_function(m: Mode, t: Tree, env: Env)
    requires
        t.kind is Part,
        t.kind->Part_0 is Function,
        ok(Role::Plain, m, t),
        usable(env),
    ensures
        good(fold_function(t, env), Role::Plain, after(m)),
    decreases weight(t), 2 * depth(t) + 10, 2 * size(t) - 1, 0nat,
{
    if t.children[2].kind == Kind::Absent {
        lemma_still_fn(m, t);
    } else {
        lemma_children(Role::Plain, m, t, env);
        match fold_all(t.children, Seq::empty(), env) {
            Err(_) => {},
            Ok((cs, env1)) => {
                assert(folded(t.children[0], cs[0]) && folded(t.children[1], cs[1]) && folded(
                    t.children[2],
                    cs[2],
                ));
                lemma_param_list(m, cs[0]);
                lemma_body(after(m), cs[2]);
                crate::weighing::lemma_index(cs, 0);
                lemma_fn_like(m, cs[0].children, cs[2].children, env1, weight(t));
                match fold_fn_like(cs[0].children, cs[2].children, env1, weight(t)) {
                    Err(_) => {},
                    Ok((ps, ss, env2)) => {
                        let params = with(cs[0], ps);
                        let body = with(cs[2], ss);
                        lemma_params(param_mode(after(m)), cs[0], ps);
                        lemma_block(after(m), cs[2], ss);
                        lemma_ok3(
                            Role::Plain,
                            after(m),
                            with(t, seq![params, cs[1], body]),
                            params,
                            cs[1],
                            body,
                        );
                    },
                }
            },
        }
    }
}

#[verifier::rlimit(40)]
proof fn lemma_fold_constructor(m: Mode, t: Tree, env: Env)
    requires
        t.kind == Kind::Member(MemberKind::Constructor),
        ok(Role::Plain, m, t),
        usable(env),
    ensures
        good(fold_constructor(t, env), Role::Plain, after(m)),
    decreases weight(t), 2 * depth(t) + 10, 2 * size(t) - 1, 0nat,
{
    if t.children[2].kind == Kind::Absent {
        lemma_still_fn(m, t);
    } else {
        lemma_children(Role::Plain, m, t, env);
        match fold_all(t.children, Seq::empty(), env) {
            Err(_) => {},
            Ok((cs, env1)) => {
                assert(folded(t.children[0], cs[0]) && folded(t.children[1], cs[1]) && folded(
                    t.children[2],
                    cs[2],
                ));
                lemma_param_list(m, cs[1]);
                lemma_body(after(m), cs[2]);
                crate::weighing::lemma_index(cs, 1);
                lemma_fn_like(m, cs[1].children, cs[2].children, env1, weight(t));
                match fold_fn_like(cs[1].children, cs[2].children, env1, weight(t)) {
                    Err(_) => {},
                    Ok((ps, ss, env2)) => {
                        let params = with(cs[1], ps);
                        let body = with(cs[2], ss);
                        lemma_params(param_mode(after(m)), cs[1], ps);
                        lemma_block(after(m), cs[2], ss);
                        lemma_ok3(
                            Role::Plain,
                            after(m),
                            with(t, seq![cs[0], params, body]),
                            cs[0],
                            params,
                            body,
                        );
                    },
                }
            },
        }
    }
}

/// A single parameter.
proof fn lemma_one_param(m: Mode, p: Tree)
    requires
        ok(Role::Param, m, p),
    ensures
        all_ok(Role::Param, m, seq![p]),
        any_taken(seq![p]) == taken(p),
{
    assert forall|i: int| 0 <= i < seq![p].len() implies ok(
        Role::Param,
        m,
        #[trigger] seq![p][i],
    ) by {}
    assert(seq![p][0] == p);
}

#[verifier::rlimit(40)]
proof fn lemma_fold_setter(m: Mode, t: Tree, env: Env)
    requires
        t.kind == Kind::Prop(PropKind::Setter),
        ok(Role::Plain, m, t),
        usable(env),
    ensures
        good(fold_setter(t, env), Role::Plain, after(m)),
    decreases weight(t), 2 * depth(t) + 10, 2 * size(t) - 1, 0nat,
{
    if t.children[2].kind == Kind::Absent {
        lemma_still_fn(m, t);
    } else {
        lemma_children(Role::Plain, m, t, env);
        crate::shrink::lemma_fold_all_count(t.children, env);
        match fold_all(t.children, Seq::empty(), env) {
            Err(_) => {},
            Ok((cs, env1)) => {
                assert(folded(t.children[0], cs[0]) && folded(t.children[1], cs[1]) && folded(
                    t.children[2],
                    cs[2],
                ));
                let n = after(param_mode(m));
                let param = cs[1];
                assert(ok(Role::Param, n, param)) by {
                    if lowers(m) {
                        assert(ok(Role::Decl, n, param));
                        assert forall|i: int| 0 <= i < param.children.len() implies ok(
                            below(Role::Param, n, param, i).0,
                            below(Role::Param, n, param, i).1,
                            #[trigger] param.children[i],
                        ) by {
                            assert(below(Role::Param, n, param, i) == below(
                                Role::Decl,
                                n,
                                param,
                                i,
                            ));
                        }
                    } else {
                        lemma_weaken(Role::Plain, n, Role::Param, n, param);
                    }
                }
                lemma_one_param(n, param);
                lemma_body(after(m), cs[2]);
                assert(cs =~= seq![cs[0], cs[1], cs[2]]);
                crate::weighing::lemma_three(cs[0], cs[1], cs[2]);
                crate::weighing::lemma_one(param);
                lemma_fn_like(m, seq![param], cs[2].children, env1, weight(t));
                match fold_fn_like(seq![param], cs[2].children, env1, weight(t)) {
                    Err(_) => {},
                    Ok((ps, ss, env2)) => {
                        assert(taken(param) || param.kind == Kind::Pat(PatKind::Ident));
                        assert(ps.len() == 1);
                        assert(ps[0].kind == Kind::Pat(PatKind::Ident));
                        let body = with(cs[2], ss);
                        lemma_block(after(m), cs[2], ss);
                        lemma_ok3(
                            Role::Plain,
                            after(m),
                            with(t, seq![cs[0], ps[0], body]),
                            cs[0],
                            ps[0],
                            body,
                        );
                    },
                }
            },
        }
    }
}

proof fn lemma_fold_catch(m: Mode, t: Tree, env: Env)
    requires
        t.kind == Kind::Part(PartKind::Catch),
        ok(Role::Plain, m, t),
        usable(env),
    ensures
        good(fold_catch(t, env), Role::Plain, after(m)),
    decreases weight(t), 2 * depth(t) + 10, 2 * size(t) - 1, 0nat,
{
    lemma_children(Role::Plain, m, t, env);
    crate::shrink::lemma_fold_all_count(t.children, env);
    match fold_all(t.children, Seq::empty(), env) {
        Err(_) => {},
        Ok((cs, env1)) => {
            assert(folded(t.children[0], cs[0]) && folded(t.children[1], cs[1]));
            let n = after(param_mode(m));
            let param = cs[0];
            assert(cs =~= seq![cs[0], cs[1]]);
            if param.kind == Kind::Absent {
                lemma_ok2(Role::Plain, after(m), with(t, cs), cs[0], cs[1]);
            } else {
                assert(ok(Role::Param, n, param)) by {
                    if lowers(m) {
                        assert(ok(Role::CatchParam, n, param));
                        assert forall|i: int| 0 <= i < param.children.len() implies ok(
                            below(Role::Param, n, param, i).0,
                            below(Role::Param, n, param, i).1,
                            #[trigger] param.children[i],
                        ) by {
                            assert(below(Role::Param, n, param, i) == below(
                                Role::CatchParam,
                                n,
                                param,
                                i,
                            ));
                        }
                    }
                }
                lemma_one_param(n, param);
                lemma_body(after(m), cs[1]);
                crate::weighing::lemma_two(cs[0], cs[1]);
                crate::weighing::lemma_one(param);
                lemma_fn_like(m, seq![param], cs[1].children, env1, weight(t));
                match fold_fn_like(seq![param], cs[1].children, env1, weight(t)) {
                    Err(_) => {},
                    Ok((ps, ss, env2)) => {
                        let param1 = if ps.len() == 0 {
                            absent()
                        } else {
                            ps[0]
                        };
                        let body = with(cs[1], ss);
                        lemma_block(after(m), cs[1], ss);
                        lemma_ok2(
                            Role::Plain,
                            after(m),
                            with(t, seq![param1, body]),
                            param1,
                            body,
                        );
                    },
                }
            }
        },
    }
}

#[verifier::rlimit(40)]
proof fn lemma_fold_arrow(m: Mode, t: Tree, env: Env)
    requires
        t.kind is Expr,
        t.kind->Expr_0 is Arrow,
        ok(Role::Plain, m, t),
        usable(env),
    ensures
        good(fold_arrow(t, env), Role::Plain, after(m)),
        fold_arrow(t, env) matches Ok((t1, env1)) ==> t1.kind == t.kind,
    decreases weight(t), 2 * depth(t) + 10, 2 * size(t) - 1, 0nat,
{
    lemma_children(Role::Plain, m, t, env);
    match fold_all(t.children, Seq::empty(), env) {
        Err(_) => {},
        Ok((cs, env1)) => {
            assert(folded(t.children[0], cs[0]) && folded(t.children[1], cs[1]));
            lemma_param_list(m, cs[0]);
            crate::weighing::lemma_index(cs, 0);
            if cs[1].kind == Kind::Stmt(StmtKind::Block) {
                lemma_body(after(m), cs[1]);
                lemma_fn_like(m, cs[0].children, cs[1].children, env1, weight(t));
                match fold_fn_like(cs[0].children, cs[1].children, env1, weight(t)) {
                    Err(_) => {},
                    Ok((ps, ss, env2)) => {
                        let params = with(cs[0], ps);
                        let body = with(cs[1], ss);
                        lemma_params(param_mode(after(m)), cs[0], ps);
                        lemma_block(after(m), cs[1], ss);
                        lemma_ok2(
                            Role::Plain,
                            after(m),
                            with(t, seq![params, body]),
                            params,
                            body,
                        );
                    },
                }
            } else {
                let q = stmts_mode(after(m));
                let ret = return_stmt(cs[1]);
                assert(any_taken(cs[0].children) == any_taken(t.children[0].children)) by {
                    lemma_taken_same(t, cs[0]);
                }
                lemma_weaken(
                    Role::Plain,
                    after(below(Role::Plain, m, t, 1).1),
                    Role::Plain,
                    q,
                    cs[1],
                );
                lemma_ok1(Role::Plain, q, ret, cs[1]);
                assert forall|i: int| 0 <= i < seq![ret].len() implies ok(
                    Role::Plain,
                    q,
                    #[trigger] seq![ret][i],
                ) by {}
                lemma_fn_like(m, cs[0].children, seq![ret], env1, weight(t));
                match fold_fn_like(cs[0].children, seq![ret], env1, weight(t)) {
                    Err(_) => {},
                    Ok((ps, ss, env2)) => {
                        let params = with(cs[0], ps);
                        lemma_params(param_mode(after(m)), cs[0], ps);
                        let block = inner(Kind::Stmt(StmtKind::Block), cs[1].span, ss);
                        let body = if ss.len() == 1 {
                            cs[1]
                        } else {
                            block
                        };
                        lemma_block(after(m), block, ss);
                        lemma_ok2(
                            Role::Plain,
                            after(m),
                            with(t, seq![params, body]),
                            params,
                            body,
                        );
                    },
                }
            }
        },
    }
}

/// Going over the parameters of a function does not change which of them are taken apart.
proof fn lemma_taken_same(t: Tree, p: Tree)
    requires
        t.children.len() > 0,
        t.children[0].kind == Kind::Part(PartKind::Params),
        folded(t.children[0], p),
    ensures
        any_taken(p.children) == any_taken(t.children[0].children),
{
    let q = t.children[0];
    let e = choose|e: Env| (#[trigger] fold(q, e)) matches Ok((x, env1)) && x == p;
    crate::shrink::lemma_fold_all_count(q.children, e);
    assert forall|i: int| 0 <= i < q.children.len() implies taken(#[trigger] q.children[i])
        == taken(p.children[i]) by {
        assert(p.children[i].kind == q.children[i].kind);
    }
    if any_taken(q.children) {
        let i = choose|i: int| 0 <= i < q.children.len() && taken(#[trigger] q.children[i]);
        assert(taken(p.children[i]));
    }
    if any_taken(p.children) {
        let i = choose|i: int| 0 <= i < p.children.len() && taken(#[trigger] p.children[i]);
        assert(taken(q.children[i]));
    }
}

proof fn lemma_fold_stmts(m: Mode, ts: Seq<Tree>, env: Env)
    requires
        all_ok(Role::Plain, m, ts),
        m is Source || m is Assigns || m is Clean,
        usable(env),
    ensures
        good_all(fold_stmts(ts, env), Role::Plain, Mode::Clean),
    decreases weights(ts), 2 * depths(ts) + 12, 2 * sizes(ts) + 1, 0nat,
{
    if !any_pattern(ts) {
        assert forall|i: int| 0 <= i < ts.len() implies ok(
            Role::Plain,
            Mode::Clean,
            #[trigger] ts[i],
        ) by {
            lemma_no_pattern(Role::Plain, m, ts[i]);
        }
    } else {
        let sts = Seq::new(ts.len(), |i: int| (Role::Plain, m));
        lemma_fold_all(sts, ts, Seq::empty(), env);
        crate::shrink::lemma_fold_all(ts, Seq::empty(), env);
        crate::shrink::lemma_fold_all_count(ts, env);
        match fold_all(ts, Seq::empty(), env) {
            Err(_) => {},
            Ok((ts1, env1)) => {
                assert(ts1.skip(0) =~= ts1);
                assert forall|i: int| 0 <= i < ts1.len() implies ok(
                    Role::Plain,
                    after(m),
                    #[trigger] ts1[i],
                ) && (weight(ts1[i]) < weights(ts) || (weight(ts1[i]) == weights(ts) && depth(
                    ts1[i],
                ) <= depths(ts))) by {
                    assert(ts1.skip(0)[i] == ts1[i]);
                    assert(sts[i].0 is Plain);
                    crate::weighing::lemma_index(ts1, i);
                }
                lemma_assign_stmts(
                    after(m),
                    ts1,
                    Seq::empty(),
                    env1,
                    weights(ts),
                    depths(ts),
                );
            },
        }
    }
}

proof fn lemma_assign_stmts(
    m: Mode,
    ts: Seq<Tree>,
    done: Seq<Tree>,
    env: Env,
    bound: nat,
    deep: nat,
)
    requires
        all_ok(Role::Plain, m, ts),
        m is Assigns || m is Clean,
        all_ok(Role::Plain, Mode::Clean, done),
        usable(env),
        forall|i: int|
            0 <= i < ts.len() ==> weight(#[trigger] ts[i]) < bound || (weight(ts[i]) == bound
                && depth(ts[i]) <= deep),
    ensures
        good_all(assign_stmts(ts, done, env, bound, deep), Role::Plain, Mode::Clean),
    decreases bound, 2 * deep + 11, ts.len(), 0nat,
{
    if ts.len() > 0 {
        let rest = ts.drop_first();
        assert forall|i: int| 0 <= i < rest.len() implies ok(Role::Plain, m, #[trigger] rest[i])
            && (weight(rest[i]) < bound || (weight(rest[i]) == bound && depth(rest[i])
            <= deep)) by {
            assert(rest[i] == ts[i + 1]);
        }
        assert(weight(ts[0]) < bound || (weight(ts[0]) == bound && depth(ts[0]) <= deep));
        lemma_assign(Role::Plain, m, ts[0], Seq::empty(), env);
        match assign(ts[0], Seq::empty(), env) {
            Err(_) => {},
            Ok((t, vars, env1)) => {
                let decl = var_decl(VarDeclKind::Var, dummy(), vars);
                lemma_var_decl(Mode::Clean, decl, vars);
                if vars.len() == 0 {
                    lemma_push_ok(Role::Plain, Mode::Clean, done, t);
                } else {
                    lemma_push_ok(Role::Plain, Mode::Clean, done, decl);
                    lemma_push_ok(Role::Plain, Mode::Clean, done.push(decl), t);
                }
                lemma_assign_stmts(m, rest, declare_vars(done, vars, t), env1, bound, deep);
            },
        }
    }
}

/// Whether a tree came out in which nothing has to be lowered, with declarators of names, or none
/// because the table is full.
spec fn good_assign(res: Result<(Tree, Seq<Tree>, Env), Refusal>, r: Role) -> bool {
    match res {
        Ok((t, vars, env)) => ok(r, Mode::Clean, t) && all_ok(Role::Simple, Mode::Clean, vars)
            && usable(env),
        Err(refusal) => refusal is Full,
    }
}

/// Whether such expressions came out.
spec fn good_exprs(res: Result<(Seq<Tree>, Seq<Tree>, Env), Refusal>) -> bool {
    match res {
        Ok((ts, vars, env)) => all_ok(Role::Plain, Mode::Clean, ts) && all_ok(
            Role::Simple,
            Mode::Clean,
            vars,
        ) && usable(env),
        Err(refusal) => refusal is Full,
    }
}

/// Whether the lowering of assignments goes over what stands for this.
spec fn assignable(r: Role) -> bool {
    r is Plain || r is Init || r is Leaf || r is Key || r is Target || r is TargetElem
        || r is TargetProp || r is SimpleParams || r is SimpleCatchParam || r is Simple
        || r is ForHead
}

/// A child of a node over whose children the lowering of assignments went.
proof fn lemma_assign_child(r: Role, m: Mode, t: Tree, t1: Tree, i: int)
    requires
        fits(r, m, t),
        m is Assigns || m is Clean,
        assignable(r),
        t.kind != Kind::Expr(ExprKind::Fn),
        t.kind != Kind::Expr(ExprKind::Object),
        t1.kind == t.kind,
        t1.children.len() == t.children.len(),
        forall|j: int|
            0 <= j < t.children.len() ==> ((#[trigger] t1.children[j]).kind is Expr
                && t.children[j].kind is Expr) || t1.children[j].kind == t.children[j].kind,
        r is ForHead ==> !any_complex(t1.children),
        0 <= i < t.children.len(),
    ensures
        assignable(below(r, m, t, i).0),
        below(r, m, t, i).1 is Assigns || below(r, m, t, i).1 is Clean,
        t.kind == Kind::Expr(ExprKind::Assign(AssignOp::Assign)) && i == 0 && m is Assigns
            && t.children[0].kind is Pat || weaker(
            below(r, m, t, i).0,
            Mode::Clean,
            below(r, Mode::Clean, t1, i).0,
            below(r, Mode::Clean, t1, i).1,
            t1.children[i],
        ),
{
}

#[verifier::rlimit(40)]
proof fn lemma_assign(r: Role, m: Mode, t: Tree, vars: Seq<Tree>, env: Env)
    requires
        ok(r, m, t),
        m is Assigns || m is Clean,
        assignable(r),
        all_ok(Role::Simple, Mode::Clean, vars),
        usable(env),
    ensures
        good_assign(assign(t, vars, env), r),
    decreases weight(t), 2 * depth(t) + 10, 2 * size(t) + 1, 0nat,
{
    if t.kind == Kind::Expr(ExprKind::Fn) || t.kind == Kind::Expr(ExprKind::Object) {
        let m1 = if m is Assigns {
            Mode::Once
        } else {
            Mode::Clean
        };
        assert(ok(r, m1, t)) by {
            assert forall|i: int| 0 <= i < t.children.len() implies ok(
                below(r, m1, t, i).0,
                below(r, m1, t, i).1,
                #[trigger] t.children[i],
            ) by {
                assert(below(r, m1, t, i) == below(r, m, t, i));
            }
        }
        lemma_fold(r, m1, t, env);
        match fold(t, env) {
            Err(_) => {},
            Ok((t1, env1)) => {
                assert(folded(t, t1));
                crate::shrink::lemma_fold_kind(t, t1);
            },
        }
    } else {
        let sts = states(r, m, t);
        assert forall|i: int| 0 <= i < t.children.len() implies ok(
            sts[i].0,
            sts[i].1,
            #[trigger] t.children[i],
        ) && assignable(sts[i].0) && (sts[i].1 is Assigns || sts[i].1 is Clean) by {
            assert(r is ForHead ==> !any_complex(t.children));
            lemma_assign_child(r, m, t, t, i);
            assert(sts[i] == below(r, m, t, i));
        }
        lemma_assign_all(sts, t.children, Seq::empty(), vars, env);
        crate::shrink::lemma_assign_all(t.children, Seq::empty(), vars, env);
        crate::shrink::lemma_assign_all_each(t.children, Seq::empty(), vars, env);
        match assign_all(t.children, Seq::empty(), vars, env) {
            Err(_) => {},
            Ok((cs, vars1, env1)) => {
                assert(cs.skip(0) =~= cs);
                let t1 = with(t, cs);
                assert forall|i: int| 0 <= i < cs.len() implies ok(
                    sts[i].0,
                    Mode::Clean,
                    #[trigger] t1.children[i],
                ) && ((t1.children[i].kind is Expr && t.children[i].kind is Expr)
                    || t1.children[i].kind == t.children[i].kind) by {
                    assert(ok(sts[i].0, Mode::Clean, cs.skip(0)[i]));
                    assert(crate::shrink::assigned(t.children[i], cs.skip(0)[i]));
                    crate::shrink::lemma_assign_kind(t.children[i], cs[i]);
                }
                if r is ForHead {
                    assert forall|i: int| 0 <= i < cs.len() implies !complex_decl(
                        #[trigger] t1.children[i],
                    ) by {
                        assert(ok(sts[i].0, Mode::Clean, t1.children[i]));
                        assert(sts[i] == below(r, m, t, i));
                    }
                }
                assert(fits(r, Mode::Clean, t1));
                if t.kind == Kind::Expr(ExprKind::Assign(AssignOp::Assign)) {
                    let left = t1.children[0];
                    let right = t1.children[1];
                    assert(sts[0] == below(r, m, t, 0));
                    assert(sts[1] == below(r, m, t, 1));
                    assert(ok(Role::Plain, Mode::Clean, right));
                    assert(left.kind is Pat ==> ok(Role::Target, Mode::Clean, left)) by {
                        if left.kind is Pat && !(sts[0].0 is Target) {
                            lemma_weaken(
                                Role::Plain,
                                Mode::Clean,
                                Role::Target,
                                Mode::Clean,
                                left,
                            );
                        }
                    }
                    assert(weights(cs) <= weights(t.children));
                    lemma_lower_assign(t1, vars1, env1, weight(t));
                    match lower_assign(t1, vars1, env1, weight(t)) {
                        Err(_) => {},
                        Ok((t2, vars2, env2)) => if r is Init {
                            lemma_plain_init(Mode::Clean, t2);
                        },
                    }
                } else {
                    assert forall|i: int| 0 <= i < t1.children.len() implies ok(
                        below(r, Mode::Clean, t1, i).0,
                        below(r, Mode::Clean, t1, i).1,
                        #[trigger] t1.children[i],
                    ) by {
                        assert(sts[i] == below(r, m, t, i));
                        lemma_assign_child(r, m, t, t1, i);
                        lemma_weaken(
                            below(r, m, t, i).0,
                            Mode::Clean,
                            below(r, Mode::Clean, t1, i).0,
                            below(r, Mode::Clean, t1, i).1,
                            t1.children[i],
                        );
                    }
                }
            },
        }
    }
}

/// An expression as an initial value.
proof fn lemma_plain_init(m: Mode, t: Tree)
    requires
        ok(Role::Plain, m, t),
        t.kind is Expr,
    ensures
        ok(Role::Init, m, t),
{
    assert forall|i: int| 0 <= i < t.children.len() implies ok(
        below(Role::Init, m, t, i).0,
        below(Role::Init, m, t, i).1,
        #[trigger] t.children[i],
    ) by {
        assert(below(Role::Init, m, t, i) == below(Role::Plain, m, t, i));
    }
}

proof fn lemma_assign_all(
    sts: Seq<(Role, Mode)>,
    ts: Seq<Tree>,
    done: Seq<Tree>,
    vars: Seq<Tree>,
    env: Env,
)
    requires
        sts.len() == ts.len(),
        forall|i: int|
            0 <= i < ts.len() ==> ok(sts[i].0, sts[i].1, #[trigger] ts[i]) && assignable(sts[i].0)
                && (sts[i].1 is Assigns || sts[i].1 is Clean),
        all_ok(Role::Simple, Mode::Clean, vars),
        usable(env),
    ensures
        match assign_all(ts, done, vars, env) {
            Ok((out, vars1, env1)) => {
                &&& usable(env1)
                &&& all_ok(Role::Simple, Mode::Clean, vars1)
                &&& forall|i: int|
                    0 <= i < ts.len() ==> ok(
                        sts[i].0,
                        Mode::Clean,
                        #[trigger] out.skip(done.len() as int)[i],
                    )
            },
            Err(refusal) => refusal is Full,
        },
    decreases weights(ts), 2 * depths(ts) + 10, 2 * sizes(ts), 0nat,
{
    if ts.len() > 0 {
        assert(ok(sts[0].0, sts[0].1, ts[0]));
        lemma_assign(sts[0].0, sts[0].1, ts[0], vars, env);
        match assign(ts[0], vars, env) {
            Err(_) => {},
            Ok((t, vars1, env1)) => {
                let rest = ts.drop_first();
                let sts1 = sts.drop_first();
                assert forall|i: int| 0 <= i < rest.len() implies ok(
                    sts1[i].0,
                    sts1[i].1,
                    #[trigger] rest[i],
                ) && assignable(sts1[i].0) && (sts1[i].1 is Assigns || sts1[i].1 is Clean) by {
                    assert(rest[i] == ts[i + 1]);
                }
                lemma_assign_all(sts1, rest, done.push(t), vars1, env1);
                crate::shrink::lemma_assign_all_each(rest, done.push(t), vars1, env1);
                match assign_all(ts, done, vars, env) {
                    Err(_) => {},
                    Ok((out, vars2, env2)) => {
                        let n = done.len() as int;
                        assert forall|i: int| 0 <= i < ts.len() implies ok(
                            sts[i].0,
                            Mode::Clean,
                            #[trigger] out.skip(n)[i],
                        ) by {
                            if i == 0 {
                                assert(out.skip(n)[0] == out.take(n + 1)[n]);
                            } else {
                                assert(out.skip(n)[i] == out.skip(n + 1)[i - 1]);
                                assert(sts1[i - 1] == sts[i]);
                            }
                        }
                    },
                }
            },
        }
    }
}

/// An assignment in which nothing else has to be lowered.
proof fn lemma_ok_assign(m: Mode, span: Span, left: Tree, right: Tree)
    requires
        m is Assigns || m is Clean,
        right.kind is Expr,
        ok(Role::Plain, m, right),
        left.kind is Pat || left.kind is Expr,
        if left.kind is Pat && m is Assigns {
            ok(Role::Target, m, left)
        } else {
            ok(Role::Plain, m, left)
        },
    ensures
        ok(Role::Plain, m, assign_expr(span, left, right)),
{
    lemma_ok2(Role::Plain, m, assign_expr(span, left, right), left, right);
}

/// An assignment that the pass made of what it has gone over.
proof fn lemma_reassign(
    span: Span,
    left: Tree,
    right: Tree,
    exprs: Seq<Tree>,
    vars: Seq<Tree>,
    env: Env,
    bound: nat,
)
    requires
        ok(Role::Target, Mode::Clean, left),
        ok(Role::Plain, Mode::Clean, right),
        right.kind is Expr,
        all_ok(Role::Plain, Mode::Clean, exprs),
        all_ok(Role::Simple, Mode::Clean, vars),
        usable(env),
        weight(assign_expr(span, left, right)) < bound,
    ensures
        match reassign(assign_expr(span, left, right), vars, env, bound) {
            Ok((t, vars1, env1)) => all_ok(Role::Plain, Mode::Clean, exprs.push(t)) && all_ok(
                Role::Simple,
                Mode::Clean,
                vars1,
            ) && usable(env1),
            Err(refusal) => refusal is Full,
        },
    decreases bound, 0nat, 0nat, 0nat,
{
    let t = assign_expr(span, left, right);
    lemma_weaken(Role::Target, Mode::Clean, Role::Target, Mode::Assigns, left);
    lemma_weaken(Role::Plain, Mode::Clean, Role::Plain, Mode::Assigns, right);
    lemma_ok_assign(Mode::Assigns, span, left, right);
    lemma_assign(Role::Plain, Mode::Assigns, t, vars, env);
    match reassign(t, vars, env, bound) {
        Err(_) => {},
        Ok((t1, vars1, env1)) => lemma_push_ok(Role::Plain, Mode::Clean, exprs, t1),
    }
}

proof fn lemma_lower_assign(t: Tree, vars: Seq<Tree>, env: Env, bound: nat)
    requires
        t.kind == Kind::Expr(ExprKind::Assign(AssignOp::Assign)),
        t.children.len() == 2,
        t.children[0].kind is Pat || t.children[0].kind is Expr,
        t.children[0].kind is Pat ==> ok(Role::Target, Mode::Clean, t.children[0]),
        t.children[0].kind is Expr ==> ok(Role::Plain, Mode::Clean, t.children[0]),
        t.children[1].kind is Expr,
        ok(Role::Plain, Mode::Clean, t.children[1]),
        all_ok(Role::Simple, Mode::Clean, vars),
        usable(env),
        weight(t) <= bound,
    ensures
        good_assign(lower_assign(t, vars, env, bound), Role::Plain),
        lower_assign(t, vars, env, bound) matches Ok((t1, vars1, env1)) ==> t1.kind is Expr,
    decreases bound, 3nat, 0nat, 0nat,
{
    let left = t.children[0];
    let right = t.children[1];
    assert(t.children =~= seq![left, right]);
    crate::weighing::lemma_two(left, right);
    match left.kind {
        Kind::Pat(PatKind::Expr) => {
            assert(ok(Role::Plain, Mode::Clean, left.children[0]));
            lemma_ok_assign(Mode::Clean, t.span, left.children[0], right);
        },
        Kind::Pat(PatKind::Ident) => {
            assert(ok(Role::Plain, Mode::Clean, left));
            lemma_ok_assign(Mode::Clean, t.span, left, right);
        },
        Kind::Pat(PatKind::Array) => {
            lemma_ok_names(Mode::Clean, crate::factory::quoted(Seq::empty()));
            lemma_ref_ident(Mode::Clean, vars, absent(), env);
            match ref_ident(vars, absent(), env) {
                Err(_) => {},
                Ok((object, vars1, env1)) => {
                    let first = assign_expr(dummy(), ident_pat(object), right);
                    lemma_ok_names(Mode::Clean, object);
                    lemma_ok_assign(Mode::Clean, dummy(), ident_pat(object), right);
                    assert forall|i: int| 0 <= i < seq![first].len() implies ok(
                        Role::Plain,
                        Mode::Clean,
                        #[trigger] seq![first][i],
                    ) by {}
                    assert forall|i: int| 0 <= i < left.children.len() implies ok(
                        Role::TargetElem,
                        Mode::Clean,
                        #[trigger] left.children[i],
                    ) by {}
                    lemma_assign_elems(
                        left.children,
                        0,
                        object,
                        seq![first],
                        vars1,
                        env1,
                        bound,
                    );
                    match assign_elems(left.children, 0, object, seq![first], vars1, env1, bound) {
                        Err(_) => {},
                        Ok((exprs, vars2, env2)) => lemma_seq_expr(exprs, object),
                    }
                },
            }
        },
        Kind::Pat(PatKind::Object) => {
            lemma_ok_names(Mode::Clean, crate::factory::quoted(Seq::empty()));
            lemma_ref_ident(Mode::Clean, vars, absent(), env);
            match ref_ident(vars, absent(), env) {
                Err(_) => {},
                Ok((object, vars1, env1)) => {
                    let first = assign_expr(left.span, ident_pat(object), right);
                    lemma_ok_names(Mode::Clean, object);
                    lemma_ok_assign(Mode::Clean, left.span, ident_pat(object), right);
                    assert forall|i: int| 0 <= i < seq![first].len() implies ok(
                        Role::Plain,
                        Mode::Clean,
                        #[trigger] seq![first][i],
                    ) by {}
                    assert forall|i: int| 0 <= i < left.children.len() implies ok(
                        Role::TargetProp,
                        Mode::Clean,
                        #[trigger] left.children[i],
                    ) by {}
                    lemma_assign_props(left.children, 0, object, seq![first], vars1, env1);
                    match assign_props(left.children, 0, object, seq![first], vars1, env1) {
                        Err(_) => {},
                        Ok((exprs, vars2, env2)) => lemma_seq_expr(exprs, object),
                    }
                },
            }
        },
        _ => {
            lemma_ok_assign(Mode::Clean, t.span, left, right);
        },
    }
}

/// A sequence of assignments with a name behind it.
proof fn lemma_seq_expr(exprs: Seq<Tree>, object: Name)
    requires
        all_ok(Role::Plain, Mode::Clean, exprs),
    ensures
        ok(Role::Plain, Mode::Clean, seq_expr(exprs.push(ident_expr(object)))),
{
    lemma_ok_names(Mode::Clean, object);
    let ts = exprs.push(ident_expr(object));
    lemma_push_ok(Role::Plain, Mode::Clean, exprs, ident_expr(object));
    let t = seq_expr(ts);
    assert forall|i: int| 0 <= i < t.children.len() implies ok(
        below(Role::Plain, Mode::Clean, t, i).0,
        below(Role::Plain, Mode::Clean, t, i).1,
        #[trigger] t.children[i],
    ) by {
        assert(ok(Role::Plain, Mode::Clean, ts[i]));
    }
}

proof fn lemma_assign_elem(
    elem: Tree,
    i: int,
    object: Name,
    exprs: Seq<Tree>,
    vars: Seq<Tree>,
    env: Env,
    bound: nat,
)
    requires
        ok(Role::TargetElem, Mode::Clean, elem),
        elem.kind != Kind::Absent,
        all_ok(Role::Plain, Mode::Clean, exprs),
        all_ok(Role::Simple, Mode::Clean, vars),
        usable(env),
        weight(elem) < bound,
    ensures
        good_exprs(assign_elem(elem, i, object, exprs, vars, env, bound)),
    decreases bound, 1nat, 0nat, 0nat,
{
    let c = Mode::Clean;
    lemma_ok_names(c, object);
    lemma_ok_elem_exprs(c, object, i, dummy());
    match elem.kind {
        Kind::Pat(PatKind::Assign) => {
            lemma_ref_ident(c, vars, absent(), env);
            match ref_ident(vars, absent(), env) {
                Err(_) => {},
                Ok((tmp, vars1, env1)) => {
                    let left = elem.children[0];
                    let default = elem.children[1];
                    let first = assign_expr(dummy(), ident_pat(tmp), ref_idx_expr(object, i));
                    crate::shrink::lemma_elem_assigns(elem, i, object, tmp);
                    assert(ok(Role::Target, c, left));
                    assert(ok(Role::Plain, c, default));
                    lemma_ok_names(c, tmp);
                    lemma_ok_cond(c, tmp, default);
                    lemma_ok_assign(c, dummy(), ident_pat(tmp), ref_idx_expr(object, i));
                    lemma_push_ok(Role::Plain, c, exprs, first);
                    lemma_reassign(
                        elem.span,
                        left,
                        cond_expr(tmp, default),
                        exprs.push(first),
                        vars1,
                        env1,
                        bound,
                    );
                },
            }
        },
        Kind::Pat(PatKind::Rest { dot3 }) => {
            crate::shrink::lemma_elem_assigns(elem, i, object, object);
            assert(ok(Role::Target, c, elem.children[0]));
            lemma_reassign(
                elem.span,
                elem.children[0],
                slice_call(object, i, dummy()),
                exprs,
                vars,
                env,
                bound,
            );
        },
        _ => {
            crate::shrink::lemma_elem_assigns(elem, i, object, object);
            assert(ok(Role::Target, c, elem)) by {
                assert forall|j: int| 0 <= j < elem.children.len() implies ok(
                    below(Role::Target, c, elem, j).0,
                    below(Role::Target, c, elem, j).1,
                    #[trigger] elem.children[j],
                ) by {
                    assert(below(Role::TargetElem, c, elem, j) == below(Role::Target, c, elem, j));
                }
            }
            lemma_reassign(elem.span, elem, ref_idx_expr(object, i), exprs, vars, env, bound);
        },
    }
}

proof fn lemma_assign_elems(
    elems: Seq<Tree>,
    i: nat,
    object: Name,
    exprs: Seq<Tree>,
    vars: Seq<Tree>,
    env: Env,
    bound: nat,
)
    requires
        i <= elems.len(),
        all_ok(Role::TargetElem, Mode::Clean, elems),
        all_ok(Role::Plain, Mode::Clean, exprs),
        all_ok(Role::Simple, Mode::Clean, vars),
        usable(env),
        weights(elems) < bound,
    ensures
        good_exprs(assign_elems(elems, i, object, exprs, vars, env, bound)),
    decreases bound, 1nat, 1 + elems.len() - i, 0nat,
{
    if i < elems.len() {
        let elem = elems[i as int];
        crate::weighing::lemma_index(elems, i as int);
        if elem.kind == Kind::Absent {
            lemma_assign_elems(elems, i + 1, object, exprs, vars, env, bound);
        } else {
            lemma_assign_elem(elem, i as int, object, exprs, vars, env, bound);
            match assign_elem(elem, i as int, object, exprs, vars, env, bound) {
                Err(_) => {},
                Ok((exprs1, vars1, env1)) => lemma_assign_elems(
                    elems,
                    i + 1,
                    object,
                    exprs1,
                    vars1,
                    env1,
                    bound,
                ),
            }
        }
    }
}

proof fn lemma_assign_prop(
    prop: Tree,
    object: Name,
    exprs: Seq<Tree>,
    vars: Seq<Tree>,
    env: Env,
)
    requires
        ok(Role::TargetProp, Mode::Clean, prop),
        all_ok(Role::Plain, Mode::Clean, exprs),
        all_ok(Role::Simple, Mode::Clean, vars),
        usable(env),
    ensures
        good_exprs(assign_prop(prop, object, exprs, vars, env)),
{
    let c = Mode::Clean;
    let key = prop.children[0];
    let value = prop.children[1];
    if prop.kind == Kind::PatProp(PatPropKind::KeyValue) {
        assert(ok(Role::Key, c, key));
        assert(ok(Role::Plain, c, value));
        lemma_key(c, object, key);
        let property = ref_prop_expr(object, prop_name_expr(key)->Some_0);
        lemma_ok_assign(c, prop.span, value, property);
        lemma_push_ok(Role::Plain, c, exprs, assign_expr(prop.span, value, property));
    } else {
        assert(ok(Role::Init, c, value));
        let name = name_of(key);
        let property = ref_prop_expr(object, ident_expr(name));
        lemma_ok_names(c, name);
        lemma_ok_member(c, object, ident_expr(name), false);
        if value.kind == Kind::Absent {
            lemma_ok_assign(c, prop.span, ident_pat(name), property);
            lemma_push_ok(Role::Plain, c, exprs, assign_expr(prop.span, ident_pat(name), property));
        } else {
            lemma_ref_ident(c, vars, absent(), env);
            match ref_ident(vars, absent(), env) {
                Err(_) => {},
                Ok((tmp, vars1, env1)) => {
                    let first = assign_expr(prop.span, ident_pat(tmp), property);
                    let second = assign_expr(prop.span, ident_pat(name), cond_expr(tmp, value));
                    lemma_ok_names(c, tmp);
                    lemma_init_plain(c, value);
                    lemma_ok_cond(c, tmp, value);
                    lemma_ok_assign(c, prop.span, ident_pat(tmp), property);
                    lemma_ok_assign(c, prop.span, ident_pat(name), cond_expr(tmp, value));
                    lemma_push_ok(Role::Plain, c, exprs, first);
                    lemma_push_ok(Role::Plain, c, exprs.push(first), second);
                },
            }
        }
    }
}

proof fn lemma_assign_props(
    props: Seq<Tree>,
    i: nat,
    object: Name,
    exprs: Seq<Tree>,
    vars: Seq<Tree>,
    env: Env,
)
    requires
        i <= props.len(),
        all_ok(Role::TargetProp, Mode::Clean, props),
        all_ok(Role::Plain, Mode::Clean, exprs),
        all_ok(Role::Simple, Mode::Clean, vars),
        usable(env),
    ensures
        good_exprs(assign_props(props, i, object, exprs, vars, env)),
    decreases props.len() - i,
{
    if i < props.len() {
        lemma_assign_prop(props[i as int], object, exprs, vars, env);
        match assign_prop(props[i as int], object, exprs, vars, env) {
            Err(_) => {},
            Ok((exprs1, vars1, env1)) => lemma_assign_props(
                props,
                i + 1,
                object,
                exprs1,
                vars1,
                env1,
            ),
        }
    }
}

/// The pass handles every program in which all patterns stand where it takes them apart, and leaves
/// no pattern that is more than a name. Only a full table keeps it from doing so.
pub proof fn law_lowered(t: Tree, env: Env)
    requires
        is_stmts(t.kind),
        ok(Role::Plain, Mode::Source, t),
        usable(env),
    ensures
        match fold(t, env) {
            Ok((t1, env1)) => !has_pattern(t1),
            Err(refusal) => refusal is Full,
        },
{
    assert forall|i: int| 0 <= i < t.children.len() implies ok(
        Role::Plain,
        Mode::Source,
        #[trigger] t.children[i],
    ) by {
        assert(below(Role::Plain, Mode::Source, t, i) == (Role::Plain, Mode::Source));
    }
    lemma_fold_stmts(Mode::Source, t.children, env);
    match fold_stmts(t.children, env) {
        Err(_) => {},
        Ok((out, env1)) => {
            assert forall|i: int| 0 <= i < out.len() implies !has_pattern(#[trigger] out[i]) by {
                lemma_clean(Role::Plain, out[i]);
            }
            assert(!has_pattern(with(t, out)));
        },
    }
}

/// A list of statements without patterns comes out as it is, and nothing is made for it.
pub proof fn law_untouched(t: Tree, env: Env)
    requires
        is_stmts(t.kind),
        !has_pattern(t),
    ensures
        fold(t, env) == Ok::<_, Refusal>((t, env)),
{
    assert(!any_pattern(t.children));
    assert(with(t, t.children) == t);
}

/// The pass has nothing left to do in what it has made of a program in which all patterns stand
/// where it takes them apart.
pub proof fn law_idempotent(t: Tree, env: Env)
    requires
        is_stmts(t.kind),
        ok(Role::Plain, Mode::Source, t),
        usable(env),
    ensures
        fold(t, env) matches Ok((t1, env1)) ==> fold(t1, env1) == Ok::<_, Refusal>((t1, env1)),
{
    law_lowered(t, env);
    match fold(t, env) {
        Err(_) => {},
        Ok((t1, env1)) => {
            assert(folded(t, t1));
            crate::shrink::lemma_fold_kind(t, t1);
            law_untouched(t1, env1);
        },
    }
}

} // verus!
