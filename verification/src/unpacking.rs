//! How the parameters of a function are taken apart.
use crate::ast::{Kind, PatKind, Span, Tree, VarDeclKind};
use crate::factory::{declarator, dummy, ident_expr, ident_pat, var_decl};
use crate::growth::law_fresh;
use crate::hygiene::{Env, Name};
use crate::measure::weight;
use crate::reach::taken;
use crate::rules::{
    fold, fold_all, fold_decls, fold_fn_like, fold_function, name_of, split_params, with,
};
use vstd::prelude::*;

verus! {

/// The name that takes the place of a parameter, with context `n`.
pub open spec fn param_name(param: Tree, n: nat) -> Name {
    Name { text: "ref"@, span: Span { ctxt: n as u32, ..param.span } }
}

/// The parameters that stand for `params`: names stay, each parameter that is taken apart is
/// replaced by a name, and these names have the contexts from `n` on.
pub open spec fn replaced(params: Seq<Tree>, n: nat) -> Seq<Tree>
    decreases params.len(),
{
    if params.len() == 0 {
        Seq::empty()
    } else if params[0].kind == Kind::Pat(PatKind::Ident) {
        seq![params[0]] + replaced(params.drop_first(), n)
    } else if taken(params[0]) {
        seq![ident_pat(param_name(params[0], n))] + replaced(params.drop_first(), n + 1)
    } else {
        replaced(params.drop_first(), n)
    }
}

/// The declarators `pattern = name`, one for each of the parameters that is taken apart, in their
/// order, with the names that take their places.
pub open spec fn unpacked(params: Seq<Tree>, n: nat) -> Seq<Tree>
    decreases params.len(),
{
    if params.len() == 0 {
        Seq::empty()
    } else if taken(params[0]) {
        seq![declarator(params[0].span, params[0], ident_expr(param_name(params[0], n)))]
            + unpacked(params.drop_first(), n + 1)
    } else {
        unpacked(params.drop_first(), n)
    }
}

proof fn lemma_split(params: Seq<Tree>, done: Seq<Tree>, decls: Seq<Tree>, env: Env)
    requires
        env.wf(),
    ensures
        split_params(params, done, decls, env) matches Ok((ps, ds, env1)) ==> {
            let n = env.contexts.len();
            &&& ps == done + replaced(params, n)
            &&& ds == decls + unpacked(params, n)
            &&& env1.wf()
            &&& env1.contexts.len() == n + unpacked(params, n).len()
            &&& unpacked(params, n).len() > 0 ==> env1.contexts.len() <= u32::MAX + 1
        },
    decreases params.len(),
{
    let n = env.contexts.len();
    if params.len() == 0 {
        assert(done + replaced(params, n) =~= done);
        assert(decls + unpacked(params, n) =~= decls);
    } else {
        let param = params[0];
        let rest = params.drop_first();
        match param.kind {
            Kind::Pat(PatKind::Ident) => {
                lemma_split(rest, done.push(param), decls, env);
                assert(done.push(param) + replaced(rest, n) =~= done + replaced(params, n));
            },
            Kind::Pat(kind) => if taken(param) {
                law_fresh(env, param.span, "ref"@);
                match env.private_ident(param.span, "ref"@) {
                    Err(_) => {},
                    Ok((name, env1)) => {
                        let d = declarator(param.span, param, ident_expr(name));
                        assert(name == param_name(param, n));
                        lemma_split(rest, done.push(ident_pat(name)), decls.push(d), env1);
                        assert(done.push(ident_pat(name)) + replaced(rest, n + 1) =~= done
                            + replaced(params, n));
                        assert(decls.push(d) + unpacked(rest, n + 1) =~= decls + unpacked(
                            params,
                            n,
                        ));
                    },
                }
            } else {
                lemma_split(rest, done, decls, env);
            },
            _ => {},
        }
    }
}

/// There are as many new contexts as parameters that are taken apart.
pub proof fn lemma_count(params: Seq<Tree>, env: Env)
    requires
        env.wf(),
    ensures
        split_params(params, Seq::empty(), Seq::empty(), env) matches Ok((ps, ds, env1)) ==> {
            let n = env.contexts.len();
            &&& env1.wf()
            &&& env1.contexts.len() == n + unpacked(params, n).len()
            &&& unpacked(params, n).len() > 0 ==> env1.contexts.len() <= u32::MAX + 1
        },
{
    lemma_split(params, Seq::empty(), Seq::empty(), env);
}

/// The names in the declarators have contexts that follow each other.
proof fn lemma_contexts(params: Seq<Tree>, n: nat, j: int)
    requires
        0 <= j < unpacked(params, n).len(),
        n + unpacked(params, n).len() <= u32::MAX + 1,
    ensures
        name_of(unpacked(params, n)[j].children[1]).span.ctxt == n + j,
    decreases params.len(),
{
    let rest = params.drop_first();
    if taken(params[0]) {
        if j > 0 {
            lemma_contexts(rest, n + 1, j - 1);
            assert(unpacked(params, n)[j] == unpacked(rest, n + 1)[j - 1]);
        } else {
            assert(unpacked(params, n)[0].children[1] == ident_expr(param_name(params[0], n)));
        }
    } else {
        lemma_contexts(rest, n, j);
    }
}

/// Where parameters are taken apart, each of them is replaced by a new name, and the first
/// statement declares what becomes of the declarators `pattern = name`, in the order of the
/// parameters. The other statements stay. No two of the new names are the same.
pub proof fn law_first(params: Seq<Tree>, stmts: Seq<Tree>, env: Env, bound: nat)
    requires
        env.wf(),
    ensures
        fold_fn_like(params, stmts, env, bound) matches Ok((params1, stmts1, env2)) ==> {
            let n = env.contexts.len();
            let ds = unpacked(params, n);
            &&& params1 == replaced(params, n)
            &&& if ds.len() == 0 {
                stmts1 == stmts
            } else {
                &&& split_params(params, Seq::empty(), Seq::empty(), env) matches Ok(
                    (ps, decls, env1),
                ) && decls == ds && env1.contexts.len() == n + ds.len() && (fold_decls(
                    ds,
                    env1,
                ) matches Ok((out, last)) && last == env2 && stmts1 == seq![
                    var_decl(VarDeclKind::Let, dummy(), out),
                ] + stmts)
            }
            &&& forall|i: int, j: int|
                0 <= i < j < ds.len() ==> name_of(
                    (#[trigger] ds[i]).children[1],
                ).span.ctxt < name_of((#[trigger] ds[j]).children[1]).span.ctxt
            &&& forall|i: int|
                0 <= i < ds.len() ==> n <= name_of((#[trigger] ds[i]).children[1]).span.ctxt
        },
{
    match fold_fn_like(params, stmts, env, bound) {
        Err(_) => {},
        Ok((params1, stmts1, env2)) => {
            let n = env.contexts.len();
            let ds = unpacked(params, n);
            lemma_split(params, Seq::empty(), Seq::empty(), env);
            assert(Seq::<Tree>::empty() + replaced(params, n) =~= replaced(params, n));
            assert(Seq::<Tree>::empty() + ds =~= ds);
            assert forall|i: int, j: int| 0 <= i < j < ds.len() implies name_of(
                (#[trigger] ds[i]).children[1],
            ).span.ctxt < name_of((#[trigger] ds[j]).children[1]).span.ctxt by {
                lemma_contexts(params, n, i);
                lemma_contexts(params, n, j);
            }
            assert forall|i: int| 0 <= i < ds.len() implies n <= name_of(
                (#[trigger] ds[i]).children[1],
            ).span.ctxt by {
                lemma_contexts(params, n, i);
            }
        },
    }
}

/// In a function with a body, each parameter that is taken apart is replaced by a new name. The
/// first statement of the body declares what becomes of the declarators `pattern = name`, in the
/// order of the parameters, and the other statements stay. No two of the new names are the same.
pub proof fn law_unpacked(t: Tree, env: Env)
    requires
        t.kind is Part,
        t.kind->Part_0 is Function,
        t.children.len() == 3,
        t.children[2].kind != Kind::Absent,
        env.wf(),
    ensures
        fold(t, env) matches Ok((t1, env2)) ==> (fold_all(t.children, Seq::empty(), env) matches Ok(
            (cs, env1),
        ) && {
            let params = cs[0].children;
            let n = env1.contexts.len();
            let ds = unpacked(params, n);
            &&& t1.children[0] == with(cs[0], replaced(params, n))
            &&& if ds.len() == 0 {
                t1.children[2] == cs[2]
            } else {
                &&& split_params(params, Seq::empty(), Seq::empty(), env1) matches Ok(
                    (ps, decls, later),
                ) && decls == ds && later.contexts.len() == n + ds.len() && (fold_decls(
                    ds,
                    later,
                ) matches Ok((out, last)) && last == env2 && t1.children[2] == with(
                    cs[2],
                    seq![var_decl(VarDeclKind::Let, dummy(), out)] + cs[2].children,
                ))
            }
            &&& forall|i: int, j: int|
                0 <= i < j < ds.len() ==> name_of(
                    (#[trigger] ds[i]).children[1],
                ).span.ctxt < name_of((#[trigger] ds[j]).children[1]).span.ctxt
            &&& forall|i: int|
                0 <= i < ds.len() ==> n <= name_of((#[trigger] ds[i]).children[1]).span.ctxt
        }),
{
    assert(fold(t, env) == fold_function(t, env));
    crate::growth::lemma_fold_all(t.children, Seq::empty(), env);
    match fold(t, env) {
        Err(_) => {},
        Ok((t1, env2)) => {
            let (cs, env1) = fold_all(t.children, Seq::empty(), env)->Ok_0;
            let params = cs[0].children;
            law_first(params, cs[2].children, env1, weight(t));
            assert(with(cs[2], cs[2].children) == cs[2]);
        },
    }
}

} // verus!
