//! The pass never adds destructuring.
use crate::ast::{
    AssignOp, ExprKind, Kind, MemberKind, PartKind, PatKind, PatPropKind, PropKind, StmtKind, Tree,
    VarDeclKind,
};
use crate::factory::{
    absent, assign_expr, cond_expr, declarator, dummy, helper_call, ident_expr, ident_pat, inner,
    non_null_expr, prop_name_expr, ref_idx_expr, ref_prop_expr, slice_call, var_decl,
};
use crate::hygiene::{Env, Name};
use crate::measure::{
    any_complex, any_pattern, complex_decl, complex_pat, count_complex, depth, depths, hoisted,
    is_stmts, size, sizes, weight, weights,
};
use crate::rules::{
    alias_ident, all_decls, array_ident, assign, assign_all, assign_elem, assign_elems, assign_prop,
    assign_props, assign_stmts, copied_array, copied_object, declare_vars, elem_decl, fold,
    fold_all, fold_arrow, fold_catch, fold_constructor, fold_decls, fold_fn_like, fold_for,
    fold_function, fold_setter, fold_stmts, init_all, is_decl, lower_assign, lower_decl,
    lower_decls, lower_elems, lower_prop, lower_props, name_of, non_null_ident, object_ident,
    prepend, reassign, ref_ident, refold, return_stmt, split_params, tmp_ident, with,
};
use crate::weighing::{
    lemma_add, lemma_assign_expr, lemma_cond_expr, lemma_declarator, lemma_elem_exprs,
    lemma_helper_call, lemma_index, lemma_leaf, lemma_member, lemma_names, lemma_non_null_expr,
    lemma_one, lemma_prop_name, lemma_push, lemma_three, lemma_two,
};
use vstd::prelude::*;

verus! {

/// Whether the pass can make `t1` of `t`.
pub open spec fn folded(t: Tree, t1: Tree) -> bool {
    exists|env: Env| (#[trigger] fold(t, env)) matches Ok((x, env1)) && x == t1
}

/// Whether `t1` can become of `t` when the assignments in it are lowered.
pub open spec fn assigned(t: Tree, t1: Tree) -> bool {
    exists|vars: Seq<Tree>, env: Env|
        (#[trigger] assign(t, vars, env)) matches Ok((x, vars1, env1)) && x == t1
}

/// Trees come out one by one, behind those that are done.
pub proof fn lemma_fold_all_each(ts: Seq<Tree>, done: Seq<Tree>, env: Env)
    ensures
        fold_all(ts, done, env) matches Ok((out, env1)) ==> {
            &&& out.len() == done.len() + ts.len()
            &&& out.take(done.len() as int) == done
            &&& forall|i: int|
                0 <= i < ts.len() ==> folded(ts[i], #[trigger] out.skip(done.len() as int)[i])
        },
    decreases ts.len(),
{
    match fold_all(ts, done, env) {
        Err(_) => {},
        Ok((out, env2)) => if ts.len() == 0 {
            assert(out.take(done.len() as int) =~= done);
        } else {
            match fold(ts[0], env) {
                Err(_) => {},
                Ok((t, env1)) => {
                    let n = done.len() as int;
                    lemma_fold_all_each(ts.drop_first(), done.push(t), env1);
                    assert(out.take(n) =~= out.take(n + 1).take(n));
                    assert(done =~= done.push(t).take(n));
                    assert(folded(ts[0], t));
                    assert(out.take(n + 1)[n] == t);
                    assert forall|i: int| 0 <= i < ts.len() implies folded(
                        ts[i],
                        #[trigger] out.skip(n)[i],
                    ) by {
                        if i > 0 {
                            assert(out.skip(n)[i] == out.skip(n + 1)[i - 1]);
                            assert(ts.drop_first()[i - 1] == ts[i]);
                        }
                    }
                },
            }
        },
    }
}

/// Trees come out one by one, behind those that are done.
pub proof fn lemma_assign_all_each(ts: Seq<Tree>, done: Seq<Tree>, vars: Seq<Tree>, env: Env)
    ensures
        assign_all(ts, done, vars, env) matches Ok((out, vars1, env1)) ==> {
            &&& out.len() == done.len() + ts.len()
            &&& out.take(done.len() as int) == done
            &&& forall|i: int|
                0 <= i < ts.len() ==> assigned(ts[i], #[trigger] out.skip(done.len() as int)[i])
        },
    decreases ts.len(),
{
    match assign_all(ts, done, vars, env) {
        Err(_) => {},
        Ok((out, vars2, env2)) => if ts.len() == 0 {
            assert(out.take(done.len() as int) =~= done);
        } else {
            match assign(ts[0], vars, env) {
                Err(_) => {},
                Ok((t, vars1, env1)) => {
                    let n = done.len() as int;
                    lemma_assign_all_each(ts.drop_first(), done.push(t), vars1, env1);
                    assert(out.take(n) =~= out.take(n + 1).take(n));
                    assert(done =~= done.push(t).take(n));
                    assert(assigned(ts[0], t));
                    assert(out.take(n + 1)[n] == t);
                    assert forall|i: int| 0 <= i < ts.len() implies assigned(
                        ts[i],
                        #[trigger] out.skip(n)[i],
                    ) by {
                        if i > 0 {
                            assert(out.skip(n)[i] == out.skip(n + 1)[i - 1]);
                            assert(ts.drop_first()[i - 1] == ts[i]);
                        }
                    }
                },
            }
        },
    }
}

/// A node stays what it is.
pub proof fn lemma_fold_kind(t: Tree, t1: Tree)
    requires
        folded(t, t1),
    ensures
        t1.kind == t.kind,
{
}

/// A node that is no expression stays what it is, an expression stays an expression.
pub proof fn lemma_assign_kind(t: Tree, t1: Tree)
    requires
        assigned(t, t1),
    ensures
        t.kind is Expr ==> t1.kind is Expr,
        !(t.kind is Expr) ==> {
            &&& t1.kind == t.kind
            &&& t1.children.len() == t.children.len()
            &&& forall|i: int|
                0 <= i < t.children.len() ==> assigned(t.children[i], #[trigger] t1.children[i])
        },
{
    let (vars, env) = choose|vars: Seq<Tree>, env: Env|
        (#[trigger] assign(t, vars, env)) matches Ok((x, vars1, env1)) && x == t1;
    if !(t.kind is Expr) {
        lemma_assign_all_each(t.children, Seq::empty(), vars, env);
        assert(t1.children.skip(0) =~= t1.children);
    }
}

/// Whether `t1` holds less destructuring than `t`, or as much in statements that are nested no
/// deeper.
pub open spec fn shrunk(t1: Tree, t: Tree) -> bool {
    weight(t1) < weight(t) || (weight(t1) == weight(t) && depth(t1) <= depth(t))
}

/// Whether the trees `ts1` together hold less destructuring than `ts`, or as much in statements
/// that are nested no deeper.
pub open spec fn shrunk_all(ts1: Seq<Tree>, ts: Seq<Tree>) -> bool {
    weights(ts1) < weights(ts) || (weights(ts1) == weights(ts) && depths(ts1) <= depths(ts))
}

proof fn lemma_shrunk_add(a1: Seq<Tree>, a: Seq<Tree>, b1: Seq<Tree>, b: Seq<Tree>)
    requires
        shrunk_all(a1, a),
        shrunk_all(b1, b),
    ensures
        shrunk_all(a1 + b1, a + b),
{
    lemma_add(a1, b1);
    lemma_add(a, b);
}

/// Trees shrink where the first of them does and the others do.
proof fn lemma_shrunk_first(out: Seq<Tree>, n: int, ts: Seq<Tree>)
    requires
        0 <= n < out.len(),
        ts.len() > 0,
        shrunk(out[n], ts[0]),
        shrunk_all(out.skip(n + 1), ts.drop_first()),
    ensures
        shrunk_all(out.skip(n), ts),
{
    lemma_one(out[n]);
    lemma_one(ts[0]);
    lemma_shrunk_add(seq![out[n]], seq![ts[0]], out.skip(n + 1), ts.drop_first());
    assert(out.skip(n) =~= seq![out[n]] + out.skip(n + 1));
    assert(ts =~= seq![ts[0]] + ts.drop_first());
}

/// As many of the trees are patterns.
proof fn lemma_count_same(a: Seq<Tree>, b: Seq<Tree>)
    requires
        a.len() == b.len(),
        forall|i: int| 0 <= i < a.len() ==> complex_pat(#[trigger] a[i]) == complex_pat(b[i]),
    ensures
        count_complex(a) == count_complex(b),
    decreases a.len(),
{
    if a.len() > 0 {
        assert(complex_pat(a[0]) == complex_pat(b[0]));
        assert forall|i: int| 0 <= i < a.drop_first().len() implies complex_pat(
            #[trigger] a.drop_first()[i],
        ) == complex_pat(b.drop_first()[i]) by {
            assert(a.drop_first()[i] == a[i + 1]);
        }
        lemma_count_same(a.drop_first(), b.drop_first());
    }
}

/// Trees that come out one by one are patterns where those were that went in.
pub proof fn lemma_fold_all_count(ts: Seq<Tree>, env: Env)
    ensures
        fold_all(ts, Seq::empty(), env) matches Ok((out, env1)) ==> out.len() == ts.len()
            && count_complex(out) == count_complex(ts) && forall|i: int|
            0 <= i < ts.len() ==> (#[trigger] out[i]).kind == ts[i].kind,
{
    lemma_fold_all_each(ts, Seq::empty(), env);
    match fold_all(ts, Seq::empty(), env) {
        Err(_) => {},
        Ok((out, env1)) => {
            assert(out.skip(0) =~= out);
            assert forall|i: int| 0 <= i < ts.len() implies (#[trigger] out[i]).kind
                == ts[i].kind by {
                assert(folded(ts[i], out.skip(0)[i]));
                lemma_fold_kind(ts[i], out[i]);
            }
            lemma_count_same(out, ts);
        },
    }
}

/// Lowering assignments hoists nothing.
proof fn lemma_assign_hoisted(t: Tree, t1: Tree)
    requires
        assigned(t, t1),
        !(t.kind is Expr),
    ensures
        t1.kind == t.kind,
        complex_pat(t1) == complex_pat(t),
        hoisted(t1) == hoisted(t),
{
    lemma_assign_kind(t, t1);
    assert forall|i: int| 0 <= i < t1.children.len() implies complex_pat(
        #[trigger] t1.children[i],
    ) == complex_pat(t.children[i]) by {
        lemma_assign_kind(t.children[i], t1.children[i]);
    }
    lemma_count_same(t1.children, t.children);
    if t.children.len() > 0 {
        let head = t.children[0];
        let head1 = t1.children[0];
        lemma_assign_kind(head, head1);
        if !(head.kind is Expr) {
            assert forall|i: int| 0 <= i < head.children.len() implies complex_decl(
                #[trigger] head1.children[i],
            ) == complex_decl(head.children[i]) by {
                let d = head.children[i];
                let d1 = head1.children[i];
                lemma_assign_kind(d, d1);
                if !(d.kind is Expr) && d.children.len() == 2 {
                    lemma_assign_kind(d.children[0], d1.children[0]);
                }
            }
            if any_complex(head.children) {
                let i = choose|i: int|
                    0 <= i < head.children.len() && complex_decl(#[trigger] head.children[i]);
                assert(complex_decl(head1.children[i]));
            }
            assert(any_complex(head1.children) == any_complex(head.children));
        }
    }
}

/// A node whose children shrink shrinks.
proof fn lemma_shrunk_node(t: Tree, cs: Seq<Tree>)
    requires
        shrunk_all(cs, t.children),
        hoisted(with(t, cs)) <= hoisted(t),
    ensures
        shrunk(with(t, cs), t),
{
}

/// Names are made without destructuring.
proof fn lemma_ref_ident(decls: Seq<Tree>, init: Tree, env: Env)
    ensures
        ref_ident(decls, init, env) matches Ok((name, decls1, env1)) ==> {
            &&& weights(decls1) <= weights(decls) + weight(init)
            &&& init.kind == Kind::Absent && weight(init) == 0 && depth(init) == 0 ==> weights(
                decls1,
            ) == weights(decls) && depths(decls1) == depths(decls)
        },
{
    match ref_ident(decls, init, env) {
        Err(_) => {},
        Ok((name, decls1, env1)) => if init.kind != Kind::Expr(ExprKind::Ident) {
            let span = if init.kind == Kind::Absent {
                dummy()
            } else {
                init.span
            };
            lemma_names(name);
            lemma_declarator(span, ident_pat(name), init);
            lemma_push(decls, declarator(span, ident_pat(name), init));
        },
    }
}

proof fn lemma_tmp_ident(decls: Seq<Tree>, init: Tree, span: crate::ast::Span, env: Env)
    ensures
        tmp_ident(decls, init, span, env) matches Ok((name, decls1, env1)) ==> weights(decls1)
            <= weights(decls) + weight(init),
{
    match tmp_ident(decls, init, span, env) {
        Err(_) => {},
        Ok((name, decls1, env1)) => {
            lemma_names(name);
            lemma_declarator(dummy(), ident_pat(name), init);
            lemma_push(decls, declarator(dummy(), ident_pat(name), init));
        },
    }
}

proof fn lemma_non_null_ident(decls: Seq<Tree>, name: Name, checked: bool, env: Env)
    ensures
        non_null_ident(decls, name, checked, env) matches Ok((name1, decls1, env1)) ==> weights(
            decls1,
        ) <= weights(decls),
{
    if checked {
        match env.throw() {
            Err(_) => {},
            Ok((throw, env1)) => {
                lemma_non_null_expr(name, throw);
                lemma_ref_ident(decls, non_null_expr(name, throw), env1);
            },
        }
    }
}

proof fn lemma_alias_ident(decls: Seq<Tree>, init: Tree, env: Env)
    ensures
        alias_ident(decls, init, env) matches Ok((name, decls1, env1)) ==> weights(decls1)
            <= weights(decls) + weight(init),
{
    match alias_ident(decls, init, env) {
        Err(_) => {},
        Ok((name, decls1, env1)) => {
            lemma_names(name);
            lemma_declarator(init.span, ident_pat(name), init);
            lemma_push(decls, declarator(init.span, ident_pat(name), init));
        },
    }
}

proof fn lemma_array_ident(elems: Seq<Tree>, decls: Seq<Tree>, init: Tree, env: Env)
    ensures
        array_ident(elems, decls, init, env) matches Ok((name, decls1, env1)) ==> weights(decls1)
            <= weights(decls) + weight(init),
{
    if !copied_array(elems, init) {
        lemma_ref_ident(decls, init, env);
    } else {
        lemma_alias_ident(decls, init, env);
        match array_ident(elems, decls, init, env) {
            Err(_) => {},
            Ok((name, decls3, env3)) => {
                let (alias, decls1, env1) = alias_ident(decls, init, env)->Ok_0;
                let (helper, env2) = env1.to_array()->Ok_0;
                let call = helper_call(helper, alias);
                lemma_names(name);
                lemma_helper_call(helper, alias);
                lemma_declarator(dummy(), ident_pat(name), call);
                lemma_push(decls1, declarator(dummy(), ident_pat(name), call));
            },
        }
    }
}

proof fn lemma_object_ident(props: Seq<Tree>, decls: Seq<Tree>, init: Tree, env: Env)
    ensures
        object_ident(props, decls, init, env) matches Ok((name, decls1, env1)) ==> weights(decls1)
            <= weights(decls) + weight(init),
{
    if copied_object(props, init) {
        lemma_alias_ident(decls, init, env);
    } else {
        lemma_ref_ident(decls, init, env);
        match ref_ident(decls, init, env) {
            Err(_) => {},
            Ok((object, decls1, env1)) => lemma_non_null_ident(
                decls1,
                object,
                crate::nullness::nullable(init) == Some(true),
                env1,
            ),
        }
    }
}

/// The pass never adds destructuring: what becomes of a tree holds less of it, or as much in
/// statements that are nested no deeper.
pub proof fn law_shrunk(t: Tree, env: Env)
    ensures
        fold(t, env) matches Ok((t1, env1)) ==> shrunk(t1, t),
    decreases weight(t), 2 * depth(t) + 10, 2 * size(t),
{
    match t.kind {
        Kind::Stmt(StmtKind::ForIn) => lemma_fold_for(t, env),
        Kind::Stmt(StmtKind::ForOf { is_await }) => lemma_fold_for(t, env),
        Kind::Stmt(StmtKind::VarDecl { kind, declare }) => lemma_fold_decls(t.children, env),
        Kind::Part(PartKind::Function { is_async, is_generator }) => lemma_fold_function(t, env),
        Kind::Member(MemberKind::Constructor) => lemma_fold_constructor(t, env),
        Kind::Prop(PropKind::Setter) => lemma_fold_setter(t, env),
        Kind::Part(PartKind::Catch) => lemma_fold_catch(t, env),
        Kind::Expr(ExprKind::Arrow { is_async, is_generator }) => lemma_fold_arrow(t, env),
        _ => if is_stmts(t.kind) {
            lemma_fold_stmts(t.children, env);
        } else {
            lemma_fold_all(t.children, Seq::empty(), env);
            lemma_fold_all_count(t.children, env);
            match fold_all(t.children, Seq::empty(), env) {
                Err(_) => {},
                Ok((cs, env1)) => {
                    assert(cs.skip(0) =~= cs);
                    lemma_shrunk_node(t, cs);
                },
            }
        },
    }
}

pub proof fn lemma_fold_all(ts: Seq<Tree>, done: Seq<Tree>, env: Env)
    ensures
        fold_all(ts, done, env) matches Ok((out, env1)) ==> shrunk_all(
            out.skip(done.len() as int),
            ts,
        ),
    decreases weights(ts), 2 * depths(ts) + 10, 2 * sizes(ts),
{
    lemma_fold_all_each(ts, done, env);
    match fold_all(ts, done, env) {
        Err(_) => {},
        Ok((out, env2)) => if ts.len() == 0 {
            assert(out.skip(done.len() as int) =~= ts);
        } else {
            law_shrunk(ts[0], env);
            match fold(ts[0], env) {
                Err(_) => {},
                Ok((t, env1)) => {
                    let n = done.len() as int;
                    lemma_fold_all(ts.drop_first(), done.push(t), env1);
                    lemma_fold_all_each(ts.drop_first(), done.push(t), env1);
                    assert(out.take(n + 1)[n] == t);
                    lemma_shrunk_first(out, n, ts);
                },
            }
        },
    }
}

/// What becomes of a list of declarators shrinks, and is strictly less where one of them has to be
/// taken apart.
proof fn lemma_fold_decls(ds: Seq<Tree>, env: Env)
    ensures
        fold_decls(ds, env) matches Ok((out, env1)) ==> shrunk_all(out, ds),
    decreases weights(ds), 2 * depths(ds) + 10, 2 * sizes(ds) + 1,
{
    lemma_fold_all(ds, Seq::empty(), env);
    match fold_all(ds, Seq::empty(), env) {
        Err(_) => {},
        Ok((ds1, env1)) => {
            assert(ds1.skip(0) =~= ds1);
            if any_complex(ds1) {
                lemma_lower_decls(ds1, Seq::empty(), env1, weights(ds));
            }
        },
    }
}

proof fn lemma_refold(ds: Seq<Tree>, env: Env, bound: nat)
    ensures
        refold(ds, env, bound) matches Ok((out, env1)) ==> weights(out) <= weights(ds),
    decreases bound, 0nat, 0nat,
{
    if weights(ds) < bound {
        lemma_fold_decls(ds, env);
    }
}

proof fn lemma_lower_decls(ds: Seq<Tree>, done: Seq<Tree>, env: Env, bound: nat)
    ensures
        lower_decls(ds, done, env, bound) matches Ok((out, env1)) ==> {
            &&& weights(out) <= weights(done) + weights(ds)
            &&& any_complex(ds) ==> weights(out) < weights(done) + weights(ds)
        },
    decreases bound, 3nat, ds.len(),
{
    if ds.len() > 0 {
        lemma_lower_decl(ds[0], done, env, bound);
        match lower_decl(ds[0], done, env, bound) {
            Err(_) => {},
            Ok((done1, env1)) => {
                lemma_lower_decls(ds.drop_first(), done1, env1, bound);
                if any_complex(ds) && !complex_decl(ds[0]) {
                    let i = choose|i: int| 0 <= i < ds.len() && complex_decl(#[trigger] ds[i]);
                    assert(ds.drop_first()[i - 1] == ds[i]);
                }
            },
        }
    }
}

proof fn lemma_lower_decl(d: Tree, done: Seq<Tree>, env: Env, bound: nat)
    ensures
        lower_decl(d, done, env, bound) matches Ok((out, env1)) ==> {
            &&& weights(out) <= weights(done) + weight(d)
            &&& complex_decl(d) ==> weights(out) < weights(done) + weight(d)
        },
    decreases bound, 2nat, 0nat,
{
    if d.children.len() == 2 {
        let name = d.children[0];
        let init = d.children[1];
        assert(d.children =~= seq![name, init]);
        lemma_two(name, init);
        lemma_push(done, d);
        match name.kind {
            Kind::Pat(PatKind::Array) => {
                lemma_array_ident(name.children, done, init, env);
                match array_ident(name.children, done, init, env) {
                    Err(_) => {},
                    Ok((object, done1, env1)) => {
                        lemma_lower_elems(name.children, 0, object, done1, env1, bound);
                        assert(name.children.skip(0) =~= name.children);
                    },
                }
            },
            Kind::Pat(PatKind::Object) => {
                lemma_object_ident(name.children, done, init, env);
                match object_ident(name.children, done, init, env) {
                    Err(_) => {},
                    Ok((object, done1, env1)) => {
                        lemma_lower_props(name.children, 0, object, done1, env1, bound);
                        assert(name.children.skip(0) =~= name.children);
                    },
                }
            },
            Kind::Pat(PatKind::Assign) => if name.children.len() == 2 {
                lemma_tmp_ident(done, init, name.span, env);
                match tmp_ident(done, init, name.span, env) {
                    Err(_) => {},
                    Ok((tmp, done1, env1)) => {
                        let left = name.children[0];
                        let default = name.children[1];
                        assert(name.children =~= seq![left, default]);
                        lemma_two(left, default);
                        let sub = declarator(name.span, left, cond_expr(tmp, default));
                        lemma_cond_expr(tmp, default);
                        lemma_declarator(name.span, left, cond_expr(tmp, default));
                        lemma_one(sub);
                        lemma_refold(seq![sub], env1, bound);
                        match refold(seq![sub], env1, bound) {
                            Err(_) => {},
                            Ok((ds, env2)) => lemma_add(done1, ds),
                        }
                    },
                }
            },
            _ => {},
        }
    }
}

proof fn lemma_lower_elems(
    elems: Seq<Tree>,
    i: nat,
    object: Name,
    done: Seq<Tree>,
    env: Env,
    bound: nat,
)
    requires
        i <= elems.len(),
    ensures
        lower_elems(elems, i, object, done, env, bound) matches Ok((out, env1)) ==> weights(out)
            <= weights(done) + weights(elems.skip(i as int)),
    decreases bound, 1nat, elems.len() - i,
{
    if i < elems.len() {
        let elem = elems[i as int];
        assert(elems.skip(i as int).drop_first() =~= elems.skip(i as int + 1));
        assert(elems.skip(i as int)[0] == elem);
        if elem.kind == Kind::Absent {
            lemma_lower_elems(elems, i + 1, object, done, env, bound);
        } else {
            match elem_decl(elem, i as int, object) {
                None => {},
                Some(d) => {
                    lemma_elem_decl(elem, i as int, object);
                    lemma_one(d);
                    lemma_refold(seq![d], env, bound);
                    match refold(seq![d], env, bound) {
                        Err(_) => {},
                        Ok((ds, env1)) => {
                            lemma_add(done, ds);
                            lemma_lower_elems(elems, i + 1, object, done + ds, env1, bound);
                        },
                    }
                },
            }
        }
    }
}

/// The declarator for an element of an array pattern.
pub proof fn lemma_elem_decl(elem: Tree, i: int, object: Name)
    ensures
        elem_decl(elem, i, object) matches Some(d) ==> weight(d) <= weight(elem),
{
    match elem.kind {
        Kind::Pat(PatKind::Rest { dot3 }) => if elem.children.len() == 1 {
            lemma_elem_exprs(object, i, dot3);
            lemma_index(elem.children, 0);
            lemma_declarator(dot3, elem.children[0], slice_call(object, i, dot3));
        },
        _ => {
            lemma_elem_exprs(object, i, dummy());
            lemma_declarator(elem.span, elem, ref_idx_expr(object, i));
        },
    }
}

/// The declarators for a property of an object pattern.
pub proof fn lemma_prop_decls(prop: Tree, object: Name, tmp: Name)
    requires
        prop.children.len() == 2,
    ensures
        ({
            let key = prop.children[0];
            let value = prop.children[1];
            let property = ref_prop_expr(object, ident_expr(name_of(key)));
            &&& prop_name_expr(key) matches Some(e) ==> weights(
                seq![declarator(prop.span, value, ref_prop_expr(object, e))],
            ) <= weight(prop)
            &&& weight(property) == 0
            &&& weights(seq![declarator(prop.span, ident_pat(name_of(key)), property)]) == 0
            &&& weights(
                seq![declarator(prop.span, ident_pat(name_of(key)), cond_expr(tmp, value))],
            ) <= weight(prop)
        }),
{
    let key = prop.children[0];
    let value = prop.children[1];
    let name = name_of(key);
    let property = ref_prop_expr(object, ident_expr(name));
    assert(prop.children =~= seq![key, value]);
    lemma_two(key, value);
    lemma_names(name);
    lemma_member(object, ident_expr(name), false);
    lemma_prop_name(object, key);
    match prop_name_expr(key) {
        None => {},
        Some(e) => {
            lemma_declarator(prop.span, value, ref_prop_expr(object, e));
            lemma_one(declarator(prop.span, value, ref_prop_expr(object, e)));
        },
    }
    lemma_declarator(prop.span, ident_pat(name), property);
    lemma_one(declarator(prop.span, ident_pat(name), property));
    lemma_cond_expr(tmp, value);
    lemma_declarator(prop.span, ident_pat(name), cond_expr(tmp, value));
    lemma_one(declarator(prop.span, ident_pat(name), cond_expr(tmp, value)));
}

proof fn lemma_lower_prop(prop: Tree, object: Name, done: Seq<Tree>, env: Env, bound: nat)
    ensures
        lower_prop(prop, object, done, env, bound) matches Ok((out, env1)) ==> weights(out)
            <= weights(done) + weight(prop),
    decreases bound, 1nat, 0nat,
{
    if prop.children.len() == 2 {
        let key = prop.children[0];
        let value = prop.children[1];
        match prop.kind {
            Kind::PatProp(PatPropKind::KeyValue) => match prop_name_expr(key) {
                None => {},
                Some(property) => {
                    let ds = seq![declarator(prop.span, value, ref_prop_expr(object, property))];
                    lemma_prop_decls(prop, object, object);
                    lemma_refold(ds, env, bound);
                    match refold(ds, env, bound) {
                        Err(_) => {},
                        Ok((ds1, env1)) => lemma_add(done, ds1),
                    }
                },
            },
            Kind::PatProp(PatPropKind::Assign) => {
                let property = ref_prop_expr(object, ident_expr(name_of(key)));
                lemma_prop_decls(prop, object, object);
                if value.kind == Kind::Absent {
                    let ds = seq![declarator(prop.span, ident_pat(name_of(key)), property)];
                    lemma_refold(ds, env, bound);
                    match refold(ds, env, bound) {
                        Err(_) => {},
                        Ok((ds1, env1)) => lemma_add(done, ds1),
                    }
                } else {
                    lemma_ref_ident(done, property, env);
                    match ref_ident(done, property, env) {
                        Err(_) => {},
                        Ok((tmp, done1, env1)) => {
                            let ds = seq![
                                declarator(
                                    prop.span,
                                    ident_pat(name_of(key)),
                                    cond_expr(tmp, value),
                                ),
                            ];
                            lemma_prop_decls(prop, object, tmp);
                            lemma_refold(ds, env1, bound);
                            match refold(ds, env1, bound) {
                                Err(_) => {},
                                Ok((ds1, env2)) => lemma_add(done1, ds1),
                            }
                        },
                    }
                }
            },
            _ => {},
        }
    }
}

proof fn lemma_lower_props(
    props: Seq<Tree>,
    i: nat,
    object: Name,
    done: Seq<Tree>,
    env: Env,
    bound: nat,
)
    requires
        i <= props.len(),
    ensures
        lower_props(props, i, object, done, env, bound) matches Ok((out, env1)) ==> weights(out)
            <= weights(done) + weights(props.skip(i as int)),
    decreases bound, 1nat, 1 + props.len() - i,
{
    if i < props.len() {
        assert(props.skip(i as int).drop_first() =~= props.skip(i as int + 1));
        assert(props.skip(i as int)[0] == props[i as int]);
        lemma_lower_prop(props[i as int], object, done, env, bound);
        match lower_prop(props[i as int], object, done, env, bound) {
            Err(_) => {},
            Ok((done1, env1)) => lemma_lower_props(props, i + 1, object, done1, env1, bound),
        }
    }
}

/// Declarators with a name as their initial value.
pub proof fn lemma_init_all(ds: Seq<Tree>, name: Name)
    requires
        all_decls(ds),
    ensures
        weights(init_all(ds, name)) <= weights(ds),
        init_all(ds, name).len() == ds.len(),
    decreases ds.len(),
{
    if ds.len() > 0 {
        let rest = ds.drop_first();
        assert forall|i: int| 0 <= i < rest.len() implies is_decl(#[trigger] rest[i]) by {
            assert(rest[i] == ds[i + 1]);
        }
        lemma_init_all(rest, name);
        assert(init_all(ds, name).drop_first() =~= init_all(rest, name));
        let d = ds[0];
        let d1 = init_all(ds, name)[0];
        assert(is_decl(d));
        assert(d.children =~= seq![d.children[0], d.children[1]]);
        lemma_two(d.children[0], d.children[1]);
        lemma_two(d.children[0], ident_expr(name));
        lemma_names(name);
        assert(d1 == with(d, seq![d.children[0], ident_expr(name)]));
        assert(weight(d) == weights(d.children));
        assert(weight(d1) == weights(d1.children));
        assert(weights(ds) == weight(d) + weights(rest));
        assert(weights(init_all(ds, name)) == weight(d1) + weights(init_all(rest, name)));
    } else {
        assert(init_all(ds, name) =~= ds);
    }
}

/// Whether this is a `for .. in` or `for .. of` loop.
pub open spec fn is_loop(kind: Kind) -> bool {
    match kind {
        Kind::Stmt(StmtKind::ForIn) => true,
        Kind::Stmt(StmtKind::ForOf { is_await }) => true,
        _ => false,
    }
}

proof fn lemma_prepend(stmt: Tree, body: Tree)
    ensures
        weight(prepend(stmt, body)) == weight(stmt) + weight(body),
{
    if body.kind == Kind::Stmt(StmtKind::Block) {
        lemma_one(stmt);
        lemma_add(seq![stmt], body.children);
    } else {
        lemma_two(stmt, body);
    }
}

proof fn lemma_fold_for(t: Tree, env: Env)
    requires
        is_loop(t.kind),
    ensures
        fold_for(t, env) matches Ok((t1, env1)) ==> shrunk(t1, t),
    decreases weight(t), 5nat, 0nat,
{
    if t.children.len() == 3 {
        let left = t.children[0];
        match left.kind {
            Kind::Stmt(StmtKind::VarDecl { kind, declare }) => if any_complex(left.children)
                && all_decls(left.children) {
                match env.private_ident(dummy(), "ref"@) {
                    Err(_) => {},
                    Ok((name, env1)) => {
                        let ready = init_all(left.children, name);
                        lemma_init_all(left.children, name);
                        lemma_refold(ready, env1, weight(t));
                        match refold(ready, env1, weight(t)) {
                            Err(_) => {},
                            Ok((ds, env2)) => {
                                let d = declarator(dummy(), ident_pat(name), absent());
                                let head = with(left, seq![d]);
                                let stmt = var_decl(VarDeclKind::Let, left.span, ds);
                                let body = prepend(stmt, t.children[2]);
                                lemma_names(name);
                                lemma_declarator(dummy(), ident_pat(name), absent());
                                lemma_one(d);
                                lemma_prepend(stmt, t.children[2]);
                                lemma_three(head, t.children[1], body);
                                lemma_three(left, t.children[1], t.children[2]);
                                assert(t.children =~= seq![left, t.children[1], t.children[2]]);
                                let t1 = with(t, seq![head, t.children[1], body]);
                                assert(head.children[0] == d);
                                assert(!complex_decl(d));
                                assert(!any_complex(head.children));
                            },
                        }
                    },
                }
            },
            _ => {},
        }
    }
}

/// Parameters are replaced by names and declarators.
pub proof fn lemma_split_params(params: Seq<Tree>, done: Seq<Tree>, decls: Seq<Tree>, env: Env)
    ensures
        split_params(params, done, decls, env) matches Ok((ps, ds, env1)) ==> {
            &&& weights(ps) + weights(ds) <= weights(done) + weights(decls) + weights(params)
            &&& depths(ps) <= depths(done) || depths(ps) <= depths(params)
            &&& count_complex(ps) == count_complex(done)
            &&& decls.len() <= ds.len() <= decls.len() + count_complex(params)
            &&& ps.len() <= done.len() + params.len()
        },
    decreases params.len(),
{
    if params.len() > 0 {
        let param = params[0];
        let rest = params.drop_first();
        match param.kind {
            Kind::Pat(PatKind::Ident) => {
                lemma_split_params(rest, done.push(param), decls, env);
                lemma_push(done, param);
                lemma_one(param);
            },
            Kind::Pat(kind) => if kind == PatKind::Array || kind == PatKind::Object || kind
                == PatKind::Assign {
                match env.private_ident(param.span, "ref"@) {
                    Err(_) => {},
                    Ok((name, env1)) => {
                        let d = declarator(param.span, param, ident_expr(name));
                        lemma_split_params(rest, done.push(ident_pat(name)), decls.push(d), env1);
                        lemma_names(name);
                        lemma_declarator(param.span, param, ident_expr(name));
                        lemma_push(done, ident_pat(name));
                        lemma_one(ident_pat(name));
                        lemma_push(decls, d);
                    },
                }
            } else {
                lemma_split_params(rest, done, decls, env);
            },
            _ => {},
        }
    }
}

/// What becomes of the parameters and of the body of a function.
pub proof fn lemma_fn_like(params: Seq<Tree>, stmts: Seq<Tree>, env: Env, bound: nat)
    ensures
        fold_fn_like(params, stmts, env, bound) matches Ok((ps, ss, env1)) ==> {
            &&& weights(ps) + weights(ss) <= weights(params) + weights(stmts)
            &&& depths(ps) <= depths(params)
            &&& count_complex(ps) == 0
            &&& ss == stmts || count_complex(params) > 0
            &&& ps.len() <= params.len()
        },
    decreases bound, 4nat, 0nat,
{
    lemma_split_params(params, Seq::empty(), Seq::empty(), env);
    match split_params(params, Seq::empty(), Seq::empty(), env) {
        Err(_) => {},
        Ok((ps, decls, env1)) => if decls.len() > 0 {
            lemma_refold(decls, env1, bound);
            match refold(decls, env1, bound) {
                Err(_) => {},
                Ok((decls1, env2)) => {
                    let stmt = var_decl(VarDeclKind::Let, dummy(), decls1);
                    lemma_one(stmt);
                    lemma_add(seq![stmt], stmts);
                },
            }
        },
    }
}

/// Parameters and a body that stand for others.
proof fn lemma_fn_parts(params: Tree, body: Tree, ps: Seq<Tree>, ss: Seq<Tree>)
    requires
        params.kind == Kind::Part(PartKind::Params),
        body.kind == Kind::Stmt(StmtKind::Block),
        weights(ps) + weights(ss) <= weights(params.children) + weights(body.children),
        depths(ps) <= depths(params.children),
        count_complex(ps) == 0,
        ss == body.children || count_complex(params.children) > 0,
    ensures
        weight(with(params, ps)) + weight(with(body, ss)) < weight(params) + weight(body) || (
        weight(with(params, ps)) + weight(with(body, ss)) <= weight(params) + weight(body)
            && depth(with(params, ps)) <= depth(params) && depth(with(body, ss)) <= depth(body)),
{
}

proof fn lemma_fold_function(t: Tree, env: Env)
    requires
        t.kind is Part,
        t.kind->Part_0 is Function,
    ensures
        fold_function(t, env) matches Ok((t1, env1)) ==> shrunk(t1, t),
    decreases weight(t), 2 * depth(t) + 10, 2 * size(t) - 1,
{
    if t.children.len() == 3 && t.children[0].kind == Kind::Part(PartKind::Params)
        && t.children[2].kind == Kind::Stmt(StmtKind::Block) {
        lemma_fold_all(t.children, Seq::empty(), env);
        lemma_fold_all_count(t.children, env);
        match fold_all(t.children, Seq::empty(), env) {
            Err(_) => {},
            Ok((cs, env1)) => {
                assert(cs.skip(0) =~= cs);
                lemma_fn_like(cs[0].children, cs[2].children, env1, weight(t));
                match fold_fn_like(cs[0].children, cs[2].children, env1, weight(t)) {
                    Err(_) => {},
                    Ok((ps, ss, env2)) => {
                        assert(cs =~= seq![cs[0], cs[1], cs[2]]);
                        lemma_three(cs[0], cs[1], cs[2]);
                        lemma_three(with(cs[0], ps), cs[1], with(cs[2], ss));
                        lemma_fn_parts(cs[0], cs[2], ps, ss);
                        lemma_shrunk_node(
                            t,
                            seq![with(cs[0], ps), cs[1], with(cs[2], ss)],
                        );
                    },
                }
            },
        }
    }
}

proof fn lemma_fold_constructor(t: Tree, env: Env)
    requires
        t.kind is Member,
    ensures
        fold_constructor(t, env) matches Ok((t1, env1)) ==> shrunk(t1, t),
    decreases weight(t), 2 * depth(t) + 10, 2 * size(t) - 1,
{
    if t.children.len() == 3 && t.children[1].kind == Kind::Part(PartKind::Params)
        && t.children[2].kind == Kind::Stmt(StmtKind::Block) {
        lemma_fold_all(t.children, Seq::empty(), env);
        lemma_fold_all_count(t.children, env);
        match fold_all(t.children, Seq::empty(), env) {
            Err(_) => {},
            Ok((cs, env1)) => {
                assert(cs.skip(0) =~= cs);
                lemma_fn_like(cs[1].children, cs[2].children, env1, weight(t));
                match fold_fn_like(cs[1].children, cs[2].children, env1, weight(t)) {
                    Err(_) => {},
                    Ok((ps, ss, env2)) => {
                        assert(cs =~= seq![cs[0], cs[1], cs[2]]);
                        lemma_three(cs[0], cs[1], cs[2]);
                        lemma_three(cs[0], with(cs[1], ps), with(cs[2], ss));
                        lemma_fn_parts(cs[1], cs[2], ps, ss);
                        lemma_shrunk_node(
                            t,
                            seq![cs[0], with(cs[1], ps), with(cs[2], ss)],
                        );
                    },
                }
            },
        }
    }
}

#[verifier::rlimit(40)]
proof fn lemma_fold_setter(t: Tree, env: Env)
    requires
        t.kind == Kind::Prop(PropKind::Setter),
    ensures
        fold_setter(t, env) matches Ok((t1, env1)) ==> shrunk(t1, t),
    decreases weight(t), 2 * depth(t) + 10, 2 * size(t) - 1,
{
    if t.children.len() == 3 && t.children[2].kind == Kind::Stmt(StmtKind::Block) {
        lemma_fold_all(t.children, Seq::empty(), env);
        lemma_fold_all_count(t.children, env);
        match fold_all(t.children, Seq::empty(), env) {
            Err(_) => {},
            Ok((cs, env1)) => {
                assert(cs.skip(0) =~= cs);
                lemma_fn_like(seq![cs[1]], cs[2].children, env1, weight(t));
                match fold_fn_like(seq![cs[1]], cs[2].children, env1, weight(t)) {
                    Err(_) => {},
                    Ok((ps, ss, env2)) => if ps.len() == 1 {
                        assert(cs =~= seq![cs[0], cs[1], cs[2]]);
                        assert(ps =~= seq![ps[0]]);
                        lemma_one(ps[0]);
                        lemma_one(cs[1]);
                        lemma_three(cs[0], cs[1], cs[2]);
                        lemma_three(cs[0], ps[0], with(cs[2], ss));
                        lemma_one(cs[2]);
                        lemma_one(with(cs[2], ss));
                    },
                }
            },
        }
    }
}

#[verifier::rlimit(40)]
proof fn lemma_fold_catch(t: Tree, env: Env)
    requires
        t.kind == Kind::Part(PartKind::Catch),
    ensures
        fold_catch(t, env) matches Ok((t1, env1)) ==> shrunk(t1, t),
    decreases weight(t), 2 * depth(t) + 10, 2 * size(t) - 1,
{
    if t.children.len() == 2 && t.children[1].kind == Kind::Stmt(StmtKind::Block) {
        lemma_fold_all(t.children, Seq::empty(), env);
        lemma_fold_all_count(t.children, env);
        match fold_all(t.children, Seq::empty(), env) {
            Err(_) => {},
            Ok((cs, env1)) => {
                assert(cs.skip(0) =~= cs);
                if cs[0].kind == Kind::Absent {
                    lemma_shrunk_node(t, cs);
                } else {
                    lemma_fn_like(seq![cs[0]], cs[1].children, env1, weight(t));
                    match fold_fn_like(seq![cs[0]], cs[1].children, env1, weight(t)) {
                        Err(_) => {},
                        Ok((ps, ss, env2)) => {
                            let param = if ps.len() == 0 {
                                absent()
                            } else {
                                ps[0]
                            };
                            assert(cs =~= seq![cs[0], cs[1]]);
                            if ps.len() == 0 {
                                lemma_leaf(absent());
                            } else {
                                assert(ps =~= seq![ps[0]]);
                            }
                            lemma_one(param);
                            lemma_one(cs[0]);
                            lemma_two(cs[0], cs[1]);
                            lemma_two(param, with(cs[1], ss));
                            lemma_one(cs[1]);
                            lemma_one(with(cs[1], ss));
                        },
                    }
                }
            },
        }
    }
}

#[verifier::rlimit(40)]
proof fn lemma_fold_arrow(t: Tree, env: Env)
    requires
        t.kind is Expr,
    ensures
        fold_arrow(t, env) matches Ok((t1, env1)) ==> shrunk(t1, t),
    decreases weight(t), 2 * depth(t) + 10, 2 * size(t) - 1,
{
    if t.children.len() == 2 && t.children[0].kind == Kind::Part(PartKind::Params) {
        lemma_fold_all(t.children, Seq::empty(), env);
        lemma_fold_all_count(t.children, env);
        match fold_all(t.children, Seq::empty(), env) {
            Err(_) => {},
            Ok((cs, env1)) => {
                assert(cs.skip(0) =~= cs);
                assert(cs =~= seq![cs[0], cs[1]]);
                lemma_two(cs[0], cs[1]);
                if cs[1].kind == Kind::Stmt(StmtKind::Block) {
                    lemma_fn_like(cs[0].children, cs[1].children, env1, weight(t));
                    match fold_fn_like(cs[0].children, cs[1].children, env1, weight(t)) {
                        Err(_) => {},
                        Ok((ps, ss, env2)) => {
                            lemma_fn_parts(cs[0], cs[1], ps, ss);
                            lemma_two(with(cs[0], ps), with(cs[1], ss));
                        },
                    }
                } else {
                    let ret = return_stmt(cs[1]);
                    lemma_one(cs[1]);
                    lemma_one(ret);
                    lemma_fn_like(cs[0].children, seq![ret], env1, weight(t));
                    match fold_fn_like(cs[0].children, seq![ret], env1, weight(t)) {
                        Err(_) => {},
                        Ok((ps, ss, env2)) => {
                            let body = if ss.len() == 1 {
                                cs[1]
                            } else {
                                inner(Kind::Stmt(StmtKind::Block), cs[1].span, ss)
                            };
                            lemma_two(with(cs[0], ps), body);
                        },
                    }
                }
            },
        }
    }
}

proof fn lemma_fold_stmts(ts: Seq<Tree>, env: Env)
    ensures
        fold_stmts(ts, env) matches Ok((out, env1)) ==> shrunk_all(out, ts),
    decreases weights(ts), 2 * depths(ts) + 12, 2 * sizes(ts) + 1,
{
    if any_pattern(ts) {
        lemma_fold_all(ts, Seq::empty(), env);
        match fold_all(ts, Seq::empty(), env) {
            Err(_) => {},
            Ok((ts1, env1)) => {
                assert(ts1.skip(0) =~= ts1);
                lemma_assign_stmts(ts1, Seq::empty(), env1, weights(ts), depths(ts));
                match assign_stmts(ts1, Seq::empty(), env1, weights(ts), depths(ts)) {
                    Err(_) => {},
                    Ok((out, env2)) => {
                        assert(out.skip(0) =~= out);
                    },
                }
            },
        }
    }
}

proof fn lemma_assign_stmts(ts: Seq<Tree>, done: Seq<Tree>, env: Env, bound: nat, deep: nat)
    ensures
        assign_stmts(ts, done, env, bound, deep) matches Ok((out, env1)) ==> out.len()
            >= done.len() && out.take(done.len() as int) == done && shrunk_all(
            out.skip(done.len() as int),
            ts,
        ),
    decreases bound, 2 * deep + 11, ts.len(),
{
    if ts.len() == 0 {
        assert(done.take(done.len() as int) =~= done);
        assert(done.skip(done.len() as int) =~= ts);
    } else if weight(ts[0]) < bound || (weight(ts[0]) == bound && depth(ts[0]) <= deep) {
        lemma_assign(ts[0], Seq::empty(), env);
        match assign(ts[0], Seq::empty(), env) {
            Err(_) => {},
            Ok((t, vars, env1)) => {
                let done1 = declare_vars(done, vars, t);
                lemma_assign_stmts(ts.drop_first(), done1, env1, bound, deep);
                match assign_stmts(ts, done, env, bound, deep) {
                    Err(_) => {},
                    Ok((out, env2)) => {
                        let n = done.len() as int;
                        let m = done1.len() as int;
                        let decl = var_decl(VarDeclKind::Var, dummy(), vars);
                        let new = if vars.len() == 0 {
                            seq![t]
                        } else {
                            seq![decl, t]
                        };
                        assert(done1 =~= done + new);
                        assert(out.take(n) =~= out.take(m).take(n));
                        assert(done1.take(n) =~= done);
                        assert(out.skip(n) =~= new + out.skip(m)) by {
                            assert(out =~= out.take(m) + out.skip(m));
                        }
                        lemma_one(t);
                        lemma_one(ts[0]);
                        lemma_two(decl, t);
                        lemma_shrunk_add(new, seq![ts[0]], out.skip(m), ts.drop_first());
                        assert(ts =~= seq![ts[0]] + ts.drop_first());
                    },
                }
            },
        }
    }
}

/// What becomes of the assignments in a tree shrinks, and the names that they need add nothing.
pub proof fn lemma_assign(t: Tree, vars: Seq<Tree>, env: Env)
    ensures
        assign(t, vars, env) matches Ok((t1, vars1, env1)) ==> shrunk(t1, t) && weights(vars1)
            == weights(vars) && depths(vars1) == depths(vars),
    decreases weight(t), 2 * depth(t) + 10, 2 * size(t) + 1,
{
    match t.kind {
        Kind::Expr(kind) => if kind == ExprKind::Fn || kind == ExprKind::Object {
            law_shrunk(t, env);
            match fold(t, env) {
                Err(_) => {},
                Ok((t1, env1)) => {
                    assert(folded(t, t1));
                    lemma_fold_kind(t, t1);
                },
            }
        } else {
            lemma_assign_all(t.children, Seq::empty(), vars, env);
            match assign_all(t.children, Seq::empty(), vars, env) {
                Err(_) => {},
                Ok((cs, vars1, env1)) => {
                    assert(cs.skip(0) =~= cs);
                    lemma_shrunk_node(t, cs);
                    lemma_lower_assign(with(t, cs), vars1, env1, weight(t));
                },
            }
        },
        _ => {
            lemma_assign_all(t.children, Seq::empty(), vars, env);
            match assign_all(t.children, Seq::empty(), vars, env) {
                Err(_) => {},
                Ok((cs, vars1, env1)) => {
                    assert(cs.skip(0) =~= cs);
                    assert(assigned(t, with(t, cs)));
                    lemma_assign_hoisted(t, with(t, cs));
                    lemma_shrunk_node(t, cs);
                },
            }
        },
    }
}

pub proof fn lemma_assign_all(ts: Seq<Tree>, done: Seq<Tree>, vars: Seq<Tree>, env: Env)
    ensures
        assign_all(ts, done, vars, env) matches Ok((out, vars1, env1)) ==> shrunk_all(
            out.skip(done.len() as int),
            ts,
        ) && weights(vars1) == weights(vars) && depths(vars1) == depths(vars),
    decreases weights(ts), 2 * depths(ts) + 10, 2 * sizes(ts),
{
    lemma_assign_all_each(ts, done, vars, env);
    match assign_all(ts, done, vars, env) {
        Err(_) => {},
        Ok((out, vars2, env2)) => if ts.len() == 0 {
            assert(out.skip(done.len() as int) =~= ts);
        } else {
            lemma_assign(ts[0], vars, env);
            match assign(ts[0], vars, env) {
                Err(_) => {},
                Ok((t, vars1, env1)) => {
                    let n = done.len() as int;
                    lemma_assign_all(ts.drop_first(), done.push(t), vars1, env1);
                    lemma_assign_all_each(ts.drop_first(), done.push(t), vars1, env1);
                    assert(out.take(n + 1)[n] == t);
                    lemma_shrunk_first(out, n, ts);
                },
            }
        },
    }
}

proof fn lemma_reassign(t: Tree, vars: Seq<Tree>, env: Env, bound: nat)
    ensures
        reassign(t, vars, env, bound) matches Ok((t1, vars1, env1)) ==> weight(t1) <= weight(t)
            && weights(vars1) == weights(vars) && depths(vars1) == depths(vars),
    decreases bound, 0nat, 0nat,
{
    if weight(t) < bound {
        lemma_assign(t, vars, env);
    }
}

proof fn lemma_lower_assign(t: Tree, vars: Seq<Tree>, env: Env, bound: nat)
    requires
        t.kind is Expr,
    ensures
        lower_assign(t, vars, env, bound) matches Ok((t1, vars1, env1)) ==> shrunk(t1, t)
            && weights(vars1) == weights(vars) && depths(vars1) == depths(vars),
    decreases bound, 3nat, 0nat,
{
    if t.kind == Kind::Expr(ExprKind::Assign(AssignOp::Assign)) && t.children.len() == 2 {
        let left = t.children[0];
        let right = t.children[1];
        assert(t.children =~= seq![left, right]);
        lemma_two(left, right);
        lemma_assign_expr(t.span, left, right);
        match left.kind {
            Kind::Pat(PatKind::Expr) => if left.children.len() == 1 {
                lemma_index(left.children, 0);
                lemma_assign_expr(t.span, left.children[0], right);
            },
            Kind::Pat(PatKind::Array) => {
                lemma_leaf(absent());
                lemma_ref_ident(vars, absent(), env);
                match ref_ident(vars, absent(), env) {
                    Err(_) => {},
                    Ok((object, vars1, env1)) => {
                        let first = assign_expr(dummy(), ident_pat(object), right);
                        lemma_names(object);
                        lemma_assign_expr(dummy(), ident_pat(object), right);
                        lemma_one(first);
                        lemma_assign_elems(
                            left.children,
                            0,
                            object,
                            seq![first],
                            vars1,
                            env1,
                            bound,
                        );
                        assert(left.children.skip(0) =~= left.children);
                        match assign_elems(
                            left.children,
                            0,
                            object,
                            seq![first],
                            vars1,
                            env1,
                            bound,
                        ) {
                            Err(_) => {},
                            Ok((exprs, vars2, env2)) => lemma_push(exprs, ident_expr(object)),
                        }
                    },
                }
            },
            Kind::Pat(PatKind::Object) => {
                lemma_leaf(absent());
                lemma_ref_ident(vars, absent(), env);
                match ref_ident(vars, absent(), env) {
                    Err(_) => {},
                    Ok((object, vars1, env1)) => {
                        let first = assign_expr(left.span, ident_pat(object), right);
                        lemma_names(object);
                        lemma_assign_expr(left.span, ident_pat(object), right);
                        lemma_one(first);
                        lemma_assign_props(left.children, 0, object, seq![first], vars1, env1);
                        assert(left.children.skip(0) =~= left.children);
                        match assign_props(left.children, 0, object, seq![first], vars1, env1) {
                            Err(_) => {},
                            Ok((exprs, vars2, env2)) => lemma_push(exprs, ident_expr(object)),
                        }
                    },
                }
            },
            _ => {},
        }
    }
}

/// The assignments for an element of an array pattern.
pub proof fn lemma_elem_assigns(elem: Tree, i: int, object: Name, tmp: Name)
    ensures
        weight(assign_expr(elem.span, elem, ref_idx_expr(object, i))) == weight(elem),
        weight(assign_expr(dummy(), ident_pat(tmp), ref_idx_expr(object, i))) == 0,
        elem.children.len() == 1 && complex_pat(elem) ==> weight(
            assign_expr(elem.span, elem.children[0], slice_call(object, i, dummy())),
        ) < weight(elem),
        elem.children.len() == 2 && complex_pat(elem) ==> weight(
            assign_expr(elem.span, elem.children[0], cond_expr(tmp, elem.children[1])),
        ) < weight(elem),
{
    lemma_elem_exprs(object, i, dummy());
    lemma_assign_expr(elem.span, elem, ref_idx_expr(object, i));
    lemma_names(tmp);
    lemma_assign_expr(dummy(), ident_pat(tmp), ref_idx_expr(object, i));
    if elem.children.len() == 1 {
        lemma_assign_expr(elem.span, elem.children[0], slice_call(object, i, dummy()));
        lemma_index(elem.children, 0);
    }
    if elem.children.len() == 2 {
        assert(elem.children =~= seq![elem.children[0], elem.children[1]]);
        lemma_two(elem.children[0], elem.children[1]);
        lemma_cond_expr(tmp, elem.children[1]);
        lemma_assign_expr(elem.span, elem.children[0], cond_expr(tmp, elem.children[1]));
    }
}

proof fn lemma_assign_elem(
    elem: Tree,
    i: int,
    object: Name,
    exprs: Seq<Tree>,
    vars: Seq<Tree>,
    env: Env,
    bound: nat,
)
    ensures
        assign_elem(elem, i, object, exprs, vars, env, bound) matches Ok((exprs1, vars1, env1))
            ==> weights(exprs1) <= weights(exprs) + weight(elem) && weights(vars1) == weights(vars)
            && depths(vars1) == depths(vars),
    decreases bound, 1nat, 0nat,
{
    match elem.kind {
        Kind::Pat(PatKind::Assign) => if elem.children.len() == 2 {
            lemma_leaf(absent());
            lemma_ref_ident(vars, absent(), env);
            match ref_ident(vars, absent(), env) {
                Err(_) => {},
                Ok((tmp, vars1, env1)) => {
                    lemma_elem_assigns(elem, i, object, tmp);
                    let first = assign_expr(dummy(), ident_pat(tmp), ref_idx_expr(object, i));
                    let sub = assign_expr(
                        elem.span,
                        elem.children[0],
                        cond_expr(tmp, elem.children[1]),
                    );
                    lemma_reassign(sub, vars1, env1, bound);
                    match reassign(sub, vars1, env1, bound) {
                        Err(_) => {},
                        Ok((t, vars2, env2)) => {
                            lemma_push(exprs, first);
                            lemma_push(exprs.push(first), t);
                        },
                    }
                },
            }
        },
        Kind::Pat(PatKind::Rest { dot3 }) => if elem.children.len() == 1 {
            lemma_elem_assigns(elem, i, object, object);
            let sub = assign_expr(elem.span, elem.children[0], slice_call(object, i, dummy()));
            lemma_reassign(sub, vars, env, bound);
            match reassign(sub, vars, env, bound) {
                Err(_) => {},
                Ok((t, vars1, env1)) => lemma_push(exprs, t),
            }
        },
        _ => {
            lemma_elem_assigns(elem, i, object, object);
            let sub = assign_expr(elem.span, elem, ref_idx_expr(object, i));
            lemma_reassign(sub, vars, env, bound);
            match reassign(sub, vars, env, bound) {
                Err(_) => {},
                Ok((t, vars1, env1)) => lemma_push(exprs, t),
            }
        },
    }
}

proof fn lemma_assign_elems(
    elems: Seq<Tree>,
    i: nat,
    object: Name,
    exprs: Seq<Tree>,
    vars: Seq<Tree>,
    env: Env,
    bound: nat,
)
    requires
        i <= elems.len(),
    ensures
        assign_elems(elems, i, object, exprs, vars, env, bound) matches Ok((exprs1, vars1, env1))
            ==> weights(exprs1) <= weights(exprs) + weights(elems.skip(i as int)) && weights(vars1)
            == weights(vars) && depths(vars1) == depths(vars),
    decreases bound, 1nat, 1 + elems.len() - i,
{
    if i < elems.len() {
        let elem = elems[i as int];
        assert(elems.skip(i as int).drop_first() =~= elems.skip(i as int + 1));
        assert(elems.skip(i as int)[0] == elem);
        if elem.kind == Kind::Absent {
            lemma_assign_elems(elems, i + 1, object, exprs, vars, env, bound);
        } else {
            lemma_assign_elem(elem, i as int, object, exprs, vars, env, bound);
            match assign_elem(elem, i as int, object, exprs, vars, env, bound) {
                Err(_) => {},
                Ok((exprs1, vars1, env1)) => lemma_assign_elems(
                    elems,
                    i + 1,
                    object,
                    exprs1,
                    vars1,
                    env1,
                    bound,
                ),
            }
        }
    }
}

proof fn lemma_assign_prop(
    prop: Tree,
    object: Name,
    exprs: Seq<Tree>,
    vars: Seq<Tree>,
    env: Env,
)
    ensures
        assign_prop(prop, object, exprs, vars, env) matches Ok((exprs1, vars1, env1)) ==> weights(
            exprs1,
        ) <= weights(exprs) + weight(prop) && weights(vars1) == weights(vars) && depths(vars1)
            == depths(vars),
{
    if prop.children.len() == 2 {
        let key = prop.children[0];
        let value = prop.children[1];
        let name = name_of(key);
        let property = ref_prop_expr(object, ident_expr(name));
        assert(prop.children =~= seq![key, value]);
        lemma_two(key, value);
        lemma_names(name);
        lemma_member(object, ident_expr(name), false);
        lemma_prop_name(object, key);
        match prop.kind {
            Kind::PatProp(PatPropKind::KeyValue) => match prop_name_expr(key) {
                None => {},
                Some(e) => {
                    let t = assign_expr(prop.span, value, ref_prop_expr(object, e));
                    lemma_assign_expr(prop.span, value, ref_prop_expr(object, e));
                    lemma_push(exprs, t);
                },
            },
            Kind::PatProp(PatPropKind::Assign) => {
                if value.kind == Kind::Absent {
                    let t = assign_expr(prop.span, ident_pat(name), property);
                    lemma_assign_expr(prop.span, ident_pat(name), property);
                    lemma_push(exprs, t);
                } else {
                    lemma_leaf(absent());
                    lemma_ref_ident(vars, absent(), env);
                    match ref_ident(vars, absent(), env) {
                        Err(_) => {},
                        Ok((tmp, vars1, env1)) => {
                            let t = assign_expr(prop.span, ident_pat(tmp), property);
                            let u = assign_expr(prop.span, ident_pat(name), cond_expr(tmp, value));
                            lemma_names(tmp);
                            lemma_cond_expr(tmp, value);
                            lemma_assign_expr(prop.span, ident_pat(tmp), property);
                            lemma_assign_expr(prop.span, ident_pat(name), cond_expr(tmp, value));
                            lemma_push(exprs, t);
                            lemma_push(exprs.push(t), u);
                        },
                    }
                }
            },
            _ => {},
        }
    }
}

proof fn lemma_assign_props(
    props: Seq<Tree>,
    i: nat,
    object: Name,
    exprs: Seq<Tree>,
    vars: Seq<Tree>,
    env: Env,
)
    requires
        i <= props.len(),
    ensures
        assign_props(props, i, object, exprs, vars, env) matches Ok((exprs1, vars1, env1))
            ==> weights(exprs1) <= weights(exprs) + weights(props.skip(i as int)) && weights(vars1)
            == weights(vars) && depths(vars1) == depths(vars),
    decreases props.len() - i,
{
    if i < props.len() {
        assert(props.skip(i as int).drop_first() =~= props.skip(i as int + 1));
        assert(props.skip(i as int)[0] == props[i as int]);
        lemma_assign_prop(props[i as int], object, exprs, vars, env);
        match assign_prop(props[i as int], object, exprs, vars, env) {
            Err(_) => {},
            Ok((exprs1, vars1, env1)) => lemma_assign_props(
                props,
                i + 1,
                object,
                exprs1,
                vars1,
                env1,
            ),
        }
    }
}

} // verus!
