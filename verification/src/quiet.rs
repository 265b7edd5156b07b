//! Declarations whose values hold no functions: what was lowered once stays as it is.
use crate::ast::{
    ExprKind, Kind, MemberKind, PartKind, PatKind, PatPropKind, PropKind, Span, StmtKind, Tree,
};
use crate::bindings::law_single;
use crate::factory::{
    absent, cond_expr, declarator, dummy, helper_call, ident_expr, ident_pat, member, non_null_expr,
    number, prop_name_expr, quoted, ref_idx_expr, ref_prop_expr, slice_call,
};
use crate::hygiene::{Env, Name, Refusal};
use crate::measure::{any_complex, depths, is_stmts, sizes, weights};
use crate::rules::{
    alias_ident, array_ident, copied_array, copied_object, elem_decl, fold, fold_all, fold_decls,
    is_decl, lower_decl, lower_decls, lower_elems, lower_prop, lower_props, name_of, object_ident,
    ref_ident, refold, tmp_ident, with,
};
use crate::shrink::is_loop;
use vstd::prelude::*;

verus! {

/// Whether the lowering of declarations does more with such a node than to go over its children: it
/// is a list of statements, a loop, a declaration, or something with parameters.
pub open spec fn active(kind: Kind) -> bool {
    is_stmts(kind) || is_loop(kind) || match kind {
        Kind::Stmt(StmtKind::VarDecl { kind, declare }) => true,
        Kind::Part(PartKind::Function { is_async, is_generator }) => true,
        Kind::Member(MemberKind::Constructor) => true,
        Kind::Prop(PropKind::Setter) => true,
        Kind::Part(PartKind::Catch) => true,
        Kind::Expr(ExprKind::Arrow { is_async, is_generator }) => true,
        _ => false,
    }
}

/// Whether a tree holds no function, method, class with a constructor, statement list, loop or
/// declaration.
pub open spec fn quiet(t: Tree) -> bool
    decreases t,
{
    !active(t.kind) && forall|i: int|
        0 <= i < t.children.len() ==> quiet(#[trigger] t.children[i])
}

/// Whether that holds of each of the trees.
pub open spec fn all_quiet(ts: Seq<Tree>) -> bool {
    forall|i: int| 0 <= i < ts.len() ==> quiet(#[trigger] ts[i])
}

/// Such a tree comes out as it is.
pub proof fn lemma_still(t: Tree, env: Env)
    requires
        quiet(t),
    ensures
        fold(t, env) == Ok::<_, Refusal>((t, env)),
    decreases t,
{
    lemma_still_all(t.children, Seq::empty(), env);
    assert(Seq::<Tree>::empty() + t.children =~= t.children);
    assert(with(t, t.children) == t);
}

/// Such trees come out as they are.
pub proof fn lemma_still_all(ts: Seq<Tree>, done: Seq<Tree>, env: Env)
    requires
        all_quiet(ts),
    ensures
        fold_all(ts, done, env) == Ok::<_, Refusal>((done + ts, env)),
    decreases ts,
{
    if ts.len() == 0 {
        assert(done + ts =~= done);
    } else {
        lemma_still(ts[0], env);
        let rest = ts.drop_first();
        assert forall|i: int| 0 <= i < rest.len() implies quiet(#[trigger] rest[i]) by {
            assert(rest[i] == ts[i + 1]);
        }
        lemma_still_all(rest, done.push(ts[0]), env);
        assert(done.push(ts[0]) + rest =~= done + ts);
    }
}

proof fn lemma_push(ts: Seq<Tree>, t: Tree)
    requires
        all_quiet(ts),
        quiet(t),
    ensures
        all_quiet(ts.push(t)),
{
    assert forall|i: int| 0 <= i < ts.push(t).len() implies quiet(#[trigger] ts.push(t)[i]) by {
        if i < ts.len() {
            assert(ts.push(t)[i] == ts[i]);
        }
    }
}

proof fn lemma_add(a: Seq<Tree>, b: Seq<Tree>)
    requires
        all_quiet(a),
        all_quiet(b),
    ensures
        all_quiet(a + b),
{
    assert forall|i: int| 0 <= i < (a + b).len() implies quiet(#[trigger] (a + b)[i]) by {
        if i < a.len() {
            assert((a + b)[i] == a[i]);
        } else {
            assert((a + b)[i] == b[i - a.len()]);
        }
    }
}

proof fn lemma_one(t: Tree, a: Tree)
    requires
        !active(t.kind),
        t.children == seq![a],
        quiet(a),
    ensures
        quiet(t),
{
    assert forall|i: int| 0 <= i < t.children.len() implies quiet(#[trigger] t.children[i]) by {}
}

proof fn lemma_two(t: Tree, a: Tree, b: Tree)
    requires
        !active(t.kind),
        t.children == seq![a, b],
        quiet(a),
        quiet(b),
    ensures
        quiet(t),
{
    assert forall|i: int| 0 <= i < t.children.len() implies quiet(#[trigger] t.children[i]) by {
        assert(i == 0 || i == 1);
    }
}

proof fn lemma_three(t: Tree, a: Tree, b: Tree, c: Tree)
    requires
        !active(t.kind),
        t.children == seq![a, b, c],
        quiet(a),
        quiet(b),
        quiet(c),
    ensures
        quiet(t),
{
    assert forall|i: int| 0 <= i < t.children.len() implies quiet(#[trigger] t.children[i]) by {
        assert(i == 0 || i == 1 || i == 2);
    }
}

proof fn lemma_names(name: Name)
    ensures
        quiet(ident_expr(name)),
        quiet(ident_pat(name)),
        quiet(absent()),
{
}

proof fn lemma_declarator(span: Span, name: Tree, init: Tree)
    requires
        quiet(name),
        quiet(init),
    ensures
        quiet(declarator(span, name, init)),
        all_quiet(seq![declarator(span, name, init)]),
{
    let d = declarator(span, name, init);
    lemma_two(d, name, init);
    assert forall|i: int| 0 <= i < seq![d].len() implies quiet(#[trigger] seq![d][i]) by {}
}

proof fn lemma_member(object: Name, property: Tree, computed: bool)
    requires
        quiet(property),
    ensures
        quiet(member(object, property, computed)),
{
    lemma_names(object);
    lemma_two(member(object, property, computed), ident_expr(object), property);
}

proof fn lemma_elem_exprs(object: Name, i: int, span: Span)
    ensures
        quiet(ref_idx_expr(object, i)),
        quiet(slice_call(object, i, span)),
{
    assert(quiet(number(i, dummy())));
    assert(quiet(number(i, span)));
    lemma_member(object, number(i, dummy()), true);
    let slice = ident_expr(quoted("slice"@));
    lemma_names(quoted("slice"@));
    lemma_member(object, slice, false);
    lemma_two(slice_call(object, i, span), member(object, slice, false), number(i, span));
}

proof fn lemma_cond(tmp: Name, default: Tree)
    requires
        quiet(default),
    ensures
        quiet(cond_expr(tmp, default)),
{
    let t = cond_expr(tmp, default);
    let test = t.children[0];
    let void = test.children[1];
    lemma_names(tmp);
    assert(quiet(void.children[0]));
    lemma_one(void, void.children[0]);
    lemma_two(test, ident_expr(tmp), void);
    lemma_three(t, test, default, ident_expr(tmp));
}

proof fn lemma_non_null(object: Name, throw: Name)
    ensures
        quiet(non_null_expr(object, throw)),
{
    let t = non_null_expr(object, throw);
    let call = t.children[2];
    let error = call.children[1];
    lemma_names(object);
    lemma_names(throw);
    lemma_names(quoted("TypeError"@));
    assert(quiet(error.children[1]));
    lemma_two(error, error.children[0], error.children[1]);
    lemma_two(call, ident_expr(throw), error);
    lemma_three(t, ident_expr(object), ident_expr(object), call);
}

/// One more declarator of a name.
proof fn lemma_new(decls: Seq<Tree>, span: Span, name: Name, init: Tree)
    requires
        all_quiet(decls),
        quiet(init),
    ensures
        all_quiet(decls.push(declarator(span, ident_pat(name), init))),
{
    lemma_names(name);
    lemma_declarator(span, ident_pat(name), init);
    lemma_push(decls, declarator(span, ident_pat(name), init));
}

proof fn lemma_ref_ident(decls: Seq<Tree>, init: Tree, env: Env)
    requires
        all_quiet(decls),
        quiet(init),
    ensures
        ref_ident(decls, init, env) matches Ok((name, decls1, env1)) ==> all_quiet(decls1),
{
    match ref_ident(decls, init, env) {
        Err(_) => {},
        Ok((name, decls1, env1)) => {
            let span = if init.kind == Kind::Absent {
                dummy()
            } else {
                init.span
            };
            lemma_new(decls, span, name, init);
        },
    }
}

proof fn lemma_array_ident(elems: Seq<Tree>, decls: Seq<Tree>, init: Tree, env: Env)
    requires
        all_quiet(decls),
        quiet(init),
    ensures
        array_ident(elems, decls, init, env) matches Ok((name, decls1, env1)) ==> all_quiet(decls1),
{
    lemma_ref_ident(decls, init, env);
    if copied_array(elems, init) {
        match array_ident(elems, decls, init, env) {
            Err(_) => {},
            Ok((name, decls3, env3)) => {
                let (alias, decls1, env1) = alias_ident(decls, init, env)->Ok_0;
                let (helper, env2) = env1.to_array()->Ok_0;
                lemma_new(decls, init.span, alias, init);
                lemma_names(helper);
                lemma_names(alias);
                let call = helper_call(helper, alias);
                lemma_two(call, ident_expr(helper), ident_expr(alias));
                lemma_new(decls1, dummy(), name, call);
            },
        }
    }
}

proof fn lemma_object_ident(props: Seq<Tree>, decls: Seq<Tree>, init: Tree, env: Env)
    requires
        all_quiet(decls),
        quiet(init),
    ensures
        object_ident(props, decls, init, env) matches Ok((name, decls1, env1)) ==> all_quiet(
            decls1,
        ),
{
    if copied_object(props, init) {
        match alias_ident(decls, init, env) {
            Err(_) => {},
            Ok((alias, decls1, env1)) => lemma_new(decls, init.span, alias, init),
        }
    } else {
        lemma_ref_ident(decls, init, env);
        match ref_ident(decls, init, env) {
            Err(_) => {},
            Ok((object, decls1, env1)) => match env1.throw() {
                Err(_) => {},
                Ok((throw, env2)) => {
                    lemma_non_null(object, throw);
                    lemma_ref_ident(decls1, non_null_expr(object, throw), env2);
                },
            },
        }
    }
}

proof fn lemma_fold_decls(ds: Seq<Tree>, env: Env)
    requires
        all_quiet(ds),
    ensures
        fold_decls(ds, env) matches Ok((out, env1)) ==> all_quiet(out),
    decreases weights(ds), 2 * depths(ds) + 10, 2 * sizes(ds) + 1,
{
    lemma_still_all(ds, Seq::empty(), env);
    assert(Seq::<Tree>::empty() + ds =~= ds);
    if any_complex(ds) {
        lemma_lower_decls(ds, Seq::empty(), env, weights(ds));
    }
}

proof fn lemma_refold(d: Tree, done: Seq<Tree>, env: Env, bound: nat)
    requires
        all_quiet(seq![d]),
        all_quiet(done),
    ensures
        refold(seq![d], env, bound) matches Ok((ds, env1)) ==> all_quiet(done + ds),
    decreases bound, 0nat, 0nat,
{
    if weights(seq![d]) < bound {
        lemma_fold_decls(seq![d], env);
        match refold(seq![d], env, bound) {
            Err(_) => {},
            Ok((ds, env1)) => lemma_add(done, ds),
        }
    }
}

proof fn lemma_lower_decls(ds: Seq<Tree>, done: Seq<Tree>, env: Env, bound: nat)
    requires
        all_quiet(ds),
        all_quiet(done),
    ensures
        lower_decls(ds, done, env, bound) matches Ok((out, env1)) ==> all_quiet(out),
    decreases bound, 3nat, ds.len(),
{
    if ds.len() > 0 {
        lemma_lower_decl(ds[0], done, env, bound);
        match lower_decl(ds[0], done, env, bound) {
            Err(_) => {},
            Ok((done1, env1)) => {
                let rest = ds.drop_first();
                assert forall|i: int| 0 <= i < rest.len() implies quiet(#[trigger] rest[i]) by {
                    assert(rest[i] == ds[i + 1]);
                }
                lemma_lower_decls(rest, done1, env1, bound);
            },
        }
    }
}

proof fn lemma_lower_decl(d: Tree, done: Seq<Tree>, env: Env, bound: nat)
    requires
        quiet(d),
        all_quiet(done),
    ensures
        lower_decl(d, done, env, bound) matches Ok((out, env1)) ==> all_quiet(out),
    decreases bound, 2nat, 0nat,
{
    if is_decl(d) {
        let name = d.children[0];
        let init = d.children[1];
        assert(quiet(name) && quiet(init));
        assert(all_quiet(name.children));
        match name.kind {
            Kind::Pat(PatKind::Ident) => lemma_push(done, d),
            Kind::Pat(PatKind::Array) => {
                lemma_array_ident(name.children, done, init, env);
                match array_ident(name.children, done, init, env) {
                    Err(_) => {},
                    Ok((object, done1, env1)) => lemma_lower_elems(
                        name.children,
                        0,
                        object,
                        done1,
                        env1,
                        bound,
                    ),
                }
            },
            Kind::Pat(PatKind::Object) => {
                lemma_object_ident(name.children, done, init, env);
                match object_ident(name.children, done, init, env) {
                    Err(_) => {},
                    Ok((object, done1, env1)) => lemma_lower_props(
                        name.children,
                        0,
                        object,
                        done1,
                        env1,
                        bound,
                    ),
                }
            },
            Kind::Pat(PatKind::Assign) => if name.children.len() == 2 {
                match tmp_ident(done, init, name.span, env) {
                    Err(_) => {},
                    Ok((tmp, done1, env1)) => {
                        lemma_new(done, dummy(), tmp, init);
                        lemma_cond(tmp, name.children[1]);
                        let value = cond_expr(tmp, name.children[1]);
                        lemma_declarator(name.span, name.children[0], value);
                        lemma_refold(
                            declarator(name.span, name.children[0], value),
                            done1,
                            env1,
                            bound,
                        );
                    },
                }
            },
            _ => {},
        }
    }
}

proof fn lemma_lower_elems(
    elems: Seq<Tree>,
    i: nat,
    object: Name,
    done: Seq<Tree>,
    env: Env,
    bound: nat,
)
    requires
        all_quiet(elems),
        all_quiet(done),
    ensures
        lower_elems(elems, i, object, done, env, bound) matches Ok((out, env1)) ==> all_quiet(out),
    decreases bound, 1nat, elems.len() - i,
{
    if i < elems.len() {
        let elem = elems[i as int];
        assert(quiet(elem));
        if elem.kind == Kind::Absent {
            lemma_lower_elems(elems, i + 1, object, done, env, bound);
        } else {
            match elem.kind {
                Kind::Pat(PatKind::Rest { dot3 }) => if elem.children.len() == 1 {
                    lemma_elem_exprs(object, i as int, dot3);
                    assert(quiet(elem.children[0]));
                    lemma_declarator(
                        dot3,
                        elem.children[0],
                        slice_call(object, i as int, dot3),
                    );
                },
                _ => {
                    lemma_elem_exprs(object, i as int, dummy());
                    lemma_declarator(elem.span, elem, ref_idx_expr(object, i as int));
                },
            }
            match elem_decl(elem, i as int, object) {
                None => {},
                Some(d) => {
                    lemma_refold(d, done, env, bound);
                    match refold(seq![d], env, bound) {
                        Err(_) => {},
                        Ok((ds, env1)) => lemma_lower_elems(
                            elems,
                            i + 1,
                            object,
                            done + ds,
                            env1,
                            bound,
                        ),
                    }
                },
            }
        }
    }
}

proof fn lemma_lower_prop(prop: Tree, object: Name, done: Seq<Tree>, env: Env, bound: nat)
    requires
        quiet(prop),
        all_quiet(done),
    ensures
        lower_prop(prop, object, done, env, bound) matches Ok((out, env1)) ==> all_quiet(out),
    decreases bound, 1nat, 0nat,
{
    if prop.children.len() == 2 {
        let key = prop.children[0];
        let value = prop.children[1];
        assert(quiet(key) && quiet(value));
        match prop.kind {
            Kind::PatProp(PatPropKind::KeyValue) => match prop_name_expr(key) {
                None => {},
                Some(property) => {
                    assert(quiet(property)) by {
                        if property.children.len() > 0 {
                            assert(quiet(key.children[0]));
                        }
                    }
                    lemma_member(
                        object,
                        property,
                        property.kind != Kind::Expr(ExprKind::Ident),
                    );
                    let init = ref_prop_expr(object, property);
                    lemma_declarator(prop.span, value, init);
                    lemma_refold(declarator(prop.span, value, init), done, env, bound);
                },
            },
            Kind::PatProp(PatPropKind::Assign) => {
                let name = name_of(key);
                let property = ref_prop_expr(object, ident_expr(name));
                lemma_names(name);
                lemma_member(object, ident_expr(name), false);
                if value.kind == Kind::Absent {
                    lemma_declarator(prop.span, ident_pat(name), property);
                    lemma_refold(
                        declarator(prop.span, ident_pat(name), property),
                        done,
                        env,
                        bound,
                    );
                } else {
                    lemma_ref_ident(done, property, env);
                    match ref_ident(done, property, env) {
                        Err(_) => {},
                        Ok((tmp, done1, env1)) => {
                            lemma_cond(tmp, value);
                            let init = cond_expr(tmp, value);
                            lemma_declarator(prop.span, ident_pat(name), init);
                            lemma_refold(
                                declarator(prop.span, ident_pat(name), init),
                                done1,
                                env1,
                                bound,
                            );
                        },
                    }
                }
            },
            _ => {},
        }
    }
}

proof fn lemma_lower_props(
    props: Seq<Tree>,
    i: nat,
    object: Name,
    done: Seq<Tree>,
    env: Env,
    bound: nat,
)
    requires
        all_quiet(props),
        all_quiet(done),
    ensures
        lower_props(props, i, object, done, env, bound) matches Ok((out, env1)) ==> all_quiet(out),
    decreases bound, 1nat, 1 + props.len() - i,
{
    if i < props.len() {
        assert(quiet(props[i as int]));
        lemma_lower_prop(props[i as int], object, done, env, bound);
        match lower_prop(props[i as int], object, done, env, bound) {
            Err(_) => {},
            Ok((done1, env1)) => lemma_lower_props(props, i + 1, object, done1, env1, bound),
        }
    }
}

/// A declaration that holds no functions and was lowered once comes out as it is, and nothing is
/// made for it.
pub proof fn law_settled(t: Tree, env: Env)
    requires
        t.kind is Stmt,
        t.kind->Stmt_0 is VarDecl,
        all_quiet(t.children),
    ensures
        fold(t, env) matches Ok((t1, env1)) ==> fold(t1, env1) == Ok::<_, Refusal>((t1, env1)),
{
    lemma_fold_decls(t.children, env);
    law_single(t, env);
    match fold(t, env) {
        Err(_) => {},
        Ok((t1, env1)) => {
            assert(!any_complex(t1.children));
            lemma_still_all(t1.children, Seq::empty(), env1);
            assert(Seq::<Tree>::empty() + t1.children =~= t1.children);
            assert(with(t1, t1.children) == t1);
        },
    }
}

} // verus!
