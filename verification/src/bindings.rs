//! What is declared: a declaration declares the names that its patterns bind, in their order, and
//! besides them only new ones.
use crate::ast::{ExprKind, Kind, PartKind, PatKind, PatPropKind, Span, Tree};
use crate::factory::{
    cond_expr, declarator, dummy, helper_call, ident_expr, ident_pat, non_null_expr, prop_name_expr,
    ref_prop_expr,
};
use crate::growth::{law_fresh, lemma_throw, lemma_to_array};
use crate::hygiene::{Env, Name};
use crate::measure::{any_complex, complex_decl, depths, sizes, weights};
use crate::nullness::nullable;
use crate::reach::taken;
use crate::rules::{
    alias_ident, all_decls, array_ident, copied_array, copied_object, elem_decl, fold, fold_all,
    fold_arrow, fold_decls, fold_for, fold_function, init_all, is_decl, lower_decl, lower_decls,
    lower_elems, lower_prop, lower_props, name_of, non_null_ident, object_ident, ref_ident, refold,
    split_params, tmp_ident, with,
};
use crate::shrink::{folded, is_loop};
use vstd::prelude::*;

verus! {

/// The names that a pattern binds, in their order.
pub open spec fn bound(t: Tree) -> Seq<Name>
    decreases t,
{
    match t.kind {
        Kind::Pat(PatKind::Ident) => seq![name_of(t)],
        Kind::Pat(PatKind::Array) => bound_all(t.children),
        Kind::Pat(PatKind::Object) => bound_all(t.children),
        Kind::Pat(PatKind::Rest { dot3 }) => bound_all(t.children),
        Kind::Pat(PatKind::Assign) => if t.children.len() > 0 {
            bound(t.children[0])
        } else {
            Seq::empty()
        },
        Kind::PatProp(PatPropKind::KeyValue) => if t.children.len() == 2 {
            bound(t.children[1])
        } else {
            Seq::empty()
        },
        Kind::PatProp(PatPropKind::Assign) => if t.children.len() > 0 {
            seq![name_of(t.children[0])]
        } else {
            Seq::empty()
        },
        _ => Seq::empty(),
    }
}

/// The names that patterns bind, in their order.
pub open spec fn bound_all(ts: Seq<Tree>) -> Seq<Name>
    decreases ts,
{
    if ts.len() == 0 {
        Seq::empty()
    } else {
        bound(ts[0]) + bound_all(ts.drop_first())
    }
}

/// The names that a declarator declares.
pub open spec fn declared(d: Tree) -> Seq<Name> {
    if is_decl(d) {
        bound(d.children[0])
    } else {
        Seq::empty()
    }
}

/// The names that declarators declare, in their order.
pub open spec fn declared_all(ds: Seq<Tree>) -> Seq<Name>
    decreases ds.len(),
{
    if ds.len() == 0 {
        Seq::empty()
    } else {
        declared(ds[0]) + declared_all(ds.drop_first())
    }
}

/// Those of the names whose context is one of the first `n`.
pub open spec fn known(names: Seq<Name>, n: nat) -> Seq<Name>
    decreases names.len(),
{
    if names.len() == 0 {
        Seq::empty()
    } else if names[0].span.ctxt < n {
        seq![names[0]] + known(names.drop_first(), n)
    } else {
        known(names.drop_first(), n)
    }
}

/// Whether the context of each of the names is one of the first `n`.
pub open spec fn all_known(names: Seq<Name>, n: nat) -> bool {
    forall|i: int| 0 <= i < names.len() ==> (#[trigger] names[i]).span.ctxt < n
}

/// Whether each of the declarators declares a single name.
pub open spec fn all_single(ds: Seq<Tree>) -> bool {
    forall|i: int| 0 <= i < ds.len() ==> !complex_decl(#[trigger] ds[i])
}

proof fn lemma_known_add(a: Seq<Name>, b: Seq<Name>, n: nat)
    ensures
        known(a + b, n) == known(a, n) + known(b, n),
    decreases a.len(),
{
    if a.len() == 0 {
        assert(a + b =~= b);
        assert(known(a, n) + known(b, n) =~= known(b, n));
    } else {
        assert((a + b).drop_first() =~= a.drop_first() + b);
        lemma_known_add(a.drop_first(), b, n);
        assert(known(a + b, n) =~= known(a, n) + known(b, n));
    }
}

proof fn lemma_known_same(names: Seq<Name>, n: nat)
    requires
        all_known(names, n),
    ensures
        known(names, n) == names,
    decreases names.len(),
{
    if names.len() > 0 {
        assert(names[0].span.ctxt < n);
        assert forall|i: int| 0 <= i < names.drop_first().len() implies (
        #[trigger] names.drop_first()[i]).span.ctxt < n by {
            assert(names.drop_first()[i] == names[i + 1]);
        }
        lemma_known_same(names.drop_first(), n);
        assert(known(names, n) =~= names);
    } else {
        assert(known(names, n) =~= names);
    }
}

proof fn lemma_all_known_add(a: Seq<Name>, b: Seq<Name>, n: nat)
    requires
        all_known(a + b, n),
    ensures
        all_known(a, n),
        all_known(b, n),
{
    assert forall|i: int| 0 <= i < a.len() implies (#[trigger] a[i]).span.ctxt < n by {
        assert((a + b)[i] == a[i]);
    }
    assert forall|i: int| 0 <= i < b.len() implies (#[trigger] b[i]).span.ctxt < n by {
        assert((a + b)[a.len() + i] == b[i]);
    }
}

proof fn lemma_declared_add(a: Seq<Tree>, b: Seq<Tree>)
    ensures
        declared_all(a + b) == declared_all(a) + declared_all(b),
    decreases a.len(),
{
    if a.len() == 0 {
        assert(a + b =~= b);
        assert(declared_all(a) + declared_all(b) =~= declared_all(b));
    } else {
        assert((a + b).drop_first() =~= a.drop_first() + b);
        lemma_declared_add(a.drop_first(), b);
        assert(declared_all(a + b) =~= declared_all(a) + declared_all(b));
    }
}

proof fn lemma_declared_one(d: Tree)
    ensures
        declared_all(seq![d]) == declared(d),
{
    assert(seq![d].drop_first() =~= Seq::empty());
    assert(declared_all(Seq::empty()) =~= Seq::empty());
    assert(declared_all(seq![d]) =~= declared(d));
}

/// More declarators behind those that are done.
proof fn lemma_more(done: Seq<Tree>, ds: Seq<Tree>, n: nat)
    ensures
        known(declared_all(done + ds), n) == known(declared_all(done), n) + known(
            declared_all(ds),
            n,
        ),
        all_single(done) && all_single(ds) ==> all_single(done + ds),
{
    lemma_declared_add(done, ds);
    lemma_known_add(declared_all(done), declared_all(ds), n);
    if all_single(done) && all_single(ds) {
        assert forall|i: int| 0 <= i < (done + ds).len() implies !complex_decl(
            #[trigger] (done + ds)[i],
        ) by {
            if i < done.len() {
                assert((done + ds)[i] == done[i]);
            } else {
                assert((done + ds)[i] == ds[i - done.len()]);
            }
        }
    }
}

/// One more declarator, of a name that the pass has made.
proof fn lemma_new_name(done: Seq<Tree>, span: Span, name: Name, init: Tree, n: nat)
    ensures
        all_single(done) ==> all_single(done.push(declarator(span, ident_pat(name), init))),
        name.span.ctxt >= n ==> known(
            declared_all(done.push(declarator(span, ident_pat(name), init))),
            n,
        ) == known(declared_all(done), n),
{
    let d = declarator(span, ident_pat(name), init);
    assert(done.push(d) =~= done + seq![d]);
    lemma_more(done, seq![d], n);
    lemma_declared_one(d);
    assert(d.children[0] == ident_pat(name));
    let names = declared(d);
    assert(names.drop_first() =~= Seq::empty());
    assert(known(Seq::empty(), n) =~= Seq::empty());
    if name.span.ctxt >= n {
        assert(known(names, n) =~= Seq::empty());
        assert(known(declared_all(done), n) + Seq::<Name>::empty() =~= known(
            declared_all(done),
            n,
        ));
    }
    assert(all_single(seq![d]));
}

/// Whether a state is in order and knows the first `n` contexts.
spec fn sane(env: Env, n: nat) -> bool {
    env.wf() && n <= env.contexts.len()
}

/// Whether declarators came out that declare what those before declared, and the given names.
spec fn adds(
    before: Seq<Tree>,
    env: Env,
    names: Seq<Name>,
    after: Seq<Tree>,
    env1: Env,
    n: nat,
) -> bool {
    &&& all_single(before) ==> all_single(after)
    &&& sane(env, n) && all_known(names, n) ==> sane(env1, n) && known(declared_all(after), n)
        == known(declared_all(before), n) + names
}

proof fn lemma_ref_ident(decls: Seq<Tree>, init: Tree, env: Env, n: nat)
    ensures
        ref_ident(decls, init, env) matches Ok((name, decls1, env1)) ==> adds(
            decls,
            env,
            Seq::empty(),
            decls1,
            env1,
            n,
        ),
{
    match ref_ident(decls, init, env) {
        Err(_) => {},
        Ok((name, decls1, env1)) => {
            assert(known(declared_all(decls), n) + Seq::<Name>::empty() =~= known(
                declared_all(decls),
                n,
            ));
            if init.kind != Kind::Expr(ExprKind::Ident) {
                let span = if init.kind == Kind::Absent {
                    dummy()
                } else {
                    init.span
                };
                if env.wf() {
                    law_fresh(env, span, crate::rules::ref_text(init));
                }
                lemma_new_name(decls, span, name, init, n);
            }
        },
    }
}

proof fn lemma_tmp_ident(decls: Seq<Tree>, init: Tree, span: Span, env: Env, n: nat)
    ensures
        tmp_ident(decls, init, span, env) matches Ok((name, decls1, env1)) ==> adds(
            decls,
            env,
            Seq::empty(),
            decls1,
            env1,
            n,
        ),
{
    match tmp_ident(decls, init, span, env) {
        Err(_) => {},
        Ok((name, decls1, env1)) => {
            assert(known(declared_all(decls), n) + Seq::<Name>::empty() =~= known(
                declared_all(decls),
                n,
            ));
            if env.wf() {
                law_fresh(env, span, "tmp"@);
            }
            lemma_new_name(decls, dummy(), name, init, n);
        },
    }
}

proof fn lemma_non_null_ident(decls: Seq<Tree>, name: Name, checked: bool, env: Env, n: nat)
    ensures
        non_null_ident(decls, name, checked, env) matches Ok((name1, decls1, env1)) ==> adds(
            decls,
            env,
            Seq::empty(),
            decls1,
            env1,
            n,
        ),
{
    assert(known(declared_all(decls), n) + Seq::<Name>::empty() =~= known(declared_all(decls), n));
    if checked {
        lemma_throw(env);
        match env.throw() {
            Err(_) => {},
            Ok((throw, env1)) => lemma_ref_ident(decls, non_null_expr(name, throw), env1, n),
        }
    }
}

/// One step after another.
proof fn lemma_adds(
    a: Seq<Tree>,
    env: Env,
    names1: Seq<Name>,
    b: Seq<Tree>,
    env1: Env,
    names2: Seq<Name>,
    c: Seq<Tree>,
    env2: Env,
    n: nat,
)
    requires
        adds(a, env, names1, b, env1, n),
        adds(b, env1, names2, c, env2, n),
    ensures
        adds(a, env, names1 + names2, c, env2, n),
{
    if sane(env, n) && all_known(names1 + names2, n) {
        lemma_all_known_add(names1, names2, n);
        assert(known(declared_all(a), n) + (names1 + names2) =~= known(declared_all(a), n) + names1
            + names2);
    }
}

proof fn lemma_alias_ident(decls: Seq<Tree>, init: Tree, env: Env, n: nat)
    ensures
        alias_ident(decls, init, env) matches Ok((name, decls1, env1)) ==> adds(
            decls,
            env,
            Seq::empty(),
            decls1,
            env1,
            n,
        ),
{
    match alias_ident(decls, init, env) {
        Err(_) => {},
        Ok((name, decls1, env1)) => {
            assert(known(declared_all(decls), n) + Seq::<Name>::empty() =~= known(
                declared_all(decls),
                n,
            ));
            if env.wf() {
                law_fresh(env, init.span, "_"@ + init.text);
            }
            lemma_new_name(decls, init.span, name, init, n);
        },
    }
}

proof fn lemma_array_ident(elems: Seq<Tree>, decls: Seq<Tree>, init: Tree, env: Env, n: nat)
    ensures
        array_ident(elems, decls, init, env) matches Ok((name, decls1, env1)) ==> adds(
            decls,
            env,
            Seq::empty(),
            decls1,
            env1,
            n,
        ),
{
    if !copied_array(elems, init) {
        lemma_ref_ident(decls, init, env, n);
    } else {
        lemma_alias_ident(decls, init, env, n);
        match array_ident(elems, decls, init, env) {
            Err(_) => {},
            Ok((name, decls3, env3)) => {
                let (alias, decls1, env1) = alias_ident(decls, init, env)->Ok_0;
                let (helper, env2) = env1.to_array()->Ok_0;
                lemma_to_array(env1);
                if env2.wf() {
                    law_fresh(env2, dummy(), "_"@ + init.text + "2"@);
                }
                lemma_new_name(decls1, dummy(), name, helper_call(helper, alias), n);
            },
        }
    }
}

proof fn lemma_object_ident(props: Seq<Tree>, decls: Seq<Tree>, init: Tree, env: Env, n: nat)
    ensures
        object_ident(props, decls, init, env) matches Ok((name, decls1, env1)) ==> adds(
            decls,
            env,
            Seq::empty(),
            decls1,
            env1,
            n,
        ),
{
    if copied_object(props, init) {
        lemma_alias_ident(decls, init, env, n);
    } else {
        lemma_ref_ident(decls, init, env, n);
        match ref_ident(decls, init, env) {
            Err(_) => {},
            Ok((object, decls1, env1)) => {
                let checked = nullable(init) == Some(true);
                lemma_non_null_ident(decls1, object, checked, env1, n);
                match non_null_ident(decls1, object, checked, env1) {
                    Err(_) => {},
                    Ok((object2, decls2, env2)) => lemma_named(
                        decls,
                        env,
                        decls1,
                        env1,
                        Seq::empty(),
                        decls2,
                        env2,
                        n,
                    ),
                }
            },
        }
    }
}

/// The text and the place of a node stay.
proof fn lemma_fold_text(t: Tree, t1: Tree)
    requires
        folded(t, t1),
    ensures
        t1.kind == t.kind,
        t1.text == t.text,
        t1.span == t.span,
{
}

/// A pattern still binds the same names after the pass went over it.
proof fn lemma_fold_bound(t: Tree, t1: Tree)
    requires
        folded(t, t1),
    ensures
        bound(t1) == bound(t),
    decreases t,
{
    lemma_fold_text(t, t1);
    if t.kind is Pat || t.kind is PatProp {
        let env = choose|env: Env| (#[trigger] fold(t, env)) matches Ok((x, env1)) && x == t1;
        crate::shrink::lemma_fold_all_each(t.children, Seq::empty(), env);
        assert(t1.children.skip(0) =~= t1.children);
        assert forall|i: int| 0 <= i < t.children.len() implies folded(
            t.children[i],
            #[trigger] t1.children[i],
        ) by {
            assert(folded(t.children[i], t1.children.skip(0)[i]));
        }
        match t.kind {
            Kind::Pat(PatKind::Array) => lemma_fold_bound_all(t.children, t1.children),
            Kind::Pat(PatKind::Object) => lemma_fold_bound_all(t.children, t1.children),
            Kind::Pat(PatKind::Rest { dot3 }) => lemma_fold_bound_all(t.children, t1.children),
            Kind::Pat(PatKind::Assign) => if t.children.len() > 0 {
                lemma_fold_bound(t.children[0], t1.children[0]);
            },
            Kind::PatProp(PatPropKind::KeyValue) => if t.children.len() == 2 {
                lemma_fold_bound(t.children[1], t1.children[1]);
            },
            Kind::PatProp(PatPropKind::Assign) => if t.children.len() > 0 {
                lemma_fold_text(t.children[0], t1.children[0]);
            },
            _ => {},
        }
    }
}

proof fn lemma_fold_bound_all(ts: Seq<Tree>, ts1: Seq<Tree>)
    requires
        ts1.len() == ts.len(),
        forall|i: int| 0 <= i < ts.len() ==> folded(ts[i], #[trigger] ts1[i]),
    ensures
        bound_all(ts1) == bound_all(ts),
    decreases ts,
{
    if ts.len() > 0 {
        assert(folded(ts[0], ts1[0]));
        lemma_fold_bound(ts[0], ts1[0]);
        assert forall|i: int| 0 <= i < ts.drop_first().len() implies folded(
            ts.drop_first()[i],
            #[trigger] ts1.drop_first()[i],
        ) by {
            assert(folded(ts[i + 1], ts1[i + 1]));
        }
        lemma_fold_bound_all(ts.drop_first(), ts1.drop_first());
    }
}

/// A declarator still declares the same names after the pass went over it.
proof fn lemma_fold_declared(d: Tree, d1: Tree)
    requires
        folded(d, d1),
    ensures
        declared(d1) == declared(d),
{
    lemma_fold_text(d, d1);
    match d.kind {
        Kind::Part(PartKind::Declarator { definite }) => {
            let env = choose|env: Env| (#[trigger] fold(d, env)) matches Ok((x, env1)) && x == d1;
            crate::shrink::lemma_fold_all_each(d.children, Seq::empty(), env);
            assert(d1.children.skip(0) =~= d1.children);
            if d.children.len() == 2 {
                assert(folded(d.children[0], d1.children.skip(0)[0]));
                lemma_fold_bound(d.children[0], d1.children[0]);
            }
        },
        _ => {},
    }
}

proof fn lemma_fold_declared_all(ds: Seq<Tree>, ds1: Seq<Tree>)
    requires
        ds1.len() == ds.len(),
        forall|i: int| 0 <= i < ds.len() ==> folded(ds[i], #[trigger] ds1[i]),
    ensures
        declared_all(ds1) == declared_all(ds),
    decreases ds.len(),
{
    if ds.len() > 0 {
        assert(folded(ds[0], ds1[0]));
        lemma_fold_declared(ds[0], ds1[0]);
        assert forall|i: int| 0 <= i < ds.drop_first().len() implies folded(
            ds.drop_first()[i],
            #[trigger] ds1.drop_first()[i],
        ) by {
            assert(folded(ds[i + 1], ds1[i + 1]));
        }
        lemma_fold_declared_all(ds.drop_first(), ds1.drop_first());
    }
}

proof fn lemma_fold_decls(ds: Seq<Tree>, env: Env, n: nat)
    ensures
        fold_decls(ds, env) matches Ok((out, env1)) ==> all_single(out) && (sane(env, n)
            && all_known(declared_all(ds), n) ==> sane(env1, n) && known(declared_all(out), n)
            == declared_all(ds)),
    decreases weights(ds), 2 * depths(ds) + 10, 2 * sizes(ds) + 1,
{
    crate::growth::lemma_fold_all(ds, Seq::empty(), env);
    crate::shrink::lemma_fold_all_each(ds, Seq::empty(), env);
    match fold_all(ds, Seq::empty(), env) {
        Err(_) => {},
        Ok((ds1, env1)) => {
            assert(ds1.skip(0) =~= ds1);
            assert forall|i: int| 0 <= i < ds.len() implies folded(ds[i], #[trigger] ds1[i]) by {
                assert(folded(ds[i], ds1.skip(0)[i]));
            }
            lemma_fold_declared_all(ds, ds1);
            if any_complex(ds1) {
                lemma_lower_decls(ds1, Seq::empty(), env1, weights(ds), n);
                assert(known(declared_all(Seq::<Tree>::empty()), n) + declared_all(ds)
                    =~= declared_all(ds));
            } else if all_known(declared_all(ds), n) {
                lemma_known_same(declared_all(ds), n);
            }
        },
    }
}

proof fn lemma_refold(d: Tree, done: Seq<Tree>, env: Env, bnd: nat, n: nat)
    ensures
        refold(seq![d], env, bnd) matches Ok((ds, env1)) ==> adds(
            done,
            env,
            declared(d),
            done + ds,
            env1,
            n,
        ),
    decreases bnd, 0nat, 0nat,
{
    if weights(seq![d]) < bnd {
        lemma_fold_decls(seq![d], env, n);
        lemma_declared_one(d);
        match refold(seq![d], env, bnd) {
            Err(_) => {},
            Ok((ds, env1)) => lemma_more(done, ds, n),
        }
    }
}

proof fn lemma_lower_decls(ds: Seq<Tree>, done: Seq<Tree>, env: Env, bnd: nat, n: nat)
    ensures
        lower_decls(ds, done, env, bnd) matches Ok((out, env1)) ==> adds(
            done,
            env,
            declared_all(ds),
            out,
            env1,
            n,
        ),
    decreases bnd, 3nat, ds.len(),
{
    if ds.len() > 0 {
        lemma_lower_decl(ds[0], done, env, bnd, n);
        match lower_decl(ds[0], done, env, bnd) {
            Err(_) => {},
            Ok((done1, env1)) => {
                let rest = ds.drop_first();
                lemma_lower_decls(rest, done1, env1, bnd, n);
                match lower_decls(rest, done1, env1, bnd) {
                    Err(_) => {},
                    Ok((out, env2)) => lemma_adds(
                        done,
                        env,
                        declared(ds[0]),
                        done1,
                        env1,
                        declared_all(rest),
                        out,
                        env2,
                        n,
                    ),
                }
            },
        }
    } else {
        assert(known(declared_all(done), n) + Seq::<Name>::empty() =~= known(
            declared_all(done),
            n,
        ));
    }
}

/// A step that makes a name, and another after it.
proof fn lemma_named(
    a: Seq<Tree>,
    env: Env,
    b: Seq<Tree>,
    env1: Env,
    names: Seq<Name>,
    c: Seq<Tree>,
    env2: Env,
    n: nat,
)
    requires
        adds(a, env, Seq::empty(), b, env1, n),
        adds(b, env1, names, c, env2, n),
    ensures
        adds(a, env, names, c, env2, n),
{
    lemma_adds(a, env, Seq::empty(), b, env1, names, c, env2, n);
    assert(Seq::<Name>::empty() + names =~= names);
}

proof fn lemma_lower_decl(d: Tree, done: Seq<Tree>, env: Env, bnd: nat, n: nat)
    ensures
        lower_decl(d, done, env, bnd) matches Ok((out, env1)) ==> adds(
            done,
            env,
            declared(d),
            out,
            env1,
            n,
        ),
    decreases bnd, 2nat, 0nat,
{
    if is_decl(d) {
        let name = d.children[0];
        let init = d.children[1];
        match name.kind {
            Kind::Pat(PatKind::Ident) => {
                assert(done.push(d) =~= done + seq![d]);
                lemma_more(done, seq![d], n);
                lemma_declared_one(d);
                if all_known(declared(d), n) {
                    lemma_known_same(declared(d), n);
                }
            },
            Kind::Pat(PatKind::Array) => {
                lemma_array_ident(name.children, done, init, env, n);
                match array_ident(name.children, done, init, env) {
                    Err(_) => {},
                    Ok((object, done1, env1)) => {
                        assert(name.children.skip(0) =~= name.children);
                        lemma_lower_elems(name.children, 0, object, done1, env1, bnd, n);
                        match lower_elems(name.children, 0, object, done1, env1, bnd) {
                            Err(_) => {},
                            Ok((out, env2)) => lemma_named(
                                done,
                                env,
                                done1,
                                env1,
                                declared(d),
                                out,
                                env2,
                                n,
                            ),
                        }
                    },
                }
            },
            Kind::Pat(PatKind::Object) => {
                lemma_object_ident(name.children, done, init, env, n);
                match object_ident(name.children, done, init, env) {
                    Err(_) => {},
                    Ok((object, done1, env1)) => {
                        assert(name.children.skip(0) =~= name.children);
                        lemma_lower_props(name.children, 0, object, done1, env1, bnd, n);
                        match lower_props(name.children, 0, object, done1, env1, bnd) {
                            Err(_) => {},
                            Ok((out, env2)) => lemma_named(
                                done,
                                env,
                                done1,
                                env1,
                                declared(d),
                                out,
                                env2,
                                n,
                            ),
                        }
                    },
                }
            },
            Kind::Pat(PatKind::Assign) => if name.children.len() == 2 {
                lemma_tmp_ident(done, init, name.span, env, n);
                match tmp_ident(done, init, name.span, env) {
                    Err(_) => {},
                    Ok((tmp, done1, env1)) => {
                        let sub = declarator(
                            name.span,
                            name.children[0],
                            cond_expr(tmp, name.children[1]),
                        );
                        assert(sub.children[0] == name.children[0]);
                        lemma_refold(sub, done1, env1, bnd, n);
                        match refold(seq![sub], env1, bnd) {
                            Err(_) => {},
                            Ok((ds, env2)) => lemma_named(
                                done,
                                env,
                                done1,
                                env1,
                                declared(d),
                                done1 + ds,
                                env2,
                                n,
                            ),
                        }
                    },
                }
            },
            _ => {},
        }
    }
}

proof fn lemma_lower_elems(
    elems: Seq<Tree>,
    i: nat,
    object: Name,
    done: Seq<Tree>,
    env: Env,
    bnd: nat,
    n: nat,
)
    requires
        i <= elems.len(),
    ensures
        lower_elems(elems, i, object, done, env, bnd) matches Ok((out, env1)) ==> adds(
            done,
            env,
            bound_all(elems.skip(i as int)),
            out,
            env1,
            n,
        ),
    decreases bnd, 1nat, elems.len() - i,
{
    let names = bound_all(elems.skip(i as int));
    if i < elems.len() {
        let elem = elems[i as int];
        let rest = elems.skip(i as int + 1);
        assert(elems.skip(i as int).drop_first() =~= rest);
        assert(elems.skip(i as int)[0] == elem);
        if elem.kind == Kind::Absent {
            assert(bound(elem) + bound_all(rest) =~= bound_all(rest));
            lemma_lower_elems(elems, i + 1, object, done, env, bnd, n);
        } else {
            match elem_decl(elem, i as int, object) {
                None => {},
                Some(d) => {
                    assert(declared(d) == bound(elem)) by {
                        if elem.children.len() == 1 {
                            assert(elem.children.drop_first() =~= Seq::empty());
                            assert(bound_all(Seq::<Tree>::empty()) =~= Seq::empty());
                            assert(bound_all(elem.children) =~= bound(elem.children[0]));
                        }
                        match elem.kind {
                            Kind::Pat(PatKind::Rest { dot3 }) => {
                                assert(d.children[0] == elem.children[0]);
                            },
                            _ => {
                                assert(d.children[0] == elem);
                            },
                        }
                    }
                    lemma_refold(d, done, env, bnd, n);
                    match refold(seq![d], env, bnd) {
                        Err(_) => {},
                        Ok((ds, env1)) => {
                            lemma_lower_elems(elems, i + 1, object, done + ds, env1, bnd, n);
                            match lower_elems(elems, i + 1, object, done + ds, env1, bnd) {
                                Err(_) => {},
                                Ok((out, env2)) => lemma_adds(
                                    done,
                                    env,
                                    bound(elem),
                                    done + ds,
                                    env1,
                                    bound_all(rest),
                                    out,
                                    env2,
                                    n,
                                ),
                            }
                        },
                    }
                },
            }
        }
    } else {
        assert(names =~= Seq::empty());
        assert(known(declared_all(done), n) + names =~= known(declared_all(done), n));
    }
}

proof fn lemma_lower_prop(
    prop: Tree,
    object: Name,
    done: Seq<Tree>,
    env: Env,
    bnd: nat,
    n: nat,
)
    ensures
        lower_prop(prop, object, done, env, bnd) matches Ok((out, env1)) ==> adds(
            done,
            env,
            bound(prop),
            out,
            env1,
            n,
        ),
    decreases bnd, 1nat, 0nat,
{
    if prop.children.len() == 2 {
        let key = prop.children[0];
        let value = prop.children[1];
        match prop.kind {
            Kind::PatProp(PatPropKind::KeyValue) => match prop_name_expr(key) {
                None => {},
                Some(property) => {
                    let d = declarator(prop.span, value, ref_prop_expr(object, property));
                    assert(d.children[0] == value);
                    lemma_refold(d, done, env, bnd, n);
                },
            },
            Kind::PatProp(PatPropKind::Assign) => {
                let property = ref_prop_expr(object, ident_expr(name_of(key)));
                let name = ident_pat(name_of(key));
                assert(bound(name) =~= bound(prop));
                if value.kind == Kind::Absent {
                    let d = declarator(prop.span, name, property);
                    assert(d.children[0] == name);
                    lemma_refold(d, done, env, bnd, n);
                } else {
                    lemma_ref_ident(done, property, env, n);
                    match ref_ident(done, property, env) {
                        Err(_) => {},
                        Ok((tmp, done1, env1)) => {
                            let d = declarator(prop.span, name, cond_expr(tmp, value));
                            assert(d.children[0] == name);
                            lemma_refold(d, done1, env1, bnd, n);
                            match refold(seq![d], env1, bnd) {
                                Err(_) => {},
                                Ok((ds, env2)) => lemma_named(
                                    done,
                                    env,
                                    done1,
                                    env1,
                                    bound(prop),
                                    done1 + ds,
                                    env2,
                                    n,
                                ),
                            }
                        },
                    }
                }
            },
            _ => {},
        }
    }
}

proof fn lemma_lower_props(
    props: Seq<Tree>,
    i: nat,
    object: Name,
    done: Seq<Tree>,
    env: Env,
    bnd: nat,
    n: nat,
)
    requires
        i <= props.len(),
    ensures
        lower_props(props, i, object, done, env, bnd) matches Ok((out, env1)) ==> adds(
            done,
            env,
            bound_all(props.skip(i as int)),
            out,
            env1,
            n,
        ),
    decreases bnd, 1nat, 1 + props.len() - i,
{
    let names = bound_all(props.skip(i as int));
    if i < props.len() {
        let prop = props[i as int];
        let rest = props.skip(i as int + 1);
        assert(props.skip(i as int).drop_first() =~= rest);
        assert(props.skip(i as int)[0] == prop);
        lemma_lower_prop(prop, object, done, env, bnd, n);
        match lower_prop(prop, object, done, env, bnd) {
            Err(_) => {},
            Ok((done1, env1)) => {
                lemma_lower_props(props, i + 1, object, done1, env1, bnd, n);
                match lower_props(props, i + 1, object, done1, env1, bnd) {
                    Err(_) => {},
                    Ok((out, env2)) => lemma_adds(
                        done,
                        env,
                        bound(prop),
                        done1,
                        env1,
                        bound_all(rest),
                        out,
                        env2,
                        n,
                    ),
                }
            },
        }
    } else {
        assert(names =~= Seq::empty());
        assert(known(declared_all(done), n) + names =~= known(declared_all(done), n));
    }
}

/// Each declarator of a declaration that comes out declares a single name.
pub proof fn law_single(t: Tree, env: Env)
    requires
        t.kind is Stmt,
        t.kind->Stmt_0 is VarDecl,
    ensures
        fold(t, env) matches Ok((t1, env1)) ==> all_single(t1.children),
{
    lemma_fold_decls(t.children, env, 0);
}

/// A declaration that comes out declares the names that its patterns bound, in their order, and
/// besides them only names with contexts that were not there before.
pub proof fn law_bindings(t: Tree, env: Env)
    requires
        t.kind is Stmt,
        t.kind->Stmt_0 is VarDecl,
        env.wf(),
        all_known(declared_all(t.children), env.contexts.len()),
    ensures
        fold(t, env) matches Ok((t1, env1)) ==> known(
            declared_all(t1.children),
            env.contexts.len(),
        ) == declared_all(t.children),
{
    lemma_fold_decls(t.children, env, env.contexts.len());
}

/// Whether each of the trees is a name.
pub open spec fn all_idents(ts: Seq<Tree>) -> bool {
    forall|i: int| 0 <= i < ts.len() ==> (#[trigger] ts[i]).kind == Kind::Pat(PatKind::Ident)
}

proof fn lemma_split_params(params: Seq<Tree>, done: Seq<Tree>, decls: Seq<Tree>, env: Env)
    requires
        all_idents(done),
    ensures
        split_params(params, done, decls, env) matches Ok((ps, ds, env1)) ==> all_idents(ps),
    decreases params.len(),
{
    if params.len() > 0 {
        let param = params[0];
        let rest = params.drop_first();
        match param.kind {
            Kind::Pat(PatKind::Ident) => lemma_split_params(rest, done.push(param), decls, env),
            Kind::Pat(kind) => {
                match env.private_ident(param.span, "ref"@) {
                    Err(_) => {},
                    Ok((name, env1)) => lemma_split_params(
                        rest,
                        done.push(ident_pat(name)),
                        decls.push(declarator(param.span, param, ident_expr(name))),
                        env1,
                    ),
                }
                lemma_split_params(rest, done, decls, env);
            },
            _ => {},
        }
    }
}

/// The parameters of a function with a body come out as names.
pub proof fn law_params(t: Tree, env: Env)
    requires
        t.kind is Part && t.kind->Part_0 is Function || t.kind is Expr && t.kind->Expr_0 is Arrow,
        t.kind is Part ==> t.children.len() == 3 && t.children[2].kind != Kind::Absent,
    ensures
        fold(t, env) matches Ok((t1, env1)) ==> all_idents(t1.children[0].children),
{
    if t.kind is Part {
        assert(fold(t, env) == fold_function(t, env));
    } else {
        assert(fold(t, env) == fold_arrow(t, env));
    }
    match fold_all(t.children, Seq::empty(), env) {
        Err(_) => {},
        Ok((cs, env1)) => {
            lemma_split_params(cs[0].children, Seq::empty(), Seq::empty(), env1);
            match fold(t, env) {
                Err(_) => {},
                Ok((t1, env2)) => {
                    let (ps, decls, env3) = split_params(
                        cs[0].children,
                        Seq::empty(),
                        Seq::empty(),
                        env1,
                    )->Ok_0;
                    assert(t1.children[0] == with(cs[0], ps));
                },
            }
        },
    }
}

/// The names of those of the parameters that are names, in their order.
pub open spec fn plain_names(params: Seq<Tree>) -> Seq<Name>
    decreases params.len(),
{
    if params.len() == 0 {
        Seq::empty()
    } else if params[0].kind == Kind::Pat(PatKind::Ident) {
        seq![name_of(params[0])] + plain_names(params.drop_first())
    } else {
        plain_names(params.drop_first())
    }
}

/// The names that those of the parameters bind that are taken apart, in their order.
pub open spec fn taken_names(params: Seq<Tree>) -> Seq<Name>
    decreases params.len(),
{
    if params.len() == 0 {
        Seq::empty()
    } else if taken(params[0]) {
        bound(params[0]) + taken_names(params.drop_first())
    } else {
        taken_names(params.drop_first())
    }
}

proof fn lemma_bound_add(a: Seq<Tree>, b: Seq<Tree>)
    ensures
        bound_all(a + b) == bound_all(a) + bound_all(b),
    decreases a.len(),
{
    if a.len() == 0 {
        assert(a + b =~= b);
        assert(bound_all(a) + bound_all(b) =~= bound_all(b));
    } else {
        assert((a + b).drop_first() =~= a.drop_first() + b);
        lemma_bound_add(a.drop_first(), b);
        assert(bound_all(a + b) =~= bound_all(a) + bound_all(b));
    }
}

/// One more name at the end of a list of patterns.
proof fn lemma_bound_push(ps: Seq<Tree>, p: Tree, n: nat)
    requires
        p.kind == Kind::Pat(PatKind::Ident),
    ensures
        known(bound_all(ps.push(p)), n) == known(bound_all(ps), n) + (if p.span.ctxt < n {
            seq![name_of(p)]
        } else {
            Seq::empty()
        }),
{
    assert(ps.push(p) =~= ps + seq![p]);
    lemma_bound_add(ps, seq![p]);
    assert(seq![p].drop_first() =~= Seq::empty());
    assert(bound_all(Seq::<Tree>::empty()) =~= Seq::empty());
    let names = seq![name_of(p)];
    assert(bound(p) == names);
    assert(bound_all(seq![p]) =~= names);
    lemma_known_add(bound_all(ps), names, n);
    assert(names.drop_first() =~= Seq::empty());
    assert(known(Seq::<Name>::empty(), n) =~= Seq::empty());
    assert(known(names, n) =~= (if p.span.ctxt < n {
        seq![name_of(p)]
    } else {
        Seq::empty()
    }));
}

proof fn lemma_split_names(
    params: Seq<Tree>,
    done: Seq<Tree>,
    decls: Seq<Tree>,
    env: Env,
    n: nat,
)
    requires
        sane(env, n),
        all_known(plain_names(params), n),
    ensures
        split_params(params, done, decls, env) matches Ok((ps, ds, env1)) ==> {
            &&& sane(env1, n)
            &&& known(bound_all(ps), n) == known(bound_all(done), n) + plain_names(params)
            &&& declared_all(ds) == declared_all(decls) + taken_names(params)
            &&& ds.len() >= decls.len()
        },
    decreases params.len(),
{
    if params.len() == 0 {
        assert(known(bound_all(done), n) + Seq::<Name>::empty() =~= known(bound_all(done), n));
        assert(declared_all(decls) + Seq::<Name>::empty() =~= declared_all(decls));
    } else {
        let param = params[0];
        let rest = params.drop_first();
        match param.kind {
            Kind::Pat(PatKind::Ident) => {
                lemma_all_known_add(seq![name_of(param)], plain_names(rest), n);
                assert(seq![name_of(param)][0].span.ctxt < n);
                lemma_bound_push(done, param, n);
                lemma_split_names(rest, done.push(param), decls, env, n);
                assert(known(bound_all(done), n) + seq![name_of(param)] + plain_names(rest)
                    =~= known(bound_all(done), n) + plain_names(params));
            },
            Kind::Pat(kind) => if taken(param) {
                law_fresh(env, param.span, "ref"@);
                match env.private_ident(param.span, "ref"@) {
                    Err(_) => {},
                    Ok((name, env1)) => {
                        let d = declarator(param.span, param, ident_expr(name));
                        lemma_bound_push(done, ident_pat(name), n);
                        assert(known(bound_all(done), n) + Seq::<Name>::empty() =~= known(
                            bound_all(done),
                            n,
                        ));
                        assert(decls.push(d) =~= decls + seq![d]);
                        lemma_declared_add(decls, seq![d]);
                        lemma_declared_one(d);
                        assert(d.children[0] == param);
                        lemma_split_names(rest, done.push(ident_pat(name)), decls.push(d), env1, n);
                        assert(declared_all(decls) + bound(param) + taken_names(rest)
                            =~= declared_all(decls) + taken_names(params));
                    },
                }
            } else {
                lemma_split_names(rest, done, decls, env, n);
            },
            _ => {},
        }
    }
}

/// Parameters still are or bind the same names after the pass went over them.
proof fn lemma_fold_names(ps: Seq<Tree>, ps1: Seq<Tree>)
    requires
        ps1.len() == ps.len(),
        forall|i: int| 0 <= i < ps.len() ==> folded(ps[i], #[trigger] ps1[i]),
    ensures
        plain_names(ps1) == plain_names(ps),
        taken_names(ps1) == taken_names(ps),
    decreases ps.len(),
{
    if ps.len() > 0 {
        assert(folded(ps[0], ps1[0]));
        lemma_fold_bound(ps[0], ps1[0]);
        lemma_fold_text(ps[0], ps1[0]);
        assert forall|i: int| 0 <= i < ps.drop_first().len() implies folded(
            ps.drop_first()[i],
            #[trigger] ps1.drop_first()[i],
        ) by {
            assert(folded(ps[i + 1], ps1[i + 1]));
        }
        lemma_fold_names(ps.drop_first(), ps1.drop_first());
    }
}

/// Of the names in the parameters of a function with a body, those that are parameters stay
/// parameters, in their order. Those that are bound by an array or object pattern or have a default
/// value are declared by the first statement of the body, in their order.
pub proof fn law_param_bindings(t: Tree, env: Env)
    requires
        t.kind is Part,
        t.kind->Part_0 is Function,
        t.children.len() == 3,
        t.children[2].kind != Kind::Absent,
        env.wf(),
        all_known(plain_names(t.children[0].children), env.contexts.len()),
        all_known(taken_names(t.children[0].children), env.contexts.len()),
    ensures
        fold(t, env) matches Ok((t1, env1)) ==> {
            let n = env.contexts.len();
            let params = t.children[0].children;
            let first = t1.children[2].children[0];
            &&& known(bound_all(t1.children[0].children), n) == plain_names(params)
            &&& taken_names(params).len() > 0 ==> known(declared_all(first.children), n)
                == taken_names(params)
        },
{
    let n = env.contexts.len();
    assert(fold(t, env) == fold_function(t, env));
    crate::growth::lemma_fold_all(t.children, Seq::empty(), env);
    crate::shrink::lemma_fold_all_each(t.children, Seq::empty(), env);
    match fold_all(t.children, Seq::empty(), env) {
        Err(_) => {},
        Ok((cs, env1)) => if t.children[0].kind == Kind::Part(PartKind::Params) {
            assert(folded(t.children[0], cs.skip(0)[0]));
            assert(cs.skip(0)[0] == cs[0]);
            let q = t.children[0];
            let e = choose|e: Env| (#[trigger] fold(q, e)) matches Ok((x, env2)) && x == cs[0];
            crate::shrink::lemma_fold_all_each(q.children, Seq::empty(), e);
            assert(cs[0].children.skip(0) =~= cs[0].children);
            assert forall|i: int| 0 <= i < q.children.len() implies folded(
                q.children[i],
                #[trigger] cs[0].children[i],
            ) by {
                assert(folded(q.children[i], cs[0].children.skip(0)[i]));
            }
            lemma_fold_names(q.children, cs[0].children);
            lemma_split_names(cs[0].children, Seq::empty(), Seq::empty(), env1, n);
            match split_params(cs[0].children, Seq::empty(), Seq::empty(), env1) {
                Err(_) => {},
                Ok((ps, decls, env2)) => {
                    assert(known(bound_all(Seq::<Tree>::empty()), n) + plain_names(q.children)
                        =~= plain_names(q.children));
                    assert(declared_all(Seq::<Tree>::empty()) + taken_names(q.children)
                        =~= taken_names(q.children));
                    if decls.len() > 0 {
                        lemma_fold_decls(decls, env2, n);
                    } else {
                        assert(taken_names(q.children).len() == 0);
                    }
                    match fold(t, env) {
                        Err(_) => {},
                        Ok((t1, env3)) => {
                            assert(t1.children[0] == with(cs[0], ps));
                        },
                    }
                },
            }
        },
    }
}

/// A loop over a pattern declares the names that the pattern binds, in their order, in the first
/// statement of its body.
pub proof fn law_loop_bindings(t: Tree, env: Env)
    requires
        is_loop(t.kind),
        t.children.len() == 3,
        t.children[0].kind is Stmt,
        t.children[0].kind->Stmt_0 is VarDecl,
        any_complex(t.children[0].children),
        env.wf(),
        all_known(declared_all(t.children[0].children), env.contexts.len()),
    ensures
        fold(t, env) matches Ok((t1, env1)) ==> known(
            declared_all(t1.children[2].children[0].children),
            env.contexts.len(),
        ) == declared_all(t.children[0].children),
{
    let n = env.contexts.len();
    let left = t.children[0];
    assert(fold(t, env) == fold_for(t, env));
    law_fresh(env, dummy(), "ref"@);
    match env.private_ident(dummy(), "ref"@) {
        Err(_) => {},
        Ok((name, env1)) => if all_decls(left.children) {
            lemma_init_declared(left.children, name);
            lemma_fold_decls(init_all(left.children, name), env1, n);
        },
    }
}

/// Another initial value does not change what is declared.
proof fn lemma_init_declared(ds: Seq<Tree>, name: Name)
    requires
        all_decls(ds),
    ensures
        declared_all(init_all(ds, name)) == declared_all(ds),
    decreases ds.len(),
{
    if ds.len() > 0 {
        let rest = ds.drop_first();
        assert forall|i: int| 0 <= i < rest.len() implies is_decl(#[trigger] rest[i]) by {
            assert(rest[i] == ds[i + 1]);
        }
        lemma_init_declared(rest, name);
        assert(init_all(ds, name).drop_first() =~= init_all(rest, name));
        assert(is_decl(ds[0]));
        assert(init_all(ds, name)[0].children[0] == ds[0].children[0]);
    }
}

} // verus!
