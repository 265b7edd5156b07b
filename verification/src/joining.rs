//! A list of declarators becomes what its parts become, one behind the other, up to the contexts of
//! new names.
use crate::ast::{Kind, PatKind, PatPropKind, Tree};
use crate::factory::{
    cond_expr, declarator, dummy, helper_call, ident_expr, ident_pat, non_null_expr, prop_name_expr,
    ref_prop_expr,
};
use crate::growth::grown;
use crate::hygiene::{Env, Name, Refusal};
use crate::measure::{any_complex, complex_decl, weight, weights};
use crate::renaming::{
    adds, ext, is_helper, kept, lemma_kept, lemma_mono_all, linked, meet_all, one_to_one, same,
    same_all, within,
};
use crate::rules::{
    alias_ident, all_decls, array_ident, elem_decl, fold, fold_all, fold_decls, is_decl, lower_decl,
    lower_decls, lower_elems, lower_prop, lower_props, name_of, object_ident, ref_ident, ref_text,
    refold, tmp_ident,
};
use crate::shrink::{folded, lemma_elem_decl, lemma_fold_all_each, lemma_prop_decls};
use crate::weighing::{lemma_cond_expr, lemma_declarator, lemma_index, lemma_one, lemma_two};
use vstd::prelude::*;

verus! {

/// The same result behind what is done.
pub open spec fn behind(done: Seq<Tree>, x: Result<(Seq<Tree>, Env), Refusal>) -> Result<
    (Seq<Tree>, Env),
    Refusal,
> {
    match x {
        Err(refusal) => Err(refusal),
        Ok((ds, env)) => Ok((done + ds, env)),
    }
}

spec fn named_behind(done: Seq<Tree>, x: Result<(Name, Seq<Tree>, Env), Refusal>) -> Result<
    (Name, Seq<Tree>, Env),
    Refusal,
> {
    match x {
        Err(refusal) => Err(refusal),
        Ok((name, ds, env)) => Ok((name, done + ds, env)),
    }
}

proof fn lemma_push(done: Seq<Tree>, ds: Seq<Tree>, d: Tree)
    ensures
        (done + ds).push(d) == done + ds.push(d),
{
    assert((done + ds).push(d) =~= done + ds.push(d));
}

proof fn lemma_more(done: Seq<Tree>, ds: Seq<Tree>, cs: Seq<Tree>)
    ensures
        (done + ds) + cs == done + (ds + cs),
{
    assert((done + ds) + cs =~= done + (ds + cs));
}

proof fn lemma_ref_ident(done: Seq<Tree>, ds: Seq<Tree>, init: Tree, env: Env)
    ensures
        ref_ident(done + ds, init, env) == named_behind(done, ref_ident(ds, init, env)),
{
    let span = if init.kind == Kind::Absent {
        dummy()
    } else {
        init.span
    };
    match env.private_ident(span, ref_text(init)) {
        Err(_) => {},
        Ok((name, env1)) => lemma_push(done, ds, declarator(span, ident_pat(name), init)),
    }
}

proof fn lemma_tmp_ident(
    done: Seq<Tree>,
    ds: Seq<Tree>,
    init: Tree,
    span: crate::ast::Span,
    env: Env,
)
    ensures
        tmp_ident(done + ds, init, span, env) == named_behind(
            done,
            tmp_ident(ds, init, span, env),
        ),
{
    match env.private_ident(span, "tmp"@) {
        Err(_) => {},
        Ok((name, env1)) => lemma_push(done, ds, declarator(dummy(), ident_pat(name), init)),
    }
}

proof fn lemma_alias_ident(done: Seq<Tree>, ds: Seq<Tree>, init: Tree, env: Env)
    ensures
        alias_ident(done + ds, init, env) == named_behind(done, alias_ident(ds, init, env)),
{
    match env.private_ident(init.span, "_"@ + init.text) {
        Err(_) => {},
        Ok((name, env1)) => lemma_push(done, ds, declarator(init.span, ident_pat(name), init)),
    }
}

proof fn lemma_array_ident(elems: Seq<Tree>, done: Seq<Tree>, ds: Seq<Tree>, init: Tree, env: Env)
    ensures
        array_ident(elems, done + ds, init, env) == named_behind(
            done,
            array_ident(elems, ds, init, env),
        ),
{
    lemma_ref_ident(done, ds, init, env);
    lemma_alias_ident(done, ds, init, env);
    match alias_ident(ds, init, env) {
        Err(_) => {},
        Ok((alias, ds1, env1)) => match env1.to_array() {
            Err(_) => {},
            Ok((helper, env2)) => match env2.private_ident(dummy(), "_"@ + init.text + "2"@) {
                Err(_) => {},
                Ok((name, env3)) => lemma_push(
                    done,
                    ds1,
                    declarator(dummy(), ident_pat(name), helper_call(helper, alias)),
                ),
            },
        },
    }
}

proof fn lemma_object_ident(props: Seq<Tree>, done: Seq<Tree>, ds: Seq<Tree>, init: Tree, env: Env)
    ensures
        object_ident(props, done + ds, init, env) == named_behind(
            done,
            object_ident(props, ds, init, env),
        ),
{
    lemma_alias_ident(done, ds, init, env);
    lemma_ref_ident(done, ds, init, env);
    match ref_ident(ds, init, env) {
        Err(_) => {},
        Ok((object, ds1, env1)) => match env1.throw() {
            Err(_) => {},
            Ok((throw, env2)) => lemma_ref_ident(done, ds1, non_null_expr(object, throw), env2),
        },
    }
}

/// What becomes of declarators neither depends on what is done before them, nor on the bound, where
/// that is one.
pub proof fn lemma_lower_decls(
    ds: Seq<Tree>,
    done: Seq<Tree>,
    pre: Seq<Tree>,
    env: Env,
    k: nat,
    m: nat,
)
    requires
        weights(ds) <= k,
        weights(ds) <= m,
    ensures
        lower_decls(ds, done + pre, env, k) == behind(done, lower_decls(ds, pre, env, m)),
    decreases ds.len(),
{
    if ds.len() > 0 {
        lemma_lower_decl(ds[0], done, pre, env, k, m);
        match lower_decl(ds[0], pre, env, m) {
            Err(_) => {},
            Ok((pre1, env1)) => lemma_lower_decls(ds.drop_first(), done, pre1, env1, k, m),
        }
    }
}

proof fn lemma_lower_decl(
    d: Tree,
    done: Seq<Tree>,
    pre: Seq<Tree>,
    env: Env,
    k: nat,
    m: nat,
)
    requires
        weight(d) <= k,
        weight(d) <= m,
    ensures
        lower_decl(d, done + pre, env, k) == behind(done, lower_decl(d, pre, env, m)),
{
    if is_decl(d) {
        let name = d.children[0];
        let init = d.children[1];
        assert(d.children =~= seq![name, init]);
        lemma_two(name, init);
        lemma_push(done, pre, d);
        match name.kind {
            Kind::Pat(PatKind::Array) => {
                lemma_array_ident(name.children, done, pre, init, env);
                match array_ident(name.children, pre, init, env) {
                    Err(_) => {},
                    Ok((object, pre1, env1)) => lemma_lower_elems(
                        name.children,
                        0,
                        object,
                        done,
                        pre1,
                        env1,
                        k,
                        m,
                    ),
                }
            },
            Kind::Pat(PatKind::Object) => {
                lemma_object_ident(name.children, done, pre, init, env);
                match object_ident(name.children, pre, init, env) {
                    Err(_) => {},
                    Ok((object, pre1, env1)) => lemma_lower_props(
                        name.children,
                        0,
                        object,
                        done,
                        pre1,
                        env1,
                        k,
                        m,
                    ),
                }
            },
            Kind::Pat(PatKind::Assign) => if name.children.len() == 2 {
                lemma_tmp_ident(done, pre, init, name.span, env);
                match tmp_ident(pre, init, name.span, env) {
                    Err(_) => {},
                    Ok((tmp, pre1, env1)) => {
                        let left = name.children[0];
                        let default = name.children[1];
                        assert(name.children =~= seq![left, default]);
                        lemma_two(left, default);
                        let sub = declarator(name.span, left, cond_expr(tmp, default));
                        lemma_cond_expr(tmp, default);
                        lemma_declarator(name.span, left, cond_expr(tmp, default));
                        lemma_one(sub);
                        match fold_decls(seq![sub], env1) {
                            Err(_) => {},
                            Ok((ds, env2)) => lemma_more(done, pre1, ds),
                        }
                    },
                }
            },
            _ => {},
        }
    }
}

proof fn lemma_lower_elems(
    elems: Seq<Tree>,
    i: nat,
    object: Name,
    done: Seq<Tree>,
    pre: Seq<Tree>,
    env: Env,
    k: nat,
    m: nat,
)
    requires
        weights(elems) < k,
        weights(elems) < m,
    ensures
        lower_elems(elems, i, object, done + pre, env, k) == behind(
            done,
            lower_elems(elems, i, object, pre, env, m),
        ),
    decreases elems.len() - i,
{
    if i < elems.len() {
        let elem = elems[i as int];
        lemma_index(elems, i as int);
        if elem.kind == Kind::Absent {
            lemma_lower_elems(elems, i + 1, object, done, pre, env, k, m);
        } else {
            match elem_decl(elem, i as int, object) {
                None => {},
                Some(d) => {
                    lemma_elem_decl(elem, i as int, object);
                    lemma_one(d);
                    assert(refold(seq![d], env, k) == fold_decls(seq![d], env));
                    assert(refold(seq![d], env, m) == fold_decls(seq![d], env));
                    match fold_decls(seq![d], env) {
                        Err(_) => {},
                        Ok((ds, env1)) => {
                            lemma_more(done, pre, ds);
                            lemma_lower_elems(elems, i + 1, object, done, pre + ds, env1, k, m);
                        },
                    }
                },
            }
        }
    }
}

proof fn lemma_lower_prop(
    prop: Tree,
    object: Name,
    done: Seq<Tree>,
    pre: Seq<Tree>,
    env: Env,
    k: nat,
    m: nat,
)
    requires
        weight(prop) < k,
        weight(prop) < m,
    ensures
        lower_prop(prop, object, done + pre, env, k) == behind(
            done,
            lower_prop(prop, object, pre, env, m),
        ),
{
    if prop.children.len() == 2 {
        let key = prop.children[0];
        let value = prop.children[1];
        lemma_prop_decls(prop, object, object);
        match prop.kind {
            Kind::PatProp(PatPropKind::KeyValue) => match prop_name_expr(key) {
                None => {},
                Some(property) => {
                    let ds = seq![declarator(prop.span, value, ref_prop_expr(object, property))];
                    match fold_decls(ds, env) {
                        Err(_) => {},
                        Ok((ds1, env1)) => lemma_more(done, pre, ds1),
                    }
                },
            },
            Kind::PatProp(PatPropKind::Assign) => {
                let name = name_of(key);
                let property = ref_prop_expr(object, ident_expr(name));
                if value.kind == Kind::Absent {
                    match fold_decls(seq![declarator(prop.span, ident_pat(name), property)], env) {
                        Err(_) => {},
                        Ok((ds1, env1)) => lemma_more(done, pre, ds1),
                    }
                } else {
                    lemma_ref_ident(done, pre, property, env);
                    match ref_ident(pre, property, env) {
                        Err(_) => {},
                        Ok((tmp, pre1, env1)) => {
                            lemma_prop_decls(prop, object, tmp);
                            let ds = seq![
                                declarator(prop.span, ident_pat(name), cond_expr(tmp, value)),
                            ];
                            match fold_decls(ds, env1) {
                                Err(_) => {},
                                Ok((ds1, env2)) => lemma_more(done, pre1, ds1),
                            }
                        },
                    }
                }
            },
            _ => {},
        }
    }
}

proof fn lemma_lower_props(
    props: Seq<Tree>,
    i: nat,
    object: Name,
    done: Seq<Tree>,
    pre: Seq<Tree>,
    env: Env,
    k: nat,
    m: nat,
)
    requires
        weights(props) < k,
        weights(props) < m,
    ensures
        lower_props(props, i, object, done + pre, env, k) == behind(
            done,
            lower_props(props, i, object, pre, env, m),
        ),
    decreases props.len() - i,
{
    if i < props.len() {
        lemma_index(props, i as int);
        lemma_lower_prop(props[i as int], object, done, pre, env, k, m);
        match lower_prop(props[i as int], object, pre, env, m) {
            Err(_) => {},
            Ok((pre1, env1)) => lemma_lower_props(
                props,
                i + 1,
                object,
                done,
                pre1,
                env1,
                k,
                m,
            ),
        }
    }
}

/// Trees are taken one by one, so one list can follow another.
proof fn lemma_fold_all(a: Seq<Tree>, b: Seq<Tree>, done: Seq<Tree>, env: Env)
    ensures
        fold_all(a + b, done, env) == match fold_all(a, done, env) {
            Err(refusal) => Err(refusal),
            Ok((done1, env1)) => fold_all(b, done1, env1),
        },
    decreases a.len(),
{
    if a.len() == 0 {
        assert(a + b =~= b);
    } else {
        assert((a + b).drop_first() =~= a.drop_first() + b);
        match fold(a[0], env) {
            Err(_) => {},
            Ok((t, env1)) => lemma_fold_all(a.drop_first(), b, done.push(t), env1),
        }
    }
}

proof fn lemma_fold_all_behind(ts: Seq<Tree>, done: Seq<Tree>, pre: Seq<Tree>, env: Env)
    ensures
        fold_all(ts, done + pre, env) == behind(done, fold_all(ts, pre, env)),
    decreases ts.len(),
{
    if ts.len() > 0 {
        match fold(ts[0], env) {
            Err(_) => {},
            Ok((t, env1)) => {
                lemma_push(done, pre, t);
                lemma_fold_all_behind(ts.drop_first(), done, pre.push(t), env1);
            },
        }
    }
}

/// Declarators are taken one by one, so one list can follow another.
proof fn lemma_lower_all(a: Seq<Tree>, b: Seq<Tree>, done: Seq<Tree>, env: Env, bound: nat)
    ensures
        lower_decls(a + b, done, env, bound) == match lower_decls(a, done, env, bound) {
            Err(refusal) => Err(refusal),
            Ok((done1, env1)) => lower_decls(b, done1, env1, bound),
        },
    decreases a.len(),
{
    if a.len() == 0 {
        assert(a + b =~= b);
    } else {
        assert((a + b).drop_first() =~= a.drop_first() + b);
        match lower_decl(a[0], done, env, bound) {
            Err(_) => {},
            Ok((done1, env1)) => lemma_lower_all(a.drop_first(), b, done1, env1, bound),
        }
    }
}

/// Declarators of single names stay.
proof fn lemma_single(ds: Seq<Tree>, done: Seq<Tree>, env: Env, bound: nat)
    requires
        all_decls(ds),
        !any_complex(ds),
    ensures
        lower_decls(ds, done, env, bound) == Ok::<(Seq<Tree>, Env), Refusal>((done + ds, env)),
    decreases ds.len(),
{
    if ds.len() == 0 {
        assert(done + ds =~= done);
    } else {
        let rest = ds.drop_first();
        assert(is_decl(ds[0]) && !complex_decl(ds[0]));
        assert forall|i: int| 0 <= i < rest.len() implies is_decl(#[trigger] rest[i])
            && !complex_decl(rest[i]) by {
            assert(is_decl(ds[i + 1]) && !complex_decl(ds[i + 1]));
        }
        assert(lower_decl(ds[0], done, env, bound) == Ok::<(Seq<Tree>, Env), Refusal>(
            (done.push(ds[0]), env),
        ));
        lemma_single(rest, done.push(ds[0]), env, bound);
        assert(done.push(ds[0]) + rest =~= done + ds);
    }
}

/// A declarator stays one.
proof fn lemma_decl(d: Tree, d1: Tree)
    requires
        is_decl(d),
        folded(d, d1),
    ensures
        is_decl(d1),
{
    let env = choose|env: Env| (#[trigger] fold(d, env)) matches Ok((x, env1)) && x == d1;
    lemma_fold_all_each(d.children, Seq::empty(), env);
}

/// What becomes of a list of declarators, whether or not one of them binds more than a name.
proof fn lemma_fold_decls(ds: Seq<Tree>, env: Env)
    requires
        all_decls(ds),
    ensures
        fold_decls(ds, env) == match fold_all(ds, Seq::empty(), env) {
            Err(refusal) => Err(refusal),
            Ok((ds1, env1)) => lower_decls(ds1, Seq::empty(), env1, weights(ds)),
        },
        fold_all(ds, Seq::empty(), env) matches Ok((ds1, env1)) ==> weights(ds1) <= weights(ds),
{
    match fold_all(ds, Seq::empty(), env) {
        Err(_) => {},
        Ok((ds1, env1)) => {
            lemma_fold_all_each(ds, Seq::empty(), env);
            crate::shrink::lemma_fold_all(ds, Seq::empty(), env);
            assert(ds1.skip(0) =~= ds1);
            assert forall|i: int| 0 <= i < ds1.len() implies is_decl(#[trigger] ds1[i]) by {
                assert(folded(ds[i], ds1.skip(0)[i]));
                assert(is_decl(ds[i]));
                lemma_decl(ds[i], ds1[i]);
            }
            if !any_complex(ds1) {
                lemma_single(ds1, Seq::empty(), env1, weights(ds));
                assert(Seq::<Tree>::empty() + ds1 =~= ds1);
            }
        },
    }
}

/// A state that has grown agrees with what it was on all that it knew.
proof fn lemma_kept_grown(e: Env, f: Env)
    requires
        grown(e, f),
    ensures
        forall|p: (u32, u32)| #[trigger] kept(e, e).contains(p) ==> kept(f, e).contains(p) && kept(
            e,
            f,
        ).contains(p) && kept(f, f).contains(p),
{
    assert forall|p: (u32, u32)| #[trigger] kept(e, e).contains(p) implies kept(f, e).contains(p)
        && kept(e, f).contains(p) && kept(f, f).contains(p) by {
        assert(f.contexts[p.0 as int] == e.contexts[p.0 as int]);
    }
}

/// A tree whose contexts are those of a state.
proof fn lemma_kept_tree(t: Tree, e: Env, r: Set<(u32, u32)>)
    requires
        same(t, t, r),
        within(e, e, r),
    ensures
        same(t, t, kept(e, e)),
    decreases t,
{
    reveal(within);
    assert(r.contains((t.span.ctxt, t.span.ctxt)));
    assert forall|i: int| 0 <= i < t.children.len() implies same(
        #[trigger] t.children[i],
        t.children[i],
        kept(e, e),
    ) by {
        lemma_kept_tree(t.children[i], e, r);
    }
}

/// The contexts of what comes out are those of the state behind it.
proof fn lemma_known(ts: Seq<Tree>, env: Env)
    requires
        env.wf(),
        same_all(ts, ts, kept(env, env)),
    ensures
        fold_all(ts, Seq::empty(), env) matches Ok((ts1, env1)) ==> grown(env, env1) && same_all(
            ts1,
            ts1,
            kept(env1, env1),
        ),
{
    let none = Seq::<Tree>::empty();
    let r = kept(env, env);
    lemma_kept(env, env);
    let r1 = crate::renaming::lemma_fold_all(ts, none, env, ts, none, env, r);
    match fold_all(ts, none, env) {
        Err(_) => {},
        Ok((ts1, env1)) => {
            assert forall|i: int| 0 <= i < ts1.len() implies same(
                #[trigger] ts1[i],
                ts1[i],
                kept(env1, env1),
            ) by {
                lemma_kept_tree(ts1[i], env1, r1);
            }
        },
    }
}

/// Two renamings go together where one goes on where the other one stops, on either side: the first
/// state has grown by `eb` and then `ec`, the second one by `fa` and then `fb`.
proof fn lemma_union(
    ea: Env,
    eb: Env,
    ec: Env,
    fa: Env,
    fb: Env,
    r: Set<(u32, u32)>,
    s: Set<(u32, u32)>,
)
    requires
        ea.wf(),
        grown(ea, eb),
        grown(ea, fa),
        ext(eb, ea, kept(eb, ea), ec, fa, r),
        ext(ea, fa, kept(ea, fa), eb, fb, s),
    ensures
        linked(ec, fb, r.union(s)),
        grown(ea, ec),
        grown(ea, fb),
        forall|p: (u32, u32)| #[trigger] kept(ea, ea).contains(p) ==> r.union(s).contains(p),
        forall|p: (u32, u32)| #[trigger]
            r.union(s).contains(p) && !kept(ea, ea).contains(p) ==> (p.0 >= ea.contexts.len()
                && p.1 >= ea.contexts.len()) || (is_helper(ec, p.0) && is_helper(fb, p.1)),
{
    reveal(one_to_one);
    reveal(within);
    reveal(adds);
    let q = r.union(s);
    crate::growth::lemma_trans(ea, eb, ec);
    crate::growth::lemma_trans(ea, fa, fb);
    lemma_kept_grown(ea, eb);
    lemma_kept_grown(ea, fa);
    assert forall|p: (u32, u32)| #[trigger] q.contains(p) implies p.0 < ec.contexts.len() && p.1
        < fb.contexts.len() && is_helper(ec, p.0) == is_helper(fb, p.1) by {
        if r.contains(p) {
            assert(fb.contexts[p.1 as int] == fa.contexts[p.1 as int]);
        } else {
            assert(s.contains(p));
            assert(ec.contexts[p.0 as int] == eb.contexts[p.0 as int]);
        }
    }
    assert forall|p: (u32, u32)| #[trigger] r.contains(p) implies (p.0 == p.1 && p.0
        < ea.contexts.len()) || (p.0 >= eb.contexts.len() && ea.contexts.len() <= p.1
        < fa.contexts.len()) || is_helper(ec, p.0) by {}
    assert forall|p: (u32, u32)| #[trigger] s.contains(p) implies (p.0 == p.1 && p.0
        < ea.contexts.len()) || (ea.contexts.len() <= p.0 < eb.contexts.len() && p.1
        >= fa.contexts.len()) || is_helper(ec, p.0) by {
        assert(ec.contexts[p.0 as int] == eb.contexts[p.0 as int]);
    }
    assert forall|p: (u32, u32), o: (u32, u32)| #[trigger]
        q.contains(p) && #[trigger] q.contains(o) implies (p.0 == o.0) == (p.1 == o.1) by {
        lemma_apart(ec, fb, p, o);
    }
    assert forall|p: (u32, u32)| #[trigger] q.contains(p) && !kept(ea, ea).contains(p) implies (p.0
        >= ea.contexts.len() && p.1 >= ea.contexts.len()) || (is_helper(ec, p.0) && is_helper(
        fb,
        p.1,
    )) by {}
}

/// The context of the helpers is told from every other on either side.
proof fn lemma_apart(e: Env, f: Env, p: (u32, u32), o: (u32, u32))
    requires
        e.wf(),
        f.wf(),
        p.0 < e.contexts.len(),
        o.0 < e.contexts.len(),
        p.1 < f.contexts.len(),
        o.1 < f.contexts.len(),
        is_helper(e, p.0) == is_helper(f, p.1),
        is_helper(e, o.0) == is_helper(f, o.1),
    ensures
        is_helper(e, p.0) && is_helper(e, o.0) ==> p == o,
        is_helper(e, p.0) && !is_helper(e, o.0) ==> p.0 != o.0 && p.1 != o.1,
        !is_helper(e, p.0) && is_helper(e, o.0) ==> p.0 != o.0 && p.1 != o.1,
{
}

/// What becomes of the declarators `a`, and behind that what then becomes of the declarators `b`.
pub open spec fn in_turn(a: Seq<Tree>, b: Seq<Tree>, env: Env) -> Result<
    (Seq<Tree>, Env),
    Refusal,
> {
    match fold_decls(a, env) {
        Err(refusal) => Err(refusal),
        Ok((a1, env1)) => match fold_decls(b, env1) {
            Err(refusal) => Err(refusal),
            Ok((b1, env2)) => Ok((a1 + b1, env2)),
        },
    }
}

/// What becomes of two lists of declarators together is what becomes of the one and then of the
/// other, up to the contexts of new names and of the helpers.
pub proof fn law_joined(a: Seq<Tree>, b: Seq<Tree>, env: Env)
    requires
        env.wf(),
        all_decls(a),
        all_decls(b),
        same_all(a, a, kept(env, env)),
        same_all(b, b, kept(env, env)),
    ensures
        exists|r: Set<(u32, u32)>| #[trigger]
            meet_all(
                fold_decls(a + b, env),
                in_turn(a, b, env),
                env,
                env,
                kept(env, env),
                r,
            ),
{
    let none = Seq::<Tree>::empty();
    let bound = weights(a + b);
    let x = fold_decls(a + b, env);
    let y = in_turn(a, b, env);
    assert forall|i: int| 0 <= i < (a + b).len() implies is_decl(#[trigger] (a + b)[i]) by {
        if i < a.len() {
            assert(is_decl(a[i]));
        } else {
            assert(is_decl(b[i - a.len()]));
        }
    }
    lemma_fold_decls(a + b, env);
    lemma_fold_decls(a, env);
    lemma_fold_all(a, b, none, env);
    crate::weighing::lemma_add(a, b);
    lemma_known(a, env);
    let r = kept(env, env);
    match fold_all(a, none, env) {
        Err(_) => {
            assert(meet_all(x, y, env, env, r, r));
        },
        Ok((a1, ea)) => {
            let r1 = lemma_joined(a, b, a1, env, ea);
            assert(meet_all(x, y, env, env, r, r1));
        },
    }
}

proof fn lemma_joined(a: Seq<Tree>, b: Seq<Tree>, a1: Seq<Tree>, env: Env, ea: Env) -> (r: Set<
    (u32, u32),
>)
    requires
        env.wf(),
        all_decls(a),
        all_decls(b),
        grown(env, ea),
        fold_all(a, Seq::empty(), env) == Ok::<(Seq<Tree>, Env), Refusal>((a1, ea)),
        weights(a1) <= weights(a),
        weights(a + b) == weights(a) + weights(b),
        same_all(a1, a1, kept(ea, ea)),
        same_all(b, b, kept(env, env)),
        fold_decls(a, env) == lower_decls(a1, Seq::empty(), ea, weights(a)),
        fold_decls(a + b, env) == match fold_all(b, a1, ea) {
            Err(refusal) => Err(refusal),
            Ok((ds1, env1)) => lower_decls(ds1, Seq::empty(), env1, weights(a + b)),
        },
    ensures
        meet_all(fold_decls(a + b, env), in_turn(a, b, env), env, env, kept(env, env), r),
{
    let none = Seq::<Tree>::empty();
    let bound = weights(a + b);
    let k = kept(env, env);
    lemma_kept_grown(env, ea);
    lemma_mono_all(b, b, k, kept(ea, ea));
    assert(a1 + none =~= a1);
    assert(none + none =~= none);
    lemma_fold_all_behind(b, a1, none, ea);
    lemma_lower_decls(a1, none, none, ea, weights(a), bound);
    match (fold_all(b, none, ea), lower_decls(a1, none, ea, bound)) {
        (Err(_), Err(_)) => k,
        (Err(_), Ok((a2, fa))) => {
            assert(none + a2 =~= a2);
            lemma_lower_grown(a1, ea, bound);
            lemma_b(b, ea, fa);
            lemma_fold_decls(b, fa);
            k
        },
        (Ok((b1, eb)), Err(_)) => {
            lemma_known(b, ea);
            lemma_lower_all(a1, b1, none, eb, bound);
            let s = lemma_a(a1, ea, eb, bound);
            k
        },
        (Ok((b1, eb)), Ok((a2, fa))) => {
            assert(none + a2 =~= a2);
            lemma_lower_grown(a1, ea, bound);
            lemma_known(b, ea);
            lemma_lower_all(a1, b1, none, eb, bound);
            lemma_fold_decls(b, fa);
            lemma_fold_decls(b, ea);
            let r = lemma_a(a1, ea, eb, bound);
            let s = lemma_b(b, ea, fa);
            match (lower_decls(a1, none, eb, bound), fold_all(b, none, fa)) {
                (Ok((a3, ec)), Ok((b2, fb))) => {
                    lemma_union(ea, eb, ec, fa, fb, r, s);
                    let q = r.union(s);
                    lemma_mono_all(a3, a2, r, q);
                    lemma_mono_all(b1, b2, s, q);
                    let r1 = crate::renaming::lemma_lower_decls(
                        b1,
                        a3,
                        ec,
                        b2,
                        a2,
                        fb,
                        bound,
                        q,
                    );
                    assert(a2 + none =~= a2);
                    lemma_lower_decls(b2, a2, none, fb, bound, weights(b));
                    match (lower_decls(b1, a3, ec, bound), lower_decls(b2, a2, fb, bound)) {
                        (Ok((xs, ed)), Ok((ys, fd))) => {
                            lemma_last(env, ea, ec, fb, ed, fd, q, r1);
                        },
                        _ => {},
                    }
                    r1
                },
                _ => k,
            }
        },
    }
}

/// The states only grow.
proof fn lemma_lower_grown(ds: Seq<Tree>, env: Env, bound: nat)
    requires
        env.wf(),
        same_all(ds, ds, kept(env, env)),
    ensures
        lower_decls(ds, Seq::empty(), env, bound) matches Ok((out, env1)) ==> grown(env, env1),
{
    let none = Seq::<Tree>::empty();
    lemma_kept(env, env);
    let r = crate::renaming::lemma_lower_decls(
        ds,
        none,
        env,
        ds,
        none,
        env,
        bound,
        kept(env, env),
    );
}

/// The first list, before and after the second one was looked into.
proof fn lemma_a(ds: Seq<Tree>, ea: Env, eb: Env, bound: nat) -> (r: Set<(u32, u32)>)
    requires
        ea.wf(),
        grown(ea, eb),
        same_all(ds, ds, kept(ea, ea)),
    ensures
        meet_all(
            lower_decls(ds, Seq::empty(), eb, bound),
            lower_decls(ds, Seq::empty(), ea, bound),
            eb,
            ea,
            kept(eb, ea),
            r,
        ),
{
    let none = Seq::<Tree>::empty();
    lemma_kept_grown(ea, eb);
    lemma_kept(eb, ea);
    lemma_mono_all(ds, ds, kept(ea, ea), kept(eb, ea));
    crate::renaming::lemma_lower_decls(ds, none, eb, ds, none, ea, bound, kept(eb, ea))
}

/// The second list, before and after the first one was lowered.
proof fn lemma_b(ds: Seq<Tree>, ea: Env, fa: Env) -> (r: Set<(u32, u32)>)
    requires
        ea.wf(),
        grown(ea, fa),
        same_all(ds, ds, kept(ea, ea)),
    ensures
        meet_all(
            fold_all(ds, Seq::empty(), ea),
            fold_all(ds, Seq::empty(), fa),
            ea,
            fa,
            kept(ea, fa),
            r,
        ),
{
    let none = Seq::<Tree>::empty();
    lemma_kept_grown(ea, fa);
    lemma_kept(ea, fa);
    lemma_mono_all(ds, ds, kept(ea, ea), kept(ea, fa));
    crate::renaming::lemma_fold_all(ds, none, ea, ds, none, fa, kept(ea, fa))
}

/// What the last step adds is new to the first state too.
proof fn lemma_last(
    env: Env,
    ea: Env,
    ec: Env,
    fb: Env,
    ed: Env,
    fd: Env,
    q: Set<(u32, u32)>,
    r1: Set<(u32, u32)>,
)
    requires
        grown(env, ea),
        grown(ea, ec),
        grown(ea, fb),
        ext(ec, fb, q, ed, fd, r1),
        forall|p: (u32, u32)| #[trigger] kept(ea, ea).contains(p) ==> q.contains(p),
        forall|p: (u32, u32)| #[trigger]
            q.contains(p) && !kept(ea, ea).contains(p) ==> (p.0 >= ea.contexts.len() && p.1
                >= ea.contexts.len()) || (is_helper(ec, p.0) && is_helper(fb, p.1)),
    ensures
        ext(env, env, kept(env, env), ed, fd, r1),
{
    reveal(adds);
    lemma_kept_grown(env, ea);
    crate::growth::lemma_trans(env, ea, ec);
    crate::growth::lemma_trans(env, ea, fb);
    crate::growth::lemma_trans(env, ec, ed);
    crate::growth::lemma_trans(env, fb, fd);
    assert forall|p: (u32, u32)| #[trigger] r1.contains(p) && !kept(env, env).contains(
        p,
    ) implies (p.0 >= env.contexts.len() && p.1 >= env.contexts.len()) || (is_helper(ed, p.0)
        && is_helper(fd, p.1)) by {
        if q.contains(p) {
            if is_helper(ec, p.0) {
                assert(ed.contexts[p.0 as int] == ec.contexts[p.0 as int]);
            }
            if is_helper(fb, p.1) {
                assert(fd.contexts[p.1 as int] == fb.contexts[p.1 as int]);
            }
        }
    }
}

} // verus!
