//! What a lowered declaration does is what its patterns ask for.
use crate::ast::{ExprKind, Kind, PatKind, PatPropKind, Span, Tree};
use crate::factory::{
    cond_expr, declarator, dummy, helper_call, ident_expr, ident_pat, leaf, member, non_null_expr,
    number, prop_name_expr, ref_idx_expr, ref_prop_expr, slice_call,
};
use crate::growth::{grown, law_fresh};
use crate::hygiene::{Env, Name};
use crate::meaning::{
    anchored, base, below, binds, binds_elems, binds_prop, binds_props, declares, declares_all,
    is_ident, lemma_nullable, lemma_outline, name_value, outline, outlines, part, property, reads,
    right, runs, step, value, Event, Right, Store, Value,
};
use crate::measure::{any_complex, complex_decl, depths, sizes, weights};
use crate::nullness::nullable;
use crate::quiet::active;
use crate::renaming::is_helper;
use crate::rules::{
    alias_ident, all_decls, array_ident, copied_array, copied_object, elem_decl, fold, fold_all,
    fold_decls, is_decl, lower_decl, lower_decls, lower_elems, lower_prop, lower_props, name_of,
    object_ident, ref_ident, ref_text, refold, tmp_ident, with,
};
use crate::shrink::folded;
use vstd::prelude::*;

verus! {

/// A tree keeps its outline when the pass goes over it.
pub proof fn lemma_fold_outline(t: Tree, t1: Tree)
    requires
        folded(t, t1),
    ensures
        outline(t1) == outline(t),
    decreases t,
{
    let env = choose|env: Env| (#[trigger] fold(t, env)) matches Ok((x, env1)) && x == t1;
    if !active(t.kind) {
        crate::shrink::lemma_fold_all_each(t.children, Seq::empty(), env);
        assert(t1.children.skip(0) =~= t1.children);
        lemma_outline(t);
        lemma_outline(t1);
        assert forall|i: int| 0 <= i < t.children.len() implies outlines(t1.children)[i]
            == outlines(t.children)[i] by {
            assert(folded(t.children[i], t1.children.skip(0)[i]));
            lemma_fold_outline(t.children[i], t1.children[i]);
        }
        assert(outlines(t1.children) =~= outlines(t.children));
    }
}

/// The outlines of expressions that the pass makes.
pub proof fn lemma_made(a: Name, p: Tree, computed: bool, i: int, span: Span)
    ensures
        outline(ident_expr(a)) == ident_expr(a),
        outline(ident_pat(a)) == ident_pat(a),
        outline(number(i, span)) == number(i, span),
        outline(member(a, p, computed)) == member(a, outline(p), computed),
        outline(ref_idx_expr(a, i)) == ref_idx_expr(a, i),
        outline(slice_call(a, i, span)) == slice_call(a, i, span),
        outline(cond_expr(a, p)) == cond_expr(a, outline(p)),
{
    lemma_leaf(Kind::Expr(ExprKind::Ident), a.span, a.text);
    lemma_leaf(Kind::Pat(PatKind::Ident), a.span, a.text);
    lemma_leaf(number(i, span).kind, span, Seq::empty());
    lemma_leaf(number(i, dummy()).kind, dummy(), Seq::empty());
    lemma_leaf(number(0, dummy()).kind, dummy(), Seq::empty());
    lemma_two(member(a, p, computed), ident_expr(a), p);
    lemma_two(ref_idx_expr(a, i), ident_expr(a), number(i, dummy()));
    let slice = ident_expr(crate::factory::quoted("slice"@));
    lemma_leaf(slice.kind, slice.span, slice.text);
    let callee = member(a, slice, false);
    lemma_two(callee, ident_expr(a), slice);
    lemma_two(slice_call(a, i, span), callee, number(i, span));
    let c = cond_expr(a, p);
    let test = c.children[0];
    let void = test.children[1];
    lemma_outline(void);
    assert(outlines(void.children) =~= seq![number(0, dummy())]);
    lemma_two(test, ident_expr(a), void);
    lemma_outline(c);
    assert(outlines(c.children) =~= seq![test, outline(p), ident_expr(a)]);
}

proof fn lemma_leaf(kind: Kind, span: Span, text: Seq<char>)
    ensures
        outline(leaf(kind, span, text)) == leaf(kind, span, text),
{
    assert(outline(leaf(kind, span, text)).children =~= Seq::empty());
}

proof fn lemma_two(t: Tree, a: Tree, b: Tree)
    requires
        !active(t.kind),
        t.children == seq![a, b],
    ensures
        outline(t) == with(t, seq![outline(a), outline(b)]),
{
    lemma_outline(t);
    assert(outlines(t.children) =~= seq![outline(a), outline(b)]);
}

proof fn lemma_helpers(a: Name, h: Name)
    ensures
        outline(helper_call(h, a)) == helper_call(h, a),
        outline(non_null_expr(a, h)) == non_null_expr(a, h),
{
    lemma_leaf(Kind::Expr(ExprKind::Ident), a.span, a.text);
    lemma_leaf(Kind::Expr(ExprKind::Ident), h.span, h.text);
    lemma_two(helper_call(h, a), ident_expr(h), ident_expr(a));
    let t = non_null_expr(a, h);
    let call = t.children[2];
    let error = call.children[1];
    lemma_leaf(error.children[0].kind, error.children[0].span, error.children[0].text);
    lemma_leaf(error.children[1].kind, error.children[1].span, error.children[1].text);
    lemma_two(error, error.children[0], error.children[1]);
    assert(with(error, seq![error.children[0], error.children[1]]) == error);
    lemma_two(call, ident_expr(h), error);
    lemma_outline(t);
    assert(outlines(t.children) =~= t.children);
}

/// Whether the store holds only names whose contexts the state knows, and is in order.
pub open spec fn fits(s: Store, env: Env, n: nat) -> bool {
    &&& env.wf()
    &&& n <= env.contexts.len()
    &&& forall|k: (Seq<char>, u32)| #[trigger] s.dom().contains(k) ==> k.1 < env.contexts.len()
}

/// Whether a store holds what another one held, and besides that only new names.
pub open spec fn extends(s: Store, s1: Store, env: Env) -> bool {
    &&& forall|k: (Seq<char>, u32)| #[trigger]
        s.dom().contains(k) ==> s1.dom().contains(k) && s1[k] == s[k]
    &&& forall|k: (Seq<char>, u32)| #[trigger]
        s1.dom().contains(k) && !s.dom().contains(k) ==> k.1 >= env.contexts.len()
}

/// Whether declarators came out that do what those before did, and then the given.
pub open spec fn lands(
    done: Seq<Tree>,
    env: Env,
    events: Seq<Event>,
    out: Seq<Tree>,
    env1: Env,
    s0: Store,
    n: nat,
    last: Env,
) -> bool {
    let (a, s) = runs(done, s0, n, last);
    let (b, s1) = runs(out, s0, n, last);
    fits(s, env, n) && grown(env1, last) ==> {
        &&& fits(s1, env1, n)
        &&& b == a + events
        &&& extends(s, s1, env)
    }
}

/// A value that rests on a known name stays.
pub proof fn lemma_stays(e: Tree, s: Store, s1: Store, env: Env, last: Env)
    requires
        anchored(e, env.contexts.len()),
        extends(s, s1, env),
    ensures
        value(e, s1, last) == value(e, s, last),
{
}

proof fn lemma_name_stays(e: Tree, s: Store, s1: Store, env: Env)
    requires
        e.span.ctxt < env.contexts.len(),
        extends(s, s1, env),
    ensures
        name_value(e, s1) == name_value(e, s),
{
}

proof fn lemma_lands_trans(
    a: Seq<Tree>,
    env: Env,
    x: Seq<Event>,
    b: Seq<Tree>,
    env1: Env,
    y: Seq<Event>,
    c: Seq<Tree>,
    env2: Env,
    s0: Store,
    n: nat,
    last: Env,
)
    requires
        lands(a, env, x, b, env1, s0, n, last),
        lands(b, env1, y, c, env2, s0, n, last),
        grown(env, env1),
        grown(env1, env2),
    ensures
        lands(a, env, x + y, c, env2, s0, n, last),
{
    let (ea, sa) = runs(a, s0, n, last);
    let (eb, sb) = runs(b, s0, n, last);
    let (ec, sc) = runs(c, s0, n, last);
    if fits(sa, env, n) && grown(env2, last) {
        crate::growth::lemma_trans(env1, env2, last);
        assert(ec =~= ea + (x + y));
        assert forall|k: (Seq<char>, u32)| #[trigger]
            sc.dom().contains(k) && !sa.dom().contains(k) implies k.1 >= env.contexts.len() by {
            if sb.dom().contains(k) {
            }
        }
        assert forall|k: (Seq<char>, u32)| #[trigger]
            sa.dom().contains(k) implies sc.dom().contains(k) && sc[k] == sa[k] by {
            assert(sb.dom().contains(k));
        }
    }
}

proof fn lemma_runs_add(a: Seq<Tree>, b: Seq<Tree>, s: Store, n: nat, last: Env)
    ensures
        runs(a + b, s, n, last) == ({
            let (x, s1) = runs(a, s, n, last);
            let (y, s2) = runs(b, s1, n, last);
            (x + y, s2)
        }),
    decreases a.len(),
{
    if a.len() == 0 {
        assert(a + b =~= b);
        let (y, s2) = runs(b, s, n, last);
        assert(Seq::<Event>::empty() + y =~= y);
    } else {
        assert((a + b).drop_first() =~= a.drop_first() + b);
        let (e, s1) = step(a[0], s, n, last);
        lemma_runs_add(a.drop_first(), b, s1, n, last);
        let (x, s2) = runs(a.drop_first(), s1, n, last);
        let (y, s3) = runs(b, s2, n, last);
        assert(e + (x + y) =~= (e + x) + y);
    }
}

proof fn lemma_runs_push(a: Seq<Tree>, d: Tree, s: Store, n: nat, last: Env)
    ensures
        runs(a.push(d), s, n, last) == ({
            let (x, s1) = runs(a, s, n, last);
            let (y, s2) = step(d, s1, n, last);
            (x + y, s2)
        }),
{
    assert(a.push(d) =~= a + seq![d]);
    lemma_runs_add(a, seq![d], s, n, last);
    let (x, s1) = runs(a, s, n, last);
    let (y, s2) = step(d, s1, n, last);
    assert(seq![d].drop_first() =~= Seq::empty());
    assert(runs(Seq::<Tree>::empty(), s2, n, last) == (Seq::<Event>::empty(), s2));
    assert(y + Seq::<Event>::empty() =~= y);
}

/// A new name with a value.
proof fn lemma_new(
    done: Seq<Tree>,
    span: Span,
    name: Name,
    init: Tree,
    env: Env,
    env1: Env,
    s0: Store,
    n: nat,
    last: Env,
)
    requires
        env.wf() && n <= env.contexts.len() ==> env.contexts.len() <= name.span.ctxt
            < env1.contexts.len(),
        grown(env, env1),
    ensures
        ({
            let s = runs(done, s0, n, last).1;
            let out = done.push(declarator(span, ident_pat(name), init));
            let v = value(outline(init), s, last);
            &&& lands(done, env, reads(right(outline(init)), v), out, env1, s0, n, last)
            &&& fits(s, env, n) ==> name_value(
                ident_expr(name),
                runs(out, s0, n, last).1,
            ) == v
        }),
{
    let d = declarator(span, ident_pat(name), init);
    lemma_runs_push(done, d, s0, n, last);
    assert(d.children[0] == ident_pat(name));
    assert(d.children[1] == init);
}

/// A name for the value of `init`.
proof fn lemma_ref_ident(
    done: Seq<Tree>,
    init: Tree,
    env: Env,
    s0: Store,
    n: nat,
    last: Env,
)
    requires
        anchored(outline(init), env.contexts.len()),
    ensures
        ref_ident(done, init, env) matches Ok((name, out, env1)) ==> {
            let s = runs(done, s0, n, last).1;
            let v = value(outline(init), s, last);
            &&& grown(env, env1)
            &&& lands(done, env, reads(right(outline(init)), v), out, env1, s0, n, last)
            &&& fits(s, env, n) ==> name_value(ident_expr(name), runs(out, s0, n, last).1) == v
                && name.span.ctxt < env1.contexts.len()
        },
{
    crate::growth::lemma_ref_ident(done, init, env);
    if is_ident(init) {
        let (a, s) = runs(done, s0, n, last);
        assert(a + Seq::<Event>::empty() =~= a);
        assert(outline(init).text == init.text && outline(init).span == init.span);
    } else {
        let span = if init.kind == Kind::Absent {
            dummy()
        } else {
            init.span
        };
        match env.private_ident(span, ref_text(init)) {
            Err(_) => {},
            Ok((name, env1)) => {
                if env.wf() {
                    law_fresh(env, span, ref_text(init));
                }
                lemma_new(done, span, name, init, env, env1, s0, n, last);
            },
        }
    }
}

proof fn lemma_alias_ident(done: Seq<Tree>, init: Tree, env: Env, s0: Store, n: nat, last: Env)
    requires
        is_ident(init),
    ensures
        alias_ident(done, init, env) matches Ok((name, out, env1)) ==> {
            let s = runs(done, s0, n, last).1;
            let v = value(outline(init), s, last);
            &&& grown(env, env1)
            &&& lands(done, env, Seq::empty(), out, env1, s0, n, last)
            &&& fits(s, env, n) ==> name_value(ident_expr(name), runs(out, s0, n, last).1) == v
                && name.span.ctxt < env1.contexts.len()
        },
{
    crate::growth::lemma_private(env, init.span, "_"@ + init.text);
    match env.private_ident(init.span, "_"@ + init.text) {
        Err(_) => {},
        Ok((name, env1)) => {
            if env.wf() {
                law_fresh(env, init.span, "_"@ + init.text);
            }
            lemma_new(done, init.span, name, init, env, env1, s0, n, last);
        },
    }
}

proof fn lemma_tmp_ident(
    done: Seq<Tree>,
    init: Tree,
    span: Span,
    env: Env,
    s0: Store,
    n: nat,
    last: Env,
)
    requires
        anchored(outline(init), env.contexts.len()),
    ensures
        tmp_ident(done, init, span, env) matches Ok((name, out, env1)) ==> {
            let s = runs(done, s0, n, last).1;
            let v = value(outline(init), s, last);
            &&& grown(env, env1)
            &&& lands(done, env, reads(right(outline(init)), v), out, env1, s0, n, last)
            &&& fits(s, env, n) ==> name_value(ident_expr(name), runs(out, s0, n, last).1) == v
                && name.span.ctxt < env1.contexts.len()
        },
{
    if is_ident(init) && init.span.ctxt != 0 {
        let (a, s) = runs(done, s0, n, last);
        assert(a + Seq::<Event>::empty() =~= a);
    } else {
        crate::growth::lemma_private(env, span, "tmp"@);
        match env.private_ident(span, "tmp"@) {
            Err(_) => {},
            Ok((name, env1)) => {
                if env.wf() {
                    law_fresh(env, span, "tmp"@);
                }
                lemma_new(done, dummy(), name, init, env, env1, s0, n, last);
            },
        }
    }
}

/// The context of a helper is that of the helpers, also later.
proof fn lemma_helper(env: Env, text: Seq<char>, last: Env)
    requires
        env.wf(),
    ensures
        env.helper(text) matches Ok((name, env1)) ==> name.text == text && (grown(env1, last)
            ==> is_helper(last, name.span.ctxt)) && env1.contexts.len() >= env.contexts.len(),
{
    match env.helper(text) {
        Err(_) => {},
        Ok((name, env1)) => {
            if env.contexts.contains((0u32, env.helpers.mark)) {
                let i = env.contexts.index_of((0u32, env.helpers.mark));
                assert(env.contexts[i] == (0u32, env.helpers.mark));
                assert(i <= u32::MAX);
            }
            assert(env1.contexts[name.span.ctxt as int] == (0u32, env.helpers.mark));
        },
    }
}

/// Only what is known of the state changes.
proof fn lemma_lands_env(
    done: Seq<Tree>,
    env: Env,
    x: Seq<Event>,
    out: Seq<Tree>,
    env1: Env,
    env2: Env,
    s0: Store,
    n: nat,
    last: Env,
)
    requires
        lands(done, env, x, out, env1, s0, n, last),
        grown(env1, env2),
    ensures
        lands(done, env, x, out, env2, s0, n, last),
{
    if grown(env2, last) {
        crate::growth::lemma_trans(env1, env2, last);
    }
}

#[verifier::rlimit(40)]
proof fn lemma_array_ident(
    elems: Seq<Tree>,
    done: Seq<Tree>,
    init: Tree,
    env: Env,
    s0: Store,
    n: nat,
    last: Env,
)
    requires
        anchored(outline(init), env.contexts.len()),
    ensures
        array_ident(elems, done, init, env) matches Ok((name, out, env1)) ==> {
            let s = runs(done, s0, n, last).1;
            let v = value(outline(init), s, last);
            let w = if copied_array(elems, init) {
                Value::Array(Box::new(v))
            } else {
                v
            };
            let events = if copied_array(elems, init) {
                seq![Event::Read(w)]
            } else {
                reads(right(outline(init)), v)
            };
            &&& grown(env, env1)
            &&& lands(done, env, events, out, env1, s0, n, last)
            &&& fits(s, env, n) && grown(env1, last) ==> name_value(
                ident_expr(name),
                runs(out, s0, n, last).1,
            ) == w && name.span.ctxt < env1.contexts.len()
        },
{
    crate::growth::lemma_array_ident(elems, done, init, env);
    if !copied_array(elems, init) {
        lemma_ref_ident(done, init, env, s0, n, last);
    } else {
        lemma_alias_ident(done, init, env, s0, n, last);
        match array_ident(elems, done, init, env) {
            Err(_) => {},
            Ok((name, out, env3)) => {
                let (alias, done1, env1) = alias_ident(done, init, env)->Ok_0;
                let (helper, env2) = env1.to_array()->Ok_0;
                let text = "_"@ + init.text + "2"@;
                crate::growth::lemma_to_array(env1);
                crate::growth::lemma_private(env2, dummy(), text);
                crate::growth::lemma_trans(env, env1, env2);
                if env2.wf() {
                    law_fresh(env2, dummy(), text);
                }
                let call = helper_call(helper, alias);
                lemma_helpers(alias, helper);
                lemma_lands_env(done, env, Seq::empty(), done1, env1, env2, s0, n, last);
                lemma_new(done1, dummy(), name, call, env2, env3, s0, n, last);
                let s = runs(done, s0, n, last).1;
                let s1 = runs(done1, s0, n, last).1;
                let v = value(outline(init), s, last);
                let w = Value::Array(Box::new(v));
                let got = value(call, s1, last);
                lemma_lands_trans(
                    done,
                    env,
                    Seq::empty(),
                    done1,
                    env2,
                    reads(right(call), got),
                    out,
                    env3,
                    s0,
                    n,
                    last,
                );
                assert(Seq::<Event>::empty() + reads(right(call), got) =~= reads(
                    right(call),
                    got,
                ));
                if fits(s, env, n) && grown(env3, last) {
                    crate::growth::lemma_trans(env2, env3, last);
                    crate::growth::lemma_trans(env1, env2, last);
                    lemma_helper(env1, "_toArray"@, last);
                    let (h, henv) = env1.helper("_toArray"@)->Ok_0;
                    assert(grown(henv, last));
                    assert(fits(s1, env2, n));
                    assert(call.children[0] == ident_expr(helper));
                    assert(call.children[1] == ident_expr(alias));
                    assert(last.helpers.to_array);
                    assert(got == w);
                }
            },
        }
    }
}

#[verifier::rlimit(40)]
proof fn lemma_object_ident(
    props: Seq<Tree>,
    done: Seq<Tree>,
    init: Tree,
    env: Env,
    s0: Store,
    n: nat,
    last: Env,
)
    requires
        anchored(outline(init), env.contexts.len()),
        nullable(init) is Some,
        init.kind != Kind::Absent,
    ensures
        object_ident(props, done, init, env) matches Ok((name, out, env1)) ==> {
            let s = runs(done, s0, n, last).1;
            let r = right(outline(init));
            let v = value(outline(init), s, last);
            let plain = copied_object(props, init) || r == (Right::Value { nullable: false });
            let w = if plain {
                v
            } else {
                Value::Checked(Box::new(v))
            };
            let events = if plain {
                reads(r, v)
            } else {
                reads(r, v) + seq![Event::Read(w)]
            };
            &&& grown(env, env1)
            &&& lands(done, env, events, out, env1, s0, n, last)
            &&& fits(s, env, n) && grown(env1, last) ==> name_value(
                ident_expr(name),
                runs(out, s0, n, last).1,
            ) == w && name.span.ctxt < env1.contexts.len()
        },
{
    crate::growth::lemma_object_ident(props, done, init, env);
    lemma_nullable(init);
    if copied_object(props, init) {
        lemma_alias_ident(done, init, env, s0, n, last);
    } else {
        lemma_ref_ident(done, init, env, s0, n, last);
        match object_ident(props, done, init, env) {
            Err(_) => {},
            Ok((name, out, env3)) => {
                let (object, done1, env1) = ref_ident(done, init, env)->Ok_0;
                let checked = nullable(init) == Some(true);
                if checked {
                    let (throw, env2) = env1.throw()->Ok_0;
                    let test = non_null_expr(object, throw);
                    let s = runs(done, s0, n, last).1;
                    let s1 = runs(done1, s0, n, last).1;
                    let v = value(outline(init), s, last);
                    let x = reads(right(outline(init)), v);
                    crate::growth::lemma_throw(env1);
                    crate::growth::lemma_trans(env, env1, env2);
                    crate::growth::lemma_ref_ident(done1, test, env2);
                    lemma_helpers(object, throw);
                    lemma_lands_env(done, env, x, done1, env1, env2, s0, n, last);
                    match env2.private_ident(test.span, ref_text(test)) {
                        Err(_) => {},
                        Ok((name2, env4)) => {
                            if env2.wf() {
                                law_fresh(env2, test.span, ref_text(test));
                            }
                            assert(name2 == name && env4 == env3);
                            lemma_new(done1, test.span, name, test, env2, env3, s0, n, last);
                        },
                    }
                    let got = value(test, s1, last);
                    lemma_lands_trans(
                        done,
                        env,
                        x,
                        done1,
                        env2,
                        reads(right(test), got),
                        out,
                        env3,
                        s0,
                        n,
                        last,
                    );
                    if fits(s, env, n) && grown(env3, last) {
                        crate::growth::lemma_trans(env2, env3, last);
                        crate::growth::lemma_trans(env1, env2, last);
                        lemma_helper(env1, "_throw"@, last);
                        let (h, henv) = env1.helper("_throw"@)->Ok_0;
                        assert(grown(henv, last));
                        assert(fits(s1, env2, n));
                        assert(test.children[0] == ident_expr(object));
                        assert(test.children[1] == ident_expr(object));
                        assert(test.children[2].children[0] == ident_expr(throw));
                        assert(last.helpers.throw);
                        assert(crate::meaning::is_check(test));
                        assert(!crate::meaning::is_default(test));
                        assert(got == Value::Checked(Box::new(v)));
                        assert(reads(right(test), got) == seq![Event::Read(got)]);
                    }
                    assert(right(outline(init)) != (Right::Value { nullable: false }));
                    assert(lands(
                        done,
                        env,
                        x + seq![Event::Read(Value::Checked(Box::new(v)))],
                        out,
                        env3,
                        s0,
                        n,
                        last,
                    ));
                } else {
                    assert(is_ident(init) ==> nullable(init) == Some(true));
                    assert(nullable(init) == Some(false));
                    assert(outline(init).kind == init.kind);
                    assert(right(outline(init)) == (Right::Value { nullable: false }));
                }
            },
        }
    }
}

/// Whether a declarator binds names of the first `n` contexts, to a value that rests on a known
/// name.
pub open spec fn ready(d: Tree, env: Env, n: nat) -> bool {
    &&& is_decl(d)
    &&& below(outline(d.children[0]), n)
    &&& anchored(outline(d.children[1]), env.contexts.len())
}

/// Whether that holds of each of the declarators.
pub open spec fn all_ready(ds: Seq<Tree>, env: Env, n: nat) -> bool {
    forall|i: int| 0 <= i < ds.len() ==> ready(#[trigger] ds[i], env, n)
}

proof fn lemma_ready_grown(ds: Seq<Tree>, env: Env, env1: Env, n: nat)
    requires
        all_ready(ds, env, n),
        grown(env, env1),
    ensures
        all_ready(ds, env1, n),
{
    assert forall|i: int| 0 <= i < ds.len() implies ready(#[trigger] ds[i], env1, n) by {
        assert(ready(ds[i], env, n));
    }
}

proof fn lemma_ready_rest(ds: Seq<Tree>, env: Env, n: nat)
    requires
        all_ready(ds, env, n),
        ds.len() > 0,
    ensures
        ready(ds[0], env, n),
        all_ready(ds.drop_first(), env, n),
{
    let rest = ds.drop_first();
    assert forall|i: int| 0 <= i < rest.len() implies ready(#[trigger] rest[i], env, n) by {
        assert(ready(ds[i + 1], env, n));
    }
}

/// What declarators do does not change when more new names are known.
proof fn lemma_declares_stays(
    ds: Seq<Tree>,
    s: Store,
    s1: Store,
    env: Env,
    n: nat,
    last: Env,
)
    requires
        all_ready(ds, env, n),
        extends(s, s1, env),
    ensures
        declares_all(ds, s1, last) == declares_all(ds, s, last),
    decreases ds.len(),
{
    if ds.len() > 0 {
        lemma_ready_rest(ds, env, n);
        lemma_stays(outline(ds[0].children[1]), s, s1, env, last);
        lemma_declares_stays(ds.drop_first(), s, s1, env, n, last);
    }
}

/// Declarators do the same after the pass went over them.
proof fn lemma_declares_folded(
    ds: Seq<Tree>,
    ds1: Seq<Tree>,
    s: Store,
    env: Env,
    n: nat,
    last: Env,
)
    requires
        all_ready(ds, env, n),
        ds1.len() == ds.len(),
        forall|i: int| 0 <= i < ds.len() ==> folded(ds[i], #[trigger] ds1[i]),
    ensures
        all_ready(ds1, env, n),
        declares_all(ds1, s, last) == declares_all(ds, s, last),
    decreases ds.len(),
{
    assert forall|i: int| 0 <= i < ds.len() implies ready(#[trigger] ds1[i], env, n) && outline(
        ds1[i].children[0],
    ) == outline(ds[i].children[0]) && outline(ds1[i].children[1]) == outline(
        ds[i].children[1],
    ) by {
        assert(folded(ds[i], ds1[i]));
        assert(ready(ds[i], env, n));
        lemma_fold_outline(ds[i], ds1[i]);
        assert(outline(ds1[i]).kind == outline(ds[i]).kind);
        lemma_outline(ds[i]);
        lemma_outline(ds1[i]);
        assert(outlines(ds1[i].children).len() == 2);
        assert(outlines(ds1[i].children)[0] == outlines(ds[i].children)[0]);
        assert(outlines(ds1[i].children)[1] == outlines(ds[i].children)[1]);
    }
    if ds.len() > 0 {
        let a = ds.drop_first();
        let b = ds1.drop_first();
        lemma_ready_rest(ds, env, n);
        assert forall|i: int| 0 <= i < a.len() implies folded(a[i], #[trigger] b[i]) by {
            assert(folded(ds[i + 1], ds1[i + 1]));
        }
        lemma_declares_folded(a, b, s, env, n, last);
        assert(ready(ds1[0], env, n));
    }
}

/// Declarators of single names do what they do.
proof fn lemma_single(ds: Seq<Tree>, s: Store, env: Env, n: nat, last: Env)
    requires
        all_ready(ds, env, n),
        !any_complex(ds),
    ensures
        runs(ds, s, n, last) == (declares_all(ds, s, last), s),
    decreases ds.len(),
{
    if ds.len() > 0 {
        let rest = ds.drop_first();
        lemma_ready_rest(ds, env, n);
        assert(!complex_decl(ds[0]));
        assert forall|i: int| 0 <= i < rest.len() implies !complex_decl(#[trigger] rest[i]) by {
            assert(!complex_decl(ds[i + 1]));
        }
        lemma_single(rest, s, env, n, last);
        assert(outline(ds[0].children[0]).span == ds[0].children[0].span);
    }
}

/// What becomes of declarators does what they do.
pub proof fn lemma_fold_decls(ds: Seq<Tree>, env: Env, s: Store, n: nat, last: Env)
    requires
        fits(s, env, n),
        all_ready(ds, env, n),
    ensures
        fold_decls(ds, env) matches Ok((out, env1)) ==> grown(env, env1) && (grown(env1, last)
            ==> {
            let (b, s1) = runs(out, s, n, last);
            &&& b == declares_all(ds, s, last)
            &&& fits(s1, env1, n)
            &&& extends(s, s1, env)
        }),
    decreases weights(ds), 2 * depths(ds) + 10, 2 * sizes(ds) + 1,
{
    crate::growth::lemma_fold_decls(ds, env);
    crate::growth::lemma_fold_all(ds, Seq::empty(), env);
    crate::shrink::lemma_fold_all_each(ds, Seq::empty(), env);
    match fold_all(ds, Seq::empty(), env) {
        Err(_) => {},
        Ok((ds1, env1)) => {
            assert(ds1.skip(0) =~= ds1);
            assert forall|i: int| 0 <= i < ds.len() implies folded(ds[i], #[trigger] ds1[i]) by {
                assert(folded(ds[i], ds1.skip(0)[i]));
            }
            lemma_declares_folded(ds, ds1, s, env, n, last);
            lemma_ready_grown(ds1, env, env1, n);
            let none = Seq::<Tree>::empty();
            assert(runs(none, s, n, last) == (Seq::<Event>::empty(), s));
            if any_complex(ds1) {
                lemma_lower_decls(ds1, none, env1, weights(ds), s, n, last);
                match lower_decls(ds1, none, env1, weights(ds)) {
                    Err(_) => {},
                    Ok((out, env2)) => {
                        if grown(env2, last) {
                            assert(Seq::<Event>::empty() + declares_all(ds1, s, last)
                                =~= declares_all(ds1, s, last));
                        }
                    },
                }
            } else {
                lemma_single(ds1, s, env1, n, last);
            }
        },
    }
}

/// One declarator that the pass has made, behind those that are done.
proof fn lemma_refold(
    d: Tree,
    done: Seq<Tree>,
    env: Env,
    bound: nat,
    s0: Store,
    n: nat,
    last: Env,
)
    requires
        ready(d, env, n),
        fits(runs(done, s0, n, last).1, env, n),
    ensures
        refold(seq![d], env, bound) matches Ok((ds, env1)) ==> grown(env, env1) && lands(
            done,
            env,
            declares(d, runs(done, s0, n, last).1, last),
            done + ds,
            env1,
            s0,
            n,
            last,
        ),
    decreases bound, 0nat, 0nat,
{
    if weights(seq![d]) < bound {
        let (a, s) = runs(done, s0, n, last);
        assert(all_ready(seq![d], env, n));
        lemma_fold_decls(seq![d], env, s, n, last);
        match refold(seq![d], env, bound) {
            Err(_) => {},
            Ok((ds, env1)) => {
                lemma_runs_add(done, ds, s0, n, last);
                assert(seq![d].drop_first() =~= Seq::empty());
                assert(declares_all(Seq::<Tree>::empty(), s, last) =~= Seq::empty());
                assert(declares_all(seq![d], s, last) =~= declares(d, s, last));
            },
        }
    }
}

proof fn lemma_lower_decls(
    ds: Seq<Tree>,
    done: Seq<Tree>,
    env: Env,
    bound: nat,
    s0: Store,
    n: nat,
    last: Env,
)
    requires
        all_ready(ds, env, n),
        fits(runs(done, s0, n, last).1, env, n),
    ensures
        lower_decls(ds, done, env, bound) matches Ok((out, env1)) ==> grown(env, env1) && lands(
            done,
            env,
            declares_all(ds, runs(done, s0, n, last).1, last),
            out,
            env1,
            s0,
            n,
            last,
        ),
    decreases bound, 3nat, ds.len(),
{
    let (a, s) = runs(done, s0, n, last);
    crate::growth::lemma_lower_decls(ds, done, env, bound);
    if ds.len() == 0 {
        assert(a + Seq::<Event>::empty() =~= a);
    } else {
        lemma_ready_rest(ds, env, n);
        lemma_lower_decl(ds[0], done, env, bound, s0, n, last);
        match lower_decl(ds[0], done, env, bound) {
            Err(_) => {},
            Ok((done1, env1)) => {
                let rest = ds.drop_first();
                lemma_ready_grown(rest, env, env1, n);
                crate::growth::lemma_lower_decls(rest, done1, env1, bound);
                match lower_decls(rest, done1, env1, bound) {
                    Err(_) => {},
                    Ok((out, env2)) => if grown(env2, last) {
                        crate::growth::lemma_trans(env1, env2, last);
                        let s1 = runs(done1, s0, n, last).1;
                        lemma_lower_decls(rest, done1, env1, bound, s0, n, last);
                        lemma_declares_stays(rest, s, s1, env, n, last);
                        lemma_lands_trans(
                            done,
                            env,
                            declares(ds[0], s, last),
                            done1,
                            env1,
                            declares_all(rest, s1, last),
                            out,
                            env2,
                            s0,
                            n,
                            last,
                        );
                    },
                }
            },
        }
    }
}

#[verifier::rlimit(40)]
proof fn lemma_lower_decl(
    d: Tree,
    done: Seq<Tree>,
    env: Env,
    bound: nat,
    s0: Store,
    n: nat,
    last: Env,
)
    requires
        ready(d, env, n),
        fits(runs(done, s0, n, last).1, env, n),
    ensures
        lower_decl(d, done, env, bound) matches Ok((out, env1)) ==> grown(env, env1) && lands(
            done,
            env,
            declares(d, runs(done, s0, n, last).1, last),
            out,
            env1,
            s0,
            n,
            last,
        ),
    decreases bound, 2nat, 0nat,
{
    let (a, s) = runs(done, s0, n, last);
    let name = d.children[0];
    let init = d.children[1];
    let p = outline(name);
    let e = outline(init);
    let v = value(e, s, last);
    let r = right(e);
    crate::growth::lemma_lower_decl(d, done, env, bound);
    match name.kind {
        Kind::Pat(PatKind::Ident) => {
            lemma_runs_push(done, d, s0, n, last);
            assert(p.span == name.span && p.text == name.text);
        },
        Kind::Pat(PatKind::Array) => if init.kind != Kind::Absent {
            lemma_outline(name);
            lemma_array_ident(name.children, done, init, env, s0, n, last);
            match array_ident(name.children, done, init, env) {
                Err(_) => {},
                Ok((object, done1, env1)) => match lower_elems(
                    name.children,
                    0,
                    object,
                    done1,
                    env1,
                    bound,
                ) {
                    Err(_) => {},
                    Ok((out, env2)) => if grown(env2, last) {
                        crate::growth::lemma_lower_elems(
                            name.children,
                            0,
                            object,
                            done1,
                            env1,
                            bound,
                        );
                        crate::growth::lemma_trans(env1, env2, last);
                        let s1 = runs(done1, s0, n, last).1;
                        let w = name_value(ident_expr(object), s1);
                        lemma_lower_elems(
                            name.children,
                            0,
                            object,
                            done1,
                            env1,
                            bound,
                            s0,
                            n,
                            last,
                        );
                        assert(outlines(name.children).skip(0) =~= p.children);
                        if name.children.len() > 0 {
                            assert(p.children.last() == outline(name.children.last()));
                        }
                        let x = if copied_array(name.children, init) {
                            seq![Event::Read(w)]
                        } else {
                            reads(r, v)
                        };
                        lemma_lands_trans(
                            done,
                            env,
                            x,
                            done1,
                            env1,
                            binds_elems(p.children, 0, w),
                            out,
                            env2,
                            s0,
                            n,
                            last,
                        );
                        assert(binds(p, v, r) == x + binds_elems(p.children, 0, w));
                    },
                },
            }
        },
        Kind::Pat(PatKind::Object) => if init.kind != Kind::Absent && nullable(init) is Some {
            lemma_outline(name);
            lemma_object_ident(name.children, done, init, env, s0, n, last);
            match object_ident(name.children, done, init, env) {
                Err(_) => {},
                Ok((object, done1, env1)) => match lower_props(
                    name.children,
                    0,
                    object,
                    done1,
                    env1,
                    bound,
                ) {
                    Err(_) => {},
                    Ok((out, env2)) => if grown(env2, last) {
                        crate::growth::lemma_lower_props(
                            name.children,
                            0,
                            object,
                            done1,
                            env1,
                            bound,
                        );
                        crate::growth::lemma_trans(env1, env2, last);
                        let s1 = runs(done1, s0, n, last).1;
                        let w = name_value(ident_expr(object), s1);
                        lemma_lower_props(
                            name.children,
                            0,
                            object,
                            done1,
                            env1,
                            bound,
                            s0,
                            n,
                            last,
                        );
                        assert(outlines(name.children).skip(0) =~= p.children);
                        let plain = copied_object(name.children, init) || r == (Right::Value {
                            nullable: false,
                        });
                        let x = if plain {
                            reads(r, v)
                        } else {
                            reads(r, v) + seq![Event::Read(w)]
                        };
                        lemma_lands_trans(
                            done,
                            env,
                            x,
                            done1,
                            env1,
                            binds_props(p.children, w),
                            out,
                            env2,
                            s0,
                            n,
                            last,
                        );
                        if copied_object(name.children, init) {
                            assert(x + binds_props(p.children, w) =~= binds_props(p.children, w));
                        }
                        assert(binds(p, v, r) == x + binds_props(p.children, w));
                    },
                },
            }
        },
        Kind::Pat(PatKind::Assign) => if name.children.len() == 2 && init.kind != Kind::Absent {
            lemma_outline(name);
            lemma_tmp_ident(done, init, name.span, env, s0, n, last);
            match tmp_ident(done, init, name.span, env) {
                Err(_) => {},
                Ok((tmp, done1, env1)) => {
                    let left = name.children[0];
                    let default = name.children[1];
                    let sub = declarator(name.span, left, cond_expr(tmp, default));
                    match refold(seq![sub], env1, bound) {
                        Err(_) => {},
                        Ok((ds, env2)) => if grown(env2, last) {
                            crate::growth::lemma_refold(seq![sub], env1, bound);
                            crate::growth::lemma_trans(env1, env2, last);
                            let s1 = runs(done1, s0, n, last).1;
                            assert(p.children[0] == outline(left));
                            assert(p.children[1] == outline(default));
                            assert(below(p.children[0], n));
                            lemma_cond(tmp, default, s1, last);
                            assert(sub.children[0] == left);
                            assert(sub.children[1] == cond_expr(tmp, default));
                            lemma_refold(sub, done1, env1, bound, s0, n, last);
                            lemma_lands_trans(
                                done,
                                env,
                                reads(r, v),
                                done1,
                                env1,
                                declares(sub, s1, last),
                                done1 + ds,
                                env2,
                                s0,
                                n,
                                last,
                            );
                        },
                    }
                },
            }
        },
        _ => {},
    }
}

/// What the test of a default value stands for.
proof fn lemma_cond(tmp: Name, default: Tree, s: Store, last: Env)
    ensures
        outline(cond_expr(tmp, default)) == cond_expr(tmp, outline(default)),
        value(cond_expr(tmp, outline(default)), s, last) == Value::Default(
            Box::new(name_value(ident_expr(tmp), s)),
            outline(default),
        ),
        right(cond_expr(tmp, outline(default))) == part(),
        base(cond_expr(tmp, outline(default))) matches Some(b) && b == ident_expr(tmp),
{
    lemma_made(tmp, default, true, 0, dummy());
    let e = cond_expr(tmp, outline(default));
    assert(e.children[0].children[0] == ident_expr(tmp));
    assert(e.children[2] == ident_expr(tmp));
    assert(e.children[1] == outline(default));
    assert(crate::meaning::is_default(e));
    assert(nullable(ident_expr(tmp)) == Some(true));
    assert(nullable(e) != Some(false));
}

/// What an element and what a rest of an array stand for.
proof fn lemma_elem_values(object: Name, i: int, span: Span, s: Store, last: Env)
    ensures
        ({
            let v = Box::new(name_value(ident_expr(object), s));
            let elem = ref_idx_expr(object, i);
            let rest = slice_call(object, i, span);
            &&& outline(elem) == elem
            &&& outline(rest) == rest
            &&& value(elem, s, last) == Value::Item(v, i as u64)
            &&& value(rest, s, last) == Value::From(v, i as u64)
            &&& right(elem) == part()
            &&& right(rest) == part()
            &&& base(elem) matches Some(b) && b == ident_expr(object)
            &&& base(rest) matches Some(b) && b == ident_expr(object)
        }),
{
    lemma_made(object, ident_expr(object), true, i, span);
    let elem = ref_idx_expr(object, i);
    let rest = slice_call(object, i, span);
    assert(elem.children[0] == ident_expr(object));
    assert(elem.children[1] == number(i, dummy()));
    assert(rest.children[0].children[0] == ident_expr(object));
    assert(rest.children[1] == number(i, span));
    assert(crate::meaning::is_slice(rest));
    assert(nullable(elem) == Some(true));
    assert(nullable(rest) == Some(true));
}

/// What a property stands for.
proof fn lemma_prop_values(object: Name, e: Tree, s: Store, last: Env)
    ensures
        ({
            let v = name_value(ident_expr(object), s);
            let prop = ref_prop_expr(object, e);
            let o = outline(prop);
            &&& value(o, s, last) == crate::meaning::access(v, outline(e), !is_ident(e))
            &&& right(o) == part()
            &&& base(o) matches Some(b) && b == ident_expr(object)
        }),
{
    let prop = ref_prop_expr(object, e);
    lemma_made(object, e, !is_ident(e), 0, dummy());
    let o = outline(prop);
    assert(o.children[0] == ident_expr(object));
    assert(o.children[1] == outline(e));
    assert(outline(e).kind == e.kind);
    assert(nullable(o) == Some(true));
}

#[verifier::rlimit(40)]
proof fn lemma_lower_elems(
    elems: Seq<Tree>,
    i: nat,
    object: Name,
    done: Seq<Tree>,
    env: Env,
    bound: nat,
    s0: Store,
    n: nat,
    last: Env,
)
    requires
        i <= elems.len(),
        forall|j: int| 0 <= j < elems.len() ==> below(#[trigger] outlines(elems)[j], n),
        object.span.ctxt < env.contexts.len(),
        fits(runs(done, s0, n, last).1, env, n),
    ensures
        lower_elems(elems, i, object, done, env, bound) matches Ok((out, env1)) ==> lands(
            done,
            env,
            binds_elems(
                outlines(elems).skip(i as int),
                i,
                name_value(ident_expr(object), runs(done, s0, n, last).1),
            ),
            out,
            env1,
            s0,
            n,
            last,
        ),
    decreases bound, 1nat, elems.len() - i,
{
    let (a, s) = runs(done, s0, n, last);
    let v = name_value(ident_expr(object), s);
    let all = outlines(elems).skip(i as int);
    if i >= elems.len() {
        assert(all =~= Seq::empty());
        assert(a + Seq::<Event>::empty() =~= a);
    } else {
        let elem = elems[i as int];
        let rest = outlines(elems).skip(i as int + 1);
        assert(all.drop_first() =~= rest);
        assert(all[0] == outline(elem));
        assert(below(outlines(elems)[i as int], n));
        if elem.kind == Kind::Absent {
            lemma_lower_elems(elems, i + 1, object, done, env, bound, s0, n, last);
            assert(Seq::<Event>::empty() + binds_elems(rest, i + 1, v) =~= binds_elems(
                rest,
                i + 1,
                v,
            ));
        } else {
            match elem_decl(elem, i as int, object) {
                None => {},
                Some(d) => match refold(seq![d], env, bound) {
                    Err(_) => {},
                    Ok((ds, env1)) => match lower_elems(
                        elems,
                        i + 1,
                        object,
                        done + ds,
                        env1,
                        bound,
                    ) {
                        Err(_) => {},
                        Ok((out, env2)) => if grown(env2, last) {
                            crate::growth::lemma_refold(seq![d], env, bound);
                            crate::growth::lemma_lower_elems(
                                elems,
                                i + 1,
                                object,
                                done + ds,
                                env1,
                                bound,
                            );
                            crate::growth::lemma_trans(env1, env2, last);
                            let here = match elem.kind {
                                Kind::Pat(PatKind::Rest { dot3 }) => {
                                    lemma_elem_values(object, i as int, dot3, s, last);
                                    lemma_outline(elem);
                                    assert(outline(elem).children[0] == outline(elem.children[0]));
                                    assert(d.children[0] == elem.children[0]);
                                    assert(d.children[1] == slice_call(object, i as int, dot3));
                                    binds(
                                        outline(elem.children[0]),
                                        Value::From(Box::new(v), i as u64),
                                        part(),
                                    )
                                },
                                _ => {
                                    lemma_elem_values(object, i as int, dummy(), s, last);
                                    assert(d.children[0] == elem);
                                    assert(d.children[1] == ref_idx_expr(object, i as int));
                                    binds(outline(elem), Value::Item(Box::new(v), i as u64), part())
                                },
                            };
                            lemma_refold(d, done, env, bound, s0, n, last);
                            assert(declares(d, s, last) == here);
                            let s1 = runs(done + ds, s0, n, last).1;
                            lemma_name_stays(ident_expr(object), s, s1, env);
                            lemma_lower_elems(
                                elems,
                                i + 1,
                                object,
                                done + ds,
                                env1,
                                bound,
                                s0,
                                n,
                                last,
                            );
                            lemma_lands_trans(
                                done,
                                env,
                                here,
                                done + ds,
                                env1,
                                binds_elems(rest, i + 1, v),
                                out,
                                env2,
                                s0,
                                n,
                                last,
                            );
                            assert(binds_elems(all, i, v) == here + binds_elems(rest, i + 1, v));
                        },
                    },
                },
            }
        }
    }
}

#[verifier::rlimit(40)]
proof fn lemma_lower_prop(
    prop: Tree,
    object: Name,
    done: Seq<Tree>,
    env: Env,
    bound: nat,
    s0: Store,
    n: nat,
    last: Env,
)
    requires
        below(outline(prop), n),
        object.span.ctxt < env.contexts.len(),
        fits(runs(done, s0, n, last).1, env, n),
    ensures
        lower_prop(prop, object, done, env, bound) matches Ok((out, env1)) ==> lands(
            done,
            env,
            binds_prop(
                outline(prop),
                name_value(ident_expr(object), runs(done, s0, n, last).1),
            ),
            out,
            env1,
            s0,
            n,
            last,
        ),
    decreases bound, 1nat, 0nat,
{
    let (a, s) = runs(done, s0, n, last);
    let v = name_value(ident_expr(object), s);
    if prop.children.len() == 2 && prop.kind is PatProp {
        let k = prop.children[0];
        let q = prop.children[1];
        lemma_outline(prop);
        let o = outline(prop);
        assert(o.children[0] == outline(k));
        assert(o.children[1] == outline(q));
        assert(below(o.children[0], n) && below(o.children[1], n));
        match prop.kind {
            Kind::PatProp(PatPropKind::KeyValue) => match prop_name_expr(k) {
                None => {},
                Some(e) => {
                    let d = declarator(prop.span, q, ref_prop_expr(object, e));
                    assert(d.children[0] == q);
                    assert(d.children[1] == ref_prop_expr(object, e));
                    lemma_prop_values(object, e, s, last);
                    lemma_key(v, k, e);
                    lemma_refold(d, done, env, bound, s0, n, last);
                },
            },
            Kind::PatProp(PatPropKind::Assign) => {
                let name = name_of(k);
                let e = ref_prop_expr(object, ident_expr(name));
                lemma_prop_values(object, ident_expr(name), s, last);
                lemma_made(name, q, true, 0, dummy());
                let w = Value::Named(Box::new(v), k.text);
                assert(value(outline(e), s, last) == w);
                assert(below(ident_pat(name), n));
                if q.kind == Kind::Absent {
                    let d = declarator(prop.span, ident_pat(name), e);
                    assert(d.children[0] == ident_pat(name));
                    assert(d.children[1] == e);
                    lemma_refold(d, done, env, bound, s0, n, last);
                    assert(declares(d, s, last) =~= binds_prop(o, v));
                } else {
                    lemma_ref_ident(done, e, env, s0, n, last);
                    match ref_ident(done, e, env) {
                        Err(_) => {},
                        Ok((tmp, done1, env1)) => {
                            let d = declarator(prop.span, ident_pat(name), cond_expr(tmp, q));
                            match refold(seq![d], env1, bound) {
                                Err(_) => {},
                                Ok((ds, env2)) => if grown(env2, last) {
                                    crate::growth::lemma_refold(seq![d], env1, bound);
                                    crate::growth::lemma_trans(env1, env2, last);
                                    let s1 = runs(done1, s0, n, last).1;
                                    lemma_cond(tmp, q, s1, last);
                                    assert(d.children[0] == ident_pat(name));
                                    assert(d.children[1] == cond_expr(tmp, q));
                                    lemma_refold(d, done1, env1, bound, s0, n, last);
                                    lemma_lands_trans(
                                        done,
                                        env,
                                        seq![Event::Read(w)],
                                        done1,
                                        env1,
                                        declares(d, s1, last),
                                        done1 + ds,
                                        env2,
                                        s0,
                                        n,
                                        last,
                                    );
                                    assert(seq![Event::Read(w)] + declares(d, s1, last)
                                        =~= binds_prop(o, v));
                                },
                            }
                        },
                    }
                }
            },
            _ => {},
        }
    }
}

/// The property that a property name stands for.
proof fn lemma_key(v: Value, k: Tree, e: Tree)
    requires
        prop_name_expr(k) == Some(e),
    ensures
        property(v, outline(k)) == crate::meaning::access(v, outline(e), !is_ident(e)),
{
    lemma_leaf(e.kind, e.span, e.text);
    match k.kind {
        Kind::PropName(crate::ast::PropNameKind::Computed) => {
            lemma_outline(k);
            assert(outline(k).children[0] == outline(e));
        },
        _ => {},
    }
}

proof fn lemma_lower_props(
    props: Seq<Tree>,
    i: nat,
    object: Name,
    done: Seq<Tree>,
    env: Env,
    bound: nat,
    s0: Store,
    n: nat,
    last: Env,
)
    requires
        i <= props.len(),
        forall|j: int| 0 <= j < props.len() ==> below(#[trigger] outlines(props)[j], n),
        object.span.ctxt < env.contexts.len(),
        fits(runs(done, s0, n, last).1, env, n),
    ensures
        lower_props(props, i, object, done, env, bound) matches Ok((out, env1)) ==> lands(
            done,
            env,
            binds_props(
                outlines(props).skip(i as int),
                name_value(ident_expr(object), runs(done, s0, n, last).1),
            ),
            out,
            env1,
            s0,
            n,
            last,
        ),
    decreases bound, 1nat, 1 + props.len() - i,
{
    let (a, s) = runs(done, s0, n, last);
    let v = name_value(ident_expr(object), s);
    let all = outlines(props).skip(i as int);
    if i >= props.len() {
        assert(all =~= Seq::empty());
        assert(a + Seq::<Event>::empty() =~= a);
    } else {
        let prop = props[i as int];
        let rest = outlines(props).skip(i as int + 1);
        assert(all.drop_first() =~= rest);
        assert(all[0] == outline(prop));
        assert(below(outlines(props)[i as int], n));
        lemma_lower_prop(prop, object, done, env, bound, s0, n, last);
        match lower_prop(prop, object, done, env, bound) {
            Err(_) => {},
            Ok((done1, env1)) => match lower_props(props, i + 1, object, done1, env1, bound) {
                Err(_) => {},
                Ok((out, env2)) => if grown(env2, last) {
                    crate::growth::lemma_lower_prop(prop, object, done, env, bound);
                    crate::growth::lemma_lower_props(props, i + 1, object, done1, env1, bound);
                    crate::growth::lemma_trans(env1, env2, last);
                    let s1 = runs(done1, s0, n, last).1;
                    lemma_name_stays(ident_expr(object), s, s1, env);
                    lemma_lower_props(props, i + 1, object, done1, env1, bound, s0, n, last);
                    lemma_lands_trans(
                        done,
                        env,
                        binds_prop(outline(prop), v),
                        done1,
                        env1,
                        binds_props(rest, v),
                        out,
                        env2,
                        s0,
                        n,
                        last,
                    );
                },
            },
        }
    }
}

/// What becomes of a list of declarators does what their patterns ask for: it computes the same
/// values in the same order, each of them once, and gives each name of the program the value that
/// its place in the pattern asks for. The first `n` contexts are those that the state knows.
pub proof fn law_declares(ds: Seq<Tree>, env: Env)
    requires
        env.wf(),
        all_decls(ds),
        forall|i: int|
            0 <= i < ds.len() ==> below(outline((#[trigger] ds[i]).children[0]), env.contexts.len())
                && anchored(outline(ds[i].children[1]), env.contexts.len()),
    ensures
        fold_decls(ds, env) matches Ok((out, env1)) ==> runs(
            out,
            Map::empty(),
            env.contexts.len(),
            env1,
        ).0 == declares_all(ds, Map::empty(), env1),
{
    assert forall|i: int| 0 <= i < ds.len() implies ready(
        #[trigger] ds[i],
        env,
        env.contexts.len(),
    ) by {
        assert(is_decl(ds[i]));
    }
    match fold_decls(ds, env) {
        Err(_) => {},
        Ok((out, env1)) => lemma_fold_decls(ds, env, Map::empty(), env.contexts.len(), env1),
    }
}

/// A declaration stays one of its kind, at its place, and does what its patterns ask for.
pub proof fn law_declaration(t: Tree, env: Env)
    requires
        t.kind is Stmt,
        t.kind->Stmt_0 is VarDecl,
        env.wf(),
        all_decls(t.children),
        forall|i: int|
            0 <= i < t.children.len() ==> below(
                outline((#[trigger] t.children[i]).children[0]),
                env.contexts.len(),
            ) && anchored(outline(t.children[i].children[1]), env.contexts.len()),
    ensures
        fold(t, env) matches Ok((t1, env1)) ==> {
            &&& t1.kind == t.kind
            &&& t1.span == t.span
            &&& runs(t1.children, Map::empty(), env.contexts.len(), env1).0 == declares_all(
                t.children,
                Map::empty(),
                env1,
            )
        },
{
    law_declares(t.children, env);
}

} // verus!
