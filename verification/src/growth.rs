//! The pass only ever adds to the table of marks and contexts, and each name that it makes gets a
//! context of its own.
use crate::ast::{
    ExprKind, Kind, MemberKind, PartKind, PatKind, PatPropKind, PropKind, Span, StmtKind, Tree,
};
use crate::factory::{
    absent, assign_expr, cond_expr, declarator, dummy, ident_expr, ident_pat, non_null_expr,
    prop_name_expr, ref_idx_expr, ref_prop_expr, slice_call,
};
use crate::hygiene::{Env, Helpers, Name};
use crate::measure::{
    any_complex, any_pattern, depth, depths, is_stmts, size, sizes, weight, weights,
};
use crate::nullness::nullable;
use crate::renaming::is_helper;
use crate::rules::{
    alias_ident, array_ident, assign, assign_all, assign_elem, assign_elems, assign_prop,
    assign_props, assign_stmts, copied_array, copied_object, declare_vars, elem_decl, fold,
    fold_all, fold_arrow, fold_catch, fold_constructor, fold_decls, fold_fn_like, fold_for,
    fold_function, fold_setter, fold_stmts, init_all, is_decl, lower_assign, lower_decl,
    lower_decls, lower_elems, lower_prop, lower_props, name_of, non_null_ident, object_ident,
    reassign, ref_ident, refold, return_stmt, split_params, tmp_ident, with,
};
use vstd::prelude::*;

verus! {

/// Whether the second state knows everything that the first one knows, and is in order if that is.
pub open spec fn grown(env: Env, env1: Env) -> bool {
    &&& env.marks.len() <= env1.marks.len()
    &&& env.contexts.len() <= env1.contexts.len()
    &&& forall|i: int| 0 <= i < env.marks.len() ==> env1.marks[i] == #[trigger] env.marks[i]
    &&& forall|i: int|
        0 <= i < env.contexts.len() ==> env1.contexts[i] == #[trigger] env.contexts[i]
    &&& env1.helpers.mark == env.helpers.mark
    &&& env.helpers.throw ==> env1.helpers.throw
    &&& env.helpers.to_array ==> env1.helpers.to_array
    &&& env.wf() ==> env1.wf()
}

/// What grows twice has grown.
pub proof fn lemma_trans(a: Env, b: Env, c: Env)
    requires
        grown(a, b),
        grown(b, c),
    ensures
        grown(a, c),
{
    assert forall|i: int| 0 <= i < a.marks.len() implies c.marks[i] == #[trigger] a.marks[i] by {
        assert(b.marks[i] == a.marks[i]);
    }
    assert forall|i: int| 0 <= i < a.contexts.len() implies c.contexts[i]
        == #[trigger] a.contexts[i] by {
        assert(b.contexts[i] == a.contexts[i]);
    }
}

/// A new name is told from every other by its context: that context is the one that follows all
/// that were there.
pub proof fn law_fresh(env: Env, span: Span, text: Seq<char>)
    requires
        env.wf(),
    ensures
        match env.private_ident(span, text) {
            Ok((name, env1)) => {
                &&& name.text == text
                &&& name.span == (Span { ctxt: name.span.ctxt, ..span })
                &&& name.span.ctxt == env.contexts.len()
                &&& name.span.ctxt != 0
                &&& env1.contexts == env.contexts.push((span.ctxt, env.marks.len() as u32))
                &&& env1.helpers == env.helpers
                &&& env1.wf()
                &&& grown(env, env1)
            },
            Err(refusal) => refusal is Full && (env.marks.len() >= u32::MAX || env.contexts.len()
                > u32::MAX),
        },
{
    let mark = env.marks.len() as u32;
    if env.marks.len() < u32::MAX {
        if env.contexts.contains((span.ctxt, mark)) {
            let i = env.contexts.index_of((span.ctxt, mark));
            assert(env.contexts[i].1 < env.marks.len());
        }
        match env.private_ident(span, text) {
            Err(_) => {},
            Ok((name, env1)) => {
                assert forall|i: int| 0 <= i < env1.contexts.len() implies (
                #[trigger] env1.contexts[i]).1 < env1.marks.len() by {
                    if i < env.contexts.len() {
                        assert(env1.contexts[i] == env.contexts[i]);
                    }
                }
            },
        }
    }
}

/// Both helpers have the one context that their mark gives, without a position, and it is known
/// from then on that the output calls them. No mark is made for them.
pub proof fn law_helpers(env: Env)
    requires
        env.wf(),
    ensures
        env.throw() matches Ok((name, env1)) ==> {
            &&& name.text == "_throw"@
            &&& name.span == (Span { lo: 0, hi: 0, ctxt: name.span.ctxt })
            &&& is_helper(env1, name.span.ctxt)
            &&& env1.helpers == (Helpers { throw: true, ..env.helpers })
            &&& env1.marks == env.marks
            &&& grown(env, env1)
        },
        env.to_array() matches Ok((name, env1)) ==> {
            &&& name.text == "_toArray"@
            &&& name.span == (Span { lo: 0, hi: 0, ctxt: name.span.ctxt })
            &&& is_helper(env1, name.span.ctxt)
            &&& env1.helpers == (Helpers { to_array: true, ..env.helpers })
            &&& env1.marks == env.marks
            &&& grown(env, env1)
        },
{
    lemma_throw(env);
    lemma_to_array(env);
    if env.contexts.contains((0u32, env.helpers.mark)) {
        let i = env.contexts.index_of((0u32, env.helpers.mark));
        assert(env.contexts[i] == (0u32, env.helpers.mark));
    }
}

/// How the name for a value is spelled, where it stands, and how it is declared: for `a.b` and
/// `a[b]` as `_a$b`, and for any other value that is no name as `ref`.
pub proof fn law_ref_name(decls: Seq<Tree>, init: Tree, env: Env)
    requires
        env.wf(),
        init.kind != Kind::Expr(ExprKind::Ident),
        init.kind != Kind::Absent,
    ensures
        ref_ident(decls, init, env) matches Ok((name, out, env1)) ==> {
            let pair = init.kind is Expr && init.kind->Expr_0 is Member && init.children.len() == 2
                && init.children[0].kind == Kind::Expr(ExprKind::Ident) && init.children[1].kind
                == Kind::Expr(ExprKind::Ident);
            &&& pair ==> name.text == "_"@ + init.children[0].text + "$"@ + init.children[1].text
            &&& !pair ==> name.text == "ref"@
            &&& name.span == (Span { ctxt: name.span.ctxt, ..init.span })
            &&& out.drop_last() == decls
            &&& out.last().span == init.span
            &&& out.last().children.len() == 2
            &&& out.last().children[0] == ident_pat(name)
            &&& out.last().children[1] == init
        },
{
    match ref_ident(decls, init, env) {
        Err(_) => {},
        Ok((name, out, env1)) => {
            assert(out.drop_last() =~= decls);
            let d = declarator(init.span, ident_pat(name), init);
            assert(d.children[0] == ident_pat(name) && d.children[1] == init);
        },
    }
}

/// How the names for the value of a name `a` of the program are spelled: `_a`, and `_a2` for the
/// value as an array.
pub proof fn law_alias_names(elems: Seq<Tree>, decls: Seq<Tree>, init: Tree, env: Env)
    requires
        env.wf(),
        init.kind == Kind::Expr(ExprKind::Ident),
        init.span.ctxt == 0,
    ensures
        alias_ident(decls, init, env) matches Ok((name, out, env1)) ==> name.text == "_"@
            + init.text && name.span == (Span { ctxt: name.span.ctxt, ..init.span }),
        copied_array(elems, init) ==> (array_ident(elems, decls, init, env) matches Ok(
            (name, out, env1),
        ) ==> name.text == "_"@ + init.text + "2"@),
{
}

/// Two names that are made one after the other are different, whatever else happens between, and
/// neither is a name of the program.
pub proof fn law_distinct(
    env: Env,
    span: Span,
    text: Seq<char>,
    later: Env,
    span2: Span,
    text2: Seq<char>,
)
    requires
        env.wf(),
        env.private_ident(span, text) matches Ok((name, env1)) && grown(env1, later),
    ensures
        env.private_ident(span, text) matches Ok((a, env1)) ==> later.private_ident(
            span2,
            text2,
        ) matches Ok((b, env2)) ==> {
            &&& a.span.ctxt != 0
            &&& b.span.ctxt != 0
            &&& env.contexts.len() <= a.span.ctxt < b.span.ctxt
        },
{
    law_fresh(env, span, text);
    law_fresh(later, span2, text2);
}

/// Two names for values that are not names are different, whatever else happens between, even where
/// the values are the same, and neither is a name that was there before.
pub proof fn law_ref_idents(
    env: Env,
    decls: Seq<Tree>,
    init: Tree,
    later: Env,
    decls2: Seq<Tree>,
    init2: Tree,
)
    requires
        env.wf(),
        init.kind != Kind::Expr(ExprKind::Ident),
        init2.kind != Kind::Expr(ExprKind::Ident),
        ref_ident(decls, init, env) matches Ok((name, ds, env1)) && grown(env1, later),
    ensures
        ref_ident(decls, init, env) matches Ok((a, ds, env1)) ==> ref_ident(
            decls2,
            init2,
            later,
        ) matches Ok((b, ds2, env2)) ==> {
            &&& a.span.ctxt != 0
            &&& b.span.ctxt != 0
            &&& env.contexts.len() <= a.span.ctxt < b.span.ctxt
        },
{
    let span = if init.kind == Kind::Absent {
        dummy()
    } else {
        init.span
    };
    let span2 = if init2.kind == Kind::Absent {
        dummy()
    } else {
        init2.span
    };
    law_distinct(
        env,
        span,
        crate::rules::ref_text(init),
        later,
        span2,
        crate::rules::ref_text(init2),
    );
}

/// A new name adds to the table.
pub proof fn lemma_private(env: Env, span: Span, text: Seq<char>)
    ensures
        env.private_ident(span, text) matches Ok((name, env1)) ==> grown(env, env1),
{
    if env.wf() {
        law_fresh(env, span, text);
    }
}

/// The name of a helper adds to the table at most its context.
pub proof fn lemma_helper(env: Env, text: Seq<char>)
    ensures
        env.helper(text) matches Ok((name, env1)) ==> grown(env, env1),
{
    match env.helper(text) {
        Err(_) => {},
        Ok((name, env1)) => if env.wf() {
            assert forall|i: int| 0 <= i < env1.contexts.len() implies (
            #[trigger] env1.contexts[i]).1 < env1.marks.len() by {
                if i < env.contexts.len() {
                    assert(env1.contexts[i] == env.contexts[i]);
                }
            }
        },
    }
}

/// The name of the helper that throws adds to the table at most its context.
pub proof fn lemma_throw(env: Env)
    ensures
        env.throw() matches Ok((name, env1)) ==> grown(env, env1),
{
    lemma_helper(env, "_throw"@);
}

/// The name of the helper that makes an array adds to the table at most its context.
pub proof fn lemma_to_array(env: Env)
    ensures
        env.to_array() matches Ok((name, env1)) ==> grown(env, env1),
{
    lemma_helper(env, "_toArray"@);
}

pub proof fn lemma_ref_ident(decls: Seq<Tree>, init: Tree, env: Env)
    ensures
        ref_ident(decls, init, env) matches Ok((name, decls1, env1)) ==> grown(env, env1),
{
    let span = if init.kind == Kind::Absent {
        dummy()
    } else {
        init.span
    };
    lemma_private(env, span, crate::rules::ref_text(init));
}

pub proof fn lemma_tmp_ident(decls: Seq<Tree>, init: Tree, span: Span, env: Env)
    ensures
        tmp_ident(decls, init, span, env) matches Ok((name, decls1, env1)) ==> grown(env, env1),
{
    lemma_private(env, span, "tmp"@);
}

proof fn lemma_non_null_ident(decls: Seq<Tree>, name: Name, checked: bool, env: Env)
    ensures
        non_null_ident(decls, name, checked, env) matches Ok((name1, decls1, env1)) ==> grown(
            env,
            env1,
        ),
{
    if checked {
        lemma_throw(env);
        match env.throw() {
            Err(_) => {},
            Ok((throw, env1)) => {
                lemma_ref_ident(decls, non_null_expr(name, throw), env1);
                match ref_ident(decls, non_null_expr(name, throw), env1) {
                    Err(_) => {},
                    Ok((name1, decls1, env2)) => lemma_trans(env, env1, env2),
                }
            },
        }
    }
}

pub proof fn lemma_array_ident(elems: Seq<Tree>, decls: Seq<Tree>, init: Tree, env: Env)
    ensures
        array_ident(elems, decls, init, env) matches Ok((name, decls1, env1)) ==> grown(env, env1),
{
    if !copied_array(elems, init) {
        lemma_ref_ident(decls, init, env);
    } else {
        lemma_private(env, init.span, "_"@ + init.text);
        match alias_ident(decls, init, env) {
            Err(_) => {},
            Ok((alias, decls1, env1)) => {
                lemma_to_array(env1);
                match env1.to_array() {
                    Err(_) => {},
                    Ok((helper, env2)) => {
                        lemma_trans(env, env1, env2);
                        lemma_private(env2, dummy(), "_"@ + init.text + "2"@);
                        match env2.private_ident(dummy(), "_"@ + init.text + "2"@) {
                            Err(_) => {},
                            Ok((name, env3)) => lemma_trans(env, env2, env3),
                        }
                    },
                }
            },
        }
    }
}

pub proof fn lemma_object_ident(props: Seq<Tree>, decls: Seq<Tree>, init: Tree, env: Env)
    ensures
        object_ident(props, decls, init, env) matches Ok((name, decls1, env1)) ==> grown(env, env1),
{
    if copied_object(props, init) {
        lemma_private(env, init.span, "_"@ + init.text);
    } else {
        lemma_ref_ident(decls, init, env);
        match ref_ident(decls, init, env) {
            Err(_) => {},
            Ok((object, decls1, env1)) => {
                let checked = nullable(init) == Some(true);
                lemma_non_null_ident(decls1, object, checked, env1);
                match non_null_ident(decls1, object, checked, env1) {
                    Err(_) => {},
                    Ok((object2, decls2, env2)) => lemma_trans(env, env1, env2),
                }
            },
        }
    }
}

/// The pass keeps the marks and contexts that are there, and never takes back that a helper is
/// needed.
pub proof fn law_grown(t: Tree, env: Env)
    ensures
        fold(t, env) matches Ok((t1, env1)) ==> grown(env, env1),
    decreases weight(t), 2 * depth(t) + 10, 2 * size(t),
{
    match t.kind {
        Kind::Stmt(StmtKind::ForIn) => lemma_fold_for(t, env),
        Kind::Stmt(StmtKind::ForOf { is_await }) => lemma_fold_for(t, env),
        Kind::Stmt(StmtKind::VarDecl { kind, declare }) => lemma_fold_decls(t.children, env),
        Kind::Part(PartKind::Function { is_async, is_generator }) => lemma_fold_function(t, env),
        Kind::Member(MemberKind::Constructor) => lemma_fold_constructor(t, env),
        Kind::Prop(PropKind::Setter) => lemma_fold_setter(t, env),
        Kind::Part(PartKind::Catch) => lemma_fold_catch(t, env),
        Kind::Expr(ExprKind::Arrow { is_async, is_generator }) => lemma_fold_arrow(t, env),
        _ => if is_stmts(t.kind) {
            lemma_fold_stmts(t.children, env);
        } else {
            lemma_fold_all(t.children, Seq::empty(), env);
        },
    }
}

pub proof fn lemma_fold_all(ts: Seq<Tree>, done: Seq<Tree>, env: Env)
    ensures
        fold_all(ts, done, env) matches Ok((out, env1)) ==> grown(env, env1),
    decreases weights(ts), 2 * depths(ts) + 10, 2 * sizes(ts),
{
    if ts.len() > 0 {
        law_grown(ts[0], env);
        match fold(ts[0], env) {
            Err(_) => {},
            Ok((t, env1)) => {
                lemma_fold_all(ts.drop_first(), done.push(t), env1);
                match fold_all(ts.drop_first(), done.push(t), env1) {
                    Err(_) => {},
                    Ok((out, env2)) => lemma_trans(env, env1, env2),
                }
            },
        }
    }
}

/// Lowering a list of declarators keeps the marks and contexts that are there.
pub proof fn lemma_fold_decls(ds: Seq<Tree>, env: Env)
    ensures
        fold_decls(ds, env) matches Ok((out, env1)) ==> grown(env, env1),
    decreases weights(ds), 2 * depths(ds) + 10, 2 * sizes(ds) + 1,
{
    lemma_fold_all(ds, Seq::empty(), env);
    match fold_all(ds, Seq::empty(), env) {
        Err(_) => {},
        Ok((ds1, env1)) => if any_complex(ds1) {
            lemma_lower_decls(ds1, Seq::empty(), env1, weights(ds));
            match lower_decls(ds1, Seq::empty(), env1, weights(ds)) {
                Err(_) => {},
                Ok((out, env2)) => lemma_trans(env, env1, env2),
            }
        },
    }
}

pub proof fn lemma_refold(ds: Seq<Tree>, env: Env, bound: nat)
    ensures
        refold(ds, env, bound) matches Ok((out, env1)) ==> grown(env, env1),
    decreases bound, 0nat, 0nat,
{
    if weights(ds) < bound {
        lemma_fold_decls(ds, env);
    }
}

pub proof fn lemma_lower_decls(ds: Seq<Tree>, done: Seq<Tree>, env: Env, bound: nat)
    ensures
        lower_decls(ds, done, env, bound) matches Ok((out, env1)) ==> grown(env, env1),
    decreases bound, 3nat, ds.len(),
{
    if ds.len() > 0 {
        lemma_lower_decl(ds[0], done, env, bound);
        match lower_decl(ds[0], done, env, bound) {
            Err(_) => {},
            Ok((done1, env1)) => {
                lemma_lower_decls(ds.drop_first(), done1, env1, bound);
                match lower_decls(ds.drop_first(), done1, env1, bound) {
                    Err(_) => {},
                    Ok((out, env2)) => lemma_trans(env, env1, env2),
                }
            },
        }
    }
}

/// Taking one declarator apart keeps the marks and contexts that are there.
pub proof fn lemma_lower_decl(d: Tree, done: Seq<Tree>, env: Env, bound: nat)
    ensures
        lower_decl(d, done, env, bound) matches Ok((out, env1)) ==> grown(env, env1),
    decreases bound, 2nat, 0nat,
{
    if is_decl(d) {
        let name = d.children[0];
        let init = d.children[1];
        match name.kind {
            Kind::Pat(PatKind::Array) => {
                lemma_array_ident(name.children, done, init, env);
                match array_ident(name.children, done, init, env) {
                    Err(_) => {},
                    Ok((object, done1, env1)) => {
                        lemma_lower_elems(name.children, 0, object, done1, env1, bound);
                        match lower_elems(name.children, 0, object, done1, env1, bound) {
                            Err(_) => {},
                            Ok((out, env2)) => lemma_trans(env, env1, env2),
                        }
                    },
                }
            },
            Kind::Pat(PatKind::Object) => {
                lemma_object_ident(name.children, done, init, env);
                match object_ident(name.children, done, init, env) {
                    Err(_) => {},
                    Ok((object, done1, env1)) => {
                        lemma_lower_props(name.children, 0, object, done1, env1, bound);
                        match lower_props(name.children, 0, object, done1, env1, bound) {
                            Err(_) => {},
                            Ok((out, env2)) => lemma_trans(env, env1, env2),
                        }
                    },
                }
            },
            Kind::Pat(PatKind::Assign) => {
                lemma_tmp_ident(done, init, name.span, env);
                match tmp_ident(done, init, name.span, env) {
                    Err(_) => {},
                    Ok((tmp, done1, env1)) => {
                        let sub = seq![
                            declarator(
                                name.span,
                                name.children[0],
                                cond_expr(tmp, name.children[1]),
                            ),
                        ];
                        lemma_refold(sub, env1, bound);
                        match refold(sub, env1, bound) {
                            Err(_) => {},
                            Ok((ds, env2)) => lemma_trans(env, env1, env2),
                        }
                    },
                }
            },
            _ => {},
        }
    }
}

pub proof fn lemma_lower_elems(
    elems: Seq<Tree>,
    i: nat,
    object: Name,
    done: Seq<Tree>,
    env: Env,
    bound: nat,
)
    ensures
        lower_elems(elems, i, object, done, env, bound) matches Ok((out, env1)) ==> grown(
            env,
            env1,
        ),
    decreases bound, 1nat, elems.len() - i,
{
    if i < elems.len() {
        if elems[i as int].kind == Kind::Absent {
            lemma_lower_elems(elems, i + 1, object, done, env, bound);
        } else {
            match elem_decl(elems[i as int], i as int, object) {
                None => {},
                Some(d) => {
                    lemma_refold(seq![d], env, bound);
                    match refold(seq![d], env, bound) {
                        Err(_) => {},
                        Ok((ds, env1)) => {
                            lemma_lower_elems(elems, i + 1, object, done + ds, env1, bound);
                            match lower_elems(elems, i + 1, object, done + ds, env1, bound) {
                                Err(_) => {},
                                Ok((out, env2)) => lemma_trans(env, env1, env2),
                            }
                        },
                    }
                },
            }
        }
    }
}

/// Taking one property apart keeps the marks and contexts that are there.
pub proof fn lemma_lower_prop(prop: Tree, object: Name, done: Seq<Tree>, env: Env, bound: nat)
    ensures
        lower_prop(prop, object, done, env, bound) matches Ok((out, env1)) ==> grown(env, env1),
    decreases bound, 1nat, 0nat,
{
    if prop.children.len() == 2 {
        let key = prop.children[0];
        let value = prop.children[1];
        match prop.kind {
            Kind::PatProp(PatPropKind::KeyValue) => match prop_name_expr(key) {
                None => {},
                Some(property) => lemma_refold(
                    seq![declarator(prop.span, value, ref_prop_expr(object, property))],
                    env,
                    bound,
                ),
            },
            Kind::PatProp(PatPropKind::Assign) => {
                let property = ref_prop_expr(object, ident_expr(name_of(key)));
                if value.kind == Kind::Absent {
                    lemma_refold(
                        seq![declarator(prop.span, ident_pat(name_of(key)), property)],
                        env,
                        bound,
                    );
                } else {
                    lemma_ref_ident(done, property, env);
                    match ref_ident(done, property, env) {
                        Err(_) => {},
                        Ok((tmp, done1, env1)) => {
                            let sub = seq![
                                declarator(
                                    prop.span,
                                    ident_pat(name_of(key)),
                                    cond_expr(tmp, value),
                                ),
                            ];
                            lemma_refold(sub, env1, bound);
                            match refold(sub, env1, bound) {
                                Err(_) => {},
                                Ok((ds, env2)) => lemma_trans(env, env1, env2),
                            }
                        },
                    }
                }
            },
            _ => {},
        }
    }
}

pub proof fn lemma_lower_props(
    props: Seq<Tree>,
    i: nat,
    object: Name,
    done: Seq<Tree>,
    env: Env,
    bound: nat,
)
    ensures
        lower_props(props, i, object, done, env, bound) matches Ok((out, env1)) ==> grown(
            env,
            env1,
        ),
    decreases bound, 1nat, 1 + props.len() - i,
{
    if i < props.len() {
        lemma_lower_prop(props[i as int], object, done, env, bound);
        match lower_prop(props[i as int], object, done, env, bound) {
            Err(_) => {},
            Ok((done1, env1)) => {
                lemma_lower_props(props, i + 1, object, done1, env1, bound);
                match lower_props(props, i + 1, object, done1, env1, bound) {
                    Err(_) => {},
                    Ok((out, env2)) => lemma_trans(env, env1, env2),
                }
            },
        }
    }
}

proof fn lemma_fold_for(t: Tree, env: Env)
    ensures
        fold_for(t, env) matches Ok((t1, env1)) ==> grown(env, env1),
    decreases weight(t), 5nat, 0nat,
{
    if t.children.len() == 3 {
        let left = t.children[0];
        lemma_private(env, dummy(), "ref"@);
        match env.private_ident(dummy(), "ref"@) {
            Err(_) => {},
            Ok((name, env1)) => {
                lemma_refold(init_all(left.children, name), env1, weight(t));
                match refold(init_all(left.children, name), env1, weight(t)) {
                    Err(_) => {},
                    Ok((ds, env2)) => lemma_trans(env, env1, env2),
                }
            },
        }
    }
}

pub proof fn lemma_split_params(params: Seq<Tree>, done: Seq<Tree>, decls: Seq<Tree>, env: Env)
    ensures
        split_params(params, done, decls, env) matches Ok((ps, ds, env1)) ==> grown(env, env1),
    decreases params.len(),
{
    if params.len() > 0 {
        let param = params[0];
        let rest = params.drop_first();
        match param.kind {
            Kind::Pat(PatKind::Ident) => lemma_split_params(rest, done.push(param), decls, env),
            Kind::Pat(kind) => if kind == PatKind::Array || kind == PatKind::Object || kind
                == PatKind::Assign {
                lemma_private(env, param.span, "ref"@);
                match env.private_ident(param.span, "ref"@) {
                    Err(_) => {},
                    Ok((name, env1)) => {
                        let d = declarator(param.span, param, ident_expr(name));
                        let done1 = done.push(ident_pat(name));
                        lemma_split_params(rest, done1, decls.push(d), env1);
                        match split_params(rest, done1, decls.push(d), env1) {
                            Err(_) => {},
                            Ok((ps, ds, env2)) => lemma_trans(env, env1, env2),
                        }
                    },
                }
            } else {
                lemma_split_params(rest, done, decls, env);
            },
            _ => {},
        }
    }
}

proof fn lemma_fn_like(params: Seq<Tree>, stmts: Seq<Tree>, env: Env, bound: nat)
    ensures
        fold_fn_like(params, stmts, env, bound) matches Ok((ps, ss, env1)) ==> grown(env, env1),
    decreases bound, 4nat, 0nat,
{
    lemma_split_params(params, Seq::empty(), Seq::empty(), env);
    match split_params(params, Seq::empty(), Seq::empty(), env) {
        Err(_) => {},
        Ok((ps, decls, env1)) => if decls.len() > 0 {
            lemma_refold(decls, env1, bound);
            match refold(decls, env1, bound) {
                Err(_) => {},
                Ok((decls1, env2)) => lemma_trans(env, env1, env2),
            }
        },
    }
}

/// Going over the parts of a function and then taking its parameters apart.
proof fn lemma_then_fn_like(
    env: Env,
    env1: Env,
    params: Seq<Tree>,
    stmts: Seq<Tree>,
    bound: nat,
)
    requires
        grown(env, env1),
    ensures
        fold_fn_like(params, stmts, env1, bound) matches Ok((ps, ss, env2)) ==> grown(env, env2),
    decreases bound, 4nat, 1nat,
{
    lemma_fn_like(params, stmts, env1, bound);
    match fold_fn_like(params, stmts, env1, bound) {
        Err(_) => {},
        Ok((ps, ss, env2)) => lemma_trans(env, env1, env2),
    }
}

proof fn lemma_fold_function(t: Tree, env: Env)
    ensures
        fold_function(t, env) matches Ok((t1, env1)) ==> grown(env, env1),
    decreases weight(t), 2 * depth(t) + 10, 2 * size(t) - 1,
{
    lemma_fold_all(t.children, Seq::empty(), env);
    match fold_all(t.children, Seq::empty(), env) {
        Err(_) => {},
        Ok((cs, env1)) => lemma_then_fn_like(
            env,
            env1,
            cs[0].children,
            cs[2].children,
            weight(t),
        ),
    }
}

proof fn lemma_fold_constructor(t: Tree, env: Env)
    ensures
        fold_constructor(t, env) matches Ok((t1, env1)) ==> grown(env, env1),
    decreases weight(t), 2 * depth(t) + 10, 2 * size(t) - 1,
{
    lemma_fold_all(t.children, Seq::empty(), env);
    match fold_all(t.children, Seq::empty(), env) {
        Err(_) => {},
        Ok((cs, env1)) => lemma_then_fn_like(
            env,
            env1,
            cs[1].children,
            cs[2].children,
            weight(t),
        ),
    }
}

proof fn lemma_fold_setter(t: Tree, env: Env)
    ensures
        fold_setter(t, env) matches Ok((t1, env1)) ==> grown(env, env1),
    decreases weight(t), 2 * depth(t) + 10, 2 * size(t) - 1,
{
    lemma_fold_all(t.children, Seq::empty(), env);
    match fold_all(t.children, Seq::empty(), env) {
        Err(_) => {},
        Ok((cs, env1)) => lemma_then_fn_like(env, env1, seq![cs[1]], cs[2].children, weight(t)),
    }
}

proof fn lemma_fold_catch(t: Tree, env: Env)
    ensures
        fold_catch(t, env) matches Ok((t1, env1)) ==> grown(env, env1),
    decreases weight(t), 2 * depth(t) + 10, 2 * size(t) - 1,
{
    lemma_fold_all(t.children, Seq::empty(), env);
    match fold_all(t.children, Seq::empty(), env) {
        Err(_) => {},
        Ok((cs, env1)) => lemma_then_fn_like(env, env1, seq![cs[0]], cs[1].children, weight(t)),
    }
}

proof fn lemma_fold_arrow(t: Tree, env: Env)
    ensures
        fold_arrow(t, env) matches Ok((t1, env1)) ==> grown(env, env1),
    decreases weight(t), 2 * depth(t) + 10, 2 * size(t) - 1,
{
    lemma_fold_all(t.children, Seq::empty(), env);
    match fold_all(t.children, Seq::empty(), env) {
        Err(_) => {},
        Ok((cs, env1)) => {
            lemma_then_fn_like(env, env1, cs[0].children, cs[1].children, weight(t));
            lemma_then_fn_like(env, env1, cs[0].children, seq![return_stmt(cs[1])], weight(t));
        },
    }
}

pub proof fn lemma_fold_stmts(ts: Seq<Tree>, env: Env)
    ensures
        fold_stmts(ts, env) matches Ok((out, env1)) ==> grown(env, env1),
    decreases weights(ts), 2 * depths(ts) + 12, 2 * sizes(ts) + 1,
{
    if any_pattern(ts) {
        lemma_fold_all(ts, Seq::empty(), env);
        match fold_all(ts, Seq::empty(), env) {
            Err(_) => {},
            Ok((ts1, env1)) => {
                lemma_assign_stmts(ts1, Seq::empty(), env1, weights(ts), depths(ts));
                match assign_stmts(ts1, Seq::empty(), env1, weights(ts), depths(ts)) {
                    Err(_) => {},
                    Ok((out, env2)) => lemma_trans(env, env1, env2),
                }
            },
        }
    }
}

proof fn lemma_assign_stmts(ts: Seq<Tree>, done: Seq<Tree>, env: Env, bound: nat, deep: nat)
    ensures
        assign_stmts(ts, done, env, bound, deep) matches Ok((out, env1)) ==> grown(env, env1),
    decreases bound, 2 * deep + 11, ts.len(),
{
    if ts.len() > 0 && (weight(ts[0]) < bound || (weight(ts[0]) == bound && depth(ts[0])
        <= deep)) {
        lemma_assign(ts[0], Seq::empty(), env);
        match assign(ts[0], Seq::empty(), env) {
            Err(_) => {},
            Ok((t, vars, env1)) => {
                let done1 = declare_vars(done, vars, t);
                lemma_assign_stmts(ts.drop_first(), done1, env1, bound, deep);
                match assign_stmts(ts.drop_first(), done1, env1, bound, deep) {
                    Err(_) => {},
                    Ok((out, env2)) => lemma_trans(env, env1, env2),
                }
            },
        }
    }
}

pub proof fn lemma_assign(t: Tree, vars: Seq<Tree>, env: Env)
    ensures
        assign(t, vars, env) matches Ok((t1, vars1, env1)) ==> grown(env, env1),
    decreases weight(t), 2 * depth(t) + 10, 2 * size(t) + 1,
{
    if t.kind == Kind::Expr(ExprKind::Fn) || t.kind == Kind::Expr(ExprKind::Object) {
        law_grown(t, env);
        match fold(t, env) {
            Err(_) => {},
            Ok((t1, env1)) => {
                lemma_lower_assign(t1, vars, env1, weight(t));
                match lower_assign(t1, vars, env1, weight(t)) {
                    Err(_) => {},
                    Ok((t2, vars2, env2)) => lemma_trans(env, env1, env2),
                }
            },
        }
    } else {
        lemma_assign_all(t.children, Seq::empty(), vars, env);
        match assign_all(t.children, Seq::empty(), vars, env) {
            Err(_) => {},
            Ok((cs, vars1, env1)) => {
                lemma_lower_assign(with(t, cs), vars1, env1, weight(t));
                match lower_assign(with(t, cs), vars1, env1, weight(t)) {
                    Err(_) => {},
                    Ok((t2, vars2, env2)) => lemma_trans(env, env1, env2),
                }
            },
        }
    }
}

pub proof fn lemma_assign_all(ts: Seq<Tree>, done: Seq<Tree>, vars: Seq<Tree>, env: Env)
    ensures
        assign_all(ts, done, vars, env) matches Ok((out, vars1, env1)) ==> grown(env, env1),
    decreases weights(ts), 2 * depths(ts) + 10, 2 * sizes(ts),
{
    if ts.len() > 0 {
        lemma_assign(ts[0], vars, env);
        match assign(ts[0], vars, env) {
            Err(_) => {},
            Ok((t, vars1, env1)) => {
                lemma_assign_all(ts.drop_first(), done.push(t), vars1, env1);
                match assign_all(ts.drop_first(), done.push(t), vars1, env1) {
                    Err(_) => {},
                    Ok((out, vars2, env2)) => lemma_trans(env, env1, env2),
                }
            },
        }
    }
}

pub proof fn lemma_reassign(t: Tree, vars: Seq<Tree>, env: Env, bound: nat)
    ensures
        reassign(t, vars, env, bound) matches Ok((t1, vars1, env1)) ==> grown(env, env1),
    decreases bound, 0nat, 0nat,
{
    if weight(t) < bound {
        lemma_assign(t, vars, env);
    }
}

pub proof fn lemma_lower_assign(t: Tree, vars: Seq<Tree>, env: Env, bound: nat)
    ensures
        lower_assign(t, vars, env, bound) matches Ok((t1, vars1, env1)) ==> grown(env, env1),
    decreases bound, 3nat, 0nat,
{
    if t.children.len() == 2 {
        let left = t.children[0];
        let right = t.children[1];
        lemma_ref_ident(vars, absent(), env);
        match ref_ident(vars, absent(), env) {
            Err(_) => {},
            Ok((object, vars1, env1)) => {
                let first = seq![assign_expr(dummy(), ident_pat(object), right)];
                lemma_assign_elems(left.children, 0, object, first, vars1, env1, bound);
                match assign_elems(left.children, 0, object, first, vars1, env1, bound) {
                    Err(_) => {},
                    Ok((exprs, vars2, env2)) => lemma_trans(env, env1, env2),
                }
                let first = seq![assign_expr(left.span, ident_pat(object), right)];
                lemma_assign_props(left.children, 0, object, first, vars1, env1);
                match assign_props(left.children, 0, object, first, vars1, env1) {
                    Err(_) => {},
                    Ok((exprs, vars2, env2)) => lemma_trans(env, env1, env2),
                }
            },
        }
    }
}

pub proof fn lemma_assign_elem(
    elem: Tree,
    i: int,
    object: Name,
    exprs: Seq<Tree>,
    vars: Seq<Tree>,
    env: Env,
    bound: nat,
)
    ensures
        assign_elem(elem, i, object, exprs, vars, env, bound) matches Ok((exprs1, vars1, env1))
            ==> grown(env, env1),
    decreases bound, 1nat, 0nat,
{
    match elem.kind {
        Kind::Pat(PatKind::Assign) => if elem.children.len() == 2 {
            lemma_ref_ident(vars, absent(), env);
            match ref_ident(vars, absent(), env) {
                Err(_) => {},
                Ok((tmp, vars1, env1)) => {
                    let sub = assign_expr(
                        elem.span,
                        elem.children[0],
                        cond_expr(tmp, elem.children[1]),
                    );
                    lemma_reassign(sub, vars1, env1, bound);
                    match reassign(sub, vars1, env1, bound) {
                        Err(_) => {},
                        Ok((t, vars2, env2)) => lemma_trans(env, env1, env2),
                    }
                },
            }
        },
        Kind::Pat(PatKind::Rest { dot3 }) => lemma_reassign(
            assign_expr(elem.span, elem.children[0], slice_call(object, i, dummy())),
            vars,
            env,
            bound,
        ),
        _ => lemma_reassign(
            assign_expr(elem.span, elem, ref_idx_expr(object, i)),
            vars,
            env,
            bound,
        ),
    }
}

pub proof fn lemma_assign_elems(
    elems: Seq<Tree>,
    i: nat,
    object: Name,
    exprs: Seq<Tree>,
    vars: Seq<Tree>,
    env: Env,
    bound: nat,
)
    ensures
        assign_elems(elems, i, object, exprs, vars, env, bound) matches Ok((exprs1, vars1, env1))
            ==> grown(env, env1),
    decreases bound, 1nat, 1 + elems.len() - i,
{
    if i < elems.len() {
        let elem = elems[i as int];
        if elem.kind == Kind::Absent {
            lemma_assign_elems(elems, i + 1, object, exprs, vars, env, bound);
        } else {
            lemma_assign_elem(elem, i as int, object, exprs, vars, env, bound);
            match assign_elem(elem, i as int, object, exprs, vars, env, bound) {
                Err(_) => {},
                Ok((exprs1, vars1, env1)) => {
                    lemma_assign_elems(elems, i + 1, object, exprs1, vars1, env1, bound);
                    match assign_elems(elems, i + 1, object, exprs1, vars1, env1, bound) {
                        Err(_) => {},
                        Ok((exprs2, vars2, env2)) => lemma_trans(env, env1, env2),
                    }
                },
            }
        }
    }
}

pub proof fn lemma_assign_props(
    props: Seq<Tree>,
    i: nat,
    object: Name,
    exprs: Seq<Tree>,
    vars: Seq<Tree>,
    env: Env,
)
    ensures
        assign_props(props, i, object, exprs, vars, env) matches Ok((exprs1, vars1, env1))
            ==> grown(env, env1),
    decreases props.len() - i,
{
    if i < props.len() {
        lemma_ref_ident(vars, absent(), env);
        match assign_prop(props[i as int], object, exprs, vars, env) {
            Err(_) => {},
            Ok((exprs1, vars1, env1)) => {
                lemma_assign_props(props, i + 1, object, exprs1, vars1, env1);
                match assign_props(props, i + 1, object, exprs1, vars1, env1) {
                    Err(_) => {},
                    Ok((exprs2, vars2, env2)) => lemma_trans(env, env1, env2),
                }
            },
        }
    }
}

} // verus!
