//! What can stand where: the pieces that the pass makes, and fewer rounds in place of more.
use crate::ast::{ExprKind, Kind, PatKind, Tree};
use crate::factory::{
    absent, cond_expr, dummy, helper_call, ident_expr, ident_pat, non_null_expr, ref_idx_expr,
    slice_call,
};
use crate::hygiene::{Env, Name};
use crate::measure::{complex_decl, complex_pat, has_pattern};
use crate::nullness::nullable;
use crate::reach::{below, fits, ok, Mode, Role};
use crate::rules::{fold, is_decl};
use vstd::prelude::*;

verus! {

/// Whether fewer rounds are needed in the first case.
pub open spec fn leq(m: Mode, m2: Mode) -> bool {
    m == m2 || m is Clean || (m is Assigns && m2 is Source) || (m is Once && (m2 is Twice
        || m2 is Source))
}

/// Whether a node that can stand for the first thing can stand for the second.
pub open spec fn weaker(r: Role, m: Mode, r2: Role, m2: Mode, t: Tree) -> bool {
    leq(m, m2) && (r == r2 || (r is Simple && r2 is Declarator) || (r is SimpleParams
        && r2 is Params) || (r is SimpleCatchParam && r2 is CatchParam) || (r is Plain && t.kind
        == Kind::Pat(PatKind::Ident) && (r2 is Target || r2 is Decl || r2 is Param)))
}

pub proof fn lemma_weaken_child(r: Role, m: Mode, r2: Role, m2: Mode, t: Tree, i: int)
    requires
        weaker(r, m, r2, m2, t),
        fits(r, m, t),
        0 <= i < t.children.len(),
        ok(below(r, m, t, i).0, below(r, m, t, i).1, t.children[i]),
    ensures
        weaker(
            below(r, m, t, i).0,
            below(r, m, t, i).1,
            below(r2, m2, t, i).0,
            below(r2, m2, t, i).1,
            t.children[i],
        ),
{
}

/// What can stand where fewer rounds are needed can also stand where more are to come.
pub proof fn lemma_weaken(r: Role, m: Mode, r2: Role, m2: Mode, t: Tree)
    requires
        ok(r, m, t),
        weaker(r, m, r2, m2, t),
    ensures
        ok(r2, m2, t),
    decreases t,
{
    assert(fits(r2, m2, t));
    assert forall|i: int| 0 <= i < t.children.len() implies ok(
        below(r2, m2, t, i).0,
        below(r2, m2, t, i).1,
        #[trigger] t.children[i],
    ) by {
        lemma_weaken_child(r, m, r2, m2, t, i);
        lemma_weaken(
            below(r, m, t, i).0,
            below(r, m, t, i).1,
            below(r2, m2, t, i).0,
            below(r2, m2, t, i).1,
            t.children[i],
        );
    }
}

/// What nothing has to be lowered in holds no pattern.
pub proof fn lemma_clean(r: Role, t: Tree)
    requires
        ok(r, Mode::Clean, t),
        r is Plain || r is Init || r is Simple || r is SimpleParams || r is SimpleCatchParam
            || r is ForHead,
    ensures
        !has_pattern(t),
    decreases t,
{
    assert forall|i: int| 0 <= i < t.children.len() implies !has_pattern(
        #[trigger] t.children[i],
    ) by {
        lemma_clean(below(r, Mode::Clean, t, i).0, t.children[i]);
    }
}

/// Whether the value of an expression can be null does not change.
pub proof fn lemma_fold_nullable(t: Tree, t1: Tree)
    requires
        crate::shrink::folded(t, t1),
        t.kind is Expr,
    ensures
        t1.kind == t.kind,
        nullable(t1) == nullable(t),
    decreases t,
{
    let env = choose|env: Env| (#[trigger] fold(t, env)) matches Ok((x, env1)) && x == t1;
    crate::shrink::lemma_fold_kind(t, t1);
    match t.kind->Expr_0 {
        ExprKind::Arrow { is_async, is_generator } => {},
        _ => {
            crate::shrink::lemma_fold_all_each(t.children, Seq::empty(), env);
            assert(t1.children.skip(0) =~= t1.children);
            assert forall|i: int|
                0 <= i < t.children.len() && t.children[i].kind is Expr implies nullable(
                #[trigger] t1.children[i],
            ) == nullable(t.children[i]) by {
                assert(crate::shrink::folded(t.children[i], t1.children.skip(0)[i]));
                lemma_fold_nullable(t.children[i], t1.children[i]);
            }
            assert forall|i: int|
                0 <= i < t.children.len() && !(t.children[i].kind is Expr) implies nullable(
                #[trigger] t1.children[i],
            ) == nullable(t.children[i]) by {
                assert(crate::shrink::folded(t.children[i], t1.children.skip(0)[i]));
                crate::shrink::lemma_fold_kind(t.children[i], t1.children[i]);
            }
        },
    }
}

pub proof fn lemma_ok1(r: Role, m: Mode, t: Tree, a: Tree)
    requires
        fits(r, m, t),
        t.children == seq![a],
        ok(below(r, m, t, 0).0, below(r, m, t, 0).1, a),
    ensures
        ok(r, m, t),
{
    assert forall|i: int| 0 <= i < t.children.len() implies ok(
        below(r, m, t, i).0,
        below(r, m, t, i).1,
        #[trigger] t.children[i],
    ) by {
        assert(i == 0);
    }
}

pub proof fn lemma_ok2(r: Role, m: Mode, t: Tree, a: Tree, b: Tree)
    requires
        fits(r, m, t),
        t.children == seq![a, b],
        ok(below(r, m, t, 0).0, below(r, m, t, 0).1, a),
        ok(below(r, m, t, 1).0, below(r, m, t, 1).1, b),
    ensures
        ok(r, m, t),
{
    assert forall|i: int| 0 <= i < t.children.len() implies ok(
        below(r, m, t, i).0,
        below(r, m, t, i).1,
        #[trigger] t.children[i],
    ) by {
        assert(i == 0 || i == 1);
    }
}

pub proof fn lemma_ok3(r: Role, m: Mode, t: Tree, a: Tree, b: Tree, c: Tree)
    requires
        fits(r, m, t),
        t.children == seq![a, b, c],
        ok(below(r, m, t, 0).0, below(r, m, t, 0).1, a),
        ok(below(r, m, t, 1).0, below(r, m, t, 1).1, b),
        ok(below(r, m, t, 2).0, below(r, m, t, 2).1, c),
    ensures
        ok(r, m, t),
{
    assert forall|i: int| 0 <= i < t.children.len() implies ok(
        below(r, m, t, i).0,
        below(r, m, t, i).1,
        #[trigger] t.children[i],
    ) by {
        assert(i == 0 || i == 1 || i == 2);
    }
}

/// Names can stand anywhere.
pub proof fn lemma_ok_names(m: Mode, name: Name)
    ensures
        ok(Role::Plain, m, ident_expr(name)),
        ok(Role::Init, m, ident_expr(name)),
        ok(Role::Plain, m, ident_pat(name)),
        ok(Role::Decl, m, ident_pat(name)),
        ok(Role::Init, m, absent()),
        nullable(ident_expr(name)) == Some(true),
{
}

pub proof fn lemma_ok_member(m: Mode, object: Name, property: Tree, computed: bool)
    requires
        ok(Role::Plain, m, property),
    ensures
        ok(Role::Plain, m, crate::factory::member(object, property, computed)),
        ok(Role::Init, m, crate::factory::member(object, property, computed)),
        nullable(crate::factory::member(object, property, computed)) == Some(true),
{
    lemma_ok_names(m, object);
    let t = crate::factory::member(object, property, computed);
    lemma_ok2(Role::Plain, m, t, ident_expr(object), property);
    lemma_ok2(Role::Init, m, t, ident_expr(object), property);
}

pub proof fn lemma_ok_elem_exprs(m: Mode, object: Name, i: int, span: crate::ast::Span)
    ensures
        ok(Role::Plain, m, ref_idx_expr(object, i)),
        ok(Role::Init, m, ref_idx_expr(object, i)),
        nullable(ref_idx_expr(object, i)) == Some(true),
        ok(Role::Plain, m, slice_call(object, i, span)),
        ok(Role::Init, m, slice_call(object, i, span)),
        nullable(slice_call(object, i, span)) == Some(true),
{
    let n = crate::factory::number(i, dummy());
    lemma_ok_member(m, object, n, true);
    let slice = ident_expr(crate::factory::quoted("slice"@));
    lemma_ok_names(m, crate::factory::quoted("slice"@));
    lemma_ok_member(m, object, slice, false);
    let t = slice_call(object, i, span);
    let k = crate::factory::number(i, span);
    assert(ok(Role::Plain, m, k));
    lemma_ok2(Role::Plain, m, t, crate::factory::member(object, slice, false), k);
    lemma_ok2(Role::Init, m, t, crate::factory::member(object, slice, false), k);
}

pub proof fn lemma_ok_cond(m: Mode, tmp: Name, default: Tree)
    requires
        ok(Role::Plain, m, default),
    ensures
        ok(Role::Plain, m, cond_expr(tmp, default)),
        ok(Role::Init, m, cond_expr(tmp, default)),
        nullable(default) is Some ==> nullable(cond_expr(tmp, default)) is Some,
{
    let t = cond_expr(tmp, default);
    let test = t.children[0];
    let void = test.children[1];
    lemma_ok_names(m, tmp);
    assert(ok(Role::Plain, m, void.children[0]));
    lemma_ok1(Role::Plain, m, void, void.children[0]);
    lemma_ok2(Role::Plain, m, test, ident_expr(tmp), void);
    lemma_ok3(Role::Plain, m, t, test, default, ident_expr(tmp));
    lemma_ok3(Role::Init, m, t, test, default, ident_expr(tmp));
    assert(t.children[1] == default);
    assert(t.children[2] == ident_expr(tmp));
    reveal_with_fuel(nullable, 2);
}

pub proof fn lemma_ok_non_null(m: Mode, object: Name, throw: Name)
    ensures
        ok(Role::Init, m, non_null_expr(object, throw)),
{
    let t = non_null_expr(object, throw);
    let call = t.children[2];
    let error = call.children[1];
    lemma_ok_names(m, object);
    lemma_ok_names(m, throw);
    lemma_ok_names(m, crate::factory::quoted("TypeError"@));
    assert(ok(Role::Plain, m, error.children[1]));
    lemma_ok2(Role::Plain, m, error, error.children[0], error.children[1]);
    lemma_ok2(Role::Plain, m, call, ident_expr(throw), error);
    lemma_ok3(Role::Init, m, t, ident_expr(object), ident_expr(object), call);
}

pub proof fn lemma_ok_helper_call(m: Mode, helper: Name, object: Name)
    ensures
        ok(Role::Init, m, helper_call(helper, object)),
{
    let t = helper_call(helper, object);
    lemma_ok_names(m, helper);
    lemma_ok_names(m, object);
    lemma_ok2(Role::Init, m, t, ident_expr(helper), ident_expr(object));
}

/// What nothing has to be lowered in can stand where nothing is lowered.
pub open spec fn settled(r: Role) -> Role {
    match r {
        Role::Init => Role::Init,
        Role::Declarator => Role::Simple,
        Role::Simple => Role::Simple,
        Role::Params => Role::SimpleParams,
        Role::SimpleParams => Role::SimpleParams,
        Role::CatchParam => Role::SimpleCatchParam,
        Role::SimpleCatchParam => Role::SimpleCatchParam,
        Role::ForHead => Role::ForHead,
        _ => Role::Plain,
    }
}

/// Where no pattern is, nothing has to be lowered.
pub proof fn lemma_no_pattern(r: Role, m: Mode, t: Tree)
    requires
        ok(r, m, t),
        !has_pattern(t),
        !(r is Leaf || r is Key || r is DeclElem || r is DeclProp || r is TargetElem
            || r is TargetProp || r is ForDecl || r is Dropped),
    ensures
        ok(settled(r), Mode::Clean, t),
    decreases t,
{
    assert forall|i: int| 0 <= i < t.children.len() implies !has_pattern(
        #[trigger] t.children[i],
    ) && !complex_pat(t.children[i]) by {}
    if r is ForHead {
        assert forall|i: int| 0 <= i < t.children.len() implies !complex_decl(
            #[trigger] t.children[i],
        ) by {
            let d = t.children[i];
            if complex_decl(d) {
                assert(is_decl(d));
                assert(ok(Role::ForDecl, below(r, m, t, i).1, d));
                assert(!has_pattern(d.children[0]));
            }
        }
    }
    assert(fits(settled(r), Mode::Clean, t)) by {
        if r is Params {
            assert forall|i: int| 0 <= i < t.children.len() implies (
            #[trigger] t.children[i]).kind == Kind::Pat(PatKind::Ident) by {
                assert(ok(Role::Param, m, t.children[i]));
            }
        }
    }
    assert forall|i: int| 0 <= i < t.children.len() implies ok(
        below(settled(r), Mode::Clean, t, i).0,
        below(settled(r), Mode::Clean, t, i).1,
        #[trigger] t.children[i],
    ) by {
        let (r1, m1) = below(r, m, t, i);
        assert(ok(r1, m1, t.children[i]));
        lemma_no_pattern(r1, m1, t.children[i]);
    }
}

} // verus!
