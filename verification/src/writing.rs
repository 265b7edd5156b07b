//! What a lowered assignment does is what its pattern asks for.
use crate::ast::{AssignOp, ExprKind, Kind, PartKind, PatKind, PatPropKind, Span, Tree};
use crate::factory::{
    absent, assign_expr, cond_expr, dummy, ident_expr, ident_pat, leaf, member, number,
    prop_name_expr, ref_idx_expr, ref_prop_expr, seq_expr, slice_call,
};
use crate::growth::{grown, law_fresh};
use crate::hygiene::{Env, Name};
use crate::meaning::{
    anchored, base, is_ident, key, name_value, part, property, reads, right, value, Event, Right,
    Store, Value,
};
use crate::measure::weight;
use crate::nullness::nullable;
use crate::reading::{extends, fits};
use crate::rules::{
    assign, assign_all, assign_elem, assign_elems, assign_prop, assign_props, lower_assign, name_of,
    reassign, ref_ident, with,
};
use crate::shrink::assigned;
use vstd::prelude::*;

verus! {

/// Whether an expression is a plain assignment, or a sequence, which can stand for one.
pub open spec fn is_action(kind: Kind) -> bool {
    kind == Kind::Expr(ExprKind::Assign(AssignOp::Assign)) || kind == Kind::Expr(ExprKind::Sequence)
}

/// Whether the lowering of assignments leaves what is inside of such a node to that of
/// declarations.
pub open spec fn is_apart(kind: Kind) -> bool {
    kind == Kind::Expr(ExprKind::Fn) || kind == Kind::Expr(ExprKind::Object)
}

/// Stands for an assignment inside of an expression.
pub open spec fn action() -> Tree {
    seq_expr(Seq::empty())
}

/// A tree without what is inside of assignments, sequences, function expressions and objects.
pub open spec fn sketch(t: Tree) -> Tree
    decreases t,
{
    if is_action(t.kind) {
        action()
    } else {
        Tree {
            kind: t.kind,
            text: t.text,
            span: t.span,
            children: if is_apart(t.kind) {
                Seq::empty()
            } else {
                Seq::new(
                    t.children.len(),
                    |i: int|
                        if 0 <= i < t.children.len() {
                            sketch(t.children[i])
                        } else {
                            arbitrary()
                        },
                )
            },
        }
    }
}

/// The sketches of a row of trees.
pub open spec fn sketches(ts: Seq<Tree>) -> Seq<Tree> {
    Seq::new(ts.len(), |i: int| sketch(ts[i]))
}

/// Whether an expression holds no assignments, sequences, function expressions and objects.
pub open spec fn calm(t: Tree) -> bool
    decreases t,
{
    !is_action(t.kind) && !is_apart(t.kind) && forall|i: int|
        0 <= i < t.children.len() ==> calm(#[trigger] t.children[i])
}

/// What is done to assign the value `v`, which is that of `r`, to a pattern or an expression.
///
/// The value is computed once, before anything is read from it. What an object pattern has in the
/// place of a property is assigned to as it is. A default value and a rest are no targets of their
/// own.
pub open spec fn writes(p: Tree, v: Value, r: Right) -> Seq<Event>
    decreases p,
{
    match p.kind {
        Kind::Pat(PatKind::Array) => reads(r, v) + writes_elems(p.children, 0, v),
        Kind::Pat(PatKind::Object) => reads(r, v) + writes_props(p.children, v),
        Kind::Pat(PatKind::Expr) => if p.children.len() == 1 {
            reads(r, v) + seq![Event::Write(p.children[0], v)]
        } else {
            seq![Event::Never]
        },
        Kind::Pat(PatKind::Assign) => seq![Event::Never],
        Kind::Pat(PatKind::Rest { dot3 }) => seq![Event::Never],
        _ => reads(r, v) + seq![Event::Write(p, v)],
    }
}

/// What is done to assign the elements of a value, from index `i` on, to the elements of a pattern:
/// each gets what stands at its own index, or else its default value, and a rest all from there on.
pub open spec fn writes_elems(elems: Seq<Tree>, i: nat, v: Value) -> Seq<Event>
    decreases elems,
{
    if elems.len() == 0 {
        Seq::empty()
    } else {
        let elem = elems[0];
        let item = Value::Item(Box::new(v), i as u64);
        (match elem.kind {
            Kind::Absent => Seq::empty(),
            Kind::Pat(PatKind::Assign) => if elem.children.len() == 2 {
                seq![Event::Read(item)] + writes(
                    elem.children[0],
                    Value::Default(Box::new(item), elem.children[1]),
                    part(),
                )
            } else {
                seq![Event::Never]
            },
            Kind::Pat(PatKind::Rest { dot3 }) => if elem.children.len() == 1 {
                writes(elem.children[0], Value::From(Box::new(v), i as u64), part())
            } else {
                seq![Event::Never]
            },
            _ => writes(elem, item, part()),
        }) + writes_elems(elems.drop_first(), i + 1, v)
    }
}

/// What is done to assign a property of a value.
pub open spec fn writes_prop(prop: Tree, v: Value) -> Seq<Event> {
    if prop.children.len() != 2 {
        seq![Event::Never]
    } else {
        let k = prop.children[0];
        let p = prop.children[1];
        match prop.kind {
            Kind::PatProp(PatPropKind::KeyValue) => {
                let w = property(v, k);
                seq![Event::Read(w), Event::Write(p, w)]
            },
            Kind::PatProp(PatPropKind::Assign) => {
                let w = Value::Named(Box::new(v), k.text);
                let name = Tree {
                    kind: Kind::Pat(PatKind::Ident),
                    text: k.text,
                    span: k.span,
                    children: Seq::empty(),
                };
                if p.kind == Kind::Absent {
                    seq![Event::Read(w), Event::Write(name, w)]
                } else {
                    let d = Value::Default(Box::new(w), p);
                    seq![Event::Read(w), Event::Read(d), Event::Write(name, d)]
                }
            },
            _ => seq![Event::Never],
        }
    }
}

/// What is done to assign the properties of a value, one by one.
pub open spec fn writes_props(props: Seq<Tree>, v: Value) -> Seq<Event>
    decreases props,
{
    if props.len() == 0 {
        Seq::empty()
    } else {
        writes_prop(props[0], v) + writes_props(props.drop_first(), v)
    }
}

/// What an expression does that holds only assignments, and what new names stand for after it. A
/// name is new if its context is none of the first `n`.
pub open spec fn does(x: Tree, s: Store, n: nat, last: Env) -> (Seq<Event>, Store)
    decreases x,
{
    if x.kind == Kind::Expr(ExprKind::Sequence) {
        does_all(x.children, s, n, last)
    } else if x.kind == Kind::Expr(ExprKind::Assign(AssignOp::Assign)) && x.children.len() == 2 {
        let p = x.children[0];
        let e = sketch(x.children[1]);
        let v = value(e, s, last);
        if p.kind == Kind::Pat(PatKind::Ident) && p.span.ctxt >= n {
            (reads(right(e), v), s.insert(key(p), v))
        } else {
            (reads(right(e), v) + seq![Event::Write(sketch(p), v)], s)
        }
    } else {
        let e = sketch(x);
        (reads(right(e), value(e, s, last)), s)
    }
}

/// What expressions do, one after the other, and what new names stand for after them.
pub open spec fn does_all(xs: Seq<Tree>, s: Store, n: nat, last: Env) -> (Seq<Event>, Store)
    decreases xs,
{
    if xs.len() == 0 {
        (Seq::empty(), s)
    } else {
        let (a, s1) = does(xs[0], s, n, last);
        let (b, s2) = does_all(xs.drop_first(), s1, n, last);
        (a + b, s2)
    }
}

/// Whether every context in a tree is one of the first `n`, and what stands for a property and its
/// variable at once is a name.
pub open spec fn sound(t: Tree, n: nat) -> bool
    decreases t,
{
    &&& t.span.ctxt < n
    &&& t.kind == Kind::PatProp(PatPropKind::Assign) ==> t.children.len() == 2
        && t.children[0].kind == Kind::Part(PartKind::Ident)
    &&& forall|i: int| 0 <= i < t.children.len() ==> sound(#[trigger] t.children[i], n)
}

/// The children of a sketch are the sketches of the children.
proof fn lemma_sketch(t: Tree)
    requires
        !is_action(t.kind),
        !is_apart(t.kind),
    ensures
        sketch(t).children == sketches(t.children),
        sketch(t) == with(t, sketches(t.children)),
{
    assert(sketch(t).children =~= sketches(t.children));
}

/// Nothing is left out of a tree without assignments, sequences, function expressions and objects.
pub proof fn law_sketch(t: Tree)
    requires
        calm(t),
    ensures
        sketch(t) == t,
    decreases t,
{
    lemma_sketch(t);
    assert forall|i: int| 0 <= i < t.children.len() implies sketches(t.children)[i]
        == t.children[i] by {
        law_sketch(t.children[i]);
    }
    assert(sketches(t.children) =~= t.children);
}

/// A tree keeps its sketch when the assignments in it are lowered.
pub proof fn lemma_assign_sketch(t: Tree, t1: Tree)
    requires
        assigned(t, t1),
    ensures
        sketch(t1) == sketch(t),
    decreases t,
{
    let (vars, env) = choose|vars: Seq<Tree>, env: Env|
        (#[trigger] assign(t, vars, env)) matches Ok((x, vars1, env1)) && x == t1;
    if is_apart(t.kind) {
    } else {
        crate::shrink::lemma_assign_all_each(t.children, Seq::empty(), vars, env);
        match assign_all(t.children, Seq::empty(), vars, env) {
            Err(_) => {},
            Ok((cs, vars1, env1)) => if is_action(t.kind) {
                assert(is_action(t1.kind));
            } else {
                assert(cs.skip(0) =~= cs);
                assert(t1 == with(t, cs));
                lemma_sketch(t);
                lemma_sketch(t1);
                assert forall|i: int| 0 <= i < t.children.len() implies sketches(cs)[i]
                    == sketches(t.children)[i] by {
                    assert(assigned(t.children[i], cs.skip(0)[i]));
                    lemma_assign_sketch(t.children[i], cs[i]);
                }
                assert(sketches(cs) =~= sketches(t.children));
            },
        }
    }
}

proof fn lemma_leaf(kind: Kind, span: Span, text: Seq<char>)
    requires
        !is_action(kind),
    ensures
        sketch(leaf(kind, span, text)) == leaf(kind, span, text),
{
    assert(sketch(leaf(kind, span, text)).children =~= Seq::empty());
}

proof fn lemma_two(t: Tree, a: Tree, b: Tree)
    requires
        !is_action(t.kind),
        !is_apart(t.kind),
        t.children == seq![a, b],
    ensures
        sketch(t) == with(t, seq![sketch(a), sketch(b)]),
{
    lemma_sketch(t);
    assert(sketches(t.children) =~= seq![sketch(a), sketch(b)]);
}

/// The sketches of expressions that the pass makes.
proof fn lemma_made(a: Name, p: Tree, computed: bool, i: int)
    ensures
        sketch(ident_expr(a)) == ident_expr(a),
        sketch(ident_pat(a)) == ident_pat(a),
        sketch(member(a, p, computed)) == member(a, sketch(p), computed),
        sketch(ref_idx_expr(a, i)) == ref_idx_expr(a, i),
        sketch(slice_call(a, i, dummy())) == slice_call(a, i, dummy()),
        sketch(cond_expr(a, p)) == cond_expr(a, sketch(p)),
{
    lemma_leaf(Kind::Expr(ExprKind::Ident), a.span, a.text);
    lemma_leaf(Kind::Pat(PatKind::Ident), a.span, a.text);
    lemma_leaf(number(i, dummy()).kind, dummy(), Seq::empty());
    lemma_leaf(number(0, dummy()).kind, dummy(), Seq::empty());
    lemma_two(member(a, p, computed), ident_expr(a), p);
    lemma_two(ref_idx_expr(a, i), ident_expr(a), number(i, dummy()));
    let slice = ident_expr(crate::factory::quoted("slice"@));
    lemma_leaf(slice.kind, slice.span, slice.text);
    let callee = member(a, slice, false);
    lemma_two(callee, ident_expr(a), slice);
    lemma_two(slice_call(a, i, dummy()), callee, number(i, dummy()));
    let c = cond_expr(a, p);
    let test = c.children[0];
    let void = test.children[1];
    lemma_sketch(void);
    assert(sketches(void.children) =~= seq![number(0, dummy())]);
    lemma_two(test, ident_expr(a), void);
    lemma_sketch(c);
    assert(sketches(c.children) =~= seq![test, sketch(p), ident_expr(a)]);
}

/// Whether what was done goes on to what is done now by the given events.
spec fn goes(
    a: (Seq<Event>, Store),
    env: Env,
    x: Seq<Event>,
    b: (Seq<Event>, Store),
    env1: Env,
    n: nat,
) -> bool {
    &&& fits(b.1, env1, n)
    &&& b.0 == a.0 + x
    &&& extends(a.1, b.1, env)
}

proof fn lemma_goes(
    a: (Seq<Event>, Store),
    env: Env,
    x: Seq<Event>,
    b: (Seq<Event>, Store),
    env1: Env,
    y: Seq<Event>,
    c: (Seq<Event>, Store),
    env2: Env,
    n: nat,
)
    requires
        goes(a, env, x, b, env1, n),
        goes(b, env1, y, c, env2, n),
        grown(env, env1),
    ensures
        goes(a, env, x + y, c, env2, n),
{
    assert(c.0 =~= a.0 + (x + y));
    assert forall|k: (Seq<char>, u32)| #[trigger]
        c.1.dom().contains(k) && !a.1.dom().contains(k) implies k.1 >= env.contexts.len() by {
        if b.1.dom().contains(k) {
        }
    }
    assert forall|k: (Seq<char>, u32)| #[trigger] a.1.dom().contains(k) implies c.1.dom().contains(
        k,
    ) && c.1[k] == a.1[k] by {
        assert(b.1.dom().contains(k));
    }
}

proof fn lemma_does_push(xs: Seq<Tree>, x: Tree, s: Store, n: nat, last: Env)
    ensures
        does_all(xs.push(x), s, n, last) == ({
            let (a, s1) = does_all(xs, s, n, last);
            let (b, s2) = does(x, s1, n, last);
            (a + b, s2)
        }),
    decreases xs.len(),
{
    if xs.len() == 0 {
        assert(xs.push(x).drop_first() =~= Seq::empty());
        let (b, s2) = does(x, s, n, last);
        assert(does_all(Seq::<Tree>::empty(), s2, n, last) == (Seq::<Event>::empty(), s2));
        assert(b + Seq::<Event>::empty() =~= Seq::<Event>::empty() + b);
    } else {
        let rest = xs.drop_first();
        assert(xs.push(x).drop_first() =~= rest.push(x));
        let (e, s1) = does(xs[0], s, n, last);
        lemma_does_push(rest, x, s1, n, last);
        let (a, s2) = does_all(rest, s1, n, last);
        let (b, s3) = does(x, s2, n, last);
        assert(e + (a + b) =~= (e + a) + b);
    }
}

/// A new name gets a value.
proof fn lemma_new(
    xs: Seq<Tree>,
    span: Span,
    name: Name,
    e: Tree,
    env: Env,
    env1: Env,
    s0: Store,
    n: nat,
    last: Env,
)
    requires
        fits(does_all(xs, s0, n, last).1, env, n),
        env.contexts.len() <= name.span.ctxt < env1.contexts.len(),
        grown(env, env1),
    ensures
        ({
            let a = does_all(xs, s0, n, last);
            let b = does_all(xs.push(assign_expr(span, ident_pat(name), e)), s0, n, last);
            let v = value(sketch(e), a.1, last);
            &&& goes(a, env, reads(right(sketch(e)), v), b, env1, n)
            &&& name_value(ident_expr(name), b.1) == v
        }),
{
    let x = assign_expr(span, ident_pat(name), e);
    assert(x.children[0] == ident_pat(name));
    assert(x.children[1] == e);
    lemma_does_push(xs, x, s0, n, last);
}

/// Something that is not new gets a value.
proof fn lemma_write(
    xs: Seq<Tree>,
    span: Span,
    p: Tree,
    e: Tree,
    env: Env,
    s0: Store,
    n: nat,
    last: Env,
)
    requires
        fits(does_all(xs, s0, n, last).1, env, n),
        p.span.ctxt < n || p.kind != Kind::Pat(PatKind::Ident),
    ensures
        ({
            let a = does_all(xs, s0, n, last);
            let b = does_all(xs.push(assign_expr(span, p, e)), s0, n, last);
            let v = value(sketch(e), a.1, last);
            &&& b.1 == a.1
            &&& goes(
                a,
                env,
                reads(right(sketch(e)), v) + seq![Event::Write(sketch(p), v)],
                b,
                env,
                n,
            )
        }),
{
    let x = assign_expr(span, p, e);
    assert(x.children[0] == p);
    assert(x.children[1] == e);
    lemma_does_push(xs, x, s0, n, last);
}

proof fn lemma_cond(tmp: Name, default: Tree, s: Store, last: Env)
    ensures
        sketch(cond_expr(tmp, default)) == cond_expr(tmp, sketch(default)),
        value(cond_expr(tmp, sketch(default)), s, last) == Value::Default(
            Box::new(name_value(ident_expr(tmp), s)),
            sketch(default),
        ),
        right(cond_expr(tmp, sketch(default))) == part(),
        base(cond_expr(tmp, sketch(default))) matches Some(b) && b == ident_expr(tmp),
{
    lemma_made(tmp, default, true, 0);
    let e = cond_expr(tmp, sketch(default));
    assert(e.children[0].children[0] == ident_expr(tmp));
    assert(e.children[2] == ident_expr(tmp));
    assert(e.children[1] == sketch(default));
    assert(crate::meaning::is_default(e));
    assert(nullable(ident_expr(tmp)) == Some(true));
    assert(nullable(e) != Some(false));
}

proof fn lemma_elem_values(object: Name, i: int, s: Store, last: Env)
    ensures
        ({
            let v = Box::new(name_value(ident_expr(object), s));
            let elem = ref_idx_expr(object, i);
            let rest = slice_call(object, i, dummy());
            &&& sketch(elem) == elem
            &&& sketch(rest) == rest
            &&& value(elem, s, last) == Value::Item(v, i as u64)
            &&& value(rest, s, last) == Value::From(v, i as u64)
            &&& right(elem) == part()
            &&& right(rest) == part()
            &&& base(elem) matches Some(b) && b == ident_expr(object)
            &&& base(rest) matches Some(b) && b == ident_expr(object)
        }),
{
    lemma_made(object, ident_expr(object), true, i);
    let elem = ref_idx_expr(object, i);
    let rest = slice_call(object, i, dummy());
    assert(elem.children[0] == ident_expr(object));
    assert(elem.children[1] == number(i, dummy()));
    assert(rest.children[0].children[0] == ident_expr(object));
    assert(rest.children[1] == number(i, dummy()));
    assert(crate::meaning::is_slice(rest));
    assert(nullable(elem) == Some(true));
    assert(nullable(rest) == Some(true));
}

proof fn lemma_prop_values(object: Name, e: Tree, s: Store, last: Env)
    ensures
        ({
            let v = name_value(ident_expr(object), s);
            let o = sketch(ref_prop_expr(object, e));
            &&& value(o, s, last) == crate::meaning::access(v, sketch(e), !is_ident(e))
            &&& right(o) == part()
        }),
{
    let prop = ref_prop_expr(object, e);
    lemma_made(object, e, !is_ident(e), 0);
    let o = sketch(prop);
    assert(o.children[0] == ident_expr(object));
    assert(o.children[1] == sketch(e));
    assert(is_ident(sketch(e)) == is_ident(e));
    assert(nullable(o) == Some(true));
}

proof fn lemma_key(v: Value, k: Tree, e: Tree)
    requires
        prop_name_expr(k) == Some(e),
    ensures
        property(v, sketch(k)) == crate::meaning::access(v, sketch(e), !is_ident(e)),
{
    match k.kind {
        Kind::PropName(crate::ast::PropNameKind::Computed) => {
            lemma_sketch(k);
            assert(sketch(k).children[0] == sketch(e));
            assert(is_ident(sketch(e)) == is_ident(e));
        },
        _ => {
            lemma_leaf(e.kind, e.span, e.text);
        },
    }
}

/// What becomes of an assignment does what it does.
proof fn lemma_assign(t: Tree, vars: Seq<Tree>, env: Env, s: Store, n: nat, last: Env)
    requires
        t.kind == Kind::Expr(ExprKind::Assign(AssignOp::Assign)),
        t.children.len() == 2,
        fits(s, env, n),
        sound(sketch(t.children[0]), n),
        anchored(sketch(t.children[1]), env.contexts.len()),
    ensures
        assign(t, vars, env) matches Ok((t1, vars1, env1)) ==> grown(env, env1) && (grown(
            env1,
            last,
        ) ==> lowers(t, t1, env, env1, s, n, last)),
    decreases weight(t), 4nat, 0nat,
{
    crate::growth::lemma_assign(t, vars, env);
    crate::growth::lemma_assign_all(t.children, Seq::empty(), vars, env);
    crate::shrink::lemma_assign_all_each(t.children, Seq::empty(), vars, env);
    match assign_all(t.children, Seq::empty(), vars, env) {
        Err(_) => {},
        Ok((cs, vars1, env1)) => {
            assert(cs.skip(0) =~= cs);
            assert(assigned(t.children[0], cs.skip(0)[0]));
            assert(assigned(t.children[1], cs.skip(0)[1]));
            lemma_assign_sketch(t.children[0], cs[0]);
            lemma_assign_sketch(t.children[1], cs[1]);
            let t2 = with(t, cs);
            lemma_lower(t2, vars1, env1, weight(t), s, n, last);
            match lower_assign(t2, vars1, env1, weight(t)) {
                Err(_) => {},
                Ok((t1, vars2, env2)) => if grown(env2, last) {
                    let s1 = does(t1, s, n, last).1;
                    assert(extends(s, s1, env));
                },
            }
        },
    }
}

/// Whether `t1` does what the assignment `t` does.
spec fn lowers(t: Tree, t1: Tree, env: Env, env1: Env, s: Store, n: nat, last: Env) -> bool {
    let p = sketch(t.children[0]);
    let e = sketch(t.children[1]);
    let v = value(e, s, last);
    let (b, s1) = does(t1, s, n, last);
    &&& b == writes(p, v, right(e))
    &&& fits(s1, env1, n)
    &&& extends(s, s1, env)
    &&& p.kind == Kind::Pat(PatKind::Array) || p.kind == Kind::Pat(PatKind::Object) ==> t1.kind
        == Kind::Expr(ExprKind::Sequence) && t1.children.len() > 0 && name_value(
        t1.children.last(),
        s1,
    ) == v
}

#[verifier::rlimit(60)]
proof fn lemma_lower(
    t: Tree,
    vars: Seq<Tree>,
    env: Env,
    bound: nat,
    s: Store,
    n: nat,
    last: Env,
)
    requires
        t.kind == Kind::Expr(ExprKind::Assign(AssignOp::Assign)),
        t.children.len() == 2,
        fits(s, env, n),
        sound(sketch(t.children[0]), n),
        anchored(sketch(t.children[1]), env.contexts.len()),
    ensures
        lower_assign(t, vars, env, bound) matches Ok((t1, vars1, env1)) ==> grown(env, env1) && (
        grown(env1, last) ==> lowers(t, t1, env, env1, s, n, last)),
    decreases bound, 3nat, 0nat,
{
    let left = t.children[0];
    let right_ = t.children[1];
    let p = sketch(left);
    let e = sketch(right_);
    let v = value(e, s, last);
    crate::growth::lemma_lower_assign(t, vars, env, bound);
    let none = Seq::<Tree>::empty();
    assert(does_all(none, s, n, last) == (Seq::<Event>::empty(), s));
    match left.kind {
        Kind::Pat(PatKind::Expr) => if left.children.len() == 1 {
            lemma_sketch(left);
            assert(p.children[0] == sketch(left.children[0]));
            assert(sound(p.children[0], n));
            let x = assign_expr(t.span, left.children[0], right_);
            assert(x.children[0] == left.children[0]);
            assert(x.children[1] == right_);
            if left.children[0].kind == Kind::Pat(PatKind::Ident) {
                assert(sketch(left.children[0]).span == left.children[0].span);
            }
        },
        Kind::Pat(PatKind::Array) => {
            lemma_sketch(left);
            crate::growth::lemma_ref_ident(vars, absent(), env);
            match ref_ident(vars, absent(), env) {
                Err(_) => {},
                Ok((object, vars1, env1)) => {
                    law_fresh(env, dummy(), crate::rules::ref_text(absent()));
                    let first = assign_expr(dummy(), ident_pat(object), right_);
                    match assign_elems(left.children, 0, object, seq![first], vars1, env1, bound) {
                        Err(_) => {},
                        Ok((exprs, vars2, env2)) => {
                            crate::growth::lemma_assign_elems(
                                left.children,
                                0,
                                object,
                                seq![first],
                                vars1,
                                env1,
                                bound,
                            );
                            if grown(env2, last) {
                                lemma_new(none, dummy(), object, right_, env, env1, s, n, last);
                                assert(none.push(first) =~= seq![first]);
                                lemma_elems(
                                    left.children,
                                    0,
                                    object,
                                    seq![first],
                                    vars1,
                                    env1,
                                    bound,
                                    s,
                                    n,
                                    last,
                                );
                                let a = does_all(none, s, n, last);
                                let b = does_all(seq![first], s, n, last);
                                let c = does_all(exprs, s, n, last);
                                assert(sketches(left.children).skip(0) =~= p.children);
                                lemma_goes(
                                    a,
                                    env,
                                    reads(right(e), v),
                                    b,
                                    env1,
                                    writes_elems(p.children, 0, v),
                                    c,
                                    env2,
                                    n,
                                );
                                lemma_end(exprs, object, v, a.1, b.1, c.1, env1, s, n, last);
                                assert(Seq::<Event>::empty() + writes(p, v, right(e)) =~= writes(
                                    p,
                                    v,
                                    right(e),
                                ));
                            }
                        },
                    }
                },
            }
        },
        Kind::Pat(PatKind::Object) => {
            lemma_sketch(left);
            crate::growth::lemma_ref_ident(vars, absent(), env);
            match ref_ident(vars, absent(), env) {
                Err(_) => {},
                Ok((object, vars1, env1)) => {
                    law_fresh(env, dummy(), crate::rules::ref_text(absent()));
                    let first = assign_expr(left.span, ident_pat(object), right_);
                    match assign_props(left.children, 0, object, seq![first], vars1, env1) {
                        Err(_) => {},
                        Ok((exprs, vars2, env2)) => {
                            crate::growth::lemma_assign_props(
                                left.children,
                                0,
                                object,
                                seq![first],
                                vars1,
                                env1,
                            );
                            if grown(env2, last) {
                                lemma_new(none, left.span, object, right_, env, env1, s, n, last);
                                assert(none.push(first) =~= seq![first]);
                                lemma_props(
                                    left.children,
                                    0,
                                    object,
                                    seq![first],
                                    vars1,
                                    env1,
                                    s,
                                    n,
                                    last,
                                );
                                let a = does_all(none, s, n, last);
                                let b = does_all(seq![first], s, n, last);
                                let c = does_all(exprs, s, n, last);
                                assert(sketches(left.children).skip(0) =~= p.children);
                                lemma_goes(
                                    a,
                                    env,
                                    reads(right(e), v),
                                    b,
                                    env1,
                                    writes_props(p.children, v),
                                    c,
                                    env2,
                                    n,
                                );
                                lemma_end(exprs, object, v, a.1, b.1, c.1, env1, s, n, last);
                                assert(Seq::<Event>::empty() + writes(p, v, right(e)) =~= writes(
                                    p,
                                    v,
                                    right(e),
                                ));
                            }
                        },
                    }
                },
            }
        },
        Kind::Pat(_) => {
            let x = assign_expr(t.span, left, right_);
            assert(x.children[0] == left);
            assert(x.children[1] == right_);
            assert(p.span == left.span && p.kind == left.kind);
        },
        _ => {
            let x = assign_expr(t.span, left, right_);
            assert(x.children[0] == left);
            assert(x.children[1] == right_);
            assert(!(p.kind is Pat));
        },
    }
}

/// A sequence ends with the name of the value.
proof fn lemma_end(
    exprs: Seq<Tree>,
    object: Name,
    v: Value,
    sa: Store,
    sb: Store,
    sc: Store,
    env1: Env,
    s: Store,
    n: nat,
    last: Env,
)
    requires
        does_all(exprs, s, n, last).1 == sc,
        name_value(ident_expr(object), sb) == v,
        extends(sb, sc, env1),
        object.span.ctxt < env1.contexts.len(),
    ensures
        ({
            let t1 = seq_expr(exprs.push(ident_expr(object)));
            &&& does(t1, s, n, last) == does_all(exprs, s, n, last)
            &&& t1.children.last() == ident_expr(object)
            &&& name_value(t1.children.last(), sc) == v
        }),
{
    let x = ident_expr(object);
    lemma_does_push(exprs, x, s, n, last);
    lemma_leaf(x.kind, x.span, x.text);
    let (a, s1) = does_all(exprs, s, n, last);
    assert(does(x, s1, n, last) == (Seq::<Event>::empty(), s1));
    assert(a + Seq::<Event>::empty() =~= a);
}

/// One assignment that the pass has made, behind those that are done.
proof fn lemma_one(
    span: Span,
    p: Tree,
    e: Tree,
    xs: Seq<Tree>,
    vars: Seq<Tree>,
    env: Env,
    bound: nat,
    s0: Store,
    n: nat,
    last: Env,
)
    requires
        fits(does_all(xs, s0, n, last).1, env, n),
        sound(sketch(p), n),
        anchored(sketch(e), env.contexts.len()),
    ensures
        reassign(assign_expr(span, p, e), vars, env, bound) matches Ok((t1, vars1, env1)) ==> grown(
            env,
            env1,
        ) && (grown(env1, last) ==> {
            let a = does_all(xs, s0, n, last);
            goes(
                a,
                env,
                writes(sketch(p), value(sketch(e), a.1, last), right(sketch(e))),
                does_all(xs.push(t1), s0, n, last),
                env1,
                n,
            )
        }),
    decreases bound, 0nat, 0nat,
{
    let t = assign_expr(span, p, e);
    assert(t.children[0] == p);
    assert(t.children[1] == e);
    if weight(t) < bound {
        lemma_assign(t, vars, env, does_all(xs, s0, n, last).1, n, last);
        match assign(t, vars, env) {
            Err(_) => {},
            Ok((t1, vars1, env1)) => lemma_does_push(xs, t1, s0, n, last),
        }
    }
}

#[verifier::rlimit(60)]
proof fn lemma_elem(
    elem: Tree,
    i: nat,
    object: Name,
    xs: Seq<Tree>,
    vars: Seq<Tree>,
    env: Env,
    bound: nat,
    s0: Store,
    n: nat,
    last: Env,
)
    requires
        sound(sketch(elem), n),
        object.span.ctxt < env.contexts.len(),
        fits(does_all(xs, s0, n, last).1, env, n),
        elem.kind != Kind::Absent,
    ensures
        assign_elem(elem, i as int, object, xs, vars, env, bound) matches Ok((ys, vars1, env1))
            ==> grown(env, env1) && (grown(env1, last) ==> {
            let a = does_all(xs, s0, n, last);
            let v = name_value(ident_expr(object), a.1);
            let o = sketch(elem);
            let item = Value::Item(Box::new(v), i as u64);
            goes(
                a,
                env,
                match o.kind {
                    Kind::Pat(PatKind::Assign) => seq![Event::Read(item)] + writes(
                        o.children[0],
                        Value::Default(Box::new(item), o.children[1]),
                        part(),
                    ),
                    Kind::Pat(PatKind::Rest { dot3 }) => writes(
                        o.children[0],
                        Value::From(Box::new(v), i as u64),
                        part(),
                    ),
                    _ => writes(o, item, part()),
                },
                does_all(ys, s0, n, last),
                env1,
                n,
            )
        }),
    decreases bound, 1nat, 0nat,
{
    let a = does_all(xs, s0, n, last);
    let v = name_value(ident_expr(object), a.1);
    let o = sketch(elem);
    let k = i as int;
    lemma_elem_values(object, k, a.1, last);
    crate::growth::lemma_assign_elem(elem, k, object, xs, vars, env, bound);
    match elem.kind {
        Kind::Pat(PatKind::Assign) => if elem.children.len() == 2 {
            lemma_sketch(elem);
            assert(o.children[0] == sketch(elem.children[0]));
            assert(o.children[1] == sketch(elem.children[1]));
            assert(sound(o.children[0], n));
            crate::growth::lemma_ref_ident(vars, absent(), env);
            match ref_ident(vars, absent(), env) {
                Err(_) => {},
                Ok((tmp, vars1, env1)) => {
                    law_fresh(env, dummy(), crate::rules::ref_text(absent()));
                    let item = ref_idx_expr(object, k);
                    let first = assign_expr(dummy(), ident_pat(tmp), item);
                    let test = cond_expr(tmp, elem.children[1]);
                    let ys = xs.push(first);
                    lemma_new(xs, dummy(), tmp, item, env, env1, s0, n, last);
                    let b = does_all(ys, s0, n, last);
                    lemma_cond(tmp, elem.children[1], b.1, last);
                    lemma_one(
                        elem.span,
                        elem.children[0],
                        test,
                        ys,
                        vars1,
                        env1,
                        bound,
                        s0,
                        n,
                        last,
                    );
                    match reassign(
                        assign_expr(elem.span, elem.children[0], test),
                        vars1,
                        env1,
                        bound,
                    ) {
                        Err(_) => {},
                        Ok((t1, vars2, env2)) => if grown(env2, last) {
                            let w = Value::Item(Box::new(v), i as u64);
                            lemma_goes(
                                a,
                                env,
                                seq![Event::Read(w)],
                                b,
                                env1,
                                writes(
                                    o.children[0],
                                    Value::Default(Box::new(w), o.children[1]),
                                    part(),
                                ),
                                does_all(ys.push(t1), s0, n, last),
                                env2,
                                n,
                            );
                        },
                    }
                },
            }
        },
        Kind::Pat(PatKind::Rest { dot3 }) => if elem.children.len() == 1 {
            lemma_sketch(elem);
            assert(o.children[0] == sketch(elem.children[0]));
            assert(sound(o.children[0], n));
            lemma_one(
                elem.span,
                elem.children[0],
                slice_call(object, k, dummy()),
                xs,
                vars,
                env,
                bound,
                s0,
                n,
                last,
            );
        },
        _ => {
            lemma_one(
                elem.span,
                elem,
                ref_idx_expr(object, k),
                xs,
                vars,
                env,
                bound,
                s0,
                n,
                last,
            );
            assert(o.kind == elem.kind || (is_action(elem.kind) && !(o.kind is Pat)));
        },
    }
}

#[verifier::rlimit(40)]
proof fn lemma_elems(
    elems: Seq<Tree>,
    i: nat,
    object: Name,
    xs: Seq<Tree>,
    vars: Seq<Tree>,
    env: Env,
    bound: nat,
    s0: Store,
    n: nat,
    last: Env,
)
    requires
        i <= elems.len(),
        forall|j: int| 0 <= j < elems.len() ==> sound(#[trigger] sketches(elems)[j], n),
        object.span.ctxt < env.contexts.len(),
        fits(does_all(xs, s0, n, last).1, env, n),
    ensures
        assign_elems(elems, i, object, xs, vars, env, bound) matches Ok((ys, vars1, env1))
            ==> grown(env, env1) && (grown(env1, last) ==> {
            let a = does_all(xs, s0, n, last);
            let v = name_value(ident_expr(object), a.1);
            goes(
                a,
                env,
                writes_elems(sketches(elems).skip(i as int), i, v),
                does_all(ys, s0, n, last),
                env1,
                n,
            )
        }),
    decreases bound, 2nat, elems.len() - i,
{
    let a = does_all(xs, s0, n, last);
    let v = name_value(ident_expr(object), a.1);
    let all = sketches(elems).skip(i as int);
    crate::growth::lemma_assign_elems(elems, i, object, xs, vars, env, bound);
    if i >= elems.len() {
        assert(all =~= Seq::empty());
        assert(a.0 + Seq::<Event>::empty() =~= a.0);
    } else {
        let elem = elems[i as int];
        let rest = sketches(elems).skip(i as int + 1);
        assert(all.drop_first() =~= rest);
        assert(all[0] == sketch(elem));
        assert(sound(sketches(elems)[i as int], n));
        if elem.kind == Kind::Absent {
            lemma_elems(elems, i + 1, object, xs, vars, env, bound, s0, n, last);
            assert(Seq::<Event>::empty() + writes_elems(rest, i + 1, v) =~= writes_elems(
                rest,
                i + 1,
                v,
            ));
        } else {
            lemma_elem(elem, i, object, xs, vars, env, bound, s0, n, last);
            match assign_elem(elem, i as int, object, xs, vars, env, bound) {
                Err(_) => {},
                Ok((ys, vars1, env1)) => {
                    crate::growth::lemma_assign_elems(
                        elems,
                        i + 1,
                        object,
                        ys,
                        vars1,
                        env1,
                        bound,
                    );
                    match assign_elems(elems, i + 1, object, ys, vars1, env1, bound) {
                        Err(_) => {},
                        Ok((zs, vars2, env2)) => if grown(env2, last) {
                            crate::growth::lemma_trans(env1, env2, last);
                            let o = sketch(elem);
                            if elem.kind is Pat {
                                lemma_sketch(elem);
                                assert(o.children.len() == elem.children.len());
                            }
                            let item = Value::Item(Box::new(v), i as u64);
                            let here = match o.kind {
                                Kind::Pat(PatKind::Assign) => seq![Event::Read(item)] + writes(
                                    o.children[0],
                                    Value::Default(Box::new(item), o.children[1]),
                                    part(),
                                ),
                                Kind::Pat(PatKind::Rest { dot3 }) => writes(
                                    o.children[0],
                                    Value::From(Box::new(v), i as u64),
                                    part(),
                                ),
                                _ => writes(o, item, part()),
                            };
                            let b = does_all(ys, s0, n, last);
                            assert(name_value(ident_expr(object), b.1) == v);
                            lemma_elems(
                                elems,
                                i + 1,
                                object,
                                ys,
                                vars1,
                                env1,
                                bound,
                                s0,
                                n,
                                last,
                            );
                            lemma_goes(
                                a,
                                env,
                                here,
                                b,
                                env1,
                                writes_elems(rest, i + 1, v),
                                does_all(zs, s0, n, last),
                                env2,
                                n,
                            );
                            assert(o.kind != Kind::Absent);
                            assert(writes_elems(all, i, v) == here + writes_elems(rest, i + 1, v));
                        },
                    }
                },
            }
        }
    }
}

#[verifier::rlimit(60)]
proof fn lemma_prop(
    prop: Tree,
    object: Name,
    xs: Seq<Tree>,
    vars: Seq<Tree>,
    env: Env,
    s0: Store,
    n: nat,
    last: Env,
)
    requires
        sound(sketch(prop), n),
        object.span.ctxt < env.contexts.len(),
        fits(does_all(xs, s0, n, last).1, env, n),
    ensures
        assign_prop(prop, object, xs, vars, env) matches Ok((ys, vars1, env1)) ==> grown(env, env1)
            && {
            let a = does_all(xs, s0, n, last);
            let v = name_value(ident_expr(object), a.1);
            goes(a, env, writes_prop(sketch(prop), v), does_all(ys, s0, n, last), env1, n)
        },
{
    let a = does_all(xs, s0, n, last);
    let v = name_value(ident_expr(object), a.1);
    if prop.children.len() == 2 && prop.kind is PatProp {
        let k = prop.children[0];
        let q = prop.children[1];
        let o = sketch(prop);
        lemma_sketch(prop);
        assert(o.children[0] == sketch(k));
        assert(o.children[1] == sketch(q));
        assert(sound(o.children[0], n) && sound(o.children[1], n));
        match prop.kind {
            Kind::PatProp(PatPropKind::KeyValue) => match prop_name_expr(k) {
                None => {},
                Some(e) => {
                    let w = property(v, sketch(k));
                    lemma_prop_values(object, e, a.1, last);
                    lemma_key(v, k, e);
                    lemma_write(xs, prop.span, q, ref_prop_expr(object, e), env, s0, n, last);
                    assert(seq![Event::Read(w)] + seq![Event::Write(sketch(q), w)]
                        =~= writes_prop(o, v));
                },
            },
            Kind::PatProp(PatPropKind::Assign) => {
                let name = name_of(k);
                let e = ref_prop_expr(object, ident_expr(name));
                let w = Value::Named(Box::new(v), k.text);
                lemma_prop_values(object, ident_expr(name), a.1, last);
                lemma_made(name, q, true, 0);
                assert(value(sketch(e), a.1, last) == w);
                assert(o.children[0].kind == Kind::Part(PartKind::Ident));
                assert(sketch(k).text == k.text && sketch(k).span == k.span);
                if q.kind == Kind::Absent {
                    lemma_write(xs, prop.span, ident_pat(name), e, env, s0, n, last);
                    assert(seq![Event::Read(w)] + seq![Event::Write(ident_pat(name), w)]
                        =~= writes_prop(o, v));
                } else {
                    crate::growth::lemma_ref_ident(vars, absent(), env);
                    match ref_ident(vars, absent(), env) {
                        Err(_) => {},
                        Ok((tmp, vars1, env1)) => {
                            law_fresh(env, dummy(), crate::rules::ref_text(absent()));
                            let first = assign_expr(prop.span, ident_pat(tmp), e);
                            let ys = xs.push(first);
                            lemma_new(xs, prop.span, tmp, e, env, env1, s0, n, last);
                            let b = does_all(ys, s0, n, last);
                            let test = cond_expr(tmp, q);
                            lemma_cond(tmp, q, b.1, last);
                            lemma_write(
                                ys,
                                prop.span,
                                ident_pat(name),
                                test,
                                env1,
                                s0,
                                n,
                                last,
                            );
                            let d = Value::Default(Box::new(w), sketch(q));
                            let c = does_all(
                                ys.push(assign_expr(prop.span, ident_pat(name), test)),
                                s0,
                                n,
                                last,
                            );
                            lemma_goes(
                                a,
                                env,
                                seq![Event::Read(w)],
                                b,
                                env1,
                                seq![Event::Read(d)] + seq![Event::Write(ident_pat(name), d)],
                                c,
                                env1,
                                n,
                            );
                            assert(seq![Event::Read(w)] + (seq![Event::Read(d)]
                                + seq![Event::Write(ident_pat(name), d)]) =~= writes_prop(
                                o,
                                v,
                            ));
                        },
                    }
                }
            },
            _ => {},
        }
    }
}

proof fn lemma_props(
    props: Seq<Tree>,
    i: nat,
    object: Name,
    xs: Seq<Tree>,
    vars: Seq<Tree>,
    env: Env,
    s0: Store,
    n: nat,
    last: Env,
)
    requires
        i <= props.len(),
        forall|j: int| 0 <= j < props.len() ==> sound(#[trigger] sketches(props)[j], n),
        object.span.ctxt < env.contexts.len(),
        fits(does_all(xs, s0, n, last).1, env, n),
    ensures
        assign_props(props, i, object, xs, vars, env) matches Ok((ys, vars1, env1)) ==> grown(
            env,
            env1,
        ) && {
            let a = does_all(xs, s0, n, last);
            let v = name_value(ident_expr(object), a.1);
            goes(
                a,
                env,
                writes_props(sketches(props).skip(i as int), v),
                does_all(ys, s0, n, last),
                env1,
                n,
            )
        },
    decreases props.len() - i,
{
    let a = does_all(xs, s0, n, last);
    let v = name_value(ident_expr(object), a.1);
    let all = sketches(props).skip(i as int);
    crate::growth::lemma_assign_props(props, i, object, xs, vars, env);
    if i >= props.len() {
        assert(all =~= Seq::empty());
        assert(a.0 + Seq::<Event>::empty() =~= a.0);
    } else {
        let prop = props[i as int];
        let rest = sketches(props).skip(i as int + 1);
        assert(all.drop_first() =~= rest);
        assert(all[0] == sketch(prop));
        assert(sound(sketches(props)[i as int], n));
        lemma_prop(prop, object, xs, vars, env, s0, n, last);
        match assign_prop(prop, object, xs, vars, env) {
            Err(_) => {},
            Ok((ys, vars1, env1)) => {
                let b = does_all(ys, s0, n, last);
                assert(name_value(ident_expr(object), b.1) == v);
                lemma_props(props, i + 1, object, ys, vars1, env1, s0, n, last);
                match assign_props(props, i + 1, object, ys, vars1, env1) {
                    Err(_) => {},
                    Ok((zs, vars2, env2)) => lemma_goes(
                        a,
                        env,
                        writes_prop(sketch(prop), v),
                        b,
                        env1,
                        writes_props(rest, v),
                        does_all(zs, s0, n, last),
                        env2,
                        n,
                    ),
                }
            },
        }
    }
}

/// What becomes of an assignment does what its pattern asks for: it computes the same values in the
/// same order, each of them once, and gives each target the value that its place in the pattern
/// asks for. Where the target is an array or an object pattern, the value of the whole is the value
/// that was assigned.
pub proof fn law_assigns(t: Tree, vars: Seq<Tree>, env: Env)
    requires
        t.kind == Kind::Expr(ExprKind::Assign(AssignOp::Assign)),
        t.children.len() == 2,
        env.wf(),
        sound(sketch(t.children[0]), env.contexts.len()),
        anchored(sketch(t.children[1]), env.contexts.len()),
    ensures
        assign(t, vars, env) matches Ok((t1, vars1, env1)) ==> {
            let p = sketch(t.children[0]);
            let e = sketch(t.children[1]);
            let v = value(e, Map::empty(), env1);
            let (done, s) = does(t1, Map::empty(), env.contexts.len(), env1);
            &&& done == writes(p, v, right(e))
            &&& p.kind == Kind::Pat(PatKind::Array) || p.kind == Kind::Pat(PatKind::Object)
                ==> t1.kind == Kind::Expr(ExprKind::Sequence) && t1.children.len() > 0
                && name_value(t1.children.last(), s) == v
        },
{
    match assign(t, vars, env) {
        Err(_) => {},
        Ok((t1, vars1, env1)) => lemma_assign(
            t,
            vars,
            env,
            Map::empty(),
            env.contexts.len(),
            env1,
        ),
    }
}

} // verus!
