//! What declarations and assignments do, as a trace of what they compute and of what they bind.
//!
//! [`binds`] says this of a pattern and a value, [`runs`] of a row of plain declarators, in which
//! every new name is replaced by what it stands for. What is inside of functions is left out.
use crate::ast::{
    BinaryOp, ExprKind, Kind, LitKind, Number, PatKind, PatPropKind, PropNameKind, Tree, UnaryOp,
};
use crate::hygiene::{Env, Name};
use crate::nullness::nullable;
use crate::quiet::active;
use crate::renaming::is_helper;
use vstd::prelude::*;

verus! {

/// A tree without what is inside of functions, statement lists, loops and declarations.
pub open spec fn outline(t: Tree) -> Tree
    decreases t,
{
    Tree {
        kind: t.kind,
        text: t.text,
        span: t.span,
        children: if active(t.kind) {
            Seq::empty()
        } else {
            Seq::new(
                t.children.len(),
                |i: int|
                    if 0 <= i < t.children.len() {
                        outline(t.children[i])
                    } else {
                        arbitrary()
                    },
            )
        },
    }
}

/// The outlines of a row of trees.
pub open spec fn outlines(ts: Seq<Tree>) -> Seq<Tree> {
    Seq::new(ts.len(), |i: int| outline(ts[i]))
}

/// What can be computed from expressions when values are bound.
pub enum Value {
    /// The value of a name of the program.
    Name(Name),
    /// The value of any other expression.
    Expr(Tree),
    /// What stands at an index of a value.
    Item(Box<Value>, u64),
    /// The property of a value with the given name.
    Named(Box<Value>, Seq<char>),
    /// The property of a value whose name is the value of an expression.
    Keyed(Box<Value>, Tree),
    /// What stands at an index of an array and behind it.
    From(Box<Value>, u64),
    /// The value, or, where that is undefined, the value of an expression.
    Default(Box<Value>, Tree),
    /// The value, which is checked not to be null.
    Checked(Box<Value>),
    /// The value, made an array.
    Array(Box<Value>),
}

/// A step of what is done.
pub enum Event {
    /// A value is computed.
    Read(Value),
    /// A name of the program gets a value.
    Bind(Name, Value),
    /// Something that is not declared gets a value.
    Write(Tree, Value),
    /// Something that cannot be done: no output does it.
    Never,
}

/// What new names stand for, by their spelling and context.
pub type Store = Map<(Seq<char>, u32), Value>;

/// Whether this is a name as an expression.
pub open spec fn is_ident(t: Tree) -> bool {
    t.kind == Kind::Expr(ExprKind::Ident)
}

/// Whether these are occurrences of one name.
pub open spec fn same_ident(a: Tree, b: Tree) -> bool {
    is_ident(a) && is_ident(b) && a.text == b.text && a.span.ctxt == b.span.ctxt
}

/// The key under which a name is stored.
pub open spec fn key(t: Tree) -> (Seq<char>, u32) {
    (t.text, t.span.ctxt)
}

/// What a name stands for.
pub open spec fn name_value(t: Tree, s: Store) -> Value {
    if s.dom().contains(key(t)) {
        s[key(t)]
    } else {
        Value::Name(the_name(t))
    }
}

/// Whether this is `a.b` or `a[b]`, where `a` is a name, and no more than a name stands behind a
/// dot.
pub open spec fn is_access(e: Tree) -> bool {
    e.children.len() == 2 && is_ident(e.children[0]) && match e.kind {
        Kind::Expr(ExprKind::Member { computed }) => computed || is_ident(e.children[1]),
        _ => false,
    }
}

/// The property of a value that `v[property]` is, or `v.property` where it is not computed.
pub open spec fn access(v: Value, property: Tree, computed: bool) -> Value {
    if !computed {
        Value::Named(Box::new(v), property.text)
    } else {
        match property.kind {
            Kind::Expr(ExprKind::Lit(LitKind::Num(Number::Int(k)))) => Value::Item(Box::new(v), k),
            _ => Value::Keyed(Box::new(v), property),
        }
    }
}

/// Whether this is `a.slice(k)`, where `a` is a name and `k` a number.
pub open spec fn is_slice(e: Tree) -> bool {
    &&& e.kind == Kind::Expr(ExprKind::Call)
    &&& e.children.len() == 2
    &&& e.children[0].kind == Kind::Expr(ExprKind::Member { computed: false })
    &&& e.children[0].children.len() == 2
    &&& is_ident(e.children[0].children[0])
    &&& is_ident(e.children[0].children[1])
    &&& e.children[0].children[1].text == "slice"@
    &&& e.children[1].kind is Expr
    &&& e.children[1].kind->Expr_0 is Lit
    &&& e.children[1].kind->Expr_0->Lit_0 is Num
    &&& e.children[1].kind->Expr_0->Lit_0->Num_0 is Int
}

/// Whether this is `_toArray(a)`, where `a` is a name.
pub open spec fn is_to_array(e: Tree) -> bool {
    &&& e.kind == Kind::Expr(ExprKind::Call)
    &&& e.children.len() == 2
    &&& is_ident(e.children[0])
    &&& e.children[0].text == "_toArray"@
    &&& is_ident(e.children[1])
}

/// Whether this is `a === void 0 ? .. : a`, where `a` is a name.
pub open spec fn is_default(e: Tree) -> bool {
    &&& e.kind == Kind::Expr(ExprKind::Cond)
    &&& e.children.len() == 3
    &&& e.children[0].kind == Kind::Expr(ExprKind::Bin(BinaryOp::EqEqEq))
    &&& e.children[0].children.len() == 2
    &&& same_ident(e.children[0].children[0], e.children[2])
    &&& e.children[0].children[1].kind == Kind::Expr(ExprKind::Unary(UnaryOp::Void))
    &&& e.children[0].children[1].children.len() == 1
    &&& e.children[0].children[1].children[0].kind == Kind::Expr(
        ExprKind::Lit(LitKind::Num(Number::Int(0))),
    )
}

/// Whether this is `a ? a : _throw(new TypeError(..))`, where `a` is a name.
pub open spec fn is_check(e: Tree) -> bool {
    &&& e.kind == Kind::Expr(ExprKind::Cond)
    &&& e.children.len() == 3
    &&& same_ident(e.children[0], e.children[1])
    &&& e.children[2].kind == Kind::Expr(ExprKind::Call)
    &&& e.children[2].children.len() == 2
    &&& is_ident(e.children[2].children[0])
    &&& e.children[2].children[0].text == "_throw"@
    &&& e.children[2].children[1].kind == Kind::Expr(ExprKind::New { has_args: true })
    &&& e.children[2].children[1].children.len() == 2
    &&& is_ident(e.children[2].children[1].children[0])
    &&& e.children[2].children[1].children[0].text == "TypeError"@
    &&& e.children[2].children[1].children[1].kind == Kind::Expr(
        ExprKind::Lit(LitKind::Str { has_escape: false }),
    )
    &&& e.children[2].children[1].children[1].text == "Cannot destructure 'undefined' or 'null'"@
}

/// What an expression stands for. The helpers are those of the state `last`, which has to know that
/// they are called.
pub open spec fn value(e: Tree, s: Store, last: Env) -> Value {
    if is_ident(e) {
        name_value(e, s)
    } else if is_access(e) {
        access(
            name_value(e.children[0], s),
            e.children[1],
            e.kind == Kind::Expr(ExprKind::Member { computed: true }),
        )
    } else if is_slice(e) {
        Value::From(
            Box::new(name_value(e.children[0].children[0], s)),
            e.children[1].kind->Expr_0->Lit_0->Num_0->Int_0,
        )
    } else if is_to_array(e) && is_helper(last, e.children[0].span.ctxt) && last.helpers.to_array {
        Value::Array(Box::new(name_value(e.children[1], s)))
    } else if is_default(e) {
        Value::Default(Box::new(name_value(e.children[2], s)), e.children[1])
    } else if is_check(e) && is_helper(last, e.children[2].children[0].span.ctxt)
        && last.helpers.throw {
        Value::Checked(Box::new(name_value(e.children[0], s)))
    } else {
        Value::Expr(e)
    }
}

/// The name on whose value that of an expression rests.
pub open spec fn base(e: Tree) -> Option<Tree> {
    if is_ident(e) {
        Some(e)
    } else if is_access(e) {
        Some(e.children[0])
    } else if is_slice(e) {
        Some(e.children[0].children[0])
    } else if is_to_array(e) {
        Some(e.children[1])
    } else if is_default(e) {
        Some(e.children[2])
    } else if is_check(e) {
        Some(e.children[0])
    } else {
        None
    }
}

/// Whether the value of an expression rests on no name but one of the first `m` contexts.
pub open spec fn anchored(e: Tree, m: nat) -> bool {
    base(e) matches Some(b) ==> b.span.ctxt < m
}

/// What stands on the right of a pattern.
pub enum Right {
    /// Nothing.
    Nothing,
    /// A name of the program.
    Program,
    /// A name that was generated.
    Made,
    /// Another expression, and whether its value can be null.
    Value { nullable: bool },
}

/// What an expression on the right of a pattern is.
pub open spec fn right(e: Tree) -> Right {
    if e.kind == Kind::Absent {
        Right::Nothing
    } else if is_ident(e) {
        if e.span.ctxt == 0 {
            Right::Program
        } else {
            Right::Made
        }
    } else {
        Right::Value { nullable: nullable(e) != Some(false) }
    }
}

/// The value of anything but a name has to be computed.
pub open spec fn reads(r: Right, v: Value) -> Seq<Event> {
    if r is Value {
        seq![Event::Read(v)]
    } else {
        Seq::empty()
    }
}

/// A part of a value, which can be null.
pub open spec fn part() -> Right {
    Right::Value { nullable: true }
}

/// The property of a value that a property name stands for. A name in brackets stands for itself.
pub open spec fn property(v: Value, key: Tree) -> Value {
    match key.kind {
        Kind::PropName(PropNameKind::Ident) => Value::Named(Box::new(v), key.text),
        Kind::PropName(PropNameKind::Str { has_escape }) => Value::Keyed(
            Box::new(v),
            Tree {
                kind: Kind::Expr(ExprKind::Lit(LitKind::Str { has_escape })),
                text: key.text,
                span: key.span,
                children: Seq::empty(),
            },
        ),
        Kind::PropName(PropNameKind::Num(Number::Int(k))) => Value::Item(Box::new(v), k),
        Kind::PropName(PropNameKind::Num(Number::Source)) => Value::Keyed(
            Box::new(v),
            Tree {
                kind: Kind::Expr(ExprKind::Lit(LitKind::Num(Number::Source))),
                text: key.text,
                span: key.span,
                children: Seq::empty(),
            },
        ),
        _ => access(v, key.children[0], !is_ident(key.children[0])),
    }
}

/// The name in a node.
pub open spec fn the_name(t: Tree) -> Name {
    Name { text: t.text, span: t.span }
}

/// What is done to bind the value `v`, which is that of `r`, to a pattern.
///
/// The value is computed once, before anything is read from it. That of a name of the program of
/// which a rest is taken is made an array. The value of an object pattern that can be null is
/// checked, unless it is that of a name of the program and properties are read from it. A default
/// value stands in for an undefined value. Where there is no value, or no such pattern, there is
/// nothing that can be done.
pub open spec fn binds(p: Tree, v: Value, r: Right) -> Seq<Event>
    decreases p,
{
    match p.kind {
        Kind::Pat(PatKind::Ident) => reads(r, v) + seq![Event::Bind(the_name(p), v)],
        _ if r is Nothing => seq![Event::Never],
        Kind::Pat(PatKind::Array) => if r is Program && p.children.len() > 0
            && p.children.last().kind is Pat && p.children.last().kind->Pat_0 is Rest {
            let w = Value::Array(Box::new(v));
            seq![Event::Read(w)] + binds_elems(p.children, 0, w)
        } else {
            reads(r, v) + binds_elems(p.children, 0, v)
        },
        Kind::Pat(PatKind::Object) => if r is Program && p.children.len() > 0 {
            binds_props(p.children, v)
        } else if r == (Right::Value { nullable: false }) {
            reads(r, v) + binds_props(p.children, v)
        } else {
            let w = Value::Checked(Box::new(v));
            reads(r, v) + seq![Event::Read(w)] + binds_props(p.children, w)
        },
        Kind::Pat(PatKind::Assign) => if p.children.len() == 2 {
            reads(r, v) + binds(
                p.children[0],
                Value::Default(Box::new(v), p.children[1]),
                part(),
            )
        } else {
            seq![Event::Never]
        },
        _ => seq![Event::Never],
    }
}

/// What is done to bind the elements of a value, from index `i` on, to the elements of a pattern:
/// each gets what stands at its own index, and a rest all from there on.
pub open spec fn binds_elems(elems: Seq<Tree>, i: nat, v: Value) -> Seq<Event>
    decreases elems,
{
    if elems.len() == 0 {
        Seq::empty()
    } else {
        let elem = elems[0];
        (match elem.kind {
            Kind::Absent => Seq::empty(),
            Kind::Pat(PatKind::Rest { dot3 }) => if elem.children.len() == 1 {
                binds(elem.children[0], Value::From(Box::new(v), i as u64), part())
            } else {
                seq![Event::Never]
            },
            _ => binds(elem, Value::Item(Box::new(v), i as u64), part()),
        }) + binds_elems(elems.drop_first(), i + 1, v)
    }
}

/// What is done to bind a property of a value.
pub open spec fn binds_prop(prop: Tree, v: Value) -> Seq<Event>
    decreases prop,
{
    if prop.children.len() != 2 {
        seq![Event::Never]
    } else {
        let k = prop.children[0];
        let p = prop.children[1];
        match prop.kind {
            Kind::PatProp(PatPropKind::KeyValue) => binds(p, property(v, k), part()),
            Kind::PatProp(PatPropKind::Assign) => {
                let w = Value::Named(Box::new(v), k.text);
                if p.kind == Kind::Absent {
                    seq![Event::Read(w), Event::Bind(the_name(k), w)]
                } else {
                    let d = Value::Default(Box::new(w), p);
                    seq![Event::Read(w), Event::Read(d), Event::Bind(the_name(k), d)]
                }
            },
            _ => seq![Event::Never],
        }
    }
}

/// What is done to bind the properties of a value, one by one.
pub open spec fn binds_props(props: Seq<Tree>, v: Value) -> Seq<Event>
    decreases props,
{
    if props.len() == 0 {
        Seq::empty()
    } else {
        binds_prop(props[0], v) + binds_props(props.drop_first(), v)
    }
}

/// What a declarator does, where the names that are new stand for the values in the store.
pub open spec fn declares(d: Tree, s: Store, last: Env) -> Seq<Event> {
    let p = outline(d.children[0]);
    let e = outline(d.children[1]);
    binds(p, value(e, s, last), right(e))
}

/// What declarators do, one after the other.
pub open spec fn declares_all(ds: Seq<Tree>, s: Store, last: Env) -> Seq<Event>
    decreases ds.len(),
{
    if ds.len() == 0 {
        Seq::empty()
    } else {
        declares(ds[0], s, last) + declares_all(ds.drop_first(), s, last)
    }
}

/// What a declarator of a name does, and what new names stand for after it. A name is new if its
/// context is none of the first `n`.
pub open spec fn step(d: Tree, s: Store, n: nat, last: Env) -> (Seq<Event>, Store) {
    let name = d.children[0];
    let e = outline(d.children[1]);
    let v = value(e, s, last);
    if name.span.ctxt >= n {
        (reads(right(e), v), s.insert(key(name), v))
    } else {
        (reads(right(e), v) + seq![Event::Bind(the_name(name), v)], s)
    }
}

/// What declarators of names do, one after the other, and what new names stand for after them.
pub open spec fn runs(ds: Seq<Tree>, s: Store, n: nat, last: Env) -> (Seq<Event>, Store)
    decreases ds.len(),
{
    if ds.len() == 0 {
        (Seq::empty(), s)
    } else {
        let (a, s1) = step(ds[0], s, n, last);
        let (b, s2) = runs(ds.drop_first(), s1, n, last);
        (a + b, s2)
    }
}

/// Whether every context in a tree is one of the first `n`.
pub open spec fn below(t: Tree, n: nat) -> bool
    decreases t,
{
    t.span.ctxt < n && forall|i: int|
        0 <= i < t.children.len() ==> below(#[trigger] t.children[i], n)
}

/// The children of an outline are the outlines of the children.
pub proof fn lemma_outline(t: Tree)
    requires
        !active(t.kind),
    ensures
        outline(t).children == outlines(t.children),
{
    assert(outline(t).children =~= outlines(t.children));
}

/// Nothing is left out of a tree without functions.
pub proof fn law_outline(t: Tree)
    requires
        crate::quiet::quiet(t),
    ensures
        outline(t) == t,
    decreases t,
{
    lemma_outline(t);
    assert forall|i: int| 0 <= i < t.children.len() implies outlines(t.children)[i]
        == t.children[i] by {
        law_outline(t.children[i]);
    }
    assert(outlines(t.children) =~= t.children);
}

/// Whether an expression can be null shows in its outline.
pub proof fn lemma_nullable(t: Tree)
    ensures
        nullable(outline(t)) == nullable(t),
    decreases t,
{
    if !active(t.kind) {
        lemma_outline(t);
        assert forall|i: int| 0 <= i < t.children.len() implies nullable(
            #[trigger] outlines(t.children)[i],
        ) == nullable(t.children[i]) by {
            lemma_nullable(t.children[i]);
        }
        if t.children.len() > 0 {
            assert(outlines(t.children)[0] == outline(t.children[0]));
            assert(outlines(t.children)[t.children.len() - 1] == outline(
                t.children[t.children.len() - 1],
            ));
        }
    }
}

} // verus!
