use destructuring::ast::{
    AssignOp, BinaryOp, ExprKind, Kind, LitKind, Node, Number, PartKind, PatKind, PropNameKind,
    Span, StmtKind, UnaryOp,
};
use destructuring::destructuring::{destructuring, AssignFolder};
use destructuring::factory::{
    make_cond_expr, make_ref_idx_expr, make_ref_prop_expr, prop_name_to_expr,
};
use destructuring::hygiene::{Ident, Refusal, Session};
use destructuring::nullness::can_be_null;
use destructuring::visitor::{has_destruturing, DestructuringVisitor};

const NO_SPAN: Span = Span { lo: 0, hi: 0, ctxt: 0 };

fn leaf(kind: Kind, text: &str) -> Node {
    Node { kind, text: text.to_owned(), span: NO_SPAN, children: vec![] }
}

fn node(kind: Kind, children: Vec<Node>) -> Node {
    Node { kind, text: String::new(), span: NO_SPAN, children }
}

fn expr(kind: ExprKind, children: Vec<Node>) -> Node {
    node(Kind::Expr(kind), children)
}

fn name(text: &str) -> Node {
    leaf(Kind::Expr(ExprKind::Ident), text)
}

fn lit(kind: LitKind) -> Node {
    leaf(Kind::Expr(ExprKind::Lit(kind)), "")
}

fn ident(text: &str, ctxt: u32) -> Ident {
    Ident { sym: text.to_owned(), span: Span { lo: 0, hi: 0, ctxt } }
}

#[test]
fn values_that_can_be_null() {
    for kind in [
        ExprKind::This,
        ExprKind::Ident,
        ExprKind::PrivateName,
        ExprKind::Member { computed: false },
        ExprKind::Call,
        ExprKind::New { has_args: true },
        ExprKind::Yield { delegate: false },
        ExprKind::Await,
        ExprKind::MetaProp,
        ExprKind::TaggedTpl,
        ExprKind::Unary(UnaryOp::Void),
        ExprKind::Bin(BinaryOp::Add),
        ExprKind::Lit(LitKind::Null),
        ExprKind::Sequence,
    ] {
        assert_eq!(can_be_null(&expr(kind, vec![])), Some(true), "{:?}", kind);
    }
}

#[test]
fn values_that_cannot_be_null() {
    for kind in [
        ExprKind::Array,
        ExprKind::Arrow { is_async: false, is_generator: false },
        ExprKind::Object,
        ExprKind::Fn,
        ExprKind::Class,
        ExprKind::Tpl,
        ExprKind::TsNonNull,
        ExprKind::Lit(LitKind::Bool(true)),
        ExprKind::Lit(LitKind::Num(Number::Int(0))),
        ExprKind::Lit(LitKind::Str { has_escape: false }),
        ExprKind::Lit(LitKind::Regex),
    ] {
        assert_eq!(can_be_null(&expr(kind, vec![])), Some(false), "{:?}", kind);
    }
}

#[test]
fn values_that_depend_on_what_is_inside() {
    let number = || lit(LitKind::Num(Number::Int(1)));
    for kind in
        [ExprKind::Paren, ExprKind::TsAs, ExprKind::TsTypeAssertion, ExprKind::TsTypeCast]
    {
        assert_eq!(can_be_null(&expr(kind, vec![number()])), Some(false));
        assert_eq!(can_be_null(&expr(kind, vec![name("a")])), Some(true));
    }
    let sequence = |a: Node, b: Node| expr(ExprKind::Sequence, vec![a, b]);
    assert_eq!(can_be_null(&sequence(name("a"), number())), Some(false));
    assert_eq!(can_be_null(&sequence(number(), name("a"))), Some(true));
    let assign = |b: Node| expr(ExprKind::Assign(AssignOp::Assign), vec![name("a"), b]);
    assert_eq!(can_be_null(&assign(number())), Some(false));
    assert_eq!(can_be_null(&assign(name("b"))), Some(true));
    let cond = |a: Node, b: Node| expr(ExprKind::Cond, vec![name("t"), a, b]);
    assert_eq!(can_be_null(&cond(number(), number())), Some(false));
    assert_eq!(can_be_null(&cond(name("a"), number())), Some(true));
    assert_eq!(can_be_null(&cond(number(), name("a"))), Some(true));
}

#[test]
fn there_is_no_answer_for_jsx() {
    for kind in [
        ExprKind::JSXMember,
        ExprKind::JSXNamespacedName,
        ExprKind::JSXEmpty,
        ExprKind::JSXElement,
        ExprKind::JSXFragment,
    ] {
        assert_eq!(can_be_null(&expr(kind, vec![])), None);
    }
    // The first branch decides before the second is looked at.
    let jsx = || expr(ExprKind::JSXEmpty, vec![]);
    assert_eq!(can_be_null(&expr(ExprKind::Cond, vec![name("t"), name("a"), jsx()])), Some(true));
    assert_eq!(can_be_null(&expr(ExprKind::Cond, vec![name("t"), jsx(), name("a")])), None);
}

#[test]
fn patterns_are_found_anywhere() {
    let ident = leaf(Kind::Pat(PatKind::Ident), "a");
    assert!(!has_destruturing(&vec![]));
    assert!(!has_destruturing(&vec![node(Kind::Stmt(StmtKind::Block), vec![ident])]));
    let array = node(Kind::Pat(PatKind::Array), vec![]);
    let deep = node(Kind::Stmt(StmtKind::Block), vec![node(Kind::Stmt(StmtKind::If), vec![array])]);
    assert!(has_destruturing(&vec![name("a"), deep]));
    for kind in [PatKind::Object, PatKind::Assign, PatKind::Expr, PatKind::Rest { dot3: NO_SPAN }] {
        assert!(has_destruturing(&vec![node(Kind::Pat(kind), vec![])]));
    }
}

#[test]
fn the_visitor_remembers() {
    let mut visitor = DestructuringVisitor { found: false };
    visitor.visit(&name("a"));
    assert!(!visitor.found);
    visitor.visit(&node(Kind::Pat(PatKind::Array), vec![]));
    assert!(visitor.found);
    visitor.visit(&name("a"));
    assert!(visitor.found);
}

#[test]
fn names_of_properties() {
    let property = prop_name_to_expr(leaf(Kind::PropName(PropNameKind::Ident), "a")).unwrap();
    assert_eq!((property.kind, property.text.as_str()), (Kind::Expr(ExprKind::Ident), "a"));
    let string = PropNameKind::Str { has_escape: true };
    let property = prop_name_to_expr(leaf(Kind::PropName(string), "b")).unwrap();
    assert_eq!(property.kind, Kind::Expr(ExprKind::Lit(LitKind::Str { has_escape: true })));
    assert_eq!(property.text, "b");
    let number = PropNameKind::Num(Number::Source);
    let property = prop_name_to_expr(leaf(Kind::PropName(number), "1.5")).unwrap();
    assert_eq!(property.kind, Kind::Expr(ExprKind::Lit(LitKind::Num(Number::Source))));
    assert_eq!(property.text, "1.5");
    let computed = Kind::PropName(PropNameKind::Computed);
    let property = prop_name_to_expr(node(computed, vec![name("k")])).unwrap();
    assert_eq!(property.text, "k");
    assert_eq!(prop_name_to_expr(node(computed, vec![])).err(), Some(Refusal::Unsupported));
    assert_eq!(prop_name_to_expr(name("a")).err(), Some(Refusal::Unsupported));
}

#[test]
fn references_to_parts() {
    let element = make_ref_idx_expr(&ident("r", 4), 2);
    assert_eq!(element.kind, Kind::Expr(ExprKind::Member { computed: true }));
    assert_eq!(element.children[0].text, "r");
    assert_eq!(element.children[0].span.ctxt, 4);
    assert_eq!(
        element.children[1].kind,
        Kind::Expr(ExprKind::Lit(LitKind::Num(Number::Int(2))))
    );
    let plain = make_ref_prop_expr(&ident("r", 0), name("x"));
    assert_eq!(plain.kind, Kind::Expr(ExprKind::Member { computed: false }));
    let computed = make_ref_prop_expr(&ident("r", 0), lit(LitKind::Null));
    assert_eq!(computed.kind, Kind::Expr(ExprKind::Member { computed: true }));
    let cond = make_cond_expr(&ident("t", 1), name("d"));
    assert_eq!(cond.kind, Kind::Expr(ExprKind::Cond));
    assert_eq!(cond.children[0].kind, Kind::Expr(ExprKind::Bin(BinaryOp::EqEqEq)));
    assert_eq!(cond.children[1].text, "d");
    assert_eq!((cond.children[2].text.as_str(), cond.children[2].span.ctxt), ("t", 1));
}

#[test]
fn law_value() {
    let target = node(Kind::Pat(PatKind::Array), vec![leaf(Kind::Pat(PatKind::Ident), "a")]);
    let assign = expr(ExprKind::Assign(AssignOp::Assign), vec![target, name("b")]);
    let mut pass = destructuring(Session::new());
    let mut folder = AssignFolder { vars: vec![] };
    let out = folder.fold(&mut pass, assign).unwrap();
    assert_eq!(out.kind, Kind::Expr(ExprKind::Sequence));
    let first = &out.children[0];
    let last = &out.children[out.children.len() - 1];
    assert_eq!(first.kind, Kind::Expr(ExprKind::Assign(AssignOp::Assign)));
    assert_eq!((first.children[0].text.as_str(), first.children[0].span.ctxt), ("ref", 1));
    assert_eq!(first.children[1].text, "b");
    assert_eq!((last.text.as_str(), last.span.ctxt), ("ref", 1));
    assert_eq!(folder.vars.len(), 1);
    assert_eq!(folder.vars[0].children[0].text, "ref");
    assert_eq!(folder.vars[0].children[1].kind, Kind::Absent);
}

#[test]
fn law_vars() {
    // [a = 1] = b
    let default = node(
        Kind::Pat(PatKind::Assign),
        vec![leaf(Kind::Pat(PatKind::Ident), "a"), lit(LitKind::Num(Number::Int(1)))],
    );
    let target = node(Kind::Pat(PatKind::Array), vec![default]);
    let assign = expr(ExprKind::Assign(AssignOp::Assign), vec![target, name("b")]);
    let mut pass = destructuring(Session::new());
    let mut folder = AssignFolder { vars: vec![] };
    assert!(folder.fold(&mut pass, assign).is_ok());
    let contexts: Vec<u32> = folder.vars.iter().map(|d| d.children[0].span.ctxt).collect();
    assert_eq!(contexts, vec![1, 2]);
    for var in folder.vars.iter() {
        assert_eq!(var.kind, Kind::Part(PartKind::Declarator { definite: false }));
        assert_eq!(var.children[0].kind, Kind::Pat(PatKind::Ident));
        assert_eq!(var.children[0].text, "ref");
        assert_eq!(var.children[1].kind, Kind::Absent);
    }
}

#[test]
fn law_shrunk() {
    // Counts the patterns that are more than a name.
    fn count(n: &Node) -> usize {
        let own = match n.kind {
            Kind::Pat(PatKind::Ident) => 0,
            Kind::Pat(_) => 1,
            _ => 0,
        };
        own + n.children.iter().map(count).sum::<usize>()
    }
    // ({x: [a]} = b) keeps the inner pattern.
    let inner = node(Kind::Pat(PatKind::Array), vec![leaf(Kind::Pat(PatKind::Ident), "a")]);
    let key = leaf(Kind::PropName(PropNameKind::Ident), "x");
    let prop = node(Kind::PatProp(destructuring::ast::PatPropKind::KeyValue), vec![key, inner]);
    let target = node(Kind::Pat(PatKind::Object), vec![prop]);
    let assign = expr(ExprKind::Assign(AssignOp::Assign), vec![target, name("b")]);
    let program = node(Kind::Script, vec![node(Kind::Stmt(StmtKind::Expr), vec![assign])]);
    assert_eq!(count(&program), 2);
    let out = destructuring(Session::new()).try_fold(program).unwrap();
    assert_eq!(count(&out), 1);
}
