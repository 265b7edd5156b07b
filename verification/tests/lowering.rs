use destructuring::ast::{
    AssignOp, BinaryOp, ExprKind, ItemKind, Kind, LitKind, MemberKind, Node, Number, PartKind,
    PatKind, PatPropKind, PropKind, PropNameKind, Span, StmtKind, UnaryOp, VarDeclKind,
};
use destructuring::destructuring::{destructuring, Destructuring};
use destructuring::hygiene::{Helpers, Refusal, Session};
use destructuring::visitor::has_destruturing;

// Trees are written with the functions below and read with `show`, which prints them as source.
// A name is followed by `#` and its context, unless that is the empty one.

fn sp(ctxt: u32) -> Span {
    Span { lo: 0, hi: 0, ctxt }
}

fn leaf(kind: Kind, text: &str) -> Node {
    Node { kind, text: text.to_owned(), span: sp(0), children: vec![] }
}

fn node(kind: Kind, children: Vec<Node>) -> Node {
    Node { kind, text: String::new(), span: sp(0), children }
}

fn expr(kind: ExprKind, children: Vec<Node>) -> Node {
    node(Kind::Expr(kind), children)
}

fn stmt(kind: StmtKind, children: Vec<Node>) -> Node {
    node(Kind::Stmt(kind), children)
}

fn pat(kind: PatKind, children: Vec<Node>) -> Node {
    node(Kind::Pat(kind), children)
}

fn part(kind: PartKind, children: Vec<Node>) -> Node {
    node(Kind::Part(kind), children)
}

fn none() -> Node {
    leaf(Kind::Absent, "")
}

fn e(name: &str) -> Node {
    leaf(Kind::Expr(ExprKind::Ident), name)
}

fn p(name: &str) -> Node {
    leaf(Kind::Pat(PatKind::Ident), name)
}

fn num(n: u64) -> Node {
    leaf(Kind::Expr(ExprKind::Lit(LitKind::Num(Number::Int(n)))), "")
}

fn member(object: Node, property: Node, computed: bool) -> Node {
    expr(ExprKind::Member { computed }, vec![object, property])
}

fn call(callee: Node, args: Vec<Node>) -> Node {
    let mut children = vec![callee];
    children.extend(args);
    expr(ExprKind::Call, children)
}

fn array(elems: Vec<Node>) -> Node {
    pat(PatKind::Array, elems)
}

fn rest(arg: Node) -> Node {
    pat(PatKind::Rest { dot3: sp(0) }, vec![arg])
}

fn default(left: Node, value: Node) -> Node {
    pat(PatKind::Assign, vec![left, value])
}

fn object(props: Vec<Node>) -> Node {
    pat(PatKind::Object, props)
}

fn key_value(key: Node, value: Node) -> Node {
    node(Kind::PatProp(PatPropKind::KeyValue), vec![key, value])
}

fn shorthand(name: &str, value: Node) -> Node {
    node(Kind::PatProp(PatPropKind::Assign), vec![leaf(Kind::Part(PartKind::Ident), name), value])
}

fn key(name: &str) -> Node {
    leaf(Kind::PropName(PropNameKind::Ident), name)
}

fn decl(name: Node, init: Node) -> Node {
    part(PartKind::Declarator { definite: false }, vec![name, init])
}

fn var(kind: VarDeclKind, decls: Vec<Node>) -> Node {
    stmt(StmtKind::VarDecl { kind, declare: false }, decls)
}

fn let_(name: Node, init: Node) -> Node {
    var(VarDeclKind::Let, vec![decl(name, init)])
}

fn assign(left: Node, right: Node) -> Node {
    expr(ExprKind::Assign(AssignOp::Assign), vec![left, right])
}

fn run_expr(e: Node) -> Node {
    stmt(StmtKind::Expr, vec![e])
}

fn block(stmts: Vec<Node>) -> Node {
    stmt(StmtKind::Block, stmts)
}

fn params(ps: Vec<Node>) -> Node {
    part(PartKind::Params, ps)
}

fn function(ps: Vec<Node>, body: Node) -> Node {
    part(
        PartKind::Function { is_async: false, is_generator: false },
        vec![params(ps), part(PartKind::Decorators, vec![]), body],
    )
}

fn fn_decl(name: &str, ps: Vec<Node>, body: Node) -> Node {
    stmt(
        StmtKind::FnDecl { declare: false },
        vec![leaf(Kind::Part(PartKind::Ident), name), function(ps, body)],
    )
}

fn fn_expr(ps: Vec<Node>, body: Node) -> Node {
    expr(ExprKind::Fn, vec![none(), function(ps, body)])
}

fn arrow(ps: Vec<Node>, body: Node) -> Node {
    expr(ExprKind::Arrow { is_async: false, is_generator: false }, vec![params(ps), body])
}

fn script(stmts: Vec<Node>) -> Node {
    node(Kind::Script, stmts)
}

fn join(nodes: &[Node], sep: &str) -> String {
    let parts: Vec<String> = nodes.iter().map(show).collect();
    parts.join(sep)
}

fn name(n: &Node) -> String {
    if n.span.ctxt == 0 {
        n.text.clone()
    } else {
        format!("{}#{}", n.text, n.span.ctxt)
    }
}

fn show(n: &Node) -> String {
    let c = &n.children;
    match n.kind {
        Kind::Absent => String::new(),
        Kind::Module | Kind::Script => join(c, " "),
        Kind::Expr(k) => match k {
            ExprKind::Ident => name(n),
            ExprKind::Lit(LitKind::Num(Number::Int(i))) => format!("{}", i),
            ExprKind::Lit(LitKind::Num(Number::Source)) => n.text.clone(),
            ExprKind::Lit(LitKind::Str { .. }) => format!("\"{}\"", n.text),
            ExprKind::Lit(LitKind::Null) => "null".to_owned(),
            ExprKind::Member { computed: true } => format!("{}[{}]", show(&c[0]), show(&c[1])),
            ExprKind::Member { computed: false } => format!("{}.{}", show(&c[0]), show(&c[1])),
            ExprKind::Call => format!("{}({})", show(&c[0]), join(&c[1..], ", ")),
            ExprKind::New { .. } => format!("new {}({})", show(&c[0]), join(&c[1..], ", ")),
            ExprKind::Cond => {
                format!("({} ? {} : {})", show(&c[0]), show(&c[1]), show(&c[2]))
            }
            ExprKind::Bin(BinaryOp::EqEqEq) => format!("{} === {}", show(&c[0]), show(&c[1])),
            ExprKind::Unary(UnaryOp::Void) => format!("void {}", show(&c[0])),
            ExprKind::Assign(_) => format!("{} = {}", show(&c[0]), show(&c[1])),
            ExprKind::Sequence => format!("({})", join(c, ", ")),
            ExprKind::Paren => format!("({})", show(&c[0])),
            ExprKind::Array => format!("[{}]", join(c, ", ")),
            ExprKind::Object => format!("{{{}}}", join(c, ", ")),
            ExprKind::Fn => format!("function {}", show(&c[1])),
            ExprKind::Arrow { .. } => format!("{} => {}", show(&c[0]), show(&c[1])),
            ExprKind::Class => format!("class {{{}}}", join(&c[2..], " ")),
            ExprKind::JSXEmpty => "<jsx>".to_owned(),
            other => panic!("{:?}", other),
        },
        Kind::Pat(k) => match k {
            PatKind::Ident => name(n),
            PatKind::Array => format!("[{}]", join(c, ", ")),
            PatKind::Rest { .. } => format!("...{}", show(&c[0])),
            PatKind::Object => format!("{{{}}}", join(c, ", ")),
            PatKind::Assign => format!("{} = {}", show(&c[0]), show(&c[1])),
            PatKind::Expr => format!("<{}>", show(&c[0])),
        },
        Kind::PatProp(PatPropKind::KeyValue) => format!("{}: {}", show(&c[0]), show(&c[1])),
        Kind::PatProp(PatPropKind::Assign) => format!("{} = {}", name(&c[0]), show(&c[1])),
        Kind::PatProp(PatPropKind::Rest) => format!("...{}", show(&c[0])),
        Kind::PropName(PropNameKind::Computed) => format!("[{}]", show(&c[0])),
        Kind::PropName(_) => n.text.clone(),
        Kind::Stmt(k) => match k {
            StmtKind::Block => format!("{{ {} }}", join(c, " ")),
            StmtKind::Expr => format!("{};", show(&c[0])),
            StmtKind::Return => format!("return {};", show(&c[0])),
            StmtKind::VarDecl { kind, .. } => {
                let word = match kind {
                    VarDeclKind::Var => "var",
                    VarDeclKind::Let => "let",
                    VarDeclKind::Const => "const",
                };
                format!("{} {};", word, join(c, ", "))
            }
            StmtKind::FnDecl { .. } => format!("function {}{}", c[0].text, show(&c[1])),
            StmtKind::ForOf { .. } => {
                format!("for ({} of {}) {}", show(&c[0]), show(&c[1]), show(&c[2]))
            }
            StmtKind::ForIn => {
                format!("for ({} in {}) {}", show(&c[0]), show(&c[1]), show(&c[2]))
            }
            StmtKind::If => format!("if ({}) {}", show(&c[0]), show(&c[1])),
            StmtKind::Try => format!("try {} {}", show(&c[0]), show(&c[1])),
            other => panic!("{:?}", other),
        },
        Kind::Part(k) => match k {
            PartKind::Ident => name(n),
            PartKind::Declarator { .. } => {
                if let Kind::Absent = c[1].kind {
                    show(&c[0])
                } else {
                    format!("{} = {}", show(&c[0]), show(&c[1]))
                }
            }
            PartKind::Params => format!("({})", join(c, ", ")),
            PartKind::Function { .. } => format!("{} {}", show(&c[0]), show(&c[2])),
            PartKind::Catch => format!("catch ({}) {}", show(&c[0]), show(&c[1])),
            other => panic!("{:?}", other),
        },
        Kind::Prop(PropKind::KeyValue) => format!("{}: {}", show(&c[0]), show(&c[1])),
        Kind::Prop(PropKind::Setter) => {
            format!("set {}({}) {}", show(&c[0]), show(&c[1]), show(&c[2]))
        }
        Kind::Member(MemberKind::Constructor) => {
            format!("{}{} {}", show(&c[0]), show(&c[1]), show(&c[2]))
        }
        Kind::Item(ItemKind::ExportDecl) => format!("export {}", show(&c[0])),
        other => panic!("{:?}", other),
    }
}

fn pass() -> Destructuring {
    destructuring(Session::new())
}

fn lower(stmts: Vec<Node>) -> String {
    match pass().try_fold(script(stmts)) {
        Ok(n) => show(&n),
        Err(refusal) => panic!("{:?}", refusal),
    }
}

fn refusal(stmts: Vec<Node>) -> Refusal {
    match pass().try_fold(script(stmts)) {
        Ok(n) => panic!("{}", show(&n)),
        Err(refusal) => refusal,
    }
}

fn checked(name: &str, object: &str, helper: u32) -> String {
    let error = "new TypeError(\"Cannot destructure 'undefined' or 'null'\")";
    format!("{} = ({} ? {} : _throw#{}({}))", name, object, object, helper, error)
}

#[test]
fn object_declaration() {
    // let {x, y} = obj;
    let out = lower(vec![let_(object(vec![shorthand("x", none()), shorthand("y", none())]), e("obj"))]);
    assert_eq!(out, "let _obj#1 = obj, x = _obj#1.x, y = _obj#1.y;");
}

#[test]
fn object_declaration_of_a_value_without_a_name() {
    // let {x, y} = f();
    let pattern = object(vec![shorthand("x", none()), shorthand("y", none())]);
    let out = lower(vec![let_(pattern, call(e("f"), vec![]))]);
    assert_eq!(
        out,
        format!("let ref#1 = f(), {}, x = ref#3.x, y = ref#3.y;", checked("ref#3", "ref#1", 2))
    );
}

#[test]
fn array_declaration() {
    // let [a, b, ...rest] = arr;
    let out = lower(vec![let_(array(vec![p("a"), p("b"), rest(p("rest"))]), e("arr"))]);
    assert_eq!(
        out,
        "let _arr#1 = arr, _arr2#3 = _toArray#2(_arr#1), a = _arr2#3[0], b = _arr2#3[1], \
         rest = _arr2#3.slice(2);"
    );
}

#[test]
fn array_declaration_without_a_rest() {
    // let [a, b] = arr;
    let out = lower(vec![let_(array(vec![p("a"), p("b")]), e("arr"))]);
    assert_eq!(out, "let a = arr[0], b = arr[1];");
}

#[test]
fn array_declaration_of_the_rest_of_a_value_without_a_name() {
    // let [a, ...b] = f();
    let out = lower(vec![let_(array(vec![p("a"), rest(p("b"))]), call(e("f"), vec![]))]);
    assert_eq!(out, "let ref#1 = f(), a = ref#1[0], b = ref#1.slice(1);");
}

#[test]
fn an_object_declaration_that_reads_nothing_is_checked() {
    // let {} = obj; let {} = [];
    let out = lower(vec![let_(object(vec![]), e("obj"))]);
    assert_eq!(out, format!("let {};", checked("ref#2", "obj", 1)));
    let out = lower(vec![let_(object(vec![]), expr(ExprKind::Array, vec![]))]);
    assert_eq!(out, "let ref#1 = [];");
}

#[test]
fn array_declaration_with_holes() {
    // const [, a, , b] = f();
    let pattern = array(vec![none(), p("a"), none(), p("b")]);
    let out = lower(vec![var(VarDeclKind::Const, vec![decl(pattern, call(e("f"), vec![]))])]);
    assert_eq!(out, "const ref#1 = f(), a = ref#1[1], b = ref#1[3];");
}

#[test]
fn name_of_a_member() {
    // let [x] = a.b; let [y] = a[b]; let [z] = a[0];
    let out = lower(vec![
        let_(array(vec![p("x")]), member(e("a"), e("b"), false)),
        let_(array(vec![p("y")]), member(e("a"), e("b"), true)),
        let_(array(vec![p("z")]), member(e("a"), num(0), true)),
    ]);
    assert_eq!(
        out,
        "let _a$b#1 = a.b, x = _a$b#1[0]; let _a$b#2 = a[b], y = _a$b#2[0]; \
         let ref#3 = a[0], z = ref#3[0];"
    );
}

#[test]
fn nested_array_declaration() {
    // let [[a], b] = c;
    let out = lower(vec![let_(array(vec![array(vec![p("a")]), p("b")]), e("c"))]);
    assert_eq!(out, "let ref#1 = c[0], a = ref#1[0], b = c[1];");
}

#[test]
fn default_values_in_an_array_declaration() {
    // let [a = 1] = b;
    let out = lower(vec![let_(array(vec![default(p("a"), num(1))]), e("b"))]);
    assert_eq!(out, "let tmp#1 = b[0], a = (tmp#1 === void 0 ? 1 : tmp#1);");
}

#[test]
fn default_value_of_a_whole_pattern() {
    // let [[a] = []] = b;
    let inner = default(array(vec![p("a")]), expr(ExprKind::Array, vec![]));
    let out = lower(vec![let_(array(vec![inner]), e("b"))]);
    assert_eq!(
        out,
        "let tmp#1 = b[0], ref#2 = (tmp#1 === void 0 ? [] : tmp#1), a = ref#2[0];"
    );
}

#[test]
fn keys_in_an_object_declaration() {
    // let {a: x, "b": y, 3: z, [k]: w} = {};
    let string = leaf(Kind::PropName(PropNameKind::Str { has_escape: false }), "b");
    let number = leaf(Kind::PropName(PropNameKind::Num(Number::Int(3))), "3");
    let computed = node(Kind::PropName(PropNameKind::Computed), vec![e("k")]);
    let pattern = object(vec![
        key_value(key("a"), p("x")),
        key_value(string, p("y")),
        key_value(number, p("z")),
        key_value(computed, p("w")),
    ]);
    let out = lower(vec![let_(pattern, expr(ExprKind::Object, vec![]))]);
    assert_eq!(
        out,
        "let ref#1 = {}, x = ref#1.a, y = ref#1[\"b\"], z = ref#1[3], w = ref#1.k;"
    );
}

#[test]
fn default_value_in_an_object_declaration() {
    // let {a = 1} = {};
    let pattern = object(vec![shorthand("a", num(1))]);
    let out = lower(vec![let_(pattern, expr(ExprKind::Object, vec![]))]);
    assert_eq!(
        out,
        "let ref#1 = {}, _ref$a#2 = ref#1.a, a = (_ref$a#2 === void 0 ? 1 : _ref$a#2);"
    );
}

#[test]
fn nested_object_declaration() {
    // let {a: {b}} = c;
    let pattern = object(vec![key_value(key("a"), object(vec![shorthand("b", none())]))]);
    let out = lower(vec![let_(pattern, e("c"))]);
    assert_eq!(
        out,
        format!(
            "let _c#1 = c, __c$a#2 = _c#1.a, {}, b = ref#4.b;",
            checked("ref#4", "__c$a#2", 3)
        )
    );
}

#[test]
fn declarations_around_a_pattern_stay() {
    // let a = 1, [b] = c, d;
    let out = lower(vec![var(
        VarDeclKind::Let,
        vec![decl(p("a"), num(1)), decl(array(vec![p("b")]), e("c")), decl(p("d"), none())],
    )]);
    assert_eq!(out, "let a = 1, b = c[0], d;");
}

#[test]
fn the_helpers_are_remembered() {
    let helpers = |pattern: Node, init: Node| {
        let mut run = pass();
        assert_eq!(run.session.helpers(), Helpers { mark: 1, throw: false, to_array: false });
        assert!(run.try_fold(script(vec![let_(pattern, init)])).is_ok());
        run.session.helpers()
    };
    let used = |throw: bool, to_array: bool| Helpers { mark: 1, throw, to_array };
    let property = || object(vec![shorthand("x", none())]);
    let all = || array(vec![rest(p("x"))]);
    assert_eq!(helpers(property(), call(e("f"), vec![])), used(true, false));
    assert_eq!(helpers(property(), e("a")), used(false, false));
    assert_eq!(helpers(object(vec![]), e("a")), used(true, false));
    assert_eq!(helpers(all(), e("a")), used(false, true));
    assert_eq!(helpers(all(), call(e("f"), vec![])), used(false, false));
    assert_eq!(helpers(array(vec![p("x")]), e("a")), used(false, false));
}

#[test]
fn the_helpers_share_a_context() {
    // let [...a] = b, {c} = f(), [...d] = g;
    let out = lower(vec![var(
        VarDeclKind::Let,
        vec![
            decl(array(vec![rest(p("a"))]), e("b")),
            decl(object(vec![shorthand("c", none())]), call(e("f"), vec![])),
            decl(array(vec![rest(p("d"))]), e("g")),
        ],
    )]);
    assert_eq!(
        out,
        format!(
            "let _b#1 = b, _b2#3 = _toArray#2(_b#1), a = _b2#3.slice(0), ref#4 = f(), {}, \
             c = ref#5.c, _g#6 = g, _g2#7 = _toArray#2(_g#6), d = _g2#7.slice(0);",
            checked("ref#5", "ref#4", 2)
        )
    );
}

#[test]
fn loop_over_a_pattern() {
    // for (let [k, v] of m) { f(k); }
    let head = let_(array(vec![p("k"), p("v")]), none());
    let body = block(vec![run_expr(call(e("f"), vec![e("k")]))]);
    let out = lower(vec![stmt(StmtKind::ForOf { is_await: false }, vec![head, e("m"), body])]);
    assert_eq!(out, "for (let ref#1; of m) { let k = ref#1[0], v = ref#1[1]; f(k); }");
}

#[test]
fn loop_over_keys_without_a_block() {
    // for (const [k] in m) f(k);
    let head = var(VarDeclKind::Const, vec![decl(array(vec![p("k")]), none())]);
    let body = run_expr(call(e("f"), vec![e("k")]));
    let out = lower(vec![stmt(StmtKind::ForIn, vec![head, e("m"), body])]);
    assert_eq!(out, "for (const ref#1; in m) { let k = ref#1[0]; f(k); }");
}

#[test]
fn loop_over_a_name_stays() {
    // for (let k of m) {} for (k of m) {}
    let stmts = vec![
        stmt(StmtKind::ForOf { is_await: true }, vec![let_(p("k"), none()), e("m"), block(vec![])]),
        stmt(StmtKind::ForIn, vec![p("k"), e("m"), block(vec![])]),
        let_(array(vec![]), e("a")),
    ];
    assert_eq!(lower(stmts), "for (let k; of m) {  } for (k in m) {  } let ;");
}

#[test]
fn declarations_in_the_body_of_a_loop_stay() {
    // for (let k of m) { let [a] = k; }
    let body = block(vec![let_(array(vec![p("a")]), e("k"))]);
    let out =
        lower(vec![stmt(StmtKind::ForOf { is_await: false }, vec![let_(p("k"), none()), e("m"), body])]);
    assert_eq!(out, "for (let k; of m) { let [a] = k; }");
}

#[test]
fn parameters_of_a_function() {
    // function f(a, [b], {c}, d = 1) { g(); }
    let ps = vec![
        p("a"),
        array(vec![p("b")]),
        object(vec![shorthand("c", none())]),
        default(p("d"), num(1)),
    ];
    let body = block(vec![run_expr(call(e("g"), vec![]))]);
    let out = lower(vec![fn_decl("f", ps, body)]);
    assert_eq!(
        out,
        "function f(a, ref#1, ref#2, ref#3) { \
         let b = ref#1[0], \
         ref#5 = (ref#2 ? ref#2 : _throw#4(new TypeError(\"Cannot destructure 'undefined' or 'null'\"))), \
         c = ref#5.c, \
         d = (ref#3 === void 0 ? 1 : ref#3); g(); }"
    );
}

#[test]
fn a_rest_parameter_is_dropped() {
    // function f([a], ...b) {}
    let out = lower(vec![fn_decl("f", vec![array(vec![p("a")]), rest(p("b"))], block(vec![]))]);
    assert_eq!(out, "function f(ref#1) { let a = ref#1[0]; }");
}

#[test]
fn a_function_without_a_body_stays() {
    let out = lower(vec![fn_decl("f", vec![array(vec![p("a")])], none())]);
    assert_eq!(out, "function f([a]) ");
}

#[test]
fn parameters_of_an_arrow_function() {
    // g(([a]) => a); g(([a]) => { a; }); g(a => a);
    let out = lower(vec![
        run_expr(call(e("g"), vec![arrow(vec![array(vec![p("a")])], e("a"))])),
        run_expr(call(e("g"), vec![arrow(vec![array(vec![p("a")])], block(vec![run_expr(e("a"))]))])),
        run_expr(call(e("g"), vec![arrow(vec![p("a")], e("a"))])),
    ]);
    assert_eq!(
        out,
        "g((ref#1) => { let a = ref#1[0]; return a; }); \
         g((ref#2) => { let a = ref#2[0]; a; }); \
         g((a) => a);"
    );
}

#[test]
fn parameters_of_a_constructor() {
    // g(class { constructor([a]) {} });
    let constructor = node(
        Kind::Member(MemberKind::Constructor),
        vec![key("constructor"), params(vec![array(vec![p("a")])]), block(vec![])],
    );
    let class = expr(ExprKind::Class, vec![none(), none(), constructor]);
    let out = lower(vec![run_expr(call(e("g"), vec![class]))]);
    assert_eq!(out, "g(class {constructor(ref#1) { let a = ref#1[0]; }});");
}

#[test]
fn parameter_of_a_setter() {
    // g({set x([a]) {}});
    let setter = node(
        Kind::Prop(PropKind::Setter),
        vec![key("x"), array(vec![p("a")]), block(vec![])],
    );
    let out = lower(vec![run_expr(call(e("g"), vec![expr(ExprKind::Object, vec![setter])]))]);
    assert_eq!(out, "g({set x(ref#1) { let a = ref#1[0]; }});");
}

#[test]
fn parameter_of_a_catch_clause() {
    // try {} catch ([a]) { a; }
    let catch = |param: Node| {
        stmt(
            StmtKind::Try,
            vec![block(vec![]), part(PartKind::Catch, vec![param, block(vec![run_expr(e("a"))])])],
        )
    };
    assert_eq!(
        lower(vec![catch(array(vec![p("a")]))]),
        "try {  } catch (ref#1) { let a = ref#1[0]; a; }"
    );
    assert_eq!(lower(vec![catch(rest(p("a")))]), "try {  } catch () { a; }");
    let out = lower(vec![catch(none()), let_(array(vec![]), e("b"))]);
    assert_eq!(out, "try {  } catch () { a; } let ;");
}

#[test]
fn default_value_under_a_generated_name() {
    // let a = 1 with the name of the value generated before
    let mut value = e("v");
    value.span = sp(7);
    let out = lower(vec![let_(default(p("a"), num(1)), value)]);
    assert_eq!(out, "let a = (v#7 === void 0 ? 1 : v#7);");
    let out = lower(vec![let_(default(p("a"), num(1)), e("v"))]);
    assert_eq!(out, "let tmp#1 = v, a = (tmp#1 === void 0 ? 1 : tmp#1);");
}

#[test]
fn array_assignment() {
    // [a, , b] = c;
    let out = lower(vec![run_expr(assign(array(vec![p("a"), none(), p("b")]), e("c")))]);
    assert_eq!(out, "var ref#1; (ref#1 = c, a = ref#1[0], b = ref#1[2], ref#1);");
}

#[test]
fn array_assignment_with_a_default_value() {
    // [a = 1] = c;
    let out = lower(vec![run_expr(assign(array(vec![default(p("a"), num(1))]), e("c")))]);
    assert_eq!(
        out,
        "var ref#1, ref#2; (ref#1 = c, ref#2 = ref#1[0], \
         a = (ref#2 === void 0 ? 1 : ref#2), ref#1);"
    );
}

#[test]
fn array_assignment_of_the_rest() {
    // [a, ...b] = c;
    let out = lower(vec![run_expr(assign(array(vec![p("a"), rest(p("b"))]), e("c")))]);
    assert_eq!(out, "var ref#1; (ref#1 = c, a = ref#1[0], b = ref#1.slice(1), ref#1);");
}

#[test]
fn nested_array_assignment() {
    // [[a]] = c;
    let out = lower(vec![run_expr(assign(array(vec![array(vec![p("a")])]), e("c")))]);
    assert_eq!(
        out,
        "var ref#1, ref#2; (ref#1 = c, (ref#2 = ref#1[0], a = ref#2[0], ref#2), ref#1);"
    );
}

#[test]
fn array_assignment_to_a_member() {
    // [a.b] = c; a.b = c;
    let target = || pat(PatKind::Expr, vec![member(e("a"), e("b"), false)]);
    let out = lower(vec![
        run_expr(assign(array(vec![target()]), e("c"))),
        run_expr(assign(target(), e("c"))),
    ]);
    assert_eq!(out, "var ref#1; (ref#1 = c, a.b = ref#1[0], ref#1); a.b = c;");
}

#[test]
fn object_assignment() {
    // ({a, b: c, d = 1} = f);
    let pattern = object(vec![
        shorthand("a", none()),
        key_value(key("b"), p("c")),
        shorthand("d", num(1)),
    ]);
    let out = lower(vec![run_expr(assign(pattern, e("f")))]);
    assert_eq!(
        out,
        "var ref#1, ref#2; (ref#1 = f, a = ref#1.a, c = ref#1.b, ref#2 = ref#1.d, \
         d = (ref#2 === void 0 ? 1 : ref#2), ref#1);"
    );
}

#[test]
fn a_pattern_below_an_object_assignment_stays() {
    // ({a: [b]} = c);
    let pattern = object(vec![key_value(key("a"), array(vec![p("b")]))]);
    let out = lower(vec![run_expr(assign(pattern, e("c")))]);
    assert_eq!(out, "var ref#1; (ref#1 = c, [b] = ref#1.a, ref#1);");
}

#[test]
fn assignments_are_declared_before_their_statement() {
    // f(); if (g) { [a] = b; } export let x = ([c] = d);
    let inside = stmt(
        StmtKind::If,
        vec![e("g"), block(vec![run_expr(assign(array(vec![p("a")]), e("b")))]), none()],
    );
    let export = node(
        Kind::Item(ItemKind::ExportDecl),
        vec![let_(p("x"), assign(array(vec![p("c")]), e("d")))],
    );
    let module = node(Kind::Module, vec![run_expr(call(e("f"), vec![])), inside, export]);
    let out = pass().try_fold(module).unwrap();
    assert_eq!(
        show(&out),
        "f(); if (g) { var ref#1; (ref#1 = b, a = ref#1[0], ref#1); } \
         var ref#2; export let x = (ref#2 = d, c = ref#2[0], ref#2);"
    );
}

#[test]
fn functions_and_objects_in_expressions() {
    // g(function ([a]) { [b] = a; }); g({x: function ([a]) {}});
    let body = block(vec![run_expr(assign(array(vec![p("b")]), e("a")))]);
    let prop = node(
        Kind::Prop(PropKind::KeyValue),
        vec![key("x"), fn_expr(vec![array(vec![p("a")])], block(vec![]))],
    );
    let out = lower(vec![
        run_expr(call(e("g"), vec![fn_expr(vec![array(vec![p("a")])], body)])),
        run_expr(call(e("g"), vec![expr(ExprKind::Object, vec![prop])])),
    ]);
    assert_eq!(
        out,
        "g(function (ref#2) { let a = ref#2[0]; var ref#1; (ref#1 = a, b = ref#1[0], ref#1); }); \
         g({x: function (ref#3) { let a = ref#3[0]; }});"
    );
}

#[test]
fn an_assignment_directly_in_an_object_literal_stays() {
    // g({x: ([a] = b)});
    let prop = node(
        Kind::Prop(PropKind::KeyValue),
        vec![key("x"), assign(array(vec![p("a")]), e("b"))],
    );
    let out = lower(vec![run_expr(call(e("g"), vec![expr(ExprKind::Object, vec![prop])]))]);
    assert_eq!(out, "g({x: [a] = b});");
}

#[test]
fn other_assignments_stay() {
    // a += 1; b = c; with a pattern elsewhere
    let add = expr(ExprKind::Assign(AssignOp::AddAssign), vec![p("a"), num(1)]);
    let out = pass()
        .try_fold(script(vec![
            run_expr(add),
            run_expr(assign(p("b"), e("c"))),
            run_expr(assign(e("d"), e("c"))),
            let_(array(vec![]), e("x")),
        ]))
        .unwrap();
    assert_eq!(show(&out), "a = 1; b = c; d = c; let ;");
    assert_eq!(
        out.children[0].children[0].kind,
        Kind::Expr(ExprKind::Assign(AssignOp::AddAssign))
    );
}

#[test]
fn positions_are_kept() {
    let mut name = p("a");
    name.span = Span { lo: 5, hi: 6, ctxt: 0 };
    let mut dots = rest(p("b"));
    dots.kind = Kind::Pat(PatKind::Rest { dot3: Span { lo: 8, hi: 11, ctxt: 0 } });
    let mut init = call(e("f"), vec![]);
    init.span = Span { lo: 20, hi: 23, ctxt: 0 };
    let out = pass().try_fold(let_(array(vec![name, dots]), init)).unwrap();
    let spans: Vec<Span> = out.children.iter().map(|d| d.span).collect();
    assert_eq!(
        spans,
        vec![
            Span { lo: 20, hi: 23, ctxt: 0 },
            Span { lo: 5, hi: 6, ctxt: 0 },
            Span { lo: 8, hi: 11, ctxt: 0 }
        ]
    );
    assert_eq!(out.children[0].children[0].span, Span { lo: 20, hi: 23, ctxt: 1 });
    let number = &out.children[2].children[1].children[1];
    assert_eq!(number.span, Span { lo: 8, hi: 11, ctxt: 0 });
}

#[test]
fn a_pattern_needs_an_initial_value() {
    assert_eq!(refusal(vec![let_(array(vec![p("a")]), none())]), Refusal::Unsupported);
    assert_eq!(refusal(vec![let_(object(vec![]), none())]), Refusal::Unsupported);
    assert_eq!(refusal(vec![let_(default(p("a"), num(1)), none())]), Refusal::Unsupported);
}

#[test]
fn an_object_rest_is_refused() {
    let pattern = || object(vec![node(Kind::PatProp(PatPropKind::Rest), vec![p("a")])]);
    assert_eq!(refusal(vec![let_(pattern(), e("b"))]), Refusal::Unsupported);
    assert_eq!(refusal(vec![run_expr(assign(pattern(), e("b")))]), Refusal::Unsupported);
}

#[test]
fn jsx_is_refused() {
    let jsx = expr(ExprKind::JSXEmpty, vec![]);
    assert_eq!(refusal(vec![let_(object(vec![]), jsx)]), Refusal::Unsupported);
    let jsx = expr(ExprKind::JSXEmpty, vec![]);
    assert_eq!(lower(vec![let_(array(vec![p("a")]), jsx)]), "let ref#1 = <jsx>, a = ref#1[0];");
}

#[test]
fn other_targets_are_refused() {
    let default_target = assign(default(p("a"), num(1)), e("b"));
    assert_eq!(refusal(vec![run_expr(default_target)]), Refusal::Unsupported);
    assert_eq!(refusal(vec![run_expr(assign(rest(p("a")), e("b")))]), Refusal::Unsupported);
    assert_eq!(refusal(vec![let_(rest(p("a")), e("b"))]), Refusal::Unsupported);
    let head = array(vec![p("a")]);
    let looped = stmt(StmtKind::ForIn, vec![head, e("m"), block(vec![])]);
    assert_eq!(refusal(vec![looped]), Refusal::Unsupported);
}

#[test]
fn law_untouched() {
    // Without a pattern nothing changes, not even what would be refused elsewhere.
    let mut run = pass();
    let body = vec![
        let_(p("a"), none()),
        run_expr(assign(p("a"), num(1))),
        fn_decl("f", vec![p("b")], block(vec![])),
    ];
    let before = show(&script(vec![
        let_(p("a"), none()),
        run_expr(assign(p("a"), num(1))),
        fn_decl("f", vec![p("b")], block(vec![])),
    ]));
    let out = run.try_fold(script(body)).unwrap();
    assert_eq!(show(&out), before);
    let next = run.session.private_ident(sp(0), "n".to_owned()).unwrap();
    assert_eq!(next.span.ctxt, 1);
}

fn sample() -> Node {
    script(vec![
        let_(object(vec![key_value(key("a"), array(vec![p("b"), rest(p("c"))]))]), e("d")),
        fn_decl(
            "f",
            vec![default(object(vec![shorthand("g", num(1))]), expr(ExprKind::Object, vec![]))],
            block(vec![run_expr(assign(array(vec![p("b"), p("c")]), e("g")))]),
        ),
    ])
}

#[test]
fn law_lowered_and_idempotent() {
    let mut run = pass();
    assert!(has_destruturing(&sample().children));
    let once = run.try_fold(sample()).unwrap();
    assert!(!has_destruturing(&once.children));
    let text = show(&once);
    let helpers = run.session.helpers();
    let twice = run.try_fold(once).unwrap();
    assert_eq!(show(&twice), text);
    assert_eq!(run.session.helpers(), helpers);
}

#[test]
fn fold_is_try_fold() {
    let folded = pass().fold(sample());
    let tried = pass().try_fold(sample()).unwrap();
    assert_eq!(show(&folded), show(&tried));
}

#[test]
fn law_bindings_and_single() {
    // let [a, {b, c: [d = 1]}, ...e] = f(), g = 2;
    let pattern = array(vec![
        p("a"),
        object(vec![
            shorthand("b", none()),
            key_value(key("c"), array(vec![default(p("d"), num(1))])),
        ]),
        rest(p("e")),
    ]);
    let decls = vec![decl(pattern, call(e("f"), vec![])), decl(p("g"), num(2))];
    let out = pass().try_fold(var(VarDeclKind::Let, decls)).unwrap();
    let mut known: Vec<String> = vec![];
    let mut new: Vec<u32> = vec![];
    for d in out.children.iter() {
        assert_eq!(d.children[0].kind, Kind::Pat(PatKind::Ident));
        if d.children[0].span.ctxt == 0 {
            known.push(d.children[0].text.clone());
        } else {
            new.push(d.children[0].span.ctxt);
        }
    }
    assert_eq!(known, vec!["a", "b", "d", "e", "g"]);
    let mut sorted = new.clone();
    sorted.sort();
    sorted.dedup();
    assert_eq!(sorted, new);
}

#[test]
fn law_params() {
    let function = function(vec![p("a"), array(vec![p("b")]), default(p("c"), num(1))], block(vec![]));
    let out = pass().try_fold(function).unwrap();
    let kinds: Vec<Kind> = out.children[0].children.iter().map(|c| c.kind).collect();
    assert_eq!(kinds, vec![Kind::Pat(PatKind::Ident); 3]);
}

#[test]
fn law_fresh_and_grown() {
    let mut session = Session::new();
    let a = session.private_ident(sp(0), "x".to_owned()).unwrap();
    let b = session.private_ident(sp(0), "x".to_owned()).unwrap();
    let c = session.private_ident(Span { lo: 1, hi: 2, ctxt: a.span.ctxt }, "y".to_owned()).unwrap();
    assert_eq!((a.sym.as_str(), a.span), ("x", sp(1)));
    assert_eq!(b.span, sp(2));
    assert_eq!((c.sym.as_str(), c.span), ("y", Span { lo: 1, hi: 2, ctxt: 3 }));
    let throw = session.throw().unwrap();
    assert_eq!((throw.sym.as_str(), throw.span), ("_throw", sp(4)));
    let again = session.throw().unwrap();
    assert_eq!(again.span, sp(4));
    let to_array = session.to_array().unwrap();
    assert_eq!((to_array.sym.as_str(), to_array.span), ("_toArray", sp(4)));
    assert_eq!(session.helpers(), Helpers { mark: 1, throw: true, to_array: true });
    let d = session.private_ident(sp(0), "z".to_owned()).unwrap();
    assert_eq!(d.span, sp(5));
}

// Walks two trees that are the same but for their contexts, and gathers which context stands for
// which.
fn pairs(a: &Node, b: &Node, found: &mut Vec<(u32, u32)>) {
    assert_eq!((a.kind, &a.text, a.span.lo, a.span.hi), (b.kind, &b.text, b.span.lo, b.span.hi));
    assert_eq!(a.children.len(), b.children.len());
    found.push((a.span.ctxt, b.span.ctxt));
    for (x, y) in a.children.iter().zip(b.children.iter()) {
        pairs(x, y, found);
    }
}

fn one_to_one(found: &[(u32, u32)]) -> bool {
    found.iter().all(|p| found.iter().all(|q| (p.0 == q.0) == (p.1 == q.1)))
}

#[test]
fn law_settled() {
    // let [a, {b}, ...c] = d;
    let pattern = array(vec![p("a"), object(vec![shorthand("b", none())]), rest(p("c"))]);
    let mut run = pass();
    let once = run.try_fold(let_(pattern, e("d"))).unwrap();
    let text = show(&once);
    let next = run.session.private_ident(sp(0), "n".to_owned()).unwrap().span.ctxt;
    let twice = run.try_fold(once).unwrap();
    assert_eq!(show(&twice), text);
    let after = run.session.private_ident(sp(0), "n".to_owned()).unwrap().span.ctxt;
    assert_eq!(after, next + 1);
}

#[test]
fn law_two_states() {
    let mut fresh = pass();
    let mut used = pass();
    for _ in 0..3 {
        used.session.private_ident(sp(0), "n".to_owned()).unwrap();
    }
    used.session.throw().unwrap();
    let a = fresh.try_fold(sample()).unwrap();
    let b = used.try_fold(sample()).unwrap();
    assert_ne!(show(&a), show(&b));
    let mut found = vec![];
    pairs(&a, &b, &mut found);
    assert!(found.contains(&(0, 0)));
    assert!(one_to_one(&found));
}

#[test]
fn law_joined() {
    // let [a] = f(function ([x]) {}), {b} = c together and one by one
    let first = || {
        let function = fn_expr(vec![array(vec![p("x")])], block(vec![]));
        decl(array(vec![p("a")]), call(e("f"), vec![function]))
    };
    let second = || {
        let function = fn_expr(vec![array(vec![p("y")])], block(vec![]));
        decl(object(vec![shorthand("b", none())]), call(e("g"), vec![function]))
    };
    let together =
        pass().try_fold(var(VarDeclKind::Let, vec![first(), second()])).unwrap();
    let mut run = pass();
    let mut apart = run.try_fold(var(VarDeclKind::Let, vec![first()])).unwrap();
    apart.children.extend(run.try_fold(var(VarDeclKind::Let, vec![second()])).unwrap().children);
    assert_ne!(show(&together), show(&apart));
    let mut found = vec![];
    pairs(&together, &apart, &mut found);
    assert!(found.contains(&(0, 0)));
    assert!(one_to_one(&found));
}

#[test]
fn law_unpacked() {
    // function ([a], b, {c}) { g(); }
    let ps = vec![array(vec![p("a")]), p("b"), object(vec![shorthand("c", none())])];
    let out = pass()
        .try_fold(function(ps, block(vec![run_expr(call(e("g"), vec![]))])))
        .unwrap();
    let names: Vec<(String, u32)> =
        out.children[0].children.iter().map(|c| (c.text.clone(), c.span.ctxt)).collect();
    assert_eq!(names, vec![("ref".to_owned(), 1), ("b".to_owned(), 0), ("ref".to_owned(), 2)]);
    // let [a] = ref#1, {c} = ref#2;
    let mut run = pass();
    let mut reference = || {
        let mut name = e("ref");
        name.span = run.session.private_ident(sp(0), "ref".to_owned()).unwrap().span;
        name
    };
    let decls = vec![
        decl(array(vec![p("a")]), reference()),
        decl(object(vec![shorthand("c", none())]), reference()),
    ];
    let first = run.try_fold(var(VarDeclKind::Let, decls)).unwrap();
    let stmts = &out.children[2].children;
    assert_eq!(show(&stmts[0]), show(&first));
    assert_eq!(show(&stmts[1]), "g();");
    assert_eq!(stmts.len(), 2);
}

#[test]
fn law_distinct() {
    // let [a] = f(), [b] = f(); and a loop over a pattern twice
    let out = lower(vec![var(
        VarDeclKind::Let,
        vec![
            decl(array(vec![p("a")]), call(e("f"), vec![])),
            decl(array(vec![p("b")]), call(e("f"), vec![])),
        ],
    )]);
    assert_eq!(out, "let ref#1 = f(), a = ref#1[0], ref#2 = f(), b = ref#2[0];");
    let over = || {
        let head = let_(array(vec![p("k")]), none());
        stmt(StmtKind::ForOf { is_await: false }, vec![head, e("m"), block(vec![])])
    };
    assert_eq!(
        lower(vec![over(), over()]),
        "for (let ref#1; of m) { let k = ref#1[0]; } for (let ref#2; of m) { let k = ref#2[0]; }"
    );
}

#[test]
fn law_bounds() {
    // Patterns and blocks that are nested deep are taken apart to the last.
    let mut pattern = p("a");
    for _ in 0..5 {
        pattern = array(vec![object(vec![key_value(key("k"), default(pattern, e("d")))])]);
    }
    let stmts = |pattern: Node| {
        let mut body = block(vec![
            let_(pattern, call(e("f"), vec![])),
            run_expr(assign(array(vec![array(vec![default(p("x"), num(1))])]), e("y"))),
        ]);
        for _ in 0..5 {
            body = block(vec![body, fn_decl("g", vec![array(vec![p("z")])], block(vec![]))]);
        }
        vec![body]
    };
    let out = pass().try_fold(script(stmts(pattern))).unwrap();
    assert!(!has_destruturing(&out.children));
}
