//! Builders of the syntax that the pass emits.
use crate::ast::{
    trees, AssignOp, BinaryOp, ExprKind, Kind, LitKind, Node, Number, PartKind, PatKind,
    PropNameKind, Span, StmtKind, Tree, UnaryOp, VarDeclKind,
};
use crate::hygiene::{Ident, Name, Refusal};
use vstd::prelude::*;

verus! {

broadcast use crate::ast::lemma_children;

/// The position of syntax that the source does not hold.
pub open spec fn dummy() -> Span {
    Span { lo: 0, hi: 0, ctxt: 0 }
}

/// The position of syntax that the source does not hold.
pub(crate) fn dummy_sp() -> (span: Span)
    ensures
        span == dummy(),
{
    Span { lo: 0, hi: 0, ctxt: 0 }
}

/// A piece of syntax without text.
pub open spec fn inner(kind: Kind, span: Span, children: Seq<Tree>) -> Tree {
    Tree { kind, text: Seq::empty(), span, children }
}

/// A piece of syntax without children.
pub open spec fn leaf(kind: Kind, span: Span, text: Seq<char>) -> Tree {
    Tree { kind, text, span, children: Seq::empty() }
}

/// Makes a piece of syntax without text.
pub(crate) fn make_inner(kind: Kind, span: Span, children: Vec<Node>) -> (node: Node)
    ensures
        node@ == inner(kind, span, trees(children@)),
{
    Node { kind, text: String::new(), span, children }
}

/// Makes a piece of syntax without children.
pub(crate) fn make_leaf(kind: Kind, span: Span, text: String) -> (node: Node)
    ensures
        node@ == leaf(kind, span, text@),
{
    let node = Node { kind, text, span, children: Vec::new() };
    assert(node@.children =~= Seq::empty());
    node
}

/// Makes a piece of syntax without text and with one child.
pub(crate) fn make_unary(kind: Kind, span: Span, a: Node) -> (node: Node)
    ensures
        node@ == inner(kind, span, seq![a@]),
{
    let mut children: Vec<Node> = Vec::new();
    children.push(a);
    assert(trees(children@) =~= seq![a@]);
    make_inner(kind, span, children)
}

/// Makes a piece of syntax without text and with two children.
pub(crate) fn make_binary(kind: Kind, span: Span, a: Node, b: Node) -> (node: Node)
    ensures
        node@ == inner(kind, span, seq![a@, b@]),
{
    let mut children: Vec<Node> = Vec::new();
    children.push(a);
    children.push(b);
    assert(trees(children@) =~= seq![a@, b@]);
    make_inner(kind, span, children)
}

/// Makes a piece of syntax without text and with three children.
pub(crate) fn make_ternary(kind: Kind, span: Span, a: Node, b: Node, c: Node) -> (node: Node)
    ensures
        node@ == inner(kind, span, seq![a@, b@, c@]),
{
    let mut children: Vec<Node> = Vec::new();
    children.push(a);
    children.push(b);
    children.push(c);
    assert(trees(children@) =~= seq![a@, b@, c@]);
    make_inner(kind, span, children)
}

/// Makes a piece of syntax with two children.
pub(crate) fn make_node2(kind: Kind, text: String, span: Span, a: Node, b: Node) -> (node: Node)
    ensures
        node@ == (Tree { kind, text: text@, span, children: seq![a@, b@] }),
{
    let mut children: Vec<Node> = Vec::new();
    children.push(a);
    children.push(b);
    assert(trees(children@) =~= seq![a@, b@]);
    Node { kind, text, span, children }
}

/// Makes a piece of syntax with three children.
pub(crate) fn make_node3(
    kind: Kind,
    text: String,
    span: Span,
    a: Node,
    b: Node,
    c: Node,
) -> (node: Node)
    ensures
        node@ == (Tree { kind, text: text@, span, children: seq![a@, b@, c@] }),
{
    let mut children: Vec<Node> = Vec::new();
    children.push(a);
    children.push(b);
    children.push(c);
    assert(trees(children@) =~= seq![a@, b@, c@]);
    Node { kind, text, span, children }
}

/// Whether this is the given name as an expression.
pub open spec fn is_name(t: Tree, name: Name) -> bool {
    t.kind == Kind::Expr(ExprKind::Ident) && t.text == name.text && t.span == name.span
        && t.children.len() == 0
}

/// Behind a dot stands a name, and what is no name stands in brackets, as it is.
pub proof fn law_property(object: Name, property: Tree)
    ensures
        ({
            let t = ref_prop_expr(object, property);
            &&& t.kind is Expr && t.kind->Expr_0 is Member
            &&& t.kind == Kind::Expr(ExprKind::Member { computed: false }) <==> property.kind
                == Kind::Expr(ExprKind::Ident)
            &&& t.children.len() == 2
            &&& is_name(t.children[0], object)
            &&& t.children[1] == property
        }),
{
}

/// A part that is not there.
pub open spec fn absent() -> Tree {
    leaf(Kind::Absent, dummy(), Seq::empty())
}

/// Makes a part that is not there.
pub(crate) fn make_absent() -> (node: Node)
    ensures
        node@ == absent(),
{
    make_leaf(Kind::Absent, dummy_sp(), String::new())
}

/// A name as an expression.
pub open spec fn ident_expr(name: Name) -> Tree {
    leaf(Kind::Expr(ExprKind::Ident), name.span, name.text)
}

/// Makes a name as an expression.
pub(crate) fn make_ident_expr(ident: &Ident) -> (node: Node)
    ensures
        node@ == ident_expr(ident@),
{
    make_leaf(Kind::Expr(ExprKind::Ident), ident.span, ident.sym.clone())
}

/// A name as a pattern.
pub open spec fn ident_pat(name: Name) -> Tree {
    leaf(Kind::Pat(PatKind::Ident), name.span, name.text)
}

/// Makes a name as a pattern.
pub(crate) fn make_ident_pat(ident: &Ident) -> (node: Node)
    ensures
        node@ == ident_pat(ident@),
{
    make_leaf(Kind::Pat(PatKind::Ident), ident.span, ident.sym.clone())
}

/// A name that is spelled as given, without a position or a context.
pub open spec fn quoted(text: Seq<char>) -> Name {
    Name { text, span: dummy() }
}

/// Makes a name that is spelled as given, without a position or a context.
pub(crate) fn quote_ident(text: &str) -> (ident: Ident)
    ensures
        ident@ == quoted(text@),
{
    Ident { sym: text.to_owned(), span: dummy_sp() }
}

/// An integer literal.
pub open spec fn number(value: int, span: Span) -> Tree {
    leaf(Kind::Expr(ExprKind::Lit(LitKind::Num(Number::Int(value as u64)))), span, Seq::empty())
}

/// Makes an integer literal.
pub(crate) fn make_number(value: usize, span: Span) -> (node: Node)
    ensures
        node@ == number(value as int, span),
{
    make_leaf(
        Kind::Expr(ExprKind::Lit(LitKind::Num(Number::Int(value as u64)))),
        span,
        String::new(),
    )
}

/// `object.property` or `object[property]`.
pub open spec fn member(object: Name, property: Tree, computed: bool) -> Tree {
    inner(Kind::Expr(ExprKind::Member { computed }), dummy(), seq![ident_expr(object), property])
}

/// Makes `object.property` or `object[property]`.
pub(crate) fn make_member(object: &Ident, property: Node, computed: bool) -> (node: Node)
    ensures
        node@ == member(object@, property@, computed),
{
    make_binary(
        Kind::Expr(ExprKind::Member { computed }),
        dummy_sp(),
        make_ident_expr(object),
        property,
    )
}

/// `object[index]`.
pub open spec fn ref_idx_expr(object: Name, index: int) -> Tree {
    member(object, number(index, dummy()), true)
}

/// Makes `object[index]`.
pub fn make_ref_idx_expr(ref_ident: &Ident, i: usize) -> (node: Node)
    ensures
        node@ == ref_idx_expr(ref_ident@, i as int),
        node@.kind == Kind::Expr(ExprKind::Member { computed: true }),
        node@.children.len() == 2,
        is_name(node@.children[0], ref_ident@),
        node@.children[1].kind == Kind::Expr(ExprKind::Lit(LitKind::Num(Number::Int(i as u64)))),
{
    make_member(ref_ident, make_number(i, dummy_sp()), true)
}

/// `object.property` where the property is a name, `object[property]` where it is not.
pub open spec fn ref_prop_expr(object: Name, property: Tree) -> Tree {
    member(object, property, property.kind != Kind::Expr(ExprKind::Ident))
}

/// Makes `object.property` where the property is a name, `object[property]` where it is not.
pub fn make_ref_prop_expr(ref_ident: &Ident, prop: Node) -> (node: Node)
    ensures
        node@ == ref_prop_expr(ref_ident@, prop@),
        prop@.kind == Kind::Expr(ExprKind::Ident) ==> node@.kind == Kind::Expr(
            ExprKind::Member { computed: false },
        ),
        prop@.kind != Kind::Expr(ExprKind::Ident) ==> node@.kind == Kind::Expr(
            ExprKind::Member { computed: true },
        ),
        node@.children.len() == 2,
        is_name(node@.children[0], ref_ident@),
        node@.children[1] == prop@,
{
    let computed = match prop.kind {
        Kind::Expr(ExprKind::Ident) => false,
        _ => true,
    };
    make_member(ref_ident, prop, computed)
}

/// `object.slice(index)`, where the number stands at `span`.
pub open spec fn slice_call(object: Name, index: int, span: Span) -> Tree {
    inner(
        Kind::Expr(ExprKind::Call),
        dummy(),
        seq![member(object, ident_expr(quoted("slice"@)), false), number(index, span)],
    )
}

/// Makes `object.slice(index)`, where the number stands at `span`.
pub(crate) fn make_slice_call(ref_ident: &Ident, i: usize, span: Span) -> (node: Node)
    ensures
        node@ == slice_call(ref_ident@, i as int, span),
{
    make_binary(
        Kind::Expr(ExprKind::Call),
        dummy_sp(),
        make_member(ref_ident, make_ident_expr(&quote_ident("slice")), false),
        make_number(i, span),
    )
}

/// `tmp === void 0 ? default : tmp`.
pub open spec fn cond_expr(tmp: Name, default: Tree) -> Tree {
    inner(
        Kind::Expr(ExprKind::Cond),
        dummy(),
        seq![
            inner(
                Kind::Expr(ExprKind::Bin(BinaryOp::EqEqEq)),
                dummy(),
                seq![
                    ident_expr(tmp),
                    inner(
                        Kind::Expr(ExprKind::Unary(UnaryOp::Void)),
                        dummy(),
                        seq![number(0, dummy())],
                    ),
                ],
            ),
            default,
            ident_expr(tmp),
        ],
    )
}

/// Makes `tmp === void 0 ? def_value : tmp`.
pub fn make_cond_expr(tmp: &Ident, def_value: Node) -> (node: Node)
    ensures
        node@ == cond_expr(tmp@, def_value@),
        crate::meaning::is_default(node@),
        node@.children[1] == def_value@,
        is_name(node@.children[2], tmp@),
{
    let void = make_unary(
        Kind::Expr(ExprKind::Unary(UnaryOp::Void)),
        dummy_sp(),
        make_number(0, dummy_sp()),
    );
    let test = make_binary(
        Kind::Expr(ExprKind::Bin(BinaryOp::EqEqEq)),
        dummy_sp(),
        make_ident_expr(tmp),
        void,
    );
    make_ternary(Kind::Expr(ExprKind::Cond), dummy_sp(), test, def_value, make_ident_expr(tmp))
}

/// `object ? object : throw(new TypeError("Cannot destructure 'undefined' or 'null'"))`.
pub open spec fn non_null_expr(object: Name, throw: Name) -> Tree {
    inner(
        Kind::Expr(ExprKind::Cond),
        dummy(),
        seq![
            ident_expr(object),
            ident_expr(object),
            inner(
                Kind::Expr(ExprKind::Call),
                dummy(),
                seq![
                    ident_expr(throw),
                    inner(
                        Kind::Expr(ExprKind::New { has_args: true }),
                        dummy(),
                        seq![
                            ident_expr(quoted("TypeError"@)),
                            leaf(
                                Kind::Expr(ExprKind::Lit(LitKind::Str { has_escape: false })),
                                dummy(),
                                "Cannot destructure 'undefined' or 'null'"@,
                            ),
                        ],
                    ),
                ],
            ),
        ],
    )
}

/// Makes `object ? object : throw(new TypeError("Cannot destructure 'undefined' or 'null'"))`.
pub(crate) fn make_non_null_expr(object: &Ident, throw: &Ident) -> (node: Node)
    ensures
        node@ == non_null_expr(object@, throw@),
{
    let message = make_leaf(
        Kind::Expr(ExprKind::Lit(LitKind::Str { has_escape: false })),
        dummy_sp(),
        "Cannot destructure 'undefined' or 'null'".to_owned(),
    );
    let error = make_binary(
        Kind::Expr(ExprKind::New { has_args: true }),
        dummy_sp(),
        make_ident_expr(&quote_ident("TypeError")),
        message,
    );
    let call = make_binary(
        Kind::Expr(ExprKind::Call),
        dummy_sp(),
        make_ident_expr(throw),
        error,
    );
    make_ternary(
        Kind::Expr(ExprKind::Cond),
        dummy_sp(),
        make_ident_expr(object),
        make_ident_expr(object),
        call,
    )
}

/// `helper(object)`.
pub open spec fn helper_call(helper: Name, object: Name) -> Tree {
    inner(
        Kind::Expr(ExprKind::Call),
        dummy(),
        seq![ident_expr(helper), ident_expr(object)],
    )
}

/// Makes `helper(object)`.
pub(crate) fn make_helper_call(helper: &Ident, object: &Ident) -> (node: Node)
    ensures
        node@ == helper_call(helper@, object@),
{
    make_binary(
        Kind::Expr(ExprKind::Call),
        dummy_sp(),
        make_ident_expr(helper),
        make_ident_expr(object),
    )
}

/// The expression that a property name stands for in `object[..]`. A computed name without an
/// expression stands for none.
pub open spec fn prop_name_expr(key: Tree) -> Option<Tree> {
    match key.kind {
        Kind::PropName(PropNameKind::Ident) => Some(
            leaf(Kind::Expr(ExprKind::Ident), key.span, key.text),
        ),
        Kind::PropName(PropNameKind::Str { has_escape }) => Some(
            leaf(Kind::Expr(ExprKind::Lit(LitKind::Str { has_escape })), key.span, key.text),
        ),
        Kind::PropName(PropNameKind::Num(n)) => Some(
            leaf(Kind::Expr(ExprKind::Lit(LitKind::Num(n))), key.span, key.text),
        ),
        Kind::PropName(PropNameKind::Computed) => if key.children.len() == 1 {
            Some(key.children[0])
        } else {
            None
        },
        _ => None,
    }
}

/// Turns a property name into the expression that it stands for in `object[..]`.
pub fn prop_name_to_expr(key: Node) -> (node: Result<Node, Refusal>)
    ensures
        match prop_name_expr(key@) {
            Some(e) => node matches Ok(n) && n@ == e,
            None => node == Err::<Node, Refusal>(Refusal::Unsupported),
        },
        node is Ok <==> (key@.kind is PropName && (key@.kind == Kind::PropName(
            PropNameKind::Computed,
        ) ==> key@.children.len() == 1)),
        node matches Ok(n) ==> match key@.kind {
            Kind::PropName(PropNameKind::Computed) => n@ == key@.children[0],
            _ => n@.text == key@.text && n@.span == key@.span && n@.children.len() == 0,
        },
        node matches Ok(n) ==> match key@.kind {
            Kind::PropName(PropNameKind::Ident) => n@.kind == Kind::Expr(ExprKind::Ident),
            Kind::PropName(PropNameKind::Str { has_escape }) => n@.kind == Kind::Expr(
                ExprKind::Lit(LitKind::Str { has_escape }),
            ),
            Kind::PropName(PropNameKind::Num(k)) => n@.kind == Kind::Expr(
                ExprKind::Lit(LitKind::Num(k)),
            ),
            _ => true,
        },
{
    match key.kind {
        Kind::PropName(PropNameKind::Ident) => Ok(
            make_leaf(Kind::Expr(ExprKind::Ident), key.span, key.text),
        ),
        Kind::PropName(PropNameKind::Str { has_escape }) => Ok(
            make_leaf(Kind::Expr(ExprKind::Lit(LitKind::Str { has_escape })), key.span, key.text),
        ),
        Kind::PropName(PropNameKind::Num(n)) => Ok(
            make_leaf(Kind::Expr(ExprKind::Lit(LitKind::Num(n))), key.span, key.text),
        ),
        Kind::PropName(PropNameKind::Computed) => {
            if key.children.len() != 1 {
                return Err(Refusal::Unsupported);
            }
            let mut children = key.children;
            assert(key@.children == trees(children@));
            Ok(children.swap_remove(0))
        },
        _ => Err(Refusal::Unsupported),
    }
}

/// `name = init` in a declaration.
pub open spec fn declarator(span: Span, name: Tree, init: Tree) -> Tree {
    inner(Kind::Part(PartKind::Declarator { definite: false }), span, seq![name, init])
}

/// Makes `name = init` in a declaration.
pub(crate) fn make_declarator(span: Span, name: Node, init: Node) -> (node: Node)
    ensures
        node@ == declarator(span, name@, init@),
{
    make_binary(Kind::Part(PartKind::Declarator { definite: false }), span, name, init)
}

/// A declaration of the given kind.
pub open spec fn var_decl(kind: VarDeclKind, span: Span, decls: Seq<Tree>) -> Tree {
    inner(Kind::Stmt(StmtKind::VarDecl { kind, declare: false }), span, decls)
}

/// Makes a declaration of the given kind.
pub(crate) fn make_var_decl(kind: VarDeclKind, span: Span, decls: Vec<Node>) -> (node: Node)
    ensures
        node@ == var_decl(kind, span, trees(decls@)),
{
    make_inner(Kind::Stmt(StmtKind::VarDecl { kind, declare: false }), span, decls)
}

/// `left = right`.
pub open spec fn assign_expr(span: Span, left: Tree, right: Tree) -> Tree {
    inner(Kind::Expr(ExprKind::Assign(AssignOp::Assign)), span, seq![left, right])
}

/// Makes `left = right`.
pub(crate) fn make_assign_expr(span: Span, left: Node, right: Node) -> (node: Node)
    ensures
        node@ == assign_expr(span, left@, right@),
{
    make_binary(Kind::Expr(ExprKind::Assign(AssignOp::Assign)), span, left, right)
}

/// `exprs[0], exprs[1], ..`.
pub open spec fn seq_expr(exprs: Seq<Tree>) -> Tree {
    inner(Kind::Expr(ExprKind::Sequence), dummy(), exprs)
}

/// Makes `exprs[0], exprs[1], ..`.
pub(crate) fn make_seq_expr(exprs: Vec<Node>) -> (node: Node)
    ensures
        node@ == seq_expr(trees(exprs@)),
{
    make_inner(Kind::Expr(ExprKind::Sequence), dummy_sp(), exprs)
}

} // verus!
