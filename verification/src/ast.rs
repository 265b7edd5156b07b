//! The syntax tree that the pass works on.
//!
//! Every piece of syntax is a [`Node`]: a kind, a text, a position and the nodes below it. What a
//! kind says of the text and of the children of a node stands with the kind. A part that may be
//! missing is a child of kind [`Kind::Absent`].
use vstd::prelude::*;

verus! {

/// A range of source positions, with the syntax context of the name that stands there.
#[derive(Clone, Copy, PartialEq, Eq, Structural, Debug)]
pub struct Span {
    pub lo: u32,
    pub hi: u32,
    pub ctxt: u32,
}

/// The value of a numeric literal.
#[derive(Clone, Copy, PartialEq, Eq, Structural, Debug)]
pub enum Number {
    /// A non-negative integer.
    Int(u64),
    /// Any other number: the node's text is how the source writes it.
    Source,
}

#[derive(Clone, Copy, PartialEq, Eq, Structural, Debug)]
pub enum UnaryOp {
    Minus,
    Plus,
    Bang,
    Tilde,
    TypeOf,
    Void,
    Delete,
}

#[derive(Clone, Copy, PartialEq, Eq, Structural, Debug)]
pub enum UpdateOp {
    PlusPlus,
    MinusMinus,
}

#[derive(Clone, Copy, PartialEq, Eq, Structural, Debug)]
pub enum BinaryOp {
    EqEq,
    NotEq,
    EqEqEq,
    NotEqEq,
    Lt,
    LtEq,
    Gt,
    GtEq,
    LShift,
    RShift,
    ZeroFillRShift,
    Add,
    Sub,
    Mul,
    Div,
    Mod,
    BitOr,
    BitXor,
    BitAnd,
    LogicalOr,
    LogicalAnd,
    In,
    InstanceOf,
    Exp,
    NullishCoalescing,
}

#[derive(Clone, Copy, PartialEq, Eq, Structural, Debug)]
pub enum AssignOp {
    Assign,
    AddAssign,
    SubAssign,
    MulAssign,
    DivAssign,
    ModAssign,
    LShiftAssign,
    RShiftAssign,
    ZeroFillRShiftAssign,
    BitOrAssign,
    BitXorAssign,
    BitAndAssign,
    ExpAssign,
}

#[derive(Clone, Copy, PartialEq, Eq, Structural, Debug)]
pub enum VarDeclKind {
    Var,
    Let,
    Const,
}

#[derive(Clone, Copy, PartialEq, Eq, Structural, Debug)]
pub enum PatKind {
    /// A name, in the text.
    Ident,
    /// `[a, , b]`: the elements, each a pattern or absent.
    Array,
    /// `...a` in an array pattern or a parameter list: the pattern behind the dots, which stand at
    /// `dot3`.
    Rest { dot3: Span },
    /// `{a, b: c}`: the properties, each of a [`PatPropKind`].
    Object,
    /// `a = 1`: the pattern and the default value.
    Assign,
    /// An expression that is assigned to, such as `a.b`: the expression.
    Expr,
}

#[derive(Clone, Copy, PartialEq, Eq, Structural, Debug)]
pub enum PatPropKind {
    /// `key: pattern`: the property name, of a [`PropNameKind`], and the pattern.
    KeyValue,
    /// `key` or `key = 1`: the name, of kind [`PartKind::Ident`], and the default value or absent.
    Assign,
    /// `...a`: the pattern.
    Rest,
}

#[derive(Clone, Copy, PartialEq, Eq, Structural, Debug)]
pub enum PropNameKind {
    /// A name, in the text.
    Ident,
    /// A string, in the text.
    Str { has_escape: bool },
    /// A number.
    Num(Number),
    /// `[expr]`: the expression.
    Computed,
}

#[derive(Clone, Copy, PartialEq, Eq, Structural, Debug)]
pub enum LitKind {
    /// A string, in the text.
    Str { has_escape: bool },
    Bool(bool),
    Null,
    Num(Number),
    /// Digits, in the text.
    BigInt,
    /// A regular expression: its source in the text, its flags as a string literal or absent.
    Regex,
    JSXText,
}

#[derive(Clone, Copy, PartialEq, Eq, Structural, Debug)]
pub enum ExprKind {
    This,
    /// The elements, each an expression, a [`PartKind::Spread`] or absent.
    Array,
    /// The properties, each of a [`PropKind`] or a [`PartKind::Spread`].
    Object,
    /// The name or absent, and the [`PartKind::Function`].
    Fn,
    /// The operand.
    Unary(UnaryOp),
    /// The operand.
    Update { op: UpdateOp, prefix: bool },
    /// The two operands.
    Bin(BinaryOp),
    /// The target, a pattern or an expression, and the value.
    Assign(AssignOp),
    /// The object, an expression or [`PartKind::Super`], and the property, an expression.
    Member { computed: bool },
    /// The test, the value if it holds, and the value if it does not.
    Cond,
    /// The callee, an expression or [`PartKind::Super`], and the arguments.
    Call,
    /// The callee and the arguments; `has_args` tells `new A()` from `new A`.
    New { has_args: bool },
    /// The expressions.
    Sequence,
    /// A name, in the text.
    Ident,
    Lit(LitKind),
    /// The expressions and the [`PartKind::TplElement`]s between them.
    Tpl,
    /// The tag, the expressions and the [`PartKind::TplElement`]s between them.
    TaggedTpl,
    /// The [`PartKind::Params`], and the body, a block or an expression.
    Arrow { is_async: bool, is_generator: bool },
    /// The name or absent, the class that it extends or absent, and the members.
    Class,
    /// The operand or absent.
    Yield { delegate: bool },
    /// The two names.
    MetaProp,
    /// The operand.
    Await,
    /// The expression between the parentheses.
    Paren,
    JSXMember,
    JSXNamespacedName,
    JSXEmpty,
    JSXElement,
    JSXFragment,
    /// The expression and the type.
    TsTypeCast,
    /// The expression and the type.
    TsTypeAssertion,
    /// The expression.
    TsNonNull,
    /// The expression and the type.
    TsAs,
    /// A private name, in the text.
    PrivateName,
}

#[derive(Clone, Copy, PartialEq, Eq, Structural, Debug)]
pub enum StmtKind {
    /// The statements.
    Block,
    Empty,
    Debugger,
    /// The object and the body.
    With,
    /// The value or absent.
    Return,
    /// The label and the body.
    Labeled,
    /// The label or absent.
    Break,
    /// The label or absent.
    Continue,
    /// The test, the body, and the other body or absent.
    If,
    /// The value and the [`PartKind::SwitchCase`]s.
    Switch,
    /// The value.
    Throw,
    /// The block, the [`PartKind::Catch`] or absent, and the last block or absent.
    Try,
    /// The test and the body.
    While,
    /// The test and the body.
    DoWhile,
    /// The initial part, the test and the update, each of them or absent, and the body.
    For,
    /// The target, a [`StmtKind::VarDecl`] or a pattern, the object and the body.
    ForIn,
    /// The target, a [`StmtKind::VarDecl`] or a pattern, the object and the body.
    ForOf { is_await: bool },
    /// The expression.
    Expr,
    /// The name, the class that it extends or absent, and the members.
    ClassDecl { declare: bool },
    /// The name and the [`PartKind::Function`].
    FnDecl { declare: bool },
    /// The [`PartKind::Declarator`]s.
    VarDecl { kind: VarDeclKind, declare: bool },
    TsInterface,
    TsTypeAlias,
    TsEnum,
    TsModule,
}

#[derive(Clone, Copy, PartialEq, Eq, Structural, Debug)]
pub enum PropKind {
    /// `a`: the name.
    Shorthand,
    /// `a: 1`: the property name and the value.
    KeyValue,
    /// `a = 1`: the name and the value.
    Assign,
    /// The property name, and the body or absent.
    Getter,
    /// The property name, the parameter, a pattern, and the body or absent.
    Setter,
    /// The property name and the [`PartKind::Function`].
    Method,
}

#[derive(Clone, Copy, PartialEq, Eq, Structural, Debug)]
pub enum MemberKind {
    /// The property name, the [`PartKind::Params`], and the body or absent.
    Constructor,
    /// The property name and the [`PartKind::Function`].
    Method { is_static: bool },
    Getter { is_static: bool },
    Setter { is_static: bool },
    /// The property name, and the value or absent.
    Prop { is_static: bool },
    TsIndexSignature,
}

#[derive(Clone, Copy, PartialEq, Eq, Structural, Debug)]
pub enum PartKind {
    /// A name that is neither an expression nor a pattern, in the text.
    Ident,
    /// The [`PartKind::Params`], the [`PartKind::Decorators`], and the body or absent.
    Function { is_async: bool, is_generator: bool },
    /// The parameters: patterns, and in a constructor also [`PartKind::TsParamProp`]s.
    Params,
    Decorators,
    /// The pattern, and the initial value or absent.
    Declarator { definite: bool },
    /// `...a`: the expression.
    Spread,
    Super,
    TplElement { tail: bool },
    /// The test or absent, and the [`PartKind::Stmts`].
    SwitchCase,
    /// The statements.
    Stmts,
    /// The parameter, a pattern, or absent, and the body.
    Catch,
    TsParamProp,
    TsType,
    /// The items of a TypeScript module block.
    TsModuleBlock,
    JSXAttr,
    JSXName,
    JSXChild,
}

#[derive(Clone, Copy, PartialEq, Eq, Structural, Debug)]
pub enum ItemKind {
    Import,
    ImportSpecifier,
    /// The declaration.
    ExportDecl,
    ExportNamed,
    ExportSpecifier,
    /// The declaration, as an expression of kind [`ExprKind::Fn`] or [`ExprKind::Class`].
    ExportDefaultDecl,
    /// The expression.
    ExportDefaultExpr,
    ExportAll,
    TsItem,
}

/// What a piece of syntax is.
#[derive(Clone, Copy, PartialEq, Eq, Structural, Debug)]
pub enum Kind {
    /// Stands for a part that is not there.
    Absent,
    Pat(PatKind),
    PatProp(PatPropKind),
    PropName(PropNameKind),
    Expr(ExprKind),
    Stmt(StmtKind),
    Prop(PropKind),
    Member(MemberKind),
    Part(PartKind),
    /// A module's import or export.
    Item(ItemKind),
    /// A whole module: its statements, imports and exports.
    Module,
    /// A whole script: its statements.
    Script,
}

/// A piece of syntax.
#[derive(Debug)]
pub struct Node {
    pub kind: Kind,
    pub text: String,
    pub span: Span,
    pub children: Vec<Node>,
}

/// The mathematical value of a [`Node`].
#[verifier::ext_equal]
pub struct Tree {
    pub kind: Kind,
    pub text: Seq<char>,
    pub span: Span,
    pub children: Seq<Tree>,
}

impl View for Node {
    type V = Tree;

    open spec fn view(&self) -> Tree {
        tree(*self)
    }
}

/// The value of a node.
pub open spec fn tree(node: Node) -> Tree
    decreases node,
{
    Tree {
        kind: node.kind,
        text: node.text@,
        span: node.span,
        children: Seq::new(
            node.children@.len(),
            |i: int|
                if 0 <= i < node.children@.len() {
                    tree(node.children@[i])
                } else {
                    arbitrary()
                },
        ),
    }
}

/// The values of a row of nodes.
pub open spec fn trees(nodes: Seq<Node>) -> Seq<Tree> {
    Seq::new(nodes.len(), |i: int| tree(nodes[i]))
}

/// The children of a node's value are the values of its children.
pub broadcast proof fn lemma_children(node: Node)
    ensures
        (#[trigger] tree(node)).children == trees(node.children@),
{
    assert(tree(node).children =~= trees(node.children@));
}

/// No nodes have no values.
pub broadcast proof fn lemma_trees_empty()
    ensures
        #[trigger] trees(Seq::empty()) == Seq::<Tree>::empty(),
{
    assert(trees(Seq::empty()) =~= Seq::<Tree>::empty());
}

/// The values of a row of nodes with one more at the end.
pub broadcast proof fn lemma_trees_push(nodes: Seq<Node>, node: Node)
    ensures
        #[trigger] trees(nodes.push(node)) == trees(nodes).push(tree(node)),
{
    assert(trees(nodes.push(node)) =~= trees(nodes).push(tree(node)));
}

/// The values of two rows of nodes behind each other.
pub broadcast proof fn lemma_trees_add(a: Seq<Node>, b: Seq<Node>)
    ensures
        #[trigger] trees(a + b) == trees(a) + trees(b),
{
    assert(trees(a + b) =~= trees(a) + trees(b));
}

/// What is known of the values of rows of nodes.
pub broadcast group group_trees {
    lemma_children,
    lemma_trees_empty,
    lemma_trees_push,
    lemma_trees_add,
}

} // verus!
