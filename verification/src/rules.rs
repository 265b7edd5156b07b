//! What the pass makes of a tree.
//!
//! [`fold`] says what becomes of a tree, and [`assign`] what becomes of the assignments in one.
//! Where the pass does not handle a tree, the rules say why: a pattern has no initial value, a rest
//! property is left, a pattern stands where none can be taken apart, or no more names can be made.
use crate::ast::{
    AssignOp, ExprKind, Kind, PartKind, PatKind, PatPropKind, PropKind, MemberKind, StmtKind, Tree,
    VarDeclKind,
};
use crate::factory::{
    absent, assign_expr, cond_expr, declarator, dummy, helper_call, ident_expr, ident_pat, inner,
    non_null_expr, prop_name_expr, ref_idx_expr, ref_prop_expr, seq_expr, slice_call, var_decl,
};
use crate::hygiene::{Env, Name, Refusal};
use crate::measure::{
    any_complex, any_pattern, depth, depths, is_stmts, size, sizes, weight, weights,
};
use crate::nullness::nullable;
use vstd::prelude::*;

verus! {

/// The same node with other children.
pub open spec fn with(t: Tree, children: Seq<Tree>) -> Tree {
    Tree { kind: t.kind, text: t.text, span: t.span, children }
}

/// The name that a node holds in its text.
pub open spec fn name_of(t: Tree) -> Name {
    Name { text: t.text, span: t.span }
}

/// How a name for the value of `init` is spelled: `_a$b` where it is `a.b` or `a[b]`.
pub open spec fn ref_text(init: Tree) -> Seq<char> {
    match init.kind {
        Kind::Expr(ExprKind::Member { computed }) => if init.children.len() == 2
            && init.children[0].kind == Kind::Expr(ExprKind::Ident) && init.children[1].kind
            == Kind::Expr(ExprKind::Ident) {
            "_"@ + init.children[0].text + "$"@ + init.children[1].text
        } else {
            "ref"@
        },
        _ => "ref"@,
    }
}

/// A name for the value of `init`: the name that it is, or else a new one, which is declared at the
/// end of `decls`.
pub open spec fn ref_ident(decls: Seq<Tree>, init: Tree, env: Env) -> Result<
    (Name, Seq<Tree>, Env),
    Refusal,
> {
    if init.kind == Kind::Expr(ExprKind::Ident) {
        Ok((name_of(init), decls, env))
    } else {
        let span = if init.kind == Kind::Absent {
            dummy()
        } else {
            init.span
        };
        match env.private_ident(span, ref_text(init)) {
            Err(refusal) => Err(refusal),
            Ok((name, env1)) => Ok(
                (name, decls.push(declarator(span, ident_pat(name), init)), env1),
            ),
        }
    }
}

/// The name under which the value of `init` meets the default value of a pattern at `span`: the
/// name that it is, if that was generated, or else a new one, which is declared at the end of
/// `decls`.
pub open spec fn tmp_ident(
    decls: Seq<Tree>,
    init: Tree,
    span: crate::ast::Span,
    env: Env,
) -> Result<(Name, Seq<Tree>, Env), Refusal> {
    if init.kind == Kind::Expr(ExprKind::Ident) && init.span.ctxt != 0 {
        Ok((name_of(init), decls, env))
    } else {
        match env.private_ident(span, "tmp"@) {
            Err(refusal) => Err(refusal),
            Ok((name, env1)) => Ok(
                (name, decls.push(declarator(dummy(), ident_pat(name), init)), env1),
            ),
        }
    }
}

/// A name for the object that `name` stands for, which is checked not to be null where `checked`
/// says so. The check is declared at the end of `decls`.
pub open spec fn non_null_ident(decls: Seq<Tree>, name: Name, checked: bool, env: Env) -> Result<
    (Name, Seq<Tree>, Env),
    Refusal,
> {
    if !checked {
        Ok((name, decls, env))
    } else {
        match env.throw() {
            Err(refusal) => Err(refusal),
            Ok((throw, env1)) => ref_ident(decls, non_null_expr(name, throw), env1),
        }
    }
}

/// Whether this is a name of the program, not one that was generated.
pub open spec fn is_source_name(t: Tree) -> bool {
    t.kind == Kind::Expr(ExprKind::Ident) && t.span.ctxt == 0
}

/// A new name for the value of a name of the program, `_a` for `a`. It is declared at the end of
/// `decls`.
pub open spec fn alias_ident(decls: Seq<Tree>, init: Tree, env: Env) -> Result<
    (Name, Seq<Tree>, Env),
    Refusal,
> {
    match env.private_ident(init.span, "_"@ + init.text) {
        Err(refusal) => Err(refusal),
        Ok((name, env1)) => Ok(
            (name, decls.push(declarator(init.span, ident_pat(name), init)), env1),
        ),
    }
}

/// Whether the last of the elements of an array pattern takes all that is left.
pub open spec fn ends_in_rest(elems: Seq<Tree>) -> bool {
    elems.len() > 0 && match elems[elems.len() - 1].kind {
        Kind::Pat(PatKind::Rest { dot3 }) => true,
        _ => false,
    }
}

/// Whether `init` is made an array before the elements of a pattern are read: it is a name of the
/// program, and the last element takes all that is left.
pub open spec fn copied_array(elems: Seq<Tree>, init: Tree) -> bool {
    is_source_name(init) && ends_in_rest(elems)
}

/// Whether the properties of a pattern are read under a new name for `init`: it is a name of the
/// program, and there are properties to read.
pub open spec fn copied_object(props: Seq<Tree>, init: Tree) -> bool {
    is_source_name(init) && props.len() > 0
}

/// The name under which the elements `elems` of the value of `init` are read. For a name `a` of
/// the program of which a rest is taken, that is `_a2`, which stands for the value as an array.
/// From any other value the elements are read directly. What is declared for it stands at the end
/// of `decls`.
pub open spec fn array_ident(elems: Seq<Tree>, decls: Seq<Tree>, init: Tree, env: Env) -> Result<
    (Name, Seq<Tree>, Env),
    Refusal,
> {
    if !copied_array(elems, init) {
        ref_ident(decls, init, env)
    } else {
        match alias_ident(decls, init, env) {
            Err(refusal) => Err(refusal),
            Ok((alias, decls1, env1)) => match env1.to_array() {
                Err(refusal) => Err(refusal),
                Ok((helper, env2)) => match env2.private_ident(
                    dummy(),
                    "_"@ + init.text + "2"@,
                ) {
                    Err(refusal) => Err(refusal),
                    Ok((name, env3)) => Ok(
                        (
                            name,
                            decls1.push(
                                declarator(dummy(), ident_pat(name), helper_call(helper, alias)),
                            ),
                            env3,
                        ),
                    ),
                },
            },
        }
    }
}

/// The name under which the properties `props` of the value of `init` are read. For a name `a` of
/// the program of which properties are read, that is `_a`, and the value is not checked. Any other
/// value that can be null is checked first, also that of a name of which nothing is read. What is
/// declared for it stands at the end of `decls`.
pub open spec fn object_ident(props: Seq<Tree>, decls: Seq<Tree>, init: Tree, env: Env) -> Result<
    (Name, Seq<Tree>, Env),
    Refusal,
> {
    if copied_object(props, init) {
        alias_ident(decls, init, env)
    } else {
        match ref_ident(decls, init, env) {
            Err(refusal) => Err(refusal),
            Ok((object, decls1, env1)) => non_null_ident(
                decls1,
                object,
                nullable(init) == Some(true),
                env1,
            ),
        }
    }
}

/// What becomes of a tree.
pub open spec fn fold(t: Tree, env: Env) -> Result<(Tree, Env), Refusal>
    decreases weight(t), 2 * depth(t) + 10, 2 * size(t),
{
    match t.kind {
        Kind::Stmt(StmtKind::ForIn) => fold_for(t, env),
        Kind::Stmt(StmtKind::ForOf { is_await }) => fold_for(t, env),
        Kind::Stmt(StmtKind::VarDecl { kind, declare }) => match fold_decls(t.children, env) {
            Err(refusal) => Err(refusal),
            Ok((children, env1)) => Ok((with(t, children), env1)),
        },
        Kind::Part(PartKind::Function { is_async, is_generator }) => fold_function(t, env),
        Kind::Member(MemberKind::Constructor) => fold_constructor(t, env),
        Kind::Prop(PropKind::Setter) => fold_setter(t, env),
        Kind::Part(PartKind::Catch) => fold_catch(t, env),
        Kind::Expr(ExprKind::Arrow { is_async, is_generator }) => fold_arrow(t, env),
        _ => if is_stmts(t.kind) {
            match fold_stmts(t.children, env) {
                Err(refusal) => Err(refusal),
                Ok((children, env1)) => Ok((with(t, children), env1)),
            }
        } else {
            match fold_all(t.children, Seq::empty(), env) {
                Err(refusal) => Err(refusal),
                Ok((children, env1)) => Ok((with(t, children), env1)),
            }
        },
    }
}

/// What becomes of the trees, one by one, behind what is `done`.
pub open spec fn fold_all(ts: Seq<Tree>, done: Seq<Tree>, env: Env) -> Result<
    (Seq<Tree>, Env),
    Refusal,
>
    decreases weights(ts), 2 * depths(ts) + 10, 2 * sizes(ts),
{
    if ts.len() == 0 {
        Ok((done, env))
    } else {
        match fold(ts[0], env) {
            Err(refusal) => Err(refusal),
            Ok((t, env1)) => fold_all(ts.drop_first(), done.push(t), env1),
        }
    }
}

/// What becomes of a list of declarators: first of what is in them, and, where one of them binds
/// more than a name, of the declarators themselves.
pub open spec fn fold_decls(ds: Seq<Tree>, env: Env) -> Result<(Seq<Tree>, Env), Refusal>
    decreases weights(ds), 2 * depths(ds) + 10, 2 * sizes(ds) + 1,
{
    match fold_all(ds, Seq::empty(), env) {
        Err(refusal) => Err(refusal),
        Ok((ds1, env1)) => if any_complex(ds1) {
            lower_decls(ds1, Seq::empty(), env1, weights(ds))
        } else {
            Ok((ds1, env1))
        },
    }
}

/// What becomes of declarators that were made from a list that held `bound` of destructuring. They
/// hold less: that is why the rules come to an end. That they do, and that it does not matter which
/// bound is taken, is shown in [`crate::bounds`].
pub open spec fn refold(ds: Seq<Tree>, env: Env, bound: nat) -> Result<(Seq<Tree>, Env), Refusal>
    decreases bound, 0nat, 0nat,
{
    if weights(ds) < bound {
        fold_decls(ds, env)
    } else {
        Err(Refusal::Unsupported)
    }
}

/// The declarators that stand for `ds`, behind those that are `done`.
pub open spec fn lower_decls(ds: Seq<Tree>, done: Seq<Tree>, env: Env, bound: nat) -> Result<
    (Seq<Tree>, Env),
    Refusal,
>
    decreases bound, 3nat, ds.len(),
{
    if ds.len() == 0 {
        Ok((done, env))
    } else {
        match lower_decl(ds[0], done, env, bound) {
            Err(refusal) => Err(refusal),
            Ok((done1, env1)) => lower_decls(ds.drop_first(), done1, env1, bound),
        }
    }
}

/// The declarators that stand for `d`, behind those that are `done`.
pub open spec fn lower_decl(d: Tree, done: Seq<Tree>, env: Env, bound: nat) -> Result<
    (Seq<Tree>, Env),
    Refusal,
>
    decreases bound, 2nat, 0nat,
{
    if !is_decl(d) {
        Err(Refusal::Unsupported)
    } else {
        let name = d.children[0];
        let init = d.children[1];
        match name.kind {
            Kind::Pat(PatKind::Ident) => Ok((done.push(d), env)),
            Kind::Pat(PatKind::Array) => if init.kind == Kind::Absent {
                Err(Refusal::Unsupported)
            } else {
                match array_ident(name.children, done, init, env) {
                    Err(refusal) => Err(refusal),
                    Ok((object, done1, env1)) => lower_elems(
                        name.children,
                        0,
                        object,
                        done1,
                        env1,
                        bound,
                    ),
                }
            },
            Kind::Pat(PatKind::Object) => if init.kind == Kind::Absent || nullable(init) is None {
                Err(Refusal::Unsupported)
            } else {
                match object_ident(name.children, done, init, env) {
                    Err(refusal) => Err(refusal),
                    Ok((object, done1, env1)) => lower_props(
                        name.children,
                        0,
                        object,
                        done1,
                        env1,
                        bound,
                    ),
                }
            },
            Kind::Pat(PatKind::Assign) => if init.kind == Kind::Absent || name.children.len()
                != 2 {
                Err(Refusal::Unsupported)
            } else {
                match tmp_ident(done, init, name.span, env) {
                    Err(refusal) => Err(refusal),
                    Ok((tmp, done1, env1)) => match refold(
                        seq![
                            declarator(
                                name.span,
                                name.children[0],
                                cond_expr(tmp, name.children[1]),
                            ),
                        ],
                        env1,
                        bound,
                    ) {
                        Err(refusal) => Err(refusal),
                        Ok((ds, env2)) => Ok((done1 + ds, env2)),
                    },
                }
            },
            _ => Err(Refusal::Unsupported),
        }
    }
}

/// The declarator that stands for element `i` of an array pattern, whose value is `object`.
pub open spec fn elem_decl(elem: Tree, i: int, object: Name) -> Option<Tree> {
    match elem.kind {
        Kind::Pat(PatKind::Rest { dot3 }) => if elem.children.len() == 1 {
            Some(declarator(dot3, elem.children[0], slice_call(object, i, dot3)))
        } else {
            None
        },
        _ => Some(declarator(elem.span, elem, ref_idx_expr(object, i))),
    }
}

/// The declarators that stand for the elements of an array pattern from index `i` on.
pub open spec fn lower_elems(
    elems: Seq<Tree>,
    i: nat,
    object: Name,
    done: Seq<Tree>,
    env: Env,
    bound: nat,
) -> Result<(Seq<Tree>, Env), Refusal>
    decreases bound, 1nat, elems.len() - i,
{
    if i >= elems.len() {
        Ok((done, env))
    } else if elems[i as int].kind == Kind::Absent {
        lower_elems(elems, i + 1, object, done, env, bound)
    } else {
        match elem_decl(elems[i as int], i as int, object) {
            None => Err(Refusal::Unsupported),
            Some(d) => match refold(seq![d], env, bound) {
                Err(refusal) => Err(refusal),
                Ok((ds, env1)) => lower_elems(elems, i + 1, object, done + ds, env1, bound),
            },
        }
    }
}

/// The declarators that stand for one property of an object pattern, whose value is `object`.
pub open spec fn lower_prop(
    prop: Tree,
    object: Name,
    done: Seq<Tree>,
    env: Env,
    bound: nat,
) -> Result<(Seq<Tree>, Env), Refusal>
    decreases bound, 1nat, 0nat,
{
    if prop.children.len() != 2 {
        Err(Refusal::Unsupported)
    } else {
        let key = prop.children[0];
        let value = prop.children[1];
        match prop.kind {
            Kind::PatProp(PatPropKind::KeyValue) => match prop_name_expr(key) {
                None => Err(Refusal::Unsupported),
                Some(property) => match refold(
                    seq![declarator(prop.span, value, ref_prop_expr(object, property))],
                    env,
                    bound,
                ) {
                    Err(refusal) => Err(refusal),
                    Ok((ds, env1)) => Ok((done + ds, env1)),
                },
            },
            Kind::PatProp(PatPropKind::Assign) => {
                let property = ref_prop_expr(object, ident_expr(name_of(key)));
                if value.kind == Kind::Absent {
                    match refold(
                        seq![declarator(prop.span, ident_pat(name_of(key)), property)],
                        env,
                        bound,
                    ) {
                        Err(refusal) => Err(refusal),
                        Ok((ds, env1)) => Ok((done + ds, env1)),
                    }
                } else {
                    match ref_ident(done, property, env) {
                        Err(refusal) => Err(refusal),
                        Ok((tmp, done1, env1)) => match refold(
                            seq![
                                declarator(
                                    prop.span,
                                    ident_pat(name_of(key)),
                                    cond_expr(tmp, value),
                                ),
                            ],
                            env1,
                            bound,
                        ) {
                            Err(refusal) => Err(refusal),
                            Ok((ds, env2)) => Ok((done1 + ds, env2)),
                        },
                    }
                }
            },
            _ => Err(Refusal::Unsupported),
        }
    }
}

/// The declarators that stand for the properties of an object pattern from index `i` on.
pub open spec fn lower_props(
    props: Seq<Tree>,
    i: nat,
    object: Name,
    done: Seq<Tree>,
    env: Env,
    bound: nat,
) -> Result<(Seq<Tree>, Env), Refusal>
    decreases bound, 1nat, 1 + props.len() - i,
{
    if i >= props.len() {
        Ok((done, env))
    } else {
        match lower_prop(props[i as int], object, done, env, bound) {
            Err(refusal) => Err(refusal),
            Ok((done1, env1)) => lower_props(props, i + 1, object, done1, env1, bound),
        }
    }
}

/// The declarators, each with `name` as its initial value.
pub open spec fn init_all(ds: Seq<Tree>, name: Name) -> Seq<Tree> {
    Seq::new(ds.len(), |i: int| with(ds[i], seq![ds[i].children[0], ident_expr(name)]))
}

/// Whether this is a declarator, with a pattern, and with an initial value or none.
pub open spec fn is_decl(d: Tree) -> bool {
    match d.kind {
        Kind::Part(PartKind::Declarator { definite }) => d.children.len() == 2,
        _ => false,
    }
}

/// Whether each of the trees is a declarator.
pub open spec fn all_decls(ds: Seq<Tree>) -> bool {
    forall|i: int| 0 <= i < ds.len() ==> is_decl(#[trigger] ds[i])
}

/// The body of a loop, with `stmt` before everything else.
pub open spec fn prepend(stmt: Tree, body: Tree) -> Tree {
    if body.kind == Kind::Stmt(StmtKind::Block) {
        with(body, seq![stmt] + body.children)
    } else {
        inner(Kind::Stmt(StmtKind::Block), dummy(), seq![stmt, body])
    }
}

/// What becomes of a `for .. in` or `for .. of` loop.
pub open spec fn fold_for(t: Tree, env: Env) -> Result<(Tree, Env), Refusal>
    decreases weight(t), 5nat, 0nat,
{
    if t.children.len() != 3 {
        Err(Refusal::Unsupported)
    } else {
        let left = t.children[0];
        match left.kind {
            Kind::Stmt(StmtKind::VarDecl { kind, declare }) => if !any_complex(left.children) {
                Ok((t, env))
            } else if !all_decls(left.children) {
                Err(Refusal::Unsupported)
            } else {
                match env.private_ident(dummy(), "ref"@) {
                    Err(refusal) => Err(refusal),
                    Ok((name, env1)) => match refold(
                        init_all(left.children, name),
                        env1,
                        weight(t),
                    ) {
                        Err(refusal) => Err(refusal),
                        Ok((ds, env2)) => Ok(
                            (
                                with(
                                    t,
                                    seq![
                                        with(
                                            left,
                                            seq![declarator(dummy(), ident_pat(name), absent())],
                                        ),
                                        t.children[1],
                                        prepend(
                                            var_decl(VarDeclKind::Let, left.span, ds),
                                            t.children[2],
                                        ),
                                    ],
                                ),
                                env2,
                            ),
                        ),
                    },
                }
            },
            Kind::Pat(PatKind::Ident) => Ok((t, env)),
            _ => Err(Refusal::Unsupported),
        }
    }
}

/// The parameters that stand for `params`, behind `done`, and the declarators, behind `decls`, that
/// take them apart.
pub open spec fn split_params(
    params: Seq<Tree>,
    done: Seq<Tree>,
    decls: Seq<Tree>,
    env: Env,
) -> Result<(Seq<Tree>, Seq<Tree>, Env), Refusal>
    decreases params.len(),
{
    if params.len() == 0 {
        Ok((done, decls, env))
    } else {
        let param = params[0];
        let rest = params.drop_first();
        match param.kind {
            Kind::Pat(PatKind::Ident) => split_params(rest, done.push(param), decls, env),
            Kind::Pat(kind) => if kind == PatKind::Array || kind == PatKind::Object || kind
                == PatKind::Assign {
                match env.private_ident(param.span, "ref"@) {
                    Err(refusal) => Err(refusal),
                    Ok((name, env1)) => split_params(
                        rest,
                        done.push(ident_pat(name)),
                        decls.push(declarator(param.span, param, ident_expr(name))),
                        env1,
                    ),
                }
            } else {
                split_params(rest, done, decls, env)
            },
            _ => Err(Refusal::Unsupported),
        }
    }
}

/// What becomes of the parameters and of the statements in the body of a function, which was made
/// from a function that held `bound` of destructuring.
pub open spec fn fold_fn_like(params: Seq<Tree>, stmts: Seq<Tree>, env: Env, bound: nat) -> Result<
    (Seq<Tree>, Seq<Tree>, Env),
    Refusal,
>
    decreases bound, 4nat, 0nat,
{
    match split_params(params, Seq::empty(), Seq::empty(), env) {
        Err(refusal) => Err(refusal),
        Ok((params1, decls, env1)) => if decls.len() == 0 {
            Ok((params1, stmts, env1))
        } else {
            match refold(decls, env1, bound) {
                Err(refusal) => Err(refusal),
                Ok((decls1, env2)) => Ok(
                    (params1, seq![var_decl(VarDeclKind::Let, dummy(), decls1)] + stmts, env2),
                ),
            }
        },
    }
}

/// What becomes of a function.
pub open spec fn fold_function(t: Tree, env: Env) -> Result<(Tree, Env), Refusal>
    decreases weight(t), 2 * depth(t) + 10, 2 * size(t) - 1,
{
    if t.children.len() != 3 || t.children[0].kind != Kind::Part(PartKind::Params) {
        Err(Refusal::Unsupported)
    } else if t.children[2].kind == Kind::Absent {
        Ok((t, env))
    } else if t.children[2].kind != Kind::Stmt(StmtKind::Block) {
        Err(Refusal::Unsupported)
    } else {
        match fold_all(t.children, Seq::empty(), env) {
            Err(refusal) => Err(refusal),
            Ok((cs, env1)) => match fold_fn_like(
                cs[0].children,
                cs[2].children,
                env1,
                weight(t),
            ) {
                Err(refusal) => Err(refusal),
                Ok((params, stmts, env2)) => Ok(
                    (with(t, seq![with(cs[0], params), cs[1], with(cs[2], stmts)]), env2),
                ),
            },
        }
    }
}

/// What becomes of a constructor.
pub open spec fn fold_constructor(t: Tree, env: Env) -> Result<(Tree, Env), Refusal>
    decreases weight(t), 2 * depth(t) + 10, 2 * size(t) - 1,
{
    if t.children.len() != 3 || t.children[1].kind != Kind::Part(PartKind::Params) {
        Err(Refusal::Unsupported)
    } else if t.children[2].kind == Kind::Absent {
        Ok((t, env))
    } else if t.children[2].kind != Kind::Stmt(StmtKind::Block) {
        Err(Refusal::Unsupported)
    } else {
        match fold_all(t.children, Seq::empty(), env) {
            Err(refusal) => Err(refusal),
            Ok((cs, env1)) => match fold_fn_like(
                cs[1].children,
                cs[2].children,
                env1,
                weight(t),
            ) {
                Err(refusal) => Err(refusal),
                Ok((params, stmts, env2)) => Ok(
                    (with(t, seq![cs[0], with(cs[1], params), with(cs[2], stmts)]), env2),
                ),
            },
        }
    }
}

/// What becomes of a setter.
pub open spec fn fold_setter(t: Tree, env: Env) -> Result<(Tree, Env), Refusal>
    decreases weight(t), 2 * depth(t) + 10, 2 * size(t) - 1,
{
    if t.children.len() != 3 {
        Err(Refusal::Unsupported)
    } else if t.children[2].kind == Kind::Absent {
        Ok((t, env))
    } else if t.children[2].kind != Kind::Stmt(StmtKind::Block) {
        Err(Refusal::Unsupported)
    } else {
        match fold_all(t.children, Seq::empty(), env) {
            Err(refusal) => Err(refusal),
            Ok((cs, env1)) => match fold_fn_like(
                seq![cs[1]],
                cs[2].children,
                env1,
                weight(t),
            ) {
                Err(refusal) => Err(refusal),
                Ok((params, stmts, env2)) => if params.len() != 1 {
                    Err(Refusal::Unsupported)
                } else {
                    Ok((with(t, seq![cs[0], params[0], with(cs[2], stmts)]), env2))
                },
            },
        }
    }
}

/// What becomes of a catch clause.
pub open spec fn fold_catch(t: Tree, env: Env) -> Result<(Tree, Env), Refusal>
    decreases weight(t), 2 * depth(t) + 10, 2 * size(t) - 1,
{
    if t.children.len() != 2 || t.children[1].kind != Kind::Stmt(StmtKind::Block) {
        Err(Refusal::Unsupported)
    } else {
        match fold_all(t.children, Seq::empty(), env) {
            Err(refusal) => Err(refusal),
            Ok((cs, env1)) => if cs[0].kind == Kind::Absent {
                Ok((with(t, cs), env1))
            } else {
                match fold_fn_like(seq![cs[0]], cs[1].children, env1, weight(t)) {
                    Err(refusal) => Err(refusal),
                    Ok((params, stmts, env2)) => Ok(
                        (
                            with(
                                t,
                                seq![
                                    if params.len() == 0 {
                                        absent()
                                    } else {
                                        params[0]
                                    },
                                    with(cs[1], stmts),
                                ],
                            ),
                            env2,
                        ),
                    ),
                }
            },
        }
    }
}

/// `return value`, at the place of the value.
pub open spec fn return_stmt(value: Tree) -> Tree {
    inner(Kind::Stmt(StmtKind::Return), value.span, seq![value])
}

/// What becomes of an arrow function. An expression that is its body becomes a block only where
/// declarations have to stand before it.
pub open spec fn fold_arrow(t: Tree, env: Env) -> Result<(Tree, Env), Refusal>
    decreases weight(t), 2 * depth(t) + 10, 2 * size(t) - 1,
{
    if t.children.len() != 2 || t.children[0].kind != Kind::Part(PartKind::Params) {
        Err(Refusal::Unsupported)
    } else {
        match fold_all(t.children, Seq::empty(), env) {
            Err(refusal) => Err(refusal),
            Ok((cs, env1)) => if cs[1].kind == Kind::Stmt(StmtKind::Block) {
                match fold_fn_like(cs[0].children, cs[1].children, env1, weight(t)) {
                    Err(refusal) => Err(refusal),
                    Ok((params, stmts, env2)) => Ok(
                        (with(t, seq![with(cs[0], params), with(cs[1], stmts)]), env2),
                    ),
                }
            } else {
                match fold_fn_like(cs[0].children, seq![return_stmt(cs[1])], env1, weight(t)) {
                    Err(refusal) => Err(refusal),
                    Ok((params, stmts, env2)) => Ok(
                        (
                            with(
                                t,
                                seq![
                                    with(cs[0], params),
                                    if stmts.len() == 1 {
                                        cs[1]
                                    } else {
                                        inner(Kind::Stmt(StmtKind::Block), cs[1].span, stmts)
                                    },
                                ],
                            ),
                            env2,
                        ),
                    ),
                }
            },
        }
    }
}

/// What becomes of a list of statements: nothing where no pattern stands in it, and else first the
/// declarations in it are lowered, and then the assignments.
pub open spec fn fold_stmts(ts: Seq<Tree>, env: Env) -> Result<(Seq<Tree>, Env), Refusal>
    decreases weights(ts), 2 * depths(ts) + 12, 2 * sizes(ts) + 1,
{
    if !any_pattern(ts) {
        Ok((ts, env))
    } else {
        match fold_all(ts, Seq::empty(), env) {
            Err(refusal) => Err(refusal),
            Ok((ts1, env1)) => assign_stmts(ts1, Seq::empty(), env1, weights(ts), depths(ts)),
        }
    }
}

/// The statement, behind a declaration of `vars` if there are any.
pub open spec fn declare_vars(done: Seq<Tree>, vars: Seq<Tree>, t: Tree) -> Seq<Tree> {
    if vars.len() == 0 {
        done.push(t)
    } else {
        done.push(var_decl(VarDeclKind::Var, dummy(), vars)).push(t)
    }
}

/// What becomes of the assignments in the statements, behind what is `done`. The statements were
/// made from a list that held `bound` of destructuring, in statements that are nested `deep`, and
/// hold no more. See [`crate::bounds`].
pub open spec fn assign_stmts(
    ts: Seq<Tree>,
    done: Seq<Tree>,
    env: Env,
    bound: nat,
    deep: nat,
) -> Result<(Seq<Tree>, Env), Refusal>
    decreases bound, 2 * deep + 11, ts.len(),
{
    if ts.len() == 0 {
        Ok((done, env))
    } else if weight(ts[0]) < bound || (weight(ts[0]) == bound && depth(ts[0]) <= deep) {
        match assign(ts[0], Seq::empty(), env) {
            Err(refusal) => Err(refusal),
            Ok((t, vars, env1)) => assign_stmts(
                ts.drop_first(),
                declare_vars(done, vars, t),
                env1,
                bound,
                deep,
            ),
        }
    } else {
        Err(Refusal::Unsupported)
    }
}

/// What becomes of the assignments in a tree. The names that they need are declared at the end of
/// `vars`.
pub open spec fn assign(t: Tree, vars: Seq<Tree>, env: Env) -> Result<
    (Tree, Seq<Tree>, Env),
    Refusal,
>
    decreases weight(t), 2 * depth(t) + 10, 2 * size(t) + 1,
{
    match t.kind {
        Kind::Expr(kind) => if kind == ExprKind::Fn || kind == ExprKind::Object {
            match fold(t, env) {
                Err(refusal) => Err(refusal),
                Ok((t1, env1)) => lower_assign(t1, vars, env1, weight(t)),
            }
        } else {
            match assign_all(t.children, Seq::empty(), vars, env) {
                Err(refusal) => Err(refusal),
                Ok((cs, vars1, env1)) => lower_assign(with(t, cs), vars1, env1, weight(t)),
            }
        },
        _ => match assign_all(t.children, Seq::empty(), vars, env) {
            Err(refusal) => Err(refusal),
            Ok((cs, vars1, env1)) => Ok((with(t, cs), vars1, env1)),
        },
    }
}

/// What becomes of the assignments in the trees, one by one, behind what is `done`.
pub open spec fn assign_all(ts: Seq<Tree>, done: Seq<Tree>, vars: Seq<Tree>, env: Env) -> Result<
    (Seq<Tree>, Seq<Tree>, Env),
    Refusal,
>
    decreases weights(ts), 2 * depths(ts) + 10, 2 * sizes(ts),
{
    if ts.len() == 0 {
        Ok((done, vars, env))
    } else {
        match assign(ts[0], vars, env) {
            Err(refusal) => Err(refusal),
            Ok((t, vars1, env1)) => assign_all(ts.drop_first(), done.push(t), vars1, env1),
        }
    }
}

/// What becomes of an assignment that was made from one that held `bound` of destructuring. It
/// holds less: that is why the rules come to an end. See [`crate::bounds`].
pub open spec fn reassign(t: Tree, vars: Seq<Tree>, env: Env, bound: nat) -> Result<
    (Tree, Seq<Tree>, Env),
    Refusal,
>
    decreases bound, 0nat, 0nat,
{
    if weight(t) < bound {
        assign(t, vars, env)
    } else {
        Err(Refusal::Unsupported)
    }
}

/// What stands for an expression in which all other assignments are lowered: a sequence of
/// assignments where it assigns to a pattern, and else the expression.
pub open spec fn lower_assign(t: Tree, vars: Seq<Tree>, env: Env, bound: nat) -> Result<
    (Tree, Seq<Tree>, Env),
    Refusal,
>
    decreases bound, 3nat, 0nat,
{
    if t.kind != Kind::Expr(ExprKind::Assign(AssignOp::Assign)) {
        Ok((t, vars, env))
    } else if t.children.len() != 2 {
        Err(Refusal::Unsupported)
    } else {
        let left = t.children[0];
        let right = t.children[1];
        match left.kind {
            Kind::Pat(PatKind::Expr) => if left.children.len() != 1 {
                Err(Refusal::Unsupported)
            } else {
                Ok((assign_expr(t.span, left.children[0], right), vars, env))
            },
            Kind::Pat(PatKind::Ident) => Ok((assign_expr(t.span, left, right), vars, env)),
            Kind::Pat(PatKind::Array) => match ref_ident(vars, absent(), env) {
                Err(refusal) => Err(refusal),
                Ok((object, vars1, env1)) => match assign_elems(
                    left.children,
                    0,
                    object,
                    seq![assign_expr(dummy(), ident_pat(object), right)],
                    vars1,
                    env1,
                    bound,
                ) {
                    Err(refusal) => Err(refusal),
                    Ok((exprs, vars2, env2)) => Ok(
                        (seq_expr(exprs.push(ident_expr(object))), vars2, env2),
                    ),
                },
            },
            Kind::Pat(PatKind::Object) => match ref_ident(vars, absent(), env) {
                Err(refusal) => Err(refusal),
                Ok((object, vars1, env1)) => match assign_props(
                    left.children,
                    0,
                    object,
                    seq![assign_expr(left.span, ident_pat(object), right)],
                    vars1,
                    env1,
                ) {
                    Err(refusal) => Err(refusal),
                    Ok((exprs, vars2, env2)) => Ok(
                        (seq_expr(exprs.push(ident_expr(object))), vars2, env2),
                    ),
                },
            },
            Kind::Pat(_) => Err(Refusal::Unsupported),
            _ => Ok((assign_expr(t.span, left, right), vars, env)),
        }
    }
}

/// The assignments that stand for one element of an array pattern, whose value is `object`.
pub open spec fn assign_elem(
    elem: Tree,
    i: int,
    object: Name,
    exprs: Seq<Tree>,
    vars: Seq<Tree>,
    env: Env,
    bound: nat,
) -> Result<(Seq<Tree>, Seq<Tree>, Env), Refusal>
    decreases bound, 1nat, 0nat,
{
    match elem.kind {
        Kind::Pat(PatKind::Assign) => if elem.children.len() != 2 {
            Err(Refusal::Unsupported)
        } else {
            match ref_ident(vars, absent(), env) {
                Err(refusal) => Err(refusal),
                Ok((tmp, vars1, env1)) => match reassign(
                    assign_expr(
                        elem.span,
                        elem.children[0],
                        cond_expr(tmp, elem.children[1]),
                    ),
                    vars1,
                    env1,
                    bound,
                ) {
                    Err(refusal) => Err(refusal),
                    Ok((t, vars2, env2)) => Ok(
                        (
                            exprs.push(
                                assign_expr(dummy(), ident_pat(tmp), ref_idx_expr(object, i)),
                            ).push(t),
                            vars2,
                            env2,
                        ),
                    ),
                },
            }
        },
        Kind::Pat(PatKind::Rest { dot3 }) => if elem.children.len() != 1 {
            Err(Refusal::Unsupported)
        } else {
            match reassign(
                assign_expr(elem.span, elem.children[0], slice_call(object, i, dummy())),
                vars,
                env,
                bound,
            ) {
                Err(refusal) => Err(refusal),
                Ok((t, vars1, env1)) => Ok((exprs.push(t), vars1, env1)),
            }
        },
        _ => match reassign(
            assign_expr(elem.span, elem, ref_idx_expr(object, i)),
            vars,
            env,
            bound,
        ) {
            Err(refusal) => Err(refusal),
            Ok((t, vars1, env1)) => Ok((exprs.push(t), vars1, env1)),
        },
    }
}

/// The assignments that stand for the elements of an array pattern from index `i` on.
pub open spec fn assign_elems(
    elems: Seq<Tree>,
    i: nat,
    object: Name,
    exprs: Seq<Tree>,
    vars: Seq<Tree>,
    env: Env,
    bound: nat,
) -> Result<(Seq<Tree>, Seq<Tree>, Env), Refusal>
    decreases bound, 1nat, 1 + elems.len() - i,
{
    if i >= elems.len() {
        Ok((exprs, vars, env))
    } else if elems[i as int].kind == Kind::Absent {
        assign_elems(elems, i + 1, object, exprs, vars, env, bound)
    } else {
        match assign_elem(elems[i as int], i as int, object, exprs, vars, env, bound) {
            Err(refusal) => Err(refusal),
            Ok((exprs1, vars1, env1)) => assign_elems(
                elems,
                i + 1,
                object,
                exprs1,
                vars1,
                env1,
                bound,
            ),
        }
    }
}

/// The assignments that stand for one property of an object pattern, whose value is `object`. The
/// value of a property is taken as it is: a pattern that stands there stays.
pub open spec fn assign_prop(
    prop: Tree,
    object: Name,
    exprs: Seq<Tree>,
    vars: Seq<Tree>,
    env: Env,
) -> Result<(Seq<Tree>, Seq<Tree>, Env), Refusal> {
    if prop.children.len() != 2 {
        Err(Refusal::Unsupported)
    } else {
        let key = prop.children[0];
        let value = prop.children[1];
        match prop.kind {
            Kind::PatProp(PatPropKind::KeyValue) => match prop_name_expr(key) {
                None => Err(Refusal::Unsupported),
                Some(property) => Ok(
                    (
                        exprs.push(assign_expr(prop.span, value, ref_prop_expr(object, property))),
                        vars,
                        env,
                    ),
                ),
            },
            Kind::PatProp(PatPropKind::Assign) => {
                let property = ref_prop_expr(object, ident_expr(name_of(key)));
                if value.kind == Kind::Absent {
                    Ok(
                        (
                            exprs.push(
                                assign_expr(prop.span, ident_pat(name_of(key)), property),
                            ),
                            vars,
                            env,
                        ),
                    )
                } else {
                    match ref_ident(vars, absent(), env) {
                        Err(refusal) => Err(refusal),
                        Ok((tmp, vars1, env1)) => Ok(
                            (
                                exprs.push(
                                    assign_expr(prop.span, ident_pat(tmp), property),
                                ).push(
                                    assign_expr(
                                        prop.span,
                                        ident_pat(name_of(key)),
                                        cond_expr(tmp, value),
                                    ),
                                ),
                                vars1,
                                env1,
                            ),
                        ),
                    }
                }
            },
            _ => Err(Refusal::Unsupported),
        }
    }
}

/// The assignments that stand for the properties of an object pattern from index `i` on.
pub open spec fn assign_props(
    props: Seq<Tree>,
    i: nat,
    object: Name,
    exprs: Seq<Tree>,
    vars: Seq<Tree>,
    env: Env,
) -> Result<(Seq<Tree>, Seq<Tree>, Env), Refusal>
    decreases props.len() - i,
{
    if i >= props.len() {
        Ok((exprs, vars, env))
    } else {
        match assign_prop(props[i as int], object, exprs, vars, env) {
            Err(refusal) => Err(refusal),
            Ok((exprs1, vars1, env1)) => assign_props(
                props,
                i + 1,
                object,
                exprs1,
                vars1,
                env1,
            ),
        }
    }
}

} // verus!
