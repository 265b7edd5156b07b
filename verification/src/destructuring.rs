//! The pass.
use crate::ast::{
    tree, trees, AssignOp, ExprKind, Kind, MemberKind, Node, PartKind, PatKind, PatPropKind,
    PropKind, Span, StmtKind, Tree, VarDeclKind,
};
use crate::factory::{
    dummy_sp, make_absent, make_assign_expr, make_binary, make_cond_expr, make_declarator,
    make_helper_call, make_ident_expr, make_ident_pat, make_inner, make_node2, make_node3,
    make_non_null_expr, make_ref_idx_expr, make_ref_prop_expr, make_seq_expr, make_slice_call,
    make_unary, make_var_decl, prop_name_to_expr,
};
use crate::hygiene::{Env, Ident, Name, Refusal, Session};
use crate::measure::{any_complex, count_complex, depth, depths, size, sizes, weight, weights};
use crate::nullness::can_be_null;
use crate::rules;
use crate::shrink;
use crate::visitor::has_destruturing;
use crate::weighing;
use vstd::prelude::*;
use vstd::string::StringExecFns;

verus! {

broadcast use crate::ast::group_trees;

/// Makes the pass, which runs with the given table and helpers.
pub fn destructuring(session: Session) -> (pass: Destructuring)
    ensures
        pass.session == session,
{
    Destructuring { session }
}

/// Whether a node and a state are what a rule says, or the refusal is.
pub open spec fn agrees(
    node: Result<Node, Refusal>,
    env: Env,
    rule: Result<(Tree, Env), Refusal>,
) -> bool {
    match rule {
        Ok((t, env1)) => node matches Ok(n) && n@ == t && env == env1,
        Err(refusal) => node == Err::<Node, Refusal>(refusal),
    }
}

/// Whether nodes and a state are what a rule says, or the refusal is.
pub open spec fn agrees_all(
    nodes: Result<Vec<Node>, Refusal>,
    env: Env,
    rule: Result<(Seq<Tree>, Env), Refusal>,
) -> bool {
    match rule {
        Ok((ts, env1)) => nodes matches Ok(ns) && trees(ns@) == ts && env == env1,
        Err(refusal) => nodes == Err::<Vec<Node>, Refusal>(refusal),
    }
}

/// Whether a name, declarators and a state are what a rule says, or the refusal is.
spec fn agrees_name(
    ident: Result<Ident, Refusal>,
    decls: Seq<Tree>,
    env: Env,
    rule: Result<(Name, Seq<Tree>, Env), Refusal>,
) -> bool {
    match rule {
        Ok((name, ds, env1)) => ident matches Ok(i) && i@ == name && decls == ds && env == env1,
        Err(refusal) => ident == Err::<Ident, Refusal>(refusal),
    }
}

/// Whether declarators and a state are what a rule says, or the refusal is.
spec fn agrees_decls(
    done: Result<(), Refusal>,
    decls: Seq<Tree>,
    env: Env,
    rule: Result<(Seq<Tree>, Env), Refusal>,
) -> bool {
    match rule {
        Ok((ds, env1)) => done is Ok && decls == ds && env == env1,
        Err(refusal) => done == Err::<(), Refusal>(refusal),
    }
}

/// Whether a node, declarators and a state are what a rule says, or the refusal is.
pub open spec fn agrees_assign(
    node: Result<Node, Refusal>,
    vars: Seq<Tree>,
    env: Env,
    rule: Result<(Tree, Seq<Tree>, Env), Refusal>,
) -> bool {
    match rule {
        Ok((t, vs, env1)) => node matches Ok(n) && n@ == t && vars == vs && env == env1,
        Err(refusal) => node == Err::<Node, Refusal>(refusal),
    }
}

/// Whether expressions, declarators and a state are what a rule says, or the refusal is.
spec fn agrees_exprs(
    done: Result<(), Refusal>,
    exprs: Seq<Tree>,
    vars: Seq<Tree>,
    env: Env,
    rule: Result<(Seq<Tree>, Seq<Tree>, Env), Refusal>,
) -> bool {
    match rule {
        Ok((es, vs, env1)) => done is Ok && exprs == es && vars == vs && env == env1,
        Err(refusal) => done == Err::<(), Refusal>(refusal),
    }
}

/// How a name for the value of `init` is spelled.
fn ref_name(init: &Node) -> (sym: String)
    ensures
        sym@ == rules::ref_text(init@),
{
    match init.kind {
        Kind::Expr(ExprKind::Member { .. }) => {
            if init.children.len() == 2 {
                match (init.children[0].kind, init.children[1].kind) {
                    (Kind::Expr(ExprKind::Ident), Kind::Expr(ExprKind::Ident)) => {
                        let mut sym = "_".to_owned();
                        sym.append(init.children[0].text.as_str());
                        sym.append("$");
                        sym.append(init.children[1].text.as_str());
                        return sym;
                    },
                    _ => {},
                }
            }
            "ref".to_owned()
        },
        _ => "ref".to_owned(),
    }
}

/// Whether this is a name of the program, not one that was generated.
fn is_source_name(node: &Node) -> (answer: bool)
    ensures
        answer == rules::is_source_name(node@),
{
    match node.kind {
        Kind::Expr(ExprKind::Ident) => node.span.ctxt == 0,
        _ => false,
    }
}

/// Whether the last of the elements of an array pattern takes all that is left.
fn ends_in_rest(elems: &Vec<Node>) -> (answer: bool)
    ensures
        answer == rules::ends_in_rest(trees(elems@)),
{
    if elems.len() == 0 {
        return false;
    }
    match elems[elems.len() - 1].kind {
        Kind::Pat(PatKind::Rest { .. }) => true,
        _ => false,
    }
}

/// Lowers destructuring declarations, parameters and assignments.
pub struct Destructuring {
    pub session: Session,
}

impl Destructuring {
    /// The state of the pass, as a mathematical value.
    pub open spec fn env(&self) -> Env {
        self.session.env()
    }

    /// Whether the pass can run.
    pub open spec fn wf(&self) -> bool {
        self.session.wf()
    }

    /// Lowers the destructuring in a node that the pass handles, with a table that has room for the
    /// names.
    pub fn fold(&mut self, node: Node) -> (folded: Node)
        requires
            old(self).wf(),
            rules::fold(node@, old(self).env()) is Ok,
        ensures
            final(self).wf(),
            rules::fold(node@, old(self).env()) == Ok::<_, Refusal>((folded@, final(self).env())),
    {
        match self.try_fold(node) {
            Ok(folded) => folded,
            Err(_) => {
                assert(false);
                make_absent()
            },
        }
    }

    /// A name for the value of `init`: the name that it is, or else a new one, which is declared at
    /// the end of `decls`.
    fn make_ref_ident(&mut self, decls: &mut Vec<Node>, init: Node) -> (ident: Result<
        Ident,
        Refusal,
    >)
        requires
            old(self).wf(),
        ensures
            final(self).wf(),
            agrees_name(
                ident,
                trees(final(decls)@),
                final(self).env(),
                rules::ref_ident(trees(old(decls)@), init@, old(self).env()),
            ),
    {
        match init.kind {
            Kind::Expr(ExprKind::Ident) => Ok(Ident { sym: init.text, span: init.span }),
            _ => {
                let sym = ref_name(&init);
                let span = match init.kind {
                    Kind::Absent => dummy_sp(),
                    _ => init.span,
                };
                let ident = self.session.private_ident(span, sym)?;
                decls.push(make_declarator(span, make_ident_pat(&ident), init));
                Ok(ident)
            },
        }
    }

    /// The name under which the value of `init` meets the default value of a pattern at `span`.
    fn make_tmp_ident(&mut self, decls: &mut Vec<Node>, init: Node, span: Span) -> (ident: Result<
        Ident,
        Refusal,
    >)
        requires
            old(self).wf(),
        ensures
            final(self).wf(),
            agrees_name(
                ident,
                trees(final(decls)@),
                final(self).env(),
                rules::tmp_ident(trees(old(decls)@), init@, span, old(self).env()),
            ),
    {
        match init.kind {
            Kind::Expr(ExprKind::Ident) => {
                if init.span.ctxt != 0 {
                    return Ok(Ident { sym: init.text, span: init.span });
                }
            },
            _ => {},
        }
        let ident = self.session.private_ident(span, "tmp".to_owned())?;
        decls.push(make_declarator(dummy_sp(), make_ident_pat(&ident), init));
        Ok(ident)
    }

    /// A name for the object that `ident` stands for, which is checked not to be null where
    /// `checked` says so.
    fn make_non_null_ident(&mut self, decls: &mut Vec<Node>, ident: Ident, checked: bool) -> (r:
        Result<Ident, Refusal>)
        requires
            old(self).wf(),
        ensures
            final(self).wf(),
            agrees_name(
                r,
                trees(final(decls)@),
                final(self).env(),
                rules::non_null_ident(trees(old(decls)@), ident@, checked, old(self).env()),
            ),
    {
        if !checked {
            return Ok(ident);
        }
        let throw = self.session.throw()?;
        let test = make_non_null_expr(&ident, &throw);
        self.make_ref_ident(decls, test)
    }

    /// A new name for the value of a name of the program, `_a` for `a`.
    fn make_alias_ident(&mut self, decls: &mut Vec<Node>, init: Node) -> (ident: Result<
        Ident,
        Refusal,
    >)
        requires
            old(self).wf(),
        ensures
            final(self).wf(),
            agrees_name(
                ident,
                trees(final(decls)@),
                final(self).env(),
                rules::alias_ident(trees(old(decls)@), init@, old(self).env()),
            ),
    {
        let span = init.span;
        let mut sym = "_".to_owned();
        sym.append(init.text.as_str());
        let ident = self.session.private_ident(span, sym)?;
        decls.push(make_declarator(span, make_ident_pat(&ident), init));
        Ok(ident)
    }

    /// The name under which the elements `elems` of the value of `init` are read.
    fn make_array_ident(&mut self, elems: &Vec<Node>, decls: &mut Vec<Node>, init: Node) -> (ident:
        Result<Ident, Refusal>)
        requires
            old(self).wf(),
        ensures
            final(self).wf(),
            agrees_name(
                ident,
                trees(final(decls)@),
                final(self).env(),
                rules::array_ident(
                    trees(elems@),
                    trees(old(decls)@),
                    init@,
                    old(self).env(),
                ),
            ),
    {
        if !is_source_name(&init) || !ends_in_rest(elems) {
            return self.make_ref_ident(decls, init);
        }
        let mut sym = "_".to_owned();
        sym.append(init.text.as_str());
        sym.append("2");
        let alias = self.make_alias_ident(decls, init)?;
        let helper = self.session.to_array()?;
        let ident = self.session.private_ident(dummy_sp(), sym)?;
        let value = make_helper_call(&helper, &alias);
        decls.push(make_declarator(dummy_sp(), make_ident_pat(&ident), value));
        Ok(ident)
    }

    /// The name under which the properties `props` of the value of `init` are read. The value is
    /// checked not to be null where `checked` says so, unless it is that of a name of the program
    /// and there are properties to read.
    fn make_object_ident(
        &mut self,
        props: &Vec<Node>,
        decls: &mut Vec<Node>,
        init: Node,
        checked: bool,
    ) -> (ident: Result<Ident, Refusal>)
        requires
            old(self).wf(),
            checked == (crate::nullness::nullable(init@) == Some(true)),
        ensures
            final(self).wf(),
            agrees_name(
                ident,
                trees(final(decls)@),
                final(self).env(),
                rules::object_ident(
                    trees(props@),
                    trees(old(decls)@),
                    init@,
                    old(self).env(),
                ),
            ),
    {
        if is_source_name(&init) && props.len() > 0 {
            return self.make_alias_ident(decls, init);
        }
        let ref_ident = self.make_ref_ident(decls, init)?;
        self.make_non_null_ident(decls, ref_ident, checked)
    }

    /// Goes through the nodes one by one.
    fn fold_all(&mut self, nodes: Vec<Node>) -> (folded: Result<Vec<Node>, Refusal>)
        requires
            old(self).wf(),
        ensures
            final(self).wf(),
            agrees_all(
                folded,
                final(self).env(),
                rules::fold_all(trees(nodes@), Seq::empty(), old(self).env()),
            ),
        decreases
            weights(trees(nodes@)),
            2 * depths(trees(nodes@)) + 10,
            2 * sizes(trees(nodes@)),
    {
        let ghost ts = trees(nodes@);
        let mut done: Vec<Node> = Vec::new();
        assert(ts.skip(0) =~= ts);
        for node in it: nodes
            invariant
                self.wf(),
                ts == trees(nodes@),
                ts == trees(it.seq()),
                rules::fold_all(ts.skip(it.index()), trees(done@), self.env())
                    == rules::fold_all(ts, Seq::empty(), old(self).env()),
                weights(ts.skip(it.index())) <= weights(ts),
                depths(ts.skip(it.index())) <= depths(ts),
                sizes(ts.skip(it.index())) <= sizes(ts),
        {
            let ghost rest = ts.skip(it.index());
            assert(rest[0] == tree(node));
            assert(rest.drop_first() =~= ts.skip(it.index() + 1));
            let folded = self.try_fold(node)?;
            done.push(folded);
        }
        Ok(done)
    }

    /// Lowers the destructuring in a node, or says why it does not.
    pub fn try_fold(&mut self, node: Node) -> (folded: Result<Node, Refusal>)
        requires
            old(self).wf(),
        ensures
            final(self).wf(),
            agrees(folded, final(self).env(), rules::fold(node@, old(self).env())),
        decreases weight(node@), 2 * depth(node@) + 10, 2 * size(node@),
    {
        match node.kind {
            Kind::Stmt(StmtKind::ForIn) | Kind::Stmt(StmtKind::ForOf { .. }) => {
                return self.fold_for(node);
            },
            Kind::Part(PartKind::Function { .. }) => {
                return self.fold_function(node);
            },
            Kind::Member(MemberKind::Constructor) => {
                return self.fold_constructor(node);
            },
            Kind::Prop(PropKind::Setter) => {
                return self.fold_setter(node);
            },
            Kind::Part(PartKind::Catch) => {
                return self.fold_catch(node);
            },
            Kind::Expr(ExprKind::Arrow { .. }) => {
                return self.fold_arrow(node);
            },
            _ => {},
        }
        let Node { kind, text, span, children } = node;
        let children = match kind {
            Kind::Stmt(StmtKind::VarDecl { .. }) => self.fold_decls(children)?,
            Kind::Stmt(StmtKind::Block)
            | Kind::Part(PartKind::Stmts)
            | Kind::Part(PartKind::TsModuleBlock)
            | Kind::Module
            | Kind::Script => self.fold_stmts(children)?,
            _ => self.fold_all(children)?,
        };
        Ok(Node { kind, text, span, children })
    }

    /// Lowers a list of declarators.
    fn fold_decls(&mut self, declarators: Vec<Node>) -> (folded: Result<Vec<Node>, Refusal>)
        requires
            old(self).wf(),
        ensures
            final(self).wf(),
            agrees_all(
                folded,
                final(self).env(),
                rules::fold_decls(trees(declarators@), old(self).env()),
            ),
        decreases
            weights(trees(declarators@)),
            2 * depths(trees(declarators@)) + 10,
            2 * sizes(trees(declarators@)) + 1,
    {
        let ghost bound = weights(trees(declarators@));
        proof {
            shrink::lemma_fold_all(trees(declarators@), Seq::empty(), self.env());
        }
        let folded = self.fold_all(declarators)?;
        if !is_complex(&folded) {
            return Ok(folded);
        }
        let mut decls: Vec<Node> = Vec::new();
        let ghost ds = trees(folded@);
        let ghost env = self.env();
        assert(ds.skip(0) =~= ds);
        for decl in it: folded
            invariant
                self.wf(),
                bound == weights(trees(declarators@)),
                ds == trees(it.seq()),
                rules::fold_all(trees(declarators@), Seq::empty(), old(self).env()) == Ok::<
                    _,
                    Refusal,
                >((ds, env)),
                any_complex(ds),
                weights(ds) <= bound,
                rules::lower_decls(ds.skip(it.index()), trees(decls@), self.env(), bound)
                    == rules::lower_decls(ds, Seq::empty(), env, bound),
        {
            assert(ds.skip(it.index())[0] == tree(decl));
            assert(ds.skip(it.index()).drop_first() =~= ds.skip(it.index() + 1));
            proof {
                weighing::lemma_index(ds, it.index());
            }
            self.lower_decl(decl, &mut decls, Ghost(bound))?;
        }
        Ok(decls)
    }

    /// Lowers one declarator, behind those in `decls`.
    fn lower_decl(&mut self, decl: Node, decls: &mut Vec<Node>, Ghost(bound): Ghost<nat>) -> (done:
        Result<(), Refusal>)
        requires
            old(self).wf(),
            weight(decl@) <= bound,
        ensures
            final(self).wf(),
            agrees_decls(
                done,
                trees(final(decls)@),
                final(self).env(),
                rules::lower_decl(decl@, trees(old(decls)@), old(self).env(), bound),
            ),
        decreases bound, 2nat, 0nat,
    {
        match decl.kind {
            Kind::Part(PartKind::Declarator { .. }) => {},
            _ => {
                return Err(Refusal::Unsupported);
            },
        }
        if decl.children.len() != 2 {
            return Err(Refusal::Unsupported);
        }
        assert(decl@.children[0] == decl.children[0]@);
        match decl.children[0].kind {
            Kind::Pat(PatKind::Ident) => {
                decls.push(decl);
                return Ok(());
            },
            _ => {},
        }
        let Node { kind: _, text: _, span: _, mut children } = decl;
        let init = children.swap_remove(1);
        let name = children.swap_remove(0);
        let Node { kind, text: _, span, children: mut parts } = name;
        proof {
            assert(decl@.children =~= seq![name@, init@]);
            weighing::lemma_two(name@, init@);
        }
        match init.kind {
            Kind::Absent => {
                // destructuring pattern binding requires initializer
                return Err(Refusal::Unsupported);
            },
            _ => {},
        }
        match kind {
            Kind::Pat(PatKind::Array) => {
                // Make ref var if required
                let ref_ident = self.make_array_ident(&parts, decls, init)?;
                self.lower_elems(parts, ref_ident, decls, Ghost(bound))
            },
            Kind::Pat(PatKind::Object) => {
                let checked = match can_be_null(&init) {
                    Some(checked) => checked,
                    None => {
                        // destructuring jsx
                        return Err(Refusal::Unsupported);
                    },
                };
                let ref_ident = self.make_object_ident(&parts, decls, init, checked)?;
                self.lower_props(parts, ref_ident, decls, Ghost(bound))
            },
            Kind::Pat(PatKind::Assign) => {
                if parts.len() != 2 {
                    return Err(Refusal::Unsupported);
                }
                let tmp_ident = self.make_tmp_ident(decls, init, span)?;
                let def_value = parts.swap_remove(1);
                let left = parts.swap_remove(0);
                proof {
                    assert(name@.children =~= seq![left@, def_value@]);
                    weighing::lemma_two(left@, def_value@);
                    weighing::lemma_cond_expr(tmp_ident@, def_value@);
                    weighing::lemma_declarator(
                        span,
                        left@,
                        crate::factory::cond_expr(tmp_ident@, def_value@),
                    );
                }
                // tmp === void 0 ? def_value : tmp
                let var_decl = make_declarator(span, left, make_cond_expr(&tmp_ident, def_value));
                self.refold(var_decl, decls, Ghost(bound))
            },
            _ => Err(Refusal::Unsupported),
        }
    }

    /// Lowers a declarator that the pass has made, behind those in `decls`.
    fn refold(&mut self, var_decl: Node, decls: &mut Vec<Node>, Ghost(bound): Ghost<nat>) -> (done:
        Result<(), Refusal>)
        requires
            old(self).wf(),
            weight(var_decl@) < bound,
        ensures
            final(self).wf(),
            match rules::refold(seq![var_decl@], old(self).env(), bound) {
                Ok((ds, env)) => done is Ok && trees(final(decls)@) == trees(old(decls)@) + ds
                    && final(self).env() == env,
                Err(refusal) => done == Err::<(), Refusal>(refusal),
            },
        decreases bound, 0nat, 0nat,
    {
        let mut one: Vec<Node> = Vec::new();
        one.push(var_decl);
        proof {
            assert(trees(one@) =~= seq![var_decl@]);
            weighing::lemma_one(var_decl@);
        }
        let mut folded = self.fold_decls(one)?;
        decls.append(&mut folded);
        Ok(())
    }

    /// Lowers the elements of an array pattern, behind the declarators in `decls`.
    fn lower_elems(
        &mut self,
        elems: Vec<Node>,
        ref_ident: Ident,
        decls: &mut Vec<Node>,
        Ghost(bound): Ghost<nat>,
    ) -> (done: Result<(), Refusal>)
        requires
            old(self).wf(),
            weights(trees(elems@)) < bound,
        ensures
            final(self).wf(),
            agrees_decls(
                done,
                trees(final(decls)@),
                final(self).env(),
                rules::lower_elems(
                    trees(elems@),
                    0,
                    ref_ident@,
                    trees(old(decls)@),
                    old(self).env(),
                    bound,
                ),
            ),
        decreases bound, 1nat, elems.len(),
    {
        let ghost ts = trees(elems@);
        let ghost whole = rules::lower_elems(
            ts,
            0,
            ref_ident@,
            trees(decls@),
            self.env(),
            bound,
        );
        let n: usize = elems.len();
        let mut i: usize = 0;
        for elem in it: elems
            invariant
                self.wf(),
                n == elems.len(),
                i == it.index(),
                n == it.seq().len(),
                ts == trees(it.seq()),
                ts == trees(elems@),
                weights(ts) < bound,
                whole == rules::lower_elems(
                    ts,
                    0,
                    ref_ident@,
                    trees(old(decls)@),
                    old(self).env(),
                    bound,
                ),
                rules::lower_elems(ts, i as nat, ref_ident@, trees(decls@), self.env(), bound)
                    == whole,
        {
            proof {
                assert(ts[i as int] == tree(elem));
                weighing::lemma_index(ts, i as int);
                shrink::lemma_elem_decl(elem@, i as int, ref_ident@);
            }
            match elem.kind {
                Kind::Absent => {},
                Kind::Pat(PatKind::Rest { dot3 }) => {
                    if elem.children.len() != 1 {
                        return Err(Refusal::Unsupported);
                    }
                    let mut parts = elem.children;
                    assert(elem@.children == trees(parts@));
                    let arg = parts.swap_remove(0);
                    let init = make_slice_call(&ref_ident, i, dot3);
                    self.refold(make_declarator(dot3, arg, init), decls, Ghost(bound))?;
                },
                _ => {
                    // This might be pattern.
                    // So we fold it again.
                    let init = make_ref_idx_expr(&ref_ident, i);
                    self.refold(make_declarator(elem.span, elem, init), decls, Ghost(bound))?;
                },
            }
            i = i + 1;
        }
        Ok(())
    }

    /// Lowers the properties of an object pattern, behind the declarators in `decls`.
    fn lower_props(
        &mut self,
        props: Vec<Node>,
        ref_ident: Ident,
        decls: &mut Vec<Node>,
        Ghost(bound): Ghost<nat>,
    ) -> (done: Result<(), Refusal>)
        requires
            old(self).wf(),
            weights(trees(props@)) < bound,
        ensures
            final(self).wf(),
            agrees_decls(
                done,
                trees(final(decls)@),
                final(self).env(),
                rules::lower_props(
                    trees(props@),
                    0,
                    ref_ident@,
                    trees(old(decls)@),
                    old(self).env(),
                    bound,
                ),
            ),
        decreases bound, 1nat, 1 + props.len(),
    {
        let ghost ts = trees(props@);
        let ghost whole = rules::lower_props(
            ts,
            0,
            ref_ident@,
            trees(decls@),
            self.env(),
            bound,
        );
        for prop in it: props
            invariant
                self.wf(),
                ts == trees(it.seq()),
                ts == trees(props@),
                weights(ts) < bound,
                whole == rules::lower_props(
                    ts,
                    0,
                    ref_ident@,
                    trees(old(decls)@),
                    old(self).env(),
                    bound,
                ),
                rules::lower_props(
                    ts,
                    it.index() as nat,
                    ref_ident@,
                    trees(decls@),
                    self.env(),
                    bound,
                ) == whole,
        {
            proof {
                assert(ts[it.index()] == tree(prop));
                weighing::lemma_index(ts, it.index());
            }
            self.lower_prop(prop, &ref_ident, decls, Ghost(bound))?;
        }
        Ok(())
    }

    /// Lowers one property of an object pattern, behind the declarators in `decls`.
    fn lower_prop(
        &mut self,
        prop: Node,
        ref_ident: &Ident,
        decls: &mut Vec<Node>,
        Ghost(bound): Ghost<nat>,
    ) -> (done: Result<(), Refusal>)
        requires
            old(self).wf(),
            weight(prop@) < bound,
        ensures
            final(self).wf(),
            agrees_decls(
                done,
                trees(final(decls)@),
                final(self).env(),
                rules::lower_prop(prop@, ref_ident@, trees(old(decls)@), old(self).env(), bound),
            ),
        decreases bound, 1nat, 0nat,
    {
        if prop.children.len() != 2 {
            return Err(Refusal::Unsupported);
        }
        let Node { kind, text: _, span, children: mut parts } = prop;
        assert(prop@.children == trees(parts@));
        let value = parts.swap_remove(1);
        let key = parts.swap_remove(0);
        proof {
            shrink::lemma_prop_decls(prop@, ref_ident@, ref_ident@);
        }
        match kind {
            Kind::PatProp(PatPropKind::KeyValue) => {
                let property = prop_name_to_expr(key)?;
                let init = make_ref_prop_expr(ref_ident, property);
                let var_decl = make_declarator(span, value, init);
                proof {
                    weighing::lemma_one(var_decl@);
                }
                self.refold(var_decl, decls, Ghost(bound))
            },
            Kind::PatProp(PatPropKind::Assign) => {
                let key = Ident { sym: key.text, span: key.span };
                let init = make_ref_prop_expr(ref_ident, make_ident_expr(&key));
                let init = match value.kind {
                    Kind::Absent => init,
                    _ => {
                        let tmp_ident = self.make_ref_ident(decls, init)?;
                        proof {
                            shrink::lemma_prop_decls(prop@, ref_ident@, tmp_ident@);
                        }
                        make_cond_expr(&tmp_ident, value)
                    },
                };
                let var_decl = make_declarator(span, make_ident_pat(&key), init);
                proof {
                    weighing::lemma_one(var_decl@);
                }
                self.refold(var_decl, decls, Ghost(bound))
            },
            // Object rest pattern should be removed before.
            _ => Err(Refusal::Unsupported),
        }
    }

    /// Lowers the head of a `for .. in` or `for .. of` loop.
    fn fold_for(&mut self, node: Node) -> (folded: Result<Node, Refusal>)
        requires
            old(self).wf(),
            shrink::is_loop(node.kind),
        ensures
            final(self).wf(),
            agrees(folded, final(self).env(), rules::fold_for(node@, old(self).env())),
        decreases weight(node@), 5nat, 0nat,
    {
        if node.children.len() != 3 {
            return Err(Refusal::Unsupported);
        }
        assert(node@.children[0] == node.children[0]@);
        match node.children[0].kind {
            Kind::Stmt(StmtKind::VarDecl { .. }) => {
                if !is_complex(&node.children[0].children) {
                    return Ok(node);
                }
            },
            Kind::Pat(PatKind::Ident) => {
                return Ok(node);
            },
            _ => {
                // for in/of loop without let / const / var
                return Err(Refusal::Unsupported);
            },
        }
        let ghost bound = weight(node@);
        let Node { kind, text, span, mut children } = node;
        let body = children.swap_remove(2);
        let right = children.swap_remove(1);
        let var_decl = children.swap_remove(0);
        let Node { kind: decl_kind, text: decl_text, span: decl_span, children: decls } = var_decl;
        if !are_decls(&decls) {
            return Err(Refusal::Unsupported);
        }
        let ref_ident = self.session.private_ident(dummy_sp(), "ref".to_owned())?;
        let mut head: Vec<Node> = Vec::new();
        head.push(make_declarator(dummy_sp(), make_ident_pat(&ref_ident), make_absent()));
        assert(trees(head@) =~= seq![head@[0]@]);
        let left = Node { kind: decl_kind, text: decl_text, span: decl_span, children: head };
        proof {
            assert(node@.children =~= seq![var_decl@, right@, body@]);
            weighing::lemma_three(var_decl@, right@, body@);
            shrink::lemma_init_all(trees(decls@), ref_ident@);
        }
        // Unpack variables
        let decls = self.fold_decls(init_all(decls, &ref_ident))?;
        let stmt = make_var_decl(VarDeclKind::Let, decl_span, decls);
        let body = prepend(stmt, body);
        Ok(make_node3(kind, text, span, left, right, body))
    }

    /// Replaces the parameters of a function that are more than a name, and takes them apart before
    /// the statements of its body.
    fn fold_fn_like(&mut self, ps: Vec<Node>, body: Vec<Node>, Ghost(bound): Ghost<nat>) -> (folded:
        Result<(Vec<Node>, Vec<Node>), Refusal>)
        requires
            old(self).wf(),
            weights(trees(ps@)) + count_complex(trees(ps@)) <= bound,
        ensures
            final(self).wf(),
            match rules::fold_fn_like(trees(ps@), trees(body@), old(self).env(), bound) {
                Ok((params, stmts, env)) => folded matches Ok((p, s)) && trees(p@) == params
                    && trees(s@) == stmts && final(self).env() == env,
                Err(refusal) => folded == Err::<(Vec<Node>, Vec<Node>), Refusal>(refusal),
            },
        decreases bound, 4nat, 0nat,
    {
        let ghost ts = trees(ps@);
        let ghost whole = rules::split_params(ts, Seq::empty(), Seq::empty(), self.env());
        let mut params: Vec<Node> = Vec::new();
        let mut decls: Vec<Node> = Vec::new();
        assert(ts.skip(0) =~= ts);
        for pat in it: ps
            invariant
                self.wf(),
                ts == trees(it.seq()),
                ts == trees(ps@),
                whole == rules::split_params(ts, Seq::empty(), Seq::empty(), old(self).env()),
                rules::split_params(
                    ts.skip(it.index()),
                    trees(params@),
                    trees(decls@),
                    self.env(),
                ) == whole,
        {
            assert(ts.skip(it.index())[0] == tree(pat));
            assert(ts.skip(it.index()).drop_first() =~= ts.skip(it.index() + 1));
            match pat.kind {
                Kind::Pat(PatKind::Ident) => params.push(pat),
                Kind::Pat(PatKind::Array)
                | Kind::Pat(PatKind::Object)
                | Kind::Pat(PatKind::Assign) => {
                    let span = pat.span;
                    let ref_ident = self.session.private_ident(span, "ref".to_owned())?;
                    params.push(make_ident_pat(&ref_ident));
                    decls.push(make_declarator(span, pat, make_ident_expr(&ref_ident)));
                },
                Kind::Pat(_) => {},
                _ => {
                    return Err(Refusal::Unsupported);
                },
            }
        }
        if decls.len() == 0 {
            return Ok((params, body));
        }
        proof {
            shrink::lemma_split_params(ts, Seq::empty(), Seq::empty(), old(self).env());
        }
        let decls = self.fold_decls(decls)?;
        let mut stmts: Vec<Node> = Vec::new();
        stmts.push(make_var_decl(VarDeclKind::Let, dummy_sp(), decls));
        let ghost first = trees(stmts@);
        let mut rest = body;
        stmts.append(&mut rest);
        proof {
            assert(first =~= seq![first[0]]);
        }
        Ok((params, stmts))
    }

    /// Lowers the parameters of a function.
    fn fold_function(&mut self, node: Node) -> (folded: Result<Node, Refusal>)
        requires
            old(self).wf(),
        ensures
            final(self).wf(),
            agrees(folded, final(self).env(), rules::fold_function(node@, old(self).env())),
        decreases weight(node@), 2 * depth(node@) + 10, 2 * size(node@) - 1,
    {
        if node.children.len() != 3 {
            return Err(Refusal::Unsupported);
        }
        assert(node@.children[0] == node.children[0]@);
        assert(node@.children[2] == node.children[2]@);
        match (node.children[0].kind, node.children[2].kind) {
            (Kind::Part(PartKind::Params), Kind::Absent) => {
                return Ok(node);
            },
            (Kind::Part(PartKind::Params), Kind::Stmt(StmtKind::Block)) => {},
            _ => {
                return Err(Refusal::Unsupported);
            },
        }
        let ghost bound = weight(node@);
        let Node { kind, text, span, children } = node;
        proof {
            lemma_parts(node@, self.env());
        }
        let mut parts = self.fold_all(children)?;
        let ghost cs = trees(parts@);
        let body = parts.swap_remove(2);
        let decorators = parts.swap_remove(1);
        let params = parts.swap_remove(0);
        proof {
            weighing::lemma_index(cs, 0);
        }
        let (ps, stmts) = self.fold_fn_like(params.children, body.children, Ghost(bound))?;
        let params = Node { kind: params.kind, text: params.text, span: params.span, children: ps };
        let body = Node { kind: body.kind, text: body.text, span: body.span, children: stmts };
        Ok(make_node3(kind, text, span, params, decorators, body))
    }

    /// Lowers the parameters of a constructor.
    fn fold_constructor(&mut self, node: Node) -> (folded: Result<Node, Refusal>)
        requires
            old(self).wf(),
        ensures
            final(self).wf(),
            agrees(folded, final(self).env(), rules::fold_constructor(node@, old(self).env())),
        decreases weight(node@), 2 * depth(node@) + 10, 2 * size(node@) - 1,
    {
        if node.children.len() != 3 {
            return Err(Refusal::Unsupported);
        }
        assert(node@.children[1] == node.children[1]@);
        assert(node@.children[2] == node.children[2]@);
        match (node.children[1].kind, node.children[2].kind) {
            (Kind::Part(PartKind::Params), Kind::Absent) => {
                return Ok(node);
            },
            (Kind::Part(PartKind::Params), Kind::Stmt(StmtKind::Block)) => {},
            _ => {
                return Err(Refusal::Unsupported);
            },
        }
        let ghost bound = weight(node@);
        let Node { kind, text, span, children } = node;
        proof {
            lemma_parts(node@, self.env());
        }
        let mut parts = self.fold_all(children)?;
        let ghost cs = trees(parts@);
        let body = parts.swap_remove(2);
        let params = parts.swap_remove(1);
        let key = parts.swap_remove(0);
        proof {
            weighing::lemma_index(cs, 1);
        }
        let (ps, stmts) = self.fold_fn_like(params.children, body.children, Ghost(bound))?;
        let params = Node { kind: params.kind, text: params.text, span: params.span, children: ps };
        let body = Node { kind: body.kind, text: body.text, span: body.span, children: stmts };
        Ok(make_node3(kind, text, span, key, params, body))
    }

    /// Lowers the parameter of a setter.
    fn fold_setter(&mut self, node: Node) -> (folded: Result<Node, Refusal>)
        requires
            old(self).wf(),
            node.kind == Kind::Prop(PropKind::Setter),
        ensures
            final(self).wf(),
            agrees(folded, final(self).env(), rules::fold_setter(node@, old(self).env())),
        decreases weight(node@), 2 * depth(node@) + 10, 2 * size(node@) - 1,
    {
        if node.children.len() != 3 {
            return Err(Refusal::Unsupported);
        }
        assert(node@.children[2] == node.children[2]@);
        match node.children[2].kind {
            Kind::Absent => {
                return Ok(node);
            },
            Kind::Stmt(StmtKind::Block) => {},
            _ => {
                return Err(Refusal::Unsupported);
            },
        }
        let ghost bound = weight(node@);
        let Node { kind, text, span, children } = node;
        proof {
            lemma_parts(node@, self.env());
        }
        let mut parts = self.fold_all(children)?;
        let ghost cs = trees(parts@);
        let body = parts.swap_remove(2);
        let param = parts.swap_remove(1);
        let key = parts.swap_remove(0);
        let mut params: Vec<Node> = Vec::new();
        params.push(param);
        proof {
            assert(trees(params@) =~= seq![param@]);
            assert(cs =~= seq![key@, param@, body@]);
            weighing::lemma_three(key@, param@, body@);
            weighing::lemma_one(param@);
        }
        let (mut ps, stmts) = self.fold_fn_like(params, body.children, Ghost(bound))?;
        if ps.len() != 1 {
            return Err(Refusal::Unsupported);
        }
        let param = ps.swap_remove(0);
        let body = Node { kind: body.kind, text: body.text, span: body.span, children: stmts };
        Ok(make_node3(kind, text, span, key, param, body))
    }

    /// Lowers the parameter of a catch clause.
    fn fold_catch(&mut self, node: Node) -> (folded: Result<Node, Refusal>)
        requires
            old(self).wf(),
            node.kind == Kind::Part(PartKind::Catch),
        ensures
            final(self).wf(),
            agrees(folded, final(self).env(), rules::fold_catch(node@, old(self).env())),
        decreases weight(node@), 2 * depth(node@) + 10, 2 * size(node@) - 1,
    {
        if node.children.len() != 2 {
            return Err(Refusal::Unsupported);
        }
        assert(node@.children[1] == node.children[1]@);
        match node.children[1].kind {
            Kind::Stmt(StmtKind::Block) => {},
            _ => {
                return Err(Refusal::Unsupported);
            },
        }
        let ghost bound = weight(node@);
        let Node { kind, text, span, children } = node;
        proof {
            lemma_parts(node@, self.env());
        }
        let mut parts = self.fold_all(children)?;
        let ghost cs = trees(parts@);
        assert(cs[0] == parts@[0]@);
        match parts[0].kind {
            Kind::Absent => {
                return Ok(Node { kind, text, span, children: parts });
            },
            _ => {},
        }
        let body = parts.swap_remove(1);
        let param = parts.swap_remove(0);
        let mut params: Vec<Node> = Vec::new();
        params.push(param);
        proof {
            assert(trees(params@) =~= seq![param@]);
            assert(cs =~= seq![param@, body@]);
            weighing::lemma_two(param@, body@);
            weighing::lemma_one(param@);
        }
        let (mut ps, stmts) = self.fold_fn_like(params, body.children, Ghost(bound))?;
        let param = if ps.len() == 0 {
            make_absent()
        } else {
            ps.swap_remove(0)
        };
        let body = Node { kind: body.kind, text: body.text, span: body.span, children: stmts };
        Ok(make_node2(kind, text, span, param, body))
    }

    /// Lowers the parameters of an arrow function.
    fn fold_arrow(&mut self, node: Node) -> (folded: Result<Node, Refusal>)
        requires
            old(self).wf(),
        ensures
            final(self).wf(),
            agrees(folded, final(self).env(), rules::fold_arrow(node@, old(self).env())),
        decreases weight(node@), 2 * depth(node@) + 10, 2 * size(node@) - 1,
    {
        if node.children.len() != 2 {
            return Err(Refusal::Unsupported);
        }
        assert(node@.children[0] == node.children[0]@);
        match node.children[0].kind {
            Kind::Part(PartKind::Params) => {},
            _ => {
                return Err(Refusal::Unsupported);
            },
        }
        let ghost bound = weight(node@);
        let Node { kind, text, span, children } = node;
        proof {
            lemma_parts(node@, self.env());
        }
        let mut parts = self.fold_all(children)?;
        let ghost cs = trees(parts@);
        let body = parts.swap_remove(1);
        let params = parts.swap_remove(0);
        proof {
            weighing::lemma_index(cs, 0);
        }
        match body.kind {
            Kind::Stmt(StmtKind::Block) => {
                let (ps, stmts) = self.fold_fn_like(params.children, body.children, Ghost(bound))?;
                let params = Node {
                    kind: params.kind,
                    text: params.text,
                    span: params.span,
                    children: ps,
                };
                let body = Node {
                    kind: body.kind,
                    text: body.text,
                    span: body.span,
                    children: stmts,
                };
                Ok(make_node2(kind, text, span, params, body))
            },
            _ => {
                let body_span = body.span;
                let ghost value = body@;
                let mut ret: Vec<Node> = Vec::new();
                ret.push(make_unary(Kind::Stmt(StmtKind::Return), body_span, body));
                let ghost expr = rules::return_stmt(value);
                assert(trees(ret@) =~= seq![expr]);
                let (ps, mut stmts) = self.fold_fn_like(params.children, ret, Ghost(bound))?;
                let params = Node {
                    kind: params.kind,
                    text: params.text,
                    span: params.span,
                    children: ps,
                };
                let body = if stmts.len() == 1 {
                    assert(trees(stmts@)[0] == expr);
                    let ret = stmts.swap_remove(0);
                    let mut values = ret.children;
                    assert(expr.children == trees(values@));
                    assert(trees(values@)[0] == value);
                    values.swap_remove(0)
                } else {
                    make_inner(Kind::Stmt(StmtKind::Block), body_span, stmts)
                };
                Ok(make_node2(kind, text, span, params, body))
            },
        }
    }

    /// Lowers the declarations in a list of statements, and after them the assignments.
    fn fold_stmts(&mut self, stmts: Vec<Node>) -> (folded: Result<Vec<Node>, Refusal>)
        requires
            old(self).wf(),
        ensures
            final(self).wf(),
            agrees_all(
                folded,
                final(self).env(),
                rules::fold_stmts(trees(stmts@), old(self).env()),
            ),
        decreases
            weights(trees(stmts@)),
            2 * depths(trees(stmts@)) + 12,
            2 * sizes(trees(stmts@)) + 1,
    {
        // fast path
        if !has_destruturing(&stmts) {
            return Ok(stmts);
        }
        let ghost bound = weights(trees(stmts@));
        let ghost deep = depths(trees(stmts@));
        proof {
            shrink::lemma_fold_all(trees(stmts@), Seq::empty(), self.env());
        }
        let folded = self.fold_all(stmts)?;
        let ghost ts = trees(folded@);
        let ghost env = self.env();
        let mut buf: Vec<Node> = Vec::new();
        assert(ts.skip(0) =~= ts);
        for stmt in it: folded
            invariant
                self.wf(),
                bound == weights(trees(stmts@)),
                deep == depths(trees(stmts@)),
                ts == trees(it.seq()),
                crate::measure::any_pattern(trees(stmts@)),
                rules::fold_all(trees(stmts@), Seq::empty(), old(self).env()) == Ok::<_, Refusal>(
                    (ts, env),
                ),
                shrink::shrunk_all(ts, trees(stmts@)),
                rules::assign_stmts(
                    ts.skip(it.index()),
                    trees(buf@),
                    self.env(),
                    bound,
                    deep,
                ) == rules::assign_stmts(ts, Seq::empty(), env, bound, deep),
        {
            assert(ts.skip(it.index())[0] == tree(stmt));
            assert(ts.skip(it.index()).drop_first() =~= ts.skip(it.index() + 1));
            proof {
                weighing::lemma_index(ts, it.index());
            }
            let mut folder = AssignFolder { vars: Vec::new() };
            let stmt = folder.fold(self, stmt)?;
            // Add variable declaration
            // e.g. var ref
            if folder.vars.len() > 0 {
                buf.push(make_var_decl(VarDeclKind::Var, dummy_sp(), folder.vars));
            }
            buf.push(stmt);
        }
        Ok(buf)
    }
}

/// The children of a function, after the pass went over them.
proof fn lemma_parts(t: Tree, env: Env)
    ensures
        rules::fold_all(t.children, Seq::empty(), env) matches Ok((cs, env1)) ==> {
            &&& cs.len() == t.children.len()
            &&& weights(cs) <= weights(t.children)
            &&& count_complex(cs) == count_complex(t.children)
            &&& forall|i: int| 0 <= i < cs.len() ==> (#[trigger] cs[i]).kind == t.children[i].kind
        },
{
    shrink::lemma_fold_all(t.children, Seq::empty(), env);
    shrink::lemma_fold_all_count(t.children, env);
    match rules::fold_all(t.children, Seq::empty(), env) {
        Err(_) => {},
        Ok((cs, env1)) => {
            assert(cs.skip(0) =~= cs);
        },
    }
}

/// Lowers the assignments to patterns, and gathers the declarators of the names that they need.
pub struct AssignFolder {
    pub vars: Vec<Node>,
}

impl AssignFolder {
    /// Goes through the nodes one by one.
    fn fold_all(&mut self, pass: &mut Destructuring, nodes: Vec<Node>) -> (folded: Result<
        Vec<Node>,
        Refusal,
    >)
        requires
            old(pass).wf(),
        ensures
            final(pass).wf(),
            match rules::assign_all(
                trees(nodes@),
                Seq::empty(),
                trees(old(self).vars@),
                old(pass).env(),
            ) {
                Ok((ts, vars, env)) => folded matches Ok(ns) && trees(ns@) == ts && trees(
                    final(self).vars@,
                ) == vars && final(pass).env() == env,
                Err(refusal) => folded == Err::<Vec<Node>, Refusal>(refusal),
            },
        decreases
            weights(trees(nodes@)),
            2 * depths(trees(nodes@)) + 10,
            2 * sizes(trees(nodes@)),
    {
        let ghost ts = trees(nodes@);
        let ghost whole = rules::assign_all(ts, Seq::empty(), trees(self.vars@), pass.env());
        let mut done: Vec<Node> = Vec::new();
        assert(ts.skip(0) =~= ts);
        for node in it: nodes
            invariant
                pass.wf(),
                ts == trees(it.seq()),
                ts == trees(nodes@),
                whole == rules::assign_all(
                    ts,
                    Seq::empty(),
                    trees(old(self).vars@),
                    old(pass).env(),
                ),
                rules::assign_all(
                    ts.skip(it.index()),
                    trees(done@),
                    trees(self.vars@),
                    pass.env(),
                ) == whole,
                weights(ts.skip(it.index())) <= weights(ts),
                depths(ts.skip(it.index())) <= depths(ts),
                sizes(ts.skip(it.index())) <= sizes(ts),
        {
            let ghost rest = ts.skip(it.index());
            assert(rest[0] == tree(node));
            assert(rest.drop_first() =~= ts.skip(it.index() + 1));
            let folded = self.fold(pass, node)?;
            done.push(folded);
        }
        Ok(done)
    }

    /// Lowers the assignments in a node.
    pub fn fold(&mut self, pass: &mut Destructuring, node: Node) -> (folded: Result<Node, Refusal>)
        requires
            old(pass).wf(),
        ensures
            final(pass).wf(),
            agrees_assign(
                folded,
                trees(final(self).vars@),
                final(pass).env(),
                rules::assign(node@, trees(old(self).vars@), old(pass).env()),
            ),
        decreases weight(node@), 2 * depth(node@) + 10, 2 * size(node@) + 1,
    {
        let ghost bound = weight(node@);
        match node.kind {
            // Handle iife
            Kind::Expr(ExprKind::Fn) | Kind::Expr(ExprKind::Object) => {
                proof {
                    shrink::law_shrunk(node@, pass.env());
                }
                let expr = pass.try_fold(node)?;
                self.lower_assign(pass, expr, Ghost(bound))
            },
            Kind::Expr(_) => {
                let Node { kind, text, span, children } = node;
                proof {
                    shrink::lemma_assign_all(
                        trees(children@),
                        Seq::empty(),
                        trees(self.vars@),
                        pass.env(),
                    );
                }
                let children = self.fold_all(pass, children)?;
                assert(trees(children@).skip(0) =~= trees(children@));
                self.lower_assign(pass, Node { kind, text, span, children }, Ghost(bound))
            },
            _ => {
                let Node { kind, text, span, children } = node;
                let children = self.fold_all(pass, children)?;
                Ok(Node { kind, text, span, children })
            },
        }
    }

    /// Lowers an assignment that the pass has made.
    fn reassign(
        &mut self,
        pass: &mut Destructuring,
        expr: Node,
        Ghost(bound): Ghost<nat>,
    ) -> (folded: Result<Node, Refusal>)
        requires
            old(pass).wf(),
            weight(expr@) < bound,
        ensures
            final(pass).wf(),
            agrees_assign(
                folded,
                trees(final(self).vars@),
                final(pass).env(),
                rules::reassign(expr@, trees(old(self).vars@), old(pass).env(), bound),
            ),
        decreases bound, 0nat, 0nat,
    {
        self.fold(pass, expr)
    }

    /// Lowers an expression in which all other assignments are lowered.
    fn lower_assign(
        &mut self,
        pass: &mut Destructuring,
        expr: Node,
        Ghost(bound): Ghost<nat>,
    ) -> (folded: Result<Node, Refusal>)
        requires
            old(pass).wf(),
            weight(expr@) <= bound,
        ensures
            final(pass).wf(),
            agrees_assign(
                folded,
                trees(final(self).vars@),
                final(pass).env(),
                rules::lower_assign(expr@, trees(old(self).vars@), old(pass).env(), bound),
            ),
        decreases bound, 3nat, 0nat,
    {
        match expr.kind {
            Kind::Expr(ExprKind::Assign(AssignOp::Assign)) => {},
            _ => {
                return Ok(expr);
            },
        }
        if expr.children.len() != 2 {
            return Err(Refusal::Unsupported);
        }
        let Node { kind: _, text: _, span, mut children } = expr;
        let right = children.swap_remove(1);
        let left = children.swap_remove(0);
        proof {
            assert(expr@.children =~= seq![left@, right@]);
            weighing::lemma_two(left@, right@);
        }
        match left.kind {
            Kind::Pat(PatKind::Expr) => {
                if left.children.len() != 1 {
                    return Err(Refusal::Unsupported);
                }
                let mut parts = left.children;
                assert(left@.children == trees(parts@));
                Ok(make_assign_expr(span, parts.swap_remove(0), right))
            },
            Kind::Pat(PatKind::Ident) => Ok(make_assign_expr(span, left, right)),
            Kind::Pat(PatKind::Array) => {
                // initialized by first element of sequence expression
                let ref_ident = pass.make_ref_ident(&mut self.vars, make_absent())?;
                let mut exprs: Vec<Node> = Vec::new();
                exprs.push(make_assign_expr(dummy_sp(), make_ident_pat(&ref_ident), right));
                assert(trees(exprs@) =~= seq![exprs@[0]@]);
                self.assign_elems(pass, left.children, &ref_ident, &mut exprs, Ghost(bound))?;
                // last one should be `ref`
                exprs.push(make_ident_expr(&ref_ident));
                Ok(make_seq_expr(exprs))
            },
            Kind::Pat(PatKind::Object) => {
                let ref_ident = pass.make_ref_ident(&mut self.vars, make_absent())?;
                let mut exprs: Vec<Node> = Vec::new();
                exprs.push(make_assign_expr(left.span, make_ident_pat(&ref_ident), right));
                assert(trees(exprs@) =~= seq![exprs@[0]@]);
                self.assign_props(pass, left.children, &ref_ident, &mut exprs)?;
                // Last one should be object itself.
                exprs.push(make_ident_expr(&ref_ident));
                Ok(make_seq_expr(exprs))
            },
            // assignment pattern or rest pattern
            Kind::Pat(_) => Err(Refusal::Unsupported),
            _ => Ok(make_assign_expr(span, left, right)),
        }
    }

    /// Lowers the elements of an array pattern, behind the assignments in `exprs`.
    fn assign_elems(
        &mut self,
        pass: &mut Destructuring,
        elems: Vec<Node>,
        ref_ident: &Ident,
        exprs: &mut Vec<Node>,
        Ghost(bound): Ghost<nat>,
    ) -> (done: Result<(), Refusal>)
        requires
            old(pass).wf(),
            weights(trees(elems@)) < bound,
        ensures
            final(pass).wf(),
            agrees_exprs(
                done,
                trees(final(exprs)@),
                trees(final(self).vars@),
                final(pass).env(),
                rules::assign_elems(
                    trees(elems@),
                    0,
                    ref_ident@,
                    trees(old(exprs)@),
                    trees(old(self).vars@),
                    old(pass).env(),
                    bound,
                ),
            ),
        decreases bound, 1nat, 1 + elems.len(),
    {
        let ghost ts = trees(elems@);
        let ghost whole = rules::assign_elems(
            ts,
            0,
            ref_ident@,
            trees(exprs@),
            trees(self.vars@),
            pass.env(),
            bound,
        );
        let n: usize = elems.len();
        let mut i: usize = 0;
        for elem in it: elems
            invariant
                pass.wf(),
                n == elems.len(),
                i == it.index(),
                n == it.seq().len(),
                ts == trees(it.seq()),
                ts == trees(elems@),
                weights(ts) < bound,
                whole == rules::assign_elems(
                    ts,
                    0,
                    ref_ident@,
                    trees(old(exprs)@),
                    trees(old(self).vars@),
                    old(pass).env(),
                    bound,
                ),
                rules::assign_elems(
                    ts,
                    i as nat,
                    ref_ident@,
                    trees(exprs@),
                    trees(self.vars@),
                    pass.env(),
                    bound,
                ) == whole,
        {
            proof {
                assert(ts[i as int] == tree(elem));
                weighing::lemma_index(ts, i as int);
            }
            match elem.kind {
                Kind::Absent => {},
                _ => {
                    self.assign_elem(pass, elem, i, ref_ident, exprs, Ghost(bound))?;
                },
            }
            i = i + 1;
        }
        Ok(())
    }

    /// Lowers one element of an array pattern, behind the assignments in `exprs`.
    fn assign_elem(
        &mut self,
        pass: &mut Destructuring,
        elem: Node,
        i: usize,
        ref_ident: &Ident,
        exprs: &mut Vec<Node>,
        Ghost(bound): Ghost<nat>,
    ) -> (done: Result<(), Refusal>)
        requires
            old(pass).wf(),
            weight(elem@) < bound,
        ensures
            final(pass).wf(),
            agrees_exprs(
                done,
                trees(final(exprs)@),
                trees(final(self).vars@),
                final(pass).env(),
                rules::assign_elem(
                    elem@,
                    i as int,
                    ref_ident@,
                    trees(old(exprs)@),
                    trees(old(self).vars@),
                    old(pass).env(),
                    bound,
                ),
            ),
        decreases bound, 1nat, 0nat,
    {
        let elem_span = elem.span;
        match elem.kind {
            Kind::Pat(PatKind::Assign) => {
                if elem.children.len() != 2 {
                    return Err(Refusal::Unsupported);
                }
                // initialized by sequence expression.
                let assign_ref_ident = pass.make_ref_ident(&mut self.vars, make_absent())?;
                proof {
                    shrink::lemma_elem_assigns(elem@, i as int, ref_ident@, assign_ref_ident@);
                }
                exprs.push(
                    make_assign_expr(
                        dummy_sp(),
                        make_ident_pat(&assign_ref_ident),
                        make_ref_idx_expr(ref_ident, i),
                    ),
                );
                let mut parts = elem.children;
                assert(elem@.children == trees(parts@));
                let right = parts.swap_remove(1);
                let left = parts.swap_remove(0);
                let value = make_cond_expr(&assign_ref_ident, right);
                let expr = self.reassign(
                    pass,
                    make_assign_expr(elem_span, left, value),
                    Ghost(bound),
                )?;
                exprs.push(expr);
            },
            Kind::Pat(PatKind::Rest { .. }) => {
                if elem.children.len() != 1 {
                    return Err(Refusal::Unsupported);
                }
                proof {
                    shrink::lemma_elem_assigns(elem@, i as int, ref_ident@, ref_ident@);
                }
                let mut parts = elem.children;
                assert(elem@.children == trees(parts@));
                let arg = parts.swap_remove(0);
                let value = make_slice_call(ref_ident, i, dummy_sp());
                let expr = self.reassign(
                    pass,
                    make_assign_expr(elem_span, arg, value),
                    Ghost(bound),
                )?;
                exprs.push(expr);
            },
            _ => {
                proof {
                    shrink::lemma_elem_assigns(elem@, i as int, ref_ident@, ref_ident@);
                }
                let value = make_ref_idx_expr(ref_ident, i);
                let expr = self.reassign(
                    pass,
                    make_assign_expr(elem_span, elem, value),
                    Ghost(bound),
                )?;
                exprs.push(expr);
            },
        }
        Ok(())
    }

    /// Lowers the properties of an object pattern, behind the assignments in `exprs`.
    fn assign_props(
        &mut self,
        pass: &mut Destructuring,
        props: Vec<Node>,
        ref_ident: &Ident,
        exprs: &mut Vec<Node>,
    ) -> (done: Result<(), Refusal>)
        requires
            old(pass).wf(),
        ensures
            final(pass).wf(),
            agrees_exprs(
                done,
                trees(final(exprs)@),
                trees(final(self).vars@),
                final(pass).env(),
                rules::assign_props(
                    trees(props@),
                    0,
                    ref_ident@,
                    trees(old(exprs)@),
                    trees(old(self).vars@),
                    old(pass).env(),
                ),
            ),
    {
        let ghost ts = trees(props@);
        let ghost whole = rules::assign_props(
            ts,
            0,
            ref_ident@,
            trees(exprs@),
            trees(self.vars@),
            pass.env(),
        );
        for prop in it: props
            invariant
                pass.wf(),
                ts == trees(it.seq()),
                ts == trees(props@),
                whole == rules::assign_props(
                    ts,
                    0,
                    ref_ident@,
                    trees(old(exprs)@),
                    trees(old(self).vars@),
                    old(pass).env(),
                ),
                rules::assign_props(
                    ts,
                    it.index() as nat,
                    ref_ident@,
                    trees(exprs@),
                    trees(self.vars@),
                    pass.env(),
                ) == whole,
        {
            assert(ts[it.index()] == tree(prop));
            self.assign_prop(pass, prop, ref_ident, exprs)?;
        }
        Ok(())
    }

    /// Lowers one property of an object pattern, behind the assignments in `exprs`.
    fn assign_prop(
        &mut self,
        pass: &mut Destructuring,
        prop: Node,
        ref_ident: &Ident,
        exprs: &mut Vec<Node>,
    ) -> (done: Result<(), Refusal>)
        requires
            old(pass).wf(),
        ensures
            final(pass).wf(),
            agrees_exprs(
                done,
                trees(final(exprs)@),
                trees(final(self).vars@),
                final(pass).env(),
                rules::assign_prop(
                    prop@,
                    ref_ident@,
                    trees(old(exprs)@),
                    trees(old(self).vars@),
                    old(pass).env(),
                ),
            ),
    {
        if prop.children.len() != 2 {
            return Err(Refusal::Unsupported);
        }
        let Node { kind, text: _, span, children: mut parts } = prop;
        assert(prop@.children == trees(parts@));
        let value = parts.swap_remove(1);
        let key = parts.swap_remove(0);
        match kind {
            Kind::PatProp(PatPropKind::KeyValue) => {
                let property = prop_name_to_expr(key)?;
                let property = make_ref_prop_expr(ref_ident, property);
                exprs.push(make_assign_expr(span, value, property));
            },
            Kind::PatProp(PatPropKind::Assign) => {
                let key = Ident { sym: key.text, span: key.span };
                let property = make_ref_prop_expr(ref_ident, make_ident_expr(&key));
                match value.kind {
                    Kind::Absent => {
                        exprs.push(make_assign_expr(span, make_ident_pat(&key), property));
                    },
                    _ => {
                        let prop_ident = pass.make_ref_ident(&mut self.vars, make_absent())?;
                        exprs.push(make_assign_expr(span, make_ident_pat(&prop_ident), property));
                        let value = make_cond_expr(&prop_ident, value);
                        exprs.push(make_assign_expr(span, make_ident_pat(&key), value));
                    },
                }
            },
            // Object rest pattern should be removed before.
            _ => {
                return Err(Refusal::Unsupported);
            },
        }
        Ok(())
    }
}

/// Whether each of the nodes is a declarator.
fn are_decls(nodes: &Vec<Node>) -> (decls: bool)
    ensures
        decls == rules::all_decls(trees(nodes@)),
{
    for i in 0..nodes.len()
        invariant
            forall|j: int| 0 <= j < i ==> rules::is_decl(#[trigger] trees(nodes@)[j]),
    {
        assert(trees(nodes@)[i as int] == nodes@[i as int]@);
        match nodes[i].kind {
            Kind::Part(PartKind::Declarator { .. }) => {
                if nodes[i].children.len() != 2 {
                    return false;
                }
            },
            _ => {
                return false;
            },
        }
    }
    true
}

/// Gives each of the declarators the name as its initial value.
fn init_all(decls: Vec<Node>, ident: &Ident) -> (ready: Vec<Node>)
    requires
        rules::all_decls(trees(decls@)),
    ensures
        trees(ready@) == rules::init_all(trees(decls@), ident@),
{
    let ghost ds = trees(decls@);
    let mut ready: Vec<Node> = Vec::new();
    for decl in it: decls
        invariant
            ds == trees(it.seq()),
            rules::all_decls(ds),
            ready@.len() == it.index(),
            forall|j: int|
                0 <= j < ready@.len() ==> tree(#[trigger] ready@[j]) == rules::init_all(
                    ds,
                    ident@,
                )[j],
    {
        assert(ds[it.index()] == tree(decl));
        let Node { kind, text, span, mut children } = decl;
        let name = children.swap_remove(0);
        let mut parts: Vec<Node> = Vec::new();
        parts.push(name);
        parts.push(make_ident_expr(ident));
        assert(trees(parts@) =~= seq![name@, crate::factory::ident_expr(ident@)]);
        ready.push(Node { kind, text, span, children: parts });
    }
    assert(trees(ready@) =~= rules::init_all(ds, ident@));
    ready
}

/// The body of a loop, with `stmt` before everything else.
fn prepend(stmt: Node, body: Node) -> (block: Node)
    ensures
        block@ == rules::prepend(stmt@, body@),
{
    match body.kind {
        Kind::Stmt(StmtKind::Block) => {
            let Node { kind, text, span, children: mut rest } = body;
            let mut children: Vec<Node> = Vec::new();
            children.push(stmt);
            assert(trees(children@) =~= seq![stmt@]);
            children.append(&mut rest);
            Node { kind, text, span, children }
        },
        _ => make_binary(Kind::Stmt(StmtKind::Block), dummy_sp(), stmt, body),
    }
}

/// Whether one of the declarators binds anything but a single name.
fn is_complex(declarators: &Vec<Node>) -> (complex: bool)
    ensures
        complex == any_complex(trees(declarators@)),
{
    for i in 0..declarators.len()
        invariant
            forall|j: int|
                0 <= j < i ==> !crate::measure::complex_decl(#[trigger] trees(declarators@)[j]),
    {
        let decl = &declarators[i];
        assert(trees(declarators@)[i as int] == decl@);
        match decl.kind {
            Kind::Part(PartKind::Declarator { .. }) => {
                if decl.children.len() == 2 {
                    assert(decl@.children[0] == decl.children[0]@);
                    match decl.children[0].kind {
                        Kind::Pat(PatKind::Ident) => {},
                        _ => {
                            return true;
                        },
                    }
                }
            },
            _ => {},
        }
    }
    false
}

} // verus!
