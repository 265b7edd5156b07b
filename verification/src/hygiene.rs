//! Marks and syntax contexts: how a generated name is kept apart from every other name.
//!
//! A name is told from another of the same spelling by its syntax context. Contexts are handed out
//! by `swc_common`, which keeps them in a [`Globals`].
use crate::ast::Span;
use swc_common::{Globals, Mark, SyntaxContext, GLOBALS};
use vstd::prelude::*;

verus! {

/// The table in which `swc_common` keeps the marks and syntax contexts of a compilation.
#[verifier::external_type_specification]
#[verifier::external_body]
pub struct ExGlobals(swc_common::Globals);

/// The marks that a table holds, oldest first: entry `i` is the parent of mark `i`.
pub uninterp spec fn marks(globals: Globals) -> Seq<u32>;

/// The syntax contexts that a table holds, oldest first: entry `i` is the pair of the context that
/// context `i` extends and the mark that it adds to it.
pub uninterp spec fn contexts(globals: Globals) -> Seq<(u32, u32)>;

/// `swc_common::Globals::new` makes a table that holds the root mark, which is its own parent, and
/// the empty context.
pub assume_specification[ swc_common::Globals::new ]() -> (globals: Globals)
    ensures
        marks(globals) == seq![0u32],
        contexts(globals) == seq![(0u32, 0u32)],
;

/// Calls `swc_common::Mark::fresh` on the given table: the new mark's number is how many marks
/// there were, and the table now also holds it, under the given parent.
///
/// A table that already holds `u32::MAX` marks is left out: there the number does not fit.
#[verifier::external_body]
fn fresh_mark(globals: &mut Globals, parent: u32) -> (mark: u32)
    requires
        marks(*old(globals)).len() < u32::MAX,
    ensures
        mark == marks(*old(globals)).len(),
        marks(*final(globals)) == marks(*old(globals)).push(parent),
        contexts(*final(globals)) == contexts(*old(globals)),
{
    GLOBALS.set(globals, || Mark::fresh(Mark::from_u32(parent)).as_u32())
}

/// Calls `swc_common::SyntaxContext::apply_mark` on the given table: the context that extends
/// `ctxt` by `mark` is looked up, and added at the end where it is not there yet.
///
/// The root mark is left out, on which the call panics, and so is a table that is full.
#[verifier::external_body]
fn apply_mark(globals: &mut Globals, ctxt: u32, mark: u32) -> (applied: u32)
    requires
        mark != 0,
        contexts(*old(globals)).len() <= u32::MAX,
    ensures
        marks(*final(globals)) == marks(*old(globals)),
        contexts(*old(globals)).contains((ctxt, mark)) ==> applied == contexts(
            *old(globals),
        ).index_of((ctxt, mark)) && contexts(*final(globals)) == contexts(*old(globals)),
        !contexts(*old(globals)).contains((ctxt, mark)) ==> applied == contexts(
            *old(globals),
        ).len() && contexts(*final(globals)) == contexts(*old(globals)).push((ctxt, mark)),
{
    GLOBALS.set(
        globals,
        || SyntaxContext::from_u32(ctxt).apply_mark(Mark::from_u32(mark)).as_u32(),
    )
}

/// The runtime helpers that the output calls, and the mark that their names carry.
#[derive(Clone, Copy, PartialEq, Eq, Structural, Debug)]
pub struct Helpers {
    pub mark: u32,
    /// Whether the output calls `_throw`.
    pub throw: bool,
    /// Whether the output calls `_toArray`.
    pub to_array: bool,
}

/// What the pass reads and changes besides the tree: the table of marks and contexts, and which
/// helpers the output needs.
#[verifier::ext_equal]
pub struct Env {
    pub marks: Seq<u32>,
    pub contexts: Seq<(u32, u32)>,
    pub helpers: Helpers,
}

/// Why the pass does not handle a tree.
#[derive(Clone, Copy, PartialEq, Eq, Structural, Debug)]
pub enum Refusal {
    /// The tree holds syntax that the pass cannot take apart.
    Unsupported,
    /// The table of marks and contexts is full.
    Full,
}

impl Env {
    /// The state in which nothing but the mark of the helpers was made.
    pub open spec fn initial() -> Env {
        Env {
            marks: seq![0u32, 0u32],
            contexts: seq![(0u32, 0u32)],
            helpers: Helpers { mark: 1, throw: false, to_array: false },
        }
    }

    /// Whether the empty context comes first, every context is there once and adds a mark that was
    /// made, and the helpers carry a mark that is not the root mark.
    pub open spec fn wf(self) -> bool {
        &&& 0 < self.helpers.mark < self.marks.len()
        &&& self.contexts.len() > 0
        &&& self.contexts[0] == (0u32, 0u32)
        &&& self.contexts.no_duplicates()
        &&& forall|i: int|
            0 <= i < self.contexts.len() ==> (#[trigger] self.contexts[i]).1 < self.marks.len()
    }

    /// The context that extends `ctxt` by `mark`, and the state that knows it. There is none for
    /// the root mark, and none where the table is full.
    pub open spec fn apply(self, ctxt: u32, mark: u32) -> Result<(u32, Env), Refusal> {
        if mark == 0 {
            Err(Refusal::Unsupported)
        } else if self.contexts.len() > u32::MAX {
            Err(Refusal::Full)
        } else if self.contexts.contains((ctxt, mark)) {
            Ok((self.contexts.index_of((ctxt, mark)) as u32, self))
        } else {
            Ok(
                (
                    self.contexts.len() as u32,
                    Env { contexts: self.contexts.push((ctxt, mark)), ..self },
                ),
            )
        }
    }

    /// The context that extends `ctxt` by a mark that nothing carries yet. There is none where a
    /// table is full.
    pub open spec fn fresh(self, ctxt: u32) -> Result<(u32, Env), Refusal> {
        if self.marks.len() < u32::MAX {
            (Env { marks: self.marks.push(0u32), ..self }).apply(ctxt, self.marks.len() as u32)
        } else {
            Err(Refusal::Full)
        }
    }

    /// A name of the given spelling that no other name of the program can be taken for.
    pub open spec fn private_ident(self, span: Span, text: Seq<char>) -> Result<
        (Name, Env),
        Refusal,
    > {
        match self.fresh(span.ctxt) {
            Err(refusal) => Err(refusal),
            Ok((ctxt, env)) => Ok((Name { text, span: Span { ctxt, ..span } }, env)),
        }
    }

    /// The name of a helper, and the state that knows its context.
    pub open spec fn helper(self, text: Seq<char>) -> Result<(Name, Env), Refusal> {
        match self.apply(0, self.helpers.mark) {
            Err(refusal) => Err(refusal),
            Ok((ctxt, env)) => Ok((Name { text, span: Span { lo: 0, hi: 0, ctxt } }, env)),
        }
    }

    /// The name of the helper that throws its argument, and the state that knows that the output
    /// calls it.
    pub open spec fn throw(self) -> Result<(Name, Env), Refusal> {
        match self.helper("_throw"@) {
            Err(refusal) => Err(refusal),
            Ok((name, env)) => Ok(
                (name, Env { helpers: Helpers { throw: true, ..env.helpers }, ..env }),
            ),
        }
    }

    /// The name of the helper that makes an array of its argument, and the state that knows that
    /// the output calls it.
    pub open spec fn to_array(self) -> Result<(Name, Env), Refusal> {
        match self.helper("_toArray"@) {
            Err(refusal) => Err(refusal),
            Ok((name, env)) => Ok(
                (name, Env { helpers: Helpers { to_array: true, ..env.helpers }, ..env }),
            ),
        }
    }
}

/// An occurrence of a name.
#[derive(Debug)]
pub struct Ident {
    pub sym: String,
    pub span: Span,
}

/// The mathematical value of an [`Ident`].
#[verifier::ext_equal]
pub struct Name {
    pub text: Seq<char>,
    pub span: Span,
}

impl View for Ident {
    type V = Name;

    open spec fn view(&self) -> Name {
        Name { text: self.sym@, span: self.span }
    }
}

/// The table and the helpers that a compilation runs with. It counts what the table holds.
pub struct Session {
    globals: Globals,
    helpers: Helpers,
    marks: u32,
    contexts: u64,
}

impl Session {
    /// The mathematical value.
    pub closed spec fn env(&self) -> Env {
        Env {
            marks: marks(self.globals),
            contexts: contexts(self.globals),
            helpers: self.helpers,
        }
    }

    /// Whether the counts are right, and every context adds a mark that was made.
    pub closed spec fn wf(&self) -> bool {
        &&& self.marks == self.env().marks.len()
        &&& self.contexts == self.env().contexts.len()
        &&& self.env().wf()
    }

    /// The state of a session that is in order is in order.
    pub proof fn law_env(&self)
        requires
            self.wf(),
        ensures
            self.env().wf(),
    {
    }

    /// Starts a compilation.
    pub fn new() -> (session: Session)
        ensures
            session.wf(),
            session.env() == Env::initial(),
    {
        let mut globals = Globals::new();
        let mark: u32 = fresh_mark(&mut globals, 0);
        let session = Session {
            globals,
            helpers: Helpers { mark, throw: false, to_array: false },
            marks: 2,
            contexts: 1,
        };
        assert(session.env().marks =~= seq![0u32, 0u32]);
        session
    }

    /// The helpers that the output needs so far.
    pub fn helpers(&self) -> (helpers: Helpers)
        ensures
            helpers == self.env().helpers,
    {
        self.helpers
    }

    /// The context that extends `ctxt` by `mark`, which is a mark that was made.
    fn apply_mark(&mut self, ctxt: u32, mark: u32) -> (applied: Result<u32, Refusal>)
        requires
            old(self).wf(),
            0 < mark < old(self).env().marks.len(),
        ensures
            final(self).wf(),
            match old(self).env().apply(ctxt, mark) {
                Ok((c, env)) => applied == Ok::<u32, Refusal>(c) && final(self).env() == env,
                Err(refusal) => applied == Err::<u32, Refusal>(refusal),
            },
    {
        if self.contexts > u32::MAX as u64 {
            return Err(Refusal::Full);
        }
        let applied: u32 = apply_mark(&mut self.globals, ctxt, mark);
        if applied as u64 == self.contexts {
            self.contexts = self.contexts + 1;
        }
        Ok(applied)
    }

    /// A new name of the given spelling: its context extends that of `span` by a new mark.
    pub fn private_ident(&mut self, span: Span, sym: String) -> (ident: Result<Ident, Refusal>)
        requires
            old(self).wf(),
        ensures
            final(self).wf(),
            match old(self).env().private_ident(span, sym@) {
                Ok((name, env)) => ident matches Ok(i) && i@ == name && final(self).env() == env,
                Err(refusal) => ident == Err::<Ident, Refusal>(refusal),
            },
    {
        if self.marks == u32::MAX {
            return Err(Refusal::Full);
        }
        let mark: u32 = fresh_mark(&mut self.globals, 0);
        self.marks = self.marks + 1;
        let ctxt: u32 = self.apply_mark(span.ctxt, mark)?;
        Ok(Ident { sym, span: Span { lo: span.lo, hi: span.hi, ctxt } })
    }

    /// The name of the helper that throws its argument. The output calls it from now on.
    pub fn throw(&mut self) -> (ident: Result<Ident, Refusal>)
        requires
            old(self).wf(),
        ensures
            final(self).wf(),
            match old(self).env().throw() {
                Ok((name, env)) => ident matches Ok(i) && i@ == name && final(self).env() == env,
                Err(refusal) => ident == Err::<Ident, Refusal>(refusal),
            },
    {
        let helpers = self.helpers;
        let ctxt: u32 = self.apply_mark(0, helpers.mark)?;
        self.helpers = Helpers { mark: helpers.mark, throw: true, to_array: helpers.to_array };
        Ok(Ident { sym: "_throw".to_owned(), span: Span { lo: 0, hi: 0, ctxt } })
    }

    /// The name of the helper that makes an array of its argument. The output calls it from now on.
    pub fn to_array(&mut self) -> (ident: Result<Ident, Refusal>)
        requires
            old(self).wf(),
        ensures
            final(self).wf(),
            match old(self).env().to_array() {
                Ok((name, env)) => ident matches Ok(i) && i@ == name && final(self).env() == env,
                Err(refusal) => ident == Err::<Ident, Refusal>(refusal),
            },
    {
        let helpers = self.helpers;
        let ctxt: u32 = self.apply_mark(0, helpers.mark)?;
        self.helpers = Helpers { mark: helpers.mark, throw: helpers.throw, to_array: true };
        Ok(Ident { sym: "_toArray".to_owned(), span: Span { lo: 0, hi: 0, ctxt } })
    }
}

} // verus!
