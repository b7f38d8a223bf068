use vstd::prelude::*;
use crate::arraytree::{open_at, EvalError, Expr, eval_spec};

pub use crate::arraytree::{ArgRef, ExprDest, ExprRef, ONE, UNIT, ZERO};

verus! {

/// A term store built in continuation-passing style: each constructor hands
/// the destinations it reserves to closures, which must define them before
/// the constructor returns.
pub struct Program {
    store: crate::arraytree::Program,
}

impl View for Program {
    type V = Seq<crate::arraytree::Expr>;

    closed spec fn view(&self) -> Seq<crate::arraytree::Expr> {
        self.store@
    }
}

impl Program {
    /// A program whose root `fun` defines: `fun` is called once, on a store
    /// holding only the undefined root, with the root's destination; the
    /// program is the store as `fun` left it.
    pub fn build(fun: impl FnOnce(&mut Program, ExprDest) -> ExprRef) -> (r: Self)
        requires
            forall|p: &mut Program, d: ExprDest| open_at((*p)@, d@) ==> #[trigger] call_requires(fun, (p, d)),
        ensures
            exists|p: &mut Program, d: ExprDest, x: ExprRef|
                {
                    &&& (*p)@ == seq![Expr::Invalid]
                    &&& d@ == 0
                    &&& call_ensures(fun, (p, d), x)
                    &&& r@ == (*final(p))@
                },
    {
        let (store, root) = crate::arraytree::Program::build();
        let mut out = Program { store };
        let _ = fun(&mut out, root);
        out
    }

    /// Defines `into` as an abstraction; `body` receives its slot and the
    /// destination of its body.
    pub fn make_lam(
        &mut self,
        into: ExprDest,
        body: impl FnOnce(&mut Self, ArgRef, ExprDest) -> ExprRef,
    ) -> (r: ExprRef)
        requires
            open_at(old(self)@, into@),
            old(self)@.len() + 2 <= usize::MAX,
            forall|p: &mut Program, a: ArgRef, d: ExprDest|
                open_at((*p)@, d@) ==> #[trigger] call_requires(body, (p, a, d)),
        ensures
            r@ == into@,
            exists|p: &mut Program, a: ArgRef, d: ExprDest, x: ExprRef|
                {
                    &&& (*p)@ == old(self)@.update(
                        into@ as int,
                        Expr::Lam(old(self)@.len() as usize, (old(self)@.len() + 1) as usize),
                    ).push(Expr::Invalid).push(Expr::Invalid)
                    &&& a@ == old(self)@.len()
                    &&& d@ == old(self)@.len() + 1
                    &&& call_ensures(body, (p, a, d), x)
                    &&& (*final(p))@ == final(self)@
                },
    {
        let (lam, arg, body_dest) = self.store.make_lam(into);
        let _ = body(self, arg, body_dest);
        lam
    }

    /// Defines `into` as an application; `fun` and `val` receive the
    /// destinations of its function and of its argument, in that order.
    pub fn make_app(
        &mut self,
        into: ExprDest,
        fun: impl FnOnce(&mut Self, ExprDest) -> ExprRef,
        val: impl FnOnce(&mut Self, ExprDest) -> ExprRef,
    ) -> (r: ExprRef)
        requires
            open_at(old(self)@, into@),
            old(self)@.len() + 2 <= usize::MAX,
            forall|p: &mut Program, d: ExprDest| open_at((*p)@, d@) ==> #[trigger] call_requires(fun, (p, d)),
            forall|p: &mut Program, d: ExprDest, x: ExprRef|
                #[trigger] call_ensures(fun, (p, d), x) ==> open_at((*final(p))@, d@ + 1),
            forall|p: &mut Program, d: ExprDest| open_at((*p)@, d@) ==> #[trigger] call_requires(val, (p, d)),
        ensures
            r@ == into@,
            exists|p: &mut Program, d: ExprDest, x: ExprRef, q: &mut Program, e: ExprDest, y: ExprRef|
                {
                    &&& (*p)@ == old(self)@.update(
                        into@ as int,
                        Expr::App(old(self)@.len() as usize, (old(self)@.len() + 1) as usize),
                    ).push(Expr::Invalid).push(Expr::Invalid)
                    &&& d@ == old(self)@.len()
                    &&& call_ensures(fun, (p, d), x)
                    &&& (*q)@ == (*final(p))@
                    &&& e@ == old(self)@.len() + 1
                    &&& call_ensures(val, (q, e), y)
                    &&& (*final(q))@ == final(self)@
                },
    {
        let (app, f, v) = self.store.make_app(into);
        let _ = fun(self, f);
        let _ = val(self, v);
        app
    }

    /// Defines `into` as the constant `constant`.
    pub fn make_const(&mut self, into: ExprDest, constant: &'static str) -> (r: ExprRef)
        requires
            open_at(old(self)@, into@),
        ensures
            final(self)@ == old(self)@.update(into@ as int, crate::arraytree::Expr::Bas(constant)),
            r@ == into@,
    {
        self.store.make_const(into, constant)
    }

    /// Defines `into` as the reference to the slot `arg`, which it consumes.
    pub fn make_varref(&mut self, into: ExprDest, arg: ArgRef) -> (r: ExprRef)
        requires
            open_at(old(self)@, into@),
        ensures
            final(self)@ == old(self)@.update(
                into@ as int,
                crate::arraytree::Expr::Ptr(arg@ as usize),
            ),
            r@ == into@,
    {
        self.store.make_deref(into, arg)
    }

    /// Evaluates the program from its root; see [`crate::arraytree::Program::eval`].
    pub fn eval(&mut self) -> (r: Result<Option<&'static str>, EvalError>)
        ensures
            (final(self)@, r) == eval_spec(old(self)@),
    {
        self.store.eval()
    }
}

} // verus!
