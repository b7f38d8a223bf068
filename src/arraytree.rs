use vstd::prelude::*;

verus! {

/// Tags of the constants used by the example programs.
pub const ZERO: &'static str = "0";

pub const ONE: &'static str = "1";

pub const UNIT: &'static str = "()";

/// One position of the term store.
#[derive(Clone, Copy, Debug)]
pub enum Expr {
    /// An opaque constant, known by its tag.
    Bas(&'static str),
    /// A reference to the slot at the given position.
    Ptr(usize),
    /// An abstraction: the position of its slot, then of its body.
    Lam(usize, usize),
    /// An application: the position of the function, then of the argument.
    App(usize, usize),
    /// A reserved position that holds no term (yet, or any more).
    Invalid,
    /// A slot whose value has been taken by its reference.
    Consumed,
}

/// A fatal condition met while building or evaluating, with the position concerned.
#[derive(Clone, Copy, PartialEq, Eq, Debug, Structural)]
pub enum EvalError {
    /// A position that already holds a term was defined again.
    Construction { at: usize },
    /// A position was read while it held no term.
    Uninitialized { at: usize },
    /// An abstraction whose slot was already written (or written and consumed) was applied again.
    DoubleBeta { at: usize },
    /// The function of an application reduced to something other than an abstraction.
    Stuck { at: usize },
    /// The chain of nested applications is deeper than the store is long.
    BudgetExceeded,
}

/// `e` is a term, not an empty or consumed position.
pub open spec fn is_defined(e: Expr) -> bool {
    !(e is Invalid) && !(e is Consumed)
}

/// The position of `i` in `s` holds a term.
pub open spec fn defined_at(s: Seq<Expr>, i: int) -> bool {
    0 <= i < s.len() && is_defined(s[i])
}

/// Number of positions of `s` that hold a term.
pub open spec fn defined_count(s: Seq<Expr>) -> nat
    decreases s.len(),
{
    if s.len() == 0 {
        0
    } else {
        defined_count(s.drop_last()) + if is_defined(s.last()) {
            1nat
        } else {
            0nat
        }
    }
}


/// Lemma: writing `x` at position `j` changes the count of defined positions
/// by what it removes and what it adds.
pub proof fn lemma_count_update(s: Seq<Expr>, j: int, x: Expr)
    requires
        0 <= j < s.len(),
    ensures
        defined_count(s.update(j, x)) + (if is_defined(s[j]) { 1int } else { 0int })
            == defined_count(s) + (if is_defined(x) { 1int } else { 0int }),
    decreases s.len(),
{
    let t = s.update(j, x);
    if j == s.len() - 1 {
        assert(t.drop_last() =~= s.drop_last());
    } else {
        lemma_count_update(s.drop_last(), j, x);
        assert(t.drop_last() =~= s.drop_last().update(j, x));
    }
}

/// What an evaluated root amounts to: the tag of a constant, or nothing for an abstraction.
pub open spec fn value_of(e: Expr) -> Option<&'static str> {
    match e {
        Expr::Bas(c) => Some(c),
        _ => None,
    }
}

/// Replacing the reference at `i` by the content of its slot `t`, which is consumed.
pub open spec fn deref_spec(s: Seq<Expr>, i: usize, t: usize) -> (Seq<Expr>, Result<bool, EvalError>) {
    if t != i && defined_at(s, t as int) {
        (s.update(i as int, s[t as int]).update(t as int, Expr::Consumed), Ok(true))
    } else {
        (s, Err(EvalError::Uninitialized { at: t }))
    }
}

/// Beta reduction of the application at `i`, whose function `f` and argument `v`
/// are in normal form: the argument moves into the slot of the abstraction, the
/// body moves into `i`, and the argument's and body's positions are consumed.
pub open spec fn beta_spec(s: Seq<Expr>, i: usize, f: usize, v: usize) -> (Seq<Expr>, Result<bool, EvalError>) {
    match s[f as int] {
        Expr::Lam(arg, body) => {
            if arg >= s.len() {
                (s, Err(EvalError::Uninitialized { at: arg }))
            } else if !(s[arg as int] is Invalid) {
                (s, Err(EvalError::DoubleBeta { at: i }))
            } else if body == i || body == v || !defined_at(s, body as int) {
                (s, Err(EvalError::Uninitialized { at: body }))
            } else {
                (
                    s.update(i as int, s[body as int]).update(arg as int, s[v as int]).update(
                        v as int,
                        Expr::Invalid,
                    ).update(body as int, Expr::Invalid),
                    Ok(true),
                )
            }
        },
        _ => (s, Err(EvalError::Stuck { at: i })),
    }
}

/// One step of evaluation at position `i`: the leftmost-first rewrite reachable
/// from `i`, if any, with at most `depth` nested applications on the way.
pub open spec fn step_spec(s: Seq<Expr>, i: usize, depth: nat) -> (Seq<Expr>, Result<bool, EvalError>)
    decreases depth,
{
    if !defined_at(s, i as int) {
        (s, Err(EvalError::Uninitialized { at: i }))
    } else {
        match s[i as int] {
            Expr::Ptr(t) => deref_spec(s, i, t),
            Expr::App(f, v) => {
                if depth == 0 {
                    (s, Err(EvalError::BudgetExceeded))
                } else {
                    let (s1, r1) = step_spec(s, f, (depth - 1) as nat);
                    if r1 == Ok::<bool, EvalError>(false) {
                        let (s2, r2) = step_spec(s1, v, (depth - 1) as nat);
                        if r2 == Ok::<bool, EvalError>(false) {
                            beta_spec(s2, i, f, v)
                        } else {
                            (s2, r2)
                        }
                    } else {
                        (s1, r1)
                    }
                }
            },
            _ => (s, Ok(false)),
        }
    }
}

/// Lemma: a step keeps the length of the store; a step that makes progress
/// leaves one defined position fewer; a step that makes none changes nothing
/// and finds a constant or an abstraction.
pub proof fn lemma_step(s: Seq<Expr>, i: usize, depth: nat)
    ensures
        step_spec(s, i, depth).0.len() == s.len(),
        step_spec(s, i, depth).1 == Ok::<bool, EvalError>(true) ==> defined_count(
            step_spec(s, i, depth).0,
        ) + 1 == defined_count(s),
        step_spec(s, i, depth).1 == Ok::<bool, EvalError>(false) ==> {
            &&& step_spec(s, i, depth).0 == s
            &&& defined_at(s, i as int)
            &&& (s[i as int] is Bas || s[i as int] is Lam)
        },
    decreases depth,
{
    if defined_at(s, i as int) {
        match s[i as int] {
            Expr::Ptr(t) => {
                if t != i && defined_at(s, t as int) {
                    lemma_count_update(s, i as int, s[t as int]);
                    lemma_count_update(s.update(i as int, s[t as int]), t as int, Expr::Consumed);
                }
            },
            Expr::App(f, v) => {
                if depth > 0 {
                    lemma_step(s, f, (depth - 1) as nat);
                    let (s1, r1) = step_spec(s, f, (depth - 1) as nat);
                    if r1 == Ok::<bool, EvalError>(false) {
                        lemma_step(s1, v, (depth - 1) as nat);
                        let (s2, r2) = step_spec(s1, v, (depth - 1) as nat);
                        if r2 == Ok::<bool, EvalError>(false) {
                            lemma_beta(s, i, f, v);
                        }
                    }
                }
            },
            _ => {},
        }
    }
}

proof fn lemma_beta(s: Seq<Expr>, i: usize, f: usize, v: usize)
    requires
        defined_at(s, i as int),
        s[i as int] is App,
        defined_at(s, v as int),
        s[v as int] is Bas || s[v as int] is Lam,
    ensures
        beta_spec(s, i, f, v).0.len() == s.len(),
        beta_spec(s, i, f, v).1 != Ok::<bool, EvalError>(false),
        beta_spec(s, i, f, v).1 == Ok::<bool, EvalError>(true) ==> defined_count(
            beta_spec(s, i, f, v).0,
        ) + 1 == defined_count(s),
{
    if let Expr::Lam(arg, body) = s[f as int] {
        if arg < s.len() && s[arg as int] is Invalid && body != i && body != v && defined_at(
            s,
            body as int,
        ) {
            let s1 = s.update(i as int, s[body as int]);
            let s2 = s1.update(arg as int, s[v as int]);
            let s3 = s2.update(v as int, Expr::Invalid);
            lemma_count_update(s, i as int, s[body as int]);
            lemma_count_update(s1, arg as int, s[v as int]);
            lemma_count_update(s2, v as int, Expr::Invalid);
            lemma_count_update(s3, body as int, Expr::Invalid);
        }
    }
}


/// Evaluation of the store from the root at position 0: steps until none makes
/// progress, giving the final store and the root's value, or the first error.
pub open spec fn eval_spec(s: Seq<Expr>) -> (Seq<Expr>, Result<Option<&'static str>, EvalError>)
    decreases defined_count(s),
    via eval_spec_decreases
{
    let (s1, r) = step_spec(s, 0, s.len());
    match r {
        Ok(true) => eval_spec(s1),
        Ok(false) => (s, Ok(value_of(s[0]))),
        Err(e) => (s1, Err(e)),
    }
}

#[via_fn]
proof fn eval_spec_decreases(s: Seq<Expr>) {
    lemma_step(s, 0, s.len());
}

/// Handle to a position whose term has been defined.
#[derive(Debug)]
pub struct ExprRef(usize);

/// Handle to the slot of an abstraction; it can be used by one reference only.
#[derive(Debug)]
pub struct ArgRef(usize);

/// Handle to a reserved position that is still to be defined.
#[derive(Debug)]
pub struct ExprDest(usize);

impl View for ExprRef {
    type V = nat;

    closed spec fn view(&self) -> nat {
        self.0 as nat
    }
}

impl View for ArgRef {
    type V = nat;

    closed spec fn view(&self) -> nat {
        self.0 as nat
    }
}

impl View for ExprDest {
    type V = nat;

    closed spec fn view(&self) -> nat {
        self.0 as nat
    }
}

impl ExprRef {
    /// The position this handle designates.
    pub fn index(&self) -> (r: usize)
        ensures
            r == self@,
    {
        self.0
    }
}

impl ExprDest {
    /// The position this handle designates.
    pub fn index(&self) -> (r: usize)
        ensures
            r == self@,
    {
        self.0
    }
}

/// The term store: every position ever reserved, addressed by its index.
/// The program's root is position 0.
#[derive(Debug)]
pub struct Program {
    exprs: Vec<Expr>,
}

impl View for Program {
    type V = Seq<Expr>;

    closed spec fn view(&self) -> Seq<Expr> {
        self.exprs@
    }
}

/// Whether the term at `i` can be written into: reserved and still undefined.
pub open spec fn open_at(s: Seq<Expr>, i: nat) -> bool {
    i < s.len() && s[i as int] is Invalid
}

/// `e` is an abstraction whose slot is at position `i`.
pub open spec fn binds(e: Expr, i: int) -> bool {
    match e {
        Expr::Lam(arg, _) => arg == i,
        _ => false,
    }
}

/// Position `i` is the slot of some abstraction of `s`.
pub open spec fn is_slot(s: Seq<Expr>, i: int) -> bool {
    exists|j: int| 0 <= j < s.len() && binds(#[trigger] s[j], i)
}

/// Every reserved position holds a term, but for the slots of abstractions,
/// which are written only when their abstraction is applied.
pub open spec fn complete(s: Seq<Expr>) -> bool {
    forall|i: int| 0 <= i < s.len() ==> is_defined(#[trigger] s[i]) || is_slot(s, i)
}

impl Program {
    /// A store with one reserved position, the root, and its destination.
    pub fn build() -> (r: (Self, ExprDest))
        ensures
            r.0@ == seq![Expr::Invalid],
            r.1@ == 0,
    {
        let mut exprs: Vec<Expr> = Vec::with_capacity(128);
        exprs.push(Expr::Invalid);
        (Program { exprs }, ExprDest(0))
    }

    /// Number of positions reserved so far.
    pub fn len(&self) -> (r: usize)
        ensures
            r == self@.len(),
    {
        self.exprs.len()
    }

    /// Reserves one new, undefined position at the end of the store.
    pub fn allocate(&mut self) -> (r: ExprDest)
        requires
            old(self)@.len() < usize::MAX,
        ensures
            final(self)@ == old(self)@.push(Expr::Invalid),
            r@ == old(self)@.len(),
    {
        let at = self.exprs.len();
        self.exprs.push(Expr::Invalid);
        ExprDest(at)
    }

    /// Writes `e` into the undefined position `at`; fails if `at` is not
    /// reserved or already holds a term, and then changes nothing.
    pub fn define(&mut self, at: usize, e: Expr) -> (r: Result<(), EvalError>)
        ensures
            open_at(old(self)@, at as nat) ==> r is Ok && final(self)@ == old(self)@.update(
                at as int,
                e,
            ),
            !open_at(old(self)@, at as nat) ==> r == Err::<(), EvalError>(
                EvalError::Construction { at },
            ) && final(self)@ == old(self)@,
    {
        if at < self.exprs.len() {
            if let Expr::Invalid = self.exprs[at] {
                self.exprs.set(at, e);
                return Ok(());
            }
        }
        Err(EvalError::Construction { at })
    }

    /// The term at `at`, left in place.
    pub fn read(&self, at: usize) -> (r: &Expr)
        requires
            at < self@.len(),
        ensures
            *r == self@[at as int],
    {
        &self.exprs[at]
    }

    /// Moves the term out of `at`, leaving the position empty.
    pub fn take(&mut self, at: usize) -> (r: Expr)
        requires
            at < old(self)@.len(),
        ensures
            r == old(self)@[at as int],
            final(self)@ == old(self)@.update(at as int, Expr::Invalid),
    {
        let e = self.exprs[at];
        self.exprs.set(at, Expr::Invalid);
        e
    }

    /// Overwrites the content of `at` with `e`.
    pub fn replace(&mut self, at: usize, e: Expr)
        requires
            at < old(self)@.len(),
        ensures
            final(self)@ == old(self)@.update(at as int, e),
    {
        self.exprs.set(at, e);
    }

    /// Whether every reserved position holds a term, slots of abstractions aside.
    pub fn is_complete(&self) -> (r: bool)
        ensures
            r == complete(self@),
    {
        let n = self.exprs.len();
        let mut slots: Vec<bool> = Vec::new();
        let mut i: usize = 0;
        while i < n
            invariant
                n == self@.len(),
                i <= n,
                slots@.len() == i,
                forall|k: int| 0 <= k < i ==> !(#[trigger] slots@[k]),
            decreases n - i,
        {
            slots.push(false);
            i = i + 1;
        }
        let mut j: usize = 0;
        while j < n
            invariant
                n == self@.len(),
                j <= n,
                slots@.len() == n,
                forall|k: int|
                    0 <= k < n ==> (#[trigger] slots@[k] <==> exists|m: int|
                        0 <= m < j && binds(#[trigger] self@[m], k)),
            decreases n - j,
        {
            if let Expr::Lam(arg, _) = self.exprs[j] {
                if arg < n {
                    slots.set(arg, true);
                }
            }
            j = j + 1;
        }
        let mut i: usize = 0;
        while i < n
            invariant
                n == self@.len(),
                i <= n,
                slots@.len() == n,
                forall|k: int| 0 <= k < n ==> (#[trigger] slots@[k] <==> is_slot(self@, k)),
                forall|k: int| 0 <= k < i ==> is_defined(#[trigger] self@[k]) || is_slot(self@, k),
            decreases n - i,
        {
            if !slots[i] {
                if matches!(self.exprs[i], Expr::Invalid | Expr::Consumed) {
                    return false;
                }
            }
            i = i + 1;
        }
        true
    }

    /// Defines `into` as the constant `c`.
    pub fn make_const(&mut self, into: ExprDest, c: &'static str) -> (r: ExprRef)
        requires
            open_at(old(self)@, into@),
        ensures
            final(self)@ == old(self)@.update(into@ as int, Expr::Bas(c)),
            r@ == into@,
    {
        let at = into.0;
        self.exprs.set(at, Expr::Bas(c));
        ExprRef(at)
    }

    /// Defines `into` as an abstraction whose slot and body are two new
    /// positions at the end of the store; returns the handles to fill them.
    pub fn make_lam(&mut self, into: ExprDest) -> (r: (ExprRef, ArgRef, ExprDest))
        requires
            open_at(old(self)@, into@),
            old(self)@.len() + 2 <= usize::MAX,
        ensures
            final(self)@ == old(self)@.update(
                into@ as int,
                Expr::Lam(old(self)@.len() as usize, (old(self)@.len() + 1) as usize),
            ).push(Expr::Invalid).push(Expr::Invalid),
            r.0@ == into@,
            r.1@ == old(self)@.len(),
            r.2@ == old(self)@.len() + 1,
    {
        let at = into.0;
        let arg = self.exprs.len();
        let body = arg + 1;
        self.exprs.set(at, Expr::Lam(arg, body));
        self.exprs.push(Expr::Invalid);
        self.exprs.push(Expr::Invalid);
        (ExprRef(at), ArgRef(arg), ExprDest(body))
    }

    /// Defines `into` as an application whose function and argument are two
    /// new positions at the end of the store; returns the handles to fill them.
    pub fn make_app(&mut self, into: ExprDest) -> (r: (ExprRef, ExprDest, ExprDest))
        requires
            open_at(old(self)@, into@),
            old(self)@.len() + 2 <= usize::MAX,
        ensures
            final(self)@ == old(self)@.update(
                into@ as int,
                Expr::App(old(self)@.len() as usize, (old(self)@.len() + 1) as usize),
            ).push(Expr::Invalid).push(Expr::Invalid),
            r.0@ == into@,
            r.1@ == old(self)@.len(),
            r.2@ == old(self)@.len() + 1,
    {
        let at = into.0;
        let f = self.exprs.len();
        let v = f + 1;
        self.exprs.set(at, Expr::App(f, v));
        self.exprs.push(Expr::Invalid);
        self.exprs.push(Expr::Invalid);
        (ExprRef(at), ExprDest(f), ExprDest(v))
    }

    /// Defines `into` as the reference to the slot `arg`, which it consumes.
    pub fn make_deref(&mut self, into: ExprDest, arg: ArgRef) -> (r: ExprRef)
        requires
            open_at(old(self)@, into@),
        ensures
            final(self)@ == old(self)@.update(into@ as int, Expr::Ptr(arg@ as usize)),
            r@ == into@,
    {
        let at = into.0;
        self.exprs.set(at, Expr::Ptr(arg.0));
        ExprRef(at)
    }

    /// Performs at most one rewrite reachable from `i` and says whether one happened.
    fn step(&mut self, i: usize, depth: usize) -> (r: Result<bool, EvalError>)
        ensures
            (final(self)@, r) == step_spec(old(self)@, i, depth as nat),
        decreases depth,
    {
        if i >= self.exprs.len() {
            return Err(EvalError::Uninitialized { at: i });
        }
        match *self.read(i) {
            Expr::Invalid | Expr::Consumed => Err(EvalError::Uninitialized { at: i }),
            Expr::Bas(_) | Expr::Lam(_, _) => Ok(false),
            Expr::Ptr(t) => {
                if t == i || t >= self.exprs.len() {
                    return Err(EvalError::Uninitialized { at: t });
                }
                if matches!(*self.read(t), Expr::Invalid | Expr::Consumed) {
                    return Err(EvalError::Uninitialized { at: t });
                }
                let value = *self.read(t);
                self.replace(i, value);
                self.replace(t, Expr::Consumed);
                Ok(true)
            },
            Expr::App(f, v) => {
                if depth == 0 {
                    return Err(EvalError::BudgetExceeded);
                }
                let r1 = self.step(f, depth - 1);
                match r1 {
                    Ok(false) => {},
                    _ => return r1,
                }
                let r2 = self.step(v, depth - 1);
                match r2 {
                    Ok(false) => {},
                    _ => return r2,
                }
                proof {
                    lemma_step(old(self)@, f, (depth - 1) as nat);
                    lemma_step(old(self)@, v, (depth - 1) as nat);
                }
                self.beta(i, f, v)
            },
        }
    }

    /// Applies the abstraction at `f` to the value at `v` for the application at `i`.
    fn beta(&mut self, i: usize, f: usize, v: usize) -> (r: Result<bool, EvalError>)
        requires
            i < old(self)@.len(),
            defined_at(old(self)@, f as int),
            defined_at(old(self)@, v as int),
        ensures
            (final(self)@, r) == beta_spec(old(self)@, i, f, v),
    {
        match *self.read(f) {
            Expr::Lam(arg, body) => {
                if arg >= self.exprs.len() {
                    return Err(EvalError::Uninitialized { at: arg });
                }
                if !matches!(*self.read(arg), Expr::Invalid) {
                    return Err(EvalError::DoubleBeta { at: i });
                }
                if body == i || body == v || body >= self.exprs.len() {
                    return Err(EvalError::Uninitialized { at: body });
                }
                if matches!(*self.read(body), Expr::Invalid | Expr::Consumed) {
                    return Err(EvalError::Uninitialized { at: body });
                }
                let value = *self.read(v);
                let result = *self.read(body);
                self.replace(i, result);
                self.replace(arg, value);
                let _ = self.take(v);
                let _ = self.take(body);
                Ok(true)
            },
            _ => Err(EvalError::Stuck { at: i }),
        }
    }

    /// Evaluates the program from its root until no step makes progress.
    /// Gives the root's constant, or `None` where the root is an abstraction.
    pub fn eval(&mut self) -> (r: Result<Option<&'static str>, EvalError>)
        ensures
            (final(self)@, r) == eval_spec(old(self)@),
    {
        loop
            invariant
                eval_spec(self@) == eval_spec(old(self)@),
            decreases defined_count(self@),
        {
            let ghost before = self@;
            let depth = self.exprs.len();
            let progress = self.step(0, depth);
            proof {
                lemma_step(before, 0, before.len());
            }
            match progress {
                Ok(true) => {},
                Ok(false) => {
                    return match *self.read(0) {
                        Expr::Bas(c) => Ok(Some(c)),
                        _ => Ok(None),
                    };
                },
                Err(e) => return Err(e),
            }
        }
    }
}


/// Evaluation is deterministic: two programs with the same content evaluate to
/// the same final store and the same result.
pub proof fn lemma_eval_deterministic(a: &Program, b: &Program)
    requires
        a@ == b@,
    ensures
        eval_spec(a@) == eval_spec(b@),
{
}

} // verus!
