use vstd::prelude::*;

verus! {

/// A reference to the slot of an abstraction, by the slot's index in [`Args`].
#[derive(PartialEq, Eq, Debug)]
pub struct Ptr(usize);

/// An abstraction: its slot and its body.
#[derive(PartialEq, Eq, Debug)]
pub struct Lam(Ptr, Box<Expr>);

/// A term held as a tree; variables are resolved through the slots of [`Args`].
#[derive(PartialEq, Eq, Debug)]
pub enum Expr {
    Ptr(Ptr),
    Bas(&'static str),
    Lam(Lam),
    App(Box<Expr>, Box<Expr>),
}

/// Tags of the constants used by the example programs.
pub const ZERO: &'static str = "0";

pub const ONE: &'static str = "1";

pub const UNIT: &'static str = "()";

/// The state of one slot: written at most once, by applying its abstraction,
/// then consumed at most once, by the reference to it.
#[derive(Debug)]
pub enum Slot {
    Unwritten,
    Written(Expr),
    Consumed,
}

/// The slots of all abstractions made so far.
#[derive(Debug)]
pub struct Args {
    slots: Vec<Slot>,
}

/// A fatal condition met while evaluating.
#[derive(Clone, Copy, PartialEq, Eq, Debug, Structural)]
pub enum EvalError {
    /// A reference was evaluated while its slot held no value.
    Uninitialized { slot: usize },
    /// An abstraction was applied while its slot had already been written.
    DoubleBeta { slot: usize },
    /// The function of an application reduced to something other than an abstraction.
    Stuck,
}

impl View for Ptr {
    type V = nat;

    closed spec fn view(&self) -> nat {
        self.0 as nat
    }
}

impl View for Args {
    type V = Seq<Slot>;

    closed spec fn view(&self) -> Seq<Slot> {
        self.slots@
    }
}

impl Lam {
    /// The index of this abstraction's slot.
    pub closed spec fn slot(&self) -> nat {
        self.0@
    }

    /// This abstraction's body.
    pub closed spec fn body(&self) -> Expr {
        *self.1
    }
}

/// The reference to slot `k`.
pub closed spec fn reference_to(k: nat) -> Expr {
    Expr::Ptr(Ptr(k as usize))
}

/// Lemma: [`reference_to`] gives a reference to slot `k`, a term of one node
/// that references `k` freely.
pub proof fn lemma_reference_to(k: nat)
    requires
        k <= usize::MAX,
    ensures
        reference_to(k) is Ptr,
        reference_to(k)->Ptr_0@ == k,
        size(reference_to(k)) == 1,
        refs(reference_to(k)) == set![k],
        free(reference_to(k)) == set![k],
        binders(reference_to(k)) == Set::<nat>::empty(),
        distinct_refs(reference_to(k)),
{
}

/// Number of nodes of a term.
pub open spec fn size(e: Expr) -> nat
    decreases e,
{
    match e {
        Expr::Lam(l) => 1 + size(l.body()),
        Expr::App(f, v) => 1 + size(*f) + size(*v),
        _ => 1,
    }
}

/// Number of nodes held by a slot.
pub open spec fn slot_size(s: Slot) -> nat {
    match s {
        Slot::Written(e) => size(e),
        _ => 0,
    }
}

/// Number of nodes held by all slots.
pub open spec fn table_size(s: Seq<Slot>) -> nat
    decreases s.len(),
{
    if s.len() == 0 {
        0
    } else {
        table_size(s.drop_last()) + slot_size(s.last())
    }
}

/// Lemma: writing `x` into slot `j` changes the nodes held by the slots by
/// what it removes and what it adds.
pub proof fn lemma_table_update(s: Seq<Slot>, j: int, x: Slot)
    requires
        0 <= j < s.len(),
    ensures
        table_size(s.update(j, x)) + slot_size(s[j]) == table_size(s) + slot_size(x),
    decreases s.len(),
{
    let t = s.update(j, x);
    if j == s.len() - 1 {
        assert(t.drop_last() =~= s.drop_last());
    } else {
        lemma_table_update(s.drop_last(), j, x);
        assert(t.drop_last() =~= s.drop_last().update(j, x));
    }
}


/// Beta reduction of the abstraction `f` applied to the value `v`: the value is
/// written into the abstraction's slot and the body takes the application's place.
pub open spec fn beta_spec(f: Expr, v: Expr, s: Seq<Slot>) -> (Expr, Seq<Slot>, Result<bool, EvalError>) {
    match f {
        Expr::Lam(l) => {
            if l.slot() >= s.len() {
                (Expr::App(Box::new(f), Box::new(v)), s, Err(EvalError::Uninitialized { slot: l.slot() as usize }))
            } else if s[l.slot() as int] is Unwritten {
                (l.body(), s.update(l.slot() as int, Slot::Written(v)), Ok(true))
            } else {
                (Expr::App(Box::new(f), Box::new(v)), s, Err(EvalError::DoubleBeta { slot: l.slot() as usize }))
            }
        },
        _ => (Expr::App(Box::new(f), Box::new(v)), s, Err(EvalError::Stuck)),
    }
}

/// One step of evaluation of `e` over the slots `s`: the leftmost-first rewrite,
/// if any, giving the new term, the new slots, and whether progress was made.
pub open spec fn step_spec(e: Expr, s: Seq<Slot>) -> (Expr, Seq<Slot>, Result<bool, EvalError>)
    decreases e,
{
    match e {
        Expr::Ptr(p) => {
            if p@ < s.len() && s[p@ as int] is Written {
                (s[p@ as int]->Written_0, s.update(p@ as int, Slot::Consumed), Ok(true))
            } else {
                (e, s, Err(EvalError::Uninitialized { slot: p@ as usize }))
            }
        },
        Expr::App(f, v) => {
            let (f1, s1, r1) = step_spec(*f, s);
            if r1 == Ok::<bool, EvalError>(false) {
                let (v1, s2, r2) = step_spec(*v, s1);
                if r2 == Ok::<bool, EvalError>(false) {
                    beta_spec(f1, v1, s2)
                } else {
                    (Expr::App(Box::new(f1), Box::new(v1)), s2, r2)
                }
            } else {
                (Expr::App(Box::new(f1), v), s1, r1)
            }
        },
        _ => (e, s, Ok(false)),
    }
}

/// Lemma: a step keeps the number of slots; one that makes progress lowers the
/// nodes held by the term and the slots together; one that makes none changes
/// nothing and finds a constant or an abstraction.
pub proof fn lemma_step(e: Expr, s: Seq<Slot>)
    ensures
        step_spec(e, s).1.len() == s.len(),
        step_spec(e, s).2 == Ok::<bool, EvalError>(true) ==> size(step_spec(e, s).0) + table_size(
            step_spec(e, s).1,
        ) < size(e) + table_size(s),
        step_spec(e, s).2 == Ok::<bool, EvalError>(false) ==> {
            &&& step_spec(e, s).0 == e
            &&& step_spec(e, s).1 == s
            &&& (e is Bas || e is Lam)
        },
    decreases e,
{
    match e {
        Expr::Ptr(p) => {
            if p@ < s.len() && s[p@ as int] is Written {
                lemma_table_update(s, p@ as int, Slot::Consumed);
            }
        },
        Expr::App(f, v) => {
            lemma_step(*f, s);
            let (f1, s1, r1) = step_spec(*f, s);
            if r1 == Ok::<bool, EvalError>(false) {
                lemma_step(*v, s1);
                let (v1, s2, r2) = step_spec(*v, s1);
                if r2 == Ok::<bool, EvalError>(false) {
                    if let Expr::Lam(l) = f1 {
                        if l.slot() < s.len() && s[l.slot() as int] is Unwritten {
                            lemma_table_update(s, l.slot() as int, Slot::Written(v1));
                        }
                    }
                }
            }
        },
        _ => {},
    }
}

/// Evaluation of `e` over the slots `s`: steps until none makes progress, giving
/// the final slots and the value reached, or the first error.
pub open spec fn eval_spec(e: Expr, s: Seq<Slot>) -> (Seq<Slot>, Result<Expr, EvalError>)
    decreases size(e) + table_size(s),
    via eval_spec_decreases
{
    let (e1, s1, r) = step_spec(e, s);
    match r {
        Ok(true) => eval_spec(e1, s1),
        Ok(false) => (s, Ok(e)),
        Err(err) => (s1, Err(err)),
    }
}

#[via_fn]
proof fn eval_spec_decreases(e: Expr, s: Seq<Slot>) {
    lemma_step(e, s);
}


impl Args {
    /// An empty table of slots, with room reserved for `cap` of them.
    pub fn with_capacity(cap: usize) -> (r: Self)
        ensures
            r@ == Seq::<Slot>::empty(),
    {
        Args { slots: Vec::with_capacity(cap) }
    }

    /// Number of slots made so far.
    pub fn len(&self) -> (r: usize)
        ensures
            r == self@.len(),
    {
        self.slots.len()
    }
}

/// The constant `c`.
pub fn make_bas(c: &'static str) -> (r: Expr)
    ensures
        r == Expr::Bas(c),
{
    Expr::Bas(c)
}

/// The application of `f` to `v`.
pub fn make_app(f: Expr, v: Expr) -> (r: Expr)
    ensures
        r == Expr::App(Box::new(f), Box::new(v)),
{
    Expr::App(Box::new(f), Box::new(v))
}

/// An abstraction over a new, unwritten slot, whose body `init` builds from
/// the one reference to that slot.
pub fn make_lam(args: &mut Args, init: impl FnOnce(&mut Args, Expr) -> Expr) -> (r: Expr)
    requires
        forall|a: &mut Args, x: Expr| call_requires(init, (a, x)),
    ensures
        r is Lam,
        r->Lam_0.slot() == old(args)@.len(),
        exists|a: &mut Args|
            {
                &&& (*a)@ == old(args)@.push(Slot::Unwritten)
                &&& (*final(a))@ == final(args)@
                &&& call_ensures(init, (a, reference_to(old(args)@.len())), r->Lam_0.body())
            },
{
    let k = args.slots.len();
    args.slots.push(Slot::Unwritten);
    let a: &mut Args = &mut *args;
    let ghost ga = a;
    let body = init(a, Expr::Ptr(Ptr(k)));
    assert((*final(ga))@ == args@);
    Expr::Lam(Lam(Ptr(k), Box::new(body)))
}

/// Performs at most one rewrite in `e` and says whether one happened.
fn step(e: Expr, args: &mut Args) -> (r: (Expr, Result<bool, EvalError>))
    ensures
        (r.0, final(args)@, r.1) == step_spec(e, old(args)@),
    decreases e,
{
    match e {
        Expr::Ptr(p) => {
            let k = p.0;
            if k < args.slots.len() && matches!(args.slots[k], Slot::Written(_)) {
                let mut taken = Slot::Consumed;
                std::mem::swap(&mut taken, &mut args.slots[k]);
                match taken {
                    Slot::Written(value) => (value, Ok(true)),
                    _ => (Expr::Ptr(p), Err(EvalError::Uninitialized { slot: k })),
                }
            } else {
                (Expr::Ptr(p), Err(EvalError::Uninitialized { slot: k }))
            }
        },
        Expr::App(f, v) => {
            let (f1, r1) = step(*f, args);
            match r1 {
                Ok(false) => {},
                _ => return (Expr::App(Box::new(f1), v), r1),
            }
            let (v1, r2) = step(*v, args);
            match r2 {
                Ok(false) => {},
                _ => return (Expr::App(Box::new(f1), Box::new(v1)), r2),
            }
            beta(f1, v1, args)
        },
        other => (other, Ok(false)),
    }
}

/// Applies the abstraction `f` to the value `v`.
fn beta(f: Expr, v: Expr, args: &mut Args) -> (r: (Expr, Result<bool, EvalError>))
    ensures
        (r.0, final(args)@, r.1) == beta_spec(f, v, old(args)@),
{
    match f {
        Expr::Lam(Lam(p, body)) => {
            let k = p.0;
            if k >= args.slots.len() {
                return (
                    Expr::App(Box::new(Expr::Lam(Lam(p, body))), Box::new(v)),
                    Err(EvalError::Uninitialized { slot: k }),
                );
            }
            if matches!(args.slots[k], Slot::Unwritten) {
                args.slots.set(k, Slot::Written(v));
                (*body, Ok(true))
            } else {
                (
                    Expr::App(Box::new(Expr::Lam(Lam(p, body))), Box::new(v)),
                    Err(EvalError::DoubleBeta { slot: k }),
                )
            }
        },
        other => (Expr::App(Box::new(other), Box::new(v)), Err(EvalError::Stuck)),
    }
}

/// Evaluates `e` until no step makes progress, and gives the value reached:
/// a constant or an abstraction.
pub fn eval(e: Expr, args: &mut Args) -> (r: Result<Expr, EvalError>)
    ensures
        (final(args)@, r) == eval_spec(e, old(args)@),
{
    let ghost start = e;
    let mut cur = e;
    loop
        invariant
            start == e,
            eval_spec(cur, args@) == eval_spec(start, old(args)@),
        decreases size(cur) + table_size(args@),
    {
        let ghost before = (cur, args@);
        let (next, progress) = step(cur, args);
        proof {
            lemma_step(before.0, before.1);
            assert(eval_spec(before.0, before.1) == match progress {
                Ok(true) => eval_spec(next, args@),
                Ok(false) => (before.1, Ok::<Expr, EvalError>(before.0)),
                Err(err) => (args@, Err::<Expr, EvalError>(err)),
            });
        }
        match progress {
            Ok(true) => {
                cur = next;
            },
            Ok(false) => {
                return Ok(next);
            },
            Err(err) => return Err(err),
        }
    }
}


/// The slots referenced anywhere in `e`.
pub open spec fn refs(e: Expr) -> Set<nat>
    decreases e,
{
    match e {
        Expr::Ptr(p) => set![p@],
        Expr::Lam(l) => refs(l.body()),
        Expr::App(f, v) => refs(*f).union(refs(*v)),
        _ => Set::empty(),
    }
}

/// The slots referenced in `e` outside the abstraction that owns them.
pub open spec fn free(e: Expr) -> Set<nat>
    decreases e,
{
    match e {
        Expr::Ptr(p) => set![p@],
        Expr::Lam(l) => free(l.body()).remove(l.slot()),
        Expr::App(f, v) => free(*f).union(free(*v)),
        _ => Set::empty(),
    }
}

/// The slots of the abstractions in `e`.
pub open spec fn binders(e: Expr) -> Set<nat>
    decreases e,
{
    match e {
        Expr::Lam(l) => binders(l.body()).insert(l.slot()),
        Expr::App(f, v) => binders(*f).union(binders(*v)),
        _ => Set::empty(),
    }
}

/// No slot is referenced twice in `e`.
pub open spec fn distinct_refs(e: Expr) -> bool
    decreases e,
{
    match e {
        Expr::Lam(l) => distinct_refs(l.body()),
        Expr::App(f, v) => distinct_refs(*f) && distinct_refs(*v) && refs(*f).disjoint(refs(*v)),
        _ => true,
    }
}

/// The slots that hold a value.
pub open spec fn written(s: Seq<Slot>) -> Set<nat> {
    Set::new(|k: nat| k < s.len() && s[k as int] is Written)
}

/// Every slot of `ks` is below `n`.
pub open spec fn below(ks: Set<nat>, n: nat) -> bool {
    forall|k: nat| #[trigger] ks.contains(k) ==> k < n
}

/// Every slot of `ks` exists in `s`.
pub open spec fn in_range(ks: Set<nat>, s: Seq<Slot>) -> bool {
    below(ks, s.len())
}

proof fn lemma_below_union(a: Set<nat>, b: Set<nat>, n: nat)
    ensures
        below(a.union(b), n) == (below(a, n) && below(b, n)),
{
    if below(a, n) && below(b, n) {
        assert forall|k: nat| #[trigger] a.union(b).contains(k) implies k < n by {
            if a.contains(k) {
            } else {
                assert(b.contains(k));
            }
        }
    }
    if below(a.union(b), n) {
        assert forall|k: nat| #[trigger] a.contains(k) implies k < n by {
            assert(a.union(b).contains(k));
        }
        assert forall|k: nat| #[trigger] b.contains(k) implies k < n by {
            assert(a.union(b).contains(k));
        }
    }
}

proof fn lemma_below_insert(a: Set<nat>, k: nat, n: nat)
    requires
        k < n,
    ensures
        below(a.insert(k), n) == below(a, n),
{
    if below(a.insert(k), n) {
        assert forall|j: nat| #[trigger] a.contains(j) implies j < n by {
            assert(a.insert(k).contains(j));
        }
    }
}

/// The value held by slot `j`.
pub open spec fn content(s: Seq<Slot>, j: nat) -> Expr {
    s[j as int]->Written_0
}

/// The values held by the slots are themselves well formed, reference no slot
/// of `outside`, and share no referenced slot with one another.
pub open spec fn store_ok(s: Seq<Slot>, outside: Set<nat>) -> bool {
    &&& forall|j: nat|
        #[trigger] written(s).contains(j) ==> {
            &&& distinct_refs(content(s, j))
            &&& free(content(s, j)).subset_of(written(s))
            &&& in_range(binders(content(s, j)), s)
            &&& refs(content(s, j)).disjoint(outside)
        }
    &&& forall|i: nat, j: nat|
        written(s).contains(i) && written(s).contains(j) && i != j ==> refs(
            #[trigger] content(s, i),
        ).disjoint(refs(#[trigger] content(s, j)))
}

/// `e`, evaluated over `s` inside a context that references the slots of `ctx`,
/// references each slot once, only written slots freely, only existing slots
/// in its abstractions, and the same holds of the values held by the slots.
pub open spec fn scoped(e: Expr, s: Seq<Slot>, ctx: Set<nat>) -> bool {
    &&& distinct_refs(e)
    &&& refs(e).disjoint(ctx)
    &&& free(e).subset_of(written(s))
    &&& in_range(binders(e), s)
    &&& store_ok(s, refs(e).union(ctx))
}

/// `r` is the error of an unwritten slot.
pub open spec fn is_uninitialized(r: Result<bool, EvalError>) -> bool {
    r matches Err(EvalError::Uninitialized { .. })
}

proof fn lemma_free_in_refs(e: Expr)
    ensures
        free(e).subset_of(refs(e)),
    decreases e,
{
    match e {
        Expr::Lam(l) => lemma_free_in_refs(l.body()),
        Expr::App(f, v) => {
            lemma_free_in_refs(*f);
            lemma_free_in_refs(*v);
        },
        _ => {},
    }
}

proof fn lemma_step_scoped(e: Expr, s: Seq<Slot>, ctx: Set<nat>)
    requires
        scoped(e, s, ctx),
    ensures
        !is_uninitialized(step_spec(e, s).2),
        step_spec(e, s).2 == Ok::<bool, EvalError>(true) ==> scoped(
            step_spec(e, s).0,
            step_spec(e, s).1,
            ctx,
        ),
        forall|j: nat|
            written(s).contains(j) && !refs(e).contains(j) ==> #[trigger] written(
                step_spec(e, s).1,
            ).contains(j),
    decreases e,
{
    lemma_step(e, s);
    match e {
        Expr::Ptr(p) => {
            let k = p@;
            assert(free(e).contains(k));
            let c = content(s, k);
            let s1 = s.update(k as int, Slot::Consumed);
            assert(written(s1) =~= written(s).remove(k));
            assert(written(s).contains(k));
            lemma_free_in_refs(c);
            assert forall|j: nat| #[trigger] written(s1).contains(j) implies content(s1, j) == content(s, j) by {}
            assert(refs(c).disjoint(refs(e).union(ctx)));
            assert(!refs(c).contains(k));
            assert(free(c).subset_of(written(s1)));
            assert forall|j: nat| #[trigger] written(s1).contains(j) implies {
                &&& distinct_refs(content(s1, j))
                &&& free(content(s1, j)).subset_of(written(s1))
                &&& in_range(binders(content(s1, j)), s1)
                &&& refs(content(s1, j)).disjoint(refs(c).union(ctx))
            } by {
                assert(written(s).contains(j));
                lemma_free_in_refs(content(s, j));
                assert(refs(content(s, j)).disjoint(refs(e).union(ctx)));
                assert(refs(content(s, j)).disjoint(refs(c)));
            }
            assert(store_ok(s1, refs(c).union(ctx)));
        },
        Expr::App(f, v) => {
            let fv = *f;
            let vv = *v;
            assert(refs(e) == refs(fv).union(refs(vv)));
            assert(free(e) == free(fv).union(free(vv)));
            assert(binders(e) == binders(fv).union(binders(vv)));
            assert(distinct_refs(fv) && distinct_refs(vv) && refs(fv).disjoint(refs(vv)));
            assert(refs(e).union(ctx) =~= refs(fv).union(ctx.union(refs(vv))));
            assert forall|x: nat| binders(fv).contains(x) || binders(vv).contains(x) implies x
                < s.len() by {
                assert(binders(e).contains(x));
            }
            assert(free(fv).subset_of(written(s)) && free(vv).subset_of(written(s)));
            assert(refs(fv).disjoint(ctx.union(refs(vv))));
            assert(refs(vv).disjoint(ctx.union(refs(fv))));
            assert(scoped(fv, s, ctx.union(refs(vv))));
            lemma_step_scoped(fv, s, ctx.union(refs(vv)));
            let (f1, s1, r1) = step_spec(fv, s);
            if r1 == Ok::<bool, EvalError>(true) {
                lemma_free_in_refs(vv);
                assert(refs(Expr::App(Box::new(f1), v)).union(ctx) =~= refs(f1).union(
                    ctx.union(refs(vv)),
                ));
            } else if r1 == Ok::<bool, EvalError>(false) {
                assert(refs(e).union(ctx) =~= refs(vv).union(ctx.union(refs(fv))));
                assert(scoped(vv, s, ctx.union(refs(fv))));
                lemma_step_scoped(vv, s, ctx.union(refs(fv)));
                let (v1, s2, r2) = step_spec(vv, s1);
                if r2 == Ok::<bool, EvalError>(true) {
                    lemma_free_in_refs(fv);
                    assert(refs(Expr::App(Box::new(f1), Box::new(v1))).union(ctx) =~= refs(
                        v1,
                    ).union(ctx.union(refs(fv))));
                } else if r2 == Ok::<bool, EvalError>(false) {
                    lemma_beta_scoped(fv, vv, s, ctx);
                }
            }
        },
        _ => {},
    }
}

proof fn lemma_beta_scoped(f: Expr, v: Expr, s: Seq<Slot>, ctx: Set<nat>)
    requires
        scoped(Expr::App(Box::new(f), Box::new(v)), s, ctx),
    ensures
        !is_uninitialized(beta_spec(f, v, s).2),
        beta_spec(f, v, s).2 == Ok::<bool, EvalError>(true) ==> scoped(
            beta_spec(f, v, s).0,
            beta_spec(f, v, s).1,
            ctx,
        ),
        forall|j: nat|
            written(s).contains(j) ==> #[trigger] written(beta_spec(f, v, s).1).contains(j),
{
    let e = Expr::App(Box::new(f), Box::new(v));
    if let Expr::Lam(l) = f {
        let k = l.slot();
        let b = l.body();
        assert(binders(f) == binders(b).insert(k));
        assert(binders(e) == binders(f).union(binders(v)));
        assert(binders(e).contains(k));
        assert(free(f) == free(b).remove(k));
        assert(free(e) == free(f).union(free(v)));
        assert(refs(f) == refs(b));
        assert(refs(e) == refs(f).union(refs(v)));
        assert(distinct_refs(f) == distinct_refs(b));
        assert(distinct_refs(b) && distinct_refs(v) && refs(f).disjoint(refs(v)));
        if s[k as int] is Unwritten {
            let s1 = s.update(k as int, Slot::Written(v));
            assert(written(s1) =~= written(s).insert(k));
            assert(free(b).subset_of(written(s1)));
            assert forall|x: nat| binders(b).contains(x) implies x < s1.len() by {
                assert(binders(e).contains(x));
            }
            assert(refs(b).disjoint(ctx));
            assert(content(s1, k) == v);
            assert forall|j: nat| #[trigger] written(s).contains(j) implies content(s1, j) == content(s, j) by {}
            assert forall|j: nat| #[trigger] written(s1).contains(j) implies {
                &&& distinct_refs(content(s1, j))
                &&& free(content(s1, j)).subset_of(written(s1))
                &&& in_range(binders(content(s1, j)), s1)
                &&& refs(content(s1, j)).disjoint(refs(b).union(ctx))
            } by {
                if j != k {
                    assert(written(s).contains(j));
                    assert(refs(content(s, j)).disjoint(refs(e).union(ctx)));
                } else {
                    assert(free(v).subset_of(written(s)));
                    assert forall|x: nat| binders(v).contains(x) implies x < s.len() by {
                        assert(binders(e).contains(x));
                    }
                    assert(refs(v).disjoint(ctx));
                }
            }
            assert forall|i: nat, j: nat|
                written(s1).contains(i) && written(s1).contains(j) && i != j implies refs(
                #[trigger] content(s1, i),
            ).disjoint(refs(#[trigger] content(s1, j))) by {
                if i != k && j != k {
                    assert(written(s).contains(i) && written(s).contains(j));
                } else if i == k {
                    assert(written(s).contains(j));
                    assert(refs(content(s, j)).disjoint(refs(e).union(ctx)));
                } else {
                    assert(written(s).contains(i));
                    assert(refs(content(s, i)).disjoint(refs(e).union(ctx)));
                }
            }
            assert(store_ok(s1, refs(b).union(ctx)));
        }
    }
}

/// The indices at which `v` holds `true`.
pub open spec fn set_of(v: Seq<bool>) -> Set<nat> {
    Set::new(|k: nat| k < v.len() && v[k as int])
}

/// Checks `e` against slots `0..n`: every reference is to a slot in `bound` or
/// owned by an enclosing abstraction of `e`, no slot is referenced twice nor
/// already in `seen`, and every abstraction's slot is below `n`. On success the
/// slots referenced by `e` are added to `seen`.
fn check_scope(e: &Expr, n: usize, bound: &mut Vec<bool>, seen: &mut Vec<bool>) -> (r: bool)
    requires
        old(bound)@.len() == n,
        old(seen)@.len() == n,
    ensures
        final(bound)@ == old(bound)@,
        final(seen)@.len() == n,
        r == (free(*e).subset_of(set_of(old(bound)@)) && distinct_refs(*e) && refs(*e).disjoint(
            set_of(old(seen)@),
        ) && below(binders(*e), n as nat)),
        r ==> set_of(final(seen)@) == set_of(old(seen)@).union(refs(*e)),
    decreases e,
{
    match e {
        Expr::Ptr(p) => {
            let k = p.0;
            if k < n && bound[k] && !seen[k] {
                seen.set(k, true);
                assert(set_of(seen@) =~= set_of(old(seen)@).union(refs(*e)));
                true
            } else {
                assert(free(*e).contains(k as nat));
                false
            }
        },
        Expr::Lam(l) => {
            let k = l.0.0;
            if k >= n {
                assert(binders(*e).contains(k as nat));
                return false;
            }
            let was = bound[k];
            bound.set(k, true);
            let ghost inner = bound@;
            let r = check_scope(&l.1, n, bound, seen);
            bound.set(k, was);
            assert(bound@ =~= old(bound)@);
            assert(set_of(inner) =~= set_of(old(bound)@).insert(k as nat));
            assert(free(*e) == free(l.body()).remove(k as nat));
            assert(free(l.body()).subset_of(set_of(inner)) <==> free(*e).subset_of(
                set_of(old(bound)@),
            ));
            assert(binders(*e) == binders(l.body()).insert(k as nat));
            proof {
                lemma_below_insert(binders(l.body()), k as nat, n as nat);
            }
            r
        },
        Expr::App(f, v) => {
            let ghost seen0 = seen@;
            assert(free(*e) == free(**f).union(free(**v)));
            assert(refs(*e) == refs(**f).union(refs(**v)));
            assert(binders(*e) == binders(**f).union(binders(**v)));
            assert(distinct_refs(*e) == (distinct_refs(**f) && distinct_refs(**v) && refs(
                **f,
            ).disjoint(refs(**v))));
            if !check_scope(f, n, bound, seen) {
                proof {
                    lemma_below_union(binders(**f), binders(**v), n as nat);
                }
                return false;
            }
            let ghost seen1 = seen@;
            let r = check_scope(v, n, bound, seen);
            assert(refs(**v).disjoint(set_of(seen1)) <==> (refs(**v).disjoint(set_of(seen0))
                && refs(**f).disjoint(refs(**v))));
            proof {
                lemma_below_union(binders(**f), binders(**v), n as nat);
            }
            if r {
                assert(set_of(seen@) =~= set_of(seen0).union(refs(*e)));
            }
            r
        },
        Expr::Bas(_) => true,
    }
}

/// `e` references only slots owned by its own abstractions, each at most once,
/// every abstraction's slot exists in `s`, and no slot of `s` holds a value.
pub open spec fn well_formed(e: Expr, s: Seq<Slot>) -> bool {
    &&& free(e) == Set::<nat>::empty()
    &&& distinct_refs(e)
    &&& in_range(binders(e), s)
    &&& written(s) == Set::<nat>::empty()
}

/// The check made before evaluation: `e` references only slots owned by its
/// own abstractions, each at most once, every abstraction's slot exists in
/// `args`, and no slot holds a value yet.
pub fn is_well_formed(e: &Expr, args: &Args) -> (r: bool)
    ensures
        r == well_formed(*e, args@),
{
    let n = args.slots.len();
    let mut i: usize = 0;
    while i < n
        invariant
            n == args@.len(),
            i <= n,
            forall|j: nat| j < i ==> !(#[trigger] args@[j as int] is Written),
        decreases n - i,
    {
        if matches!(args.slots[i], Slot::Written(_)) {
            assert(written(args@).contains(i as nat));
            return false;
        }
        i = i + 1;
    }
    assert(written(args@) =~= Set::<nat>::empty());
    let mut bound: Vec<bool> = Vec::new();
    let mut seen: Vec<bool> = Vec::new();
    let mut i: usize = 0;
    while i < n
        invariant
            i <= n,
            bound@.len() == i,
            seen@.len() == i,
            forall|j: int| 0 <= j < i ==> !(#[trigger] bound@[j]) && !seen@[j],
        decreases n - i,
    {
        bound.push(false);
        seen.push(false);
        i = i + 1;
    }
    assert(set_of(bound@) =~= Set::<nat>::empty());
    assert(set_of(seen@) =~= Set::<nat>::empty());
    let r = check_scope(e, n, &mut bound, &mut seen);
    assert(free(*e).subset_of(Set::<nat>::empty()) <==> free(*e) =~= Set::<nat>::empty());
    r
}

/// Evaluation is deterministic: the same term over the same slots gives the
/// same final slots and the same result.
pub proof fn lemma_eval_deterministic(e1: Expr, a1: &Args, e2: Expr, a2: &Args)
    requires
        e1 == e2,
        a1@ == a2@,
    ensures
        eval_spec(e1, a1@) == eval_spec(e2, a2@),
{
}

/// A program that passes [`is_well_formed`] (every reference lies inside the
/// abstraction that owns its slot, no slot is referenced twice, every
/// abstraction's slot exists and no slot holds a value yet) never meets an
/// unwritten slot when evaluated.
pub proof fn lemma_scoped_never_uninitialized(e: Expr, args: &Args)
    requires
        well_formed(e, args@),
    ensures
        !(eval_spec(e, args@).1 matches Err(EvalError::Uninitialized { .. })),
{
    assert(store_ok(args@, refs(e)));
    lemma_eval_scoped(e, args@);
}

proof fn lemma_eval_scoped(e: Expr, s: Seq<Slot>)
    requires
        scoped(e, s, Set::empty()),
    ensures
        !(eval_spec(e, s).1 matches Err(EvalError::Uninitialized { .. })),
    decreases size(e) + table_size(s),
{
    lemma_step(e, s);
    lemma_step_scoped(e, s, Set::empty());
    let (e1, s1, r) = step_spec(e, s);
    if r == Ok::<bool, EvalError>(true) {
        lemma_eval_scoped(e1, s1);
    }
}

} // verus!
