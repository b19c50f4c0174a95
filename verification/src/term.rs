//! Lambda terms as trees, and the functions on them that the contracts of
//! this library are stated in.
//!
//! A term is a de-Bruijn-indexed lambda term over named primitives. Besides
//! ordinary variables it may hold *holes* (`IVar`), the places that the
//! arguments of an abstraction fill.
use vstd::prelude::*;

verus! {

/// A lambda term.
pub enum Term {
    /// A bound variable, by the number of binders between it and its own.
    Var(nat),
    /// A hole of an abstraction body.
    IVar(nat),
    /// An application of a function to an argument.
    App(Box<Term>, Box<Term>),
    /// A lambda with one binder.
    Lam(Box<Term>),
    /// A named primitive.
    Prim(Seq<u8>),
    /// The container of all programs of a corpus.
    Programs(Seq<Term>),
}

/// The largest index that a variable or a hole can carry.
pub open spec fn max_index() -> int {
    0xffff_ffff
}

/// Whether every variable and every hole of the term carries an index that
/// a node can hold.
pub open spec fn in_range(t: Term) -> bool
    decreases t,
{
    match t {
        Term::Var(i) | Term::IVar(i) => i <= max_index(),
        Term::App(f, x) => in_range(*f) && in_range(*x),
        Term::Lam(b) => in_range(*b),
        Term::Prim(_) => true,
        Term::Programs(ps) => forall|k: int| 0 <= k < ps.len() ==> in_range(#[trigger] ps[k]),
    }
}

/// The size cost of a term: 100 for each leaf, 1 for each application and
/// each lambda; the container of programs costs what its programs cost.
pub open spec fn cost(t: Term) -> int
    decreases t, 0nat,
{
    match t {
        Term::Var(_) | Term::IVar(_) | Term::Prim(_) => 100,
        Term::App(f, x) => 1 + cost(*f) + cost(*x),
        Term::Lam(b) => 1 + cost(*b),
        Term::Programs(ps) => cost_sum(ps, ps.len()),
    }
}

/// The sum of the costs of the first `n` terms of `ts`.
pub open spec fn cost_sum(ts: Seq<Term>, n: nat) -> int
    decreases ts, n,
{
    if n == 0 || n > ts.len() {
        0
    } else {
        cost_sum(ts, (n - 1) as nat) + cost(ts[n - 1])
    }
}

/// The indices of the variables of `t` whose binder lies outside `t`, each
/// counted from the root of `t`. The container of programs has none: its
/// programs are closed.
pub open spec fn free_vars(t: Term) -> Set<nat>
    decreases t,
{
    match t {
        Term::Var(i) => set![i],
        Term::IVar(_) | Term::Prim(_) | Term::Programs(_) => Set::empty(),
        Term::App(f, x) => free_vars(*f).union(free_vars(*x)),
        Term::Lam(b) => Set::new(|i: nat| free_vars(*b).contains(i + 1)),
    }
}

/// The indices of the holes of `t`. A lambda binds no hole.
pub open spec fn free_ivars(t: Term) -> Set<nat>
    decreases t,
{
    match t {
        Term::IVar(i) => set![i],
        Term::Var(_) | Term::Prim(_) | Term::Programs(_) => Set::empty(),
        Term::App(f, x) => free_ivars(*f).union(free_ivars(*x)),
        Term::Lam(b) => free_ivars(*b),
    }
}

/// How indices are moved: the free variables by a constant, the holes by a
/// constant, or each hole by the entry of a table at its own index.
pub enum ShiftSpec {
    Var(int),
    IVar(int),
    Table(Seq<int>),
}

/// Where a hole with index `i` goes under the mode `m`, if it goes anywhere.
pub open spec fn shift_hole(i: nat, m: ShiftSpec) -> Option<nat> {
    match m {
        ShiftSpec::Var(_) => Some(i),
        ShiftSpec::IVar(k) => if 0 <= i + k <= max_index() {
            Some((i + k) as nat)
        } else {
            None
        },
        ShiftSpec::Table(tb) => if i < tb.len() && 0 <= i + tb[i as int] <= max_index() {
            Some((i + tb[i as int]) as nat)
        } else {
            None
        },
    }
}

/// Where a variable with index `i` that stands under `depth` binders goes under
/// the mode `m`. A variable bound inside stays. A free one fails where it
/// would point below the root, or leave the range of indices.
pub open spec fn shift_var(i: nat, m: ShiftSpec, depth: nat) -> Option<nat> {
    match m {
        ShiftSpec::Var(k) => if i < depth {
            Some(i)
        } else if i - depth + k >= 0 && i + k <= max_index() {
            Some((i + k) as nat)
        } else {
            None
        },
        _ => Some(i),
    }
}

/// The term `t`, standing under `depth` binders, with its indices moved as `m`
/// says; `None` where one of them cannot be moved.
pub open spec fn shift_term(t: Term, m: ShiftSpec, depth: nat) -> Option<Term>
    decreases t,
{
    match t {
        Term::Var(i) => match shift_var(i, m, depth) {
            Some(j) => Some(Term::Var(j)),
            None => None,
        },
        Term::IVar(i) => match shift_hole(i, m) {
            Some(j) => Some(Term::IVar(j)),
            None => None,
        },
        Term::App(f, x) => match (shift_term(*f, m, depth), shift_term(*x, m, depth)) {
            (Some(f2), Some(x2)) => Some(Term::App(Box::new(f2), Box::new(x2))),
            _ => None,
        },
        Term::Lam(b) => match shift_term(*b, m, depth + 1) {
            Some(b2) => Some(Term::Lam(Box::new(b2))),
            None => None,
        },
        Term::Prim(_) | Term::Programs(_) => Some(t),
    }
}

/// Whether the mode moves variables (and not holes).
pub open spec fn moves_vars(m: ShiftSpec) -> bool {
    m is Var
}

/// A term costs at least nothing.
pub proof fn lemma_cost_nonneg(t: Term)
    ensures
        cost(t) >= 0,
    decreases t, 0nat,
{
    match t {
        Term::App(f, x) => {
            lemma_cost_nonneg(*f);
            lemma_cost_nonneg(*x);
        },
        Term::Lam(b) => {
            lemma_cost_nonneg(*b);
        },
        Term::Programs(ps) => {
            lemma_cost_sum_nonneg(ps, ps.len());
        },
        _ => {},
    }
}

/// A sum of costs is at least nothing, and grows with the number of terms.
pub proof fn lemma_cost_sum_nonneg(ts: Seq<Term>, n: nat)
    ensures
        cost_sum(ts, n) >= 0,
    decreases ts, n,
{
    if n == 0 || n > ts.len() {
    } else {
        lemma_cost_sum_nonneg(ts, (n - 1) as nat);
        lemma_cost_nonneg(ts[n - 1]);
    }
}

/// A sum of costs grows with the number of terms.
pub proof fn lemma_cost_sum_monotone(ts: Seq<Term>, a: nat, b: nat)
    requires
        a <= b <= ts.len(),
    ensures
        cost_sum(ts, a) <= cost_sum(ts, b),
    decreases b,
{
    if a < b {
        lemma_cost_sum_monotone(ts, a, (b - 1) as nat);
        lemma_cost_nonneg(ts[b - 1]);
    }
}

/// Moving variables leaves a term alone whose free variables all lie under
/// the depth.
pub proof fn lemma_shift_vars_unchanged(t: Term, k: int, depth: nat)
    requires
        forall|i: nat| free_vars(t).contains(i) ==> i < depth,
    ensures
        shift_term(t, ShiftSpec::Var(k), depth) == Some(t),
    decreases t,
{
    match t {
        Term::Var(i) => {
            assert(free_vars(t).contains(i));
        },
        Term::App(f, x) => {
            assert forall|i: nat| free_vars(*f).contains(i) implies i < depth by {
                assert(free_vars(t).contains(i));
            }
            assert forall|i: nat| free_vars(*x).contains(i) implies i < depth by {
                assert(free_vars(t).contains(i));
            }
            lemma_shift_vars_unchanged(*f, k, depth);
            lemma_shift_vars_unchanged(*x, k, depth);
        },
        Term::Lam(b) => {
            assert forall|i: nat| free_vars(*b).contains(i) implies i < depth + 1 by {
                if i >= 1 {
                    assert(free_vars(t).contains((i - 1) as nat));
                }
            }
            lemma_shift_vars_unchanged(*b, k, depth + 1);
        },
        _ => {},
    }
}

/// Moving holes leaves a term alone that has none.
pub proof fn lemma_shift_holes_unchanged(t: Term, m: ShiftSpec, depth: nat)
    requires
        !moves_vars(m),
        free_ivars(t) =~= Set::<nat>::empty(),
    ensures
        shift_term(t, m, depth) == Some(t),
    decreases t,
{
    match t {
        Term::IVar(i) => {
            assert(free_ivars(t).contains(i));
        },
        Term::App(f, x) => {
            assert forall|i: nat| !free_ivars(*f).contains(i) by {
                assert(!free_ivars(t).contains(i));
            }
            assert forall|i: nat| !free_ivars(*x).contains(i) by {
                assert(!free_ivars(t).contains(i));
            }
            lemma_shift_holes_unchanged(*f, m, depth);
            lemma_shift_holes_unchanged(*x, m, depth);
        },
        Term::Lam(b) => {
            lemma_shift_holes_unchanged(*b, m, depth + 1);
        },
        _ => {},
    }
}

/// Moving indices keeps the cost of a term.
pub proof fn lemma_shift_keeps_cost(t: Term, m: ShiftSpec, depth: nat)
    requires
        shift_term(t, m, depth) is Some,
    ensures
        cost(shift_term(t, m, depth).unwrap()) == cost(t),
    decreases t,
{
    match t {
        Term::App(f, x) => {
            lemma_shift_keeps_cost(*f, m, depth);
            lemma_shift_keeps_cost(*x, m, depth);
        },
        Term::Lam(b) => {
            lemma_shift_keeps_cost(*b, m, depth + 1);
        },
        _ => {},
    }
}

} // verus!
