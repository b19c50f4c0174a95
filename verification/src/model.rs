//! Abstractions and their uses, on terms: what the pass over a corpus
//! computes, stated without the store.
//!
//! An *invention* is a body with holes and the number of its holes. An
//! *applam* factors a term into an invention and the arguments that fill its
//! holes. The pass visits the terms of a corpus, children first, and keeps
//! for each term a list of applams and a table of the best cost of the term
//! under each invention that helps it.
use vstd::prelude::*;
use crate::term::{Term, ShiftSpec, cost, free_vars, shift_term};

verus! {

/// A body with holes, and the number of holes.
pub struct SpecInvention {
    pub body: Term,
    pub arity: nat,
}

/// An invention with one argument for each hole.
pub struct SpecAppLam {
    pub inv: SpecInvention,
    pub args: Seq<Term>,
}

/// The best costs of a term: written without an abstraction, and under each
/// invention that makes it cheaper, in the order in which they were found.
/// `K` is what names an invention.
pub struct SpecBest<K> {
    pub inventionless_cost: int,
    pub inventionful_cost: Seq<(K, int)>,
}

/// What the pass keeps for a term.
pub struct SpecEntry {
    pub applams: Seq<SpecAppLam>,
    pub best: SpecBest<SpecInvention>,
}

/// What the pass keeps, by term.
pub type Tables = Map<Term, SpecEntry>;

/// The largest number of holes that a combined invention may have: the
/// number asked for, as far as the entries of a table of shifts can carry it.
pub open spec fn arity_cap(max_arity: nat) -> nat {
    if max_arity > i32::MAX {
        i32::MAX as nat
    } else {
        max_arity
    }
}

/// The applam of a body and its arguments.
pub open spec fn new_applam(body: Term, args: Seq<Term>) -> SpecAppLam {
    SpecAppLam { inv: SpecInvention { body, arity: args.len() }, args }
}

/// The applam that every term has: the whole term is the one argument.
pub open spec fn identity_applam(t: Term) -> SpecAppLam {
    new_applam(Term::IVar(0), seq![t])
}

/// Whether the body of the invention has no free variable.
pub open spec fn valid_invention(inv: SpecInvention) -> bool {
    free_vars(inv.body) =~= Set::<nat>::empty()
}

/// Whether the invention of the applam can be put in place of the term: its
/// body has no free variable and is more than a hole.
pub open spec fn usable(a: SpecAppLam) -> bool {
    valid_invention(a.inv) && a.inv.body != Term::IVar(0)
}

/// Whether a term can stand in a store: its cost is in the range of costs.
pub open spec fn storable(t: Term) -> bool {
    cost(t) <= i32::MAX
}

/// The applam of a body and its arguments, if the body can stand in a store.
pub open spec fn candidate(body: Term, args: Seq<Term>) -> Option<SpecAppLam> {
    if storable(body) {
        Some(new_applam(body, args))
    } else {
        None
    }
}

/// The first `n` of a list of candidates that are there, in order.
pub open spec fn keep_some(c: Seq<Option<SpecAppLam>>, n: nat) -> Seq<SpecAppLam>
    decreases n,
{
    if n == 0 {
        Seq::empty()
    } else {
        let prev = keep_some(c, (n - 1) as nat);
        match c[n - 1] {
            Some(a) => prev.push(a),
            None => prev,
        }
    }
}

/// An applam of the function of an application, with the argument of the
/// application put into its body.
pub open spec fn left_one(fa: SpecAppLam, x: Term) -> Option<SpecAppLam> {
    candidate(Term::App(Box::new(fa.inv.body), Box::new(x)), fa.args)
}

/// An applam of the argument of an application, with the function of the
/// application put into its body.
pub open spec fn right_one(f: Term, xa: SpecAppLam) -> Option<SpecAppLam> {
    candidate(Term::App(Box::new(f), Box::new(xa.inv.body)), xa.args)
}

/// What the first `n` applams of the function of an application give.
pub open spec fn left_bubble(fa: Seq<SpecAppLam>, x: Term, n: nat) -> Seq<SpecAppLam> {
    keep_some(Seq::new(fa.len(), |i: int| left_one(fa[i], x)), n)
}

/// What the first `n` applams of the argument of an application give.
pub open spec fn right_bubble(f: Term, xa: Seq<SpecAppLam>, n: nat) -> Seq<SpecAppLam> {
    keep_some(Seq::new(xa.len(), |i: int| right_one(f, xa[i])), n)
}

/// The first of the first `n` places of `s` that holds `t`.
pub open spec fn position(s: Seq<Term>, t: Term, n: nat) -> Option<int>
    decreases n,
{
    if n == 0 {
        None
    } else {
        match position(s, t, (n - 1) as nat) {
            Some(i) => Some(i),
            None => if s[n - 1] == t {
                Some(n - 1)
            } else {
                None
            },
        }
    }
}

/// Those of the first `n` arguments of the right side that the left side
/// lacks, in order.
pub open spec fn kept_args(fargs: Seq<Term>, xargs: Seq<Term>, n: nat) -> Seq<Term>
    decreases n,
{
    if n == 0 {
        Seq::empty()
    } else if position(fargs, xargs[n - 1], fargs.len()) is Some {
        kept_args(fargs, xargs, (n - 1) as nat)
    } else {
        kept_args(fargs, xargs, (n - 1) as nat).push(xargs[n - 1])
    }
}

/// By how much each of the first `n` holes of the right side moves when the
/// two sides are merged: a hole whose argument the left side has moves to the
/// hole of that argument, and the others to the holes after those of the left
/// side, in order.
pub open spec fn merge_table(fargs: Seq<Term>, xargs: Seq<Term>, n: nat) -> Seq<int>
    decreases n,
{
    if n == 0 {
        Seq::empty()
    } else {
        let j = n - 1;
        let prev = merge_table(fargs, xargs, j as nat);
        match position(fargs, xargs[j], fargs.len()) {
            Some(i) => prev.push(i - j),
            None => prev.push(fargs.len() + kept_args(fargs, xargs, j as nat).len() - j),
        }
    }
}

/// The applam of an application that combines an applam of its function with
/// one of its argument, if it has no more than `limit` holes, the holes of
/// the right body can be moved, and the new body can stand in a store.
pub open spec fn merge_one(fa: SpecAppLam, xa: SpecAppLam, limit: nat) -> Option<SpecAppLam> {
    let kept = kept_args(fa.args, xa.args, xa.args.len());
    if fa.args.len() + kept.len() > limit {
        None
    } else {
        match shift_term(
            xa.inv.body,
            ShiftSpec::Table(merge_table(fa.args, xa.args, xa.args.len())),
            0,
        ) {
            None => None,
            Some(bx) => candidate(Term::App(Box::new(fa.inv.body), Box::new(bx)), fa.args + kept),
        }
    }
}

/// One applam of the function combined with the first `n` of the argument.
pub open spec fn merge_row(fa: SpecAppLam, xas: Seq<SpecAppLam>, n: nat, limit: nat) -> Seq<
    SpecAppLam,
> {
    keep_some(Seq::new(xas.len(), |i: int| merge_one(fa, xas[i], limit)), n)
}

/// The first `m` applams of the function, each combined with all of the
/// argument.
pub open spec fn merge_rows(fas: Seq<SpecAppLam>, xas: Seq<SpecAppLam>, m: nat, limit: nat) -> Seq<
    SpecAppLam,
>
    decreases m,
{
    if m == 0 {
        Seq::empty()
    } else {
        merge_rows(fas, xas, (m - 1) as nat, limit) + merge_row(fas[m - 1], xas, xas.len(), limit)
    }
}

/// The term with each free variable one lower, as it reads once a binder
/// above it is gone; `None` where the term uses that binder.
pub open spec fn shift_down(t: Term) -> Option<Term> {
    shift_term(t, ShiftSpec::Var(-1), 0)
}

/// The first `n` terms, each shifted down; `None` if one of them cannot be.
pub open spec fn shift_all(args: Seq<Term>, n: nat) -> Option<Seq<Term>>
    decreases n,
{
    if n == 0 {
        Some(Seq::empty())
    } else {
        match (shift_all(args, (n - 1) as nat), shift_down(args[n - 1])) {
            (Some(p), Some(a)) => Some(p.push(a)),
            _ => None,
        }
    }
}

/// Whether one of the first `n` terms has the free variable 0.
pub open spec fn some_uses_binder(args: Seq<Term>, n: nat) -> bool
    decreases n,
{
    if n == 0 {
        false
    } else {
        some_uses_binder(args, (n - 1) as nat) || free_vars(args[n - 1]).contains(0)
    }
}

/// The applam of a lambda that an applam of its body gives: none if an
/// argument uses the binder; else the body under the lambda, and the
/// arguments shifted down, if the new body can stand in a store.
pub open spec fn lam_one(ba: SpecAppLam) -> Option<SpecAppLam> {
    if some_uses_binder(ba.args, ba.args.len()) {
        None
    } else {
        match shift_all(ba.args, ba.args.len()) {
            None => None,
            Some(args) => candidate(Term::Lam(Box::new(ba.inv.body)), args),
        }
    }
}

/// What the first `n` applams of the body of a lambda give.
pub open spec fn lam_bubble(bas: Seq<SpecAppLam>, n: nat) -> Seq<SpecAppLam> {
    keep_some(Seq::new(bas.len(), |i: int| lam_one(bas[i])), n)
}

/// The applams that are kept for a term; none where nothing is kept.
pub open spec fn applams_at(s: Tables, t: Term) -> Seq<SpecAppLam> {
    if s.contains_key(t) {
        s[t].applams
    } else {
        Seq::empty()
    }
}

/// The best costs that are kept for a term; where nothing is kept, no
/// invention helps the term.
pub open spec fn best_at(s: Tables, t: Term) -> SpecBest<SpecInvention> {
    if s.contains_key(t) {
        s[t].best
    } else {
        SpecBest { inventionless_cost: cost(t), inventionful_cost: Seq::empty() }
    }
}

/// The applams of a term, from those that are kept for its children: the
/// identity; for an application, what bubbles up from the left and from the
/// right, and every combination of the two sides within the limit; for a
/// lambda, what bubbles over the binder.
pub open spec fn applams_for(s: Tables, t: Term, limit: nat) -> Seq<SpecAppLam> {
    match t {
        Term::App(f, x) => {
            let fa = applams_at(s, *f);
            let xa = applams_at(s, *x);
            seq![identity_applam(t)] + left_bubble(fa, *x, fa.len()) + right_bubble(
                *f,
                xa,
                xa.len(),
            ) + merge_rows(fa, xa, fa.len(), limit)
        },
        Term::Lam(b) => {
            let ba = applams_at(s, *b);
            seq![identity_applam(t)] + lam_bubble(ba, ba.len())
        },
        _ => seq![identity_applam(t)],
    }
}

/// The first of the first `n` entries that is for the invention.
pub open spec fn find_inv<K>(e: Seq<(K, int)>, inv: K, n: nat) -> Option<int>
    decreases n,
{
    if n == 0 {
        None
    } else {
        match find_inv(e, inv, (n - 1) as nat) {
            Some(i) => Some(i),
            None => if e[n - 1].0 == inv {
                Some(n - 1)
            } else {
                None
            },
        }
    }
}

/// Whether the table has an entry for the invention.
pub open spec fn has_inv<K>(b: SpecBest<K>, inv: K) -> bool {
    find_inv(b.inventionful_cost, inv, b.inventionful_cost.len()) is Some
}

/// The cost under the invention: that of its entry, or the cost without an
/// abstraction where it has none.
pub open spec fn cost_under<K>(b: SpecBest<K>, inv: K) -> int {
    match find_inv(b.inventionful_cost, inv, b.inventionful_cost.len()) {
        Some(i) => b.inventionful_cost[i].1,
        None => b.inventionless_cost,
    }
}

/// The table after a cost is proposed for an invention: the cost is kept if
/// it is less than the cost without an abstraction and less than the cost
/// that was kept for the invention, if one was.
pub open spec fn propose<K>(b: SpecBest<K>, inv: K, c: int) -> SpecBest<K> {
    if c < b.inventionless_cost {
        match find_inv(b.inventionful_cost, inv, b.inventionful_cost.len()) {
            Some(i) => if c < b.inventionful_cost[i].1 {
                SpecBest {
                    inventionless_cost: b.inventionless_cost,
                    inventionful_cost: b.inventionful_cost.update(i, (inv, c)),
                }
            } else {
                b
            },
            None => SpecBest {
                inventionless_cost: b.inventionless_cost,
                inventionful_cost: b.inventionful_cost.push((inv, c)),
            },
        }
    } else {
        b
    }
}

/// The sum of the best costs of the first `n` arguments under the invention.
pub open spec fn args_cost(s: Tables, args: Seq<Term>, inv: SpecInvention, n: nat) -> int
    decreases n,
{
    if n == 0 {
        0
    } else {
        args_cost(s, args, inv, (n - 1) as nat) + cost_under(best_at(s, args[n - 1]), inv)
    }
}

/// The cost of a term written as a call of the invention of one of its
/// applams: the new primitive, one application for each argument, and the
/// best cost of each argument under the invention.
pub open spec fn use_cost(s: Tables, a: SpecAppLam) -> int {
    100 + a.inv.arity + args_cost(s, a.args, a.inv, a.args.len())
}

/// The table after the usable ones of the first `n` applams are proposed.
pub open spec fn self_use(
    s: Tables,
    b: SpecBest<SpecInvention>,
    applams: Seq<SpecAppLam>,
    n: nat,
) -> SpecBest<SpecInvention>
    decreases n,
{
    if n == 0 {
        b
    } else {
        let prev = self_use(s, b, applams, (n - 1) as nat);
        let a = applams[n - 1];
        if usable(a) {
            propose(prev, a.inv, use_cost(s, a))
        } else {
            prev
        }
    }
}

/// The table of an application after the first `n` inventions of `keys` are
/// proposed, each at the cost of the two sides under it and of the
/// application itself.
pub open spec fn propagate_app<K>(
    b: SpecBest<K>,
    bf: SpecBest<K>,
    bx: SpecBest<K>,
    keys: Seq<(K, int)>,
    n: nat,
) -> SpecBest<K>
    decreases n,
{
    if n == 0 {
        b
    } else {
        let inv = keys[n - 1].0;
        propose(
            propagate_app(b, bf, bx, keys, (n - 1) as nat),
            inv,
            1 + cost_under(bf, inv) + cost_under(bx, inv),
        )
    }
}

/// The table of a lambda after the first `n` entries of its body are
/// proposed, each at one more than the cost of the body.
pub open spec fn propagate_lam<K>(b: SpecBest<K>, child: Seq<(K, int)>, n: nat) -> SpecBest<K>
    decreases n,
{
    if n == 0 {
        b
    } else {
        propose(propagate_lam(b, child, (n - 1) as nat), child[n - 1].0, child[n - 1].1 + 1)
    }
}

/// How many of the first `n` programs have an entry for the invention.
pub open spec fn roots_with(s: Tables, roots: Seq<Term>, inv: SpecInvention, n: nat) -> nat
    decreases n,
{
    if n == 0 {
        0
    } else {
        roots_with(s, roots, inv, (n - 1) as nat) + if has_inv(best_at(s, roots[n - 1]), inv) {
            1nat
        } else {
            0nat
        }
    }
}

/// The sum of the best costs of the first `n` programs under the invention.
pub open spec fn roots_cost(s: Tables, roots: Seq<Term>, inv: SpecInvention, n: nat) -> int
    decreases n,
{
    if n == 0 {
        0
    } else {
        roots_cost(s, roots, inv, (n - 1) as nat) + cost_under(best_at(s, roots[n - 1]), inv)
    }
}

/// The table of a container of programs after the first `n` inventions of
/// `keys` are looked at: one that helps two programs or more is proposed at
/// the sum of the costs of all programs under it.
pub open spec fn propagate_root(
    s: Tables,
    b: SpecBest<SpecInvention>,
    roots: Seq<Term>,
    keys: Seq<(SpecInvention, int)>,
    n: nat,
) -> SpecBest<SpecInvention>
    decreases n,
{
    if n == 0 {
        b
    } else {
        let prev = propagate_root(s, b, roots, keys, (n - 1) as nat);
        let inv = keys[n - 1].0;
        if roots_with(s, roots, inv, roots.len()) >= 2 {
            propose(prev, inv, roots_cost(s, roots, inv, roots.len()))
        } else {
            prev
        }
    }
}

/// The table of a container of programs after the inventions of its first
/// `m` programs are looked at.
pub open spec fn propagate_programs(
    s: Tables,
    b: SpecBest<SpecInvention>,
    roots: Seq<Term>,
    m: nat,
) -> SpecBest<SpecInvention>
    decreases m,
{
    if m == 0 {
        b
    } else {
        let keys = best_at(s, roots[m - 1]).inventionful_cost;
        propagate_root(s, propagate_programs(s, b, roots, (m - 1) as nat), roots, keys, keys.len())
    }
}

/// The best costs of a term with its applams: its own cost; each usable
/// applam proposed; and what its children's tables give.
pub open spec fn best_for(s: Tables, t: Term, applams: Seq<SpecAppLam>) -> SpecBest<
    SpecInvention,
> {
    let b0 = SpecBest::<SpecInvention> {
        inventionless_cost: cost(t),
        inventionful_cost: Seq::empty(),
    };
    let b1 = self_use(s, b0, applams, applams.len());
    match t {
        Term::App(f, x) => {
            let bf = best_at(s, *f);
            let bx = best_at(s, *x);
            let b2 = propagate_app(b1, bf, bx, bf.inventionful_cost, bf.inventionful_cost.len());
            propagate_app(b2, bf, bx, bx.inventionful_cost, bx.inventionful_cost.len())
        },
        Term::Lam(b) => {
            let bb = best_at(s, *b);
            propagate_lam(b1, bb.inventionful_cost, bb.inventionful_cost.len())
        },
        Term::Programs(ps) => propagate_programs(s, b1, ps, ps.len()),
        _ => b1,
    }
}

/// The applam with its arguments shifted down, if they can be.
pub open spec fn copy_one(a: SpecAppLam) -> Option<SpecAppLam> {
    match shift_all(a.args, a.args.len()) {
        Some(args) => Some(SpecAppLam { inv: a.inv, args }),
        None => None,
    }
}

/// The first `n` applams with their arguments shifted down; one with an
/// argument that cannot be shifted is left out.
pub open spec fn copy_applams(applams: Seq<SpecAppLam>, n: nat) -> Seq<SpecAppLam> {
    keep_some(Seq::new(applams.len(), |i: int| copy_one(applams[i])), n)
}

/// The tables after the term `old`, shifted down, has got what is kept for
/// `old`: its best costs as they are, its applams with their arguments
/// shifted down; and after each of those arguments that costs less than `old`
/// has been treated in the same way. Nothing changes where `old` cannot be
/// shifted down, where something is kept for the shifted term already, where
/// nothing is kept for `old`, or where `old` costs `bound` or more.
pub open spec fn duplicate(s: Tables, old: Term, bound: nat) -> Tables
    decreases bound, 0nat, 0nat,
{
    match shift_down(old) {
        None => s,
        Some(new) => if s.contains_key(new) || !s.contains_key(old) || cost(old) >= bound || cost(
            old,
        ) < 0 {
            s
        } else {
            let e = s[old];
            let s1 = s.insert(
                new,
                SpecEntry { applams: copy_applams(e.applams, e.applams.len()), best: e.best },
            );
            duplicate_applams(s1, e.applams, e.applams.len(), cost(old) as nat)
        },
    }
}

/// The tables after the arguments of the first `n` applams are duplicated.
pub open spec fn duplicate_applams(s: Tables, applams: Seq<SpecAppLam>, n: nat, bound: nat) -> Tables
    decreases bound, 2nat, n,
{
    if n == 0 {
        s
    } else {
        duplicate_args(
            duplicate_applams(s, applams, (n - 1) as nat, bound),
            applams[n - 1].args,
            applams[n - 1].args.len(),
            bound,
        )
    }
}

/// The tables after the first `n` arguments are duplicated.
pub open spec fn duplicate_args(s: Tables, args: Seq<Term>, n: nat, bound: nat) -> Tables
    decreases bound, 1nat, n,
{
    if n == 0 {
        s
    } else {
        duplicate(duplicate_args(s, args, (n - 1) as nat, bound), args[n - 1], bound)
    }
}

/// The arguments of those of the first `n` applams of the body of a lambda
/// that bubble over the binder, in order.
pub open spec fn pending_args(bas: Seq<SpecAppLam>, n: nat) -> Seq<Term>
    decreases n,
{
    if n == 0 {
        Seq::empty()
    } else {
        let prev = pending_args(bas, (n - 1) as nat);
        if lam_one(bas[n - 1]) is Some {
            prev + bas[n - 1].args
        } else {
            prev
        }
    }
}

/// The tables after the first `n` arguments are duplicated, whatever they
/// cost.
pub open spec fn duplicate_top(s: Tables, args: Seq<Term>, n: nat) -> Tables
    decreases n,
{
    if n == 0 {
        s
    } else {
        let prev = duplicate_top(s, args, (n - 1) as nat);
        duplicate(prev, args[n - 1], (cost(args[n - 1]) + 1) as nat)
    }
}

/// The tables after one more term is visited: its applams come from what is
/// kept for its children; under a lambda, the shifted arguments get what is
/// kept for the arguments; then the best costs of the term are found, and
/// both are kept for the term.
pub open spec fn visit(s: Tables, t: Term, limit: nat) -> Tables {
    let applams = applams_for(s, t, limit);
    let s1 = match t {
        Term::Lam(b) => {
            let pending = pending_args(applams_at(s, *b), applams_at(s, *b).len());
            duplicate_top(s, pending, pending.len())
        },
        _ => s,
    };
    s1.insert(t, SpecEntry { applams, best: best_for(s1, t, applams) })
}

/// The tables after the first `n` terms are visited, in order.
pub open spec fn visit_all(ts: Seq<Term>, n: nat, limit: nat) -> Tables
    decreases n,
{
    if n == 0 {
        Map::empty()
    } else {
        visit(visit_all(ts, (n - 1) as nat, limit), ts[n - 1], limit)
    }
}

/// The first of the first `n` applams whose invention is `inv`.
pub open spec fn find_applam(applams: Seq<SpecAppLam>, inv: SpecInvention, n: nat) -> Option<int>
    decreases n,
{
    if n == 0 {
        None
    } else {
        match find_applam(applams, inv, (n - 1) as nat) {
            Some(i) => Some(i),
            None => if applams[n - 1].inv == inv {
                Some(n - 1)
            } else {
                None
            },
        }
    }
}

/// The term `t` rewritten with the invention `inv`, whose calls are written
/// as the primitive `name`.
///
/// Where the invention makes the term cheaper and the term has an applam of
/// the invention, the term becomes a call: the primitive applied to the
/// rewritten arguments of the first such applam, the last argument first.
/// Else the term keeps its root, and its children are rewritten.
///
/// There is no result where the cost of what is written differs from the
/// best cost that is kept for the term, where a hole is met, or where an
/// argument costs `bound` or more; the arguments of an argument must cost
/// less than the argument.
pub open spec fn rewrite(s: Tables, t: Term, inv: SpecInvention, name: Seq<u8>, bound: nat) -> Option<
    Term,
>
    decreases bound, 1nat, t, 0nat,
{
    let applams = applams_at(s, t);
    let out = if has_inv(best_at(s, t), inv) && find_applam(applams, inv, applams.len()) is Some {
        let a = applams[find_applam(applams, inv, applams.len()).unwrap()];
        rewrite_call(s, a.args, 0, inv, name, bound)
    } else {
        match t {
            Term::Var(_) | Term::Prim(_) => Some(t),
            Term::IVar(_) => None,
            Term::App(f, x) => match (
                rewrite(s, *f, inv, name, bound),
                rewrite(s, *x, inv, name, bound),
            ) {
                (Some(f2), Some(x2)) => Some(Term::App(Box::new(f2), Box::new(x2))),
                _ => None,
            },
            Term::Lam(b) => match rewrite(s, *b, inv, name, bound) {
                Some(b2) => Some(Term::Lam(Box::new(b2))),
                None => None,
            },
            Term::Programs(ps) => match rewrite_all(s, ps, ps.len(), inv, name, bound) {
                Some(ps2) => Some(Term::Programs(ps2)),
                None => None,
            },
        }
    };
    match out {
        Some(r) => if cost(r) == cost_under(best_at(s, t), inv) {
            Some(r)
        } else {
            None
        },
        None => None,
    }
}

/// The primitive `name` applied to the rewritten arguments from the place
/// `k` on, the last argument first.
pub open spec fn rewrite_call(
    s: Tables,
    args: Seq<Term>,
    k: nat,
    inv: SpecInvention,
    name: Seq<u8>,
    bound: nat,
) -> Option<Term>
    decreases bound, 0nat, args, args.len() - k,
{
    if k >= args.len() {
        Some(Term::Prim(name))
    } else {
        match rewrite_call(s, args, k + 1, inv, name, bound) {
            None => None,
            Some(head) => if 0 <= cost(args[k as int]) < bound {
                match rewrite(s, args[k as int], inv, name, cost(args[k as int]) as nat) {
                    Some(a) => Some(Term::App(Box::new(head), Box::new(a))),
                    None => None,
                }
            } else {
                None
            },
        }
    }
}

/// The first `n` terms, each rewritten.
pub open spec fn rewrite_all(
    s: Tables,
    ps: Seq<Term>,
    n: nat,
    inv: SpecInvention,
    name: Seq<u8>,
    bound: nat,
) -> Option<Seq<Term>>
    decreases bound, 1nat, ps, n,
{
    if n == 0 || n > ps.len() {
        Some(Seq::empty())
    } else {
        match (
            rewrite_all(s, ps, (n - 1) as nat, inv, name, bound),
            rewrite(s, ps[n - 1], inv, name, bound),
        ) {
            (Some(done), Some(p)) => Some(done.push(p)),
            _ => None,
        }
    }
}

/// What is rewritten costs what is kept as the best cost of the term under
/// the invention.
pub proof fn lemma_rewrite_cost(s: Tables, t: Term, inv: SpecInvention, name: Seq<u8>, bound: nat)
    requires
        rewrite(s, t, inv, name, bound) is Some,
    ensures
        cost(rewrite(s, t, inv, name, bound).unwrap()) == cost_under(best_at(s, t), inv),
{
}

/// The term with each hole `#i` that stands under `depth` binders turned
/// into the variable `$(i + depth)`; nothing where that index cannot be
/// carried.
pub open spec fn holes_to_vars(t: Term, depth: nat) -> Option<Term>
    decreases t,
{
    match t {
        Term::IVar(i) => if i + depth <= crate::term::max_index() {
            Some(Term::Var(i + depth))
        } else {
            None
        },
        Term::App(f, x) => match (holes_to_vars(*f, depth), holes_to_vars(*x, depth)) {
            (Some(f2), Some(x2)) => Some(Term::App(Box::new(f2), Box::new(x2))),
            _ => None,
        },
        Term::Lam(b) => match holes_to_vars(*b, depth + 1) {
            Some(b2) => Some(Term::Lam(Box::new(b2))),
            None => None,
        },
        _ => Some(t),
    }
}

/// The term under `n` lambdas.
pub open spec fn under_lams(t: Term, n: nat) -> Term
    decreases n,
{
    if n == 0 {
        t
    } else {
        Term::Lam(Box::new(under_lams(t, (n - 1) as nat)))
    }
}

/// The definition of an invention as a term of its own: the body under one
/// lambda for each hole, with the hole `#i` as the variable that the
/// lambda `i` from the inside binds.
pub open spec fn definition(inv: SpecInvention) -> Option<Term> {
    match holes_to_vars(inv.body, 0) {
        Some(b) => Some(under_lams(b, inv.arity)),
        None => None,
    }
}

/// Whether no cost of the table is negative.
pub open spec fn nonneg<K>(b: SpecBest<K>) -> bool {
    b.inventionless_cost >= 0 && forall|k: int|
        0 <= k < b.inventionful_cost.len() ==> (#[trigger] b.inventionful_cost[k]).1 >= 0
}

/// Where no cost of a table is negative, the cost under an invention is not.
pub proof fn lemma_cost_under_nonneg<K>(b: SpecBest<K>, inv: K)
    requires
        nonneg(b),
    ensures
        cost_under(b, inv) >= 0,
{
    lemma_find_inv(b.inventionful_cost, inv, b.inventionful_cost.len());
}

/// No cost of a table is negative after a cost that is not negative is
/// proposed.
pub proof fn lemma_propose_nonneg<K>(b: SpecBest<K>, inv: K, c: int)
    requires
        nonneg(b),
        c >= 0,
    ensures
        nonneg(propose(b, inv, c)),
{
    lemma_find_inv(b.inventionful_cost, inv, b.inventionful_cost.len());
}

/// Whether every cost that the table keeps is less than the cost without an
/// abstraction.
pub open spec fn bounded<K>(b: SpecBest<K>) -> bool {
    forall|k: int|
        0 <= k < b.inventionful_cost.len() ==> (#[trigger] b.inventionful_cost[k]).1
            < b.inventionless_cost
}

/// An entry that is found is one of the entries looked at, and is for the
/// invention; no entry before it is.
pub proof fn lemma_find_inv<K>(e: Seq<(K, int)>, inv: K, n: nat)
    ensures
        match find_inv(e, inv, n) {
            Some(i) => 0 <= i < n && e[i].0 == inv && forall|k: int|
                0 <= k < i ==> (#[trigger] e[k]).0 != inv,
            None => forall|k: int| 0 <= k < n ==> (#[trigger] e[k]).0 != inv,
        },
    decreases n,
{
    if n > 0 {
        lemma_find_inv(e, inv, (n - 1) as nat);
    }
}

/// Under no invention does a term cost more than without any.
pub proof fn lemma_cost_under_bounded<K>(b: SpecBest<K>, inv: K)
    requires
        bounded(b),
    ensures
        cost_under(b, inv) <= b.inventionless_cost,
{
    lemma_find_inv(b.inventionful_cost, inv, b.inventionful_cost.len());
}

/// A table stays bounded when a cost is proposed.
pub proof fn lemma_propose_bounded<K>(b: SpecBest<K>, inv: K, c: int)
    requires
        bounded(b),
    ensures
        bounded(propose(b, inv, c)),
        propose(b, inv, c).inventionless_cost == b.inventionless_cost,
{
    lemma_find_inv(b.inventionful_cost, inv, b.inventionful_cost.len());
}

} // verus!
