//! What holds of what a pass keeps: of its applams and of its best costs.
use vstd::prelude::*;
use crate::term::{Term, ShiftSpec, free_vars, shift_term};
use crate::order::{post_order, children_before, children_first, lemma_post_order};
use crate::compress::pass_tables;
use crate::model::{
    arity_cap, SpecBest, bounded, self_use, use_cost, usable, propagate_app, propagate_lam,
    propagate_root, propagate_programs, best_at, cost_under, roots_cost, lemma_propose_bounded,
};
use crate::term::{cost, lemma_shift_keeps_cost};
use crate::shift_laws::{lemma_shift_moves_free_vars, lemma_shift_moves_holes, moved_vars};
use crate::applam::lemma_position_found;
use crate::model::{
    SpecInvention, SpecAppLam, SpecEntry, Tables, identity_applam, keep_some, left_one, right_one,
    left_bubble, right_bubble, position, kept_args, merge_table, merge_one, merge_row, merge_rows,
    shift_down, shift_all, some_uses_binder, lam_one, lam_bubble, applams_at, applams_for,
    copy_one, copy_applams, duplicate, duplicate_applams, duplicate_args, duplicate_top,
    pending_args, visit_all, best_for,
};

verus! {

/// How many of the first `n` arguments of the right side the left side has.
pub open spec fn shared_args(fargs: Seq<Term>, xargs: Seq<Term>, n: nat) -> nat
    decreases n,
{
    if n == 0 {
        0
    } else if position(fargs, xargs[n - 1], fargs.len()) is Some {
        shared_args(fargs, xargs, (n - 1) as nat) + 1
    } else {
        shared_args(fargs, xargs, (n - 1) as nat)
    }
}

/// Every argument of the right side is kept or shared.
pub proof fn lemma_kept_or_shared(fargs: Seq<Term>, xargs: Seq<Term>, n: nat)
    ensures
        kept_args(fargs, xargs, n).len() + shared_args(fargs, xargs, n) == n,
    decreases n,
{
    if n > 0 {
        lemma_kept_or_shared(fargs, xargs, (n - 1) as nat);
    }
}

/// Whether the applam has one argument for each hole, and no more than
/// `bound` of them.
pub open spec fn sized(a: SpecAppLam, bound: nat) -> bool {
    a.inv.arity == a.args.len() && a.args.len() <= bound
}

/// Whether all applams of the list are sized.
pub open spec fn all_sized(v: Seq<SpecAppLam>, bound: nat) -> bool {
    forall|i: int| 0 <= i < v.len() ==> sized(#[trigger] v[i], bound)
}

/// An applam that combines two applams that share `k` arguments has as many
/// holes as the two together, less `k`; and no more than the limit.
pub proof fn lemma_merge_arity(fa: SpecAppLam, xa: SpecAppLam, limit: nat)
    requires
        fa.inv.arity == fa.args.len(),
        xa.inv.arity == xa.args.len(),
        merge_one(fa, xa, limit) is Some,
    ensures
        merge_one(fa, xa, limit).unwrap().inv.arity == fa.inv.arity + xa.inv.arity - shared_args(
            fa.args,
            xa.args,
            xa.args.len(),
        ),
        sized(merge_one(fa, xa, limit).unwrap(), limit),
{
    lemma_kept_or_shared(fa.args, xa.args, xa.args.len());
}

/// The free variables of the terms of a list.
pub open spec fn args_vars(args: Seq<Term>) -> Set<nat> {
    Set::new(|i: nat| exists|k: int| 0 <= k < args.len() && free_vars(#[trigger] args[k]).contains(i))
}

/// The free variables of one more term of a list.
pub proof fn lemma_args_vars_step(args: Seq<Term>, k: int)
    requires
        0 <= k < args.len(),
    ensures
        args_vars(args.subrange(0, k + 1)) == args_vars(args.subrange(0, k)).union(
            free_vars(args[k]),
        ),
{
    let a = args.subrange(0, k);
    let b = args.subrange(0, k + 1);
    assert forall|i: nat| args_vars(b).contains(i) == (args_vars(a).contains(i) || free_vars(
        args[k],
    ).contains(i)) by {
        if args_vars(b).contains(i) {
            let j = choose|j: int| 0 <= j < b.len() && free_vars(#[trigger] b[j]).contains(i);
            if j < k {
                assert(a[j] == b[j]);
            }
        }
        if args_vars(a).contains(i) {
            let j = choose|j: int| 0 <= j < a.len() && free_vars(#[trigger] a[j]).contains(i);
            assert(b[j] == a[j]);
        }
        if free_vars(args[k]).contains(i) {
            assert(b[k] == args[k]);
        }
    }
    assert(args_vars(b) =~= args_vars(a).union(free_vars(args[k])));
}

/// Whether the body and the arguments of the applam have, together, the
/// free variables of the term.
pub open spec fn balanced(a: SpecAppLam, t: Term) -> bool {
    free_vars(a.inv.body).union(args_vars(a.args)) =~= free_vars(t)
}

/// Whether all applams of the list are balanced.
pub open spec fn all_balanced(v: Seq<SpecAppLam>, t: Term) -> bool {
    forall|i: int| 0 <= i < v.len() ==> balanced(#[trigger] v[i], t)
}

/// What is kept of a list of candidates has a property that all candidates
/// have.
pub proof fn lemma_keep_some_all(
    c: Seq<Option<SpecAppLam>>,
    n: nat,
    p: spec_fn(SpecAppLam) -> bool,
)
    requires
        n <= c.len(),
        forall|i: int| 0 <= i < n && (#[trigger] c[i]) is Some ==> p(c[i].unwrap()),
    ensures
        forall|i: int| 0 <= i < keep_some(c, n).len() ==> p(#[trigger] keep_some(c, n)[i]),
    decreases n,
{
    if n > 0 {
        lemma_keep_some_all(c, (n - 1) as nat, p);
        let prev = keep_some(c, (n - 1) as nat);
        let cur = keep_some(c, n);
        assert forall|i: int| 0 <= i < cur.len() implies p(#[trigger] cur[i]) by {
            if i < prev.len() {
                assert(cur[i] == prev[i]);
            } else {
                assert(c[n - 1] is Some);
                assert(cur[i] == c[n - 1].unwrap());
            }
        }
    }
}

/// The terms that are kept in a merge are among the arguments of the
/// right side, and every argument of the right side is kept or is an
/// argument of the left side.
pub proof fn lemma_kept_args_vars(fargs: Seq<Term>, xargs: Seq<Term>, n: nat)
    requires
        n <= xargs.len(),
    ensures
        forall|i: nat| #[trigger]
            args_vars(kept_args(fargs, xargs, n)).contains(i) ==> args_vars(xargs).contains(i),
        forall|k: int|
            0 <= k < n ==> (position(fargs, #[trigger] xargs[k], fargs.len()) is Some || exists|
                j: int,
            |
                0 <= j < kept_args(fargs, xargs, n).len() && kept_args(fargs, xargs, n)[j]
                    == xargs[k]),
    decreases n,
{
    if n > 0 {
        lemma_kept_args_vars(fargs, xargs, (n - 1) as nat);
        let prev = kept_args(fargs, xargs, (n - 1) as nat);
        let cur = kept_args(fargs, xargs, n);
        assert forall|i: nat| #[trigger] args_vars(cur).contains(i) implies args_vars(
            xargs,
        ).contains(i) by {
            let k = choose|k: int| 0 <= k < cur.len() && free_vars(#[trigger] cur[k]).contains(i);
            if k < prev.len() {
                assert(cur[k] == prev[k]);
                assert(args_vars(prev).contains(i));
            } else {
                assert(cur[k] == xargs[n - 1]);
            }
        }
        assert forall|k: int| 0 <= k < n implies (position(
            fargs,
            #[trigger] xargs[k],
            fargs.len(),
        ) is Some || exists|j: int| 0 <= j < cur.len() && cur[j] == xargs[k]) by {
            if k < n - 1 {
                if !(position(fargs, xargs[k], fargs.len()) is Some) {
                    let j = choose|j: int| 0 <= j < prev.len() && prev[j] == xargs[k];
                    assert(cur[j] == xargs[k]);
                }
            } else {
                if !(position(fargs, xargs[k], fargs.len()) is Some) {
                    assert(cur[prev.len() as int] == xargs[k]);
                }
            }
        }
    }
}

/// The applam that combines two balanced applams is balanced.
pub proof fn lemma_merge_balanced(fa: SpecAppLam, xa: SpecAppLam, limit: nat, f: Term, x: Term)
    requires
        balanced(fa, f),
        balanced(xa, x),
        merge_one(fa, xa, limit) is Some,
    ensures
        balanced(merge_one(fa, xa, limit).unwrap(), Term::App(Box::new(f), Box::new(x))),
{
    let m = merge_one(fa, xa, limit).unwrap();
    let t = Term::App(Box::new(f), Box::new(x));
    let kept = kept_args(fa.args, xa.args, xa.args.len());
    let table = ShiftSpec::Table(merge_table(fa.args, xa.args, xa.args.len()));
    let bx = shift_term(xa.inv.body, table, 0).unwrap();
    lemma_shift_moves_holes(xa.inv.body, table, 0);
    lemma_kept_args_vars(fa.args, xa.args, xa.args.len());
    let all = fa.args + kept;
    assert forall|i: nat| args_vars(all).contains(i) == (args_vars(fa.args).contains(i)
        || args_vars(xa.args).contains(i)) by {
        if args_vars(all).contains(i) {
            let k = choose|k: int| 0 <= k < all.len() && free_vars(#[trigger] all[k]).contains(i);
            if k < fa.args.len() {
                assert(all[k] == fa.args[k]);
            } else {
                assert(all[k] == kept[k - fa.args.len()]);
                assert(args_vars(kept).contains(i));
            }
        }
        if args_vars(fa.args).contains(i) {
            let k = choose|k: int|
                0 <= k < fa.args.len() && free_vars(#[trigger] fa.args[k]).contains(i);
            assert(all[k] == fa.args[k]);
        }
        if args_vars(xa.args).contains(i) {
            let k = choose|k: int|
                0 <= k < xa.args.len() && free_vars(#[trigger] xa.args[k]).contains(i);
            if position(fa.args, xa.args[k], fa.args.len()) is Some {
                lemma_position_found(fa.args, xa.args[k], fa.args.len());
                let j = position(fa.args, xa.args[k], fa.args.len()).unwrap();
                assert(all[j] == fa.args[j]);
            } else {
                let j = choose|j: int| 0 <= j < kept.len() && kept[j] == xa.args[k];
                assert(all[fa.args.len() + j] == kept[j]);
            }
        }
    }
    assert forall|i: nat| free_vars(m.inv.body).union(args_vars(m.args)).contains(i)
        == free_vars(t).contains(i) by {
        assert(free_vars(fa.inv.body).union(args_vars(fa.args)).contains(i) == free_vars(
            f,
        ).contains(i));
        assert(free_vars(xa.inv.body).union(args_vars(xa.args)).contains(i) == free_vars(
            x,
        ).contains(i));
    }
}

/// The free variables of terms that are shifted down are those of the terms,
/// each one lower.
pub proof fn lemma_shift_all_vars(args: Seq<Term>, n: nat)
    requires
        n <= args.len(),
        shift_all(args, n) is Some,
    ensures
        shift_all(args, n).unwrap().len() == n,
        forall|k: int|
            0 <= k < n ==> free_vars(#[trigger] shift_all(args, n).unwrap()[k]) == moved_vars(
                free_vars(args[k]),
                -1,
                0,
            ),
    decreases n,
{
    if n > 0 {
        lemma_shift_all_vars(args, (n - 1) as nat);
        lemma_shift_moves_free_vars(args[n - 1], -1, 0);
    }
}

/// None of the first terms uses the binder where none is said to.
pub proof fn lemma_none_uses_binder(args: Seq<Term>, n: nat)
    requires
        n <= args.len(),
        !some_uses_binder(args, n),
    ensures
        forall|k: int| 0 <= k < n ==> !free_vars(#[trigger] args[k]).contains(0),
    decreases n,
{
    if n > 0 {
        lemma_none_uses_binder(args, (n - 1) as nat);
    }
}

/// The applam of a lambda that a balanced applam of its body gives is
/// balanced.
pub proof fn lemma_lam_balanced(ba: SpecAppLam, b: Term)
    requires
        balanced(ba, b),
        lam_one(ba) is Some,
    ensures
        balanced(lam_one(ba).unwrap(), Term::Lam(Box::new(b))),
{
    let m = lam_one(ba).unwrap();
    let t = Term::Lam(Box::new(b));
    let args = shift_all(ba.args, ba.args.len()).unwrap();
    lemma_shift_all_vars(ba.args, ba.args.len());
    lemma_none_uses_binder(ba.args, ba.args.len());
    assert forall|i: nat| free_vars(m.inv.body).union(args_vars(m.args)).contains(i)
        == free_vars(t).contains(i) by {
        assert(free_vars(ba.inv.body).union(args_vars(ba.args)).contains(i + 1) == free_vars(
            b,
        ).contains(i + 1));
        if args_vars(args).contains(i) {
            let k = choose|k: int| 0 <= k < args.len() && free_vars(#[trigger] args[k]).contains(i);
            assert(moved_vars(free_vars(ba.args[k]), -1, 0).contains(i));
            assert(free_vars(ba.args[k]).contains(i + 1));
            assert(args_vars(ba.args).contains(i + 1));
        }
        if args_vars(ba.args).contains(i + 1) {
            let k = choose|k: int|
                0 <= k < ba.args.len() && free_vars(#[trigger] ba.args[k]).contains(i + 1);
            assert(moved_vars(free_vars(ba.args[k]), -1, 0).contains(i));
            assert(free_vars(args[k]).contains(i));
        }
    }
}

/// The identity applam of a term is balanced.
pub proof fn lemma_identity_balanced(t: Term)
    ensures
        balanced(identity_applam(t), t),
        sized(identity_applam(t), 1),
{
    let a = identity_applam(t);
    assert forall|i: nat| free_vars(a.inv.body).union(args_vars(a.args)).contains(i)
        == free_vars(t).contains(i) by {
        if free_vars(t).contains(i) {
            assert(free_vars(a.args[0]).contains(i));
        }
    }
}

/// The larger of the limit and 1: the number of holes that no applam
/// exceeds.
pub open spec fn size_bound(limit: nat) -> nat {
    if limit < 1 {
        1
    } else {
        limit
    }
}

/// The applams of a term are sized where those that are kept for its
/// children are.
pub proof fn lemma_applams_for_sized(s: Tables, t: Term, limit: nat)
    requires
        tables_sized(s, size_bound(limit)),
    ensures
        all_sized(applams_for(s, t, limit), size_bound(limit)),
{
    let bound = size_bound(limit);
    let p = |a: SpecAppLam| sized(a, bound);
    lemma_identity_balanced(t);
    let v = applams_for(s, t, limit);
    match t {
        Term::App(f, x) => {
            let fa = applams_at(s, *f);
            let xa = applams_at(s, *x);
            assert(all_sized(fa, bound)) by {
                if s.contains_key(*f) {
                }
            }
            assert(all_sized(xa, bound)) by {
                if s.contains_key(*x) {
                }
            }
            let lc = Seq::new(fa.len(), |i: int| left_one(fa[i], *x));
            assert forall|i: int| 0 <= i < lc.len() && (#[trigger] lc[i]) is Some implies p(
                lc[i].unwrap(),
            ) by {
                assert(sized(fa[i], bound));
            }
            lemma_keep_some_all(lc, fa.len(), p);
            let rc = Seq::new(xa.len(), |i: int| right_one(*f, xa[i]));
            assert forall|i: int| 0 <= i < rc.len() && (#[trigger] rc[i]) is Some implies p(
                rc[i].unwrap(),
            ) by {
                assert(sized(xa[i], bound));
            }
            lemma_keep_some_all(rc, xa.len(), p);
            lemma_merge_rows_all(fa, xa, fa.len(), limit, p, bound, *f, *x, false);
            let l = left_bubble(fa, *x, fa.len());
            let r = right_bubble(*f, xa, xa.len());
            let m = merge_rows(fa, xa, fa.len(), limit);
            assert forall|i: int| 0 <= i < v.len() implies sized(#[trigger] v[i], bound) by {
                if i == 0 {
                } else if i < 1 + l.len() {
                    assert(v[i] == l[i - 1]);
                    assert(p(l[i - 1]));
                } else if i < 1 + l.len() + r.len() {
                    assert(v[i] == r[i - 1 - l.len()]);
                    assert(p(r[i - 1 - l.len()]));
                } else {
                    assert(v[i] == m[i - 1 - l.len() - r.len()]);
                    assert(p(m[i - 1 - l.len() - r.len()]));
                }
            }
        },
        Term::Lam(b) => {
            let ba = applams_at(s, *b);
            assert(all_sized(ba, bound)) by {
                if s.contains_key(*b) {
                }
            }
            let c = Seq::new(ba.len(), |i: int| lam_one(ba[i]));
            assert forall|i: int| 0 <= i < c.len() && (#[trigger] c[i]) is Some implies p(
                c[i].unwrap(),
            ) by {
                assert(sized(ba[i], bound));
                lemma_shift_all_vars(ba[i].args, ba[i].args.len());
            }
            lemma_keep_some_all(c, ba.len(), p);
            let l = lam_bubble(ba, ba.len());
            assert forall|i: int| 0 <= i < v.len() implies sized(#[trigger] v[i], bound) by {
                if i > 0 {
                    assert(v[i] == l[i - 1]);
                    assert(p(l[i - 1]));
                }
            }
        },
        _ => {},
    }
}

/// The combinations of applams have a property that every combination of
/// two sized applams has: to be sized; and, where `with_vars` says so and the
/// applams are balanced, to be balanced.
pub proof fn lemma_merge_rows_all(
    fas: Seq<SpecAppLam>,
    xas: Seq<SpecAppLam>,
    m: nat,
    limit: nat,
    p: spec_fn(SpecAppLam) -> bool,
    bound: nat,
    f: Term,
    x: Term,
    with_vars: bool,
)
    requires
        m <= fas.len(),
        bound == size_bound(limit),
        all_sized(fas, bound),
        all_sized(xas, bound),
        with_vars ==> all_balanced(fas, f) && all_balanced(xas, x),
        forall|a: SpecAppLam|
            #[trigger] p(a) == (sized(a, bound) && (with_vars ==> balanced(
                a,
                Term::App(Box::new(f), Box::new(x)),
            ))),
    ensures
        forall|i: int|
            0 <= i < merge_rows(fas, xas, m, limit).len() ==> p(
                #[trigger] merge_rows(fas, xas, m, limit)[i],
            ),
    decreases m,
{
    if m > 0 {
        lemma_merge_rows_all(fas, xas, (m - 1) as nat, limit, p, bound, f, x, with_vars);
        let fa = fas[m - 1];
        let c = Seq::new(xas.len(), |i: int| merge_one(fa, xas[i], limit));
        assert forall|i: int| 0 <= i < c.len() && (#[trigger] c[i]) is Some implies p(
            c[i].unwrap(),
        ) by {
            assert(sized(fa, bound));
            assert(sized(xas[i], bound));
            lemma_merge_arity(fa, xas[i], limit);
            if with_vars {
                assert(balanced(fa, f));
                assert(balanced(xas[i], x));
                lemma_merge_balanced(fa, xas[i], limit, f, x);
            }
        }
        lemma_keep_some_all(c, xas.len(), p);
        let prev = merge_rows(fas, xas, (m - 1) as nat, limit);
        let row = merge_row(fa, xas, xas.len(), limit);
        let cur = merge_rows(fas, xas, m, limit);
        assert forall|i: int| 0 <= i < cur.len() implies p(#[trigger] cur[i]) by {
            if i < prev.len() {
                assert(cur[i] == prev[i]);
            } else {
                assert(cur[i] == row[i - prev.len()]);
            }
        }
    }
}

/// The applams of a term are balanced where those that are kept for its
/// children are, and all are sized.
pub proof fn lemma_applams_for_balanced(s: Tables, t: Term, limit: nat)
    requires
        tables_sized(s, size_bound(limit)),
        match t {
            Term::App(f, x) => all_balanced(applams_at(s, *f), *f) && all_balanced(
                applams_at(s, *x),
                *x,
            ),
            Term::Lam(b) => all_balanced(applams_at(s, *b), *b),
            _ => true,
        },
    ensures
        all_balanced(applams_for(s, t, limit), t),
{
    let bound = size_bound(limit);
    lemma_identity_balanced(t);
    let v = applams_for(s, t, limit);
    match t {
        Term::App(f, x) => {
            let p = |a: SpecAppLam| sized(a, bound) && (true ==> balanced(a, Term::App(f, x)));
            let q = |a: SpecAppLam| balanced(a, t);
            let fa = applams_at(s, *f);
            let xa = applams_at(s, *x);
            assert(all_sized(fa, bound)) by {
                if s.contains_key(*f) {
                }
            }
            assert(all_sized(xa, bound)) by {
                if s.contains_key(*x) {
                }
            }
            let lc = Seq::new(fa.len(), |i: int| left_one(fa[i], *x));
            assert forall|i: int| 0 <= i < lc.len() && (#[trigger] lc[i]) is Some implies q(
                lc[i].unwrap(),
            ) by {
                let a = lc[i].unwrap();
                assert(balanced(fa[i], *f));
                assert forall|j: nat| free_vars(a.inv.body).union(args_vars(a.args)).contains(j)
                    == free_vars(t).contains(j) by {
                    assert(free_vars(fa[i].inv.body).union(args_vars(fa[i].args)).contains(j)
                        == free_vars(*f).contains(j));
                }
            }
            lemma_keep_some_all(lc, fa.len(), q);
            let rc = Seq::new(xa.len(), |i: int| right_one(*f, xa[i]));
            assert forall|i: int| 0 <= i < rc.len() && (#[trigger] rc[i]) is Some implies q(
                rc[i].unwrap(),
            ) by {
                let a = rc[i].unwrap();
                assert(balanced(xa[i], *x));
                assert forall|j: nat| free_vars(a.inv.body).union(args_vars(a.args)).contains(j)
                    == free_vars(t).contains(j) by {
                    assert(free_vars(xa[i].inv.body).union(args_vars(xa[i].args)).contains(j)
                        == free_vars(*x).contains(j));
                }
            }
            lemma_keep_some_all(rc, xa.len(), q);
            lemma_merge_rows_all(fa, xa, fa.len(), limit, p, bound, *f, *x, true);
            let l = left_bubble(fa, *x, fa.len());
            let r = right_bubble(*f, xa, xa.len());
            let m = merge_rows(fa, xa, fa.len(), limit);
            assert forall|i: int| 0 <= i < v.len() implies balanced(#[trigger] v[i], t) by {
                if i == 0 {
                } else if i < 1 + l.len() {
                    assert(v[i] == l[i - 1]);
                    assert(q(l[i - 1]));
                } else if i < 1 + l.len() + r.len() {
                    assert(v[i] == r[i - 1 - l.len()]);
                    assert(q(r[i - 1 - l.len()]));
                } else {
                    assert(v[i] == m[i - 1 - l.len() - r.len()]);
                    assert(p(m[i - 1 - l.len() - r.len()]));
                }
            }
        },
        Term::Lam(b) => {
            let q = |a: SpecAppLam| balanced(a, t);
            let ba = applams_at(s, *b);
            let c = Seq::new(ba.len(), |i: int| lam_one(ba[i]));
            assert forall|i: int| 0 <= i < c.len() && (#[trigger] c[i]) is Some implies q(
                c[i].unwrap(),
            ) by {
                assert(balanced(ba[i], *b));
                lemma_lam_balanced(ba[i], *b);
            }
            lemma_keep_some_all(c, ba.len(), q);
            let l = lam_bubble(ba, ba.len());
            assert forall|i: int| 0 <= i < v.len() implies balanced(#[trigger] v[i], t) by {
                if i > 0 {
                    assert(v[i] == l[i - 1]);
                    assert(q(l[i - 1]));
                }
            }
        },
        _ => {},
    }
}

/// Whether `s2` keeps all that `s` keeps.
pub open spec fn keeps(s2: Tables, s: Tables) -> bool {
    forall|u: Term| #[trigger] s.contains_key(u) ==> s2.contains_key(u) && s2[u] == s[u]
}

/// Whether what is kept for a term is in order: the applams are sized, the
/// cost without an abstraction is the cost of the term, and every cost under
/// an invention is less.
pub open spec fn entry_sound(e: SpecEntry, u: Term, bound: nat) -> bool {
    all_sized(e.applams, bound) && bounded(e.best) && e.best.inventionless_cost == cost(u)
}

/// Whether all that is kept is in order.
pub open spec fn tables_sized(s: Tables, bound: nat) -> bool {
    forall|u: Term| #[trigger] s.contains_key(u) ==> entry_sound(s[u], u, bound)
}

/// Proposing the usable applams keeps a table bounded.
pub proof fn lemma_self_use_bounded(
    s: Tables,
    b: SpecBest<SpecInvention>,
    applams: Seq<SpecAppLam>,
    n: nat,
)
    requires
        bounded(b),
    ensures
        bounded(self_use(s, b, applams, n)),
        self_use(s, b, applams, n).inventionless_cost == b.inventionless_cost,
    decreases n,
{
    if n > 0 {
        lemma_self_use_bounded(s, b, applams, (n - 1) as nat);
        let prev = self_use(s, b, applams, (n - 1) as nat);
        let a = applams[n - 1];
        lemma_propose_bounded(prev, a.inv, use_cost(s, a));
    }
}

/// Proposing for an application keeps a table bounded.
pub proof fn lemma_propagate_app_bounded<K>(
    b: SpecBest<K>,
    bf: SpecBest<K>,
    bx: SpecBest<K>,
    keys: Seq<(K, int)>,
    n: nat,
)
    requires
        bounded(b),
    ensures
        bounded(propagate_app(b, bf, bx, keys, n)),
        propagate_app(b, bf, bx, keys, n).inventionless_cost == b.inventionless_cost,
    decreases n,
{
    if n > 0 {
        lemma_propagate_app_bounded(b, bf, bx, keys, (n - 1) as nat);
        let inv = keys[n - 1].0;
        lemma_propose_bounded(
            propagate_app(b, bf, bx, keys, (n - 1) as nat),
            inv,
            1 + cost_under(bf, inv) + cost_under(bx, inv),
        );
    }
}

/// Proposing for a lambda keeps a table bounded.
pub proof fn lemma_propagate_lam_bounded<K>(b: SpecBest<K>, child: Seq<(K, int)>, n: nat)
    requires
        bounded(b),
    ensures
        bounded(propagate_lam(b, child, n)),
        propagate_lam(b, child, n).inventionless_cost == b.inventionless_cost,
    decreases n,
{
    if n > 0 {
        lemma_propagate_lam_bounded(b, child, (n - 1) as nat);
        lemma_propose_bounded(
            propagate_lam(b, child, (n - 1) as nat),
            child[n - 1].0,
            child[n - 1].1 + 1,
        );
    }
}

/// Proposing for a container of programs keeps a table bounded.
pub proof fn lemma_propagate_root_bounded(
    s: Tables,
    b: SpecBest<SpecInvention>,
    roots: Seq<Term>,
    keys: Seq<(SpecInvention, int)>,
    n: nat,
)
    requires
        bounded(b),
    ensures
        bounded(propagate_root(s, b, roots, keys, n)),
        propagate_root(s, b, roots, keys, n).inventionless_cost == b.inventionless_cost,
    decreases n,
{
    if n > 0 {
        lemma_propagate_root_bounded(s, b, roots, keys, (n - 1) as nat);
        let inv = keys[n - 1].0;
        lemma_propose_bounded(
            propagate_root(s, b, roots, keys, (n - 1) as nat),
            inv,
            roots_cost(s, roots, inv, roots.len()),
        );
    }
}

/// The same, for the inventions of the first `m` programs.
pub proof fn lemma_propagate_programs_bounded(
    s: Tables,
    b: SpecBest<SpecInvention>,
    roots: Seq<Term>,
    m: nat,
)
    requires
        bounded(b),
    ensures
        bounded(propagate_programs(s, b, roots, m)),
        propagate_programs(s, b, roots, m).inventionless_cost == b.inventionless_cost,
    decreases m,
{
    if m > 0 {
        lemma_propagate_programs_bounded(s, b, roots, (m - 1) as nat);
        let keys = best_at(s, roots[m - 1]).inventionful_cost;
        lemma_propagate_root_bounded(
            s,
            propagate_programs(s, b, roots, (m - 1) as nat),
            roots,
            keys,
            keys.len(),
        );
    }
}

/// The best costs of a term are bounded by its cost.
pub proof fn lemma_best_for_bounded(s: Tables, t: Term, applams: Seq<SpecAppLam>)
    ensures
        bounded(best_for(s, t, applams)),
        best_for(s, t, applams).inventionless_cost == cost(t),
{
    let b0 = SpecBest::<SpecInvention> {
        inventionless_cost: cost(t),
        inventionful_cost: Seq::empty(),
    };
    lemma_self_use_bounded(s, b0, applams, applams.len());
    let b1 = self_use(s, b0, applams, applams.len());
    match t {
        Term::App(f, x) => {
            let bf = best_at(s, *f);
            let bx = best_at(s, *x);
            lemma_propagate_app_bounded(
                b1,
                bf,
                bx,
                bf.inventionful_cost,
                bf.inventionful_cost.len(),
            );
            let b2 = propagate_app(b1, bf, bx, bf.inventionful_cost, bf.inventionful_cost.len());
            lemma_propagate_app_bounded(
                b2,
                bf,
                bx,
                bx.inventionful_cost,
                bx.inventionful_cost.len(),
            );
        },
        Term::Lam(b) => {
            let bb = best_at(s, *b);
            lemma_propagate_lam_bounded(b1, bb.inventionful_cost, bb.inventionful_cost.len());
        },
        Term::Programs(ps) => {
            lemma_propagate_programs_bounded(s, b1, ps, ps.len());
        },
        _ => {},
    }
}

/// Applams with their arguments shifted down are sized as they were.
pub proof fn lemma_copy_sized(v: Seq<SpecAppLam>, bound: nat)
    requires
        all_sized(v, bound),
    ensures
        all_sized(copy_applams(v, v.len()), bound),
{
    let p = |a: SpecAppLam| sized(a, bound);
    let c = Seq::new(v.len(), |i: int| copy_one(v[i]));
    assert forall|i: int| 0 <= i < c.len() && (#[trigger] c[i]) is Some implies p(
        c[i].unwrap(),
    ) by {
        assert(sized(v[i], bound));
        lemma_shift_all_vars(v[i].args, v[i].args.len());
    }
    lemma_keep_some_all(c, v.len(), p);
}

/// Duplicating keeps all that was kept, and keeps the applams sized.
pub proof fn lemma_duplicate(s: Tables, old: Term, b: nat, bound: nat)
    requires
        tables_sized(s, bound),
    ensures
        keeps(duplicate(s, old, b), s),
        tables_sized(duplicate(s, old, b), bound),
    decreases b, 0nat, 0nat,
{
    match shift_down(old) {
        None => {},
        Some(new) => {
            if s.contains_key(new) || !s.contains_key(old) || crate::term::cost(old) >= b
                || crate::term::cost(old) < 0 {
            } else {
                let e = s[old];
                let s1 = s.insert(
                    new,
                    SpecEntry { applams: copy_applams(e.applams, e.applams.len()), best: e.best },
                );
                assert(entry_sound(e, old, bound));
                lemma_copy_sized(e.applams, bound);
                lemma_shift_keeps_cost(old, ShiftSpec::Var(-1), 0);
                assert(tables_sized(s1, bound)) by {
                    assert forall|u: Term| #[trigger] s1.contains_key(u) implies entry_sound(
                        s1[u],
                        u,
                        bound,
                    ) by {
                        if u != new {
                            assert(s.contains_key(u));
                        }
                    }
                }
                lemma_duplicate_applams(
                    s1,
                    e.applams,
                    e.applams.len(),
                    crate::term::cost(old) as nat,
                    bound,
                );
                let s2 = duplicate_applams(
                    s1,
                    e.applams,
                    e.applams.len(),
                    crate::term::cost(old) as nat,
                );
                assert forall|u: Term| #[trigger] s.contains_key(u) implies s2.contains_key(u)
                    && s2[u] == s[u] by {
                    assert(s1.contains_key(u));
                }
            }
        },
    }
}

/// The same for the arguments of a list of applams.
pub proof fn lemma_duplicate_applams(
    s: Tables,
    applams: Seq<SpecAppLam>,
    n: nat,
    b: nat,
    bound: nat,
)
    requires
        tables_sized(s, bound),
    ensures
        keeps(duplicate_applams(s, applams, n, b), s),
        tables_sized(duplicate_applams(s, applams, n, b), bound),
    decreases b, 2nat, n,
{
    if n > 0 {
        lemma_duplicate_applams(s, applams, (n - 1) as nat, b, bound);
        let s1 = duplicate_applams(s, applams, (n - 1) as nat, b);
        lemma_duplicate_args(s1, applams[n - 1].args, applams[n - 1].args.len(), b, bound);
        let s2 = duplicate_applams(s, applams, n, b);
        assert forall|u: Term| #[trigger] s.contains_key(u) implies s2.contains_key(u) && s2[u]
            == s[u] by {
            assert(s1.contains_key(u));
        }
    }
}

/// The same for a list of arguments.
pub proof fn lemma_duplicate_args(s: Tables, args: Seq<Term>, n: nat, b: nat, bound: nat)
    requires
        tables_sized(s, bound),
    ensures
        keeps(duplicate_args(s, args, n, b), s),
        tables_sized(duplicate_args(s, args, n, b), bound),
    decreases b, 1nat, n,
{
    if n > 0 {
        lemma_duplicate_args(s, args, (n - 1) as nat, b, bound);
        let s1 = duplicate_args(s, args, (n - 1) as nat, b);
        lemma_duplicate(s1, args[n - 1], b, bound);
        let s2 = duplicate_args(s, args, n, b);
        assert forall|u: Term| #[trigger] s.contains_key(u) implies s2.contains_key(u) && s2[u]
            == s[u] by {
            assert(s1.contains_key(u));
        }
    }
}

/// The same for a list of arguments, whatever they cost.
pub proof fn lemma_duplicate_top(s: Tables, args: Seq<Term>, n: nat, bound: nat)
    requires
        tables_sized(s, bound),
    ensures
        keeps(duplicate_top(s, args, n), s),
        tables_sized(duplicate_top(s, args, n), bound),
    decreases n,
{
    if n > 0 {
        lemma_duplicate_top(s, args, (n - 1) as nat, bound);
        let s1 = duplicate_top(s, args, (n - 1) as nat);
        lemma_duplicate(s1, args[n - 1], (crate::term::cost(args[n - 1]) + 1) as nat, bound);
        let s2 = duplicate_top(s, args, n);
        assert forall|u: Term| #[trigger] s.contains_key(u) implies s2.contains_key(u) && s2[u]
            == s[u] by {
            assert(s1.contains_key(u));
        }
    }
}

/// Whether something is kept for each of the first `n` terms, and its
/// applams are balanced.
pub open spec fn visited_balanced(s: Tables, ts: Seq<Term>, n: nat) -> bool {
    forall|j: int|
        0 <= j < n ==> s.contains_key(#[trigger] ts[j]) && all_balanced(s[ts[j]].applams, ts[j])
}

/// After a pass over terms that stand after their children, every applam
/// that is kept is sized, and the applams of the terms that were visited are
/// balanced.
pub proof fn lemma_visit_all(ts: Seq<Term>, n: nat, limit: nat)
    requires
        n <= ts.len(),
        children_first(ts),
    ensures
        tables_sized(visit_all(ts, n, limit), size_bound(limit)),
        visited_balanced(visit_all(ts, n, limit), ts, n),
    decreases n,
{
    let bound = size_bound(limit);
    if n > 0 {
        lemma_visit_all(ts, (n - 1) as nat, limit);
        let s = visit_all(ts, (n - 1) as nat, limit);
        let t = ts[n - 1];
        let applams = applams_for(s, t, limit);
        assert(children_before(ts, n - 1));
        match t {
            Term::App(f, x) => {
                let i = choose|i: int| 0 <= i < n - 1 && i < ts.len() && ts[i] == *f;
                assert(s.contains_key(ts[i]));
                let j = choose|j: int| 0 <= j < n - 1 && j < ts.len() && ts[j] == *x;
                assert(s.contains_key(ts[j]));
            },
            Term::Lam(b) => {
                let i = choose|i: int| 0 <= i < n - 1 && i < ts.len() && ts[i] == *b;
                assert(s.contains_key(ts[i]));
            },
            _ => {},
        }
        lemma_applams_for_sized(s, t, limit);
        lemma_applams_for_balanced(s, t, limit);
        let s1 = match t {
            Term::Lam(b) => {
                let pending = pending_args(applams_at(s, *b), applams_at(s, *b).len());
                duplicate_top(s, pending, pending.len())
            },
            _ => s,
        };
        match t {
            Term::Lam(b) => {
                let pending = pending_args(applams_at(s, *b), applams_at(s, *b).len());
                lemma_duplicate_top(s, pending, pending.len(), bound);
            },
            _ => {},
        }
        let s2 = visit_all(ts, n, limit);
        assert(s2 == s1.insert(t, SpecEntry { applams, best: best_for(s1, t, applams) }));
        lemma_best_for_bounded(s1, t, applams);
        assert forall|u: Term| #[trigger] s2.contains_key(u) implies entry_sound(
            s2[u],
            u,
            bound,
        ) by {
            if u != t {
                assert(s1.contains_key(u));
            }
        }
        assert forall|j: int| 0 <= j < n implies s2.contains_key(#[trigger] ts[j])
            && all_balanced(s2[ts[j]].applams, ts[j]) by {
            if ts[j] != t {
                assert(s.contains_key(ts[j]));
                assert(s1.contains_key(ts[j]));
            }
        }
    }
}

/// In what a pass over a corpus keeps, the body and the arguments of every
/// applam of a subterm of the corpus have, together, the free variables of
/// the subterm.
pub proof fn lemma_pass_balanced(t: Term, max_arity: nat, j: int, i: int)
    requires
        0 <= j < post_order(t, Seq::empty()).len(),
        0 <= i < applams_at(pass_tables(t, max_arity), post_order(t, Seq::empty())[j]).len(),
    ensures
        balanced(
            applams_at(pass_tables(t, max_arity), post_order(t, Seq::empty())[j])[i],
            post_order(t, Seq::empty())[j],
        ),
{
    let order = post_order(t, Seq::empty());
    lemma_post_order(t, Seq::empty());
    lemma_visit_all(order, order.len(), arity_cap(max_arity));
    let s = pass_tables(t, max_arity);
    assert(s.contains_key(order[j]));
}

/// In what a pass keeps, every applam has one argument for each hole, and
/// no more than `max_arity` of them, where `max_arity` is 1 at least.
pub proof fn lemma_pass_sized(t: Term, max_arity: nat, u: Term, i: int)
    requires
        max_arity >= 1,
        0 <= i < applams_at(pass_tables(t, max_arity), u).len(),
    ensures
        applams_at(pass_tables(t, max_arity), u)[i].inv.arity == applams_at(
            pass_tables(t, max_arity),
            u,
        )[i].args.len(),
        applams_at(pass_tables(t, max_arity), u)[i].args.len() <= max_arity,
{
    let order = post_order(t, Seq::empty());
    lemma_post_order(t, Seq::empty());
    lemma_visit_all(order, order.len(), arity_cap(max_arity));
    let s = pass_tables(t, max_arity);
    assert(s.contains_key(u));
    assert(entry_sound(s[u], u, size_bound(arity_cap(max_arity))));
    assert(sized(s[u].applams[i], size_bound(arity_cap(max_arity))));
}

/// In what a pass keeps, no term costs more under an invention than without
/// any; and the cost without an abstraction is the cost of the term.
pub proof fn lemma_pass_bounded(t: Term, max_arity: nat, u: Term, inv: SpecInvention)
    ensures
        cost_under(best_at(pass_tables(t, max_arity), u), inv) <= cost(u),
        best_at(pass_tables(t, max_arity), u).inventionless_cost == cost(u),
        bounded(best_at(pass_tables(t, max_arity), u)),
{
    let order = post_order(t, Seq::empty());
    lemma_post_order(t, Seq::empty());
    lemma_visit_all(order, order.len(), arity_cap(max_arity));
    let s = pass_tables(t, max_arity);
    if s.contains_key(u) {
        assert(entry_sound(s[u], u, size_bound(arity_cap(max_arity))));
    }
    crate::model::lemma_cost_under_bounded(best_at(s, u), inv);
}

} // verus!
