//! Rewriting is sound: a corpus that was rewritten with an invention reads,
//! once the calls of the invention are put back, as the corpus.
use vstd::prelude::*;
use crate::term::{Term, ShiftSpec, shift_term, free_vars, cost};
use crate::model::{
    SpecAppLam, SpecInvention, SpecBest, SpecEntry, Tables, shift_down, shift_all, copy_one,
    copy_applams, valid_invention, usable, propose, self_use, use_cost, propagate_app,
    propagate_lam, propagate_root, propagate_programs, best_at, best_for, cost_under, roots_cost,
    roots_with, lemma_find_inv, duplicate, duplicate_applams, duplicate_args, duplicate_top,
    applams_at, applams_for, left_one, right_one, left_bubble, right_bubble, merge_one, merge_rows,
    lam_one, lam_bubble, kept_args, pending_args, visit_all, identity_applam,
};
use crate::fill_laws::{
    fill, stands_for, all_stand_for, lemma_shift_all, lemma_merge_rows_have, all_plain,
    lemma_visit_all_stands, lemma_post_order_in_range, all_in_range, lemma_no_holes,
};
use crate::pass_laws::{
    lemma_keep_some_all, lemma_visit_all, tables_sized, entry_sound, sized, size_bound,
};
use crate::order::{children_first, post_order, post_order_all, lemma_post_order};
use crate::term::in_range;
use crate::model::{rewrite, rewrite_call, rewrite_all, find_applam, has_inv, arity_cap};
use crate::compress::{pass_tables, has_hole, step_of, winner, pass_fault};
use crate::best::{sorted_by_cost, lemma_sorted_member};

verus! {

/// Raising the free variables of a term by `m` and then moving those above
/// the raised depth by `k` is moving them by `k` and then raising them.
pub proof fn lemma_shift_commute(a: Term, m: nat, k: int, c: nat)
    requires
        shift_term(a, ShiftSpec::Var(k), c) is Some,
        shift_term(a, ShiftSpec::Var(m as int), c) is Some,
    ensures
        shift_term(shift_term(a, ShiftSpec::Var(m as int), c).unwrap(), ShiftSpec::Var(k), c + m)
            == shift_term(
            shift_term(a, ShiftSpec::Var(k), c).unwrap(),
            ShiftSpec::Var(m as int),
            c,
        ),
    decreases a,
{
    match a {
        Term::App(f, x) => {
            lemma_shift_commute(*f, m, k, c);
            lemma_shift_commute(*x, m, k, c);
        },
        Term::Lam(b) => {
            lemma_shift_commute(*b, m, k, c + 1);
        },
        _ => {},
    }
}

/// Whether every free variable of the term lies below `d`.
pub open spec fn vars_below(b: Term, d: nat) -> bool {
    forall|i: nat| free_vars(b).contains(i) ==> i < d
}

/// Filling a body, whose own variables are bound in it, with arguments that
/// were shifted down gives what filling it with the arguments gives, shifted
/// down.
pub proof fn lemma_fill_shift(b: Term, args: Seq<Term>, down: Seq<Term>, d: nat)
    requires
        vars_below(b, d),
        down.len() == args.len(),
        forall|k: int| 0 <= k < args.len() ==> shift_down(#[trigger] args[k]) == Some(down[k]),
        fill(b, args, d) is Some,
    ensures
        fill(b, down, d) == shift_term(fill(b, args, d).unwrap(), ShiftSpec::Var(-1), d),
    decreases b,
{
    match b {
        Term::IVar(k) => {
            assert(shift_down(args[k as int]) == Some(down[k as int]));
            lemma_shift_commute(args[k as int], d, -1, 0);
        },
        Term::Var(v) => {
            assert(free_vars(b).contains(v));
        },
        Term::App(f, x) => {
            assert forall|i: nat| free_vars(*f).contains(i) implies i < d by {
                assert(free_vars(b).contains(i));
            }
            assert forall|i: nat| free_vars(*x).contains(i) implies i < d by {
                assert(free_vars(b).contains(i));
            }
            lemma_fill_shift(*f, args, down, d);
            lemma_fill_shift(*x, args, down, d);
        },
        Term::Lam(body) => {
            assert forall|i: nat| free_vars(*body).contains(i) implies i < d + 1 by {
                if i >= 1 {
                    assert(free_vars(b).contains((i - 1) as nat));
                }
            }
            lemma_fill_shift(*body, args, down, d + 1);
        },
        _ => {},
    }
}

/// An applam with a closed body that stands for a term stands, with its
/// arguments shifted down, for the term shifted down.
pub proof fn lemma_copy_stands(a: SpecAppLam, old: Term)
    requires
        free_vars(a.inv.body) =~= Set::<nat>::empty(),
        stands_for(a, old),
        copy_one(a) is Some,
    ensures
        fill(copy_one(a).unwrap().inv.body, copy_one(a).unwrap().args, 0) == shift_down(old),
{
    let down = shift_all(a.args, a.args.len()).unwrap();
    lemma_shift_all(a.args, a.args.len());
    lemma_fill_shift(a.inv.body, a.args, down, 0);
}

/// Whether the term holds no primitive of the name.
pub open spec fn name_free(t: Term, name: Seq<u8>) -> bool
    decreases t,
{
    match t {
        Term::Prim(p) => p != name,
        Term::App(f, x) => name_free(*f, name) && name_free(*x, name),
        Term::Lam(b) => name_free(*b, name),
        Term::Programs(ps) => forall|k: int| 0 <= k < ps.len() ==> name_free(#[trigger] ps[k], name),
        _ => true,
    }
}

/// Whether no term of the list holds a primitive of the name.
pub open spec fn all_name_free(ts: Seq<Term>, name: Seq<u8>) -> bool {
    forall|k: int| 0 <= k < ts.len() ==> name_free(#[trigger] ts[k], name)
}

/// Moving the indices of a term brings no primitive into it.
pub proof fn lemma_shift_name_free(t: Term, m: ShiftSpec, c: nat, name: Seq<u8>)
    requires
        name_free(t, name),
        shift_term(t, m, c) is Some,
    ensures
        name_free(shift_term(t, m, c).unwrap(), name),
    decreases t,
{
    match t {
        Term::App(f, x) => {
            lemma_shift_name_free(*f, m, c, name);
            lemma_shift_name_free(*x, m, c, name);
        },
        Term::Lam(b) => {
            lemma_shift_name_free(*b, m, c + 1, name);
        },
        _ => {},
    }
}

/// Terms that are shifted down hold no primitive that they did not hold.
pub proof fn lemma_shift_all_name_free(args: Seq<Term>, n: nat, name: Seq<u8>)
    requires
        n <= args.len(),
        all_name_free(args, name),
        shift_all(args, n) is Some,
    ensures
        all_name_free(shift_all(args, n).unwrap(), name),
    decreases n,
{
    if n > 0 {
        lemma_shift_all_name_free(args, (n - 1) as nat, name);
        lemma_shift_all(args, n);
        lemma_shift_all(args, (n - 1) as nat);
        assert(name_free(args[n - 1], name));
        lemma_shift_name_free(args[n - 1], ShiftSpec::Var(-1), 0, name);
        let prev = shift_all(args, (n - 1) as nat).unwrap();
        let cur = shift_all(args, n).unwrap();
        assert forall|k: int| 0 <= k < cur.len() implies name_free(#[trigger] cur[k], name) by {
            if k < n - 1 {
                assert(cur[k] == prev[k]);
            }
        }
    }
}

/// Whether the applam is in order for the term `u`: it stands for the term
/// if its body is closed, and its arguments hold no primitive of the name.
pub open spec fn applam_good(a: SpecAppLam, u: Term, name: Seq<u8>) -> bool {
    (free_vars(a.inv.body) =~= Set::<nat>::empty() ==> stands_for(a, u)) && all_name_free(
        a.args,
        name,
    )
}

/// Whether all applams of the list are in order for the term.
pub open spec fn applams_good(v: Seq<SpecAppLam>, u: Term, name: Seq<u8>) -> bool {
    forall|i: int| 0 <= i < v.len() ==> applam_good(#[trigger] v[i], u, name)
}

/// Whether every entry is for an invention with a closed body.
pub open spec fn keys_valid(e: Seq<(SpecInvention, int)>) -> bool {
    forall|k: int| 0 <= k < e.len() ==> valid_invention((#[trigger] e[k]).0)
}

/// Whether what is kept for the term `u` is in order.
pub open spec fn entry_good(e: SpecEntry, u: Term, name: Seq<u8>) -> bool {
    applams_good(e.applams, u, name) && keys_valid(e.best.inventionful_cost) && name_free(u, name)
}

/// Whether all that is kept is in order: the applams with closed bodies
/// stand for their terms, the inventions of the best costs have closed
/// bodies, and no term holds a primitive of the name.
pub open spec fn good(s: Tables, name: Seq<u8>) -> bool {
    forall|u: Term| #[trigger] s.contains_key(u) ==> entry_good(s[u], u, name)
}

/// Proposing a cost for an invention with a closed body keeps the entries
/// for such inventions.
pub proof fn lemma_propose_valid(b: SpecBest<SpecInvention>, inv: SpecInvention, c: int)
    requires
        keys_valid(b.inventionful_cost),
        valid_invention(inv),
    ensures
        keys_valid(propose(b, inv, c).inventionful_cost),
{
    lemma_find_inv(b.inventionful_cost, inv, b.inventionful_cost.len());
    let e = propose(b, inv, c).inventionful_cost;
    assert forall|k: int| 0 <= k < e.len() implies valid_invention((#[trigger] e[k]).0) by {
        if k < b.inventionful_cost.len() && e[k] == b.inventionful_cost[k] {
        }
    }
}

/// The same for the proposals of the usable applams.
pub proof fn lemma_self_use_valid(
    s: Tables,
    b: SpecBest<SpecInvention>,
    applams: Seq<SpecAppLam>,
    n: nat,
)
    requires
        keys_valid(b.inventionful_cost),
    ensures
        keys_valid(self_use(s, b, applams, n).inventionful_cost),
    decreases n,
{
    if n > 0 {
        lemma_self_use_valid(s, b, applams, (n - 1) as nat);
        let a = applams[n - 1];
        if usable(a) {
            lemma_propose_valid(self_use(s, b, applams, (n - 1) as nat), a.inv, use_cost(s, a));
        }
    }
}

/// The same for the proposals for an application.
pub proof fn lemma_propagate_app_valid(
    b: SpecBest<SpecInvention>,
    bf: SpecBest<SpecInvention>,
    bx: SpecBest<SpecInvention>,
    keys: Seq<(SpecInvention, int)>,
    n: nat,
)
    requires
        n <= keys.len(),
        keys_valid(b.inventionful_cost),
        keys_valid(keys),
    ensures
        keys_valid(propagate_app(b, bf, bx, keys, n).inventionful_cost),
    decreases n,
{
    if n > 0 {
        lemma_propagate_app_valid(b, bf, bx, keys, (n - 1) as nat);
        let inv = keys[n - 1].0;
        lemma_propose_valid(
            propagate_app(b, bf, bx, keys, (n - 1) as nat),
            inv,
            1 + cost_under(bf, inv) + cost_under(bx, inv),
        );
    }
}

/// The same for the proposals for a lambda.
pub proof fn lemma_propagate_lam_valid(
    b: SpecBest<SpecInvention>,
    child: Seq<(SpecInvention, int)>,
    n: nat,
)
    requires
        n <= child.len(),
        keys_valid(b.inventionful_cost),
        keys_valid(child),
    ensures
        keys_valid(propagate_lam(b, child, n).inventionful_cost),
    decreases n,
{
    if n > 0 {
        lemma_propagate_lam_valid(b, child, (n - 1) as nat);
        lemma_propose_valid(
            propagate_lam(b, child, (n - 1) as nat),
            child[n - 1].0,
            child[n - 1].1 + 1,
        );
    }
}

/// The same for the proposals for a container of programs.
pub proof fn lemma_propagate_root_valid(
    s: Tables,
    b: SpecBest<SpecInvention>,
    roots: Seq<Term>,
    keys: Seq<(SpecInvention, int)>,
    n: nat,
)
    requires
        n <= keys.len(),
        keys_valid(b.inventionful_cost),
        keys_valid(keys),
    ensures
        keys_valid(propagate_root(s, b, roots, keys, n).inventionful_cost),
    decreases n,
{
    if n > 0 {
        lemma_propagate_root_valid(s, b, roots, keys, (n - 1) as nat);
        let inv = keys[n - 1].0;
        if roots_with(s, roots, inv, roots.len()) >= 2 {
            lemma_propose_valid(
                propagate_root(s, b, roots, keys, (n - 1) as nat),
                inv,
                roots_cost(s, roots, inv, roots.len()),
            );
        }
    }
}

/// The entries that are kept for a term, or none, are for inventions with
/// closed bodies where all that is kept is in order.
pub proof fn lemma_best_at_valid(s: Tables, u: Term, name: Seq<u8>)
    requires
        good(s, name),
    ensures
        keys_valid(best_at(s, u).inventionful_cost),
{
    if s.contains_key(u) {
        assert(entry_good(s[u], u, name));
    }
}

/// The same for the inventions of the first `m` programs.
pub proof fn lemma_propagate_programs_valid(
    s: Tables,
    b: SpecBest<SpecInvention>,
    roots: Seq<Term>,
    m: nat,
    name: Seq<u8>,
)
    requires
        m <= roots.len(),
        good(s, name),
        keys_valid(b.inventionful_cost),
    ensures
        keys_valid(propagate_programs(s, b, roots, m).inventionful_cost),
    decreases m,
{
    if m > 0 {
        lemma_propagate_programs_valid(s, b, roots, (m - 1) as nat, name);
        let keys = best_at(s, roots[m - 1]).inventionful_cost;
        lemma_best_at_valid(s, roots[m - 1], name);
        lemma_propagate_root_valid(
            s,
            propagate_programs(s, b, roots, (m - 1) as nat),
            roots,
            keys,
            keys.len(),
        );
    }
}

/// The best costs of a term are kept for inventions with closed bodies.
pub proof fn lemma_best_for_valid(s: Tables, t: Term, applams: Seq<SpecAppLam>, name: Seq<u8>)
    requires
        good(s, name),
    ensures
        keys_valid(best_for(s, t, applams).inventionful_cost),
{
    let b0 = SpecBest::<SpecInvention> {
        inventionless_cost: cost(t),
        inventionful_cost: Seq::empty(),
    };
    lemma_self_use_valid(s, b0, applams, applams.len());
    let b1 = self_use(s, b0, applams, applams.len());
    match t {
        Term::App(f, x) => {
            let bf = best_at(s, *f);
            let bx = best_at(s, *x);
            lemma_best_at_valid(s, *f, name);
            lemma_best_at_valid(s, *x, name);
            lemma_propagate_app_valid(
                b1,
                bf,
                bx,
                bf.inventionful_cost,
                bf.inventionful_cost.len(),
            );
            let b2 = propagate_app(b1, bf, bx, bf.inventionful_cost, bf.inventionful_cost.len());
            lemma_propagate_app_valid(
                b2,
                bf,
                bx,
                bx.inventionful_cost,
                bx.inventionful_cost.len(),
            );
        },
        Term::Lam(b) => {
            let bb = best_at(s, *b);
            lemma_best_at_valid(s, *b, name);
            lemma_propagate_lam_valid(b1, bb.inventionful_cost, bb.inventionful_cost.len());
        },
        Term::Programs(ps) => {
            lemma_propagate_programs_valid(s, b1, ps, ps.len(), name);
        },
        _ => {},
    }
}

/// Applams that are in order for a term are, with their arguments shifted
/// down, in order for the term shifted down.
pub proof fn lemma_copy_good(v: Seq<SpecAppLam>, old: Term, name: Seq<u8>)
    requires
        applams_good(v, old, name),
        shift_down(old) is Some,
    ensures
        applams_good(copy_applams(v, v.len()), shift_down(old).unwrap(), name),
{
    let new = shift_down(old).unwrap();
    let p = |a: SpecAppLam| applam_good(a, new, name);
    let c = Seq::new(v.len(), |i: int| copy_one(v[i]));
    assert forall|i: int| 0 <= i < c.len() && (#[trigger] c[i]) is Some implies p(
        c[i].unwrap(),
    ) by {
        assert(applam_good(v[i], old, name));
        lemma_shift_all_name_free(v[i].args, v[i].args.len(), name);
        if free_vars(v[i].inv.body) =~= Set::<nat>::empty() {
            lemma_copy_stands(v[i], old);
        }
    }
    lemma_keep_some_all(c, v.len(), p);
}

/// Duplicating keeps in order all that is kept.
pub proof fn lemma_duplicate_good(s: Tables, old: Term, b: nat, name: Seq<u8>)
    requires
        good(s, name),
    ensures
        good(duplicate(s, old, b), name),
    decreases b, 0nat, 0nat,
{
    match shift_down(old) {
        None => {},
        Some(new) => {
            if s.contains_key(new) || !s.contains_key(old) || cost(old) >= b || cost(old) < 0 {
            } else {
                let e = s[old];
                let s1 = s.insert(
                    new,
                    SpecEntry { applams: copy_applams(e.applams, e.applams.len()), best: e.best },
                );
                assert(entry_good(e, old, name));
                lemma_copy_good(e.applams, old, name);
                lemma_shift_name_free(old, ShiftSpec::Var(-1), 0, name);
                assert(good(s1, name)) by {
                    assert forall|u: Term| #[trigger] s1.contains_key(u) implies entry_good(
                        s1[u],
                        u,
                        name,
                    ) by {
                        if u != new {
                            assert(s.contains_key(u));
                        }
                    }
                }
                lemma_duplicate_applams_good(
                    s1,
                    e.applams,
                    e.applams.len(),
                    cost(old) as nat,
                    name,
                );
            }
        },
    }
}

/// The same for the arguments of a list of applams.
pub proof fn lemma_duplicate_applams_good(
    s: Tables,
    applams: Seq<SpecAppLam>,
    n: nat,
    b: nat,
    name: Seq<u8>,
)
    requires
        good(s, name),
    ensures
        good(duplicate_applams(s, applams, n, b), name),
    decreases b, 2nat, n,
{
    if n > 0 {
        lemma_duplicate_applams_good(s, applams, (n - 1) as nat, b, name);
        lemma_duplicate_args_good(
            duplicate_applams(s, applams, (n - 1) as nat, b),
            applams[n - 1].args,
            applams[n - 1].args.len(),
            b,
            name,
        );
    }
}

/// The same for a list of arguments.
pub proof fn lemma_duplicate_args_good(s: Tables, args: Seq<Term>, n: nat, b: nat, name: Seq<u8>)
    requires
        good(s, name),
    ensures
        good(duplicate_args(s, args, n, b), name),
    decreases b, 1nat, n,
{
    if n > 0 {
        lemma_duplicate_args_good(s, args, (n - 1) as nat, b, name);
        lemma_duplicate_good(duplicate_args(s, args, (n - 1) as nat, b), args[n - 1], b, name);
    }
}

/// The same for a list of arguments, whatever they cost.
pub proof fn lemma_duplicate_top_good(s: Tables, args: Seq<Term>, n: nat, name: Seq<u8>)
    requires
        good(s, name),
    ensures
        good(duplicate_top(s, args, n), name),
    decreases n,
{
    if n > 0 {
        lemma_duplicate_top_good(s, args, (n - 1) as nat, name);
        lemma_duplicate_good(
            duplicate_top(s, args, (n - 1) as nat),
            args[n - 1],
            (cost(args[n - 1]) + 1) as nat,
            name,
        );
    }
}

/// The arguments that are kept in a merge hold no primitive that the
/// arguments of the right side do not hold.
pub proof fn lemma_kept_name_free(fargs: Seq<Term>, xargs: Seq<Term>, n: nat, name: Seq<u8>)
    requires
        n <= xargs.len(),
        all_name_free(xargs, name),
    ensures
        all_name_free(kept_args(fargs, xargs, n), name),
    decreases n,
{
    if n > 0 {
        lemma_kept_name_free(fargs, xargs, (n - 1) as nat, name);
        let prev = kept_args(fargs, xargs, (n - 1) as nat);
        let cur = kept_args(fargs, xargs, n);
        assert(name_free(xargs[n - 1], name));
        assert forall|k: int| 0 <= k < cur.len() implies name_free(#[trigger] cur[k], name) by {
            if k < prev.len() {
                assert(cur[k] == prev[k]);
            }
        }
    }
}

/// Whether the arguments of all applams of the list hold no primitive of
/// the name.
pub open spec fn args_name_free(v: Seq<SpecAppLam>, name: Seq<u8>) -> bool {
    forall|i: int| 0 <= i < v.len() ==> all_name_free((#[trigger] v[i]).args, name)
}

/// The arguments of the applams of a term hold no primitive that neither
/// the term nor the arguments of the applams of its children hold.
pub proof fn lemma_applams_for_names(s: Tables, t: Term, limit: nat, name: Seq<u8>)
    requires
        name_free(t, name),
        match t {
            Term::App(f, x) => args_name_free(applams_at(s, *f), name) && args_name_free(
                applams_at(s, *x),
                name,
            ),
            Term::Lam(b) => args_name_free(applams_at(s, *b), name),
            _ => true,
        },
    ensures
        args_name_free(applams_for(s, t, limit), name),
{
    let v = applams_for(s, t, limit);
    let q = |a: SpecAppLam| all_name_free(a.args, name);
    assert(all_name_free(identity_applam(t).args, name));
    match t {
        Term::App(f, x) => {
            let fa = applams_at(s, *f);
            let xa = applams_at(s, *x);
            let lc = Seq::new(fa.len(), |i: int| left_one(fa[i], *x));
            assert forall|i: int| 0 <= i < lc.len() && (#[trigger] lc[i]) is Some implies q(
                lc[i].unwrap(),
            ) by {
                assert(all_name_free(fa[i].args, name));
            }
            lemma_keep_some_all(lc, fa.len(), q);
            let rc = Seq::new(xa.len(), |i: int| right_one(*f, xa[i]));
            assert forall|i: int| 0 <= i < rc.len() && (#[trigger] rc[i]) is Some implies q(
                rc[i].unwrap(),
            ) by {
                assert(all_name_free(xa[i].args, name));
            }
            lemma_keep_some_all(rc, xa.len(), q);
            assert forall|i: int, j: int|
                0 <= i < fa.len() && 0 <= j < xa.len() && (#[trigger] merge_one(
                    fa[i],
                    xa[j],
                    limit,
                )) is Some implies q(merge_one(fa[i], xa[j], limit).unwrap()) by {
                assert(all_name_free(fa[i].args, name));
                assert(all_name_free(xa[j].args, name));
                lemma_kept_name_free(fa[i].args, xa[j].args, xa[j].args.len(), name);
                let kept = kept_args(fa[i].args, xa[j].args, xa[j].args.len());
                let all = fa[i].args + kept;
                assert forall|k: int| 0 <= k < all.len() implies name_free(
                    #[trigger] all[k],
                    name,
                ) by {
                    if k < fa[i].args.len() {
                        assert(all[k] == fa[i].args[k]);
                    } else {
                        assert(all[k] == kept[k - fa[i].args.len()]);
                    }
                }
            }
            lemma_merge_rows_have(fa, xa, fa.len(), limit, q);
            let l = left_bubble(fa, *x, fa.len());
            let r = right_bubble(*f, xa, xa.len());
            let m = merge_rows(fa, xa, fa.len(), limit);
            assert forall|i: int| 0 <= i < v.len() implies all_name_free(
                (#[trigger] v[i]).args,
                name,
            ) by {
                if i == 0 {
                } else if i < 1 + l.len() {
                    assert(v[i] == l[i - 1]);
                    assert(q(l[i - 1]));
                } else if i < 1 + l.len() + r.len() {
                    assert(v[i] == r[i - 1 - l.len()]);
                    assert(q(r[i - 1 - l.len()]));
                } else {
                    assert(v[i] == m[i - 1 - l.len() - r.len()]);
                    assert(q(m[i - 1 - l.len() - r.len()]));
                }
            }
        },
        Term::Lam(b) => {
            let ba = applams_at(s, *b);
            let c = Seq::new(ba.len(), |i: int| lam_one(ba[i]));
            assert forall|i: int| 0 <= i < c.len() && (#[trigger] c[i]) is Some implies q(
                c[i].unwrap(),
            ) by {
                assert(all_name_free(ba[i].args, name));
                lemma_shift_all_name_free(ba[i].args, ba[i].args.len(), name);
            }
            lemma_keep_some_all(c, ba.len(), q);
            let l = lam_bubble(ba, ba.len());
            assert forall|i: int| 0 <= i < v.len() implies all_name_free(
                (#[trigger] v[i]).args,
                name,
            ) by {
                if i > 0 {
                    assert(v[i] == l[i - 1]);
                    assert(q(l[i - 1]));
                }
            }
        },
        _ => {},
    }
}

/// The arguments of the applams that are kept for a term hold no primitive
/// of the name where all that is kept is in order.
pub proof fn lemma_applams_at_names(s: Tables, u: Term, name: Seq<u8>)
    requires
        good(s, name),
    ensures
        args_name_free(applams_at(s, u), name),
{
    if s.contains_key(u) {
        assert(entry_good(s[u], u, name));
        let v = s[u].applams;
        assert forall|i: int| 0 <= i < v.len() implies all_name_free(
            (#[trigger] v[i]).args,
            name,
        ) by {
            assert(applam_good(v[i], u, name));
        }
    }
}

/// After a pass over terms without holes and without a primitive of the
/// name, that stand after their children, all that is kept is in order.
pub proof fn lemma_visit_good(ts: Seq<Term>, n: nat, limit: nat, name: Seq<u8>)
    requires
        n <= ts.len(),
        children_first(ts),
        all_plain(ts),
        all_name_free(ts, name),
    ensures
        good(visit_all(ts, n, limit), name),
    decreases n,
{
    if n == 0 {
    } else {
        lemma_visit_good(ts, (n - 1) as nat, limit, name);
        lemma_visit_all_stands(ts, n, limit);
        let s = visit_all(ts, (n - 1) as nat, limit);
        let t = ts[n - 1];
        let applams = applams_for(s, t, limit);
        assert(name_free(t, name));
        match t {
            Term::App(f, x) => {
                lemma_applams_at_names(s, *f, name);
                lemma_applams_at_names(s, *x, name);
            },
            Term::Lam(b) => {
                lemma_applams_at_names(s, *b, name);
            },
            _ => {},
        }
        lemma_applams_for_names(s, t, limit, name);
        let s1 = match t {
            Term::Lam(b) => {
                let pending = pending_args(applams_at(s, *b), applams_at(s, *b).len());
                duplicate_top(s, pending, pending.len())
            },
            _ => s,
        };
        match t {
            Term::Lam(b) => {
                let pending = pending_args(applams_at(s, *b), applams_at(s, *b).len());
                lemma_duplicate_top_good(s, pending, pending.len(), name);
            },
            _ => {},
        }
        lemma_best_for_valid(s1, t, applams, name);
        let s2 = visit_all(ts, n, limit);
        let e = SpecEntry { applams, best: best_for(s1, t, applams) };
        assert(s2 == s1.insert(t, e));
        assert(s2.contains_key(ts[n - 1]));
        assert(all_stand_for(s2[t].applams, t));
        assert(entry_good(e, t, name)) by {
            assert forall|i: int| 0 <= i < applams.len() implies applam_good(
                #[trigger] applams[i],
                t,
                name,
            ) by {
                assert(stands_for(applams[i], t));
                assert(all_name_free(applams[i].args, name));
            }
        }
        assert forall|u: Term| #[trigger] s2.contains_key(u) implies entry_good(s2[u], u, name) by {
            if u != t {
                assert(s1.contains_key(u));
            }
        }
    }
}

/// The function at the head of a chain of applications.
pub open spec fn head(r: Term) -> Term
    decreases r,
{
    match r {
        Term::App(f, _) => head(*f),
        _ => r,
    }
}

/// The number of the arguments of a chain of applications.
pub open spec fn spine_len(r: Term) -> nat
    decreases r,
{
    match r {
        Term::App(f, _) => spine_len(*f) + 1,
        _ => 0,
    }
}

/// Whether the term is a call of the primitive `name` with `arity`
/// arguments.
pub open spec fn is_call(r: Term, name: Seq<u8>, arity: nat) -> bool {
    head(r) == Term::Prim(name) && spine_len(r) == arity
}

/// The term with every call of the primitive `name` put back: a call with
/// as many arguments as the invention has holes becomes the body of the
/// invention, each hole filled with its argument; the last argument of the
/// call fills the hole `#0`.
pub open spec fn expand(r: Term, name: Seq<u8>, inv: SpecInvention) -> Option<Term>
    decreases r, 1nat,
{
    if is_call(r, name, inv.arity) {
        match expand_spine(r, name, inv) {
            Some(args) => fill(inv.body, args, 0),
            None => None,
        }
    } else {
        match r {
            Term::App(f, x) => match (expand(*f, name, inv), expand(*x, name, inv)) {
                (Some(f2), Some(x2)) => Some(Term::App(Box::new(f2), Box::new(x2))),
                _ => None,
            },
            Term::Lam(b) => match expand(*b, name, inv) {
                Some(b2) => Some(Term::Lam(Box::new(b2))),
                None => None,
            },
            Term::Programs(ps) => match expand_all(ps, ps.len(), name, inv) {
                Some(ps2) => Some(Term::Programs(ps2)),
                None => None,
            },
            _ => Some(r),
        }
    }
}

/// The arguments of a chain of applications, the last first, each with the
/// calls put back.
pub open spec fn expand_spine(r: Term, name: Seq<u8>, inv: SpecInvention) -> Option<Seq<Term>>
    decreases r, 0nat,
{
    match r {
        Term::App(f, x) => match (expand(*x, name, inv), expand_spine(*f, name, inv)) {
            (Some(a), Some(rest)) => Some(seq![a] + rest),
            _ => None,
        },
        _ => Some(Seq::empty()),
    }
}

/// The first `n` terms, each with the calls put back.
pub open spec fn expand_all(ps: Seq<Term>, n: nat, name: Seq<u8>, inv: SpecInvention) -> Option<
    Seq<Term>,
>
    decreases ps, n,
{
    if n == 0 || n > ps.len() {
        Some(Seq::empty())
    } else {
        match (expand_all(ps, (n - 1) as nat, name, inv), expand(ps[n - 1], name, inv)) {
            (Some(done), Some(p)) => Some(done.push(p)),
            _ => None,
        }
    }
}

/// An applam that is found is one of the applams looked at, and is of the
/// invention.
pub proof fn lemma_find_applam(v: Seq<SpecAppLam>, inv: SpecInvention, n: nat)
    requires
        find_applam(v, inv, n) is Some,
    ensures
        0 <= find_applam(v, inv, n).unwrap() < n,
        v[find_applam(v, inv, n).unwrap()].inv == inv,
    decreases n,
{
    if n > 0 && find_applam(v, inv, (n - 1) as nat) is Some {
        lemma_find_applam(v, inv, (n - 1) as nat);
    }
}

/// Whether the tables are fit for rewriting: all that is kept is in order,
/// and every applam has one argument for each hole.
pub open spec fn fit(s: Tables, name: Seq<u8>, bnd: nat) -> bool {
    good(s, name) && tables_sized(s, bnd)
}

/// What was rewritten reads, with the calls put back, as the term; and if
/// its head is the primitive `name`, it has as many arguments as the
/// invention has holes, or more.
pub proof fn lemma_rewrite_sound(
    s: Tables,
    t: Term,
    inv: SpecInvention,
    name: Seq<u8>,
    bound: nat,
    bnd: nat,
)
    requires
        fit(s, name, bnd),
        valid_invention(inv),
        name_free(t, name),
        rewrite(s, t, inv, name, bound) is Some,
    ensures
        expand(rewrite(s, t, inv, name, bound).unwrap(), name, inv) == Some(t),
        head(rewrite(s, t, inv, name, bound).unwrap()) == Term::Prim(name) ==> spine_len(
            rewrite(s, t, inv, name, bound).unwrap(),
        ) >= inv.arity,
    decreases bound, 1nat, t, 0nat,
{
    let r = rewrite(s, t, inv, name, bound).unwrap();
    let applams = applams_at(s, t);
    if has_inv(best_at(s, t), inv) && find_applam(applams, inv, applams.len()) is Some {
        let i = find_applam(applams, inv, applams.len()).unwrap();
        lemma_find_applam(applams, inv, applams.len());
        let a = applams[i];
        assert(s.contains_key(t));
        assert(entry_good(s[t], t, name));
        assert(applam_good(a, t, name));
        assert(entry_sound(s[t], t, bnd));
        assert(sized(a, bnd));
        assert(r == rewrite_call(s, a.args, 0, inv, name, bound).unwrap());
        lemma_call_sound(s, a.args, 0, inv, name, bound, bnd);
        assert(a.args.subrange(0, a.args.len() as int) =~= a.args);
    } else {
        match t {
            Term::App(f, x) => {
                lemma_rewrite_sound(s, *f, inv, name, bound, bnd);
                lemma_rewrite_sound(s, *x, inv, name, bound, bnd);
                let rf = rewrite(s, *f, inv, name, bound).unwrap();
                let rx = rewrite(s, *x, inv, name, bound).unwrap();
                assert(r == Term::App(Box::new(rf), Box::new(rx)));
                assert(head(r) == head(rf));
                assert(spine_len(r) == spine_len(rf) + 1);
            },
            Term::Lam(b) => {
                lemma_rewrite_sound(s, *b, inv, name, bound, bnd);
                let rb = rewrite(s, *b, inv, name, bound).unwrap();
                assert(r == Term::Lam(Box::new(rb)));
            },
            Term::Programs(ps) => {
                lemma_all_sound(s, ps, ps.len(), inv, name, bound, bnd);
                let rs = rewrite_all(s, ps, ps.len(), inv, name, bound).unwrap();
                assert(r == Term::Programs(rs));
                assert(ps.subrange(0, ps.len() as int) =~= ps);
            },
            _ => {
                assert(r == t);
            },
        }
    }
}

/// The call that was written for the arguments from the place `k` on is a
/// chain of applications of the primitive `name` whose arguments read, with
/// the calls put back, as those arguments.
pub proof fn lemma_call_sound(
    s: Tables,
    args: Seq<Term>,
    k: nat,
    inv: SpecInvention,
    name: Seq<u8>,
    bound: nat,
    bnd: nat,
)
    requires
        fit(s, name, bnd),
        valid_invention(inv),
        all_name_free(args, name),
        k <= args.len(),
        rewrite_call(s, args, k, inv, name, bound) is Some,
    ensures
        head(rewrite_call(s, args, k, inv, name, bound).unwrap()) == Term::Prim(name),
        spine_len(rewrite_call(s, args, k, inv, name, bound).unwrap()) == args.len() - k,
        expand_spine(rewrite_call(s, args, k, inv, name, bound).unwrap(), name, inv) == Some(
            args.subrange(k as int, args.len() as int),
        ),
    decreases bound, 0nat, args, args.len() - k,
{
    let c = rewrite_call(s, args, k, inv, name, bound).unwrap();
    if k >= args.len() {
        assert(args.subrange(k as int, args.len() as int) =~= Seq::<Term>::empty());
    } else {
        lemma_call_sound(s, args, k + 1, inv, name, bound, bnd);
        let rest = rewrite_call(s, args, k + 1, inv, name, bound).unwrap();
        assert(name_free(args[k as int], name));
        lemma_rewrite_sound(s, args[k as int], inv, name, cost(args[k as int]) as nat, bnd);
        let a = rewrite(s, args[k as int], inv, name, cost(args[k as int]) as nat).unwrap();
        assert(c == Term::App(Box::new(rest), Box::new(a)));
        assert(seq![args[k as int]] + args.subrange((k + 1) as int, args.len() as int) =~= args.subrange(
            k as int,
            args.len() as int,
        ));
    }
}

/// The first `n` terms that were rewritten read, with the calls put back, as
/// the terms.
pub proof fn lemma_all_sound(
    s: Tables,
    ps: Seq<Term>,
    n: nat,
    inv: SpecInvention,
    name: Seq<u8>,
    bound: nat,
    bnd: nat,
)
    requires
        fit(s, name, bnd),
        valid_invention(inv),
        all_name_free(ps, name),
        n <= ps.len(),
        rewrite_all(s, ps, n, inv, name, bound) is Some,
    ensures
        rewrite_all(s, ps, n, inv, name, bound).unwrap().len() == n,
        expand_all(
            rewrite_all(s, ps, n, inv, name, bound).unwrap(),
            n,
            name,
            inv,
        ) == Some(ps.subrange(0, n as int)),
    decreases bound, 1nat, ps, n,
{
    let rs = rewrite_all(s, ps, n, inv, name, bound).unwrap();
    if n == 0 {
        assert(ps.subrange(0, 0) =~= Seq::<Term>::empty());
    } else {
        lemma_all_sound(s, ps, (n - 1) as nat, inv, name, bound, bnd);
        assert(name_free(ps[n - 1], name));
        lemma_rewrite_sound(s, ps[n - 1], inv, name, bound, bnd);
        let done = rewrite_all(s, ps, (n - 1) as nat, inv, name, bound).unwrap();
        let p = rewrite(s, ps[n - 1], inv, name, bound).unwrap();
        assert(rs == done.push(p));
        lemma_expand_all_push(done, p, (n - 1) as nat, name, inv);
        assert(rs[n - 1] == p);
        assert(ps.subrange(0, n - 1).push(ps[n - 1]) =~= ps.subrange(0, n as int));
    }
}

/// A term that follows a list does not change what the first terms of the
/// list expand to.
pub proof fn lemma_expand_all_push(
    done: Seq<Term>,
    p: Term,
    n: nat,
    name: Seq<u8>,
    inv: SpecInvention,
)
    requires
        n <= done.len(),
    ensures
        expand_all(done.push(p), n, name, inv) == expand_all(done, n, name, inv),
    decreases n,
{
    if n > 0 {
        lemma_expand_all_push(done, p, (n - 1) as nat, name, inv);
        assert(done.push(p)[n - 1] == done[n - 1]);
    }
}

/// The subterms of a term without a primitive of the name, added to a list
/// of such terms, hold no primitive of the name.
pub proof fn lemma_post_order_name_free(t: Term, acc: Seq<Term>, name: Seq<u8>)
    requires
        name_free(t, name),
        all_name_free(acc, name),
    ensures
        all_name_free(post_order(t, acc), name),
    decreases t, 0nat,
{
    if !acc.contains(t) {
        let a = match t {
            Term::App(f, x) => post_order(*x, post_order(*f, acc)),
            Term::Lam(b) => post_order(*b, acc),
            Term::Programs(ps) => post_order_all(ps, ps.len(), acc),
            _ => acc,
        };
        match t {
            Term::App(f, x) => {
                lemma_post_order_name_free(*f, acc, name);
                lemma_post_order_name_free(*x, post_order(*f, acc), name);
            },
            Term::Lam(b) => {
                lemma_post_order_name_free(*b, acc, name);
            },
            Term::Programs(ps) => {
                assert(all_name_free(ps, name));
                lemma_post_order_all_name_free(ps, ps.len(), acc, name);
            },
            _ => {},
        }
        assert(all_name_free(a, name));
        if !a.contains(t) {
            let r = a.push(t);
            assert forall|k: int| 0 <= k < r.len() implies name_free(#[trigger] r[k], name) by {
                if k < a.len() {
                    assert(r[k] == a[k]);
                }
            }
        }
    }
}

/// The same for the subterms of the first `n` terms of a list.
pub proof fn lemma_post_order_all_name_free(
    ps: Seq<Term>,
    n: nat,
    acc: Seq<Term>,
    name: Seq<u8>,
)
    requires
        all_name_free(ps, name),
        all_name_free(acc, name),
    ensures
        all_name_free(post_order_all(ps, n, acc), name),
    decreases ps, n,
{
    if n == 0 || n > ps.len() {
    } else {
        lemma_post_order_all_name_free(ps, (n - 1) as nat, acc, name);
        assert(name_free(ps[n - 1], name));
        lemma_post_order_name_free(ps[n - 1], post_order_all(ps, (n - 1) as nat, acc), name);
    }
}

/// What a pass over a corpus keeps is fit for rewriting, where the corpus
/// has its indices in range, no hole, and no primitive of the name.
pub proof fn lemma_pass_fit(t: Term, max_arity: nat, name: Seq<u8>)
    requires
        in_range(t),
        name_free(t, name),
        !has_hole(post_order(t, Seq::empty())),
    ensures
        fit(pass_tables(t, max_arity), name, size_bound(arity_cap(max_arity))),
{
    let order = post_order(t, Seq::empty());
    lemma_post_order(t, Seq::empty());
    lemma_post_order_in_range(t, Seq::empty());
    lemma_post_order_name_free(t, Seq::empty(), name);
    assert forall|k: int| 0 <= k < order.len() implies in_range(#[trigger] order[k]) && free_vars(
        order[k],
    ) == free_vars(order[k]) && crate::term::free_ivars(order[k]) =~= Set::<nat>::empty() by {
        assert(all_in_range(order));
        lemma_no_holes(order, k);
    }
    lemma_visit_good(order, order.len(), arity_cap(max_arity), name);
    lemma_visit_all(order, order.len(), arity_cap(max_arity));
}

/// A step is sound: the corpus that a step rewrote reads as the corpus once
/// every call of the new primitive is put back, that is, once the body of
/// the invention is written in its place with the arguments of the call in
/// its holes. The corpus must have its indices in range, and must not hold
/// the new primitive already.
pub proof fn lemma_step_sound(t: Term, max_arity: nat, name: Seq<u8>)
    requires
        in_range(t),
        name_free(t, name),
        step_of(t, max_arity, name) is Found,
    ensures
        expand(
            step_of(t, max_arity, name)->rewritten,
            name,
            winner(best_at(pass_tables(t, max_arity), t).inventionful_cost),
        ) == Some(t),
        valid_invention(winner(best_at(pass_tables(t, max_arity), t).inventionful_cost)),
{
    let s = pass_tables(t, max_arity);
    let entries = best_at(s, t).inventionful_cost;
    let inv = winner(entries);
    assert(pass_fault(t) is None);
    lemma_pass_fit(t, max_arity, name);
    lemma_best_at_valid(s, t, name);
    lemma_sorted_member(entries, 0);
    let w = sorted_by_cost(entries, entries.len())[0];
    let j = choose|j: int| 0 <= j < entries.len() && entries[j] == w;
    assert(valid_invention(entries[j].0));
    lemma_rewrite_sound(
        s,
        t,
        inv,
        name,
        (cost(t) + 1) as nat,
        size_bound(arity_cap(max_arity)),
    );
}

} // verus!
