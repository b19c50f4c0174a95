//! What an applam means: its body, with each hole filled by the argument of
//! the hole, is the term that it is an applam of.
use vstd::prelude::*;
use crate::term::{Term, ShiftSpec, shift_term, shift_hole, free_ivars, in_range};
use crate::applam::lemma_position_found;
use crate::model::{
    SpecAppLam, SpecEntry, Tables, identity_applam, position, kept_args, merge_table, shift_down,
    shift_all, left_one, right_one, left_bubble, right_bubble, merge_one, merge_row, merge_rows,
    lam_one, lam_bubble, applams_at, applams_for, pending_args, duplicate_top, visit_all, best_for,
    arity_cap,
};
use crate::order::{
    post_order, post_order_all, before, children_before, children_first, lemma_post_order,
};
use crate::pass_laws::{lemma_keep_some_all, lemma_visit_all, lemma_duplicate_top, size_bound};
use crate::compress::{pass_tables, has_hole};

verus! {

/// The body `b`, which stands under `d` binders of its own, with each hole
/// `#k` filled by the argument `k`. An argument that goes under binders has
/// its free variables raised by their number. There is no result where a
/// hole has no argument, or where a variable cannot be raised.
pub open spec fn fill(b: Term, args: Seq<Term>, d: nat) -> Option<Term>
    decreases b,
{
    match b {
        Term::IVar(k) => if k < args.len() {
            shift_term(args[k as int], ShiftSpec::Var(d as int), 0)
        } else {
            None
        },
        Term::App(f, x) => match (fill(*f, args, d), fill(*x, args, d)) {
            (Some(f2), Some(x2)) => Some(Term::App(Box::new(f2), Box::new(x2))),
            _ => None,
        },
        Term::Lam(body) => match fill(*body, args, d + 1) {
            Some(b2) => Some(Term::Lam(Box::new(b2))),
            None => None,
        },
        _ => Some(b),
    }
}

/// Whether the applam stands for the term: its body, filled with its
/// arguments, is the term.
pub open spec fn stands_for(a: SpecAppLam, t: Term) -> bool {
    fill(a.inv.body, a.args, 0) == Some(t)
}

/// Whether all applams of the list stand for the term.
pub open spec fn all_stand_for(v: Seq<SpecAppLam>, t: Term) -> bool {
    forall|i: int| 0 <= i < v.len() ==> stands_for(#[trigger] v[i], t)
}

/// Moving the free variables of a term by nothing gives the term.
pub proof fn lemma_shift_zero(t: Term, c: nat)
    requires
        in_range(t),
    ensures
        shift_term(t, ShiftSpec::Var(0), c) == Some(t),
    decreases t,
{
    match t {
        Term::App(f, x) => {
            lemma_shift_zero(*f, c);
            lemma_shift_zero(*x, c);
        },
        Term::Lam(b) => {
            lemma_shift_zero(*b, c + 1);
        },
        _ => {},
    }
}

/// Moving the free variables of a term by `k1` and then by `k2` is moving
/// them by `k1 + k2`.
pub proof fn lemma_shift_compose(t: Term, k1: int, k2: int, c: nat)
    requires
        shift_term(t, ShiftSpec::Var(k1), c) is Some,
    ensures
        shift_term(shift_term(t, ShiftSpec::Var(k1), c).unwrap(), ShiftSpec::Var(k2), c)
            == shift_term(t, ShiftSpec::Var(k1 + k2), c),
    decreases t,
{
    match t {
        Term::App(f, x) => {
            lemma_shift_compose(*f, k1, k2, c);
            lemma_shift_compose(*x, k1, k2, c);
        },
        Term::Lam(b) => {
            lemma_shift_compose(*b, k1, k2, c + 1);
        },
        _ => {},
    }
}

/// A term without holes, filled, is the term.
pub proof fn lemma_fill_no_holes(x: Term, args: Seq<Term>, d: nat)
    requires
        free_ivars(x) =~= Set::<nat>::empty(),
    ensures
        fill(x, args, d) == Some(x),
    decreases x,
{
    match x {
        Term::IVar(k) => {
            assert(free_ivars(x).contains(k));
        },
        Term::App(f, y) => {
            assert forall|i: nat| !free_ivars(*f).contains(i) by {
                assert(!free_ivars(x).contains(i));
            }
            assert forall|i: nat| !free_ivars(*y).contains(i) by {
                assert(!free_ivars(x).contains(i));
            }
            lemma_fill_no_holes(*f, args, d);
            lemma_fill_no_holes(*y, args, d);
        },
        Term::Lam(b) => {
            lemma_fill_no_holes(*b, args, d + 1);
        },
        _ => {},
    }
}

/// A body that its arguments fill is filled in the same way when more
/// arguments follow them.
pub proof fn lemma_fill_extend(b: Term, args: Seq<Term>, more: Seq<Term>, d: nat)
    requires
        fill(b, args, d) is Some,
    ensures
        fill(b, args + more, d) == fill(b, args, d),
    decreases b,
{
    match b {
        Term::IVar(k) => {
            assert((args + more)[k as int] == args[k as int]);
        },
        Term::App(f, x) => {
            lemma_fill_extend(*f, args, more, d);
            lemma_fill_extend(*x, args, more, d);
        },
        Term::Lam(body) => {
            lemma_fill_extend(*body, args, more, d + 1);
        },
        _ => {},
    }
}

/// Filling a body under one binder more with arguments that were shifted
/// down is filling it with the arguments.
pub proof fn lemma_fill_shifted(b: Term, args: Seq<Term>, down: Seq<Term>, d: nat)
    requires
        down.len() == args.len(),
        forall|k: int| 0 <= k < args.len() ==> shift_down(#[trigger] args[k]) == Some(down[k]),
    ensures
        fill(b, down, d + 1) == fill(b, args, d),
    decreases b,
{
    match b {
        Term::IVar(k) => {
            if k < args.len() {
                assert(shift_down(args[k as int]) == Some(down[k as int]));
                lemma_shift_compose(args[k as int], -1, (d + 1) as int, 0);
            }
        },
        Term::App(f, x) => {
            lemma_fill_shifted(*f, args, down, d);
            lemma_fill_shifted(*x, args, down, d);
        },
        Term::Lam(body) => {
            lemma_fill_shifted(*body, args, down, d + 1);
        },
        _ => {},
    }
}

/// Whether each hole `#j` of the old arguments is moved by the table to a
/// hole of the new ones that has the same argument.
pub open spec fn table_fits(tb: Seq<int>, old_args: Seq<Term>, new_args: Seq<Term>) -> bool {
    tb.len() == old_args.len() && forall|j: int|
        0 <= j < old_args.len() ==> 0 <= j + #[trigger] tb[j] < new_args.len() && new_args[j
            + tb[j]] == old_args[j]
}

/// Filling a body whose holes were moved by a table, with the arguments that
/// the table moves them to, is filling the body with its own arguments.
pub proof fn lemma_fill_table(
    b: Term,
    tb: Seq<int>,
    old_args: Seq<Term>,
    new_args: Seq<Term>,
    c: nat,
    d: nat,
)
    requires
        table_fits(tb, old_args, new_args),
        shift_term(b, ShiftSpec::Table(tb), c) is Some,
    ensures
        fill(shift_term(b, ShiftSpec::Table(tb), c).unwrap(), new_args, d) == fill(
            b,
            old_args,
            d,
        ),
    decreases b,
{
    match b {
        Term::IVar(k) => {
            assert(shift_hole(k, ShiftSpec::Table(tb)) is Some);
            assert(new_args[k + tb[k as int]] == old_args[k as int]);
        },
        Term::App(f, x) => {
            lemma_fill_table(*f, tb, old_args, new_args, c, d);
            lemma_fill_table(*x, tb, old_args, new_args, c, d);
        },
        Term::Lam(body) => {
            lemma_fill_table(*body, tb, old_args, new_args, c + 1, d + 1);
        },
        _ => {},
    }
}

/// The arguments that are kept of the first arguments of the right side
/// begin those that are kept of more of them.
pub proof fn lemma_kept_prefix(fargs: Seq<Term>, xargs: Seq<Term>, n: nat, m: nat)
    requires
        n <= m,
    ensures
        kept_args(fargs, xargs, n).len() <= kept_args(fargs, xargs, m).len(),
        forall|i: int|
            0 <= i < kept_args(fargs, xargs, n).len() ==> kept_args(fargs, xargs, m)[i]
                == #[trigger] kept_args(fargs, xargs, n)[i],
    decreases m,
{
    if n < m {
        lemma_kept_prefix(fargs, xargs, n, (m - 1) as nat);
        let a = kept_args(fargs, xargs, (m - 1) as nat);
        assert forall|i: int| 0 <= i < kept_args(fargs, xargs, n).len() implies kept_args(
            fargs,
            xargs,
            m,
        )[i] == #[trigger] kept_args(fargs, xargs, n)[i] by {
            assert(kept_args(fargs, xargs, m)[i] == a[i]);
        }
    }
}

/// The entries of the table of a merge for the first holes stay when more
/// holes follow.
pub proof fn lemma_merge_table_prefix(fargs: Seq<Term>, xargs: Seq<Term>, n: nat, m: nat)
    requires
        n <= m,
    ensures
        merge_table(fargs, xargs, n).len() == n,
        merge_table(fargs, xargs, m).len() == m,
        forall|i: int|
            0 <= i < n ==> merge_table(fargs, xargs, m)[i] == #[trigger] merge_table(
                fargs,
                xargs,
                n,
            )[i],
    decreases m,
{
    crate::applam::lemma_merge_table_len(fargs, xargs, n);
    crate::applam::lemma_merge_table_len(fargs, xargs, m);
    if n < m {
        lemma_merge_table_prefix(fargs, xargs, n, (m - 1) as nat);
        let a = merge_table(fargs, xargs, (m - 1) as nat);
        assert forall|i: int| 0 <= i < n implies merge_table(fargs, xargs, m)[i]
            == #[trigger] merge_table(fargs, xargs, n)[i] by {
            assert(merge_table(fargs, xargs, m)[i] == a[i]);
        }
    }
}

/// The table of a merge moves each hole of the right side to a hole of the
/// merged applam that has the same argument.
pub proof fn lemma_merge_table_fits(fargs: Seq<Term>, xargs: Seq<Term>)
    ensures
        table_fits(
            merge_table(fargs, xargs, xargs.len()),
            xargs,
            fargs + kept_args(fargs, xargs, xargs.len()),
        ),
{
    let n = xargs.len();
    let tb = merge_table(fargs, xargs, n);
    let kept = kept_args(fargs, xargs, n);
    let all = fargs + kept;
    crate::applam::lemma_merge_table_len(fargs, xargs, n);
    assert forall|j: int| 0 <= j < n implies 0 <= j + #[trigger] tb[j] < all.len() && all[j
        + tb[j]] == xargs[j] by {
        lemma_merge_table_prefix(fargs, xargs, (j + 1) as nat, n);
        let tj = merge_table(fargs, xargs, (j + 1) as nat);
        assert(tb[j] == tj[j]);
        lemma_kept_prefix(fargs, xargs, (j + 1) as nat, n);
        match position(fargs, xargs[j], fargs.len()) {
            Some(i) => {
                lemma_position_found(fargs, xargs[j], fargs.len());
                assert(tj[j] == i - j);
                assert(all[i] == fargs[i]);
            },
            None => {
                let before = kept_args(fargs, xargs, j as nat);
                let upto = kept_args(fargs, xargs, (j + 1) as nat);
                assert(upto == before.push(xargs[j]));
                assert(tj[j] == fargs.len() + before.len() - j);
                assert(upto[before.len() as int] == xargs[j]);
                assert(kept[before.len() as int] == upto[before.len() as int]);
                assert(all[(fargs.len() + before.len()) as int] == kept[before.len() as int]);
            },
        }
    }
}

/// The identity applam of a term stands for the term.
pub proof fn lemma_identity_stands(t: Term)
    requires
        in_range(t),
    ensures
        stands_for(identity_applam(t), t),
{
    lemma_shift_zero(t, 0);
}

/// The terms that are shifted down are the terms, each shifted down.
pub proof fn lemma_shift_all(args: Seq<Term>, n: nat)
    requires
        n <= args.len(),
        shift_all(args, n) is Some,
    ensures
        shift_all(args, n).unwrap().len() == n,
        forall|k: int|
            0 <= k < n ==> shift_down(#[trigger] args[k]) == Some(shift_all(args, n).unwrap()[k]),
    decreases n,
{
    if n > 0 {
        lemma_shift_all(args, (n - 1) as nat);
    }
}

/// The combinations of applams have a property that every combination of
/// two of them has.
pub proof fn lemma_merge_rows_have(
    fas: Seq<SpecAppLam>,
    xas: Seq<SpecAppLam>,
    m: nat,
    limit: nat,
    p: spec_fn(SpecAppLam) -> bool,
)
    requires
        m <= fas.len(),
        forall|i: int, j: int|
            0 <= i < fas.len() && 0 <= j < xas.len() && (#[trigger] merge_one(
                fas[i],
                xas[j],
                limit,
            )) is Some ==> p(merge_one(fas[i], xas[j], limit).unwrap()),
    ensures
        forall|i: int|
            0 <= i < merge_rows(fas, xas, m, limit).len() ==> p(
                #[trigger] merge_rows(fas, xas, m, limit)[i],
            ),
    decreases m,
{
    if m > 0 {
        lemma_merge_rows_have(fas, xas, (m - 1) as nat, limit, p);
        let fa = fas[m - 1];
        let c = Seq::new(xas.len(), |j: int| merge_one(fa, xas[j], limit));
        assert forall|j: int| 0 <= j < c.len() && (#[trigger] c[j]) is Some implies p(
            c[j].unwrap(),
        ) by {
            assert(merge_one(fas[m - 1], xas[j], limit) is Some);
        }
        lemma_keep_some_all(c, xas.len(), p);
        let prev = merge_rows(fas, xas, (m - 1) as nat, limit);
        let row = merge_row(fa, xas, xas.len(), limit);
        let cur = merge_rows(fas, xas, m, limit);
        assert forall|i: int| 0 <= i < cur.len() implies p(#[trigger] cur[i]) by {
            if i < prev.len() {
                assert(cur[i] == prev[i]);
            } else {
                assert(cur[i] == row[i - prev.len()]);
            }
        }
    }
}

/// The applam that combines two applams stands for the application of what
/// they stand for.
pub proof fn lemma_merge_stands(fa: SpecAppLam, xa: SpecAppLam, limit: nat, f: Term, x: Term)
    requires
        stands_for(fa, f),
        stands_for(xa, x),
        merge_one(fa, xa, limit) is Some,
    ensures
        stands_for(merge_one(fa, xa, limit).unwrap(), Term::App(Box::new(f), Box::new(x))),
{
    let kept = kept_args(fa.args, xa.args, xa.args.len());
    let tb = merge_table(fa.args, xa.args, xa.args.len());
    let all = fa.args + kept;
    lemma_merge_table_fits(fa.args, xa.args);
    lemma_fill_table(xa.inv.body, tb, xa.args, all, 0, 0);
    lemma_fill_extend(fa.inv.body, fa.args, kept, 0);
}

/// The applam of a lambda that an applam of its body gives stands for the
/// lambda.
pub proof fn lemma_lam_stands(ba: SpecAppLam, b: Term)
    requires
        stands_for(ba, b),
        lam_one(ba) is Some,
    ensures
        stands_for(lam_one(ba).unwrap(), Term::Lam(Box::new(b))),
{
    let down = shift_all(ba.args, ba.args.len()).unwrap();
    lemma_shift_all(ba.args, ba.args.len());
    lemma_fill_shifted(ba.inv.body, ba.args, down, 0);
}

/// The applams of a term stand for the term where those that are kept for
/// its children stand for the children.
pub proof fn lemma_applams_for_stand(s: Tables, t: Term, limit: nat)
    requires
        in_range(t),
        match t {
            Term::App(f, x) => all_stand_for(applams_at(s, *f), *f) && all_stand_for(
                applams_at(s, *x),
                *x,
            ) && free_ivars(*f) =~= Set::<nat>::empty() && free_ivars(*x) =~= Set::<nat>::empty(),
            Term::Lam(b) => all_stand_for(applams_at(s, *b), *b),
            _ => true,
        },
    ensures
        all_stand_for(applams_for(s, t, limit), t),
{
    lemma_identity_stands(t);
    let v = applams_for(s, t, limit);
    let q = |a: SpecAppLam| stands_for(a, t);
    match t {
        Term::App(f, x) => {
            let fa = applams_at(s, *f);
            let xa = applams_at(s, *x);
            let lc = Seq::new(fa.len(), |i: int| left_one(fa[i], *x));
            assert forall|i: int| 0 <= i < lc.len() && (#[trigger] lc[i]) is Some implies q(
                lc[i].unwrap(),
            ) by {
                assert(stands_for(fa[i], *f));
                lemma_fill_no_holes(*x, fa[i].args, 0);
            }
            lemma_keep_some_all(lc, fa.len(), q);
            let rc = Seq::new(xa.len(), |i: int| right_one(*f, xa[i]));
            assert forall|i: int| 0 <= i < rc.len() && (#[trigger] rc[i]) is Some implies q(
                rc[i].unwrap(),
            ) by {
                assert(stands_for(xa[i], *x));
                lemma_fill_no_holes(*f, xa[i].args, 0);
            }
            lemma_keep_some_all(rc, xa.len(), q);
            assert forall|i: int, j: int|
                0 <= i < fa.len() && 0 <= j < xa.len() && (#[trigger] merge_one(
                    fa[i],
                    xa[j],
                    limit,
                )) is Some implies q(merge_one(fa[i], xa[j], limit).unwrap()) by {
                assert(stands_for(fa[i], *f));
                assert(stands_for(xa[j], *x));
                lemma_merge_stands(fa[i], xa[j], limit, *f, *x);
            }
            lemma_merge_rows_have(fa, xa, fa.len(), limit, q);
            let l = left_bubble(fa, *x, fa.len());
            let r = right_bubble(*f, xa, xa.len());
            let m = merge_rows(fa, xa, fa.len(), limit);
            assert forall|i: int| 0 <= i < v.len() implies stands_for(#[trigger] v[i], t) by {
                if i == 0 {
                } else if i < 1 + l.len() {
                    assert(v[i] == l[i - 1]);
                    assert(q(l[i - 1]));
                } else if i < 1 + l.len() + r.len() {
                    assert(v[i] == r[i - 1 - l.len()]);
                    assert(q(r[i - 1 - l.len()]));
                } else {
                    assert(v[i] == m[i - 1 - l.len() - r.len()]);
                    assert(q(m[i - 1 - l.len() - r.len()]));
                }
            }
        },
        Term::Lam(b) => {
            let ba = applams_at(s, *b);
            let c = Seq::new(ba.len(), |i: int| lam_one(ba[i]));
            assert forall|i: int| 0 <= i < c.len() && (#[trigger] c[i]) is Some implies q(
                c[i].unwrap(),
            ) by {
                assert(stands_for(ba[i], *b));
                lemma_lam_stands(ba[i], *b);
            }
            lemma_keep_some_all(c, ba.len(), q);
            let l = lam_bubble(ba, ba.len());
            assert forall|i: int| 0 <= i < v.len() implies stands_for(#[trigger] v[i], t) by {
                if i > 0 {
                    assert(v[i] == l[i - 1]);
                    assert(q(l[i - 1]));
                }
            }
        },
        _ => {},
    }
}

/// Whether every term of the list has indices in range and no hole.
pub open spec fn all_plain(ts: Seq<Term>) -> bool {
    forall|k: int|
        0 <= k < ts.len() ==> in_range(#[trigger] ts[k]) && free_ivars(ts[k]) =~= Set::<
            nat,
        >::empty()
}

/// Whether something is kept for each of the first `n` terms, and its
/// applams stand for the term.
pub open spec fn visited_standing(s: Tables, ts: Seq<Term>, n: nat) -> bool {
    forall|j: int|
        0 <= j < n ==> s.contains_key(#[trigger] ts[j]) && all_stand_for(s[ts[j]].applams, ts[j])
}

/// After a pass over terms without holes that stand after their children,
/// the applams of every term that was visited stand for the term.
pub proof fn lemma_visit_all_stands(ts: Seq<Term>, n: nat, limit: nat)
    requires
        n <= ts.len(),
        children_first(ts),
        all_plain(ts),
    ensures
        visited_standing(visit_all(ts, n, limit), ts, n),
    decreases n,
{
    let bound = size_bound(limit);
    if n > 0 {
        lemma_visit_all_stands(ts, (n - 1) as nat, limit);
        lemma_visit_all(ts, (n - 1) as nat, limit);
        let s = visit_all(ts, (n - 1) as nat, limit);
        let t = ts[n - 1];
        let applams = applams_for(s, t, limit);
        assert(children_before(ts, n - 1));
        match t {
            Term::App(f, x) => {
                let i = choose|i: int| 0 <= i < n - 1 && i < ts.len() && ts[i] == *f;
                assert(s.contains_key(ts[i]));
                let j = choose|j: int| 0 <= j < n - 1 && j < ts.len() && ts[j] == *x;
                assert(s.contains_key(ts[j]));
            },
            Term::Lam(b) => {
                let i = choose|i: int| 0 <= i < n - 1 && i < ts.len() && ts[i] == *b;
                assert(s.contains_key(ts[i]));
            },
            _ => {},
        }
        lemma_applams_for_stand(s, t, limit);
        let s1 = match t {
            Term::Lam(b) => {
                let pending = pending_args(applams_at(s, *b), applams_at(s, *b).len());
                duplicate_top(s, pending, pending.len())
            },
            _ => s,
        };
        match t {
            Term::Lam(b) => {
                let pending = pending_args(applams_at(s, *b), applams_at(s, *b).len());
                lemma_duplicate_top(s, pending, pending.len(), bound);
            },
            _ => {},
        }
        let s2 = visit_all(ts, n, limit);
        assert(s2 == s1.insert(t, SpecEntry { applams, best: best_for(s1, t, applams) }));
        assert forall|j: int| 0 <= j < n implies s2.contains_key(#[trigger] ts[j])
            && all_stand_for(s2[ts[j]].applams, ts[j]) by {
            if ts[j] != t {
                assert(s.contains_key(ts[j]));
                assert(s1.contains_key(ts[j]));
            }
        }
    }
}

/// Whether every term of the list has indices in range.
pub open spec fn all_in_range(ts: Seq<Term>) -> bool {
    forall|k: int| 0 <= k < ts.len() ==> in_range(#[trigger] ts[k])
}

/// The subterms of a term with indices in range, added to a list of such
/// terms, have indices in range.
pub proof fn lemma_post_order_in_range(t: Term, acc: Seq<Term>)
    requires
        in_range(t),
        all_in_range(acc),
    ensures
        all_in_range(post_order(t, acc)),
    decreases t, 0nat,
{
    if !acc.contains(t) {
        let a = match t {
            Term::App(f, x) => post_order(*x, post_order(*f, acc)),
            Term::Lam(b) => post_order(*b, acc),
            Term::Programs(ps) => post_order_all(ps, ps.len(), acc),
            _ => acc,
        };
        match t {
            Term::App(f, x) => {
                lemma_post_order_in_range(*f, acc);
                lemma_post_order_in_range(*x, post_order(*f, acc));
            },
            Term::Lam(b) => {
                lemma_post_order_in_range(*b, acc);
            },
            Term::Programs(ps) => {
                assert(all_in_range(ps));
                lemma_post_order_all_in_range(ps, ps.len(), acc);
            },
            _ => {},
        }
        assert(all_in_range(a));
        if !a.contains(t) {
            let r = a.push(t);
            assert forall|k: int| 0 <= k < r.len() implies in_range(#[trigger] r[k]) by {
                if k < a.len() {
                    assert(r[k] == a[k]);
                }
            }
        }
    }
}

/// The same for the subterms of the first `n` terms of a list.
pub proof fn lemma_post_order_all_in_range(ps: Seq<Term>, n: nat, acc: Seq<Term>)
    requires
        all_in_range(ps),
        all_in_range(acc),
    ensures
        all_in_range(post_order_all(ps, n, acc)),
    decreases ps, n,
{
    if n == 0 || n > ps.len() {
    } else {
        lemma_post_order_all_in_range(ps, (n - 1) as nat, acc);
        assert(in_range(ps[n - 1]));
        lemma_post_order_in_range(ps[n - 1], post_order_all(ps, (n - 1) as nat, acc));
    }
}

/// In a list in which every term stands after its children and none is a
/// hole, no term has a hole.
pub proof fn lemma_no_holes(ts: Seq<Term>, k: int)
    requires
        children_first(ts),
        !has_hole(ts),
        0 <= k < ts.len(),
    ensures
        free_ivars(ts[k]) =~= Set::<nat>::empty(),
    decreases k,
{
    assert(children_before(ts, k));
    assert(!(ts[k] is IVar));
    match ts[k] {
        Term::App(f, x) => {
            let i = choose|i: int| 0 <= i < k && i < ts.len() && ts[i] == *f;
            lemma_no_holes(ts, i);
            let j = choose|j: int| 0 <= j < k && j < ts.len() && ts[j] == *x;
            lemma_no_holes(ts, j);
        },
        Term::Lam(b) => {
            let i = choose|i: int| 0 <= i < k && i < ts.len() && ts[i] == *b;
            lemma_no_holes(ts, i);
        },
        _ => {},
    }
}

/// In what a pass over a corpus without holes keeps, every applam of a
/// subterm of the corpus stands for the subterm: its body, with each hole
/// filled by the argument of the hole, is the subterm.
pub proof fn lemma_pass_stands(t: Term, max_arity: nat, j: int, i: int)
    requires
        in_range(t),
        !has_hole(post_order(t, Seq::empty())),
        0 <= j < post_order(t, Seq::empty()).len(),
        0 <= i < applams_at(pass_tables(t, max_arity), post_order(t, Seq::empty())[j]).len(),
    ensures
        stands_for(
            applams_at(pass_tables(t, max_arity), post_order(t, Seq::empty())[j])[i],
            post_order(t, Seq::empty())[j],
        ),
{
    let order = post_order(t, Seq::empty());
    lemma_post_order(t, Seq::empty());
    lemma_post_order_in_range(t, Seq::empty());
    assert forall|k: int| 0 <= k < order.len() implies in_range(#[trigger] order[k]) && free_ivars(
        order[k],
    ) =~= Set::<nat>::empty() by {
        assert(all_in_range(order));
        lemma_no_holes(order, k);
    }
    lemma_visit_all_stands(order, order.len(), arity_cap(max_arity));
    let s = pass_tables(t, max_arity);
    assert(s.contains_key(order[j]));
}

} // verus!
