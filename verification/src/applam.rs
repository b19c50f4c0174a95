//! Inventions and applams over the places of a store, and the steps that
//! make the applams of a node from those of its children.
use vstd::prelude::*;
use crate::term::{Term, ShiftSpec};
use crate::expr::{
    Id, Lambda, Node, ids_below, is_prefix, term_at, terms_of, node_term, copy_ids,
    lemma_node_term, lemma_term_at_prefix, lemma_term_at_injective, lemma_prefix_trans,
};
use crate::store::{Dag, refs_contain};
use crate::shift::{Shift, CacheGenerator, shift, table_view, lemma_caches_prefix};
use crate::model::{
    SpecInvention, SpecAppLam, candidate, left_one, right_one, position, kept_args, merge_table,
    merge_one, shift_down, shift_all, some_uses_binder, lam_one,
};

verus! {

/// A body with holes, by its place in the store, and the number of holes.
#[derive(Debug, Clone, Copy, PartialEq, Eq, Hash, Structural)]
pub struct Invention {
    pub body: Id,
    pub arity: usize,
}

/// An invention with one argument for each hole; the arguments are places of
/// the store.
#[derive(Debug, Clone, PartialEq, Eq, Hash)]
pub struct AppLam {
    pub inv: Invention,
    pub args: Vec<Id>,
}

/// The invention over terms that an invention over places stands for.
pub open spec fn inv_view(nodes: Seq<Node>, inv: Invention) -> SpecInvention {
    SpecInvention { body: term_at(nodes, inv.body as int), arity: inv.arity as nat }
}

/// Whether the applam speaks of places of the table, and has one argument
/// for each hole.
pub open spec fn applam_ok(nodes: Seq<Node>, a: AppLam) -> bool {
    &&& a.inv.body < nodes.len()
    &&& a.inv.arity == a.args@.len()
    &&& a.args@.len() <= i32::MAX
    &&& ids_below(a.args@, nodes.len() as int)
}

/// The applam over terms that an applam over places stands for.
pub open spec fn applam_view(nodes: Seq<Node>, a: AppLam) -> SpecAppLam {
    SpecAppLam { inv: inv_view(nodes, a.inv), args: terms_of(nodes, a.args@) }
}

/// Whether all applams of a list speak of places of the table.
pub open spec fn applams_ok(nodes: Seq<Node>, v: Seq<AppLam>) -> bool {
    forall|i: int| 0 <= i < v.len() ==> applam_ok(nodes, #[trigger] v[i])
}

/// The applams over terms that a list of applams stands for.
pub open spec fn applams_view(nodes: Seq<Node>, v: Seq<AppLam>) -> Seq<SpecAppLam> {
    Seq::new(v.len(), |i: int| applam_view(nodes, v[i]))
}

/// Whether `r` is the applam `want`, or nothing where `want` is nothing.
pub open spec fn produced(nodes: Seq<Node>, r: Option<AppLam>, want: Option<SpecAppLam>) -> bool {
    match want {
        Some(a) => r is Some && applam_ok(nodes, r.unwrap()) && applam_view(nodes, r.unwrap())
            == a,
        None => r is None,
    }
}

/// The terms at places of a table stay when the table grows.
pub proof fn lemma_terms_of_prefix(a: Seq<Node>, b: Seq<Node>, ids: Seq<usize>)
    requires
        is_prefix(a, b),
        ids_below(ids, a.len() as int),
    ensures
        terms_of(b, ids) == terms_of(a, ids),
        ids_below(ids, b.len() as int),
{
    assert forall|k: int| 0 <= k < ids.len() implies terms_of(b, ids)[k] == terms_of(a, ids)[k] by {
        lemma_term_at_prefix(a, b, ids[k] as int);
    }
    assert(terms_of(b, ids) =~= terms_of(a, ids));
}

/// An applam stands for the same when the table grows.
pub proof fn lemma_applam_prefix(a: Seq<Node>, b: Seq<Node>, ap: AppLam)
    requires
        is_prefix(a, b),
        applam_ok(a, ap),
    ensures
        applam_ok(b, ap),
        applam_view(b, ap) == applam_view(a, ap),
{
    lemma_terms_of_prefix(a, b, ap.args@);
    lemma_term_at_prefix(a, b, ap.inv.body as int);
}

/// A list of applams stands for the same when the table grows.
pub proof fn lemma_applams_prefix(a: Seq<Node>, b: Seq<Node>, v: Seq<AppLam>)
    requires
        is_prefix(a, b),
        applams_ok(a, v),
    ensures
        applams_ok(b, v),
        applams_view(b, v) == applams_view(a, v),
{
    assert forall|i: int| 0 <= i < v.len() implies applam_ok(b, #[trigger] v[i]) && applam_view(
        b,
        v[i],
    ) == applam_view(a, v[i]) by {
        lemma_applam_prefix(a, b, v[i]);
    }
    assert(applams_view(b, v) =~= applams_view(a, v));
}

/// A place that is found among the first places is the place that is found.
pub proof fn lemma_position_stays(s: Seq<Term>, t: Term, n: nat, m: nat)
    requires
        n <= m,
        position(s, t, n) is Some,
    ensures
        position(s, t, m) == position(s, t, n),
    decreases m,
{
    if n < m {
        lemma_position_stays(s, t, n, (m - 1) as nat);
    }
}

/// A place that is found holds the term, and is one of the places looked at.
pub proof fn lemma_position_found(s: Seq<Term>, t: Term, n: nat)
    requires
        position(s, t, n) is Some,
    ensures
        0 <= position(s, t, n).unwrap() < n,
        s[position(s, t, n).unwrap()] == t,
    decreases n,
{
    if n > 0 && position(s, t, (n - 1) as nat) is Some {
        lemma_position_found(s, t, (n - 1) as nat);
    }
}

/// The arguments that are kept are no more than those looked at, and grow
/// with them.
pub proof fn lemma_kept_args_len(fargs: Seq<Term>, xargs: Seq<Term>, n: nat, m: nat)
    requires
        n <= m,
    ensures
        kept_args(fargs, xargs, n).len() <= kept_args(fargs, xargs, m).len(),
        kept_args(fargs, xargs, m).len() <= m,
    decreases m,
{
    if m > 0 {
        if n < m {
            lemma_kept_args_len(fargs, xargs, n, (m - 1) as nat);
        } else {
            lemma_kept_args_len(fargs, xargs, (m - 1) as nat, (m - 1) as nat);
        }
    }
}

/// The table of a merge has one entry for each hole looked at.
pub proof fn lemma_merge_table_len(fargs: Seq<Term>, xargs: Seq<Term>, n: nat)
    ensures
        merge_table(fargs, xargs, n).len() == n,
    decreases n,
{
    if n > 0 {
        lemma_merge_table_len(fargs, xargs, (n - 1) as nat);
    }
}

/// Appends the places of `from` to `into`.
pub fn append_ids(into: &mut Vec<Id>, from: &Vec<Id>)
    ensures
        final(into)@ == old(into)@ + from@,
{
    let mut k: usize = 0;
    while k < from.len()
        invariant
            k <= from@.len(),
            into@ == old(into)@ + from@.subrange(0, k as int),
        decreases from@.len() - k,
    {
        into.push(from[k]);
        k += 1;
        assert(into@ =~= old(into)@ + from@.subrange(0, k as int));
    }
    assert(from@.subrange(0, k as int) =~= from@);
}

/// The first place of `v` whose term is the term at `x`.
pub fn find_term(store: &Dag, v: &Vec<Id>, x: Id) -> (r: Option<usize>)
    requires
        store.wf(),
        ids_below(v@, store.size()),
        x < store@.len(),
    ensures
        match r {
            Some(i) => position(terms_of(store@, v@), store.term(x as int), v@.len()) == Some(
                i as int,
            ) && i < v@.len(),
            None => position(terms_of(store@, v@), store.term(x as int), v@.len()) is None,
        },
{
    let ghost ts = terms_of(store@, v@);
    let ghost t = store.term(x as int);
    let mut i: usize = 0;
    while i < v.len()
        invariant
            i <= v@.len(),
            store.wf(),
            ids_below(v@, store.size()),
            x < store@.len(),
            ts == terms_of(store@, v@),
            t == store.term(x as int),
            position(ts, t, i as nat) is None,
        decreases v@.len() - i,
    {
        if v[i] == x {
            assert(ts[i as int] == t);
            assert(position(ts, t, (i + 1) as nat) == Some(i as int));
            proof {
                lemma_position_stays(ts, t, (i + 1) as nat, v@.len());
            }
            return Some(i);
        }
        proof {
            if ts[i as int] == t {
                lemma_term_at_injective(store@, v@[i as int] as int, x as int);
            }
        }
        i += 1;
    }
    None
}

impl AppLam {
    /// The applam of a body and its arguments.
    pub fn new(body: Id, args: Vec<Id>) -> (r: AppLam)
        ensures
            r.inv.body == body,
            r.inv.arity == args@.len(),
            r.args == args,
    {
        AppLam { inv: Invention { body, arity: args.len() }, args }
    }

    /// A copy of the applam.
    pub fn copy(&self) -> (r: AppLam)
        ensures
            r.inv == self.inv,
            r.args@ == self.args@,
    {
        AppLam { inv: self.inv, args: copy_ids(&self.args) }
    }
}

/// The applam of a body and its arguments, once the body is added to the
/// store; nothing where the store cannot hold the body.
pub fn make_candidate(body: Lambda, args: Vec<Id>, store: &mut Dag) -> (r: Option<AppLam>)
    requires
        old(store).wf(),
        crate::expr::node_ok(body@, old(store).size()),
        !(body@ is Programs),
        ids_below(args@, old(store).size()),
        args@.len() <= i32::MAX,
    ensures
        final(store).wf(),
        final(store).extends(old(store)),
        produced(
            final(store)@,
            r,
            candidate(node_term(old(store)@, body@), terms_of(old(store)@, args@)),
        ),
{
    let ghost s0 = store@;
    match store.try_add(body) {
        Err(_) => None,
        Ok(id) => {
            proof {
                lemma_terms_of_prefix(s0, store@, args@);
            }
            Some(AppLam::new(id, args))
        },
    }
}

/// What an applam of the function of an application gives for the
/// application: the argument `x` is put into its body.
pub fn bubble_left(f_applam: &AppLam, x: Id, store: &mut Dag) -> (r: Option<AppLam>)
    requires
        old(store).wf(),
        applam_ok(old(store)@, *f_applam),
        x < old(store)@.len(),
    ensures
        final(store).wf(),
        final(store).extends(old(store)),
        produced(
            final(store)@,
            r,
            left_one(applam_view(old(store)@, *f_applam), old(store).term(x as int)),
        ),
{
    let body = Lambda::App(f_applam.inv.body, x);
    proof {
        lemma_node_term(store@, body@);
    }
    make_candidate(body, copy_ids(&f_applam.args), store)
}

/// What an applam of the argument of an application gives for the
/// application: the function `f` is put into its body.
pub fn bubble_right(f: Id, x_applam: &AppLam, store: &mut Dag) -> (r: Option<AppLam>)
    requires
        old(store).wf(),
        applam_ok(old(store)@, *x_applam),
        f < old(store)@.len(),
    ensures
        final(store).wf(),
        final(store).extends(old(store)),
        produced(
            final(store)@,
            r,
            right_one(old(store).term(f as int), applam_view(old(store)@, *x_applam)),
        ),
{
    let body = Lambda::App(f, x_applam.inv.body);
    proof {
        lemma_node_term(store@, body@);
    }
    make_candidate(body, copy_ids(&x_applam.args), store)
}

/// The arguments of the right side that the left side lacks, in order.
pub fn kept_of(f_args: &Vec<Id>, x_args: &Vec<Id>, store: &Dag) -> (kept: Vec<Id>)
    requires
        store.wf(),
        ids_below(f_args@, store.size()),
        ids_below(x_args@, store.size()),
    ensures
        ids_below(kept@, store.size()),
        terms_of(store@, kept@) == kept_args(
            terms_of(store@, f_args@),
            terms_of(store@, x_args@),
            x_args@.len(),
        ),
{
    let ghost ft = terms_of(store@, f_args@);
    let ghost xt = terms_of(store@, x_args@);
    let mut kept: Vec<Id> = Vec::new();
    let mut j: usize = 0;
    assert(terms_of(store@, kept@) =~= kept_args(ft, xt, 0));
    while j < x_args.len()
        invariant
            j <= x_args@.len(),
            store.wf(),
            ids_below(f_args@, store.size()),
            ids_below(x_args@, store.size()),
            ids_below(kept@, store.size()),
            ft == terms_of(store@, f_args@),
            xt == terms_of(store@, x_args@),
            terms_of(store@, kept@) == kept_args(ft, xt, j as nat),
        decreases x_args@.len() - j,
    {
        let found = find_term(store, f_args, x_args[j]);
        assert(xt[j as int] == store.term(x_args@[j as int] as int));
        if found.is_none() {
            let ghost before = kept@;
            kept.push(x_args[j]);
            assert(terms_of(store@, kept@) =~= terms_of(store@, before).push(xt[j as int]));
        }
        j += 1;
    }
    kept
}

/// By how much each hole of the right side moves in a merge.
pub fn table_of(f_args: &Vec<Id>, x_args: &Vec<Id>, store: &Dag) -> (table: Vec<i32>)
    requires
        store.wf(),
        ids_below(f_args@, store.size()),
        ids_below(x_args@, store.size()),
        x_args@.len() <= i32::MAX,
        f_args@.len() + kept_args(
            terms_of(store@, f_args@),
            terms_of(store@, x_args@),
            x_args@.len(),
        ).len() <= i32::MAX,
    ensures
        table_view(table@) == merge_table(
            terms_of(store@, f_args@),
            terms_of(store@, x_args@),
            x_args@.len(),
        ),
{
    let ghost ft = terms_of(store@, f_args@);
    let ghost xt = terms_of(store@, x_args@);
    let mut table: Vec<i32> = Vec::new();
    let mut slot: usize = f_args.len();
    let mut j: usize = 0;
    assert(table_view(table@) =~= merge_table(ft, xt, 0));
    while j < x_args.len()
        invariant
            j <= x_args@.len(),
            store.wf(),
            ids_below(f_args@, store.size()),
            ids_below(x_args@, store.size()),
            x_args@.len() <= i32::MAX,
            f_args@.len() + kept_args(ft, xt, x_args@.len()).len() <= i32::MAX,
            ft == terms_of(store@, f_args@),
            xt == terms_of(store@, x_args@),
            slot == f_args@.len() + kept_args(ft, xt, j as nat).len(),
            table_view(table@) == merge_table(ft, xt, j as nat),
        decreases x_args@.len() - j,
    {
        let found = find_term(store, f_args, x_args[j]);
        assert(xt[j as int] == store.term(x_args@[j as int] as int));
        let ghost before = table@;
        proof {
            lemma_kept_args_len(ft, xt, (j + 1) as nat, x_args@.len());
        }
        match found {
            Some(i) => {
                proof {
                    lemma_position_found(ft, xt[j as int], ft.len());
                }
                let entry: i32 = (i as i64 - j as i64) as i32;
                table.push(entry);
                assert(table_view(table@) =~= table_view(before).push(i - j));
            },
            None => {
                let entry: i32 = (slot as i64 - j as i64) as i32;
                table.push(entry);
                assert(table_view(table@) =~= table_view(before).push(slot - j));
                slot += 1;
            },
        }
        j += 1;
    }
    table
}

/// The applam of an application that combines an applam of its function with
/// one of its argument: arguments that both have fill one hole. Nothing where
/// the result would have more than `limit` holes.
pub fn merge(
    f_applam: &AppLam,
    x_applam: &AppLam,
    limit: usize,
    store: &mut Dag,
    caches: &mut CacheGenerator,
) -> (r: Option<AppLam>)
    requires
        old(store).wf(),
        applam_ok(old(store)@, *f_applam),
        applam_ok(old(store)@, *x_applam),
        limit <= i32::MAX,
        old(caches).wf(old(store)@),
    ensures
        final(store).wf(),
        final(store).extends(old(store)),
        final(caches).wf(final(store)@),
        final(caches).enabled == old(caches).enabled,
        produced(
            final(store)@,
            r,
            merge_one(
                applam_view(old(store)@, *f_applam),
                applam_view(old(store)@, *x_applam),
                limit as nat,
            ),
        ),
{
    let ghost s0 = store@;
    let ghost fa = applam_view(s0, *f_applam);
    let ghost xa = applam_view(s0, *x_applam);
    let kept = kept_of(&f_applam.args, &x_applam.args, store);
    proof {
        lemma_kept_args_len(fa.args, xa.args, xa.args.len(), xa.args.len());
    }
    if f_applam.args.len() + kept.len() > limit {
        return None;
    }
    let table = table_of(&f_applam.args, &x_applam.args, store);
    let mode = Shift::TableShiftIVar(table);
    let shifted = shift(x_applam.inv.body, &mode, store, caches);
    match shifted {
        None => None,
        Some(bx) => {
            let ghost s1 = store@;
            let body = Lambda::App(f_applam.inv.body, bx);
            let mut args = copy_ids(&f_applam.args);
            append_ids(&mut args, &kept);
            proof {
                lemma_node_term(s1, body@);
                lemma_term_at_prefix(s0, s1, f_applam.inv.body as int);
                lemma_terms_of_prefix(s0, s1, f_applam.args@);
                lemma_terms_of_prefix(s0, s1, kept@);
                assert(terms_of(s1, args@) =~= fa.args + terms_of(s0, kept@));
                assert forall|k: int| 0 <= k < args@.len() implies #[trigger] args@[k] < s1.len() by {
                    if k < f_applam.args@.len() {
                        assert(args@[k] == f_applam.args@[k]);
                    } else {
                        assert(args@[k] == kept@[k - f_applam.args@.len()]);
                    }
                }
            }
            let r = make_candidate(body, args, store);
            proof {
                lemma_caches_prefix(s1, store@, caches);
            }
            r
        },
    }
}

/// Whether the term at one of the places has the free variable 0.
pub fn uses_binder(args: &Vec<Id>, store: &Dag) -> (r: bool)
    requires
        store.wf(),
        ids_below(args@, store.size()),
    ensures
        r == some_uses_binder(terms_of(store@, args@), args@.len()),
{
    let ghost ts = terms_of(store@, args@);
    let mut k: usize = 0;
    while k < args.len()
        invariant
            k <= args@.len(),
            store.wf(),
            ids_below(args@, store.size()),
            ts == terms_of(store@, args@),
            !some_uses_binder(ts, k as nat),
        decreases args@.len() - k,
    {
        let d = store.data_of(args[k]);
        assert(ts[k as int] == store.term(args@[k as int] as int));
        if refs_contain(&d.upward_refs, 0) {
            proof {
                lemma_uses_binder_stays(ts, (k + 1) as nat, args@.len());
            }
            return true;
        }
        k += 1;
    }
    false
}

/// A term among the first that uses the binder is among all.
pub proof fn lemma_uses_binder_stays(ts: Seq<Term>, n: nat, m: nat)
    requires
        n <= m,
        some_uses_binder(ts, n),
    ensures
        some_uses_binder(ts, m),
    decreases m,
{
    if n < m {
        lemma_uses_binder_stays(ts, n, (m - 1) as nat);
    }
}

/// Once one of the first terms cannot be shifted down, the terms cannot.
pub proof fn lemma_shift_all_fails(ts: Seq<Term>, n: nat, m: nat)
    requires
        n <= m,
        shift_all(ts, n) is None,
    ensures
        shift_all(ts, m) is None,
    decreases m,
{
    if n < m {
        lemma_shift_all_fails(ts, n, (m - 1) as nat);
    }
}

/// The places of the terms at `args`, each shifted down; nothing if one of
/// them cannot be.
pub fn shift_args(args: &Vec<Id>, store: &mut Dag, caches: &mut CacheGenerator) -> (r: Option<
    Vec<Id>,
>)
    requires
        old(store).wf(),
        ids_below(args@, old(store).size()),
        old(caches).wf(old(store)@),
    ensures
        final(store).wf(),
        final(store).extends(old(store)),
        final(caches).wf(final(store)@),
        final(caches).enabled == old(caches).enabled,
        match shift_all(terms_of(old(store)@, args@), args@.len()) {
            Some(ts) => r is Some && ids_below(r.unwrap()@, final(store).size()) && terms_of(
                final(store)@,
                r.unwrap()@,
            ) == ts && r.unwrap()@.len() == args@.len(),
            None => r is None,
        },
{
    let ghost s0 = store@;
    let ghost ts = terms_of(s0, args@);
    let mode = Shift::ShiftVar(-1);
    let mut out: Vec<Id> = Vec::new();
    let mut k: usize = 0;
    assert(terms_of(store@, out@) =~= Seq::<Term>::empty());
    while k < args.len()
        invariant
            k <= args@.len(),
            store.wf(),
            is_prefix(s0, store@),
            s0 == old(store)@,
            ids_below(args@, s0.len() as int),
            caches.wf(store@),
            caches.enabled == old(caches).enabled,
            ts == terms_of(s0, args@),
            mode@ == ShiftSpec::Var(-1),
            ids_below(out@, store.size()),
            out@.len() == k,
            shift_all(ts, k as nat) == Some(terms_of(store@, out@)),
        decreases args@.len() - k,
    {
        let ghost s1 = store@;
        let ghost before = out@;
        proof {
            lemma_term_at_prefix(s0, s1, args@[k as int] as int);
        }
        assert(ts[k as int] == term_at(s0, args@[k as int] as int));
        let shifted = shift(args[k], &mode, store, caches);
        proof {
            lemma_prefix_trans(s0, s1, store@);
        }
        match shifted {
            None => {
                proof {
                    assert(shift_down(ts[k as int]) is None);
                    assert(shift_all(ts, (k + 1) as nat) is None);
                    lemma_shift_all_fails(ts, (k + 1) as nat, args@.len());
                }
                return None;
            },
            Some(a) => {
                proof {
                    lemma_terms_of_prefix(s1, store@, before);
                }
                out.push(a);
                assert(terms_of(store@, out@) =~= terms_of(s1, before).push(
                    shift_down(ts[k as int]).unwrap(),
                ));
            },
        }
        k += 1;
    }
    Some(out)
}

/// What an applam of the body of a lambda gives for the lambda: nothing if
/// an argument uses the binder; else its body under the lambda, with the
/// arguments shifted down.
pub fn bubble_lam(b_applam: &AppLam, store: &mut Dag, caches: &mut CacheGenerator) -> (r: Option<
    AppLam,
>)
    requires
        old(store).wf(),
        applam_ok(old(store)@, *b_applam),
        old(caches).wf(old(store)@),
    ensures
        final(store).wf(),
        final(store).extends(old(store)),
        final(caches).wf(final(store)@),
        final(caches).enabled == old(caches).enabled,
        produced(final(store)@, r, lam_one(applam_view(old(store)@, *b_applam))),
{
    let ghost s0 = store@;
    if uses_binder(&b_applam.args, store) {
        return None;
    }
    match shift_args(&b_applam.args, store, caches) {
        None => None,
        Some(args) => {
            let body = Lambda::Lam(b_applam.inv.body);
            let ghost s1 = store@;
            proof {
                lemma_node_term(store@, body@);
                lemma_term_at_prefix(s0, store@, b_applam.inv.body as int);
            }
            let r = make_candidate(body, args, store);
            proof {
                lemma_caches_prefix(s1, store@, caches);
            }
            r
        },
    }
}

} // verus!
