//! The pass over the nodes of a corpus, children first: for each node its
//! applams and its best costs, kept by the place of the node.
use vstd::prelude::*;
use std::collections::HashMap;
use crate::term::{Term, ShiftSpec, cost, lemma_cost_nonneg};
use crate::expr::{
    Id, Lambda, Node, ids_below, is_prefix, nodes_ok, nodes_distinct, term_at, terms_of,
    lemma_term_at_prefix, lemma_term_at_injective, lemma_term_at_unfold, lemma_prefix_trans,
};
use crate::store::{Dag, lemma_refs_empty};
use crate::shift::{Shift, CacheGenerator, shift, lemma_caches_prefix};
use crate::applam::{
    Invention, AppLam, inv_view, applam_ok, applam_view, applams_ok, applams_view, bubble_left,
    bubble_right, bubble_lam, merge, shift_args, lemma_applam_prefix, lemma_applams_prefix,
    lemma_terms_of_prefix,
};
use crate::best::{
    BestInventions, best_ok, best_terms, entries_ok, entries_terms, entries_view,
    lemma_best_prefix, lemma_cost_under_terms, lemma_propose_terms, lemma_propagate_app_terms,
    lemma_propagate_lam_terms,
};
use crate::model::{
    SpecInvention, SpecAppLam, SpecEntry, Tables, identity_applam, keep_some, left_one, right_one,
    left_bubble, right_bubble, merge_one, merge_row, merge_rows, lam_one, lam_bubble, applams_at,
    best_at, applams_for, copy_one, copy_applams, shift_down, duplicate, duplicate_applams,
    duplicate_args, duplicate_top, pending_args, nonneg, visit, visit_all, arity_cap, best_for,
    self_use, use_cost, args_cost, usable, cost_under, has_inv, propagate_root, propagate_programs,
    roots_with, roots_cost, lemma_cost_under_nonneg,
};

verus! {

broadcast use vstd::std_specs::hash::group_hash_axioms;

/// What the pass keeps: for the place of a node, its applams and its best
/// costs.
#[derive(Debug)]
pub struct InversionResult {
    pub applams_of_treenode: HashMap<Id, Vec<AppLam>>,
    pub best_inventions_of_treenode: HashMap<Id, BestInventions>,
}

/// Whether what is kept for a node speaks of places of the table of nodes,
/// and its costs are in order.
pub open spec fn entry_ok(nodes: Seq<Node>, a: Vec<AppLam>, b: BestInventions) -> bool {
    applams_ok(nodes, a@) && best_ok(nodes, b@) && b.wf() && nonneg(b@)
}

/// What is kept for a node, over terms.
pub open spec fn entry_view(nodes: Seq<Node>, a: Vec<AppLam>, b: BestInventions) -> SpecEntry {
    SpecEntry { applams: applams_view(nodes, a@), best: best_terms(nodes, b@) }
}

impl InversionResult {
    /// Whether something is kept for the place.
    pub open spec fn has(&self, id: usize) -> bool {
        self.applams_of_treenode@.contains_key(id)
    }

    /// What is kept for the place, over terms.
    pub open spec fn entry(&self, nodes: Seq<Node>, id: usize) -> SpecEntry {
        entry_view(nodes, self.applams_of_treenode@[id], self.best_inventions_of_treenode@[id])
    }

    /// Whether what is kept, by place, is what `s` keeps, by term.
    #[verifier::opaque]
    pub open spec fn matches(&self, nodes: Seq<Node>, s: Tables) -> bool {
        &&& forall|id: usize| #[trigger]
            self.has(id) ==> self.best_inventions_of_treenode@.contains_key(id)
        &&& forall|id: usize| #[trigger]
            self.best_inventions_of_treenode@.contains_key(id) ==> self.has(id)
        &&& forall|id: usize| #[trigger]
            self.has(id) ==> {
                &&& id < nodes.len()
                &&& entry_ok(
                    nodes,
                    self.applams_of_treenode@[id],
                    self.best_inventions_of_treenode@[id],
                )
                &&& self.best_inventions_of_treenode@[id].inventionless_cost == cost(
                    term_at(nodes, id as int),
                )
                &&& s.contains_key(term_at(nodes, id as int))
                &&& s[term_at(nodes, id as int)] == self.entry(nodes, id)
            }
        &&& forall|t: Term| #[trigger]
            s.contains_key(t) ==> exists|id: usize| self.has(id) && term_at(nodes, id as int) == t
    }

    /// What is kept, by term.
    pub open spec fn tables(&self, nodes: Seq<Node>) -> Tables {
        Map::new(
            |t: Term| exists|id: usize| self.has(id) && term_at(nodes, id as int) == t,
            |t: Term|
                self.entry(
                    nodes,
                    choose|id: usize| self.has(id) && term_at(nodes, id as int) == t,
                ),
        )
    }

    /// Whether what is kept speaks of places of the table of nodes, and
    /// keeps one thing for one term.
    pub open spec fn wf(&self, nodes: Seq<Node>) -> bool {
        self.matches(nodes, self.tables(nodes))
    }

    /// Nothing kept.
    pub fn new() -> (r: InversionResult)
        ensures
            forall|nodes: Seq<Node>| r.matches(nodes, Map::empty()),
    {
        let r = InversionResult {
            applams_of_treenode: HashMap::new(),
            best_inventions_of_treenode: HashMap::new(),
        };
        proof {
            reveal(InversionResult::matches);
            assert forall|nodes: Seq<Node>| r.matches(nodes, Map::empty()) by {}
        }
        r
    }

    /// Whether something is kept for the place.
    pub fn contains(&self, id: Id) -> (r: bool)
        ensures
            r == self.has(id),
    {
        self.applams_of_treenode.contains_key(&id)
    }

    /// Keeps applams and best costs for a place, in place of what was kept
    /// for it.
    pub fn insert(
        &mut self,
        id: Id,
        applams: Vec<AppLam>,
        best: BestInventions,
        Ghost(nodes): Ghost<Seq<Node>>,
        Ghost(s): Ghost<Tables>,
    )
        requires
            old(self).matches(nodes, s),
            nodes_ok(nodes),
            nodes_distinct(nodes),
            id < nodes.len(),
            entry_ok(nodes, applams, best),
            best.inventionless_cost == cost(term_at(nodes, id as int)),
        ensures
            final(self).matches(
                nodes,
                s.insert(term_at(nodes, id as int), entry_view(nodes, applams, best)),
            ),
    {
        let ghost t = term_at(nodes, id as int);
        let ghost e = entry_view(nodes, applams, best);
        proof {
            reveal(InversionResult::matches);
        }
        self.applams_of_treenode.insert(id, applams);
        self.best_inventions_of_treenode.insert(id, best);
        proof {
            let s2 = s.insert(t, e);
            assert forall|i: usize| #[trigger] self.has(i) implies {
                &&& i < nodes.len()
                &&& entry_ok(
                    nodes,
                    self.applams_of_treenode@[i],
                    self.best_inventions_of_treenode@[i],
                )
                &&& self.best_inventions_of_treenode@[i].inventionless_cost == cost(
                    term_at(nodes, i as int),
                )
                &&& s2.contains_key(term_at(nodes, i as int))
                &&& s2[term_at(nodes, i as int)] == self.entry(nodes, i)
            } by {
                if i != id {
                    assert(old(self).has(i));
                    if term_at(nodes, i as int) == t {
                        lemma_term_at_injective(nodes, i as int, id as int);
                    }
                }
            }
            assert forall|u: Term| #[trigger] s2.contains_key(u) implies exists|i: usize|
                self.has(i) && term_at(nodes, i as int) == u by {
                if u == t {
                    assert(self.has(id));
                } else {
                    assert(s.contains_key(u));
                    let i = choose|i: usize| old(self).has(i) && term_at(nodes, i as int) == u;
                    assert(self.has(i));
                }
            }
            assert forall|i: usize| #[trigger] self.has(i) implies
                self.best_inventions_of_treenode@.contains_key(i) by {
                if i != id {
                    assert(old(self).has(i));
                }
            }
            assert forall|i: usize| #[trigger]
                self.best_inventions_of_treenode@.contains_key(i) implies self.has(i) by {
                if i != id {
                    assert(old(self).best_inventions_of_treenode@.contains_key(i));
                }
            }
        }
    }
}

/// Something is kept for a place exactly where something is kept for the
/// term at the place, and it is the same.
pub proof fn lemma_lookup(res: &InversionResult, nodes: Seq<Node>, s: Tables, id: usize)
    requires
        res.matches(nodes, s),
        nodes_ok(nodes),
        nodes_distinct(nodes),
        id < nodes.len(),
    ensures
        res.has(id) == s.contains_key(term_at(nodes, id as int)),
        res.has(id) ==> s[term_at(nodes, id as int)] == res.entry(nodes, id) && entry_ok(
            nodes,
            res.applams_of_treenode@[id],
            res.best_inventions_of_treenode@[id],
        ) && res.best_inventions_of_treenode@.contains_key(id)
            && res.best_inventions_of_treenode@[id].inventionless_cost == cost(
            term_at(nodes, id as int),
        ),
        res.best_inventions_of_treenode@.contains_key(id) == res.has(id),
{
    reveal(InversionResult::matches);
    let t = term_at(nodes, id as int);
    if s.contains_key(t) {
        let i = choose|i: usize| res.has(i) && term_at(nodes, i as int) == t;
        lemma_term_at_injective(nodes, i as int, id as int);
    }
}

/// What is kept by place is, by term, only what it matches.
pub proof fn lemma_tables(res: &InversionResult, nodes: Seq<Node>, s: Tables)
    requires
        res.matches(nodes, s),
    ensures
        res.tables(nodes) == s,
        res.wf(nodes),
{
    reveal(InversionResult::matches);
    let m = res.tables(nodes);
    assert forall|t: Term| m.contains_key(t) == s.contains_key(t) by {
        if m.contains_key(t) {
            let id = choose|id: usize| res.has(id) && term_at(nodes, id as int) == t;
            assert(res.has(id));
        }
    }
    assert forall|t: Term| m.contains_key(t) implies m[t] == s[t] by {
        let id = choose|id: usize| res.has(id) && term_at(nodes, id as int) == t;
        assert(res.has(id));
    }
    assert(m =~= s);
}

/// What is kept stands for the same when the table of nodes grows.
pub proof fn lemma_tables_prefix(res: &InversionResult, a: Seq<Node>, b: Seq<Node>, s: Tables)
    requires
        res.matches(a, s),
        is_prefix(a, b),
    ensures
        res.matches(b, s),
{
    reveal(InversionResult::matches);
    assert forall|id: usize| #[trigger] res.has(id) implies {
        &&& id < b.len()
        &&& entry_ok(b, res.applams_of_treenode@[id], res.best_inventions_of_treenode@[id])
        &&& res.best_inventions_of_treenode@[id].inventionless_cost == cost(term_at(b, id as int))
        &&& s.contains_key(term_at(b, id as int))
        &&& s[term_at(b, id as int)] == res.entry(b, id)
    } by {
        lemma_term_at_prefix(a, b, id as int);
        lemma_applams_prefix(a, b, res.applams_of_treenode@[id]@);
        lemma_best_prefix(a, b, res.best_inventions_of_treenode@[id]@);
    }
    assert forall|t: Term| #[trigger] s.contains_key(t) implies exists|id: usize|
        res.has(id) && term_at(b, id as int) == t by {
        let id = choose|id: usize| res.has(id) && term_at(a, id as int) == t;
        lemma_term_at_prefix(a, b, id as int);
    }
}

/// The candidates of a list that are there, one more looked at.
pub proof fn lemma_keep_some_step(c: Seq<Option<SpecAppLam>>, n: nat)
    requires
        n < c.len(),
    ensures
        keep_some(c, n + 1) == match c[n as int] {
            Some(a) => keep_some(c, n).push(a),
            None => keep_some(c, n),
        },
{
}

/// Appends what the applams of the function of an application give for the
/// application with the argument `x`.
pub fn add_left(f_applams: &Vec<AppLam>, x: Id, store: &mut Dag, applams: &mut Vec<AppLam>)
    requires
        old(store).wf(),
        applams_ok(old(store)@, f_applams@),
        applams_ok(old(store)@, old(applams)@),
        x < old(store)@.len(),
    ensures
        final(store).wf(),
        final(store).extends(old(store)),
        applams_ok(final(store)@, final(applams)@),
        applams_view(final(store)@, final(applams)@) == applams_view(old(store)@, old(applams)@)
            + left_bubble(
            applams_view(old(store)@, f_applams@),
            old(store).term(x as int),
            f_applams@.len() as nat,
        ),
{
    let ghost s0 = store@;
    let ghost base = applams_view(s0, applams@);
    let ghost fav = applams_view(s0, f_applams@);
    let ghost xt = store.term(x as int);
    let ghost cands = Seq::new(fav.len(), |i: int| left_one(fav[i], xt));
    let mut i: usize = 0;
    assert(applams_view(store@, applams@) =~= base + keep_some(cands, 0));
    while i < f_applams.len()
        invariant
            i <= f_applams@.len(),
            store.wf(),
            is_prefix(s0, store@),
            s0 == old(store)@,
            x < s0.len(),
            applams_ok(s0, f_applams@),
            applams_ok(store@, applams@),
            fav == applams_view(s0, f_applams@),
            xt == term_at(s0, x as int),
            cands == Seq::new(fav.len(), |i: int| left_one(fav[i], xt)),
            applams_view(store@, applams@) == base + keep_some(cands, i as nat),
        decreases f_applams@.len() - i,
    {
        let ghost s1 = store@;
        let ghost before = applams@;
        proof {
            lemma_applam_prefix(s0, s1, f_applams@[i as int]);
            lemma_term_at_prefix(s0, s1, x as int);
            lemma_keep_some_step(cands, i as nat);
        }
        let r = bubble_left(&f_applams[i], x, store);
        proof {
            lemma_prefix_trans(s0, s1, store@);
            lemma_applams_prefix(s1, store@, before);
        }
        match r {
            Some(a) => {
                applams.push(a);
                assert(applams_view(store@, applams@) =~= applams_view(store@, before).push(
                    applam_view(store@, a),
                ));
                assert(base + keep_some(cands, i as nat).push(applam_view(store@, a)) =~= (base
                    + keep_some(cands, i as nat)).push(applam_view(store@, a)));
            },
            None => {},
        }
        i += 1;
    }
}

/// Appends what the applams of the argument of an application give for the
/// application with the function `f`.
pub fn add_right(f: Id, x_applams: &Vec<AppLam>, store: &mut Dag, applams: &mut Vec<AppLam>)
    requires
        old(store).wf(),
        applams_ok(old(store)@, x_applams@),
        applams_ok(old(store)@, old(applams)@),
        f < old(store)@.len(),
    ensures
        final(store).wf(),
        final(store).extends(old(store)),
        applams_ok(final(store)@, final(applams)@),
        applams_view(final(store)@, final(applams)@) == applams_view(old(store)@, old(applams)@)
            + right_bubble(
            old(store).term(f as int),
            applams_view(old(store)@, x_applams@),
            x_applams@.len() as nat,
        ),
{
    let ghost s0 = store@;
    let ghost base = applams_view(s0, applams@);
    let ghost xav = applams_view(s0, x_applams@);
    let ghost ft = store.term(f as int);
    let ghost cands = Seq::new(xav.len(), |i: int| right_one(ft, xav[i]));
    let mut i: usize = 0;
    assert(applams_view(store@, applams@) =~= base + keep_some(cands, 0));
    while i < x_applams.len()
        invariant
            i <= x_applams@.len(),
            store.wf(),
            is_prefix(s0, store@),
            s0 == old(store)@,
            f < s0.len(),
            applams_ok(s0, x_applams@),
            applams_ok(store@, applams@),
            xav == applams_view(s0, x_applams@),
            ft == term_at(s0, f as int),
            cands == Seq::new(xav.len(), |i: int| right_one(ft, xav[i])),
            applams_view(store@, applams@) == base + keep_some(cands, i as nat),
        decreases x_applams@.len() - i,
    {
        let ghost s1 = store@;
        let ghost before = applams@;
        proof {
            lemma_applam_prefix(s0, s1, x_applams@[i as int]);
            lemma_term_at_prefix(s0, s1, f as int);
            lemma_keep_some_step(cands, i as nat);
        }
        let r = bubble_right(f, &x_applams[i], store);
        proof {
            lemma_prefix_trans(s0, s1, store@);
            lemma_applams_prefix(s1, store@, before);
        }
        match r {
            Some(a) => {
                applams.push(a);
                assert(applams_view(store@, applams@) =~= applams_view(store@, before).push(
                    applam_view(store@, a),
                ));
                assert(base + keep_some(cands, i as nat).push(applam_view(store@, a)) =~= (base
                    + keep_some(cands, i as nat)).push(applam_view(store@, a)));
            },
            None => {},
        }
        i += 1;
    }
}

/// Appends the combinations of one applam of the function of an application
/// with the applams of its argument.
pub fn add_merge_row(
    f_applam: &AppLam,
    x_applams: &Vec<AppLam>,
    limit: usize,
    store: &mut Dag,
    caches: &mut CacheGenerator,
    applams: &mut Vec<AppLam>,
)
    requires
        old(store).wf(),
        applam_ok(old(store)@, *f_applam),
        applams_ok(old(store)@, x_applams@),
        applams_ok(old(store)@, old(applams)@),
        limit <= i32::MAX,
        old(caches).wf(old(store)@),
    ensures
        final(store).wf(),
        final(store).extends(old(store)),
        final(caches).wf(final(store)@),
        final(caches).enabled == old(caches).enabled,
        applams_ok(final(store)@, final(applams)@),
        applams_view(final(store)@, final(applams)@) == applams_view(old(store)@, old(applams)@)
            + merge_row(
            applam_view(old(store)@, *f_applam),
            applams_view(old(store)@, x_applams@),
            x_applams@.len() as nat,
            limit as nat,
        ),
{
    let ghost s0 = store@;
    let ghost base = applams_view(s0, applams@);
    let ghost xav = applams_view(s0, x_applams@);
    let ghost fv = applam_view(s0, *f_applam);
    let ghost cands = Seq::new(xav.len(), |i: int| merge_one(fv, xav[i], limit as nat));
    let mut i: usize = 0;
    assert(applams_view(store@, applams@) =~= base + keep_some(cands, 0));
    while i < x_applams.len()
        invariant
            i <= x_applams@.len(),
            store.wf(),
            is_prefix(s0, store@),
            s0 == old(store)@,
            limit <= i32::MAX,
            caches.wf(store@),
            caches.enabled == old(caches).enabled,
            applam_ok(s0, *f_applam),
            applams_ok(s0, x_applams@),
            applams_ok(store@, applams@),
            xav == applams_view(s0, x_applams@),
            fv == applam_view(s0, *f_applam),
            cands == Seq::new(xav.len(), |i: int| merge_one(fv, xav[i], limit as nat)),
            applams_view(store@, applams@) == base + keep_some(cands, i as nat),
        decreases x_applams@.len() - i,
    {
        let ghost s1 = store@;
        let ghost before = applams@;
        proof {
            lemma_applam_prefix(s0, s1, x_applams@[i as int]);
            lemma_applam_prefix(s0, s1, *f_applam);
            lemma_keep_some_step(cands, i as nat);
        }
        let r = merge(f_applam, &x_applams[i], limit, store, caches);
        proof {
            lemma_prefix_trans(s0, s1, store@);
            lemma_applams_prefix(s1, store@, before);
        }
        match r {
            Some(a) => {
                applams.push(a);
                assert(applams_view(store@, applams@) =~= applams_view(store@, before).push(
                    applam_view(store@, a),
                ));
                assert(base + keep_some(cands, i as nat).push(applam_view(store@, a)) =~= (base
                    + keep_some(cands, i as nat)).push(applam_view(store@, a)));
            },
            None => {},
        }
        i += 1;
    }
}

/// Appends the combinations of the applams of the function of an application
/// with the applams of its argument.
pub fn add_merges(
    f_applams: &Vec<AppLam>,
    x_applams: &Vec<AppLam>,
    limit: usize,
    store: &mut Dag,
    caches: &mut CacheGenerator,
    applams: &mut Vec<AppLam>,
)
    requires
        old(store).wf(),
        applams_ok(old(store)@, f_applams@),
        applams_ok(old(store)@, x_applams@),
        applams_ok(old(store)@, old(applams)@),
        limit <= i32::MAX,
        old(caches).wf(old(store)@),
    ensures
        final(store).wf(),
        final(store).extends(old(store)),
        final(caches).wf(final(store)@),
        final(caches).enabled == old(caches).enabled,
        applams_ok(final(store)@, final(applams)@),
        applams_view(final(store)@, final(applams)@) == applams_view(old(store)@, old(applams)@)
            + merge_rows(
            applams_view(old(store)@, f_applams@),
            applams_view(old(store)@, x_applams@),
            f_applams@.len() as nat,
            limit as nat,
        ),
{
    let ghost s0 = store@;
    let ghost base = applams_view(s0, applams@);
    let ghost fav = applams_view(s0, f_applams@);
    let ghost xav = applams_view(s0, x_applams@);
    let mut i: usize = 0;
    assert(applams_view(store@, applams@) =~= base + merge_rows(fav, xav, 0, limit as nat));
    while i < f_applams.len()
        invariant
            i <= f_applams@.len(),
            store.wf(),
            is_prefix(s0, store@),
            s0 == old(store)@,
            limit <= i32::MAX,
            caches.wf(store@),
            caches.enabled == old(caches).enabled,
            applams_ok(s0, f_applams@),
            applams_ok(s0, x_applams@),
            applams_ok(store@, applams@),
            fav == applams_view(s0, f_applams@),
            xav == applams_view(s0, x_applams@),
            applams_view(store@, applams@) == base + merge_rows(fav, xav, i as nat, limit as nat),
        decreases f_applams@.len() - i,
    {
        let ghost s1 = store@;
        proof {
            lemma_applam_prefix(s0, s1, f_applams@[i as int]);
            lemma_applams_prefix(s0, s1, x_applams@);
        }
        add_merge_row(&f_applams[i], x_applams, limit, store, caches, applams);
        proof {
            lemma_prefix_trans(s0, s1, store@);
            let row = merge_row(fav[i as int], xav, xav.len(), limit as nat);
            assert((base + merge_rows(fav, xav, i as nat, limit as nat)) + row =~= base + (
            merge_rows(fav, xav, i as nat, limit as nat) + row));
        }
        i += 1;
    }
}

/// Appends what the applams of the body of a lambda give for the lambda,
/// and gives the arguments of those that give something.
pub fn add_lams(
    b_applams: &Vec<AppLam>,
    store: &mut Dag,
    caches: &mut CacheGenerator,
    applams: &mut Vec<AppLam>,
) -> (pending: Vec<Id>)
    requires
        old(store).wf(),
        applams_ok(old(store)@, b_applams@),
        applams_ok(old(store)@, old(applams)@),
        old(caches).wf(old(store)@),
    ensures
        ids_below(pending@, old(store).size()),
        terms_of(old(store)@, pending@) == pending_args(
            applams_view(old(store)@, b_applams@),
            b_applams@.len() as nat,
        ),
        final(store).wf(),
        final(store).extends(old(store)),
        final(caches).wf(final(store)@),
        final(caches).enabled == old(caches).enabled,
        applams_ok(final(store)@, final(applams)@),
        applams_view(final(store)@, final(applams)@) == applams_view(old(store)@, old(applams)@)
            + lam_bubble(applams_view(old(store)@, b_applams@), b_applams@.len() as nat),
{
    let ghost s0 = store@;
    let ghost base = applams_view(s0, applams@);
    let ghost bav = applams_view(s0, b_applams@);
    let ghost cands = Seq::new(bav.len(), |i: int| lam_one(bav[i]));
    let mut pending: Vec<Id> = Vec::new();
    let mut i: usize = 0;
    assert(applams_view(store@, applams@) =~= base + keep_some(cands, 0));
    assert(terms_of(s0, pending@) =~= pending_args(bav, 0));
    while i < b_applams.len()
        invariant
            i <= b_applams@.len(),
            ids_below(pending@, s0.len() as int),
            terms_of(s0, pending@) == pending_args(bav, i as nat),
            store.wf(),
            is_prefix(s0, store@),
            s0 == old(store)@,
            caches.wf(store@),
            caches.enabled == old(caches).enabled,
            applams_ok(s0, b_applams@),
            applams_ok(store@, applams@),
            bav == applams_view(s0, b_applams@),
            cands == Seq::new(bav.len(), |i: int| lam_one(bav[i])),
            applams_view(store@, applams@) == base + keep_some(cands, i as nat),
        decreases b_applams@.len() - i,
    {
        let ghost s1 = store@;
        let ghost before = applams@;
        proof {
            lemma_applam_prefix(s0, s1, b_applams@[i as int]);
            lemma_keep_some_step(cands, i as nat);
        }
        let r = bubble_lam(&b_applams[i], store, caches);
        proof {
            lemma_prefix_trans(s0, s1, store@);
            lemma_applams_prefix(s1, store@, before);
        }
        match r {
            Some(a) => {
                applams.push(a);
                assert(applams_view(store@, applams@) =~= applams_view(store@, before).push(
                    applam_view(store@, a),
                ));
                assert(base + keep_some(cands, i as nat).push(applam_view(store@, a)) =~= (base
                    + keep_some(cands, i as nat)).push(applam_view(store@, a)));
                let ghost pb = pending@;
                crate::applam::append_ids(&mut pending, &b_applams[i].args);
                proof {
                    assert(applam_ok(s0, b_applams@[i as int]));
                    assert(terms_of(s0, pending@) =~= terms_of(s0, pb) + bav[i as int].args);
                    assert forall|k: int| 0 <= k < pending@.len() implies #[trigger] pending@[k]
                        < s0.len() by {
                        if k < pb.len() {
                            assert(pending@[k] == pb[k]);
                        } else {
                            assert(pending@[k] == b_applams@[i as int].args@[k - pb.len()]);
                        }
                    }
                }
            },
            None => {},
        }
        i += 1;
    }
    pending
}

/// The applams of a node: the identity, with the place `ivar0` of the hole
/// `#0` as its body; and what the applams that are kept for its children
/// give.
pub fn applams_of_node(
    res: &InversionResult,
    treenode: Id,
    ivar0: Id,
    limit: usize,
    store: &mut Dag,
    caches: &mut CacheGenerator,
    Ghost(s): Ghost<Tables>,
) -> (r: (Vec<AppLam>, Vec<Id>))
    requires
        old(store).wf(),
        res.matches(old(store)@, s),
        treenode < old(store)@.len(),
        ivar0 < old(store)@.len(),
        old(store).term(ivar0 as int) == Term::IVar(0),
        limit <= i32::MAX,
        old(caches).wf(old(store)@),
    ensures
        final(store).wf(),
        final(store).extends(old(store)),
        final(caches).wf(final(store)@),
        final(caches).enabled == old(caches).enabled,
        applams_ok(final(store)@, r.0@),
        applams_view(final(store)@, r.0@) == applams_for(
            s,
            old(store).term(treenode as int),
            limit as nat,
        ),
        ids_below(r.1@, old(store).size()),
        terms_of(old(store)@, r.1@) == match old(store).term(treenode as int) {
            Term::Lam(b) => pending_args(applams_at(s, *b), applams_at(s, *b).len()),
            _ => Seq::empty(),
        },
{
    let ghost s0 = store@;
    let ghost t = store.term(treenode as int);
    let mut applams: Vec<AppLam> = Vec::new();
    let mut only: Vec<Id> = Vec::new();
    only.push(treenode);
    applams.push(AppLam::new(ivar0, only));
    proof {
        assert(terms_of(s0, applams@[0].args@) =~= seq![t]);
        assert(applams_view(s0, applams@) =~= seq![identity_applam(t)]);
        lemma_term_at_unfold(s0, treenode as int);
        assert(crate::expr::node_ok(s0[treenode as int], treenode as int));
    }
    let empty: Vec<AppLam> = Vec::new();
    assert(applams_view(s0, empty@) =~= Seq::<SpecAppLam>::empty());
    let mut pending: Vec<Id> = Vec::new();
    assert(terms_of(s0, pending@) =~= Seq::<Term>::empty());
    let node = store.get(treenode).copy();
    match node {
        Lambda::App(f, x) => {
            proof {
                lemma_lookup(res, s0, s, f);
                lemma_lookup(res, s0, s, x);
            }
            let fa: &Vec<AppLam> = match res.applams_of_treenode.get(&f) {
                Some(v) => v,
                None => &empty,
            };
            let xa: &Vec<AppLam> = match res.applams_of_treenode.get(&x) {
                Some(v) => v,
                None => &empty,
            };
            assert(applams_view(s0, fa@) == applams_at(s, term_at(s0, f as int)));
            assert(applams_view(s0, xa@) == applams_at(s, term_at(s0, x as int)));
            add_left(fa, x, store, &mut applams);
            let ghost s1 = store@;
            proof {
                lemma_applams_prefix(s0, s1, fa@);
                lemma_applams_prefix(s0, s1, xa@);
                lemma_term_at_prefix(s0, s1, f as int);
                lemma_caches_prefix(s0, s1, caches);
            }
            add_right(f, xa, store, &mut applams);
            let ghost s2 = store@;
            proof {
                lemma_applams_prefix(s1, s2, fa@);
                lemma_applams_prefix(s1, s2, xa@);
                lemma_caches_prefix(s1, s2, caches);
                lemma_prefix_trans(s0, s1, s2);
            }
            add_merges(fa, xa, limit, store, caches, &mut applams);
            proof {
                lemma_prefix_trans(s0, s2, store@);
            }
        },
        Lambda::Lam(b) => {
            proof {
                lemma_lookup(res, s0, s, b);
            }
            let ba: &Vec<AppLam> = match res.applams_of_treenode.get(&b) {
                Some(v) => v,
                None => &empty,
            };
            assert(applams_view(s0, ba@) == applams_at(s, term_at(s0, b as int)));
            pending = add_lams(ba, store, caches, &mut applams);
        },
        _ => {},
    }
    (applams, pending)
}

/// A copy of a list of applams.
pub fn copy_applam_list(v: &Vec<AppLam>) -> (r: Vec<AppLam>)
    ensures
        r@.len() == v@.len(),
        forall|i: int|
            0 <= i < v@.len() ==> (#[trigger] r@[i]).inv == v@[i].inv && r@[i].args@ == v@[i].args@,
{
    let mut r: Vec<AppLam> = Vec::new();
    let mut i: usize = 0;
    while i < v.len()
        invariant
            i <= v@.len(),
            r@.len() == i,
            forall|j: int|
                0 <= j < i ==> (#[trigger] r@[j]).inv == v@[j].inv && r@[j].args@ == v@[j].args@,
        decreases v@.len() - i,
    {
        r.push(v[i].copy());
        i += 1;
    }
    r
}

/// A copy of a list of applams stands for what the list stands for.
pub proof fn lemma_copy_view(nodes: Seq<Node>, v: Seq<AppLam>, r: Seq<AppLam>)
    requires
        r.len() == v.len(),
        forall|i: int|
            0 <= i < v.len() ==> (#[trigger] r[i]).inv == v[i].inv && r[i].args@ == v[i].args@,
    ensures
        applams_view(nodes, r) == applams_view(nodes, v),
        applams_ok(nodes, v) ==> applams_ok(nodes, r),
{
    assert(applams_view(nodes, r) =~= applams_view(nodes, v));
    if applams_ok(nodes, v) {
        assert forall|i: int| 0 <= i < r.len() implies applam_ok(nodes, #[trigger] r[i]) by {
            assert(applam_ok(nodes, v[i]));
        }
    }
}

/// The applams with their arguments shifted down; one with an argument that
/// cannot be shifted is left out.
pub fn shifted_copies(applams: &Vec<AppLam>, store: &mut Dag, caches: &mut CacheGenerator) -> (r:
    Vec<AppLam>)
    requires
        old(store).wf(),
        applams_ok(old(store)@, applams@),
        old(caches).wf(old(store)@),
    ensures
        final(store).wf(),
        final(store).extends(old(store)),
        final(caches).wf(final(store)@),
        final(caches).enabled == old(caches).enabled,
        applams_ok(final(store)@, r@),
        applams_view(final(store)@, r@) == copy_applams(
            applams_view(old(store)@, applams@),
            applams@.len() as nat,
        ),
{
    let ghost s0 = store@;
    let ghost av = applams_view(s0, applams@);
    let ghost cands = Seq::new(av.len(), |i: int| copy_one(av[i]));
    let mut out: Vec<AppLam> = Vec::new();
    let mut i: usize = 0;
    assert(applams_view(store@, out@) =~= keep_some(cands, 0));
    while i < applams.len()
        invariant
            i <= applams@.len(),
            store.wf(),
            is_prefix(s0, store@),
            s0 == old(store)@,
            caches.wf(store@),
            caches.enabled == old(caches).enabled,
            applams_ok(s0, applams@),
            applams_ok(store@, out@),
            av == applams_view(s0, applams@),
            cands == Seq::new(av.len(), |i: int| copy_one(av[i])),
            applams_view(store@, out@) == keep_some(cands, i as nat),
        decreases applams@.len() - i,
    {
        let ghost s1 = store@;
        let ghost before = out@;
        let a = &applams[i];
        proof {
            lemma_applam_prefix(s0, s1, applams@[i as int]);
            lemma_keep_some_step(cands, i as nat);
        }
        let shifted = shift_args(&a.args, store, caches);
        proof {
            lemma_prefix_trans(s0, s1, store@);
            lemma_applams_prefix(s1, store@, before);
            lemma_term_at_prefix(s1, store@, a.inv.body as int);
        }
        match shifted {
            Some(args) => {
                let c = AppLam { inv: a.inv, args };
                out.push(c);
                assert(applam_view(store@, c) == copy_one(av[i as int]).unwrap());
                assert(applams_view(store@, out@) =~= applams_view(store@, before).push(
                    applam_view(store@, c),
                ));
            },
            None => {},
        }
        i += 1;
    }
    out
}

/// A copy of what is kept for a place.
pub fn entry_copy(
    res: &InversionResult,
    id: Id,
    Ghost(nodes): Ghost<Seq<Node>>,
    Ghost(s): Ghost<Tables>,
) -> (r: (Vec<AppLam>, BestInventions))
    requires
        res.matches(nodes, s),
        nodes_ok(nodes),
        nodes_distinct(nodes),
        id < nodes.len(),
        res.has(id),
    ensures
        entry_ok(nodes, r.0, r.1),
        entry_view(nodes, r.0, r.1) == s[term_at(nodes, id as int)],
        s.contains_key(term_at(nodes, id as int)),
        r.1.inventionless_cost == cost(term_at(nodes, id as int)),
{
    proof {
        lemma_lookup(res, nodes, s, id);
    }
    let applams = copy_applam_list(res.applams_of_treenode.get(&id).unwrap());
    let best = res.best_inventions_of_treenode.get(&id).unwrap().copy();
    proof {
        lemma_copy_view(nodes, res.applams_of_treenode@[id]@, applams@);
    }
    (applams, best)
}

/// Gives the node at `old_id`, shifted down, what is kept for the node: its
/// best costs as they are, its applams with their arguments shifted down;
/// and treats each of those arguments that costs less than the node in the
/// same way. Nothing happens where the node cannot be shifted down, where
/// something is kept for the shifted node already, where nothing is kept for
/// the node, or where the node costs `bound` or more.
pub fn duplicate_entry(
    res: &mut InversionResult,
    old_id: Id,
    bound: i64,
    store: &mut Dag,
    caches: &mut CacheGenerator,
    Ghost(s): Ghost<Tables>,
)
    requires
        old(store).wf(),
        old(res).matches(old(store)@, s),
        old_id < old(store)@.len(),
        old(caches).wf(old(store)@),
        0 <= bound,
    ensures
        final(store).wf(),
        final(store).extends(old(store)),
        final(caches).wf(final(store)@),
        final(caches).enabled == old(caches).enabled,
        final(res).matches(
            final(store)@,
            duplicate(s, old(store).term(old_id as int), bound as nat),
        ),
    decreases bound, 0nat,
{
    let ghost s0 = store@;
    let ghost t = store.term(old_id as int);
    let c = store.data_of(old_id).inventionless_cost;
    proof {
        lemma_cost_nonneg(t);
    }
    if c as i64 >= bound {
        return;
    }
    let mode = Shift::ShiftVar(-1);
    let shifted = shift(old_id, &mode, store, caches);
    let ghost s1 = store@;
    proof {
        lemma_tables_prefix(res, s0, s1, s);
        lemma_term_at_prefix(s0, s1, old_id as int);
    }
    match shifted {
        None => {},
        Some(new_id) => {
            proof {
                lemma_lookup(res, s1, s, new_id);
                lemma_lookup(res, s1, s, old_id);
            }
            if res.contains(new_id) || !res.contains(old_id) {
                return;
            }
            let (old_applams, best) = entry_copy(res, old_id, Ghost(s1), Ghost(s));
            let new_applams = shifted_copies(&old_applams, store, caches);
            let ghost s2 = store@;
            let ghost e = s[t];
            let ghost ne = SpecEntry {
                applams: copy_applams(e.applams, e.applams.len()),
                best: e.best,
            };
            proof {
                lemma_tables_prefix(res, s1, s2, s);
                lemma_best_prefix(s1, s2, best@);
                lemma_term_at_prefix(s1, s2, new_id as int);
                lemma_applams_prefix(s1, s2, old_applams@);
                assert(entry_view(s2, new_applams, best) == ne);
                crate::term::lemma_shift_keeps_cost(t, ShiftSpec::Var(-1), 0);
            }
            res.insert(new_id, new_applams, best, Ghost(s2), Ghost(s));
            let ghost sa = s.insert(shift_down(t).unwrap(), ne);
            duplicate_all(res, &old_applams, c as i64, store, caches, Ghost(sa));
            proof {
                lemma_prefix_trans(s1, s2, store@);
                lemma_prefix_trans(s0, s1, store@);
            }
        },
    }
}

/// Treats every argument of the applams as `duplicate_entry` says.
pub fn duplicate_all(
    res: &mut InversionResult,
    applams: &Vec<AppLam>,
    bound: i64,
    store: &mut Dag,
    caches: &mut CacheGenerator,
    Ghost(s): Ghost<Tables>,
)
    requires
        old(store).wf(),
        old(res).matches(old(store)@, s),
        applams_ok(old(store)@, applams@),
        old(caches).wf(old(store)@),
        0 <= bound,
    ensures
        final(store).wf(),
        final(store).extends(old(store)),
        final(caches).wf(final(store)@),
        final(caches).enabled == old(caches).enabled,
        final(res).matches(
            final(store)@,
            duplicate_applams(
                s,
                applams_view(old(store)@, applams@),
                applams@.len() as nat,
                bound as nat,
            ),
        ),
    decreases bound, 2nat,
{
    let ghost s0 = store@;
    let ghost av = applams_view(s0, applams@);
    let ghost mut cur = s;
    let mut i: usize = 0;
    while i < applams.len()
        invariant
            i <= applams@.len(),
            store.wf(),
            is_prefix(s0, store@),
            s0 == old(store)@,
            0 <= bound,
            caches.wf(store@),
            caches.enabled == old(caches).enabled,
            applams_ok(s0, applams@),
            av == applams_view(s0, applams@),
            res.matches(store@, cur),
            cur == duplicate_applams(s, av, i as nat, bound as nat),
        decreases applams@.len() - i,
    {
        let a = &applams[i];
        let ghost ats = av[i as int].args;
        let ghost row = cur;
        let mut k: usize = 0;
        assert(applam_ok(s0, applams@[i as int]));
        while k < a.args.len()
            invariant
                k <= a.args@.len(),
                i < applams@.len(),
                a == &applams@[i as int],
                store.wf(),
                is_prefix(s0, store@),
                s0 == old(store)@,
                0 <= bound,
                caches.wf(store@),
                caches.enabled == old(caches).enabled,
                applam_ok(s0, *a),
                ats == terms_of(s0, a.args@),
                res.matches(store@, cur),
                cur == duplicate_args(row, ats, k as nat, bound as nat),
            decreases a.args@.len() - k,
        {
            let ghost s1 = store@;
            proof {
                lemma_term_at_prefix(s0, s1, a.args@[k as int] as int);
            }
            duplicate_entry(res, a.args[k], bound, store, caches, Ghost(cur));
            proof {
                lemma_prefix_trans(s0, s1, store@);
                cur = duplicate(cur, ats[k as int], bound as nat);
            }
            k += 1;
        }
        i += 1;
    }
}

/// Treats every one of the places as `duplicate_entry` says, whatever the
/// node there costs.
pub fn duplicate_pending(
    res: &mut InversionResult,
    pending: &Vec<Id>,
    store: &mut Dag,
    caches: &mut CacheGenerator,
    Ghost(s): Ghost<Tables>,
)
    requires
        old(store).wf(),
        old(res).matches(old(store)@, s),
        ids_below(pending@, old(store).size()),
        old(caches).wf(old(store)@),
    ensures
        final(store).wf(),
        final(store).extends(old(store)),
        final(caches).wf(final(store)@),
        final(caches).enabled == old(caches).enabled,
        final(res).matches(
            final(store)@,
            duplicate_top(s, terms_of(old(store)@, pending@), pending@.len() as nat),
        ),
{
    let ghost s0 = store@;
    let ghost ts = terms_of(s0, pending@);
    let ghost mut cur = s;
    let mut k: usize = 0;
    while k < pending.len()
        invariant
            k <= pending@.len(),
            store.wf(),
            is_prefix(s0, store@),
            s0 == old(store)@,
            ids_below(pending@, s0.len() as int),
            caches.wf(store@),
            caches.enabled == old(caches).enabled,
            ts == terms_of(s0, pending@),
            res.matches(store@, cur),
            cur == duplicate_top(s, ts, k as nat),
        decreases pending@.len() - k,
    {
        let ghost s1 = store@;
        proof {
            lemma_term_at_prefix(s0, s1, pending@[k as int] as int);
            lemma_cost_nonneg(ts[k as int]);
        }
        let c = store.data_of(pending[k]).inventionless_cost;
        duplicate_entry(res, pending[k], c as i64 + 1, store, caches, Ghost(cur));
        proof {
            lemma_prefix_trans(s0, s1, store@);
            cur = duplicate(cur, ts[k as int], (cost(ts[k as int]) + 1) as nat);
        }
        k += 1;
    }
}

/// The best cost of the node at a place under an invention: from what is
/// kept for the place, or the cost of the node where nothing is kept.
pub fn cost_under_at(
    res: &InversionResult,
    store: &Dag,
    id: Id,
    inv: &Invention,
    Ghost(s): Ghost<Tables>,
) -> (c: i32)
    requires
        store.wf(),
        res.matches(store@, s),
        id < store@.len(),
        inv.body < store@.len(),
    ensures
        c == cost_under(best_at(s, store.term(id as int)), inv_view(store@, *inv)),
        c >= 0,
{
    proof {
        lemma_lookup(res, store@, s, id);
    }
    match res.best_inventions_of_treenode.get(&id) {
        Some(b) => {
            proof {
                lemma_cost_under_terms(store@, b@, *inv);
                lemma_cost_under_nonneg(b@, *inv);
            }
            b.cost_under_inv(inv)
        },
        None => {
            proof {
                lemma_cost_nonneg(store.term(id as int));
            }
            store.data_of(id).inventionless_cost
        },
    }
}

/// Whether the invention makes the node at a place cheaper.
pub fn has_inv_at(
    res: &InversionResult,
    store: &Dag,
    id: Id,
    inv: &Invention,
    Ghost(s): Ghost<Tables>,
) -> (r: bool)
    requires
        store.wf(),
        res.matches(store@, s),
        id < store@.len(),
        inv.body < store@.len(),
    ensures
        r == has_inv(best_at(s, store.term(id as int)), inv_view(store@, *inv)),
{
    proof {
        lemma_lookup(res, store@, s, id);
    }
    match res.best_inventions_of_treenode.get(&id) {
        Some(b) => {
            proof {
                lemma_cost_under_terms(store@, b@, *inv);
            }
            b.contains(inv)
        },
        None => false,
    }
}

/// The sum of the best costs of the nodes at the places under an invention.
pub fn cost_sum_under(
    res: &InversionResult,
    store: &Dag,
    args: &Vec<Id>,
    inv: &Invention,
    Ghost(s): Ghost<Tables>,
) -> (sum: i128)
    requires
        store.wf(),
        res.matches(store@, s),
        ids_below(args@, store.size()),
        inv.body < store@.len(),
    ensures
        sum == args_cost(s, terms_of(store@, args@), inv_view(store@, *inv), args@.len() as nat),
        sum == roots_cost(s, terms_of(store@, args@), inv_view(store@, *inv), args@.len() as nat),
        0 <= sum <= args@.len() * 0x8000_0000,
{
    let ghost ts = terms_of(store@, args@);
    let ghost iv = inv_view(store@, *inv);
    let mut sum: i128 = 0;
    let mut k: usize = 0;
    while k < args.len()
        invariant
            k <= args@.len(),
            store.wf(),
            res.matches(store@, s),
            ids_below(args@, store.size()),
            inv.body < store@.len(),
            ts == terms_of(store@, args@),
            iv == inv_view(store@, *inv),
            sum == args_cost(s, ts, iv, k as nat),
            sum == roots_cost(s, ts, iv, k as nat),
            0 <= sum <= k * 0x8000_0000,
        decreases args@.len() - k,
    {
        let c = cost_under_at(res, store, args[k], inv, Ghost(s));
        assert(ts[k as int] == store.term(args@[k as int] as int));
        sum = sum + c as i128;
        k += 1;
    }
    sum
}

/// How many of the nodes at the places the invention makes cheaper.
pub fn count_with(
    res: &InversionResult,
    store: &Dag,
    roots: &Vec<Id>,
    inv: &Invention,
    Ghost(s): Ghost<Tables>,
) -> (n: usize)
    requires
        store.wf(),
        res.matches(store@, s),
        ids_below(roots@, store.size()),
        inv.body < store@.len(),
    ensures
        n == roots_with(s, terms_of(store@, roots@), inv_view(store@, *inv), roots@.len() as nat),
{
    let ghost ts = terms_of(store@, roots@);
    let ghost iv = inv_view(store@, *inv);
    let mut n: usize = 0;
    let mut k: usize = 0;
    while k < roots.len()
        invariant
            k <= roots@.len(),
            store.wf(),
            res.matches(store@, s),
            ids_below(roots@, store.size()),
            inv.body < store@.len(),
            ts == terms_of(store@, roots@),
            iv == inv_view(store@, *inv),
            n == roots_with(s, ts, iv, k as nat),
            n <= k,
        decreases roots@.len() - k,
    {
        assert(ts[k as int] == store.term(roots@[k as int] as int));
        if has_inv_at(res, store, roots[k], inv, Ghost(s)) {
            n += 1;
        }
        k += 1;
    }
    n
}

/// Whether the invention of the applam can be put in place of a node: its
/// body has no free variable and is more than the hole `#0`.
pub fn is_usable(a: &AppLam, store: &Dag) -> (r: bool)
    requires
        store.wf(),
        applam_ok(store@, *a),
    ensures
        r == usable(applam_view(store@, *a)),
{
    let d = store.data_of(a.inv.body);
    proof {
        lemma_refs_empty(d.upward_refs@);
        lemma_term_at_unfold(store@, a.inv.body as int);
    }
    let closed = d.upward_refs.len() == 0;
    let hole = match store.get(a.inv.body) {
        Lambda::IVar(i) => *i == 0,
        _ => false,
    };
    closed && !hole
}

/// Proposes each usable applam of a node: the node costs what a call of the
/// invention costs.
pub fn add_self_use(
    res: &InversionResult,
    store: &Dag,
    best: &mut BestInventions,
    applams: &Vec<AppLam>,
    Ghost(s): Ghost<Tables>,
)
    requires
        store.wf(),
        res.matches(store@, s),
        applams_ok(store@, applams@),
        best_ok(store@, old(best)@),
        old(best).indexed(),
    ensures
        best_ok(store@, final(best)@),
        final(best).indexed(),
        final(best).inventionless_cost == old(best).inventionless_cost,
        old(best).wf() ==> final(best).wf(),
        nonneg(old(best)@) ==> nonneg(final(best)@),
        best_terms(store@, final(best)@) == self_use(
            s,
            best_terms(store@, old(best)@),
            applams_view(store@, applams@),
            applams@.len() as nat,
        ),
{
    let ghost av = applams_view(store@, applams@);
    let ghost b0 = best_terms(store@, best@);
    let mut i: usize = 0;
    while i < applams.len()
        invariant
            i <= applams@.len(),
            store.wf(),
            res.matches(store@, s),
            applams_ok(store@, applams@),
            av == applams_view(store@, applams@),
            best_ok(store@, best@),
            best.indexed(),
            best.inventionless_cost == old(best).inventionless_cost,
            old(best).wf() ==> best.wf(),
            nonneg(old(best)@) ==> nonneg(best@),
            best_terms(store@, best@) == self_use(s, b0, av, i as nat),
        decreases applams@.len() - i,
    {
        let a = &applams[i];
        assert(applam_ok(store@, *a));
        assert(av[i as int] == applam_view(store@, *a));
        if is_usable(a, store) {
            let sum = cost_sum_under(res, store, &a.args, &a.inv, Ghost(s));
            let c: i128 = 100 + a.inv.arity as i128 + sum;
            proof {
                lemma_propose_terms(store@, best@, a.inv, c as int);
                assert(c == use_cost(s, av[i as int]));
            }
            best.propose_wide(a.inv, c);
        }
        i += 1;
    }
}

/// Proposes for a container of programs each invention that makes two of
/// its programs or more cheaper, at the sum of the costs of all programs.
pub fn add_from_roots(
    res: &InversionResult,
    store: &Dag,
    best: &mut BestInventions,
    roots: &Vec<Id>,
    Ghost(s): Ghost<Tables>,
)
    requires
        store.wf(),
        res.matches(store@, s),
        ids_below(roots@, store.size()),
        best_ok(store@, old(best)@),
        old(best).indexed(),
    ensures
        best_ok(store@, final(best)@),
        final(best).indexed(),
        final(best).inventionless_cost == old(best).inventionless_cost,
        old(best).wf() ==> final(best).wf(),
        nonneg(old(best)@) ==> nonneg(final(best)@),
        best_terms(store@, final(best)@) == propagate_programs(
            s,
            best_terms(store@, old(best)@),
            terms_of(store@, roots@),
            roots@.len() as nat,
        ),
{
    let ghost ts = terms_of(store@, roots@);
    let ghost b0 = best_terms(store@, best@);
    let none: Vec<(Invention, i32)> = Vec::new();
    assert(entries_terms(store@, entries_view(none@)) =~= Seq::<(SpecInvention, int)>::empty());
    let mut m: usize = 0;
    while m < roots.len()
        invariant
            m <= roots@.len(),
            store.wf(),
            res.matches(store@, s),
            ids_below(roots@, store.size()),
            ts == terms_of(store@, roots@),
            none@.len() == 0,
            best_ok(store@, best@),
            best.indexed(),
            best.inventionless_cost == old(best).inventionless_cost,
            old(best).wf() ==> best.wf(),
            nonneg(old(best)@) ==> nonneg(best@),
            best_terms(store@, best@) == propagate_programs(s, b0, ts, m as nat),
        decreases roots@.len() - m,
    {
        let root = roots[m];
        assert(ts[m as int] == store.term(root as int));
        proof {
            lemma_lookup(res, store@, s, root);
            assert(entries_terms(store@, entries_view(none@)) =~= Seq::<
                (SpecInvention, int),
            >::empty());
        }
        let keys: &Vec<(Invention, i32)> = match res.best_inventions_of_treenode.get(&root) {
            Some(b) => &b.inventionful_cost,
            None => &none,
        };
        let ghost kt = best_at(s, ts[m as int]).inventionful_cost;
        assert(kt == entries_terms(store@, entries_view(keys@)));
        assert(entries_ok(store@, entries_view(keys@)));
        let ghost row = best_terms(store@, best@);
        let mut n: usize = 0;
        while n < keys.len()
            invariant
                n <= keys@.len(),
                store.wf(),
                res.matches(store@, s),
                ids_below(roots@, store.size()),
                ts == terms_of(store@, roots@),
                kt == entries_terms(store@, entries_view(keys@)),
                entries_ok(store@, entries_view(keys@)),
                best_ok(store@, best@),
                best.indexed(),
                best.inventionless_cost == old(best).inventionless_cost,
                old(best).wf() ==> best.wf(),
                nonneg(old(best)@) ==> nonneg(best@),
                best_terms(store@, best@) == propagate_root(s, row, ts, kt, n as nat),
            decreases keys@.len() - n,
        {
            let inv = keys[n].0;
            assert(entries_view(keys@)[n as int].0 == inv);
            assert(kt[n as int].0 == inv_view(store@, inv));
            if count_with(res, store, roots, &inv, Ghost(s)) >= 2 {
                let sum = cost_sum_under(res, store, roots, &inv, Ghost(s));
                proof {
                    lemma_propose_terms(store@, best@, inv, sum as int);
                }
                best.propose_wide(inv, sum);
            }
            n += 1;
        }
        m += 1;
    }
}

/// The best costs of a node with its applams: its own cost; each usable
/// applam proposed; and what the tables of its children give.
pub fn best_of_node(
    res: &InversionResult,
    treenode: Id,
    applams: &Vec<AppLam>,
    store: &Dag,
    Ghost(s): Ghost<Tables>,
) -> (best: BestInventions)
    requires
        store.wf(),
        res.matches(store@, s),
        treenode < store@.len(),
        applams_ok(store@, applams@),
    ensures
        best_ok(store@, best@),
        best.wf(),
        nonneg(best@),
        best.inventionless_cost == cost(store.term(treenode as int)),
        best_terms(store@, best@) == best_for(
            s,
            store.term(treenode as int),
            applams_view(store@, applams@),
        ),
{
    let ghost t = store.term(treenode as int);
    let c = store.data_of(treenode).inventionless_cost;
    proof {
        lemma_cost_nonneg(t);
        lemma_term_at_unfold(store@, treenode as int);
        assert(crate::expr::node_ok(store@[treenode as int], treenode as int));
    }
    let mut best = BestInventions::new(c);
    assert(best_terms(store@, best@).inventionful_cost =~= Seq::<(SpecInvention, int)>::empty());
    add_self_use(res, store, &mut best, applams, Ghost(s));
    match store.get(treenode) {
        Lambda::App(f, x) => {
            let ff = BestInventions::new(store.data_of(*f).inventionless_cost);
            let fx = BestInventions::new(store.data_of(*x).inventionless_cost);
            proof {
                lemma_lookup(res, store@, s, *f);
                lemma_lookup(res, store@, s, *x);
                lemma_cost_nonneg(store.term(*f as int));
                lemma_cost_nonneg(store.term(*x as int));
                assert(best_terms(store@, ff@).inventionful_cost =~= Seq::<
                    (SpecInvention, int),
                >::empty());
                assert(best_terms(store@, fx@).inventionful_cost =~= Seq::<
                    (SpecInvention, int),
                >::empty());
            }
            let bf: &BestInventions = match res.best_inventions_of_treenode.get(f) {
                Some(b) => b,
                None => &ff,
            };
            let bx: &BestInventions = match res.best_inventions_of_treenode.get(x) {
                Some(b) => b,
                None => &fx,
            };
            assert(best_terms(store@, bf@) == best_at(s, store.term(*f as int)));
            assert(best_terms(store@, bx@) == best_at(s, store.term(*x as int)));
            let ghost b1 = best@;
            best.add_from_sides(bf, bx, &bf.inventionful_cost);
            let ghost b2 = best@;
            proof {
                lemma_propagate_app_terms(
                    store@,
                    b1,
                    bf@,
                    bx@,
                    bf@.inventionful_cost,
                    bf@.inventionful_cost.len(),
                );
            }
            best.add_from_sides(bf, bx, &bx.inventionful_cost);
            proof {
                lemma_propagate_app_terms(
                    store@,
                    b2,
                    bf@,
                    bx@,
                    bx@.inventionful_cost,
                    bx@.inventionful_cost.len(),
                );
            }
        },
        Lambda::Lam(b) => {
            let fb = BestInventions::new(store.data_of(*b).inventionless_cost);
            proof {
                lemma_lookup(res, store@, s, *b);
                lemma_cost_nonneg(store.term(*b as int));
                assert(best_terms(store@, fb@).inventionful_cost =~= Seq::<
                    (SpecInvention, int),
                >::empty());
            }
            let bb: &BestInventions = match res.best_inventions_of_treenode.get(b) {
                Some(t) => t,
                None => &fb,
            };
            assert(best_terms(store@, bb@) == best_at(s, store.term(*b as int)));
            let ghost b1 = best@;
            proof {
                assert forall|k: int| 0 <= k < bb.inventionful_cost@.len() implies (
                #[trigger] bb.inventionful_cost@[k]).1 >= 0 by {
                    assert(bb@.inventionful_cost[k].1 >= 0);
                }
            }
            best.add_from_body(&bb.inventionful_cost);
            proof {
                lemma_propagate_lam_terms(
                    store@,
                    b1,
                    bb@.inventionful_cost,
                    bb@.inventionful_cost.len(),
                );
            }
        },
        Lambda::Programs(roots) => {
            add_from_roots(res, store, &mut best, roots, Ghost(s));
        },
        _ => {},
    }
    best
}

/// Visits one node: finds its applams from those of its children; under a
/// lambda, gives the shifted arguments what is kept for the arguments; finds
/// the best costs of the node; and keeps both for the node.
pub fn visit_node(
    res: &mut InversionResult,
    treenode: Id,
    ivar0: Id,
    limit: usize,
    store: &mut Dag,
    caches: &mut CacheGenerator,
    Ghost(s): Ghost<Tables>,
)
    requires
        old(store).wf(),
        old(res).matches(old(store)@, s),
        treenode < old(store)@.len(),
        ivar0 < old(store)@.len(),
        old(store).term(ivar0 as int) == Term::IVar(0),
        limit <= i32::MAX,
        old(caches).wf(old(store)@),
    ensures
        final(store).wf(),
        final(store).extends(old(store)),
        final(caches).wf(final(store)@),
        final(caches).enabled == old(caches).enabled,
        final(res).matches(
            final(store)@,
            visit(s, old(store).term(treenode as int), limit as nat),
        ),
{
    let ghost s0 = store@;
    let ghost t = store.term(treenode as int);
    let (applams, pending) = applams_of_node(res, treenode, ivar0, limit, store, caches, Ghost(s));
    let ghost s1 = store@;
    proof {
        lemma_tables_prefix(res, s0, s1, s);
        lemma_terms_of_prefix(s0, s1, pending@);
    }
    duplicate_pending(res, &pending, store, caches, Ghost(s));
    let ghost s2 = store@;
    let ghost sd = duplicate_top(s, terms_of(s0, pending@), pending@.len() as nat);
    proof {
        lemma_applams_prefix(s1, s2, applams@);
        lemma_prefix_trans(s0, s1, s2);
        lemma_term_at_prefix(s0, s2, treenode as int);
    }
    let best = best_of_node(res, treenode, &applams, store, Ghost(sd));
    res.insert(treenode, applams, best, Ghost(s2), Ghost(sd));
}

/// The pass: visits the nodes at `treenodes` in order, which is children
/// first, and gives what it kept. Combined inventions have no more than
/// `max_arity` holes. `beam_size` is not used: nothing is pruned. With
/// `no_cache` the results of shifting are not kept from one shift to the
/// next.
pub fn run_inversions(
    treenodes: &Vec<Id>,
    max_arity: usize,
    beam_size: usize,
    no_cache: bool,
    store: &mut Dag,
) -> (r: InversionResult)
    requires
        old(store).wf(),
        ids_below(treenodes@, old(store).size()),
        forall|k: int|
            0 <= k < treenodes@.len() ==> !(old(store).term(#[trigger] treenodes@[k] as int)
                is IVar),
    ensures
        final(store).wf(),
        final(store).extends(old(store)),
        r.wf(final(store)@),
        r.tables(final(store)@) == visit_all(
            terms_of(old(store)@, treenodes@),
            treenodes@.len() as nat,
            arity_cap(max_arity as nat),
        ),
{
    let ghost s0 = store@;
    let ghost ts = terms_of(s0, treenodes@);
    let hole = Lambda::IVar(0);
    proof {
        crate::expr::lemma_node_term(s0, hole@);
    }
    let ivar0 = store.add(hole);
    let ghost s1 = store@;
    let mut caches = CacheGenerator::new(!no_cache);
    let limit: usize = if max_arity > i32::MAX as usize {
        i32::MAX as usize
    } else {
        max_arity
    };
    let mut res = InversionResult::new();
    let ghost mut cur: Tables = Map::empty();
    let mut i: usize = 0;
    while i < treenodes.len()
        invariant
            i <= treenodes@.len(),
            store.wf(),
            is_prefix(s0, store@),
            is_prefix(s1, store@),
            s0 == old(store)@,
            ids_below(treenodes@, s0.len() as int),
            ivar0 < s1.len(),
            term_at(s1, ivar0 as int) == Term::IVar(0),
            limit == arity_cap(max_arity as nat),
            limit <= i32::MAX,
            caches.wf(store@),
            ts == terms_of(s0, treenodes@),
            res.matches(store@, cur),
            cur == visit_all(ts, i as nat, limit as nat),
        decreases treenodes@.len() - i,
    {
        let ghost sb = store@;
        proof {
            lemma_term_at_prefix(s0, sb, treenodes@[i as int] as int);
            lemma_term_at_prefix(s1, sb, ivar0 as int);
        }
        visit_node(&mut res, treenodes[i], ivar0, limit, store, &mut caches, Ghost(cur));
        proof {
            lemma_prefix_trans(s0, sb, store@);
            lemma_prefix_trans(s1, sb, store@);
            cur = visit(cur, ts[i as int], limit as nat);
        }
        i += 1;
    }
    proof {
        lemma_tables(&res, store@, cur);
    }
    res
}

} // verus!
