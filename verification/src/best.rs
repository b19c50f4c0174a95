//! The best costs of one node: its cost without an abstraction, and its cost
//! under each invention that makes it cheaper.
use vstd::prelude::*;
use std::collections::HashMap;
use crate::expr::{Id, ids_below, Node, nodes_ok, nodes_distinct, is_prefix, lemma_term_at_prefix, lemma_term_at_injective};
use crate::applam::{Invention, inv_view};
use crate::model::{
    SpecBest, SpecInvention, find_inv, has_inv, cost_under, propose, bounded, nonneg,
    propagate_app, propagate_lam, lemma_find_inv, lemma_cost_under_bounded, lemma_propose_bounded,
    lemma_cost_under_nonneg, lemma_propose_nonneg,
};

verus! {

broadcast use vstd::std_specs::hash::group_hash_axioms;

/// The best costs of one node. An invention that does not make the node
/// cheaper has no entry. The entries stand in the order in which they were
/// found; `index` lists, for the body of an invention, the places of the
/// entries with that body.
#[derive(Debug, Clone, PartialEq, Eq)]
pub struct BestInventions {
    pub inventionless_cost: i32,
    pub inventionful_cost: Vec<(Invention, i32)>,
    pub index: HashMap<Id, Vec<usize>>,
}

/// Whether no two entries are for one invention.
pub open spec fn keys_distinct<K>(e: Seq<(K, int)>) -> bool {
    forall|i: int, j: int|
        0 <= i < e.len() && 0 <= j < e.len() && (#[trigger] e[i]).0 == (#[trigger] e[j]).0 ==> i
            == j
}

/// Whether the index lists the place of every entry under the body of its
/// invention, and lists places of entries alone.
pub open spec fn entries_indexed(e: Seq<(Invention, i32)>, index: Map<Id, Vec<usize>>) -> bool {
    &&& forall|k: usize|
        k < e.len() ==> index.contains_key((#[trigger] e[k as int]).0.body) && index[e[k
            as int].0.body]@.contains(k)
    &&& forall|b: Id| #[trigger] index.contains_key(b) ==> ids_below(index[b]@, e.len() as int)
}

/// Where no two entries are for one invention, an entry for an invention is
/// the entry that is found for it.
pub proof fn lemma_find_unique<K>(e: Seq<(K, int)>, inv: K, p: int)
    requires
        keys_distinct(e),
        0 <= p < e.len(),
        e[p].0 == inv,
    ensures
        find_inv(e, inv, e.len()) == Some(p),
{
    lemma_find_inv(e, inv, e.len());
}

/// The entries with their costs as integers.
pub open spec fn entries_view(e: Seq<(Invention, i32)>) -> Seq<(Invention, int)> {
    Seq::new(e.len(), |k: int| (e[k].0, e[k].1 as int))
}

impl View for BestInventions {
    type V = SpecBest<Invention>;

    open spec fn view(&self) -> SpecBest<Invention> {
        SpecBest {
            inventionless_cost: self.inventionless_cost as int,
            inventionful_cost: entries_view(self.inventionful_cost@),
        }
    }
}

/// An entry put into a list that is sorted by cost: after the entries that
/// cost no more, before those that cost more.
pub open spec fn insert_sorted<K>(s: Seq<(K, int)>, x: (K, int)) -> Seq<(K, int)>
    decreases s.len(),
{
    if s.len() == 0 {
        seq![x]
    } else if s.last().1 <= x.1 {
        s.push(x)
    } else {
        insert_sorted(s.drop_last(), x).push(s.last())
    }
}

/// The first `n` entries sorted by cost; entries of one cost keep their
/// order.
pub open spec fn sorted_by_cost<K>(e: Seq<(K, int)>, n: nat) -> Seq<(K, int)>
    decreases n,
{
    if n == 0 {
        Seq::empty()
    } else {
        insert_sorted(sorted_by_cost(e, (n - 1) as nat), e[n - 1])
    }
}

/// Whether the costs of the list ascend.
pub open spec fn ascending<K>(s: Seq<(K, int)>) -> bool {
    forall|i: int, j: int| 0 <= i <= j < s.len() ==> (#[trigger] s[i]).1 <= (#[trigger] s[j]).1
}

/// The inventions of a list of entries.
pub open spec fn keys_of<K>(s: Seq<(K, int)>) -> Seq<K> {
    Seq::new(s.len(), |k: int| s[k].0)
}

/// Putting an entry into a sorted list puts it at the place before which
/// nothing costs more and from which on everything does.
pub proof fn lemma_insert_sorted_at<K>(s: Seq<(K, int)>, x: (K, int), p: int)
    requires
        0 <= p <= s.len(),
        forall|k: int| p <= k < s.len() ==> (#[trigger] s[k]).1 > x.1,
        p > 0 ==> s[p - 1].1 <= x.1,
    ensures
        insert_sorted(s, x) == s.insert(p, x),
    decreases s.len(),
{
    if s.len() == 0 {
        assert(s.insert(p, x) =~= seq![x]);
    } else if s.last().1 <= x.1 {
        assert(p == s.len());
        assert(s.insert(p, x) =~= s.push(x));
    } else {
        assert(p < s.len());
        lemma_insert_sorted_at(s.drop_last(), x, p);
        assert(s.insert(p, x) =~= s.drop_last().insert(p, x).push(s.last()));
    }
}

/// Putting an entry into an ascending list gives an ascending list, one
/// longer, that holds what the list held, and the entry.
pub proof fn lemma_insert_sorted<K>(s: Seq<(K, int)>, x: (K, int))
    requires
        ascending(s),
    ensures
        ascending(insert_sorted(s, x)),
        insert_sorted(s, x).len() == s.len() + 1,
        insert_sorted(s, x).to_multiset() == s.to_multiset().insert(x),
    decreases s.len(),
{
    broadcast use vstd::seq_lib::group_to_multiset_ensures;

    let r = insert_sorted(s, x);
    if s.len() == 0 {
        assert(s =~= Seq::empty());
        assert(r =~= Seq::<(K, int)>::empty().push(x));
    } else if s.last().1 <= x.1 {
        assert forall|i: int, j: int| 0 <= i <= j < r.len() implies (#[trigger] r[i]).1 <= (
        #[trigger] r[j]).1 by {
            if j == s.len() && i < s.len() {
                assert(s[i].1 <= s[s.len() - 1].1);
            } else if j < s.len() {
                assert(s[i].1 <= s[j].1);
            }
        }
    } else {
        let d = s.drop_last();
        assert forall|i: int, j: int| 0 <= i <= j < d.len() implies (#[trigger] d[i]).1 <= (
        #[trigger] d[j]).1 by {
            assert(s[i].1 <= s[j].1);
        }
        lemma_insert_sorted(d, x);
        let q = insert_sorted(d, x);
        assert(r == q.push(s.last()));
        assert forall|k: int| 0 <= k < q.len() implies (#[trigger] q[k]).1 <= s.last().1 by {
            assert(q.to_multiset().count(q[k]) > 0);
            if q[k] == x {
            } else {
                assert(d.to_multiset().count(q[k]) > 0);
                let i = choose|i: int| 0 <= i < d.len() && d[i] == q[k];
                assert(s[i].1 <= s[s.len() - 1].1);
            }
        }
        assert forall|i: int, j: int| 0 <= i <= j < r.len() implies (#[trigger] r[i]).1 <= (
        #[trigger] r[j]).1 by {
            if j < q.len() {
                assert(q[i].1 <= q[j].1);
            } else if i < q.len() {
                assert(q[i].1 <= s.last().1);
            }
        }
        assert(s =~= d.push(s.last()));
        assert(r.to_multiset() =~= s.to_multiset().insert(x));
    }
}

/// The sorted entries ascend by cost and are the entries, each as often as
/// it was there.
pub proof fn lemma_sorted_by_cost<K>(e: Seq<(K, int)>, n: nat)
    requires
        n <= e.len(),
    ensures
        ascending(sorted_by_cost(e, n)),
        sorted_by_cost(e, n).len() == n,
        sorted_by_cost(e, n).to_multiset() == e.subrange(0, n as int).to_multiset(),
    decreases n,
{
    broadcast use vstd::seq_lib::group_to_multiset_ensures;

    if n == 0 {
        assert(e.subrange(0, 0) =~= Seq::empty());
        assert(sorted_by_cost(e, 0) =~= Seq::empty());
    } else {
        lemma_sorted_by_cost(e, (n - 1) as nat);
        lemma_insert_sorted(sorted_by_cost(e, (n - 1) as nat), e[n - 1]);
        assert(e.subrange(0, n as int) =~= e.subrange(0, n - 1).push(e[n - 1]));
    }
}

impl BestInventions {
    /// Whether the entries are for different inventions, and the index
    /// lists them.
    pub open spec fn indexed(&self) -> bool {
        keys_distinct(self@.inventionful_cost) && entries_indexed(
            self.inventionful_cost@,
            self.index@,
        )
    }

    /// Whether the table is in order: it is indexed, and every cost that is
    /// kept is less than the cost without an abstraction.
    pub open spec fn wf(&self) -> bool {
        self.indexed() && bounded(self@)
    }

    /// The table of a node that no invention helps.
    pub fn new(inventionless_cost: i32) -> (r: BestInventions)
        ensures
            r.wf(),
            r.inventionless_cost == inventionless_cost,
            r.inventionful_cost@.len() == 0,
            r@ == (SpecBest::<Invention> {
                inventionless_cost: inventionless_cost as int,
                inventionful_cost: Seq::empty(),
            }),
    {
        let r = BestInventions {
            inventionless_cost,
            inventionful_cost: Vec::new(),
            index: HashMap::new(),
        };
        assert(r@.inventionful_cost =~= Seq::empty());
        r
    }

    /// Appends an entry for an invention that has none.
    pub fn push_entry(&mut self, inv: Invention, cost: i32)
        requires
            old(self).indexed(),
            find_inv(old(self)@.inventionful_cost, inv, old(self)@.inventionful_cost.len())
                is None,
        ensures
            final(self).indexed(),
            final(self).inventionless_cost == old(self).inventionless_cost,
            final(self).inventionful_cost@ == old(self).inventionful_cost@.push((inv, cost)),
            final(self)@.inventionful_cost == old(self)@.inventionful_cost.push(
                (inv, cost as int),
            ),
    {
        let ghost e0 = self.inventionful_cost@;
        let ghost v0 = self@.inventionful_cost;
        proof {
            lemma_find_inv(v0, inv, v0.len());
        }
        let p = self.inventionful_cost.len();
        self.inventionful_cost.push((inv, cost));
        let mut bucket = match self.index.remove(&inv.body) {
            Some(b) => b,
            None => Vec::new(),
        };
        let ghost before = bucket@;
        bucket.push(p);
        self.index.insert(inv.body, bucket);
        proof {
            let e = self.inventionful_cost@;
            assert(self@.inventionful_cost =~= v0.push((inv, cost as int)));
            assert forall|i: int, j: int|
                0 <= i < e.len() && 0 <= j < e.len() && (#[trigger] self@.inventionful_cost[i]).0
                    == (#[trigger] self@.inventionful_cost[j]).0 implies i == j by {
                if i < e0.len() && j < e0.len() {
                    assert(v0[i].0 == v0[j].0);
                } else if i < e0.len() {
                    assert(v0[i].0 != inv);
                } else if j < e0.len() {
                    assert(v0[j].0 != inv);
                }
            }
            assert forall|k: usize| k < e.len() implies self.index@.contains_key(
                (#[trigger] e[k as int]).0.body,
            ) && self.index@[e[k as int].0.body]@.contains(k) by {
                let b = e[k as int].0.body;
                if k < e0.len() {
                    assert(e[k as int] == e0[k as int]);
                    assert(old(self).index@[b]@.contains(k));
                    if b == inv.body {
                        let j = choose|j: int| 0 <= j < before.len() && before[j] == k;
                        assert(self.index@[b]@[j] == k);
                    }
                } else {
                    assert(self.index@[inv.body]@[before.len() as int] == p);
                }
            }
            assert forall|b: Id| #[trigger] self.index@.contains_key(b) implies ids_below(
                self.index@[b]@,
                e.len() as int,
            ) by {
                if b == inv.body {
                    if old(self).index@.contains_key(b) {
                        assert(ids_below(before, e0.len() as int));
                    }
                    assert forall|k: int| 0 <= k < self.index@[b]@.len() implies (
                    #[trigger] self.index@[b]@[k]) < e.len() by {
                        if k < before.len() {
                            assert(self.index@[b]@[k] == before[k]);
                        }
                    }
                } else {
                    assert(old(self).index@.contains_key(b));
                    assert(ids_below(old(self).index@[b]@, e0.len() as int));
                    assert forall|k: int| 0 <= k < self.index@[b]@.len() implies (
                    #[trigger] self.index@[b]@[k]) < e.len() by {
                        assert(old(self).index@[b]@[k] < e0.len());
                    }
                }
            }
        }
    }

    /// A copy of the table.
    pub fn copy(&self) -> (r: BestInventions)
        requires
            self.indexed(),
        ensures
            r@ == self@,
            r.indexed(),
            r.inventionful_cost@ == self.inventionful_cost@,
            r.inventionless_cost == self.inventionless_cost,
    {
        let mut r = BestInventions::new(self.inventionless_cost);
        let ghost e = self@.inventionful_cost;
        let mut k: usize = 0;
        assert(r.inventionful_cost@ =~= self.inventionful_cost@.subrange(0, 0));
        while k < self.inventionful_cost.len()
            invariant
                k <= self.inventionful_cost@.len(),
                self.indexed(),
                e == self@.inventionful_cost,
                r.indexed(),
                r.inventionless_cost == self.inventionless_cost,
                r.inventionful_cost@ == self.inventionful_cost@.subrange(0, k as int),
            decreases self.inventionful_cost@.len() - k,
        {
            let (inv, c) = self.inventionful_cost[k];
            proof {
                let v = r@.inventionful_cost;
                lemma_find_inv(v, inv, v.len());
                if find_inv(v, inv, v.len()) is Some {
                    let i = find_inv(v, inv, v.len()).unwrap();
                    assert(v[i].0 == r.inventionful_cost@[i].0);
                    assert(e[i].0 == e[k as int].0);
                }
            }
            r.push_entry(inv, c);
            k += 1;
            assert(r.inventionful_cost@ =~= self.inventionful_cost@.subrange(0, k as int));
        }
        assert(r.inventionful_cost@ =~= self.inventionful_cost@);
        assert(r@.inventionful_cost =~= self@.inventionful_cost);
        r
    }

    /// The place of the entry for the invention, if it has one.
    pub fn find(&self, inv: &Invention) -> (r: Option<usize>)
        requires
            self.indexed(),
        ensures
            match r {
                Some(k) => find_inv(self@.inventionful_cost, *inv, self@.inventionful_cost.len())
                    == Some(k as int) && k < self.inventionful_cost@.len(),
                None => find_inv(self@.inventionful_cost, *inv, self@.inventionful_cost.len())
                    is None,
            },
    {
        let ghost e = self@.inventionful_cost;
        let n = self.inventionful_cost.len();
        proof {
            lemma_find_inv(e, *inv, e.len());
        }
        match self.index.get(&inv.body) {
            None => {
                proof {
                    if find_inv(e, *inv, e.len()) is Some {
                        let i = find_inv(e, *inv, e.len()).unwrap() as usize;
                        assert(self.index@.contains_key(self.inventionful_cost@[i as int].0.body));
                    }
                }
                None
            },
            Some(bucket) => {
                assert(self.index@.contains_key(inv.body));
                assert(ids_below(bucket@, n as int));
                let mut k: usize = 0;
                while k < bucket.len()
                    invariant
                        k <= bucket@.len(),
                        n == self.inventionful_cost@.len(),
                        e == self@.inventionful_cost,
                        keys_distinct(e),
                        ids_below(bucket@, n as int),
                        forall|j: int|
                            0 <= j < k ==> self.inventionful_cost@[bucket@[j] as int].0 != *inv,
                    decreases bucket@.len() - k,
                {
                    let p = bucket[k];
                    if self.inventionful_cost[p].0 == *inv {
                        proof {
                            assert(e[p as int].0 == *inv);
                            lemma_find_unique(e, *inv, p as int);
                        }
                        return Some(p);
                    }
                    k += 1;
                }
                proof {
                    if find_inv(e, *inv, e.len()) is Some {
                        let i = find_inv(e, *inv, e.len()).unwrap() as usize;
                        assert(e[i as int].0 == self.inventionful_cost@[i as int].0);
                        assert(self.index@[self.inventionful_cost@[i as int].0.body]@.contains(i));
                        let j = choose|j: int| 0 <= j < bucket@.len() && bucket@[j] == i;
                        assert(self.inventionful_cost@[bucket@[j] as int].0 != *inv);
                    }
                }
                None
            },
        }
    }

    /// Whether the invention makes the node cheaper.
    pub fn contains(&self, inv: &Invention) -> (r: bool)
        requires
            self.indexed(),
        ensures
            r == has_inv(self@, *inv),
    {
        self.find(inv).is_some()
    }

    /// The cost of the node under the invention: the cost that is kept for
    /// it, or the cost without an abstraction. It is never more than the
    /// cost without an abstraction.
    pub fn cost_under_inv(&self, inv: &Invention) -> (c: i32)
        requires
            self.indexed(),
        ensures
            c == cost_under(self@, *inv),
            self.wf() ==> c <= self.inventionless_cost,
    {
        proof {
            if self.wf() {
                lemma_cost_under_bounded(self@, *inv);
            }
        }
        let ghost e = self@.inventionful_cost;
        assert(e == entries_view(self.inventionful_cost@));
        match self.find(inv) {
            Some(k) => {
                proof {
                    lemma_find_inv(e, *inv, e.len());
                    assert(e[k as int].1 == self.inventionful_cost@[k as int].1);
                }
                self.inventionful_cost[k].1
            },
            None => self.inventionless_cost,
        }
    }

    /// Proposes a cost for the node under the invention. It is kept if it is
    /// less than the cost without an abstraction and less than the cost that
    /// is kept for the invention, if one is.
    pub fn new_cost_under_inv(&mut self, inv: Invention, cost: i32)
        requires
            old(self).indexed(),
        ensures
            final(self).indexed(),
            final(self)@ == propose(old(self)@, inv, cost as int),
            final(self).inventionless_cost == old(self).inventionless_cost,
            old(self).wf() ==> final(self).wf(),
            nonneg(old(self)@) && cost >= 0 ==> nonneg(final(self)@),
    {
        proof {
            if self.wf() {
                lemma_propose_bounded(self@, inv, cost as int);
            }
            if nonneg(self@) && cost >= 0 {
                lemma_propose_nonneg(self@, inv, cost as int);
            }
            lemma_find_inv(self@.inventionful_cost, inv, self@.inventionful_cost.len());
        }
        let ghost e = self@.inventionful_cost;
        assert(e == entries_view(self.inventionful_cost@));
        if cost < self.inventionless_cost {
            match self.find(&inv) {
                Some(k) => {
                    assert(e[k as int].1 == self.inventionful_cost@[k as int].1);
                    if cost < self.inventionful_cost[k].1 {
                        let ghost e0 = self.inventionful_cost@;
                        self.inventionful_cost[k] = (inv, cost);
                        proof {
                            let e1 = self.inventionful_cost@;
                            assert(self@.inventionful_cost =~= e.update(
                                k as int,
                                (inv, cost as int),
                            ));
                            assert forall|i: int| 0 <= i < e1.len() implies (#[trigger] e1[i]).0
                                == e0[i].0 by {}
                            assert forall|i: int, j: int|
                                0 <= i < e1.len() && 0 <= j < e1.len() && (
                                #[trigger] self@.inventionful_cost[i]).0 == (
                                #[trigger] self@.inventionful_cost[j]).0 implies i == j by {
                                assert(e[i].0 == e0[i].0);
                                assert(e[j].0 == e0[j].0);
                                assert(e[i].0 == e[j].0);
                            }
                            assert forall|p: usize| p < e1.len() implies self.index@.contains_key(
                                (#[trigger] e1[p as int]).0.body,
                            ) && self.index@[e1[p as int].0.body]@.contains(p) by {
                                assert(e1[p as int].0 == e0[p as int].0);
                            }
                        }
                    }
                },
                None => {
                    self.push_entry(inv, cost);
                },
            }
        }
    }

    /// Proposes a cost that may lie beyond the range of costs; such a cost
    /// is never kept.
    pub fn propose_wide(&mut self, inv: Invention, cost: i128)
        requires
            old(self).indexed(),
            cost >= 0,
        ensures
            final(self).indexed(),
            final(self)@ == propose(old(self)@, inv, cost as int),
            final(self).inventionless_cost == old(self).inventionless_cost,
            old(self).wf() ==> final(self).wf(),
            nonneg(old(self)@) ==> nonneg(final(self)@),
    {
        if cost <= i32::MAX as i128 {
            self.new_cost_under_inv(inv, cost as i32);
        }
    }

    /// Proposes for an application each invention of `keys` at the cost of
    /// the two sides under it and of the application itself.
    pub fn add_from_sides(
        &mut self,
        bf: &BestInventions,
        bx: &BestInventions,
        keys: &Vec<(Invention, i32)>,
    )
        requires
            old(self).indexed(),
            bf.indexed(),
            bx.indexed(),
            nonneg(bf@),
            nonneg(bx@),
        ensures
            final(self).indexed(),
            final(self)@ == propagate_app(
                old(self)@,
                bf@,
                bx@,
                entries_view(keys@),
                keys@.len() as nat,
            ),
            final(self).inventionless_cost == old(self).inventionless_cost,
            old(self).wf() ==> final(self).wf(),
            nonneg(old(self)@) ==> nonneg(final(self)@),
    {
        let ghost kv = entries_view(keys@);
        let mut k: usize = 0;
        while k < keys.len()
            invariant
                k <= keys@.len(),
                self.indexed(),
                bf.indexed(),
                bx.indexed(),
                nonneg(bf@),
                nonneg(bx@),
                kv == entries_view(keys@),
                self@ == propagate_app(old(self)@, bf@, bx@, kv, k as nat),
                self.inventionless_cost == old(self).inventionless_cost,
                old(self).wf() ==> self.wf(),
                nonneg(old(self)@) ==> nonneg(self@),
            decreases keys@.len() - k,
        {
            let inv = keys[k].0;
            assert(kv[k as int].0 == inv);
            proof {
                lemma_cost_under_nonneg(bf@, inv);
                lemma_cost_under_nonneg(bx@, inv);
            }
            let c: i128 = 1 + bf.cost_under_inv(&inv) as i128 + bx.cost_under_inv(&inv) as i128;
            self.propose_wide(inv, c);
            k += 1;
        }
    }

    /// Proposes for a lambda each entry of the table of its body, at one
    /// more than its cost.
    pub fn add_from_body(&mut self, child: &Vec<(Invention, i32)>)
        requires
            old(self).indexed(),
            forall|k: int| 0 <= k < child@.len() ==> (#[trigger] child@[k]).1 >= 0,
        ensures
            final(self).indexed(),
            final(self)@ == propagate_lam(old(self)@, entries_view(child@), child@.len() as nat),
            final(self).inventionless_cost == old(self).inventionless_cost,
            old(self).wf() ==> final(self).wf(),
            nonneg(old(self)@) ==> nonneg(final(self)@),
    {
        let ghost cv = entries_view(child@);
        let mut k: usize = 0;
        while k < child.len()
            invariant
                k <= child@.len(),
                self.indexed(),
                forall|k: int| 0 <= k < child@.len() ==> (#[trigger] child@[k]).1 >= 0,
                cv == entries_view(child@),
                self@ == propagate_lam(old(self)@, cv, k as nat),
                self.inventionless_cost == old(self).inventionless_cost,
                old(self).wf() ==> self.wf(),
                nonneg(old(self)@) ==> nonneg(self@),
            decreases child@.len() - k,
        {
            let inv = child[k].0;
            let c: i128 = child[k].1 as i128 + 1;
            assert(cv[k as int] == (inv, child@[k as int].1 as int));
            self.propose_wide(inv, c);
            k += 1;
        }
    }

    /// Narrows the table to its `beam_size` cheapest entries, the cheapest first and
    /// equal costs as they were found; a table with no more entries stays as it is.
    pub fn narrow_beam(&mut self, beam_size: usize)
        requires
            old(self).indexed(),
        ensures
            final(self).indexed(),
            final(self).inventionless_cost == old(self).inventionless_cost,
            final(self)@.inventionful_cost == narrowed(
                old(self)@.inventionful_cost,
                beam_size as nat,
            ),
            old(self).inventionful_cost@.len() <= beam_size ==> *final(self) == *old(self),
            old(self).wf() ==> final(self).wf(),
            nonneg(old(self)@) ==> nonneg(final(self)@),
    {
        if self.inventionful_cost.len() <= beam_size {
            return;
        }
        let ghost e = self@.inventionful_cost;
        let sorted = self.cheapest_first();
        let ghost sv = entries_view(sorted@);
        proof {
            lemma_sorted_keys(e, e.len());
        }
        let mut kept = BestInventions::new(self.inventionless_cost);
        let mut k: usize = 0;
        assert(kept.inventionful_cost@ =~= sorted@.subrange(0, 0));
        while k < beam_size
            invariant
                k <= beam_size,
                beam_size < sorted@.len(),
                sv == entries_view(sorted@),
                keys_distinct(sv),
                kept.indexed(),
                kept.inventionless_cost == self.inventionless_cost,
                kept.inventionful_cost@ == sorted@.subrange(0, k as int),
            decreases beam_size - k,
        {
            let (inv, c) = sorted[k];
            proof {
                let v = kept@.inventionful_cost;
                lemma_find_inv(v, inv, v.len());
                if find_inv(v, inv, v.len()) is Some {
                    let i = find_inv(v, inv, v.len()).unwrap();
                    assert(v[i].0 == kept.inventionful_cost@[i].0);
                    assert(sv[i].0 == sv[k as int].0);
                }
            }
            kept.push_entry(inv, c);
            k += 1;
            assert(kept.inventionful_cost@ =~= sorted@.subrange(0, k as int));
        }
        proof {
            let f = kept@.inventionful_cost;
            assert(f =~= sv.subrange(0, beam_size as int));
            assert forall|j: int| 0 <= j < f.len() implies e.contains(#[trigger] f[j]) by {
                lemma_sorted_member(e, j);
                assert(f[j] == sv[j]);
            }
            if self.wf() {
                assert forall|j: int| 0 <= j < f.len() implies (#[trigger] f[j]).1
                    < kept@.inventionless_cost by {
                    let i = choose|i: int| 0 <= i < e.len() && e[i] == f[j];
                    assert(e[i].1 < self@.inventionless_cost);
                }
            }
            if nonneg(self@) {
                assert forall|j: int| 0 <= j < f.len() implies (#[trigger] f[j]).1 >= 0 by {
                    let i = choose|i: int| 0 <= i < e.len() && e[i] == f[j];
                    assert(e[i].1 >= 0);
                }
            }
        }
        *self = kept;
    }

    /// The inventions that make the node cheaper, the cheapest first;
    /// inventions of one cost in the order in which they were found.
    pub fn top_inventions(&self) -> (r: Vec<Invention>)
        ensures
            r@ == keys_of(sorted_by_cost(self@.inventionful_cost, self@.inventionful_cost.len())),
            r@.len() == self.inventionful_cost@.len(),
    {
        let sorted = self.cheapest_first();
        let mut r: Vec<Invention> = Vec::new();
        let mut i: usize = 0;
        while i < sorted.len()
            invariant
                i <= sorted@.len(),
                r@.len() == i,
                forall|j: int| 0 <= j < i ==> r@[j] == sorted@[j].0,
            decreases sorted@.len() - i,
        {
            r.push(sorted[i].0);
            i += 1;
        }
        assert(r@ =~= keys_of(entries_view(sorted@)));
        r
    }

    /// The entries, the cheapest first; entries of one cost in the order in
    /// which they were found.
    pub fn cheapest_first(&self) -> (r: Vec<(Invention, i32)>)
        ensures
            entries_view(r@) == sorted_by_cost(
                self@.inventionful_cost,
                self@.inventionful_cost.len(),
            ),
            r@.len() == self.inventionful_cost@.len(),
    {
        let ghost e = self@.inventionful_cost;
        let mut sorted: Vec<(Invention, i32)> = Vec::new();
        let mut k: usize = 0;
        assert(entries_view(sorted@) =~= sorted_by_cost(e, 0));
        while k < self.inventionful_cost.len()
            invariant
                k <= self.inventionful_cost@.len(),
                e == self@.inventionful_cost,
                sorted@.len() == k,
                entries_view(sorted@) == sorted_by_cost(e, k as nat),
            decreases self.inventionful_cost@.len() - k,
        {
            let x = self.inventionful_cost[k];
            let mut p: usize = sorted.len();
            while p > 0 && sorted[p - 1].1 > x.1
                invariant
                    p <= sorted@.len(),
                    forall|j: int| p <= j < sorted@.len() ==> (#[trigger] sorted@[j]).1 > x.1,
                decreases p,
            {
                p -= 1;
            }
            let ghost before = sorted@;
            proof {
                lemma_insert_sorted_at(entries_view(before), (x.0, x.1 as int), p as int);
            }
            sorted.insert(p, x);
            assert(entries_view(sorted@) =~= entries_view(before).insert(
                p as int,
                (x.0, x.1 as int),
            ));
            k += 1;
        }
        sorted
    }
}

/// An entry that is found among the first entries is the entry that is
/// found.
pub proof fn lemma_find_stays<K>(e: Seq<(K, int)>, inv: K, n: nat, m: nat)
    requires
        n <= m,
        find_inv(e, inv, n) is Some,
    ensures
        find_inv(e, inv, m) == find_inv(e, inv, n),
    decreases m,
{
    if n < m {
        lemma_find_stays(e, inv, n, (m - 1) as nat);
    }
}

/// Whether the inventions of the entries are places of the table.
pub open spec fn entries_ok(nodes: Seq<Node>, e: Seq<(Invention, int)>) -> bool {
    forall|k: int| 0 <= k < e.len() ==> (#[trigger] e[k]).0.body < nodes.len()
}

/// The entries with each invention as an invention over terms.
pub open spec fn entries_terms(nodes: Seq<Node>, e: Seq<(Invention, int)>) -> Seq<
    (SpecInvention, int),
> {
    Seq::new(e.len(), |k: int| (inv_view(nodes, e[k].0), e[k].1))
}

/// Whether the table speaks of places of the table of nodes.
pub open spec fn best_ok(nodes: Seq<Node>, b: SpecBest<Invention>) -> bool {
    entries_ok(nodes, b.inventionful_cost)
}

/// The table with each invention as an invention over terms.
pub open spec fn best_terms(nodes: Seq<Node>, b: SpecBest<Invention>) -> SpecBest<SpecInvention> {
    SpecBest {
        inventionless_cost: b.inventionless_cost,
        inventionful_cost: entries_terms(nodes, b.inventionful_cost),
    }
}

/// Two inventions over places of a store are one invention if they are one
/// invention over terms.
pub proof fn lemma_inv_view_injective(nodes: Seq<Node>, a: Invention, b: Invention)
    requires
        nodes_ok(nodes),
        nodes_distinct(nodes),
        a.body < nodes.len(),
        b.body < nodes.len(),
        inv_view(nodes, a) == inv_view(nodes, b),
    ensures
        a == b,
{
    lemma_term_at_injective(nodes, a.body as int, b.body as int);
}

/// An entry is found for an invention over places where one is found for it
/// as an invention over terms.
pub proof fn lemma_find_terms(nodes: Seq<Node>, e: Seq<(Invention, int)>, inv: Invention, n: nat)
    requires
        nodes_ok(nodes),
        nodes_distinct(nodes),
        entries_ok(nodes, e),
        inv.body < nodes.len(),
        n <= e.len(),
    ensures
        find_inv(entries_terms(nodes, e), inv_view(nodes, inv), n) == find_inv(e, inv, n),
    decreases n,
{
    if n > 0 {
        lemma_find_terms(nodes, e, inv, (n - 1) as nat);
        if entries_terms(nodes, e)[n - 1].0 == inv_view(nodes, inv) {
            lemma_inv_view_injective(nodes, e[n - 1].0, inv);
        }
    }
}

/// The cost under an invention over places is the cost under it as an
/// invention over terms.
pub proof fn lemma_cost_under_terms(nodes: Seq<Node>, b: SpecBest<Invention>, inv: Invention)
    requires
        nodes_ok(nodes),
        nodes_distinct(nodes),
        best_ok(nodes, b),
        inv.body < nodes.len(),
    ensures
        cost_under(best_terms(nodes, b), inv_view(nodes, inv)) == cost_under(b, inv),
        has_inv(best_terms(nodes, b), inv_view(nodes, inv)) == has_inv(b, inv),
{
    lemma_find_terms(nodes, b.inventionful_cost, inv, b.inventionful_cost.len());
    lemma_find_inv(b.inventionful_cost, inv, b.inventionful_cost.len());
}

/// Proposing a cost for an invention over places is proposing it for the
/// invention over terms.
pub proof fn lemma_propose_terms(nodes: Seq<Node>, b: SpecBest<Invention>, inv: Invention, c: int)
    requires
        nodes_ok(nodes),
        nodes_distinct(nodes),
        best_ok(nodes, b),
        inv.body < nodes.len(),
    ensures
        best_ok(nodes, propose(b, inv, c)),
        best_terms(nodes, propose(b, inv, c)) == propose(
            best_terms(nodes, b),
            inv_view(nodes, inv),
            c,
        ),
{
    lemma_find_terms(nodes, b.inventionful_cost, inv, b.inventionful_cost.len());
    lemma_find_inv(b.inventionful_cost, inv, b.inventionful_cost.len());
    let p = propose(b, inv, c);
    assert(best_terms(nodes, p).inventionful_cost =~= propose(
        best_terms(nodes, b),
        inv_view(nodes, inv),
        c,
    ).inventionful_cost);
}

/// A table stands for the same when the table of nodes grows.
pub proof fn lemma_best_prefix(a: Seq<Node>, b: Seq<Node>, t: SpecBest<Invention>)
    requires
        is_prefix(a, b),
        best_ok(a, t),
    ensures
        best_ok(b, t),
        best_terms(b, t) == best_terms(a, t),
{
    assert forall|k: int| 0 <= k < t.inventionful_cost.len() implies entries_terms(
        b,
        t.inventionful_cost,
    )[k] == entries_terms(a, t.inventionful_cost)[k] && (#[trigger] t.inventionful_cost[k]).0.body
        < b.len() by {
        lemma_term_at_prefix(a, b, t.inventionful_cost[k].0.body as int);
    }
    assert(entries_terms(b, t.inventionful_cost) =~= entries_terms(a, t.inventionful_cost));
}

/// Proposing for an application over places is proposing for it over
/// terms.
pub proof fn lemma_propagate_app_terms(
    nodes: Seq<Node>,
    b: SpecBest<Invention>,
    bf: SpecBest<Invention>,
    bx: SpecBest<Invention>,
    keys: Seq<(Invention, int)>,
    n: nat,
)
    requires
        nodes_ok(nodes),
        nodes_distinct(nodes),
        best_ok(nodes, b),
        best_ok(nodes, bf),
        best_ok(nodes, bx),
        entries_ok(nodes, keys),
        n <= keys.len(),
    ensures
        best_ok(nodes, propagate_app(b, bf, bx, keys, n)),
        best_terms(nodes, propagate_app(b, bf, bx, keys, n)) == propagate_app(
            best_terms(nodes, b),
            best_terms(nodes, bf),
            best_terms(nodes, bx),
            entries_terms(nodes, keys),
            n,
        ),
    decreases n,
{
    if n > 0 {
        lemma_propagate_app_terms(nodes, b, bf, bx, keys, (n - 1) as nat);
        let prev = propagate_app(b, bf, bx, keys, (n - 1) as nat);
        let inv = keys[n - 1].0;
        lemma_cost_under_terms(nodes, bf, inv);
        lemma_cost_under_terms(nodes, bx, inv);
        lemma_propose_terms(nodes, prev, inv, 1 + cost_under(bf, inv) + cost_under(bx, inv));
    }
}

/// Proposing for a lambda over places is proposing for it over terms.
pub proof fn lemma_propagate_lam_terms(
    nodes: Seq<Node>,
    b: SpecBest<Invention>,
    child: Seq<(Invention, int)>,
    n: nat,
)
    requires
        nodes_ok(nodes),
        nodes_distinct(nodes),
        best_ok(nodes, b),
        entries_ok(nodes, child),
        n <= child.len(),
    ensures
        best_ok(nodes, propagate_lam(b, child, n)),
        best_terms(nodes, propagate_lam(b, child, n)) == propagate_lam(
            best_terms(nodes, b),
            entries_terms(nodes, child),
            n,
        ),
    decreases n,
{
    if n > 0 {
        lemma_propagate_lam_terms(nodes, b, child, (n - 1) as nat);
        let prev = propagate_lam(b, child, (n - 1) as nat);
        lemma_propose_terms(nodes, prev, child[n - 1].0, child[n - 1].1 + 1);
    }
}

/// Sorting entries over places by cost is sorting them over terms.
pub proof fn lemma_sorted_terms(nodes: Seq<Node>, e: Seq<(Invention, int)>, n: nat)
    requires
        n <= e.len(),
    ensures
        sorted_by_cost(entries_terms(nodes, e), n) == entries_terms(nodes, sorted_by_cost(e, n)),
    decreases n,
{
    if n == 0 {
        assert(entries_terms(nodes, sorted_by_cost(e, 0)) =~= Seq::empty());
    } else {
        lemma_sorted_terms(nodes, e, (n - 1) as nat);
        lemma_insert_terms(nodes, sorted_by_cost(e, (n - 1) as nat), e[n - 1]);
    }
}

/// Putting an entry over places into a sorted list is putting it in over
/// terms.
pub proof fn lemma_insert_terms(nodes: Seq<Node>, s: Seq<(Invention, int)>, x: (Invention, int))
    ensures
        insert_sorted(entries_terms(nodes, s), (inv_view(nodes, x.0), x.1)) == entries_terms(
            nodes,
            insert_sorted(s, x),
        ),
    decreases s.len(),
{
    let st = entries_terms(nodes, s);
    let xt = (inv_view(nodes, x.0), x.1);
    if s.len() == 0 {
        assert(entries_terms(nodes, insert_sorted(s, x)) =~= seq![xt]);
    } else if s.last().1 <= x.1 {
        assert(st.last() == (inv_view(nodes, s.last().0), s.last().1));
        assert(entries_terms(nodes, s.push(x)) =~= st.push(xt));
    } else {
        assert(st.last() == (inv_view(nodes, s.last().0), s.last().1));
        lemma_insert_terms(nodes, s.drop_last(), x);
        assert(st.drop_last() =~= entries_terms(nodes, s.drop_last()));
        assert(entries_terms(nodes, insert_sorted(s.drop_last(), x).push(s.last()))
            =~= entries_terms(nodes, insert_sorted(s.drop_last(), x)).push(st.last()));
    }
}

/// Every sorted entry is one of the entries.
pub proof fn lemma_sorted_member<K>(e: Seq<(K, int)>, k: int)
    requires
        0 <= k < e.len(),
    ensures
        sorted_by_cost(e, e.len()).len() == e.len(),
        e.contains(sorted_by_cost(e, e.len())[k]),
{
    broadcast use vstd::seq_lib::group_to_multiset_ensures;

    lemma_sorted_by_cost(e, e.len());
    let s = sorted_by_cost(e, e.len());
    assert(e.subrange(0, e.len() as int) =~= e);
    assert(s.contains(s[k]));
    assert(s.to_multiset().count(s[k]) > 0);
}

/// The entries that stay when a table is narrowed to `n` entries: all, if
/// they are no more; else the first `n` of them sorted by cost.
pub open spec fn narrowed<K>(e: Seq<(K, int)>, n: nat) -> Seq<(K, int)> {
    if e.len() <= n {
        e
    } else {
        sorted_by_cost(e, e.len()).subrange(0, n as int)
    }
}

/// Whether one of the entries is for the invention.
pub open spec fn has_key<K>(s: Seq<(K, int)>, k: K) -> bool {
    exists|i: int| 0 <= i < s.len() && (#[trigger] s[i]).0 == k
}

/// An entry for a new invention, put into a sorted list of entries for
/// different inventions, gives a list of entries for different inventions:
/// those of the list, and the new one.
pub proof fn lemma_insert_sorted_keys<K>(s: Seq<(K, int)>, x: (K, int))
    requires
        keys_distinct(s),
        !has_key(s, x.0),
    ensures
        keys_distinct(insert_sorted(s, x)),
        forall|k: K| has_key(insert_sorted(s, x), k) <==> (has_key(s, k) || k == x.0),
    decreases s.len(),
{
    let r = insert_sorted(s, x);
    if s.len() == 0 {
        assert(r[0] == x);
        assert forall|k: K| has_key(r, k) <==> (has_key(s, k) || k == x.0) by {
            if k == x.0 {
                assert(r[0].0 == k);
            }
        }
    } else if s.last().1 <= x.1 {
        assert(r == s.push(x));
        assert forall|i: int, j: int|
            0 <= i < r.len() && 0 <= j < r.len() && (#[trigger] r[i]).0 == (#[trigger] r[j]).0
            implies i == j by {
            if i < s.len() && j < s.len() {
                assert(s[i].0 == s[j].0);
            } else if i < s.len() {
                assert(s[i].0 == x.0);
            } else if j < s.len() {
                assert(s[j].0 == x.0);
            }
        }
        assert forall|k: K| has_key(r, k) <==> (has_key(s, k) || k == x.0) by {
            if has_key(r, k) {
                let i = choose|i: int| 0 <= i < r.len() && (#[trigger] r[i]).0 == k;
                if i < s.len() {
                    assert(s[i].0 == k);
                }
            }
            if has_key(s, k) {
                let i = choose|i: int| 0 <= i < s.len() && (#[trigger] s[i]).0 == k;
                assert(r[i].0 == k);
            }
            if k == x.0 {
                assert(r[s.len() as int].0 == k);
            }
        }
    } else {
        let d = s.drop_last();
        let last = s.last();
        assert forall|i: int, j: int|
            0 <= i < d.len() && 0 <= j < d.len() && (#[trigger] d[i]).0 == (#[trigger] d[j]).0
            implies i == j by {
            assert(s[i].0 == s[j].0);
        }
        assert(!has_key(d, x.0)) by {
            if has_key(d, x.0) {
                let i = choose|i: int| 0 <= i < d.len() && (#[trigger] d[i]).0 == x.0;
                assert(s[i].0 == x.0);
            }
        }
        lemma_insert_sorted_keys(d, x);
        let q = insert_sorted(d, x);
        assert(r == q.push(last));
        assert(!has_key(q, last.0)) by {
            if has_key(q, last.0) {
                if has_key(d, last.0) {
                    let i = choose|i: int| 0 <= i < d.len() && (#[trigger] d[i]).0 == last.0;
                    assert(s[i].0 == s[s.len() - 1].0);
                } else {
                    assert(s[s.len() - 1].0 == x.0);
                }
            }
        }
        assert forall|i: int, j: int|
            0 <= i < r.len() && 0 <= j < r.len() && (#[trigger] r[i]).0 == (#[trigger] r[j]).0
            implies i == j by {
            if i < q.len() && j < q.len() {
                assert(q[i].0 == q[j].0);
            } else if i < q.len() {
                assert(q[i].0 == last.0);
            } else if j < q.len() {
                assert(q[j].0 == last.0);
            }
        }
        assert forall|k: K| has_key(r, k) <==> (has_key(s, k) || k == x.0) by {
            if has_key(r, k) {
                let i = choose|i: int| 0 <= i < r.len() && (#[trigger] r[i]).0 == k;
                if i < q.len() {
                    assert(q[i].0 == k);
                    assert(has_key(q, k));
                    assert(has_key(insert_sorted(d, x), k) <==> (has_key(d, k) || k == x.0));
                    if has_key(d, k) {
                        let j = choose|j: int| 0 <= j < d.len() && (#[trigger] d[j]).0 == k;
                        assert(s[j].0 == k);
                    }
                } else {
                    assert(s[s.len() - 1].0 == k);
                }
            }
            if has_key(s, k) {
                let i = choose|i: int| 0 <= i < s.len() && (#[trigger] s[i]).0 == k;
                if i < d.len() {
                    assert(d[i].0 == k);
                    assert(has_key(d, k));
                    assert(has_key(insert_sorted(d, x), k) <==> (has_key(d, k) || k == x.0));
                    assert(has_key(q, k));
                    let j = choose|j: int| 0 <= j < q.len() && (#[trigger] q[j]).0 == k;
                    assert(r[j].0 == k);
                } else {
                    assert(r[q.len() as int].0 == k);
                }
            }
            if k == x.0 {
                assert(has_key(insert_sorted(d, x), k) <==> (has_key(d, k) || k == x.0));
                assert(has_key(q, k));
                let j = choose|j: int| 0 <= j < q.len() && (#[trigger] q[j]).0 == k;
                assert(r[j].0 == k);
            }
        }
    }
}

/// Entries for different inventions, sorted, are entries for different
/// inventions: those of the entries that were sorted.
pub proof fn lemma_sorted_keys<K>(e: Seq<(K, int)>, n: nat)
    requires
        n <= e.len(),
        keys_distinct(e),
    ensures
        keys_distinct(sorted_by_cost(e, n)),
        forall|k: K| has_key(sorted_by_cost(e, n), k) <==> has_key(e.subrange(0, n as int), k),
    decreases n,
{
    if n == 0 {
        assert(sorted_by_cost(e, 0) =~= Seq::<(K, int)>::empty());
    } else {
        lemma_sorted_keys(e, (n - 1) as nat);
        let prev = sorted_by_cost(e, (n - 1) as nat);
        let x = e[n - 1];
        let a = e.subrange(0, n - 1);
        let b = e.subrange(0, n as int);
        assert(!has_key(prev, x.0)) by {
            if has_key(prev, x.0) {
                assert(has_key(prev, x.0) <==> has_key(a, x.0));
                assert(has_key(a, x.0));
                let i = choose|i: int| 0 <= i < a.len() && (#[trigger] a[i]).0 == x.0;
                assert(e[i].0 == e[n - 1].0);
            }
        }
        lemma_insert_sorted_keys(prev, x);
        let now = sorted_by_cost(e, n);
        assert(now == insert_sorted(prev, x));
        assert(a.len() == n - 1 && b.len() == n);
        assert forall|k: K| has_key(now, k) <==> has_key(b, k) by {
            assert(has_key(prev, k) <==> has_key(a, k));
            assert(has_key(insert_sorted(prev, x), k) <==> (has_key(prev, k) || k == x.0));
            if has_key(a, k) {
                let i = choose|i: int| 0 <= i < a.len() && (#[trigger] a[i]).0 == k;
                assert(b[i].0 == k);
            }
            if k == x.0 {
                assert(b[n - 1].0 == k);
            }
            if has_key(b, k) {
                let i = choose|i: int| 0 <= i < b.len() && (#[trigger] b[i]).0 == k;
                if i < n - 1 {
                    assert(a[i].0 == k);
                }
            }
        }
    }
}

} // verus!
