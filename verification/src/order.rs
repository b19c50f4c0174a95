//! The order in which the nodes of a corpus are visited: every node after
//! its children, no node twice.
use vstd::prelude::*;
use crate::term::Term;
use crate::expr::{
    Id, Lambda, Node, ids_below, nodes_ok, nodes_distinct, node_ok, term_at, terms_of,
    lemma_term_at_unfold, lemma_term_at_injective,
};
use crate::store::Dag;

verus! {

/// The list `acc` followed by those subterms of `t` that it lacks, each
/// after its own subterms: the children of a term from left to right, then
/// the term.
pub open spec fn post_order(t: Term, acc: Seq<Term>) -> Seq<Term>
    decreases t, 0nat,
{
    if acc.contains(t) {
        acc
    } else {
        let a = match t {
            Term::App(f, x) => post_order(*x, post_order(*f, acc)),
            Term::Lam(b) => post_order(*b, acc),
            Term::Programs(ps) => post_order_all(ps, ps.len(), acc),
            _ => acc,
        };
        if a.contains(t) {
            a
        } else {
            a.push(t)
        }
    }
}

/// The list `acc` followed by what the first `n` terms of `ps` add, in
/// order.
pub open spec fn post_order_all(ps: Seq<Term>, n: nat, acc: Seq<Term>) -> Seq<Term>
    decreases ps, n,
{
    if n == 0 || n > ps.len() {
        acc
    } else {
        post_order(ps[n - 1], post_order_all(ps, (n - 1) as nat, acc))
    }
}

/// Whether the term stands among the first `k` of the list.
pub open spec fn before(ts: Seq<Term>, k: int, u: Term) -> bool {
    exists|i: int| 0 <= i < k && i < ts.len() && ts[i] == u
}

/// Whether all terms of `ps` stand among the first `k` of the list.
pub open spec fn all_before(ts: Seq<Term>, k: int, ps: Seq<Term>) -> bool {
    forall|j: int| 0 <= j < ps.len() ==> before(ts, k, #[trigger] ps[j])
}

/// Whether the children of the term at `k` stand before it.
pub open spec fn children_before(ts: Seq<Term>, k: int) -> bool {
    match ts[k] {
        Term::App(f, x) => before(ts, k, *f) && before(ts, k, *x),
        Term::Lam(b) => before(ts, k, *b),
        Term::Programs(ps) => all_before(ts, k, ps),
        _ => true,
    }
}

/// Whether every term of the list stands after its children.
pub open spec fn children_first(ts: Seq<Term>) -> bool {
    forall|k: int| 0 <= k < ts.len() ==> #[trigger] children_before(ts, k)
}

/// The number of the nodes of a term.
pub open spec fn size(t: Term) -> nat
    decreases t, 0nat,
{
    match t {
        Term::App(f, x) => 1 + size(*f) + size(*x),
        Term::Lam(b) => 1 + size(*b),
        Term::Programs(ps) => 1 + size_sum(ps, ps.len()),
        _ => 1,
    }
}

/// The number of the nodes of the first `n` terms.
pub open spec fn size_sum(ps: Seq<Term>, n: nat) -> nat
    decreases ps, n,
{
    if n == 0 || n > ps.len() {
        0
    } else {
        size_sum(ps, (n - 1) as nat) + size(ps[n - 1])
    }
}

/// Each of the first terms of a list is no larger than all of them together.
pub proof fn lemma_size_sum(ps: Seq<Term>, n: nat, k: int)
    requires
        0 <= k < n <= ps.len(),
    ensures
        size(ps[k]) <= size_sum(ps, n),
    decreases n,
{
    if k < n - 1 {
        lemma_size_sum(ps, (n - 1) as nat, k);
    }
}

/// Whether every term of `r` from the place `from` on has `bound` nodes at
/// most.
pub open spec fn sizes_from(r: Seq<Term>, from: int, bound: nat) -> bool {
    forall|k: int| from <= k < r.len() ==> size(#[trigger] r[k]) <= bound
}

/// Whether the children of a term stand before it depends on what stands
/// before it alone.
pub proof fn lemma_children_before_prefix(a: Seq<Term>, r: Seq<Term>, k: int)
    requires
        0 <= k < a.len() <= r.len(),
        r.subrange(0, a.len() as int) == a,
        children_before(a, k),
    ensures
        children_before(r, k),
{
    assert forall|i: int| 0 <= i < a.len() implies a[i] == r[i] by {
        assert(r.subrange(0, a.len() as int)[i] == r[i]);
    }
    match a[k] {
        Term::App(f, x) => {
            let i = choose|i: int| 0 <= i < k && i < a.len() && a[i] == *f;
            assert(r[i] == *f);
            let j = choose|j: int| 0 <= j < k && j < a.len() && a[j] == *x;
            assert(r[j] == *x);
        },
        Term::Lam(b) => {
            let i = choose|i: int| 0 <= i < k && i < a.len() && a[i] == *b;
            assert(r[i] == *b);
        },
        Term::Programs(ps) => {
            assert forall|j: int| 0 <= j < ps.len() implies before(r, k, #[trigger] ps[j]) by {
                assert(before(a, k, ps[j]));
                let i = choose|i: int| 0 <= i < k && i < a.len() && a[i] == ps[j];
                assert(r[i] == ps[j]);
            }
        },
        _ => {},
    }
}

/// What holds of the order of the subterms of a term, added to a list in
/// which every term stands after its children and none twice: the same holds
/// of the result; the list is the beginning of the result; the result holds
/// the term; what was added has no more nodes than the term; and the term
/// is the last, if the list did not hold it.
pub proof fn lemma_post_order(t: Term, acc: Seq<Term>)
    requires
        children_first(acc),
        acc.no_duplicates(),
    ensures
        children_first(post_order(t, acc)),
        post_order(t, acc).no_duplicates(),
        acc.len() <= post_order(t, acc).len(),
        post_order(t, acc).subrange(0, acc.len() as int) == acc,
        post_order(t, acc).contains(t),
        sizes_from(post_order(t, acc), acc.len() as int, size(t)),
        !acc.contains(t) ==> post_order(t, acc).last() == t,
    decreases t, 0nat,
{
    let r = post_order(t, acc);
    if acc.contains(t) {
        assert(acc.subrange(0, acc.len() as int) =~= acc);
    } else {
        let a = match t {
            Term::App(f, x) => post_order(*x, post_order(*f, acc)),
            Term::Lam(b) => post_order(*b, acc),
            Term::Programs(ps) => post_order_all(ps, ps.len(), acc),
            _ => acc,
        };
        match t {
            Term::App(f, x) => {
                lemma_post_order(*f, acc);
                let a1 = post_order(*f, acc);
                lemma_post_order(*x, a1);
                assert(a.subrange(0, acc.len() as int) =~= a.subrange(
                    0,
                    a1.len() as int,
                ).subrange(0, acc.len() as int));
                let i = choose|i: int| 0 <= i < a1.len() && a1[i] == *f;
                assert(a.subrange(0, a1.len() as int)[i] == a[i]);
                assert(a.contains(*f));
                assert forall|k: int| acc.len() <= k < a.len() implies size(#[trigger] a[k])
                    < size(t) by {
                    if k < a1.len() {
                        assert(a.subrange(0, a1.len() as int)[k] == a[k]);
                    }
                }
            },
            Term::Lam(b) => {
                lemma_post_order(*b, acc);
            },
            Term::Programs(ps) => {
                lemma_post_order_all(ps, ps.len(), acc);
            },
            _ => {
                assert(acc.subrange(0, acc.len() as int) =~= acc);
            },
        }
        assert forall|k: int| 0 <= k < acc.len() implies a[k] == acc[k] by {
            assert(a.subrange(0, acc.len() as int)[k] == a[k]);
        }
        assert(!a.contains(t)) by {
            if a.contains(t) {
                let k = choose|k: int| 0 <= k < a.len() && a[k] == t;
                if k < acc.len() {
                    assert(acc[k] == t);
                } else {
                    assert(size(a[k]) < size(t));
                }
            }
        }
        assert(r == a.push(t));
        assert(r.subrange(0, acc.len() as int) =~= a.subrange(0, acc.len() as int));
        assert(r[a.len() as int] == t);
        assert forall|k: int| 0 <= k < r.len() implies #[trigger] children_before(r, k) by {
            if k < a.len() {
                assert(children_before(a, k));
                assert(r.subrange(0, a.len() as int) =~= a);
                lemma_children_before_prefix(a, r, k);
            } else {
                match t {
                    Term::App(f, x) => {
                        let i = choose|i: int| 0 <= i < a.len() && a[i] == *f;
                        assert(r[i] == *f);
                        let j = choose|j: int| 0 <= j < a.len() && a[j] == *x;
                        assert(r[j] == *x);
                    },
                    Term::Lam(b) => {
                        let i = choose|i: int| 0 <= i < a.len() && a[i] == *b;
                        assert(r[i] == *b);
                    },
                    Term::Programs(ps) => {
                        assert forall|j: int| 0 <= j < ps.len() implies before(
                            r,
                            k,
                            #[trigger] ps[j],
                        ) by {
                            assert(a.contains(ps[j]));
                            let i = choose|i: int| 0 <= i < a.len() && a[i] == ps[j];
                            assert(r[i] == ps[j]);
                        }
                    },
                    _ => {},
                }
            }
        }
        assert forall|i: int, j: int| 0 <= i < r.len() && 0 <= j < r.len() && i != j implies r[i]
            != r[j] by {
            if i < a.len() && j < a.len() {
                assert(a[i] != a[j]);
            } else if i < a.len() {
                assert(a.contains(a[i]));
            } else {
                assert(a.contains(a[j]));
            }
        }
        assert forall|k: int| acc.len() <= k < r.len() implies size(#[trigger] r[k]) <= size(
            t,
        ) by {
            if k < a.len() {
                assert(r[k] == a[k]);
            }
        }
    }
}

/// The same for the subterms of the first `n` terms of the list `ps` of the
/// programs of a container: what was added is smaller than the container,
/// and the result holds each of the `n` terms.
pub proof fn lemma_post_order_all(ps: Seq<Term>, n: nat, acc: Seq<Term>)
    requires
        children_first(acc),
        acc.no_duplicates(),
        n <= ps.len(),
    ensures
        children_first(post_order_all(ps, n, acc)),
        post_order_all(ps, n, acc).no_duplicates(),
        acc.len() <= post_order_all(ps, n, acc).len(),
        post_order_all(ps, n, acc).subrange(0, acc.len() as int) == acc,
        forall|k: int| 0 <= k < n ==> post_order_all(ps, n, acc).contains(#[trigger] ps[k]),
        forall|k: int|
            acc.len() <= k < post_order_all(ps, n, acc).len() ==> size(
                #[trigger] post_order_all(ps, n, acc)[k],
            ) < size(Term::Programs(ps)),
    decreases ps, n,
{
    if n == 0 {
        assert(acc.subrange(0, acc.len() as int) =~= acc);
    } else {
        lemma_post_order_all(ps, (n - 1) as nat, acc);
        let a1 = post_order_all(ps, (n - 1) as nat, acc);
        lemma_post_order(ps[n - 1], a1);
        let a = post_order_all(ps, n, acc);
        assert(a.subrange(0, acc.len() as int) =~= a.subrange(0, a1.len() as int).subrange(
            0,
            acc.len() as int,
        ));
        assert forall|k: int| 0 <= k < a1.len() implies a[k] == a1[k] by {
            assert(a.subrange(0, a1.len() as int)[k] == a[k]);
        }
        assert forall|k: int| 0 <= k < n implies a.contains(#[trigger] ps[k]) by {
            if k < n - 1 {
                let i = choose|i: int| 0 <= i < a1.len() && a1[i] == ps[k];
                assert(a[i] == ps[k]);
            }
        }
        lemma_size_sum(ps, ps.len(), n - 1);
        assert forall|k: int| acc.len() <= k < a.len() implies size(#[trigger] a[k]) < size(
            Term::Programs(ps),
        ) by {
            if k < a1.len() {
                assert(a[k] == a1[k]);
            }
        }
    }
}

/// Whether `seen` says of every place whether the list holds it.
pub open spec fn marks(seen: Seq<bool>, order: Seq<usize>) -> bool {
    forall|i: usize| i < seen.len() ==> #[trigger] seen[i as int] == order.contains(i)
}

/// A list of places of a store holds a place where the list of their terms
/// holds its term.
pub proof fn lemma_contains_term(nodes: Seq<Node>, order: Seq<usize>, id: usize)
    requires
        nodes_ok(nodes),
        nodes_distinct(nodes),
        ids_below(order, nodes.len() as int),
        id < nodes.len(),
    ensures
        terms_of(nodes, order).contains(term_at(nodes, id as int)) == order.contains(id),
{
    let ts = terms_of(nodes, order);
    let t = term_at(nodes, id as int);
    if ts.contains(t) {
        let k = choose|k: int| 0 <= k < ts.len() && ts[k] == t;
        lemma_term_at_injective(nodes, order[k] as int, id as int);
        assert(order[k] == id);
    }
    if order.contains(id) {
        let k = choose|k: int| 0 <= k < order.len() && order[k] == id;
        assert(ts[k] == t);
    }
}

/// Appends to `order` those of the nodes under `id` that it lacks, each
/// after its children. `seen` marks the places that `order` holds.
pub fn topological_ordering_rec(id: Id, store: &Dag, order: &mut Vec<Id>, seen: &mut Vec<bool>)
    requires
        store.wf(),
        id < store@.len(),
        old(seen)@.len() == store@.len(),
        ids_below(old(order)@, store.size()),
        marks(old(seen)@, old(order)@),
    ensures
        final(seen)@.len() == store@.len(),
        ids_below(final(order)@, store.size()),
        marks(final(seen)@, final(order)@),
        terms_of(store@, final(order)@) == post_order(
            store.term(id as int),
            terms_of(store@, old(order)@),
        ),
    decreases id,
{
    let ghost t = store.term(id as int);
    let ghost acc = terms_of(store@, order@);
    proof {
        lemma_contains_term(store@, order@, id);
        lemma_term_at_unfold(store@, id as int);
        assert(node_ok(store@[id as int], id as int));
    }
    if seen[id] {
        return;
    }
    match store.get(id) {
        Lambda::App(f, x) => {
            topological_ordering_rec(*f, store, order, seen);
            topological_ordering_rec(*x, store, order, seen);
        },
        Lambda::Lam(b) => {
            topological_ordering_rec(*b, store, order, seen);
        },
        Lambda::Programs(roots) => {
            let ghost ps = terms_of(store@, roots@);
            let mut k: usize = 0;
            while k < roots.len()
                invariant
                    k <= roots@.len(),
                    store.wf(),
                    id < store@.len(),
                    ids_below(roots@, id as int),
                    ps == terms_of(store@, roots@),
                    seen@.len() == store@.len(),
                    ids_below(order@, store.size()),
                    marks(seen@, order@),
                    terms_of(store@, order@) == post_order_all(ps, k as nat, acc),
                decreases roots@.len() - k,
            {
                assert(ps[k as int] == store.term(roots@[k as int] as int));
                topological_ordering_rec(roots[k], store, order, seen);
                k += 1;
            }
        },
        _ => {},
    }
    proof {
        lemma_contains_term(store@, order@, id);
    }
    if !seen[id] {
        let ghost before = order@;
        let ghost marks_before = seen@;
        order.push(id);
        seen.set(id, true);
        proof {
            assert(terms_of(store@, order@) =~= terms_of(store@, before).push(t));
            assert forall|i: usize| i < seen@.len() implies #[trigger] seen@[i as int]
                == order@.contains(i) by {
                if i == id {
                    assert(order@[before.len() as int] == id);
                } else {
                    assert(marks_before[i as int] == before.contains(i));
                    if before.contains(i) {
                        let k = choose|k: int| 0 <= k < before.len() && before[k] == i;
                        assert(order@[k] == i);
                    }
                    if order@.contains(i) {
                        let k = choose|k: int| 0 <= k < order@.len() && order@[k] == i;
                        if k < before.len() {
                            assert(before[k] == i);
                        }
                    }
                }
            }
        }
    }
}

/// The places of the nodes under `root`: each after its children, none
/// twice, `root` the last.
pub fn topological_ordering(root: Id, store: &Dag) -> (order: Vec<Id>)
    requires
        store.wf(),
        root < store@.len(),
    ensures
        ids_below(order@, store.size()),
        terms_of(store@, order@) == post_order(store.term(root as int), Seq::empty()),
        children_first(terms_of(store@, order@)),
        terms_of(store@, order@).no_duplicates(),
        order@.len() > 0,
        order@.last() == root,
{
    proof {
        lemma_post_order(store.term(root as int), Seq::empty());
    }
    let mut seen: Vec<bool> = Vec::new();
    let mut k: usize = 0;
    while k < store.len()
        invariant
            k <= store@.len(),
            seen@.len() == k,
            forall|i: int| 0 <= i < k ==> !(#[trigger] seen@[i]),
        decreases store@.len() - k,
    {
        seen.push(false);
        k += 1;
    }
    let mut order: Vec<Id> = Vec::new();
    assert(terms_of(store@, order@) =~= Seq::<Term>::empty());
    topological_ordering_rec(root, store, &mut order, &mut seen);
    proof {
        let ts = terms_of(store@, order@);
        assert(ts.last() == store.term(root as int));
        assert(ts[ts.len() - 1] == store.term(order@[order@.len() - 1] as int));
        lemma_term_at_injective(store@, order@[order@.len() - 1] as int, root as int);
    }
    order
}

} // verus!
