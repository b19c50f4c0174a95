//! Moving the indices of a term of the store: the free variables by a
//! constant, or the holes by a constant or by a table. The results are kept,
//! by place and depth, for each way of moving.
use vstd::prelude::*;
use std::collections::HashMap;
use crate::term::{
    ShiftSpec, shift_term, lemma_shift_vars_unchanged, lemma_shift_holes_unchanged,
    lemma_shift_keeps_cost,
};
use crate::expr::{
    Id, Lambda, Node, is_prefix, term_at, lemma_node_term, lemma_term_at_prefix,
    lemma_term_at_unfold,
};
use crate::store::{Dag, refs_set, lemma_refs_empty};

verus! {

broadcast use vstd::std_specs::hash::group_hash_axioms;

/// The entries of a table of shifts, as integers.
pub open spec fn table_view(t: Seq<i32>) -> Seq<int> {
    Seq::new(t.len(), |i: int| t[i] as int)
}

/// A way of moving indices.
#[derive(Debug, Clone, PartialEq, Eq, Hash)]
pub enum Shift {
    /// Every free variable `$i` becomes `$(i + k)`.
    ShiftVar(i32),
    /// Every hole `#i` becomes `#(i + k)`.
    ShiftIVar(i32),
    /// Every hole `#i` becomes `#(i + table[i])`.
    TableShiftIVar(Vec<i32>),
}

impl View for Shift {
    type V = ShiftSpec;

    open spec fn view(&self) -> ShiftSpec {
        match *self {
            Shift::ShiftVar(k) => ShiftSpec::Var(k as int),
            Shift::ShiftIVar(k) => ShiftSpec::IVar(k as int),
            Shift::TableShiftIVar(t) => ShiftSpec::Table(table_view(t@)),
        }
    }
}

/// Whether two tables hold the same entries.
pub fn same_table(a: &Vec<i32>, b: &Vec<i32>) -> (r: bool)
    ensures
        r == (table_view(a@) == table_view(b@)),
{
    if a.len() != b.len() {
        assert(table_view(a@).len() != table_view(b@).len());
        return false;
    }
    let mut i: usize = 0;
    while i < a.len()
        invariant
            i <= a.len(),
            a.len() == b.len(),
            forall|k: int| 0 <= k < i ==> a@[k] == b@[k],
        decreases a.len() - i,
    {
        if a[i] != b[i] {
            assert(table_view(a@)[i as int] != table_view(b@)[i as int]);
            return false;
        }
        i += 1;
    }
    assert(table_view(a@) =~= table_view(b@));
    true
}

/// A copy of a table.
pub fn copy_table(a: &Vec<i32>) -> (r: Vec<i32>)
    ensures
        r@ == a@,
{
    let mut r: Vec<i32> = Vec::new();
    let mut i: usize = 0;
    while i < a.len()
        invariant
            i <= a.len(),
            r@ == a@.subrange(0, i as int),
        decreases a.len() - i,
    {
        r.push(a[i]);
        i += 1;
        assert(r@ =~= a@.subrange(0, i as int));
    }
    assert(r@ =~= a@);
    r
}

impl Shift {
    /// Whether two ways of moving are the same.
    pub fn same(&self, other: &Shift) -> (r: bool)
        ensures
            r == (self@ == other@),
    {
        match (self, other) {
            (Shift::ShiftVar(a), Shift::ShiftVar(b)) => *a == *b,
            (Shift::ShiftIVar(a), Shift::ShiftIVar(b)) => *a == *b,
            (Shift::TableShiftIVar(a), Shift::TableShiftIVar(b)) => same_table(a, b),
            _ => false,
        }
    }

    /// A copy of the way of moving.
    pub fn copy(&self) -> (r: Shift)
        ensures
            r@ == self@,
    {
        match self {
            Shift::ShiftVar(k) => Shift::ShiftVar(*k),
            Shift::ShiftIVar(k) => Shift::ShiftIVar(*k),
            Shift::TableShiftIVar(t) => Shift::TableShiftIVar(copy_table(t)),
        }
    }

    /// Whether free variables are moved, and not holes.
    pub fn on_vars(&self) -> (r: bool)
        ensures
            r == (self@ is Var),
    {
        match self {
            Shift::ShiftVar(_) => true,
            _ => false,
        }
    }
}

/// Whether `r` is what moving the term at the place `id` gives: a place of
/// the moved term, or nothing where the term cannot be moved.
pub open spec fn shift_result_ok(
    nodes: Seq<Node>,
    m: ShiftSpec,
    id: int,
    depth: nat,
    r: Option<Id>,
) -> bool {
    match shift_term(term_at(nodes, id), m, depth) {
        Some(t) => r is Some && r.unwrap() < nodes.len() && term_at(nodes, r.unwrap() as int) == t,
        None => r is None,
    }
}

/// Whether every result that is kept for a place is right.
pub open spec fn memo_row_ok(
    nodes: Seq<Node>,
    m: ShiftSpec,
    id: int,
    row: Seq<(usize, Option<Id>)>,
) -> bool {
    forall|k: int|
        0 <= k < row.len() ==> shift_result_ok(
            nodes,
            m,
            id,
            (#[trigger] row[k]).0 as nat,
            row[k].1,
        )
}

/// The results that are kept for one way of moving: for a place, the depths
/// at which the term there was moved, each with the result.
#[derive(Debug)]
pub struct ShiftCache {
    pub mode: Shift,
    pub seen: HashMap<Id, Vec<(usize, Option<Id>)>>,
}

/// The result that the first of the first `n` entries of a row for a depth
/// holds.
pub open spec fn row_find(row: Seq<(usize, Option<Id>)>, depth: usize, n: nat) -> Option<
    Option<Id>,
>
    decreases n,
{
    if n == 0 {
        None
    } else {
        match row_find(row, depth, (n - 1) as nat) {
            Some(v) => Some(v),
            None => if row[n - 1].0 == depth {
                Some(row[n - 1].1)
            } else {
                None
            },
        }
    }
}

/// A result that is found among the first entries of a row is the result
/// that is found.
pub proof fn lemma_row_find_stays(row: Seq<(usize, Option<Id>)>, depth: usize, n: nat, m: nat)
    requires
        n <= m,
        row_find(row, depth, n) is Some,
    ensures
        row_find(row, depth, m) == row_find(row, depth, n),
    decreases m,
{
    if n < m {
        lemma_row_find_stays(row, depth, n, (m - 1) as nat);
    }
}

/// An entry that follows a row does not change what is found in the row.
pub proof fn lemma_row_find_push(
    row: Seq<(usize, Option<Id>)>,
    x: (usize, Option<Id>),
    depth: usize,
    n: nat,
)
    requires
        n <= row.len(),
    ensures
        row_find(row.push(x), depth, n) == row_find(row, depth, n),
    decreases n,
{
    if n > 0 {
        lemma_row_find_push(row, x, depth, (n - 1) as nat);
        assert(row.push(x)[n - 1] == row[n - 1]);
    }
}

/// A result that is found in a row is a result of the row.
pub proof fn lemma_row_find_in(row: Seq<(usize, Option<Id>)>, depth: usize, n: nat)
    requires
        n <= row.len(),
        row_find(row, depth, n) is Some,
    ensures
        exists|k: int| 0 <= k < n && #[trigger] row[k] == (depth, row_find(row, depth, n).unwrap()),
    decreases n,
{
    if row_find(row, depth, (n - 1) as nat) is Some {
        lemma_row_find_in(row, depth, (n - 1) as nat);
        let k = choose|k: int|
            0 <= k < n - 1 && #[trigger] row[k] == (
                depth,
                row_find(row, depth, (n - 1) as nat).unwrap(),
            );
        assert(row[k] == (depth, row_find(row, depth, n).unwrap()));
    } else {
        assert(row[n - 1] == (depth, row_find(row, depth, n).unwrap()));
    }
}

impl ShiftCache {
    /// The result that is kept for a place and a depth, if one is.
    pub open spec fn kept(&self, id: usize, depth: usize) -> Option<Option<Id>> {
        if self.seen@.contains_key(id) {
            row_find(self.seen@[id]@, depth, self.seen@[id]@.len())
        } else {
            None
        }
    }

    /// Whether `new` keeps for every place above `id` what this keeps.
    pub open spec fn same_above(&self, new: &ShiftCache, id: usize) -> bool {
        forall|k: usize|
            k > id ==> new.seen@.contains_key(k) == #[trigger] self.seen@.contains_key(k) && (
            self.seen@.contains_key(k) ==> new.seen@[k] == self.seen@[k])
    }

    /// Whether `new` keeps for every place but `id` what this keeps.
    pub open spec fn same_but(&self, new: &ShiftCache, id: usize) -> bool {
        forall|k: usize|
            k != id ==> new.seen@.contains_key(k) == #[trigger] self.seen@.contains_key(k) && (
            self.seen@.contains_key(k) ==> new.seen@[k] == self.seen@[k])
    }

    /// Whether the results are kept for places of the table, and are right.
    pub open spec fn wf(&self, nodes: Seq<Node>) -> bool {
        forall|id: usize| #[trigger]
            self.seen@.contains_key(id) ==> id < nodes.len() && memo_row_ok(
                nodes,
                self.mode@,
                id as int,
                self.seen@[id]@,
            )
    }

    /// Nothing kept, for the way of moving `mode`.
    pub fn new(mode: Shift) -> (r: ShiftCache)
        ensures
            r.mode@ == mode@,
            r.seen@ == Map::<Id, Vec<(usize, Option<Id>)>>::empty(),
    {
        ShiftCache { mode, seen: HashMap::new() }
    }

    /// The result that is kept for a place and a depth, if one is.
    pub fn find(&self, id: Id, depth: usize) -> (r: Option<Option<Id>>)
        ensures
            r == self.kept(id, depth),
    {
        match self.seen.get(&id) {
            None => None,
            Some(row) => {
                let mut k: usize = 0;
                while k < row.len()
                    invariant
                        k <= row@.len(),
                        self.seen@.contains_key(id),
                        self.seen@[id] == *row,
                        row_find(row@, depth, k as nat) is None,
                    decreases row@.len() - k,
                {
                    if row[k].0 == depth {
                        proof {
                            assert(row_find(row@, depth, (k + 1) as nat) == Some(row@[k as int].1));
                            lemma_row_find_stays(row@, depth, (k + 1) as nat, row@.len());
                        }
                        return Some(row[k].1);
                    }
                    k += 1;
                }
                None
            },
        }
    }

    /// Keeps a result for a place and a depth, after those that are kept for
    /// the place.
    pub fn keep(&mut self, id: Id, depth: usize, r: Option<Id>, Ghost(nodes): Ghost<Seq<Node>>)
        requires
            old(self).wf(nodes),
            id < nodes.len(),
            shift_result_ok(nodes, old(self).mode@, id as int, depth as nat, r),
        ensures
            final(self).wf(nodes),
            final(self).mode == old(self).mode,
            final(self).seen@.contains_key(id),
            final(self).seen@[id]@ == (if old(self).seen@.contains_key(id) {
                old(self).seen@[id]@
            } else {
                Seq::empty()
            }).push((depth, r)),
            old(self).same_but(final(self), id),
            old(self).kept(id, depth) is None ==> final(self).kept(id, depth) == Some(r),
    {
        let mut row = match self.seen.remove(&id) {
            Some(row) => row,
            None => Vec::new(),
        };
        assert(memo_row_ok(nodes, self.mode@, id as int, row@));
        let ghost before = row@;
        row.push((depth, r));
        assert forall|k: int| 0 <= k < row@.len() implies shift_result_ok(
            nodes,
            self.mode@,
            id as int,
            (#[trigger] row@[k]).0 as nat,
            row@[k].1,
        ) by {
            if k < before.len() {
                assert(row@[k] == before[k]);
            }
        }
        proof {
            lemma_row_find_push(before, (depth, r), depth, before.len());
        }
        self.seen.insert(id, row);
    }
}

/// Right results stay right when the table grows.
pub proof fn lemma_shift_result_prefix(
    a: Seq<Node>,
    b: Seq<Node>,
    m: ShiftSpec,
    id: int,
    depth: nat,
    r: Option<Id>,
)
    requires
        is_prefix(a, b),
        0 <= id < a.len(),
        shift_result_ok(a, m, id, depth, r),
    ensures
        shift_result_ok(b, m, id, depth, r),
{
    lemma_term_at_prefix(a, b, id);
    if r is Some {
        lemma_term_at_prefix(a, b, r.unwrap() as int);
    }
}

/// Kept results stay right when the table grows.
pub proof fn lemma_cache_prefix(a: Seq<Node>, b: Seq<Node>, c: &ShiftCache)
    requires
        is_prefix(a, b),
        c.wf(a),
    ensures
        c.wf(b),
{
    assert forall|id: usize| #[trigger] c.seen@.contains_key(id) implies id < b.len()
        && memo_row_ok(b, c.mode@, id as int, c.seen@[id]@) by {
        let row = c.seen@[id]@;
        assert(memo_row_ok(a, c.mode@, id as int, row));
        assert forall|k: int| 0 <= k < row.len() implies shift_result_ok(
            b,
            c.mode@,
            id as int,
            (#[trigger] row[k]).0 as nat,
            row[k].1,
        ) by {
            lemma_shift_result_prefix(a, b, c.mode@, id as int, row[k].0 as nat, row[k].1);
        }
    }
}

/// Whether every index of the list lies below `depth`.
pub fn refs_below(v: &Vec<u32>, depth: usize) -> (r: bool)
    ensures
        r == (forall|i: nat| refs_set(v@).contains(i) ==> i < depth),
{
    let mut k: usize = 0;
    while k < v.len()
        invariant
            k <= v@.len(),
            forall|j: int| 0 <= j < k ==> v@[j] < depth,
        decreases v@.len() - k,
    {
        if v[k] as usize >= depth {
            assert(refs_set(v@).contains(v@[k as int] as nat));
            return false;
        }
        k += 1;
    }
    true
}

/// Moves the indices of the term at the place `e`, which stands under `depth`
/// binders, as the way of moving of `cache` says, and gives the place of the
/// result; `None` where an index cannot be moved.
pub fn shift_rec(store: &mut Dag, e: Id, depth: usize, cache: &mut ShiftCache) -> (r: Option<Id>)
    requires
        old(store).wf(),
        e < old(store)@.len(),
        depth + e <= usize::MAX,
        old(cache).wf(old(store)@),
    ensures
        final(store).wf(),
        final(store).extends(old(store)),
        final(cache).wf(final(store)@),
        final(cache).mode == old(cache).mode,
        shift_result_ok(final(store)@, old(cache).mode@, e as int, depth as nat, r),
        final(cache).kept(e, depth) == Some(r),
        old(cache).same_above(final(cache), e),
    decreases e,
{
    let ghost m = cache.mode@;
    let ghost t = store.term(e as int);
    match cache.find(e, depth) {
        Some(r) => {
            proof {
                let row = cache.seen@[e]@;
                assert(memo_row_ok(store@, m, e as int, row));
                lemma_row_find_in(row, depth, row.len());
            }
            return r;
        },
        None => {},
    }
    let on_vars = cache.mode.on_vars();
    let unchanged = {
        let d = store.data_of(e);
        if on_vars {
            refs_below(&d.upward_refs, depth)
        } else {
            proof {
                lemma_refs_empty(d.upward_refs_ivar@);
            }
            d.upward_refs_ivar.len() == 0
        }
    };
    if unchanged {
        proof {
            if on_vars {
                lemma_shift_vars_unchanged(t, m->Var_0, depth as nat);
            } else {
                lemma_shift_holes_unchanged(t, m, depth as nat);
            }
        }
        cache.keep(e, depth, Some(e), Ghost(store@));
        return Some(e);
    }
    proof {
        lemma_term_at_unfold(store@, e as int);
        assert(crate::expr::node_ok(store@[e as int], e as int));
        assert(store.data@[e as int].describes(t));
    }
    let node = store.get(e).copy();
    let ghost s0 = store@;
    let ghost mut mid = store@;
    let r: Option<Id> = match node {
        Lambda::Var(i) => {
            if on_vars && i as usize >= depth {
                let k: i64 = match &cache.mode {
                    Shift::ShiftVar(k) => *k as i64,
                    _ => 0,
                };
                let j: i64 = i as i64 + k;
                if i as i64 - depth as i64 + k >= 0 && j <= 0xffff_ffff {
                    let n = Lambda::Var(j as u32);
                    proof {
                        lemma_node_term(store@, n@);
                    }
                    Some(store.add(n))
                } else {
                    None
                }
            } else {
                Some(e)
            }
        },
        Lambda::IVar(i) => {
            let target: Option<i64> = match &cache.mode {
                Shift::ShiftVar(_) => Some(i as i64),
                Shift::ShiftIVar(k) => Some(i as i64 + *k as i64),
                Shift::TableShiftIVar(tb) => if (i as usize) < tb.len() {
                    assert(table_view(tb@)[i as int] == tb@[i as int]);
                    Some(i as i64 + tb[i as usize] as i64)
                } else {
                    None
                },
            };
            match target {
                Some(j) => if 0 <= j && j <= 0xffff_ffff {
                    let n = Lambda::IVar(j as u32);
                    proof {
                        lemma_node_term(store@, n@);
                    }
                    Some(store.add(n))
                } else {
                    None
                },
                None => None,
            }
        },
        Lambda::Prim(_) => Some(e),
        Lambda::Programs(_) => Some(e),
        Lambda::App(f, x) => {
            let fnew = shift_rec(store, f, depth, cache);
            let ghost s1 = store@;
            let xnew = shift_rec(store, x, depth, cache);
            proof {
                mid = store@;
                lemma_term_at_prefix(s0, s1, f as int);
                lemma_term_at_prefix(s0, store@, x as int);
                lemma_term_at_prefix(s0, store@, f as int);
                lemma_shift_result_prefix(s1, store@, m, f as int, depth as nat, fnew);
            }
            match (fnew, xnew) {
                (Some(f2), Some(x2)) => {
                    let n = Lambda::App(f2, x2);
                    proof {
                        lemma_node_term(store@, n@);
                        lemma_shift_keeps_cost(t, m, depth as nat);
                    }
                    Some(store.add(n))
                },
                _ => None,
            }
        },
        Lambda::Lam(b) => {
            let bnew = shift_rec(store, b, depth + 1, cache);
            proof {
                mid = store@;
                lemma_term_at_prefix(s0, store@, b as int);
            }
            match bnew {
                Some(b2) => {
                    let n = Lambda::Lam(b2);
                    proof {
                        lemma_node_term(store@, n@);
                        lemma_shift_keeps_cost(t, m, depth as nat);
                    }
                    Some(store.add(n))
                },
                None => None,
            }
        },
    };
    proof {
        lemma_term_at_prefix(s0, store@, e as int);
        lemma_cache_prefix(mid, store@, cache);
    }
    cache.keep(e, depth, r, Ghost(store@));
    r
}

/// The results that are kept during one pass, for every way of moving that
/// was used. Where keeping is switched off, the results for a way of moving
/// are dropped each time they are asked for.
#[derive(Debug)]
pub struct CacheGenerator {
    pub caches: Vec<ShiftCache>,
    pub enabled: bool,
}

impl CacheGenerator {
    /// Whether all that is kept is right.
    pub open spec fn wf(&self, nodes: Seq<Node>) -> bool {
        forall|k: int| 0 <= k < self.caches@.len() ==> (#[trigger] self.caches@[k]).wf(nodes)
    }

    /// Nothing kept.
    pub fn new(enabled: bool) -> (r: CacheGenerator)
        ensures
            r.enabled == enabled,
            r.caches@.len() == 0,
            forall|nodes: Seq<Node>| r.wf(nodes),
    {
        CacheGenerator { caches: Vec::new(), enabled }
    }

    /// Whether a result is kept for a way of moving, a place and a depth.
    pub open spec fn holds(&self, m: ShiftSpec, id: usize, depth: usize, r: Option<Id>) -> bool {
        exists|k: int|
            0 <= k < self.caches@.len() && (#[trigger] self.caches@[k]).mode@ == m
                && self.caches@[k].kept(id, depth) == Some(r)
    }

    /// The first of the first `n` places whose results are for the way of
    /// moving `m`.
    pub open spec fn place_of(&self, m: ShiftSpec, n: nat) -> Option<int>
        decreases n,
    {
        if n == 0 {
            None
        } else {
            match self.place_of(m, (n - 1) as nat) {
                Some(k) => Some(k),
                None => if self.caches@[n - 1].mode@ == m {
                    Some(n - 1)
                } else {
                    None
                },
            }
        }
    }

    /// The place of the results that are kept for a way of moving: the first
    /// place with results for it, or a new place at the end, with nothing
    /// kept. Where keeping is switched off, what was kept for it is dropped.
    /// What is kept for other ways of moving stays.
    pub fn get(&mut self, context: &Shift, Ghost(nodes): Ghost<Seq<Node>>) -> (idx: usize)
        requires
            old(self).wf(nodes),
        ensures
            final(self).wf(nodes),
            final(self).enabled == old(self).enabled,
            idx < final(self).caches@.len(),
            final(self).caches@[idx as int].mode@ == context@,
            match old(self).place_of(context@, old(self).caches@.len()) {
                Some(k) => idx == k && final(self).caches@.len() == old(self).caches@.len() && (
                final(self).enabled ==> final(self).caches@[k] == old(self).caches@[k]),
                None => idx == old(self).caches@.len() && final(self).caches@.len() == idx + 1,
            },
            forall|k: int|
                0 <= k < old(self).caches@.len() && k != idx ==> final(self).caches@[k] == old(
                    self,
                ).caches@[k],
            !final(self).enabled || old(self).place_of(context@, old(self).caches@.len())
                is None ==> final(self).caches@[idx as int].seen@ == Map::<
                Id,
                Vec<(usize, Option<Id>)>,
            >::empty(),
    {
        let mut k: usize = 0;
        while k < self.caches.len()
            invariant
                k <= self.caches@.len(),
                *self == *old(self),
                self.wf(nodes),
                self.place_of(context@, k as nat) is None,
            decreases self.caches@.len() - k,
        {
            if self.caches[k].mode.same(context) {
                proof {
                    assert(self.place_of(context@, (k + 1) as nat) == Some(k as int));
                    lemma_place_of_stays(self, context@, (k + 1) as nat, self.caches@.len());
                }
                if !self.enabled {
                    let ghost before = self.caches@;
                    self.caches[k].seen.clear();
                    assert forall|j: int| 0 <= j < self.caches@.len() implies (
                    #[trigger] self.caches@[j]).wf(nodes) by {
                        if j != k {
                            assert(self.caches@[j] == before[j]);
                        }
                    }
                }
                return k;
            }
            k += 1;
        }
        let ghost before = self.caches@;
        self.caches.push(ShiftCache::new(context.copy()));
        assert forall|j: int| 0 <= j < self.caches@.len() implies (#[trigger] self.caches@[j]).wf(
            nodes,
        ) by {
            if j < before.len() {
                assert(self.caches@[j] == before[j]);
            }
        }
        self.caches.len() - 1
    }
}

/// A place that is found among the first places is the place that is found.
pub proof fn lemma_place_of_stays(c: &CacheGenerator, m: ShiftSpec, n: nat, k: nat)
    requires
        n <= k,
        c.place_of(m, n) is Some,
    ensures
        c.place_of(m, k) == c.place_of(m, n),
    decreases k,
{
    if n < k {
        lemma_place_of_stays(c, m, n, (k - 1) as nat);
    }
}

/// All that is kept stays right when the table grows.
pub proof fn lemma_caches_prefix(a: Seq<Node>, b: Seq<Node>, c: &CacheGenerator)
    requires
        is_prefix(a, b),
        c.wf(a),
    ensures
        c.wf(b),
{
    assert forall|k: int| 0 <= k < c.caches@.len() implies (#[trigger] c.caches@[k]).wf(b) by {
        lemma_cache_prefix(a, b, &c.caches@[k]);
    }
}

/// Moves the indices of the term at the place `e` as `mode` says, and gives
/// the place of the result; `None` where an index cannot be moved: a free
/// variable would point below the root of the term, a hole has no entry in
/// the table, or an index would leave its range.
pub fn shift(e: Id, mode: &Shift, store: &mut Dag, caches: &mut CacheGenerator) -> (r: Option<Id>)
    requires
        old(store).wf(),
        e < old(store)@.len(),
        old(caches).wf(old(store)@),
    ensures
        final(store).wf(),
        final(store).extends(old(store)),
        final(caches).wf(final(store)@),
        final(caches).enabled == old(caches).enabled,
        match shift_term(old(store).term(e as int), mode@, 0) {
            Some(t) => r is Some && r.unwrap() < final(store)@.len() && final(store).term(
                r.unwrap() as int,
            ) == t,
            None => r is None,
        },
        final(caches).holds(mode@, e, 0, r),
{
    let idx = caches.get(mode, Ghost(store@));
    let ghost before = caches.caches@;
    let r = shift_rec(store, e, 0, &mut caches.caches[idx]);
    proof {
        assert(caches.caches@[idx as int].mode@ == mode@);
        lemma_term_at_prefix(old(store)@, store@, e as int);
        assert forall|k: int| 0 <= k < caches.caches@.len() implies (#[trigger] caches.caches@[k]).wf(
            store@,
        ) by {
            if k != idx {
                assert(caches.caches@[k] == before[k]);
                lemma_cache_prefix(old(store)@, store@, &before[k]);
            }
        }
    }
    r
}

} // verus!
