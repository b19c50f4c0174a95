//! The store of all terms of a corpus: a table of nodes in which no node
//! occurs twice, so that equal terms stand at one place, together with what
//! is known of the term at each place.
use vstd::prelude::*;
use std::collections::HashMap;
use crate::term::{
    Term, cost, cost_sum, free_vars, free_ivars, lemma_cost_nonneg, lemma_cost_sum_monotone,
};
use crate::expr::{
    Id, Lambda, Node, RecExpr, views, node_ok, ids_below, nodes_ok, nodes_distinct, is_prefix, term_at,
    terms_of, node_term, lemma_node_term, lemma_term_at_prefix, lemma_term_at_injective,
    lemma_term_at_unfold, lemma_prefix_trans,
};

verus! {

broadcast use vstd::std_specs::hash::group_hash_axioms;

/// The set of the indices that a list holds.
pub open spec fn refs_set(v: Seq<u32>) -> Set<nat> {
    Set::new(|i: nat| exists|k: int| 0 <= k < v.len() && #[trigger] v[k] == i)
}

/// What the store knows of the term at a place.
#[derive(Debug)]
pub struct Data {
    /// The indices of the free variables.
    pub upward_refs: Vec<u32>,
    /// The indices of the holes.
    pub upward_refs_ivar: Vec<u32>,
    /// The cost of the term, written without any abstraction.
    pub inventionless_cost: i32,
}

impl Data {
    /// Whether this is what holds of the term `t`.
    pub open spec fn describes(&self, t: Term) -> bool {
        &&& refs_set(self.upward_refs@) == free_vars(t)
        &&& refs_set(self.upward_refs_ivar@) == free_ivars(t)
        &&& self.inventionless_cost == cost(t)
    }
}

/// Why a node cannot be added to a store.
#[derive(Debug, Clone, Copy, PartialEq, Eq, Structural)]
pub enum AddError {
    /// A child of the node is no place of the store.
    DanglingChild,
    /// A program of the corpus has a free variable or a hole.
    OpenProgram,
    /// The cost of the term does not fit the type of costs.
    TooCostly,
}

/// Whether the list holds the index.
pub fn refs_contain(v: &Vec<u32>, x: u32) -> (r: bool)
    ensures
        r == refs_set(v@).contains(x as nat),
{
    let mut i: usize = 0;
    while i < v.len()
        invariant
            i <= v.len(),
            forall|k: int| 0 <= k < i ==> v@[k] != x,
        decreases v.len() - i,
    {
        if v[i] == x {
            return true;
        }
        i += 1;
    }
    false
}

/// Adds to `into` the indices of `from` that it lacks.
pub fn refs_extend(into: &mut Vec<u32>, from: &Vec<u32>)
    ensures
        refs_set(final(into)@) == refs_set(old(into)@).union(refs_set(from@)),
{
    let mut i: usize = 0;
    while i < from.len()
        invariant
            i <= from.len(),
            forall|x: nat| refs_set(old(into)@).contains(x) ==> refs_set(into@).contains(x),
            forall|k: int| 0 <= k < i ==> refs_set(into@).contains(from@[k] as nat),
            forall|x: nat| #[trigger]
                refs_set(into@).contains(x) ==> refs_set(old(into)@).contains(x) || refs_set(
                    from@,
                ).contains(x),
        decreases from.len() - i,
    {
        let x = from[i];
        if !refs_contain(into, x) {
            let ghost before = into@;
            into.push(x);
            assert(into@[before.len() as int] == x);
            assert forall|y: nat| refs_set(before).contains(y) implies refs_set(into@).contains(
                y,
            ) by {
                let k = choose|k: int| 0 <= k < before.len() && before[k] == y;
                assert(into@[k] == y);
            }
            assert forall|y: nat| #[trigger] refs_set(into@).contains(y) implies refs_set(
                old(into)@,
            ).contains(y) || refs_set(from@).contains(y) by {
                let k = choose|k: int| 0 <= k < into@.len() && into@[k] == y;
                if k < before.len() {
                    assert(before[k] == y);
                    assert(refs_set(before).contains(y));
                } else {
                    assert(from@[i as int] == y);
                }
            }
        }
        i += 1;
    }
    assert(refs_set(into@) =~= refs_set(old(into)@).union(refs_set(from@)));
}

/// The indices of `from` that are not 0, each less by one.
pub fn refs_under_binder(from: &Vec<u32>) -> (r: Vec<u32>)
    ensures
        refs_set(r@) == Set::new(|i: nat| refs_set(from@).contains(i + 1)),
{
    let mut r: Vec<u32> = Vec::new();
    let mut i: usize = 0;
    while i < from.len()
        invariant
            i <= from.len(),
            forall|k: int| 0 <= k < i && from@[k] >= 1 ==> refs_set(r@).contains(
                (from@[k] - 1) as nat,
            ),
            forall|x: nat| #[trigger]
                refs_set(r@).contains(x) ==> refs_set(from@).contains(x + 1),
        decreases from.len() - i,
    {
        let x = from[i];
        if x >= 1 {
            let ghost before = r@;
            r.push(x - 1);
            assert(r@[before.len() as int] == x - 1);
            assert forall|y: nat| refs_set(before).contains(y) implies refs_set(r@).contains(
                y,
            ) by {
                let k = choose|k: int| 0 <= k < before.len() && before[k] == y;
                assert(r@[k] == y);
            }
            assert forall|y: nat| #[trigger] refs_set(r@).contains(y) implies refs_set(
                from@,
            ).contains(y + 1) by {
                let k = choose|k: int| 0 <= k < r@.len() && r@[k] == y;
                if k < before.len() {
                    assert(before[k] == y);
                    assert(refs_set(before).contains(y));
                } else {
                    assert(from@[i as int] == y + 1);
                }
            }
        }
        i += 1;
    }
    assert forall|y: nat| refs_set(from@).contains(y + 1) implies refs_set(r@).contains(y) by {
        let k = choose|k: int| 0 <= k < from@.len() && from@[k] == y + 1;
        assert(refs_set(r@).contains((from@[k] - 1) as nat));
    }
    assert(refs_set(r@) =~= Set::new(|i: nat| refs_set(from@).contains(i + 1)));
    r
}

/// A list without indices holds the empty set, and no other list does.
pub proof fn lemma_refs_empty(v: Seq<u32>)
    ensures
        (v.len() == 0) == (refs_set(v) =~= Set::<nat>::empty()),
{
    if v.len() > 0 {
        assert(refs_set(v).contains(v[0] as nat));
    }
}

/// A number mixed into a hash.
pub open spec fn mix(h: u64, x: u64) -> u64 {
    ((h as int * 1099511628211 + x as int + 1) % 0x1_0000_0000_0000_0000) as u64
}

/// The hash of the first `n` places of a list, from the hash `h` on.
pub open spec fn hash_ids(cs: Seq<usize>, n: nat, h: u64) -> u64
    decreases n,
{
    if n == 0 {
        h
    } else {
        mix(hash_ids(cs, (n - 1) as nat, h), cs[n - 1] as u64)
    }
}

/// The hash of the first `n` bytes of a list, from the hash `h` on.
pub open spec fn hash_bytes(p: Seq<u8>, n: nat, h: u64) -> u64
    decreases n,
{
    if n == 0 {
        h
    } else {
        mix(hash_bytes(p, (n - 1) as nat, h), p[n - 1] as u64)
    }
}

/// The hash of a node: a number that equal nodes share, by which the store
/// finds a node again.
pub open spec fn node_hash(n: Node) -> u64 {
    match n {
        Node::Var(i) => mix(1, i as u64),
        Node::IVar(i) => mix(2, i as u64),
        Node::App(f, x) => mix(mix(3, f as u64), x as u64),
        Node::Lam(b) => mix(4, b as u64),
        Node::Prim(p) => hash_bytes(p, p.len(), 5),
        Node::Programs(cs) => hash_ids(cs, cs.len(), 6),
    }
}

/// A number mixed into a hash.
pub fn mixed(h: u64, x: u64) -> (r: u64)
    ensures
        r == mix(h, x),
{
    ((h as u128 * 1099511628211u128 + x as u128 + 1) % 0x1_0000_0000_0000_0000u128) as u64
}

/// The hash of a node.
pub fn hash_of(node: &Lambda) -> (r: u64)
    ensures
        r == node_hash(node@),
{
    match node {
        Lambda::Var(i) => mixed(1, *i as u64),
        Lambda::IVar(i) => mixed(2, *i as u64),
        Lambda::App(f, x) => mixed(mixed(3, *f as u64), *x as u64),
        Lambda::Lam(b) => mixed(4, *b as u64),
        Lambda::Prim(p) => {
            let mut h: u64 = 5;
            let mut k: usize = 0;
            while k < p.len()
                invariant
                    k <= p@.len(),
                    h == hash_bytes(p@, k as nat, 5),
                decreases p@.len() - k,
            {
                h = mixed(h, p[k] as u64);
                k += 1;
            }
            h
        },
        Lambda::Programs(cs) => {
            let mut h: u64 = 6;
            let mut k: usize = 0;
            while k < cs.len()
                invariant
                    k <= cs@.len(),
                    h == hash_ids(cs@, k as nat, 6),
                decreases cs@.len() - k,
            {
                h = mixed(h, cs[k] as u64);
                k += 1;
            }
            h
        },
    }
}

/// Whether the index lists, under the hash of each node, the place of the
/// node; and lists places of the table alone.
pub open spec fn index_ok(nodes: Seq<Node>, index: Map<u64, Vec<Id>>) -> bool {
    &&& forall|i: usize|
        i < nodes.len() ==> index.contains_key(node_hash(#[trigger] nodes[i as int]))
            && index[node_hash(nodes[i as int])]@.contains(i)
    &&& forall|h: u64| #[trigger] index.contains_key(h) ==> ids_below(index[h]@, nodes.len() as int)
}

/// The store: a table of nodes without repetition, the data of each, and
/// the places of the nodes by their hashes.
#[derive(Debug)]
pub struct Dag {
    pub nodes: Vec<Lambda>,
    pub data: Vec<Data>,
    pub index: HashMap<u64, Vec<Id>>,
}

impl View for Dag {
    type V = Seq<Node>;

    open spec fn view(&self) -> Seq<Node> {
        views(self.nodes@)
    }
}

/// Whether the term stands at a place of the table.
pub open spec fn held_in(nodes: Seq<Node>, t: Term) -> bool {
    exists|i: int| 0 <= i < nodes.len() && term_at(nodes, i) == t
}

/// Whether all terms of the list stand at places of the table.
pub open spec fn all_held(nodes: Seq<Node>, ps: Seq<Term>) -> bool {
    forall|k: int| 0 <= k < ps.len() ==> held_in(nodes, #[trigger] ps[k])
}

/// Whether the term at a place has neither a free variable nor a hole.
pub open spec fn closed_at(nodes: Seq<Node>, id: int) -> bool {
    free_vars(term_at(nodes, id)) =~= Set::<nat>::empty() && free_ivars(term_at(nodes, id))
        =~= Set::<nat>::empty()
}

/// Whether the terms at all the places of a list are closed.
pub open spec fn all_closed(nodes: Seq<Node>, cs: Seq<usize>) -> bool {
    forall|k: int| 0 <= k < cs.len() ==> closed_at(nodes, #[trigger] cs[k] as int)
}

/// Whether the programs under a container node are closed.
pub open spec fn programs_closed(nodes: Seq<Node>, n: Node) -> bool {
    match n {
        Node::Programs(cs) => all_closed(nodes, cs),
        _ => true,
    }
}

impl Dag {
    /// The number of places.
    pub open spec fn size(&self) -> int {
        self@.len() as int
    }

    /// The term at a place.
    pub open spec fn term(&self, id: int) -> Term {
        term_at(self@, id)
    }

    /// The invariant of the store: every node stands after its children, no
    /// node occurs twice, the programs of a container are closed, and the data
    /// of each place describe the term there.
    pub open spec fn wf(&self) -> bool {
        &&& self.data@.len() == self.nodes@.len()
        &&& index_ok(self@, self.index@)
        &&& nodes_ok(self@)
        &&& nodes_distinct(self@)
        &&& forall|i: int| 0 <= i < self@.len() ==> programs_closed(self@, #[trigger] self@[i])
        &&& forall|i: int|
            0 <= i < self@.len() ==> (#[trigger] self.data@[i]).describes(term_at(self@, i))
    }

    /// Whether the store holds the node.
    pub open spec fn holds(&self, n: Node) -> bool {
        exists|i: int| 0 <= i < self@.len() && self@[i] == n
    }

    /// Whether the store holds the term.
    pub open spec fn holds_term(&self, t: Term) -> bool {
        held_in(self@, t)
    }

    /// Whether the store has grown out of `old`: what `old` held, it holds at
    /// the same places.
    pub open spec fn extends(&self, old: &Dag) -> bool {
        is_prefix(old@, self@)
    }

    /// Why the node cannot be added, if it cannot.
    pub open spec fn fault(&self, n: Node) -> Option<AddError> {
        if !node_ok(n, self.size()) {
            Some(AddError::DanglingChild)
        } else if !programs_closed(self@, n) {
            Some(AddError::OpenProgram)
        } else if cost(node_term(self@, n)) > i32::MAX {
            Some(AddError::TooCostly)
        } else {
            None
        }
    }

    /// An empty store.
    pub fn new() -> (r: Dag)
        ensures
            r.wf(),
            r@.len() == 0,
    {
        Dag { nodes: Vec::new(), data: Vec::new(), index: HashMap::new() }
    }

    /// The number of places.
    pub fn len(&self) -> (n: usize)
        ensures
            n == self@.len(),
    {
        self.nodes.len()
    }

    /// The node at a place.
    pub fn get(&self, id: Id) -> (r: &Lambda)
        requires
            id < self@.len(),
        ensures
            r@ == self@[id as int],
    {
        &self.nodes[id]
    }

    /// What is known of the term at a place.
    pub fn data_of(&self, id: Id) -> (r: &Data)
        requires
            self.wf(),
            id < self@.len(),
        ensures
            r.describes(self.term(id as int)),
            *r == self.data@[id as int],
    {
        &self.data[id]
    }

    /// The place of the node, if the store holds it.
    pub fn lookup(&self, node: &Lambda) -> (r: Option<Id>)
        requires
            self.wf(),
        ensures
            match r {
                Some(i) => i < self@.len() && self@[i as int] == node@,
                None => !self.holds(node@),
            },
    {
        let h = hash_of(node);
        let n = self.nodes.len();
        assert(self@.len() == n);
        match self.index.get(&h) {
            None => {
                proof {
                    if self.holds(node@) {
                        let i = choose|i: int| 0 <= i < self@.len() && self@[i] == node@;
                        let u = i as usize;
                        assert(self.index@.contains_key(node_hash(self@[u as int])));
                    }
                }
                None
            },
            Some(bucket) => {
                let mut k: usize = 0;
                assert(self.index@.contains_key(h));
                assert(ids_below(bucket@, self@.len() as int));
                while k < bucket.len()
                    invariant
                        k <= bucket@.len(),
                        ids_below(bucket@, self@.len() as int),
                        forall|j: int| 0 <= j < k ==> self@[bucket@[j] as int] != node@,
                    decreases bucket@.len() - k,
                {
                    let id = bucket[k];
                    if self.nodes[id].same(node) {
                        return Some(id);
                    }
                    k += 1;
                }
                proof {
                    if self.holds(node@) {
                        let i = choose|i: int| 0 <= i < self@.len() && self@[i] == node@;
                        let u = i as usize;
                        assert(self.index@[node_hash(self@[u as int])]@.contains(u));
                        let j = choose|j: int| 0 <= j < bucket@.len() && bucket@[j] == u;
                        assert(self@[bucket@[j] as int] != node@);
                    }
                }
                None
            },
        }
    }

    /// What holds of the term that the node would stand for; `None` where its
    /// cost does not fit.
    pub fn make(&self, node: &Lambda) -> (r: Option<Data>)
        requires
            self.wf(),
            node_ok(node@, self.size()),
        ensures
            match r {
                Some(d) => d.describes(node_term(self@, node@)),
                None => cost(node_term(self@, node@)) > i32::MAX,
            },
    {
        proof {
            lemma_node_term(self@, node@);
        }
        let ghost t = node_term(self@, node@);
        let mut upward_refs: Vec<u32> = Vec::new();
        let mut upward_refs_ivar: Vec<u32> = Vec::new();
        proof {
            lemma_refs_empty(upward_refs@);
            lemma_refs_empty(upward_refs_ivar@);
        }
        match node {
            Lambda::Var(i) => {
                upward_refs.push(*i);
                assert(upward_refs@[0] == *i);
                assert(refs_set(upward_refs@) =~= free_vars(t));
                assert(refs_set(upward_refs_ivar@) =~= free_ivars(t));
                Some(Data { upward_refs, upward_refs_ivar, inventionless_cost: 100 })
            },
            Lambda::IVar(i) => {
                upward_refs_ivar.push(*i);
                assert(upward_refs_ivar@[0] == *i);
                assert(refs_set(upward_refs@) =~= free_vars(t));
                assert(refs_set(upward_refs_ivar@) =~= free_ivars(t));
                Some(Data { upward_refs, upward_refs_ivar, inventionless_cost: 100 })
            },
            Lambda::Prim(_) => {
                assert(refs_set(upward_refs@) =~= free_vars(t));
                assert(refs_set(upward_refs_ivar@) =~= free_ivars(t));
                Some(Data { upward_refs, upward_refs_ivar, inventionless_cost: 100 })
            },
            Lambda::App(f, x) => {
                let df = &self.data[*f];
                let dx = &self.data[*x];
                assert(df.describes(term_at(self@, *f as int)));
                assert(dx.describes(term_at(self@, *x as int)));
                refs_extend(&mut upward_refs, &df.upward_refs);
                refs_extend(&mut upward_refs, &dx.upward_refs);
                refs_extend(&mut upward_refs_ivar, &df.upward_refs_ivar);
                refs_extend(&mut upward_refs_ivar, &dx.upward_refs_ivar);
                assert(refs_set(upward_refs@) =~= free_vars(t));
                assert(refs_set(upward_refs_ivar@) =~= free_ivars(t));
                let c: i64 = 1 + df.inventionless_cost as i64 + dx.inventionless_cost as i64;
                if c > i32::MAX as i64 {
                    None
                } else {
                    proof {
                        lemma_cost_nonneg(term_at(self@, *f as int));
                        lemma_cost_nonneg(term_at(self@, *x as int));
                    }
                    Some(Data { upward_refs, upward_refs_ivar, inventionless_cost: c as i32 })
                }
            },
            Lambda::Lam(b) => {
                let db = &self.data[*b];
                assert(db.describes(term_at(self@, *b as int)));
                let upward_refs = refs_under_binder(&db.upward_refs);
                refs_extend(&mut upward_refs_ivar, &db.upward_refs_ivar);
                assert(refs_set(upward_refs@) =~= free_vars(t));
                assert(refs_set(upward_refs_ivar@) =~= free_ivars(t));
                let c: i64 = 1 + db.inventionless_cost as i64;
                if c > i32::MAX as i64 {
                    None
                } else {
                    proof {
                        lemma_cost_nonneg(term_at(self@, *b as int));
                    }
                    Some(Data { upward_refs, upward_refs_ivar, inventionless_cost: c as i32 })
                }
            },
            Lambda::Programs(cs) => {
                assert(refs_set(upward_refs@) =~= free_vars(t));
                assert(refs_set(upward_refs_ivar@) =~= free_ivars(t));
                let ghost ts = terms_of(self@, cs@);
                let mut acc: i64 = 0;
                let mut k: usize = 0;
                while k < cs.len()
                    invariant
                        k <= cs@.len(),
                        self.wf(),
                        node_ok(node@, self.size()),
                        node@ == Node::Programs(cs@),
                        forall|j: int| 0 <= j < cs@.len() ==> cs@[j] < self@.len(),
                        ts == terms_of(self@, cs@),
                        cost(node_term(self@, node@)) == cost_sum(ts, ts.len()),
                        acc == cost_sum(ts, k as nat),
                        0 <= acc <= i32::MAX,
                    decreases cs@.len() - k,
                {
                    let c = self.data[cs[k]].inventionless_cost;
                    assert(self.data@[cs@[k as int] as int].describes(
                        term_at(self@, cs@[k as int] as int),
                    ));
                    assert(ts[k as int] == term_at(self@, cs@[k as int] as int));
                    proof {
                        lemma_cost_nonneg(ts[k as int]);
                    }
                    acc = acc + c as i64;
                    k += 1;
                    if acc > i32::MAX as i64 {
                        proof {
                            lemma_cost_sum_monotone(ts, k as nat, ts.len());
                        }
                        return None;
                    }
                }
                Some(Data { upward_refs, upward_refs_ivar, inventionless_cost: acc as i32 })
            },
        }
    }

    /// Adds a node and gives its place. A node that the store holds already
    /// keeps its place, and the store stays as it is.
    pub fn add(&mut self, node: Lambda) -> (id: Id)
        requires
            old(self).wf(),
            old(self).fault(node@) is None,
        ensures
            final(self).wf(),
            final(self).extends(old(self)),
            id < final(self)@.len(),
            final(self)@[id as int] == node@,
            final(self).term(id as int) == node_term(old(self)@, node@),
            old(self).holds(node@) ==> final(self)@ == old(self)@,
            !old(self).holds(node@) ==> final(self)@ == old(self)@.push(node@) && id == old(
                self,
            )@.len(),
    {
        match self.lookup(&node) {
            Some(i) => {
                proof {
                    lemma_term_of_held_node(self@, i as int);
                }
                i
            },
            None => {
                let d = self.make(&node);
                let id = self.nodes.len();
                let ghost n = node@;
                let h = hash_of(&node);
                self.nodes.push(node);
                self.data.push(d.unwrap());
                let mut bucket = match self.index.remove(&h) {
                    Some(b) => b,
                    None => Vec::new(),
                };
                let ghost before = bucket@;
                bucket.push(id);
                self.index.insert(h, bucket);
                proof {
                    assert(self@ =~= old(self)@.push(n));
                    assert(index_ok(self@, self.index@)) by {
                        assert forall|i: usize| i < self@.len() implies self.index@.contains_key(
                            node_hash(#[trigger] self@[i as int]),
                        ) && self.index@[node_hash(self@[i as int])]@.contains(i) by {
                            let hi = node_hash(self@[i as int]);
                            if i < old(self)@.len() {
                                assert(self@[i as int] == old(self)@[i as int]);
                                assert(old(self).index@[hi]@.contains(i));
                                if hi == h {
                                    let j = choose|j: int| 0 <= j < before.len() && before[j] == i;
                                    assert(self.index@[hi]@[j] == i);
                                }
                            } else {
                                assert(self.index@[h]@[before.len() as int] == id);
                            }
                        }
                        assert forall|g: u64| #[trigger] self.index@.contains_key(g) implies ids_below(
                            self.index@[g]@,
                            self@.len() as int,
                        ) by {
                            if g == h {
                                if old(self).index@.contains_key(h) {
                                    assert(ids_below(before, old(self)@.len() as int));
                                }
                                assert forall|k: int| 0 <= k < self.index@[g]@.len() implies (
                                #[trigger] self.index@[g]@[k]) < self@.len() by {
                                    if k < before.len() {
                                        assert(self.index@[g]@[k] == before[k]);
                                    }
                                }
                            } else {
                                assert(old(self).index@.contains_key(g));
                                assert(ids_below(old(self).index@[g]@, old(self)@.len() as int));
                                assert forall|k: int| 0 <= k < self.index@[g]@.len() implies (
                                #[trigger] self.index@[g]@[k]) < self@.len() by {
                                    assert(old(self).index@[g]@[k] < old(self)@.len());
                                }
                            }
                        }
                    }
                    assert(is_prefix(old(self)@, self@));
                    assert(nodes_ok(self@)) by {
                        assert forall|i: int| 0 <= i < self@.len() implies node_ok(
                            #[trigger] self@[i],
                            i,
                        ) by {
                            if i < old(self)@.len() {
                                assert(node_ok(old(self)@[i], i));
                            }
                        }
                    }
                    assert(nodes_distinct(self@)) by {
                        assert forall|i: int, j: int|
                            0 <= i < self@.len() && 0 <= j < self@.len() && #[trigger] self@[i]
                                == #[trigger] self@[j] implies i == j by {
                            if i < old(self)@.len() && j < old(self)@.len() {
                                assert(old(self)@[i] == old(self)@[j]);
                            }
                        }
                    }
                    assert forall|i: int| 0 <= i < self@.len() implies (#[trigger] self.data@[i]).describes(
                        term_at(self@, i),
                    ) by {
                        if i < old(self)@.len() {
                            lemma_term_at_prefix(old(self)@, self@, i);
                            assert(old(self).data@[i].describes(term_at(old(self)@, i)));
                        }
                    }
                    assert forall|i: int| 0 <= i < self@.len() implies programs_closed(
                        self@,
                        #[trigger] self@[i],
                    ) by {
                        if i < old(self)@.len() {
                            assert(programs_closed(old(self)@, old(self)@[i]));
                            assert(node_ok(old(self)@[i], i));
                        }
                        lemma_programs_closed_prefix(old(self)@, self@, self@[i]);
                    }
                }
                id
            },
        }
    }

    /// Adds a node if it can be added, and says why if it cannot.
    pub fn try_add(&mut self, node: Lambda) -> (r: Result<Id, AddError>)
        requires
            old(self).wf(),
        ensures
            final(self).wf(),
            final(self).extends(old(self)),
            match r {
                Ok(id) => {
                    &&& old(self).fault(node@) is None
                    &&& id < final(self)@.len()
                    &&& final(self)@[id as int] == node@
                    &&& final(self).term(id as int) == node_term(old(self)@, node@)
                    &&& old(self).holds(node@) ==> final(self)@ == old(self)@
                    &&& !old(self).holds(node@) ==> final(self)@ == old(self)@.push(node@) && id
                        == old(self)@.len()
                },
                Err(e) => old(self).fault(node@) == Some(e) && final(self)@ == old(self)@,
            },
    {
        if !self.in_range(&node) {
            return Err(AddError::DanglingChild);
        }
        if !self.closed_programs(&node) {
            return Err(AddError::OpenProgram);
        }
        match self.lookup(&node) {
            Some(i) => {
                proof {
                    lemma_term_of_held_node(self@, i as int);
                    assert(self.data@[i as int].describes(term_at(self@, i as int)));
                }
                Ok(i)
            },
            None => {
                match self.make(&node) {
                    None => Err(AddError::TooCostly),
                    Some(_) => Ok(self.add(node)),
                }
            },
        }
    }

    /// Whether the children of the node are places of the store.
    pub fn in_range(&self, node: &Lambda) -> (r: bool)
        ensures
            r == node_ok(node@, self.size()),
    {
        let n = self.nodes.len();
        match node {
            Lambda::App(f, x) => *f < n && *x < n,
            Lambda::Lam(b) => *b < n,
            Lambda::Programs(cs) => {
                let mut k: usize = 0;
                while k < cs.len()
                    invariant
                        k <= cs@.len(),
                        n == self@.len(),
                        node@ == Node::Programs(cs@),
                        forall|j: int| 0 <= j < k ==> cs@[j] < n,
                    decreases cs@.len() - k,
                {
                    if cs[k] >= n {
                        return false;
                    }
                    k += 1;
                }
                true
            },
            _ => true,
        }
    }

    /// Whether the term at a place has neither a free variable nor a hole.
    pub fn is_closed(&self, id: Id) -> (r: bool)
        requires
            self.wf(),
            id < self@.len(),
        ensures
            r == closed_at(self@, id as int),
    {
        let d = &self.data[id];
        assert(d.describes(term_at(self@, id as int)));
        proof {
            lemma_refs_empty(d.upward_refs@);
            lemma_refs_empty(d.upward_refs_ivar@);
        }
        d.upward_refs.len() == 0 && d.upward_refs_ivar.len() == 0
    }

    /// Whether the programs under the node, if it is a container, are closed.
    pub fn closed_programs(&self, node: &Lambda) -> (r: bool)
        requires
            self.wf(),
            node_ok(node@, self.size()),
        ensures
            r == programs_closed(self@, node@),
    {
        match node {
            Lambda::Programs(cs) => {
                let mut k: usize = 0;
                while k < cs.len()
                    invariant
                        k <= cs@.len(),
                        self.wf(),
                        node_ok(node@, self.size()),
                        node@ == Node::Programs(cs@),
                        forall|j: int| 0 <= j < cs@.len() ==> cs@[j] < self@.len(),
                        forall|j: int| 0 <= j < k ==> closed_at(self@, cs@[j] as int),
                    decreases cs@.len() - k,
                {
                    if !self.is_closed(cs[k]) {
                        return false;
                    }
                    k += 1;
                }
                true
            },
            _ => true,
        }
    }
}

/// The term at a place is the term that the node there would stand for at
/// the end of the table.
pub proof fn lemma_term_of_held_node(nodes: Seq<Node>, i: int)
    requires
        nodes_ok(nodes),
        0 <= i < nodes.len(),
    ensures
        term_at(nodes, i) == node_term(nodes, nodes[i]),
{
    lemma_term_at_unfold(nodes, i);
    assert(node_ok(nodes[i], i));
    lemma_node_term(nodes, nodes[i]);
}

/// Programs that are closed in a table are closed in every table that it is
/// the beginning of.
pub proof fn lemma_programs_closed_prefix(a: Seq<Node>, b: Seq<Node>, n: Node)
    requires
        is_prefix(a, b),
        node_ok(n, a.len() as int),
    ensures
        programs_closed(a, n) == programs_closed(b, n),
{
    match n {
        Node::Programs(cs) => {
            assert forall|k: int| 0 <= k < cs.len() implies closed_at(a, cs[k] as int) == closed_at(
                b,
                cs[k] as int,
            ) by {
                lemma_term_at_prefix(a, b, cs[k] as int);
            }
        },
        _ => {},
    }
}

/// The node with each child replaced by the entry of `ids` at the child.
pub open spec fn remap_spec(n: Node, ids: Seq<usize>) -> Node {
    match n {
        Node::App(f, x) => Node::App(ids[f as int], ids[x as int]),
        Node::Lam(b) => Node::Lam(ids[b as int]),
        Node::Programs(cs) => Node::Programs(remap_ids(cs, ids)),
        _ => n,
    }
}

/// The places `cs`, each replaced by the entry of `ids` at it.
pub open spec fn remap_ids(cs: Seq<usize>, ids: Seq<usize>) -> Seq<usize> {
    Seq::new(cs.len(), |k: int| ids[cs[k] as int])
}

/// The node with each child replaced by the entry of `ids` at the child.
pub fn remap(node: &Lambda, ids: &Vec<Id>) -> (r: Lambda)
    requires
        node_ok(node@, ids@.len() as int),
    ensures
        r@ == remap_spec(node@, ids@),
{
    match node {
        Lambda::Var(i) => Lambda::Var(*i),
        Lambda::IVar(i) => Lambda::IVar(*i),
        Lambda::Prim(p) => Lambda::Prim(crate::expr::copy_bytes(p)),
        Lambda::App(f, x) => Lambda::App(ids[*f], ids[*x]),
        Lambda::Lam(b) => Lambda::Lam(ids[*b]),
        Lambda::Programs(cs) => {
            let mut out: Vec<Id> = Vec::new();
            let mut k: usize = 0;
            while k < cs.len()
                invariant
                    k <= cs@.len(),
                    ids_below(cs@, ids@.len() as int),
                    out@.len() == k,
                    forall|j: int| 0 <= j < k ==> out@[j] == ids@[cs@[j] as int],
                decreases cs@.len() - k,
            {
                out.push(ids[cs[k]]);
                k += 1;
            }
            assert(out@ =~= remap_ids(cs@, ids@));
            Lambda::Programs(out)
        },
    }
}

/// Why the node at the place `i` of an expression cannot be added to a store,
/// if it cannot.
pub open spec fn expr_fault_at(e: Seq<Node>, i: int) -> Option<AddError> {
    if !programs_closed(e, e[i]) {
        Some(AddError::OpenProgram)
    } else if cost(term_at(e, i)) > i32::MAX {
        Some(AddError::TooCostly)
    } else {
        None
    }
}

/// The fault of the first of the first `n` nodes of an expression that has
/// one.
pub open spec fn expr_fault(e: Seq<Node>, n: nat) -> Option<AddError>
    decreases n,
{
    if n == 0 {
        None
    } else {
        match expr_fault(e, (n - 1) as nat) {
            Some(f) => Some(f),
            None => expr_fault_at(e, n - 1),
        }
    }
}

/// A fault among the first nodes of an expression is the fault of the
/// expression.
pub proof fn lemma_expr_fault_stays(e: Seq<Node>, n: nat, m: nat)
    requires
        n <= m,
        expr_fault(e, n) is Some,
    ensures
        expr_fault(e, m) == expr_fault(e, n),
    decreases m,
{
    if n < m {
        lemma_expr_fault_stays(e, n, (m - 1) as nat);
    }
}

/// Where the places `ids` of a store hold the terms of the first `i` nodes of
/// an expression, the node `i` with its children replaced stands in the store
/// for the term that it stands for in the expression.
pub proof fn lemma_remap(store: Seq<Node>, e: Seq<Node>, i: int, ids: Seq<usize>)
    requires
        nodes_ok(e),
        0 <= i < e.len(),
        ids.len() == i,
        forall|k: int|
            0 <= k < i ==> #[trigger] ids[k] < store.len() && term_at(store, ids[k] as int)
                == term_at(e, k),
    ensures
        node_ok(remap_spec(e[i], ids), store.len() as int),
        node_term(store, remap_spec(e[i], ids)) == term_at(e, i),
        programs_closed(store, remap_spec(e[i], ids)) == programs_closed(e, e[i]),
{
    let m = remap_spec(e[i], ids);
    assert(node_ok(e[i], i));
    lemma_term_at_unfold(e, i);
    match e[i] {
        Node::App(f, x) => {
            assert(ids[f as int] < store.len());
            assert(ids[x as int] < store.len());
        },
        Node::Lam(b) => {
            assert(ids[b as int] < store.len());
        },
        Node::Programs(cs) => {
            let ms = remap_ids(cs, ids);
            assert(ids_below(cs, i));
            assert forall|k: int| 0 <= k < ms.len() implies #[trigger] ms[k] < store.len()
                && term_at(store, ms[k] as int) == term_at(e, cs[k] as int) by {
                assert(cs[k] < i);
                assert(ids[cs[k] as int] < store.len());
            }
            assert(ids_below(ms, store.len() as int));
            assert(terms_of(store, ms) =~= terms_of(e, cs));
            assert(all_closed(store, ms) == all_closed(e, cs)) by {
                if all_closed(store, ms) {
                    assert forall|k: int| 0 <= k < cs.len() implies closed_at(
                        e,
                        #[trigger] cs[k] as int,
                    ) by {
                        assert(closed_at(store, ms[k] as int));
                    }
                }
                if all_closed(e, cs) {
                    assert forall|k: int| 0 <= k < ms.len() implies closed_at(
                        store,
                        #[trigger] ms[k] as int,
                    ) by {
                        assert(closed_at(e, cs[k] as int));
                    }
                }
            }
        },
        _ => {},
    }
    lemma_node_term(store, m);
}

impl Dag {
    /// Adds the nodes of an expression, children first, and gives the place of
    /// its term. It stops at the first node that cannot be added.
    pub fn add_expr(&mut self, expr: &RecExpr) -> (r: Result<Id, AddError>)
        requires
            old(self).wf(),
            expr.wf(),
            expr@.len() > 0,
        ensures
            final(self).wf(),
            final(self).extends(old(self)),
            match r {
                Ok(id) => {
                    &&& expr_fault(expr@, expr@.len()) is None
                    &&& id < final(self)@.len()
                    &&& final(self).term(id as int) == expr.term()
                },
                Err(e) => expr_fault(expr@, expr@.len()) == Some(e),
            },
    {
        let mut ids: Vec<Id> = Vec::new();
        let mut i: usize = 0;
        while i < expr.nodes.len()
            invariant
                self.wf(),
                self.extends(old(self)),
                expr.wf(),
                i <= expr@.len(),
                ids@.len() == i,
                forall|k: int|
                    0 <= k < i ==> #[trigger] ids@[k] < self@.len() && term_at(
                        self@,
                        ids@[k] as int,
                    ) == term_at(expr@, k),
                expr_fault(expr@, i as nat) is None,
            decreases expr@.len() - i,
        {
            proof {
                lemma_remap(self@, expr@, i as int, ids@);
                assert(node_ok(expr@[i as int], i as int));
            }
            let node = remap(&expr.nodes[i], &ids);
            let ghost before = self@;
            match self.try_add(node) {
                Err(e) => {
                    proof {
                        assert(expr_fault_at(expr@, i as int) == Some(e));
                        assert(expr_fault(expr@, (i + 1) as nat) == Some(e));
                        lemma_expr_fault_stays(expr@, (i + 1) as nat, expr@.len());
                    }
                    return Err(e);
                },
                Ok(id) => {
                    proof {
                        assert forall|k: int| 0 <= k < i implies #[trigger] ids@[k] < self@.len()
                            && term_at(self@, ids@[k] as int) == term_at(expr@, k) by {
                            lemma_term_at_prefix(before, self@, ids@[k] as int);
                        }
                    }
                    ids.push(id);
                },
            }
            i += 1;
        }
        Ok(ids[i - 1])
    }
}

/// In a store, equal terms stand at one place.
pub proof fn lemma_equal_terms_share_a_place(store: &Dag, i: int, j: int)
    requires
        store.wf(),
        0 <= i < store.size(),
        0 <= j < store.size(),
        store.term(i) == store.term(j),
    ensures
        i == j,
{
    lemma_term_at_injective(store@, i, j);
}

/// A store that has grown keeps the term at every place that it had.
pub proof fn lemma_extends_keeps_terms(new: &Dag, old: &Dag, i: int)
    requires
        new.extends(old),
        0 <= i < old.size(),
    ensures
        new.term(i) == old.term(i),
{
    lemma_term_at_prefix(old@, new@, i);
}

/// Whether the term has neither a free variable nor a hole.
pub open spec fn closed(t: Term) -> bool {
    free_vars(t) =~= Set::<nat>::empty() && free_ivars(t) =~= Set::<nat>::empty()
}

/// Whether all terms of the list are closed.
pub open spec fn all_terms_closed(ps: Seq<Term>) -> bool {
    forall|k: int| 0 <= k < ps.len() ==> closed(#[trigger] ps[k])
}

/// Why the root of a term cannot stand in a store whose nodes are its
/// children, if it cannot.
pub open spec fn root_fault(t: Term) -> Option<AddError> {
    if t is Programs && !all_terms_closed(t->Programs_0) {
        Some(AddError::OpenProgram)
    } else if cost(t) > i32::MAX {
        Some(AddError::TooCostly)
    } else {
        None
    }
}

/// Why a term cannot stand in a store, if it cannot: the fault of the first
/// of its subterms that has one, children before parents, from left to
/// right.
pub open spec fn term_fault(t: Term) -> Option<AddError>
    decreases t, 0nat,
{
    match t {
        Term::App(f, x) => match term_fault(*f) {
            Some(e) => Some(e),
            None => match term_fault(*x) {
                Some(e) => Some(e),
                None => root_fault(t),
            },
        },
        Term::Lam(b) => match term_fault(*b) {
            Some(e) => Some(e),
            None => root_fault(t),
        },
        Term::Programs(ps) => match terms_fault(ps, ps.len()) {
            Some(e) => Some(e),
            None => root_fault(t),
        },
        _ => None,
    }
}

/// The fault of the first of the first `n` terms that has one.
pub open spec fn terms_fault(ps: Seq<Term>, n: nat) -> Option<AddError>
    decreases ps, n,
{
    if n == 0 || n > ps.len() {
        None
    } else {
        match terms_fault(ps, (n - 1) as nat) {
            Some(e) => Some(e),
            None => term_fault(ps[n - 1]),
        }
    }
}

/// The children of a node of a store are places of the store: a store that
/// holds a term holds its subterms.
pub proof fn lemma_held_children(nodes: Seq<Node>, j: int)
    requires
        nodes_ok(nodes),
        0 <= j < nodes.len(),
    ensures
        match term_at(nodes, j) {
            Term::App(f, x) => held_in(nodes, *f) && held_in(nodes, *x),
            Term::Lam(b) => held_in(nodes, *b),
            Term::Programs(ps) => all_held(nodes, ps),
            _ => true,
        },
{
    lemma_term_at_unfold(nodes, j);
    assert(node_ok(nodes[j], j));
    match nodes[j] {
        Node::App(f, x) => {
            assert(term_at(nodes, f as int) == term_at(nodes, f as int));
            assert(term_at(nodes, x as int) == term_at(nodes, x as int));
        },
        Node::Lam(b) => {
            assert(term_at(nodes, b as int) == term_at(nodes, b as int));
        },
        Node::Programs(cs) => {
            let ps = terms_of(nodes, cs);
            assert forall|k: int| 0 <= k < ps.len() implies held_in(nodes, #[trigger] ps[k]) by {
                assert(cs[k] < j);
                assert(term_at(nodes, cs[k] as int) == ps[k]);
            }
        },
        _ => {},
    }
}

/// A node that would stand for the term at a place of a store is the node
/// at that place.
pub proof fn lemma_held_node(nodes: Seq<Node>, j: int, n: Node)
    requires
        nodes_ok(nodes),
        nodes_distinct(nodes),
        0 <= j < nodes.len(),
        node_ok(n, nodes.len() as int),
        node_term(nodes, n) == term_at(nodes, j),
    ensures
        nodes[j] == n,
{
    lemma_node_term(nodes, n);
    lemma_term_at_unfold(nodes, j);
    assert(node_ok(nodes[j], j));
    match (n, nodes[j]) {
        (Node::App(f, x), Node::App(g, y)) => {
            lemma_term_at_injective(nodes, f as int, g as int);
            lemma_term_at_injective(nodes, x as int, y as int);
        },
        (Node::Lam(b), Node::Lam(c)) => {
            lemma_term_at_injective(nodes, b as int, c as int);
        },
        (Node::Programs(c), Node::Programs(d)) => {
            assert(terms_of(nodes, c).len() == terms_of(nodes, d).len());
            assert(ids_below(c, nodes.len() as int));
            assert(ids_below(d, j));
            assert forall|k: int| 0 <= k < c.len() implies c[k] == d[k] by {
                assert(terms_of(nodes, c)[k] == terms_of(nodes, d)[k]);
                lemma_term_at_injective(nodes, c[k] as int, d[k] as int);
            }
            assert(c =~= d);
        },
        _ => {},
    }
}

/// A fault among the first terms is the fault of the terms.
pub proof fn lemma_terms_fault_stays(ps: Seq<Term>, n: nat, m: nat)
    requires
        n <= m <= ps.len(),
        terms_fault(ps, n) is Some,
    ensures
        terms_fault(ps, m) == terms_fault(ps, n),
    decreases m,
{
    if n < m {
        lemma_terms_fault_stays(ps, n, (m - 1) as nat);
    }
}

impl Dag {
    /// Adds the term at the place `i` of an expression, children first, and
    /// gives its place in the store. It stops at the first subterm that
    /// cannot be added. A term that the store holds keeps its place, and the
    /// store stays as it is.
    pub fn add_term_rec(&mut self, expr: &RecExpr, i: usize) -> (r: Result<Id, AddError>)
        requires
            old(self).wf(),
            expr.wf(),
            i < expr@.len(),
        ensures
            final(self).wf(),
            final(self).extends(old(self)),
            match term_fault(term_at(expr@, i as int)) {
                None => r is Ok && r.unwrap() < final(self)@.len() && final(self).term(
                    r.unwrap() as int,
                ) == term_at(expr@, i as int),
                Some(e) => r == Err::<Id, AddError>(e),
            },
            old(self).holds_term(term_at(expr@, i as int)) ==> final(self)@ == old(self)@,
        decreases i, 1nat,
    {
        let ghost s0 = self@;
        let ghost t = term_at(expr@, i as int);
        let ghost held = held_in(s0, t);
        proof {
            lemma_term_at_unfold(expr@, i as int);
            assert(node_ok(expr@[i as int], i as int));
            if held {
                let j = choose|j: int| 0 <= j < s0.len() && term_at(s0, j) == t;
                lemma_held_children(s0, j);
            }
        }
        let node = match &expr.nodes[i] {
            Lambda::Var(v) => Lambda::Var(*v),
            Lambda::IVar(v) => Lambda::IVar(*v),
            Lambda::Prim(p) => Lambda::Prim(crate::expr::copy_bytes(p)),
            Lambda::App(f, x) => {
                let f2 = match self.add_term_rec(expr, *f) {
                    Ok(id) => id,
                    Err(e) => {
                        return Err(e);
                    },
                };
                let ghost s1 = self@;
                let x2 = match self.add_term_rec(expr, *x) {
                    Ok(id) => id,
                    Err(e) => {
                        proof {
                            lemma_prefix_trans(s0, s1, self@);
                        }
                        return Err(e);
                    },
                };
                proof {
                    lemma_prefix_trans(s0, s1, self@);
                    lemma_term_at_prefix(s1, self@, f2 as int);
                }
                Lambda::App(f2, x2)
            },
            Lambda::Lam(b) => {
                match self.add_term_rec(expr, *b) {
                    Ok(id) => Lambda::Lam(id),
                    Err(e) => {
                        return Err(e);
                    },
                }
            },
            Lambda::Programs(cs) => {
                match self.add_terms(expr, cs, i) {
                    Ok(ids) => Lambda::Programs(ids),
                    Err(e) => {
                        return Err(e);
                    },
                }
            },
        };
        proof {
            lemma_node_term(self@, node@);
            if held {
                let j = choose|j: int| 0 <= j < s0.len() && term_at(s0, j) == t;
                assert(self@ == s0);
                lemma_held_node(s0, j, node@);
            }
            if node@ is Programs {
                let ids = node@->Programs_0;
                let ps = t->Programs_0;
                assert(all_closed(self@, ids) == all_terms_closed(ps)) by {
                    if all_closed(self@, ids) {
                        assert forall|k: int| 0 <= k < ps.len() implies closed(#[trigger] ps[k]) by {
                            assert(closed_at(self@, ids[k] as int));
                            assert(terms_of(self@, ids)[k] == ps[k]);
                        }
                    }
                    if all_terms_closed(ps) {
                        assert forall|k: int| 0 <= k < ids.len() implies closed_at(
                            self@,
                            #[trigger] ids[k] as int,
                        ) by {
                            assert(closed(ps[k]));
                            assert(terms_of(self@, ids)[k] == ps[k]);
                        }
                    }
                }
            }
        }
        let ghost s2 = self@;
        let r = self.try_add(node);
        proof {
            lemma_prefix_trans(s0, s2, self@);
        }
        r
    }

    /// Adds the terms at the places `cs` of an expression, which lie below
    /// `bound`, and gives their places in the store. It stops at the first
    /// subterm that cannot be added.
    pub fn add_terms(&mut self, expr: &RecExpr, cs: &Vec<Id>, bound: usize) -> (r: Result<
        Vec<Id>,
        AddError,
    >)
        requires
            old(self).wf(),
            expr.wf(),
            bound <= expr@.len(),
            ids_below(cs@, bound as int),
        ensures
            final(self).wf(),
            final(self).extends(old(self)),
            match terms_fault(terms_of(expr@, cs@), cs@.len() as nat) {
                None => r is Ok && ids_below(r.unwrap()@, final(self).size()) && terms_of(
                    final(self)@,
                    r.unwrap()@,
                ) == terms_of(expr@, cs@),
                Some(e) => r == Err::<Vec<Id>, AddError>(e),
            },
            all_held(old(self)@, terms_of(expr@, cs@)) ==> final(self)@ == old(self)@,
        decreases bound, 0nat,
    {
        let ghost s0 = self@;
        let ghost ps = terms_of(expr@, cs@);
        let ghost held = all_held(s0, ps);
        let mut ids: Vec<Id> = Vec::new();
        let mut k: usize = 0;
        assert(terms_of(self@, ids@) =~= ps.subrange(0, 0));
        while k < cs.len()
            invariant
                k <= cs@.len(),
                self.wf(),
                is_prefix(s0, self@),
                s0 == old(self)@,
                expr.wf(),
                bound <= expr@.len(),
                held == all_held(s0, ps),
                held ==> self@ == s0,
                ids_below(cs@, bound as int),
                ps == terms_of(expr@, cs@),
                ids@.len() == k,
                ids_below(ids@, self.size()),
                terms_of(self@, ids@) == ps.subrange(0, k as int),
                terms_fault(ps, k as nat) is None,
            decreases cs@.len() - k,
        {
            let ghost s1 = self@;
            let ghost before = ids@;
            assert(ps[k as int] == term_at(expr@, cs@[k as int] as int));
            proof {
                if held {
                    assert(held_in(s0, ps[k as int]));
                }
            }
            match self.add_term_rec(expr, cs[k]) {
                Ok(id) => {
                    proof {
                        lemma_prefix_trans(s0, s1, self@);
                        assert forall|j: int| 0 <= j < before.len() implies term_at(
                            self@,
                            before[j] as int,
                        ) == term_at(s1, before[j] as int) && before[j] < self@.len() by {
                            lemma_term_at_prefix(s1, self@, before[j] as int);
                        }
                    }
                    ids.push(id);
                    assert(terms_of(self@, ids@) =~= ps.subrange(0, k as int + 1)) by {
                        assert forall|j: int| 0 <= j < ids@.len() implies terms_of(self@, ids@)[j]
                            == ps[j] by {
                            if j < before.len() {
                                assert(terms_of(s1, before)[j] == ps.subrange(0, k as int)[j]);
                            }
                        }
                    }
                },
                Err(e) => {
                    proof {
                        lemma_prefix_trans(s0, s1, self@);
                        assert(terms_fault(ps, (k + 1) as nat) == Some(e));
                        lemma_terms_fault_stays(ps, (k + 1) as nat, ps.len());
                    }
                    return Err(e);
                },
            }
            k += 1;
        }
        assert(ps.subrange(0, k as int) =~= ps);
        Ok(ids)
    }

    /// Adds the term of an expression, and gives its place in the store. A
    /// term that the store holds keeps its place, and the store stays as it
    /// is.
    pub fn add_term(&mut self, expr: &RecExpr) -> (r: Result<Id, AddError>)
        requires
            old(self).wf(),
            expr.wf(),
            expr@.len() > 0,
        ensures
            final(self).wf(),
            final(self).extends(old(self)),
            match term_fault(expr.term()) {
                None => r is Ok && r.unwrap() < final(self)@.len() && final(self).term(
                    r.unwrap() as int,
                ) == expr.term(),
                Some(e) => r == Err::<Id, AddError>(e),
            },
            old(self).holds_term(expr.term()) ==> final(self)@ == old(self)@,
    {
        self.add_term_rec(expr, expr.nodes.len() - 1)
    }
}

} // verus!
