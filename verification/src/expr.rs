//! Nodes, and tables of nodes in which every node stands after its children.
use vstd::prelude::*;
use crate::term::Term;

verus! {

/// The place of a node in a table of nodes.
pub type Id = usize;

/// The cost of an application or a lambda.
pub const COST_NONTERMINAL: i32 = 1;

/// The cost of a leaf.
pub const COST_TERMINAL: i32 = 100;

/// One node of a term; its children are places in the table that holds it.
#[derive(Debug, Clone, PartialEq, Eq, Hash)]
pub enum Lambda {
    /// A bound variable, by its de-Bruijn index.
    Var(u32),
    /// A hole of an abstraction body, by its index.
    IVar(u32),
    /// Function and argument.
    App(Id, Id),
    /// The body.
    Lam(Id),
    /// The name of a primitive.
    Prim(Vec<u8>),
    /// The programs of the corpus, in order.
    Programs(Vec<Id>),
}

/// What a node holds, as a mathematical value.
pub enum Node {
    Var(u32),
    IVar(u32),
    App(usize, usize),
    Lam(usize),
    Prim(Seq<u8>),
    Programs(Seq<usize>),
}

impl View for Lambda {
    type V = Node;

    open spec fn view(&self) -> Node {
        match *self {
            Lambda::Var(i) => Node::Var(i),
            Lambda::IVar(i) => Node::IVar(i),
            Lambda::App(f, x) => Node::App(f, x),
            Lambda::Lam(b) => Node::Lam(b),
            Lambda::Prim(s) => Node::Prim(s@),
            Lambda::Programs(cs) => Node::Programs(cs@),
        }
    }
}

/// The children of a node, in order.
pub open spec fn children(n: Node) -> Seq<usize> {
    match n {
        Node::App(f, x) => seq![f, x],
        Node::Lam(b) => seq![b],
        Node::Programs(cs) => cs,
        _ => Seq::empty(),
    }
}

/// Whether two nodes have the same operator.
pub open spec fn same_operator(a: Node, b: Node) -> bool {
    match (a, b) {
        (Node::Var(i), Node::Var(j)) => i == j,
        (Node::IVar(i), Node::IVar(j)) => i == j,
        (Node::App(_, _), Node::App(_, _)) => true,
        (Node::Lam(_), Node::Lam(_)) => true,
        (Node::Prim(p), Node::Prim(q)) => p == q,
        (Node::Programs(c), Node::Programs(d)) => c.len() == d.len(),
        _ => false,
    }
}

/// Whether every place of the list lies below `bound`.
pub open spec fn ids_below(cs: Seq<usize>, bound: int) -> bool {
    forall|k: int| 0 <= k < cs.len() ==> #[trigger] cs[k] < bound
}

/// Whether every child of the node lies below `bound`.
pub open spec fn node_ok(n: Node, bound: int) -> bool {
    match n {
        Node::App(f, x) => f < bound && x < bound,
        Node::Lam(b) => b < bound,
        Node::Programs(cs) => ids_below(cs, bound),
        _ => true,
    }
}

/// Whether every node of the table stands after its children.
pub open spec fn nodes_ok(nodes: Seq<Node>) -> bool {
    forall|i: int| 0 <= i < nodes.len() ==> node_ok(#[trigger] nodes[i], i)
}

/// The views of a sequence of nodes.
pub open spec fn views(v: Seq<Lambda>) -> Seq<Node> {
    Seq::new(v.len(), |i: int| v[i]@)
}

/// Whether `a` is the beginning of `b`.
pub open spec fn is_prefix(a: Seq<Node>, b: Seq<Node>) -> bool {
    a.len() <= b.len() && forall|i: int| 0 <= i < a.len() ==> a[i] == b[i]
}

/// A table that has grown twice has grown.
pub proof fn lemma_prefix_trans(a: Seq<Node>, b: Seq<Node>, c: Seq<Node>)
    requires
        is_prefix(a, b),
        is_prefix(b, c),
    ensures
        is_prefix(a, c),
{
    assert forall|i: int| 0 <= i < a.len() implies a[i] == c[i] by {
        assert(a[i] == b[i]);
        assert(b[i] == c[i]);
    }
}

/// The term that stands at the place `id` of a table of nodes. Outside the
/// table, and where a child does not stand before its parent, the term is
/// `Var(0)`.
pub open spec fn term_at(nodes: Seq<Node>, id: int) -> Term
    decreases id + 1, 0nat,
{
    if 0 <= id < nodes.len() {
        match nodes[id] {
            Node::Var(i) => Term::Var(i as nat),
            Node::IVar(i) => Term::IVar(i as nat),
            Node::Prim(s) => Term::Prim(s),
            Node::App(f, x) => if f < id && x < id {
                Term::App(Box::new(term_at(nodes, f as int)), Box::new(term_at(nodes, x as int)))
            } else {
                Term::Var(0)
            },
            Node::Lam(b) => if b < id {
                Term::Lam(Box::new(term_at(nodes, b as int)))
            } else {
                Term::Var(0)
            },
            Node::Programs(cs) => Term::Programs(terms_at(nodes, cs, id, cs.len())),
        }
    } else {
        Term::Var(0)
    }
}

/// The terms at the first `n` of the places `cs`, each of which lies below
/// `bound`.
pub open spec fn terms_at(nodes: Seq<Node>, cs: Seq<usize>, bound: int, n: nat) -> Seq<Term>
    decreases bound, n,
{
    if n == 0 || n > cs.len() || bound <= 0 {
        Seq::empty()
    } else {
        terms_at(nodes, cs, bound, (n - 1) as nat).push(
            if cs[n - 1] < bound {
                term_at(nodes, cs[n - 1] as int)
            } else {
                Term::Var(0)
            },
        )
    }
}

/// The term that a node would stand for at the end of the table.
pub open spec fn node_term(nodes: Seq<Node>, n: Node) -> Term {
    term_at(nodes.push(n), nodes.len() as int)
}

/// The terms at a list of places.
pub open spec fn terms_of(nodes: Seq<Node>, ids: Seq<usize>) -> Seq<Term> {
    Seq::new(ids.len(), |k: int| term_at(nodes, ids[k] as int))
}

/// `terms_at` lists the terms at the places, in order.
pub proof fn lemma_terms_at(nodes: Seq<Node>, cs: Seq<usize>, bound: int, n: nat)
    requires
        n <= cs.len(),
        forall|k: int| 0 <= k < n ==> cs[k] < bound,
    ensures
        terms_at(nodes, cs, bound, n).len() == n,
        forall|k: int|
            0 <= k < n ==> #[trigger] terms_at(nodes, cs, bound, n)[k] == term_at(
                nodes,
                cs[k] as int,
            ),
    decreases n,
{
    if n > 0 {
        lemma_terms_at(nodes, cs, bound, (n - 1) as nat);
    }
}

/// What the table holds below a place decides the term at that place.
pub proof fn lemma_term_at_prefix(a: Seq<Node>, b: Seq<Node>, id: int)
    requires
        is_prefix(a, b),
        0 <= id < a.len(),
    ensures
        term_at(a, id) == term_at(b, id),
    decreases id + 1, 0nat,
{
    match a[id] {
        Node::App(f, x) => {
            if f < id && x < id {
                lemma_term_at_prefix(a, b, f as int);
                lemma_term_at_prefix(a, b, x as int);
            }
        },
        Node::Lam(c) => {
            if c < id {
                lemma_term_at_prefix(a, b, c as int);
            }
        },
        Node::Programs(cs) => {
            lemma_terms_at_prefix(a, b, cs, id, cs.len());
        },
        _ => {},
    }
}

/// The same for the terms at a list of places.
pub proof fn lemma_terms_at_prefix(a: Seq<Node>, b: Seq<Node>, cs: Seq<usize>, bound: int, n: nat)
    requires
        is_prefix(a, b),
        bound <= a.len(),
    ensures
        terms_at(a, cs, bound, n) == terms_at(b, cs, bound, n),
    decreases bound, n,
{
    if n == 0 || n > cs.len() || bound <= 0 {
    } else {
        lemma_terms_at_prefix(a, b, cs, bound, (n - 1) as nat);
        if cs[n - 1] < bound {
            lemma_term_at_prefix(a, b, cs[n - 1] as int);
        }
    }
}

/// In a table whose nodes stand after their children, a node at the end
/// stands for the term built from the terms of its children.
pub proof fn lemma_node_term(nodes: Seq<Node>, n: Node)
    requires
        node_ok(n, nodes.len() as int),
    ensures
        node_term(nodes, n) == match n {
            Node::Var(i) => Term::Var(i as nat),
            Node::IVar(i) => Term::IVar(i as nat),
            Node::Prim(s) => Term::Prim(s),
            Node::App(f, x) => Term::App(
                Box::new(term_at(nodes, f as int)),
                Box::new(term_at(nodes, x as int)),
            ),
            Node::Lam(b) => Term::Lam(Box::new(term_at(nodes, b as int))),
            Node::Programs(cs) => Term::Programs(terms_of(nodes, cs)),
        },
{
    let ext = nodes.push(n);
    let id = nodes.len() as int;
    assert(is_prefix(nodes, ext));
    match n {
        Node::App(f, x) => {
            lemma_term_at_prefix(nodes, ext, f as int);
            lemma_term_at_prefix(nodes, ext, x as int);
        },
        Node::Lam(b) => {
            lemma_term_at_prefix(nodes, ext, b as int);
        },
        Node::Programs(cs) => {
            lemma_terms_at(ext, cs, id, cs.len());
            assert forall|k: int| 0 <= k < cs.len() implies terms_at(ext, cs, id, cs.len())[k]
                == terms_of(nodes, cs)[k] by {
                lemma_term_at_prefix(nodes, ext, cs[k] as int);
            }
            assert(terms_at(ext, cs, id, cs.len()) =~= terms_of(nodes, cs));
        },
        _ => {},
    }
}

/// The term at a place of a table whose nodes stand after their children is
/// built from the terms of the children of the node there.
pub proof fn lemma_term_at_unfold(nodes: Seq<Node>, id: int)
    requires
        nodes_ok(nodes),
        0 <= id < nodes.len(),
    ensures
        term_at(nodes, id) == match nodes[id] {
            Node::Var(i) => Term::Var(i as nat),
            Node::IVar(i) => Term::IVar(i as nat),
            Node::Prim(s) => Term::Prim(s),
            Node::App(f, x) => Term::App(
                Box::new(term_at(nodes, f as int)),
                Box::new(term_at(nodes, x as int)),
            ),
            Node::Lam(b) => Term::Lam(Box::new(term_at(nodes, b as int))),
            Node::Programs(cs) => Term::Programs(terms_of(nodes, cs)),
        },
{
    assert(node_ok(nodes[id], id));
    match nodes[id] {
        Node::Programs(cs) => {
            lemma_terms_at(nodes, cs, id, cs.len());
            assert(terms_at(nodes, cs, id, cs.len()) =~= terms_of(nodes, cs));
        },
        _ => {},
    }
}

/// Whether no two places of the table hold the same node.
pub open spec fn nodes_distinct(nodes: Seq<Node>) -> bool {
    forall|i: int, j: int|
        0 <= i < nodes.len() && 0 <= j < nodes.len() && #[trigger] nodes[i] == #[trigger] nodes[j]
            ==> i == j
}

/// Where no node occurs twice, no term does: two places with the same term
/// are one place.
pub proof fn lemma_term_at_injective(nodes: Seq<Node>, i: int, j: int)
    requires
        nodes_ok(nodes),
        nodes_distinct(nodes),
        0 <= i < nodes.len(),
        0 <= j < nodes.len(),
        term_at(nodes, i) == term_at(nodes, j),
    ensures
        i == j,
    decreases i,
{
    lemma_term_at_unfold(nodes, i);
    lemma_term_at_unfold(nodes, j);
    assert(node_ok(nodes[i], i));
    assert(node_ok(nodes[j], j));
    match (nodes[i], nodes[j]) {
        (Node::App(f1, x1), Node::App(f2, x2)) => {
            lemma_term_at_injective(nodes, f1 as int, f2 as int);
            lemma_term_at_injective(nodes, x1 as int, x2 as int);
        },
        (Node::Lam(b1), Node::Lam(b2)) => {
            lemma_term_at_injective(nodes, b1 as int, b2 as int);
        },
        (Node::Programs(c1), Node::Programs(c2)) => {
            assert(terms_of(nodes, c1).len() == terms_of(nodes, c2).len());
            assert forall|k: int| 0 <= k < c1.len() implies c1[k] == c2[k] by {
                assert(terms_of(nodes, c1)[k] == terms_of(nodes, c2)[k]);
                lemma_term_at_injective(nodes, c1[k] as int, c2[k] as int);
            }
            assert(c1 =~= c2);
        },
        _ => {},
    }
    assert(nodes[i] == nodes[j]);
}

/// Whether two lists of bytes hold the same bytes.
pub fn same_bytes(a: &Vec<u8>, b: &Vec<u8>) -> (r: bool)
    ensures
        r == (a@ == b@),
{
    if a.len() != b.len() {
        return false;
    }
    let mut i: usize = 0;
    while i < a.len()
        invariant
            i <= a.len(),
            a.len() == b.len(),
            forall|k: int| 0 <= k < i ==> a@[k] == b@[k],
        decreases a.len() - i,
    {
        if a[i] != b[i] {
            return false;
        }
        i += 1;
    }
    assert(a@ =~= b@);
    true
}

/// Whether two lists of places hold the same places.
pub fn same_ids(a: &Vec<Id>, b: &Vec<Id>) -> (r: bool)
    ensures
        r == (a@ == b@),
{
    if a.len() != b.len() {
        return false;
    }
    let mut i: usize = 0;
    while i < a.len()
        invariant
            i <= a.len(),
            a.len() == b.len(),
            forall|k: int| 0 <= k < i ==> a@[k] == b@[k],
        decreases a.len() - i,
    {
        if a[i] != b[i] {
            return false;
        }
        i += 1;
    }
    assert(a@ =~= b@);
    true
}

/// A copy of a list of bytes.
pub fn copy_bytes(a: &Vec<u8>) -> (r: Vec<u8>)
    ensures
        r@ == a@,
{
    let mut r: Vec<u8> = Vec::new();
    let mut i: usize = 0;
    while i < a.len()
        invariant
            i <= a.len(),
            r@ == a@.subrange(0, i as int),
        decreases a.len() - i,
    {
        r.push(a[i]);
        i += 1;
        assert(r@ =~= a@.subrange(0, i as int));
    }
    assert(r@ =~= a@);
    r
}

/// Appends the bytes of `from` to `into`.
pub fn append_bytes(into: &mut Vec<u8>, from: &Vec<u8>)
    ensures
        final(into)@ == old(into)@ + from@,
{
    let mut k: usize = 0;
    while k < from.len()
        invariant
            k <= from@.len(),
            into@ == old(into)@ + from@.subrange(0, k as int),
        decreases from@.len() - k,
    {
        into.push(from[k]);
        k += 1;
        assert(into@ =~= old(into)@ + from@.subrange(0, k as int));
    }
    assert(from@.subrange(0, k as int) =~= from@);
}

/// A copy of a list of places.
pub fn copy_ids(a: &Vec<Id>) -> (r: Vec<Id>)
    ensures
        r@ == a@,
{
    let mut r: Vec<Id> = Vec::new();
    let mut i: usize = 0;
    while i < a.len()
        invariant
            i <= a.len(),
            r@ == a@.subrange(0, i as int),
        decreases a.len() - i,
    {
        r.push(a[i]);
        i += 1;
        assert(r@ =~= a@.subrange(0, i as int));
    }
    assert(r@ =~= a@);
    r
}

impl Lambda {
    /// Whether two nodes are the same: the same kind, the same index or name,
    /// the same children.
    pub fn same(&self, other: &Lambda) -> (r: bool)
        ensures
            r == (self@ == other@),
    {
        match (self, other) {
            (Lambda::Var(i), Lambda::Var(j)) => *i == *j,
            (Lambda::IVar(i), Lambda::IVar(j)) => *i == *j,
            (Lambda::App(f, x), Lambda::App(g, y)) => *f == *g && *x == *y,
            (Lambda::Lam(b), Lambda::Lam(c)) => *b == *c,
            (Lambda::Prim(p), Lambda::Prim(q)) => same_bytes(p, q),
            (Lambda::Programs(c), Lambda::Programs(d)) => same_ids(c, d),
            _ => false,
        }
    }

    /// A copy of the node.
    pub fn copy(&self) -> (r: Lambda)
        ensures
            r@ == self@,
    {
        match self {
            Lambda::Var(i) => Lambda::Var(*i),
            Lambda::IVar(i) => Lambda::IVar(*i),
            Lambda::App(f, x) => Lambda::App(*f, *x),
            Lambda::Lam(b) => Lambda::Lam(*b),
            Lambda::Prim(p) => Lambda::Prim(copy_bytes(p)),
            Lambda::Programs(cs) => Lambda::Programs(copy_ids(cs)),
        }
    }

    /// Whether the two nodes have the same operator: the same kind, and
    /// the same index or name; of their children only the number counts.
    pub fn matches(&self, other: &Lambda) -> (r: bool)
        ensures
            r == same_operator(self@, other@),
    {
        match (self, other) {
            (Lambda::Var(i), Lambda::Var(j)) => *i == *j,
            (Lambda::IVar(i), Lambda::IVar(j)) => *i == *j,
            (Lambda::App(_, _), Lambda::App(_, _)) => true,
            (Lambda::Lam(_), Lambda::Lam(_)) => true,
            (Lambda::Prim(p), Lambda::Prim(q)) => same_bytes(p, q),
            (Lambda::Programs(c), Lambda::Programs(d)) => c.len() == d.len(),
            _ => false,
        }
    }

    /// The children of the node, in order.
    pub fn children(&self) -> (r: Vec<Id>)
        ensures
            r@ == children(self@),
    {
        match self {
            Lambda::App(f, x) => {
                let mut r: Vec<Id> = Vec::new();
                r.push(*f);
                r.push(*x);
                assert(r@ =~= seq![*f, *x]);
                r
            },
            Lambda::Lam(b) => {
                let mut r: Vec<Id> = Vec::new();
                r.push(*b);
                assert(r@ =~= seq![*b]);
                r
            },
            Lambda::Programs(cs) => copy_ids(cs),
            _ => {
                let r: Vec<Id> = Vec::new();
                assert(r@ =~= Seq::<usize>::empty());
                r
            },
        }
    }

    /// Whether the node has no children.
    pub fn is_leaf(&self) -> (r: bool)
        ensures
            r == (children(self@).len() == 0),
    {
        match self {
            Lambda::App(_, _) => false,
            Lambda::Lam(_) => false,
            Lambda::Programs(cs) => cs.len() == 0,
            _ => true,
        }
    }
}

/// A term written down as a list of nodes, children first; the last node is
/// its root.
#[derive(Debug, Clone, PartialEq, Eq, Hash)]
pub struct RecExpr {
    pub nodes: Vec<Lambda>,
}

impl View for RecExpr {
    type V = Seq<Node>;

    open spec fn view(&self) -> Seq<Node> {
        views(self.nodes@)
    }
}

impl RecExpr {
    /// Whether every node stands after its children.
    pub open spec fn wf(&self) -> bool {
        nodes_ok(self@)
    }

    /// The term that the expression stands for: the one at its last node.
    pub open spec fn term(&self) -> Term {
        term_at(self@, self@.len() - 1)
    }

    /// An expression without nodes.
    pub fn new() -> (r: RecExpr)
        ensures
            r@.len() == 0,
            r.wf(),
    {
        RecExpr { nodes: Vec::new() }
    }

    /// The number of nodes.
    pub fn len(&self) -> (n: usize)
        ensures
            n == self@.len(),
    {
        self.nodes.len()
    }

    /// A copy of the expression.
    pub fn copy(&self) -> (r: RecExpr)
        ensures
            r@ == self@,
    {
        let mut nodes: Vec<Lambda> = Vec::new();
        let mut i: usize = 0;
        while i < self.nodes.len()
            invariant
                i <= self.nodes@.len(),
                nodes@.len() == i,
                forall|k: int| 0 <= k < i ==> (#[trigger] nodes@[k])@ == self.nodes@[k]@,
            decreases self.nodes@.len() - i,
        {
            nodes.push(self.nodes[i].copy());
            i += 1;
        }
        let r = RecExpr { nodes };
        assert(r@ =~= self@);
        r
    }

    /// Appends a node whose children are there already, and gives its place.
    pub fn add(&mut self, node: Lambda) -> (id: Id)
        requires
            old(self).wf(),
            node_ok(node@, old(self)@.len() as int),
        ensures
            final(self).wf(),
            final(self)@ == old(self)@.push(node@),
            id == old(self)@.len(),
            final(self).term() == node_term(old(self)@, node@),
    {
        let id = self.nodes.len();
        self.nodes.push(node);
        assert(self@ =~= old(self)@.push(node@));
        id
    }
}

} // verus!
