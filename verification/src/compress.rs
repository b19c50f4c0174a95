//! One step of compression, and the loop of steps: find the invention that
//! makes a corpus cheapest, rewrite the corpus with it, and go on with what
//! was rewritten.
use vstd::prelude::*;
use crate::term::{Term, cost};
use crate::expr::{
    Id, Lambda, RecExpr, ids_below, term_at, terms_of, lemma_term_at_unfold, lemma_term_at_prefix,
};
use crate::store::{Dag, AddError, term_fault};
use crate::sexp::ParseError;
use crate::applam::{Invention, inv_view};
use crate::best::{sorted_by_cost, lemma_sorted_terms, lemma_sorted_member, lemma_cost_under_terms};
use crate::inversion::{InversionResult, run_inversions, lemma_lookup};
use crate::extract::{InventionExpr, extract_under_inv};
use crate::order::{post_order, topological_ordering};
use crate::model::{
    SpecInvention, Tables, visit_all, arity_cap, best_at, definition, rewrite, cost_under,
    lemma_find_inv,
};

verus! {

broadcast use vstd::std_specs::hash::group_hash_axioms;

/// Why a corpus cannot be compressed.
#[derive(Debug, Clone, Copy, PartialEq, Eq, Structural)]
pub enum CompressionError {
    /// A program of the corpus has a free variable or a hole.
    CorpusClosedness,
    /// The corpus holds a lambda that is applied on the spot.
    Preflight,
    /// The tables of a pass do not hold what rewriting needs.
    InvariantViolation,
    /// A cost or an index does not fit its type.
    TooLarge,
}

/// What a step found: the definition of an invention, and the corpus
/// rewritten with it.
#[derive(Debug, Clone, PartialEq, Eq)]
pub struct CompressionResult {
    pub inv: InventionExpr,
    pub rewritten: RecExpr,
}

/// How a step ends.
pub enum Step {
    /// An invention was found: its definition, the number of its holes, and
    /// the corpus rewritten with it.
    Found { definition: Term, arity: nat, rewritten: Term },
    /// No invention makes the corpus cheaper.
    NoInvention,
    /// The step failed.
    Failed(CompressionError),
}

/// Whether one of the terms is a hole.
pub open spec fn has_hole(order: Seq<Term>) -> bool {
    exists|k: int| 0 <= k < order.len() && #[trigger] order[k] is IVar
}

/// What a pass over the corpus `t` keeps.
pub open spec fn pass_tables(t: Term, max_arity: nat) -> Tables {
    let order = post_order(t, Seq::empty());
    visit_all(order, order.len(), arity_cap(max_arity))
}

/// The invention that makes a term cheapest: the first of its cheapest
/// entries.
pub open spec fn winner<K>(entries: Seq<(K, int)>) -> K {
    sorted_by_cost(entries, entries.len())[0].0
}

/// Why no pass can be made over the corpus `t`, if none can: a program is
/// not closed, a cost does not fit, or a subterm is a hole.
pub open spec fn pass_fault(t: Term) -> Option<CompressionError> {
    match term_fault(t) {
        Some(AddError::TooCostly) => Some(CompressionError::TooLarge),
        Some(_) => Some(CompressionError::CorpusClosedness),
        None => if has_hole(post_order(t, Seq::empty())) {
            Some(CompressionError::CorpusClosedness)
        } else {
            None
        },
    }
}

/// What an invention gives for the corpus `t` after a pass: its definition,
/// and the corpus rewritten with it, its calls written as the primitive
/// `name`.
pub open spec fn candidate_of(s: Tables, t: Term, inv: SpecInvention, name: Seq<u8>) -> Step {
    match definition(inv) {
        None => Step::Failed(CompressionError::TooLarge),
        Some(d) => match rewrite(s, t, inv, name, (cost(t) + 1) as nat) {
            None => Step::Failed(CompressionError::InvariantViolation),
            Some(r) => Step::Found { definition: d, arity: inv.arity, rewritten: r },
        },
    }
}

/// One step on the corpus `t`: the corpus is put into a store; a pass is
/// made over its subterms, children first; the invention that makes the
/// corpus cheapest is defined, and the corpus is rewritten with it, its calls
/// written as the primitive `name`.
pub open spec fn step_of(t: Term, max_arity: nat, name: Seq<u8>) -> Step {
    match pass_fault(t) {
        Some(e) => Step::Failed(e),
        None => {
            let s = pass_tables(t, max_arity);
            let entries = best_at(s, t).inventionful_cost;
            if entries.len() == 0 {
                Step::NoInvention
            } else {
                candidate_of(s, t, winner(entries), name)
            }
        },
    }
}

/// Whether `r` is how `want` ends, which is no end without an invention.
pub open spec fn is_outcome(r: Result<CompressionResult, CompressionError>, want: Step) -> bool {
    match want {
        Step::Failed(e) => r matches Err(x) && x == e,
        Step::NoInvention => false,
        Step::Found { definition, arity, rewritten } => r matches Ok(res) && res.inv.lam_expr.wf()
            && res.inv.lam_expr@.len() > 0 && res.inv.lam_expr.term() == definition
            && res.inv.arity == arity && res.rewritten.wf() && res.rewritten@.len() > 0
            && res.rewritten.term() == rewritten,
    }
}

/// Whether the node at one of the places is a hole.
pub fn any_hole(treenodes: &Vec<Id>, store: &Dag) -> (r: bool)
    requires
        store.wf(),
        ids_below(treenodes@, store.size()),
    ensures
        r == has_hole(terms_of(store@, treenodes@)),
{
    let ghost ts = terms_of(store@, treenodes@);
    let mut k: usize = 0;
    while k < treenodes.len()
        invariant
            k <= treenodes@.len(),
            store.wf(),
            ids_below(treenodes@, store.size()),
            ts == terms_of(store@, treenodes@),
            forall|j: int| 0 <= j < k ==> !(#[trigger] ts[j] is IVar),
        decreases treenodes@.len() - k,
    {
        proof {
            lemma_term_at_unfold(store@, treenodes@[k as int] as int);
        }
        assert(ts[k as int] == store.term(treenodes@[k as int] as int));
        match store.get(treenodes[k]) {
            Lambda::IVar(_) => {
                return true;
            },
            _ => {},
        }
        k += 1;
    }
    false
}

/// What a pass leaves: the store, the place of the corpus in it, and what
/// the pass kept.
#[derive(Debug)]
pub struct Pass {
    pub store: Dag,
    pub programs_id: Id,
    pub res: InversionResult,
}

/// Puts a corpus into a store and makes a pass over its nodes, children
/// first.
pub fn run_pass(programs_expr: &RecExpr, max_arity: usize, beam_size: usize, no_cache: bool) -> (r:
    Result<Pass, CompressionError>)
    requires
        programs_expr.wf(),
        programs_expr@.len() > 0,
    ensures
        match pass_fault(programs_expr.term()) {
            Some(e) => r matches Err(x) && x == e,
            None => r matches Ok(p) && p.store.wf() && p.programs_id < p.store@.len()
                && p.store.term(p.programs_id as int) == programs_expr.term() && p.res.wf(p.store@)
                && p.res.tables(p.store@) == pass_tables(programs_expr.term(), max_arity as nat),
        },
{
    let mut store = Dag::new();
    let programs_id = match store.add_term(programs_expr) {
        Ok(id) => id,
        Err(AddError::TooCostly) => {
            return Err(CompressionError::TooLarge);
        },
        Err(_) => {
            return Err(CompressionError::CorpusClosedness);
        },
    };
    let treenodes = topological_ordering(programs_id, &store);
    if any_hole(&treenodes, &store) {
        return Err(CompressionError::CorpusClosedness);
    }
    let ghost s0 = store@;
    let ghost order = terms_of(s0, treenodes@);
    assert forall|k: int| 0 <= k < treenodes@.len() implies !(store.term(
        #[trigger] treenodes@[k] as int,
    ) is IVar) by {
        assert(!(order[k] is IVar));
    }
    let res = run_inversions(&treenodes, max_arity, beam_size, no_cache, &mut store);
    proof {
        lemma_term_at_prefix(s0, store@, programs_id as int);
    }
    Ok(Pass { store, programs_id, res })
}

/// The definition of an invention, and the corpus rewritten with it.
pub fn candidate(inv: Invention, name: &Vec<u8>, pass: &Pass) -> (r: Result<
    CompressionResult,
    CompressionError,
>)
    requires
        pass.store.wf(),
        pass.res.wf(pass.store@),
        pass.programs_id < pass.store@.len(),
        inv.body < pass.store@.len(),
    ensures
        is_outcome(
            r,
            candidate_of(
                pass.res.tables(pass.store@),
                pass.store.term(pass.programs_id as int),
                inv_view(pass.store@, inv),
                name@,
            ),
        ),
{
    let inv_expr = match inv.to_expr(&pass.store) {
        Some(e) => e,
        None => {
            return Err(CompressionError::TooLarge);
        },
    };
    match extract_under_inv(pass.programs_id, inv, name, &pass.res, &pass.store) {
        Ok(rewritten) => Ok(CompressionResult { inv: inv_expr, rewritten }),
        Err(_) => Err(CompressionError::InvariantViolation),
    }
}

/// The inventions that make the corpus cheaper after a pass, the cheapest
/// first; each is a place of the store.
pub fn ranked(pass: &Pass) -> (r: Vec<Invention>)
    requires
        pass.store.wf(),
        pass.res.wf(pass.store@),
        pass.programs_id < pass.store@.len(),
    ensures
        r@.len() == best_at(
            pass.res.tables(pass.store@),
            pass.store.term(pass.programs_id as int),
        ).inventionful_cost.len(),
        forall|k: int|
            0 <= k < r@.len() ==> (#[trigger] r@[k]).body < pass.store@.len() && inv_view(
                pass.store@,
                r@[k],
            ) == sorted_by_cost(
                best_at(
                    pass.res.tables(pass.store@),
                    pass.store.term(pass.programs_id as int),
                ).inventionful_cost,
                r@.len() as nat,
            )[k].0 && cost_under(
                best_at(pass.res.tables(pass.store@), pass.store.term(pass.programs_id as int)),
                inv_view(pass.store@, r@[k]),
            ) < cost(pass.store.term(pass.programs_id as int)),
{
    let ghost s = pass.res.tables(pass.store@);
    proof {
        lemma_lookup(&pass.res, pass.store@, s, pass.programs_id);
    }
    match pass.res.best_inventions_of_treenode.get(&pass.programs_id) {
        None => Vec::new(),
        Some(table) => {
            let top_invs = table.top_inventions();
            proof {
                let e = table@.inventionful_cost;
                lemma_sorted_terms(pass.store@, e, e.len());
                assert forall|k: int| 0 <= k < top_invs@.len() implies (#[trigger] top_invs@[k]).body
                    < pass.store@.len() && inv_view(pass.store@, top_invs@[k]) == sorted_by_cost(
                    best_at(s, pass.store.term(pass.programs_id as int)).inventionful_cost,
                    top_invs@.len() as nat,
                )[k].0 && cost_under(
                    best_at(s, pass.store.term(pass.programs_id as int)),
                    inv_view(pass.store@, top_invs@[k]),
                ) < cost(pass.store.term(pass.programs_id as int)) by {
                    lemma_sorted_member(e, k);
                    let w = sorted_by_cost(e, e.len())[k];
                    assert(w.0 == top_invs@[k]);
                    let j = choose|j: int| 0 <= j < e.len() && e[j] == w;
                    assert(e[j].0.body < pass.store@.len());
                    lemma_find_inv(e, top_invs@[k], e.len());
                    lemma_cost_under_terms(pass.store@, table@, top_invs@[k]);
                    assert(cost_under(table@, top_invs@[k]) < table@.inventionless_cost);
                }
            }
            top_invs
        },
    }
}

/// One step of compression on a corpus: a container of closed programs.
/// Gives the definition of the invention that makes the corpus cheapest and
/// the corpus rewritten with it, which costs less than the corpus; or
/// nothing where no invention makes the corpus cheaper.
pub fn run_compression_step(
    programs_expr: &RecExpr,
    max_arity: usize,
    beam_size: usize,
    no_cache: bool,
    new_inv_name: &Vec<u8>,
) -> (r: Result<Option<CompressionResult>, CompressionError>)
    requires
        programs_expr.wf(),
        programs_expr@.len() > 0,
    ensures
        match step_of(programs_expr.term(), max_arity as nat, new_inv_name@) {
            Step::Failed(e) => r matches Err(x) && x == e,
            Step::NoInvention => r matches Ok(None),
            Step::Found { definition, arity, rewritten } => r matches Ok(Some(res))
                && res.inv.lam_expr.wf() && res.inv.lam_expr@.len() > 0 && res.inv.lam_expr.term()
                == definition && res.inv.arity == arity && res.rewritten.wf() && res.rewritten@.len()
                > 0 && res.rewritten.term() == rewritten && cost(rewritten) < cost(
                programs_expr.term(),
            ),
        },
{
    let pass = match run_pass(programs_expr, max_arity, beam_size, no_cache) {
        Ok(p) => p,
        Err(e) => {
            return Err(e);
        },
    };
    let top_invs = ranked(&pass);
    if top_invs.len() == 0 {
        return Ok(None);
    }
    proof {
        let s = pass.res.tables(pass.store@);
        let t = programs_expr.term();
        let inv = inv_view(pass.store@, top_invs@[0]);
        if rewrite(s, t, inv, new_inv_name@, (cost(t) + 1) as nat) is Some {
            crate::model::lemma_rewrite_cost(s, t, inv, new_inv_name@, (cost(t) + 1) as nat);
        }
    }
    match candidate(top_invs[0], new_inv_name, &pass) {
        Ok(res) => Ok(Some(res)),
        Err(e) => Err(e),
    }
}

/// The first `count` of the inventions that make a corpus cheaper, the
/// cheapest first, each with its definition and the corpus rewritten with
/// it, its calls written as the primitive `name`.
pub fn top_candidates(
    programs_expr: &RecExpr,
    max_arity: usize,
    beam_size: usize,
    no_cache: bool,
    count: usize,
    name: &Vec<u8>,
) -> (r: Result<Vec<Result<CompressionResult, CompressionError>>, CompressionError>)
    requires
        programs_expr.wf(),
        programs_expr@.len() > 0,
    ensures
        match pass_fault(programs_expr.term()) {
            Some(e) => r matches Err(x) && x == e,
            None => {
                let s = pass_tables(programs_expr.term(), max_arity as nat);
                let entries = best_at(s, programs_expr.term()).inventionful_cost;
                r matches Ok(v) && v@.len() == (if count < entries.len() {
                    count as int
                } else {
                    entries.len() as int
                }) && forall|k: int|
                    0 <= k < v@.len() ==> is_outcome(
                        #[trigger] v@[k],
                        candidate_of(
                            s,
                            programs_expr.term(),
                            sorted_by_cost(entries, entries.len())[k].0,
                            name@,
                        ),
                    )
            },
        },
{
    let pass = match run_pass(programs_expr, max_arity, beam_size, no_cache) {
        Ok(p) => p,
        Err(e) => {
            return Err(e);
        },
    };
    let ghost t = programs_expr.term();
    let ghost s = pass_tables(t, max_arity as nat);
    let ghost entries = best_at(s, t).inventionful_cost;
    let top_invs = ranked(&pass);
    let mut out: Vec<Result<CompressionResult, CompressionError>> = Vec::new();
    let mut k: usize = 0;
    while k < top_invs.len() && k < count
        invariant
            k <= top_invs@.len(),
            k <= count,
            out@.len() == k,
            pass.store.wf(),
            pass.res.wf(pass.store@),
            pass.programs_id < pass.store@.len(),
            pass.store.term(pass.programs_id as int) == t,
            pass.res.tables(pass.store@) == s,
            entries == best_at(s, t).inventionful_cost,
            top_invs@.len() == entries.len(),
            forall|j: int|
                0 <= j < top_invs@.len() ==> (#[trigger] top_invs@[j]).body < pass.store@.len()
                    && inv_view(pass.store@, top_invs@[j]) == sorted_by_cost(
                    entries,
                    entries.len(),
                )[j].0,
            forall|j: int|
                0 <= j < k ==> is_outcome(
                    #[trigger] out@[j],
                    candidate_of(s, t, sorted_by_cost(entries, entries.len())[j].0, name@),
                ),
        decreases top_invs@.len() - k,
    {
        let ghost before = out@;
        let c = candidate(top_invs[k], name, &pass);
        out.push(c);
        assert forall|j: int| 0 <= j < k + 1 implies is_outcome(
            #[trigger] out@[j],
            candidate_of(s, t, sorted_by_cost(entries, entries.len())[j].0, name@),
        ) by {
            if j < k {
                assert(out@[j] == before[j]);
            }
        }
        k += 1;
    }
    Ok(out)
}

/// The digits of a number, to the base ten.
pub open spec fn decimal(n: nat) -> Seq<u8>
    decreases n,
{
    if n < 10 {
        seq![(48 + n) as u8]
    } else {
        decimal(n / 10).push((48 + n % 10) as u8)
    }
}

/// The name of the invention that is found after `n` others: `inv` and the
/// digits of `n`.
pub open spec fn inv_name(n: nat) -> Seq<u8> {
    seq![105u8, 110u8, 118u8] + decimal(n)
}

/// The digits of a number, to the base ten.
pub fn decimal_digits(n: usize) -> (r: Vec<u8>)
    ensures
        r@ == decimal(n as nat),
    decreases n,
{
    if n < 10 {
        let mut r: Vec<u8> = Vec::new();
        r.push(48 + n as u8);
        assert(r@ =~= seq![(48 + n) as u8]);
        r
    } else {
        let mut r = decimal_digits(n / 10);
        r.push(48 + (n % 10) as u8);
        r
    }
}

/// The name of the invention that is found after `n` others.
pub fn invention_name(n: usize) -> (r: Vec<u8>)
    ensures
        r@ == inv_name(n as nat),
{
    let mut r: Vec<u8> = Vec::new();
    r.push(105);
    r.push(110);
    r.push(118);
    let d = decimal_digits(n);
    crate::expr::append_bytes(&mut r, &d);
    assert(r@ =~= inv_name(n as nat));
    r
}

/// Whether the term holds a lambda that is applied on the spot.
pub open spec fn has_redex(t: Term) -> bool
    decreases t, 0nat,
{
    match t {
        Term::App(f, x) => *f is Lam || has_redex(*f) || has_redex(*x),
        Term::Lam(b) => has_redex(*b),
        Term::Programs(ps) => any_redex(ps, ps.len()),
        _ => false,
    }
}

/// Whether one of the first `n` terms holds a lambda that is applied on the
/// spot.
pub open spec fn any_redex(ps: Seq<Term>, n: nat) -> bool
    decreases ps, n,
{
    if n == 0 || n > ps.len() {
        false
    } else {
        any_redex(ps, (n - 1) as nat) || has_redex(ps[n - 1])
    }
}

/// Once one of the first terms holds an applied lambda, the terms do.
pub proof fn lemma_any_redex_stays(ps: Seq<Term>, n: nat, m: nat)
    requires
        n <= m <= ps.len(),
        any_redex(ps, n),
    ensures
        any_redex(ps, m),
    decreases m,
{
    if n < m {
        lemma_any_redex_stays(ps, n, (m - 1) as nat);
    }
}

/// Whether the term at the place `i` of an expression holds a lambda that is
/// applied on the spot.
pub fn find_redex(expr: &RecExpr, i: usize) -> (r: bool)
    requires
        expr.wf(),
        i < expr@.len(),
    ensures
        r == has_redex(term_at(expr@, i as int)),
    decreases i,
{
    proof {
        lemma_term_at_unfold(expr@, i as int);
        assert(crate::expr::node_ok(expr@[i as int], i as int));
    }
    match &expr.nodes[i] {
        Lambda::App(f, x) => {
            proof {
                lemma_term_at_unfold(expr@, *f as int);
            }
            let applied = match &expr.nodes[*f] {
                Lambda::Lam(_) => true,
                _ => false,
            };
            applied || find_redex(expr, *f) || find_redex(expr, *x)
        },
        Lambda::Lam(b) => find_redex(expr, *b),
        Lambda::Programs(cs) => {
            let ghost ps = terms_of(expr@, cs@);
            let mut k: usize = 0;
            while k < cs.len()
                invariant
                    k <= cs@.len(),
                    expr.wf(),
                    i < expr@.len(),
                    ids_below(cs@, i as int),
                    ps == terms_of(expr@, cs@),
                    term_at(expr@, i as int) == Term::Programs(ps),
                    !any_redex(ps, k as nat),
                decreases cs@.len() - k,
            {
                assert(ps[k as int] == term_at(expr@, cs@[k as int] as int));
                if find_redex(expr, cs[k]) {
                    proof {
                        lemma_any_redex_stays(ps, (k + 1) as nat, ps.len());
                    }
                    return true;
                }
                k += 1;
            }
            false
        },
        _ => false,
    }
}

/// The inventions that were found, each by its definition and the number
/// of its holes, and the corpus rewritten with all of them.
pub struct Compressed {
    pub invs: Seq<(Term, nat)>,
    pub rewritten: Term,
}

/// The result with more inventions before its own.
pub open spec fn after(pre: Seq<(Term, nat)>, r: Result<Compressed, CompressionError>) -> Result<
    Compressed,
    CompressionError,
> {
    match r {
        Ok(c) => Ok(Compressed { invs: pre + c.invs, rewritten: c.rewritten }),
        Err(e) => Err(e),
    }
}

/// Up to `iterations` steps on the corpus `t`, each on what the step before
/// rewrote, after `found` inventions were found: the steps end when one finds
/// no invention. The invention that is found after `n` others is called
/// `inv` and the digits of `n`.
pub open spec fn compress(t: Term, iterations: nat, found: nat, max_arity: nat) -> Result<
    Compressed,
    CompressionError,
>
    decreases iterations,
{
    if iterations == 0 {
        Ok(Compressed { invs: Seq::empty(), rewritten: t })
    } else {
        match step_of(t, max_arity, inv_name(found)) {
            Step::Failed(e) => Err(e),
            Step::NoInvention => Ok(Compressed { invs: Seq::empty(), rewritten: t }),
            Step::Found { definition, arity, rewritten } => after(
                seq![(definition, arity)],
                compress(rewritten, (iterations - 1) as nat, found + 1, max_arity),
            ),
        }
    }
}

/// What compression gives for a corpus: nothing but a failure where the
/// corpus holds a lambda that is applied on the spot.
pub open spec fn compression_of(t: Term, iterations: nat, max_arity: nat) -> Result<
    Compressed,
    CompressionError,
> {
    if has_redex(t) {
        Err(CompressionError::Preflight)
    } else {
        compress(t, iterations, 0, max_arity)
    }
}

/// The definitions of a list of inventions, each with the number of its
/// holes.
pub open spec fn definitions(v: Seq<InventionExpr>) -> Seq<(Term, nat)> {
    Seq::new(v.len(), |k: int| (v[k].lam_expr.term(), v[k].arity as nat))
}

/// Steps that end because no invention is found leave the corpus as it is.
pub proof fn lemma_no_invention_stops(t: Term, iterations: nat, found: nat, max_arity: nat)
    requires
        step_of(t, max_arity, inv_name(found)) is NoInvention,
    ensures
        compress(t, iterations, found, max_arity) == Ok::<Compressed, CompressionError>(
            Compressed { invs: Seq::empty(), rewritten: t },
        ),
{
}

/// One more step after the steps have found no invention changes nothing:
/// neither the inventions nor the corpus.
pub proof fn lemma_extra_iteration(t: Term, iterations: nat, found: nat, max_arity: nat)
    requires
        compress(t, iterations, found, max_arity) is Ok,
        step_of(
            compress(t, iterations, found, max_arity).unwrap().rewritten,
            max_arity,
            inv_name(found + compress(t, iterations, found, max_arity).unwrap().invs.len()),
        ) is NoInvention,
    ensures
        compress(t, iterations + 1, found, max_arity) == compress(
            t,
            iterations,
            found,
            max_arity,
        ),
    decreases iterations,
{
    if iterations > 0 {
        match step_of(t, max_arity, inv_name(found)) {
            Step::Found { definition, arity, rewritten } => {
                let rest = compress(rewritten, (iterations - 1) as nat, found + 1, max_arity);
                assert(rest is Ok);
                assert((seq![(definition, arity)] + rest.unwrap().invs).len() == 1
                    + rest.unwrap().invs.len());
                lemma_extra_iteration(rewritten, (iterations - 1) as nat, found + 1, max_arity);
            },
            _ => {},
        }
    }
}

/// Compresses a corpus: up to `iterations` steps, each on what the step
/// before rewrote. Gives the definitions of the inventions that were found,
/// in order, and the corpus rewritten with all of them, which costs no more
/// than the corpus. A corpus that holds a lambda that is applied on the spot
/// is refused.
pub fn compression(
    programs_expr: &RecExpr,
    iterations: usize,
    max_arity: usize,
    beam_size: usize,
    no_cache: bool,
) -> (r: Result<(Vec<InventionExpr>, RecExpr), CompressionError>)
    requires
        programs_expr.wf(),
        programs_expr@.len() > 0,
    ensures
        match compression_of(programs_expr.term(), iterations as nat, max_arity as nat) {
            Ok(c) => r matches Ok(out) && definitions(out.0@) == c.invs && out.1.wf() && out.1@.len()
                > 0 && out.1.term() == c.rewritten && cost(c.rewritten) <= cost(
                programs_expr.term(),
            ),
            Err(e) => r matches Err(x) && x == e,
        },
{
    let ghost t0 = programs_expr.term();
    if find_redex(programs_expr, programs_expr.len() - 1) {
        return Err(CompressionError::Preflight);
    }
    let mut rewritten = programs_expr.copy();
    let mut invs: Vec<InventionExpr> = Vec::new();
    let mut i: usize = 0;
    assert(definitions(invs@) =~= Seq::<(Term, nat)>::empty());
    proof {
        let r = compress(t0, iterations as nat, 0, max_arity as nat);
        assert(after(Seq::empty(), r) == r) by {
            if r is Ok {
                assert(Seq::<(Term, nat)>::empty() + r.unwrap().invs =~= r.unwrap().invs);
            }
        }
    }
    while i < iterations
        invariant
            i <= iterations,
            invs@.len() == i,
            t0 == programs_expr.term(),
            !has_redex(t0),
            rewritten.wf(),
            rewritten@.len() > 0,
            cost(rewritten.term()) <= cost(t0),
            compress(t0, iterations as nat, 0, max_arity as nat) == after(
                definitions(invs@),
                compress(rewritten.term(), (iterations - i) as nat, i as nat, max_arity as nat),
            ),
        decreases iterations - i,
    {
        let inv_name = invention_name(invs.len());
        let ghost pre = definitions(invs@);
        let ghost cur = rewritten.term();
        match run_compression_step(&rewritten, max_arity, beam_size, no_cache, &inv_name) {
            Err(e) => {
                return Err(e);
            },
            Ok(None) => {
                proof {
                    assert(pre + Seq::<(Term, nat)>::empty() =~= pre);
                }
                return Ok((invs, rewritten));
            },
            Ok(Some(res)) => {
                let ghost d = (res.inv.lam_expr.term(), res.inv.arity as nat);
                let ghost rest = compress(
                    res.rewritten.term(),
                    (iterations - i - 1) as nat,
                    (i + 1) as nat,
                    max_arity as nat,
                );
                rewritten = res.rewritten;
                invs.push(res.inv);
                proof {
                    assert(definitions(invs@) =~= pre.push(d));
                    if rest is Ok {
                        assert(pre + (seq![d] + rest.unwrap().invs) =~= pre.push(d)
                            + rest.unwrap().invs);
                    }
                }
            },
        }
        i += 1;
    }
    proof {
        assert(definitions(invs@) + Seq::<(Term, nat)>::empty() =~= definitions(invs@));
    }
    Ok((invs, rewritten))
}

/// Why a corpus of texts cannot be compressed.
#[derive(Debug, Clone, Copy, PartialEq, Eq, Structural)]
pub enum CorpusError {
    /// The programs, put together, are no term.
    Parse(ParseError),
    /// The term cannot be compressed.
    Compression(CompressionError),
}

/// The first `n` texts, each after a blank but the first.
pub open spec fn joined(programs: Seq<Vec<u8>>, n: nat) -> Seq<u8>
    decreases n,
{
    if n == 0 {
        Seq::empty()
    } else if n == 1 {
        programs[0]@
    } else {
        joined(programs, (n - 1) as nat) + seq![32u8] + programs[n - 1]@
    }
}

/// The text of the corpus of the programs: `(programs `, the programs with
/// blanks between them, and `)`.
pub open spec fn wrapped(programs: Seq<Vec<u8>>) -> Seq<u8> {
    seq![40u8] + crate::sexp::word_programs() + seq![32u8] + joined(programs, programs.len())
        + seq![41u8]
}

/// The text of the corpus of the programs.
pub fn wrap_programs(programs: &Vec<Vec<u8>>) -> (r: Vec<u8>)
    ensures
        r@ == wrapped(programs@),
{
    let mut r: Vec<u8> = Vec::new();
    r.push(40);
    r.push(112);
    r.push(114);
    r.push(111);
    r.push(103);
    r.push(114);
    r.push(97);
    r.push(109);
    r.push(115);
    r.push(32);
    let ghost head = r@;
    assert(head =~= seq![40u8] + crate::sexp::word_programs() + seq![32u8]);
    let mut k: usize = 0;
    assert(r@ =~= head + joined(programs@, 0));
    while k < programs.len()
        invariant
            k <= programs@.len(),
            r@ == head + joined(programs@, k as nat),
        decreases programs@.len() - k,
    {
        if k > 0 {
            r.push(32);
        }
        crate::expr::append_bytes(&mut r, &programs[k]);
        k += 1;
        assert(r@ =~= head + joined(programs@, k as nat));
    }
    r.push(41);
    assert(r@ =~= wrapped(programs@));
    r
}

/// What compression gives for the corpus of the programs.
pub open spec fn corpus_compression(programs: Seq<Vec<u8>>, iterations: nat, max_arity: nat) -> Result<
    Compressed,
    CorpusError,
> {
    match crate::sexp::parse_spec(wrapped(programs)) {
        Err(e) => Err(CorpusError::Parse(e)),
        Ok(t) => match compression_of(t, iterations, max_arity) {
            Err(e) => Err(CorpusError::Compression(e)),
            Ok(c) => Ok(c),
        },
    }
}

/// Compresses a corpus of programs, each given as a text: the programs are
/// put into one container, read as a term, and compressed.
pub fn compress_programs(
    programs: &Vec<Vec<u8>>,
    iterations: usize,
    max_arity: usize,
    beam_size: usize,
    no_cache: bool,
) -> (r: Result<(Vec<InventionExpr>, RecExpr), CorpusError>)
    ensures
        match corpus_compression(programs@, iterations as nat, max_arity as nat) {
            Ok(c) => r matches Ok(out) && definitions(out.0@) == c.invs && out.1.wf() && out.1@.len()
                > 0 && out.1.term() == c.rewritten,
            Err(e) => r matches Err(x) && x == e,
        },
{
    let text = wrap_programs(programs);
    let programs_expr = match crate::sexp::parse(text.as_slice()) {
        Ok(e) => e,
        Err(e) => {
            return Err(CorpusError::Parse(e));
        },
    };
    match compression(&programs_expr, iterations, max_arity, beam_size, no_cache) {
        Ok(out) => Ok(out),
        Err(e) => Err(CorpusError::Compression(e)),
    }
}

/// The corpus that a step rewrote costs less than the corpus.
pub proof fn lemma_step_cheaper(t: Term, max_arity: nat, name: Seq<u8>)
    requires
        step_of(t, max_arity, name) is Found,
    ensures
        cost(step_of(t, max_arity, name)->rewritten) < cost(t),
{
    let s = pass_tables(t, max_arity);
    let best = best_at(s, t);
    let entries = best.inventionful_cost;
    let inv = winner(entries);
    crate::pass_laws::lemma_pass_bounded(t, max_arity, t, inv);
    lemma_sorted_member(entries, 0);
    let w = sorted_by_cost(entries, entries.len())[0];
    let j = choose|j: int| 0 <= j < entries.len() && entries[j] == w;
    lemma_find_inv(entries, inv, entries.len());
    crate::model::lemma_rewrite_cost(s, t, inv, name, (cost(t) + 1) as nat);
}

/// The corpus that steps of compression rewrote costs no more than the
/// corpus.
pub proof fn lemma_compress_cheaper(t: Term, iterations: nat, found: nat, max_arity: nat)
    requires
        compress(t, iterations, found, max_arity) is Ok,
    ensures
        cost(compress(t, iterations, found, max_arity).unwrap().rewritten) <= cost(t),
    decreases iterations,
{
    if iterations > 0 {
        match step_of(t, max_arity, inv_name(found)) {
            Step::Found { definition, arity, rewritten } => {
                lemma_step_cheaper(t, max_arity, inv_name(found));
                lemma_compress_cheaper(rewritten, (iterations - 1) as nat, found + 1, max_arity);
            },
            _ => {},
        }
    }
}

} // verus!
