//! The cost and the depth of expressions, and what is told of a corpus
//! before it is compressed.
use vstd::prelude::*;
use crate::term::{Term, cost, cost_sum, lemma_cost_nonneg, lemma_cost_sum_monotone};
use crate::expr::{Lambda, RecExpr, ids_below, node_ok, term_at, terms_of, lemma_term_at_unfold};

verus! {

/// The cost of the term at the place `i` of an expression; nothing where it
/// lies beyond the range of costs.
pub fn cost_at(expr: &RecExpr, i: usize) -> (r: Option<i32>)
    requires
        expr.wf(),
        i < expr@.len(),
    ensures
        match r {
            Some(c) => c == cost(term_at(expr@, i as int)),
            None => cost(term_at(expr@, i as int)) > i32::MAX,
        },
    decreases i,
{
    let ghost t = term_at(expr@, i as int);
    proof {
        lemma_term_at_unfold(expr@, i as int);
        assert(node_ok(expr@[i as int], i as int));
    }
    match &expr.nodes[i] {
        Lambda::App(f, x) => {
            proof {
                lemma_cost_nonneg(term_at(expr@, *f as int));
                lemma_cost_nonneg(term_at(expr@, *x as int));
            }
            let cf = match cost_at(expr, *f) {
                Some(c) => c,
                None => {
                    return None;
                },
            };
            let cx = match cost_at(expr, *x) {
                Some(c) => c,
                None => {
                    return None;
                },
            };
            let c: i64 = 1 + cf as i64 + cx as i64;
            if c > i32::MAX as i64 {
                None
            } else {
                Some(c as i32)
            }
        },
        Lambda::Lam(b) => {
            proof {
                lemma_cost_nonneg(term_at(expr@, *b as int));
            }
            match cost_at(expr, *b) {
                Some(c) => if c == i32::MAX {
                    None
                } else {
                    Some(c + 1)
                },
                None => None,
            }
        },
        Lambda::Programs(cs) => {
            let ghost ps = terms_of(expr@, cs@);
            let mut sum: i64 = 0;
            let mut k: usize = 0;
            while k < cs.len()
                invariant
                    k <= cs@.len(),
                    expr.wf(),
                    i < expr@.len(),
                    ids_below(cs@, i as int),
                    ps == terms_of(expr@, cs@),
                    t == Term::Programs(ps),
                    t == term_at(expr@, i as int),
                    sum == cost_sum(ps, k as nat),
                    0 <= sum <= i32::MAX,
                decreases cs@.len() - k,
            {
                assert(ps[k as int] == term_at(expr@, cs@[k as int] as int));
                proof {
                    lemma_cost_nonneg(ps[k as int]);
                    lemma_cost_sum_monotone(ps, (k + 1) as nat, ps.len());
                }
                match cost_at(expr, cs[k]) {
                    None => {
                        return None;
                    },
                    Some(c) => {
                        sum = sum + c as i64;
                        if sum > i32::MAX as i64 {
                            return None;
                        }
                    },
                }
                k += 1;
            }
            Some(sum as i32)
        },
        _ => Some(100),
    }
}

/// The cost of an expression; nothing where it lies beyond the range of
/// costs.
pub fn cost_rec(expr: &RecExpr) -> (r: Option<i32>)
    requires
        expr.wf(),
        expr@.len() > 0,
    ensures
        match r {
            Some(c) => c == cost(expr.term()),
            None => cost(expr.term()) > i32::MAX,
        },
{
    cost_at(expr, expr.nodes.len() - 1)
}

/// The depth of a term: 1 for a leaf, one more than its deepest child for
/// an application or a lambda; a container of programs is as deep as its
/// shallowest program. A term with a container without programs has none.
pub open spec fn depth(t: Term) -> Option<nat>
    decreases t, 0nat,
{
    match t {
        Term::App(f, x) => match (depth(*f), depth(*x)) {
            (Some(a), Some(b)) => Some(
                1 + if a >= b {
                    a
                } else {
                    b
                },
            ),
            _ => None,
        },
        Term::Lam(b) => match depth(*b) {
            Some(a) => Some(1 + a),
            None => None,
        },
        Term::Programs(ps) => if ps.len() == 0 {
            None
        } else {
            least_depth(ps, ps.len())
        },
        _ => Some(1),
    }
}

/// The least depth of the first `n` terms, of which there is one at least.
pub open spec fn least_depth(ps: Seq<Term>, n: nat) -> Option<nat>
    decreases ps, n,
{
    if n == 0 || n > ps.len() {
        None
    } else if n == 1 {
        depth(ps[0])
    } else {
        match (least_depth(ps, (n - 1) as nat), depth(ps[n - 1])) {
            (Some(a), Some(b)) => Some(
                if a <= b {
                    a
                } else {
                    b
                },
            ),
            _ => None,
        }
    }
}

/// No depth of the first terms: no depth of the terms.
pub proof fn lemma_least_depth_none(ps: Seq<Term>, n: nat, m: nat)
    requires
        1 <= n <= m <= ps.len(),
        least_depth(ps, n) is None,
    ensures
        least_depth(ps, m) is None,
    decreases m,
{
    if n < m {
        lemma_least_depth_none(ps, n, (m - 1) as nat);
    }
}

/// The depth of the term at the place `i` of an expression.
pub fn depth_at(expr: &RecExpr, i: usize) -> (r: Option<usize>)
    requires
        expr.wf(),
        i < expr@.len(),
    ensures
        match r {
            Some(d) => depth(term_at(expr@, i as int)) == Some(d as nat) && d <= i + 1,
            None => depth(term_at(expr@, i as int)) is None,
        },
    decreases i,
{
    let ghost t = term_at(expr@, i as int);
    proof {
        lemma_term_at_unfold(expr@, i as int);
        assert(node_ok(expr@[i as int], i as int));
    }
    let n = expr.nodes.len();
    assert(i < n);
    match &expr.nodes[i] {
        Lambda::App(f, x) => {
            let df = depth_at(expr, *f);
            let dx = depth_at(expr, *x);
            match (df, dx) {
                (Some(a), Some(b)) => Some(
                    1 + if a >= b {
                        a
                    } else {
                        b
                    },
                ),
                _ => None,
            }
        },
        Lambda::Lam(b) => {
            match depth_at(expr, *b) {
                Some(a) => Some(1 + a),
                None => None,
            }
        },
        Lambda::Programs(cs) => {
            if cs.len() == 0 {
                return None;
            }
            let ghost ps = terms_of(expr@, cs@);
            assert(ps[0] == term_at(expr@, cs@[0] as int));
            let mut least = match depth_at(expr, cs[0]) {
                Some(d) => d,
                None => {
                    proof {
                        lemma_least_depth_none(ps, 1, ps.len());
                    }
                    return None;
                },
            };
            let mut k: usize = 1;
            while k < cs.len()
                invariant
                    1 <= k <= cs@.len(),
                    expr.wf(),
                    i < expr@.len(),
                    ids_below(cs@, i as int),
                    ps == terms_of(expr@, cs@),
                    t == Term::Programs(ps),
                    t == term_at(expr@, i as int),
                    least_depth(ps, k as nat) == Some(least as nat),
                    least <= i,
                decreases cs@.len() - k,
            {
                assert(ps[k as int] == term_at(expr@, cs@[k as int] as int));
                match depth_at(expr, cs[k]) {
                    None => {
                        proof {
                            lemma_least_depth_none(ps, (k + 1) as nat, ps.len());
                        }
                        return None;
                    },
                    Some(d) => {
                        if d < least {
                            least = d;
                        }
                    },
                }
                k += 1;
            }
            Some(least)
        },
        _ => Some(1),
    }
}

/// The depth of an expression.
pub fn depth_rec(expr: &RecExpr) -> (r: Option<usize>)
    requires
        expr.wf(),
        expr@.len() > 0,
    ensures
        match r {
            Some(d) => depth(expr.term()) == Some(d as nat),
            None => depth(expr.term()) is None,
        },
{
    depth_at(expr, expr.nodes.len() - 1)
}

/// What is told of a corpus: the number of its programs, the greatest cost
/// and the greatest depth among them.
#[derive(Debug, Clone, Copy, PartialEq, Eq, Structural)]
pub struct ProgramsInfo {
    pub num: usize,
    pub max_cost: i32,
    pub max_depth: usize,
}

/// Whether every one of the first `n` programs has a cost in the range of
/// costs, and a depth.
pub open spec fn measurable(ps: Seq<RecExpr>, n: nat) -> bool {
    forall|k: int|
        0 <= k < n ==> cost((#[trigger] ps[k]).term()) <= i32::MAX && depth(ps[k].term()) is Some
}

/// Whether `m` is the greatest cost of the first `n` programs.
pub open spec fn is_max_cost(ps: Seq<RecExpr>, n: nat, m: int) -> bool {
    (forall|k: int| 0 <= k < n ==> cost((#[trigger] ps[k]).term()) <= m) && exists|k: int|
        0 <= k < n && cost((#[trigger] ps[k]).term()) == m
}

/// Whether `m` is the greatest depth of the first `n` programs.
pub open spec fn is_max_depth(ps: Seq<RecExpr>, n: nat, m: nat) -> bool {
    (forall|k: int| 0 <= k < n ==> depth((#[trigger] ps[k]).term()).unwrap() <= m) && exists|
        k: int,
    |
        0 <= k < n && depth((#[trigger] ps[k]).term()) == Some(m)
}

/// The number of the programs of a corpus, and the greatest cost and the
/// greatest depth among them; nothing where a program has no cost in the
/// range of costs, or no depth.
pub fn programs_info(programs: &Vec<RecExpr>) -> (r: Option<ProgramsInfo>)
    requires
        programs@.len() > 0,
        forall|k: int| 0 <= k < programs@.len() ==> (#[trigger] programs@[k]).wf() && programs@[k]@.len()
            > 0,
    ensures
        match r {
            Some(info) => measurable(programs@, programs@.len()) && info.num == programs@.len()
                && is_max_cost(programs@, programs@.len(), info.max_cost as int) && is_max_depth(
                programs@,
                programs@.len(),
                info.max_depth as nat,
            ),
            None => !measurable(programs@, programs@.len()),
        },
{
    let mut max_cost: i32 = 0;
    let mut max_depth: usize = 0;
    let mut k: usize = 0;
    let ghost mut wc: int = 0;
    let ghost mut wd: int = 0;
    while k < programs.len()
        invariant
            k <= programs@.len(),
            forall|j: int|
                0 <= j < programs@.len() ==> (#[trigger] programs@[j]).wf() && programs@[j]@.len()
                    > 0,
            measurable(programs@, k as nat),
            forall|j: int| 0 <= j < k ==> cost((#[trigger] programs@[j]).term()) <= max_cost,
            forall|j: int|
                0 <= j < k ==> depth((#[trigger] programs@[j]).term()).unwrap() <= max_depth,
            k > 0 ==> 0 <= wc < k && cost(programs@[wc].term()) == max_cost,
            k > 0 ==> 0 <= wd < k && depth(programs@[wd].term()) == Some(max_depth as nat),
        decreases programs@.len() - k,
    {
        let p = &programs[k];
        let c = match cost_rec(p) {
            Some(c) => c,
            None => {
                return None;
            },
        };
        let d = match depth_rec(p) {
            Some(d) => d,
            None => {
                return None;
            },
        };
        if k == 0 || c > max_cost {
            max_cost = c;
            proof {
                wc = k as int;
            }
        }
        if k == 0 || d > max_depth {
            max_depth = d;
            proof {
                wd = k as int;
            }
        }
        k += 1;
    }
    assert(cost(programs@[wc].term()) == max_cost);
    assert(depth(programs@[wd].term()) == Some(max_depth as nat));
    Some(ProgramsInfo { num: programs.len(), max_cost, max_depth })
}

} // verus!
