//! Writing a node of the store down again as an expression: as it is, or
//! rewritten with an invention.
use vstd::prelude::*;
use crate::term::{Term, cost, cost_sum, lemma_cost_nonneg};
use crate::expr::{
    Id, Lambda, Node, RecExpr, ids_below, is_prefix, term_at, terms_of, node_ok, copy_bytes,
    lemma_node_term, lemma_term_at_prefix, lemma_term_at_unfold, lemma_prefix_trans,
};
use crate::store::Dag;
use crate::compress::{decimal, decimal_digits};
use crate::sexp::{render, show};
use crate::applam::{
    Invention, AppLam, inv_view, applam_ok, applams_ok, applams_view, lemma_terms_of_prefix,
};
use crate::best::lemma_inv_view_injective;
use crate::inversion::{InversionResult, cost_under_at, has_inv_at, lemma_lookup};
use crate::model::{
    SpecInvention, SpecAppLam, Tables, applams_at, best_at, cost_under, has_inv, find_applam,
    rewrite, rewrite_call, rewrite_all, holes_to_vars, under_lams, definition,
};

verus! {

broadcast use vstd::std_specs::hash::group_hash_axioms;

/// The tables of a pass do not hold what rewriting needs: the cost of what
/// was written is not the best cost that is kept, a hole was met, or an
/// argument does not cost less than what it is an argument of.
#[derive(Debug, Clone, Copy, PartialEq, Eq, Structural)]
pub struct InvariantViolation;

/// An applam that is found among the first applams is the applam that is
/// found.
pub proof fn lemma_find_applam_stays(v: Seq<SpecAppLam>, inv: SpecInvention, n: nat, m: nat)
    requires
        n <= m,
        find_applam(v, inv, n) is Some,
    ensures
        find_applam(v, inv, m) == find_applam(v, inv, n),
    decreases m,
{
    if n < m {
        lemma_find_applam_stays(v, inv, n, (m - 1) as nat);
    }
}

/// The place of the first applam of the invention.
pub fn find_applam_of(applams: &Vec<AppLam>, inv: &Invention, store: &Dag) -> (r: Option<usize>)
    requires
        store.wf(),
        applams_ok(store@, applams@),
        inv.body < store@.len(),
    ensures
        match r {
            Some(i) => i < applams@.len() && find_applam(
                applams_view(store@, applams@),
                inv_view(store@, *inv),
                applams@.len() as nat,
            ) == Some(i as int),
            None => find_applam(
                applams_view(store@, applams@),
                inv_view(store@, *inv),
                applams@.len() as nat,
            ) is None,
        },
{
    let ghost av = applams_view(store@, applams@);
    let ghost iv = inv_view(store@, *inv);
    let mut i: usize = 0;
    while i < applams.len()
        invariant
            i <= applams@.len(),
            store.wf(),
            applams_ok(store@, applams@),
            inv.body < store@.len(),
            av == applams_view(store@, applams@),
            iv == inv_view(store@, *inv),
            find_applam(av, iv, i as nat) is None,
        decreases applams@.len() - i,
    {
        assert(applam_ok(store@, applams@[i as int]));
        assert(av[i as int].inv == inv_view(store@, applams@[i as int].inv));
        if applams[i].inv == *inv {
            assert(find_applam(av, iv, (i + 1) as nat) == Some(i as int));
            proof {
                lemma_find_applam_stays(av, iv, (i + 1) as nat, av.len());
            }
            return Some(i);
        }
        proof {
            if av[i as int].inv == iv {
                lemma_inv_view_injective(store@, applams@[i as int].inv, *inv);
            }
        }
        i += 1;
    }
    None
}

/// The sum of the costs of the first terms of a list is that of any list
/// that begins with them.
pub proof fn lemma_cost_sum_push(ts: Seq<Term>, t: Term, n: nat)
    requires
        n <= ts.len(),
    ensures
        cost_sum(ts.push(t), n) == cost_sum(ts, n),
    decreases n,
{
    if n > 0 {
        lemma_cost_sum_push(ts, t, (n - 1) as nat);
        assert(ts.push(t)[n - 1] == ts[n - 1]);
    }
}

/// The first terms that are rewritten stay once one of them cannot be.
pub proof fn lemma_rewrite_all_fails(
    s: Tables,
    ps: Seq<Term>,
    n: nat,
    m: nat,
    inv: SpecInvention,
    name: Seq<u8>,
    bound: nat,
)
    requires
        n <= m <= ps.len(),
        rewrite_all(s, ps, n, inv, name, bound) is None,
    ensures
        rewrite_all(s, ps, m, inv, name, bound) is None,
    decreases m,
{
    if n < m {
        lemma_rewrite_all_fails(s, ps, n, (m - 1) as nat, inv, name, bound);
    }
}

/// Writes the node at `root`, rewritten with the invention `inv`, at the end
/// of `into_expr`, and gives the place of its root there and its cost. Calls
/// of the invention are written as the primitive `replace_inv_with`.
pub fn extract_under_inv_rec(
    root: Id,
    inv: Invention,
    replace_inv_with: &Vec<u8>,
    res: &InversionResult,
    store: &Dag,
    into_expr: &mut RecExpr,
    bound: i64,
    Ghost(s): Ghost<Tables>,
) -> (r: Result<(Id, i32), InvariantViolation>)
    requires
        store.wf(),
        res.matches(store@, s),
        root < store@.len(),
        inv.body < store@.len(),
        old(into_expr).wf(),
        0 <= bound,
    ensures
        final(into_expr).wf(),
        is_prefix(old(into_expr)@, final(into_expr)@),
        match rewrite(
            s,
            store.term(root as int),
            inv_view(store@, inv),
            replace_inv_with@,
            bound as nat,
        ) {
            Some(t) => r is Ok && r.unwrap().0 + 1 == final(into_expr)@.len() && term_at(
                final(into_expr)@,
                r.unwrap().0 as int,
            ) == t && r.unwrap().1 == cost(t),
            None => r is Err,
        },
    decreases bound, root,
{
    let ghost e0 = into_expr@;
    let ghost t = store.term(root as int);
    let ghost iv = inv_view(store@, inv);
    let ghost name = replace_inv_with@;
    let target = cost_under_at(res, store, root, &inv, Ghost(s));
    let helped = has_inv_at(res, store, root, &inv, Ghost(s));
    proof {
        lemma_lookup(res, store@, s, root);
        lemma_term_at_unfold(store@, root as int);
        assert(node_ok(store@[root as int], root as int));
    }
    let found: Option<&AppLam> = if helped {
        match res.applams_of_treenode.get(&root) {
            Some(v) => match find_applam_of(v, &inv, store) {
                Some(i) => Some(&v[i]),
                None => None,
            },
            None => None,
        }
    } else {
        None
    };
    let ghost applams = applams_at(s, t);
    let (id, c): (Id, i128) = match found {
        Some(a) => {
            let ghost ats = terms_of(store@, a.args@);
            assert(applams[find_applam(applams, iv, applams.len()).unwrap()].args == ats);
            let n = Lambda::Prim(copy_bytes(replace_inv_with));
            proof {
                lemma_node_term(into_expr@, n@);
            }
            let mut id = into_expr.add(n);
            let mut c: i128 = 100;
            let mut k: usize = a.args.len();
            while k > 0
                invariant
                    k <= a.args@.len(),
                    store.wf(),
                    res.matches(store@, s),
                    inv.body < store@.len(),
                    0 <= bound,
                    applam_ok(store@, *a),
                    ats == terms_of(store@, a.args@),
                    iv == inv_view(store@, inv),
                    name == replace_inv_with@,
                    into_expr.wf(),
                    is_prefix(e0, into_expr@),
                    e0 == old(into_expr)@,
                    rewrite_call(s, ats, 0, iv, name, bound as nat) is None ==> rewrite(
                        s,
                        store.term(root as int),
                        iv,
                        name,
                        bound as nat,
                    ) is None,
                    id + 1 == into_expr@.len(),
                    rewrite_call(s, ats, k as nat, iv, name, bound as nat) == Some(
                        term_at(into_expr@, id as int),
                    ),
                    c == cost(term_at(into_expr@, id as int)),
                    100 <= c <= 100 + (a.args@.len() - k) * 0x8000_0001,
                decreases k,
            {
                k -= 1;
                let ghost e1 = into_expr@;
                let arg = a.args[k];
                assert(ats[k as int] == store.term(arg as int));
                let ac = store.data_of(arg).inventionless_cost;
                proof {
                    lemma_cost_nonneg(ats[k as int]);
                }
                if ac as i64 >= bound {
                    proof {
                        lemma_rewrite_call_fails(s, ats, k as nat, 0, iv, name, bound as nat);
                    }
                    return Err(InvariantViolation);
                }
                match extract_under_inv_rec(
                    arg,
                    inv,
                    replace_inv_with,
                    res,
                    store,
                    into_expr,
                    ac as i64,
                    Ghost(s),
                ) {
                    Err(e) => {
                        proof {
                            lemma_prefix_trans(e0, e1, into_expr@);
                            lemma_rewrite_call_fails(s, ats, k as nat, 0, iv, name, bound as nat);
                        }
                        return Err(e);
                    },
                    Ok((arg_id, arg_cost)) => {
                        let ghost e2 = into_expr@;
                        let n = Lambda::App(id, arg_id);
                        proof {
                            lemma_prefix_trans(e0, e1, e2);
                            lemma_term_at_prefix(e1, e2, id as int);
                            lemma_node_term(e2, n@);
                            lemma_cost_nonneg(term_at(e2, arg_id as int));
                        }
                        id = into_expr.add(n);
                        c = c + 1 + arg_cost as i128;
                        proof {
                            lemma_prefix_trans(e0, e2, into_expr@);
                        }
                    },
                }
            }
            (id, c)
        },
        None => {
            assert(!(has_inv(best_at(s, t), iv) && find_applam(applams, iv, applams.len())
                is Some));
            match store.get(root) {
                Lambda::Prim(p) => {
                    let n = Lambda::Prim(copy_bytes(p));
                    proof {
                        lemma_node_term(into_expr@, n@);
                    }
                    (into_expr.add(n), 100)
                },
                Lambda::Var(i) => {
                    let n = Lambda::Var(*i);
                    proof {
                        lemma_node_term(into_expr@, n@);
                    }
                    (into_expr.add(n), 100)
                },
                Lambda::IVar(_) => {
                    return Err(InvariantViolation);
                },
                Lambda::App(f, x) => {
                    let rf = extract_under_inv_rec(
                        *f,
                        inv,
                        replace_inv_with,
                        res,
                        store,
                        into_expr,
                        bound,
                        Ghost(s),
                    );
                    let ghost e1 = into_expr@;
                    let rx = extract_under_inv_rec(
                        *x,
                        inv,
                        replace_inv_with,
                        res,
                        store,
                        into_expr,
                        bound,
                        Ghost(s),
                    );
                    proof {
                        lemma_prefix_trans(e0, e1, into_expr@);
                    }
                    match (rf, rx) {
                        (Ok((f_id, fc)), Ok((x_id, xc))) => {
                            let n = Lambda::App(f_id, x_id);
                            proof {
                                lemma_term_at_prefix(e1, into_expr@, f_id as int);
                                lemma_node_term(into_expr@, n@);
                            }
                            let ghost e2 = into_expr@;
                            let id = into_expr.add(n);
                            proof {
                                lemma_prefix_trans(e0, e2, into_expr@);
                            }
                            (id, 1 + fc as i128 + xc as i128)
                        },
                        _ => {
                            return Err(InvariantViolation);
                        },
                    }
                },
                Lambda::Lam(b) => {
                    match extract_under_inv_rec(
                        *b,
                        inv,
                        replace_inv_with,
                        res,
                        store,
                        into_expr,
                        bound,
                        Ghost(s),
                    ) {
                        Ok((b_id, bc)) => {
                            let n = Lambda::Lam(b_id);
                            proof {
                                lemma_node_term(into_expr@, n@);
                            }
                            let ghost e2 = into_expr@;
                            let id = into_expr.add(n);
                            proof {
                                lemma_prefix_trans(e0, e2, into_expr@);
                            }
                            (id, 1 + bc as i128)
                        },
                        Err(e) => {
                            return Err(e);
                        },
                    }
                },
                Lambda::Programs(roots) => {
                    let ghost ps = terms_of(store@, roots@);
                    let mut ids: Vec<Id> = Vec::new();
                    let mut sum: i128 = 0;
                    let mut k: usize = 0;
                    assert(terms_of(into_expr@, ids@) =~= Seq::<Term>::empty());
                    while k < roots.len()
                        invariant
                            k <= roots@.len(),
                            store.wf(),
                            res.matches(store@, s),
                            inv.body < store@.len(),
                            root < store@.len(),
                            store@[root as int] == Node::Programs(roots@),
                            ids_below(roots@, root as int),
                            0 <= bound,
                            ps == terms_of(store@, roots@),
                            iv == inv_view(store@, inv),
                            name == replace_inv_with@,
                            into_expr.wf(),
                            is_prefix(e0, into_expr@),
                            e0 == old(into_expr)@,
                            rewrite_all(s, ps, ps.len(), iv, name, bound as nat) is None
                                ==> rewrite(
                                s,
                                store.term(root as int),
                                iv,
                                name,
                                bound as nat,
                            ) is None,
                            ids@.len() == k,
                            ids_below(ids@, into_expr@.len() as int),
                            rewrite_all(s, ps, k as nat, iv, name, bound as nat) == Some(
                                terms_of(into_expr@, ids@),
                            ),
                            sum == cost_sum(terms_of(into_expr@, ids@), k as nat),
                            0 <= sum <= k * 0x8000_0000,
                        decreases roots@.len() - k,
                    {
                        let ghost e1 = into_expr@;
                        let ghost done = terms_of(e1, ids@);
                        assert(ps[k as int] == store.term(roots@[k as int] as int));
                        match extract_under_inv_rec(
                            roots[k],
                            inv,
                            replace_inv_with,
                            res,
                            store,
                            into_expr,
                            bound,
                            Ghost(s),
                        ) {
                            Err(e) => {
                                proof {
                                    lemma_prefix_trans(e0, e1, into_expr@);
                                    lemma_rewrite_all_fails(
                                        s,
                                        ps,
                                        (k + 1) as nat,
                                        ps.len(),
                                        iv,
                                        name,
                                        bound as nat,
                                    );
                                }
                                return Err(e);
                            },
                            Ok((p_id, pc)) => {
                                proof {
                                    lemma_prefix_trans(e0, e1, into_expr@);
                                    lemma_terms_of_prefix(e1, into_expr@, ids@);
                                    lemma_cost_sum_push(
                                        done,
                                        term_at(into_expr@, p_id as int),
                                        k as nat,
                                    );
                                    lemma_cost_nonneg(term_at(into_expr@, p_id as int));
                                }
                                ids.push(p_id);
                                assert(terms_of(into_expr@, ids@) =~= done.push(
                                    term_at(into_expr@, p_id as int),
                                ));
                                sum = sum + pc as i128;
                            },
                        }
                        k += 1;
                    }
                    let n = Lambda::Programs(ids);
                    proof {
                        lemma_node_term(into_expr@, n@);
                    }
                    let ghost e2 = into_expr@;
                    let id = into_expr.add(n);
                    proof {
                        lemma_prefix_trans(e0, e2, into_expr@);
                    }
                    (id, sum)
                },
            }
        },
    };
    if c != target as i128 {
        return Err(InvariantViolation);
    }
    Ok((id, target))
}

/// The primitive cannot be applied to the arguments once one of them cannot
/// be rewritten.
pub proof fn lemma_rewrite_call_fails(
    s: Tables,
    args: Seq<Term>,
    k: nat,
    j: nat,
    inv: SpecInvention,
    name: Seq<u8>,
    bound: nat,
)
    requires
        j <= k < args.len(),
        rewrite_call(s, args, k + 1, inv, name, bound) is Some,
        !(0 <= cost(args[k as int]) < bound) || rewrite(
            s,
            args[k as int],
            inv,
            name,
            cost(args[k as int]) as nat,
        ) is None,
    ensures
        rewrite_call(s, args, j, inv, name, bound) is None,
    decreases k - j,
{
    if j < k {
        lemma_rewrite_call_fails(s, args, k, j + 1, inv, name, bound);
    }
}

/// The node at `eclass` rewritten with the invention `inv`, whose calls are
/// written as the primitive `replace_inv_with`. The cost of the result is the
/// best cost that is kept for the node under the invention.
pub fn extract_under_inv(
    eclass: Id,
    inv: Invention,
    replace_inv_with: &Vec<u8>,
    res: &InversionResult,
    store: &Dag,
) -> (r: Result<RecExpr, InvariantViolation>)
    requires
        store.wf(),
        res.wf(store@),
        eclass < store@.len(),
        inv.body < store@.len(),
    ensures
        match rewrite(
            res.tables(store@),
            store.term(eclass as int),
            inv_view(store@, inv),
            replace_inv_with@,
            (cost(store.term(eclass as int)) + 1) as nat,
        ) {
            Some(t) => r is Ok && r.unwrap().wf() && r.unwrap()@.len() > 0 && r.unwrap().term()
                == t && cost(t) == cost_under(
                best_at(res.tables(store@), store.term(eclass as int)),
                inv_view(store@, inv),
            ),
            None => r is Err,
        },
{
    let mut expr = RecExpr::new();
    let c = store.data_of(eclass).inventionless_cost;
    proof {
        lemma_cost_nonneg(store.term(eclass as int));
    }
    match extract_under_inv_rec(
        eclass,
        inv,
        replace_inv_with,
        res,
        store,
        &mut expr,
        c as i64 + 1,
        Ghost(res.tables(store@)),
    ) {
        Ok(_) => Ok(expr),
        Err(e) => Err(e),
    }
}

/// Writes the node at `id` at the end of `into_expr`, and gives the place of
/// its root there.
pub fn extract_rec(id: Id, store: &Dag, into_expr: &mut RecExpr) -> (r: Id)
    requires
        store.wf(),
        id < store@.len(),
        old(into_expr).wf(),
    ensures
        final(into_expr).wf(),
        is_prefix(old(into_expr)@, final(into_expr)@),
        r + 1 == final(into_expr)@.len(),
        term_at(final(into_expr)@, r as int) == store.term(id as int),
    decreases id,
{
    let ghost e0 = into_expr@;
    proof {
        lemma_term_at_unfold(store@, id as int);
        assert(node_ok(store@[id as int], id as int));
    }
    let n = match store.get(id) {
        Lambda::Prim(p) => Lambda::Prim(copy_bytes(p)),
        Lambda::Var(i) => Lambda::Var(*i),
        Lambda::IVar(i) => Lambda::IVar(*i),
        Lambda::App(f, x) => {
            let f2 = extract_rec(*f, store, into_expr);
            let ghost e1 = into_expr@;
            let x2 = extract_rec(*x, store, into_expr);
            proof {
                lemma_prefix_trans(e0, e1, into_expr@);
                lemma_term_at_prefix(e1, into_expr@, f2 as int);
            }
            Lambda::App(f2, x2)
        },
        Lambda::Lam(b) => {
            let b2 = extract_rec(*b, store, into_expr);
            Lambda::Lam(b2)
        },
        Lambda::Programs(roots) => {
            let ghost ps = terms_of(store@, roots@);
            let mut ids: Vec<Id> = Vec::new();
            let mut k: usize = 0;
            assert(terms_of(into_expr@, ids@) =~= ps.subrange(0, 0));
            while k < roots.len()
                invariant
                    k <= roots@.len(),
                    store.wf(),
                    id < store@.len(),
                    ids_below(roots@, id as int),
                    ps == terms_of(store@, roots@),
                    into_expr.wf(),
                    is_prefix(e0, into_expr@),
                    ids@.len() == k,
                    ids_below(ids@, into_expr@.len() as int),
                    terms_of(into_expr@, ids@) == ps.subrange(0, k as int),
                decreases roots@.len() - k,
            {
                let ghost e1 = into_expr@;
                let p = extract_rec(roots[k], store, into_expr);
                proof {
                    lemma_prefix_trans(e0, e1, into_expr@);
                    lemma_terms_of_prefix(e1, into_expr@, ids@);
                }
                ids.push(p);
                assert(terms_of(into_expr@, ids@) =~= ps.subrange(0, k as int + 1));
                k += 1;
            }
            assert(ps.subrange(0, k as int) =~= ps);
            Lambda::Programs(ids)
        },
    };
    proof {
        lemma_node_term(into_expr@, n@);
    }
    let ghost e2 = into_expr@;
    let r = into_expr.add(n);
    proof {
        lemma_prefix_trans(e0, e2, into_expr@);
    }
    r
}

/// The node at `eclass` as an expression.
pub fn extract(eclass: Id, store: &Dag) -> (r: RecExpr)
    requires
        store.wf(),
        eclass < store@.len(),
    ensures
        r.wf(),
        r@.len() > 0,
        r.term() == store.term(eclass as int),
{
    let mut expr = RecExpr::new();
    extract_rec(eclass, store, &mut expr);
    expr
}

/// The definition of an invention, written down: the body under one lambda
/// for each hole.
#[derive(Debug, Clone, PartialEq, Eq)]
pub struct InventionExpr {
    pub lam_expr: RecExpr,
    pub arity: usize,
}

/// Writes the node at `id`, which stands under `depth` binders, at the end of
/// `into_expr` with its holes turned into variables; nothing where the index
/// of such a variable cannot be carried.
pub fn define_rec(id: Id, depth: usize, store: &Dag, into_expr: &mut RecExpr) -> (r: Option<Id>)
    requires
        store.wf(),
        id < store@.len(),
        depth + id <= usize::MAX,
        old(into_expr).wf(),
    ensures
        final(into_expr).wf(),
        is_prefix(old(into_expr)@, final(into_expr)@),
        match holes_to_vars(store.term(id as int), depth as nat) {
            Some(t) => r is Some && r.unwrap() + 1 == final(into_expr)@.len() && term_at(
                final(into_expr)@,
                r.unwrap() as int,
            ) == t,
            None => r is None,
        },
    decreases id,
{
    let ghost e0 = into_expr@;
    proof {
        lemma_term_at_unfold(store@, id as int);
        assert(node_ok(store@[id as int], id as int));
    }
    let n = match store.get(id) {
        Lambda::IVar(i) => {
            if depth > 0xffff_ffff || *i as u64 + depth as u64 > 0xffff_ffff {
                return None;
            }
            Lambda::Var((*i as u64 + depth as u64) as u32)
        },
        Lambda::App(f, x) => {
            let f2 = define_rec(*f, depth, store, into_expr);
            let ghost e1 = into_expr@;
            let x2 = define_rec(*x, depth, store, into_expr);
            proof {
                lemma_prefix_trans(e0, e1, into_expr@);
            }
            match (f2, x2) {
                (Some(f3), Some(x3)) => {
                    proof {
                        lemma_term_at_prefix(e1, into_expr@, f3 as int);
                    }
                    Lambda::App(f3, x3)
                },
                _ => {
                    return None;
                },
            }
        },
        Lambda::Lam(b) => {
            match define_rec(*b, depth + 1, store, into_expr) {
                Some(b2) => Lambda::Lam(b2),
                None => {
                    return None;
                },
            }
        },
        _ => {
            let r = extract_rec(id, store, into_expr);
            return Some(r);
        },
    };
    proof {
        lemma_node_term(into_expr@, n@);
    }
    let ghost e2 = into_expr@;
    let r = into_expr.add(n);
    proof {
        lemma_prefix_trans(e0, e2, into_expr@);
    }
    Some(r)
}

impl Invention {
    /// The invention of a body and a number of holes.
    pub fn new(body: Id, arity: usize) -> (r: Invention)
        ensures
            r.body == body,
            r.arity == arity,
    {
        Invention { body, arity }
    }

    /// Whether the body of the invention has no free variable.
    pub fn valid_invention(&self, store: &Dag) -> (r: bool)
        requires
            store.wf(),
            self.body < store@.len(),
        ensures
            r == crate::model::valid_invention(inv_view(store@, *self)),
    {
        let d = store.data_of(self.body);
        proof {
            crate::store::lemma_refs_empty(d.upward_refs@);
        }
        d.upward_refs.len() == 0
    }

    /// The definition of the invention, written down; nothing where the
    /// index of one of its variables cannot be carried.
    pub fn to_expr(&self, store: &Dag) -> (r: Option<InventionExpr>)
        requires
            store.wf(),
            self.body < store@.len(),
        ensures
            match definition(inv_view(store@, *self)) {
                Some(t) => r is Some && r.unwrap().arity == self.arity && r.unwrap().lam_expr.wf()
                    && r.unwrap().lam_expr@.len() > 0 && r.unwrap().lam_expr.term() == t,
                None => r is None,
            },
    {
        let mut expr = RecExpr::new();
        match define_rec(self.body, 0, store, &mut expr) {
            None => None,
            Some(b) => {
                let ghost body = term_at(expr@, b as int);
                let mut id = b;
                let mut k: usize = 0;
                while k < self.arity
                    invariant
                        k <= self.arity,
                        expr.wf(),
                        id + 1 == expr@.len(),
                        term_at(expr@, id as int) == under_lams(body, k as nat),
                    decreases self.arity - k,
                {
                    let n = Lambda::Lam(id);
                    proof {
                        lemma_node_term(expr@, n@);
                    }
                    id = expr.add(n);
                    k += 1;
                }
                Some(InventionExpr { lam_expr: expr, arity: self.arity })
            },
        }
    }
}

/// A node whose children are places of the store, as an expression.
pub fn extract_enode(enode: &Lambda, store: &Dag) -> (r: RecExpr)
    requires
        store.wf(),
        node_ok(enode@, store.size()),
        !(enode@ is Programs),
    ensures
        r.wf(),
        r@.len() > 0,
        r.term() == crate::expr::node_term(store@, enode@),
{
    let mut expr = RecExpr::new();
    proof {
        lemma_node_term(store@, enode@);
    }
    let n = match enode {
        Lambda::App(f, x) => {
            let f2 = extract_rec(*f, store, &mut expr);
            let ghost e1 = expr@;
            let x2 = extract_rec(*x, store, &mut expr);
            proof {
                lemma_term_at_prefix(e1, expr@, f2 as int);
            }
            Lambda::App(f2, x2)
        },
        Lambda::Lam(b) => {
            let b2 = extract_rec(*b, store, &mut expr);
            Lambda::Lam(b2)
        },
        Lambda::Var(i) => Lambda::Var(*i),
        Lambda::IVar(i) => Lambda::IVar(*i),
        Lambda::Prim(p) => Lambda::Prim(copy_bytes(p)),
        Lambda::Programs(_) => Lambda::Var(0),
    };
    proof {
        lemma_node_term(expr@, n@);
    }
    expr.add(n);
    expr
}

/// The text of an applam: the number of the holes of its invention and the
/// definition of the invention, then each argument on a line of its own.
pub open spec fn applam_text(def: Term, arity: nat, args: Seq<Term>) -> Seq<u8> {
    seq![105u8, 110u8, 118u8, 58u8, 91u8, 97u8, 114u8, 105u8, 116u8, 121u8, 32u8] + decimal(arity)
        + seq![93u8, 58u8, 32u8] + render(def) + seq![32u8] + args_text(args, args.len())
}

/// The texts of the first `n` arguments, each on a line of its own.
pub open spec fn args_text(args: Seq<Term>, n: nat) -> Seq<u8>
    decreases n,
{
    if n == 0 {
        Seq::empty()
    } else {
        args_text(args, (n - 1) as nat) + seq![10u8, 97u8, 114u8, 103u8, 58u8] + render(
            args[n - 1],
        )
    }
}

impl AppLam {
    /// The text of the applam: `inv:[arity n]: ` and the definition of its
    /// invention, a blank, and a line `arg:` with each argument; nothing
    /// where the invention has no definition.
    pub fn to_string(&self, store: &Dag) -> (r: Option<Vec<u8>>)
        requires
            store.wf(),
            applam_ok(store@, *self),
        ensures
            match definition(inv_view(store@, self.inv)) {
                Some(d) => r is Some && r.unwrap()@ == applam_text(
                    d,
                    self.inv.arity as nat,
                    terms_of(store@, self.args@),
                ),
                None => r is None,
            },
    {
        let def = match self.inv.to_expr(store) {
            Some(d) => d,
            None => {
                return None;
            },
        };
        let ghost d = def.lam_expr.term();
        let ghost ts = terms_of(store@, self.args@);
        let mut out: Vec<u8> = Vec::new();
        out.push(105);
        out.push(110);
        out.push(118);
        out.push(58);
        out.push(91);
        out.push(97);
        out.push(114);
        out.push(105);
        out.push(116);
        out.push(121);
        out.push(32);
        let digits = decimal_digits(self.inv.arity);
        crate::expr::append_bytes(&mut out, &digits);
        out.push(93);
        out.push(58);
        out.push(32);
        let text = show(&def.lam_expr);
        crate::expr::append_bytes(&mut out, &text);
        out.push(32);
        let ghost head = out@;
        assert(head =~= seq![
            105u8,
            110u8,
            118u8,
            58u8,
            91u8,
            97u8,
            114u8,
            105u8,
            116u8,
            121u8,
            32u8,
        ] + decimal(self.inv.arity as nat) + seq![93u8, 58u8, 32u8] + render(d) + seq![32u8]);
        let mut k: usize = 0;
        assert(out@ =~= head + args_text(ts, 0));
        while k < self.args.len()
            invariant
                k <= self.args@.len(),
                store.wf(),
                applam_ok(store@, *self),
                ts == terms_of(store@, self.args@),
                out@ == head + args_text(ts, k as nat),
            decreases self.args@.len() - k,
        {
            out.push(10);
            out.push(97);
            out.push(114);
            out.push(103);
            out.push(58);
            let arg = extract(self.args[k], store);
            assert(ts[k as int] == store.term(self.args@[k as int] as int));
            let text = show(&arg);
            crate::expr::append_bytes(&mut out, &text);
            assert(out@ =~= head + (args_text(ts, k as nat) + seq![
                10u8,
                97u8,
                114u8,
                103u8,
                58u8,
            ] + render(ts[k as int])));
            k += 1;
        }
        Some(out)
    }

    /// The indices of the free variables of the body and of the arguments
    /// of the applam.
    pub fn upward_refs(&self, store: &Dag) -> (r: Vec<u32>)
        requires
            store.wf(),
            applam_ok(store@, *self),
        ensures
            crate::store::refs_set(r@) == crate::term::free_vars(
                store.term(self.inv.body as int),
            ).union(crate::pass_laws::args_vars(terms_of(store@, self.args@))),
    {
        let ghost ts = terms_of(store@, self.args@);
        let ghost body = crate::term::free_vars(store.term(self.inv.body as int));
        let mut r: Vec<u32> = Vec::new();
        proof {
            crate::store::lemma_refs_empty(r@);
        }
        crate::store::refs_extend(&mut r, &store.data_of(self.inv.body).upward_refs);
        let mut k: usize = 0;
        proof {
            assert(crate::pass_laws::args_vars(ts.subrange(0, 0)) =~= Set::<nat>::empty());
            assert(crate::store::refs_set(r@) =~= body.union(
                crate::pass_laws::args_vars(ts.subrange(0, 0)),
            ));
        }
        while k < self.args.len()
            invariant
                k <= self.args@.len(),
                store.wf(),
                applam_ok(store@, *self),
                ts == terms_of(store@, self.args@),
                crate::store::refs_set(r@) == body.union(
                    crate::pass_laws::args_vars(ts.subrange(0, k as int)),
                ),
            decreases self.args@.len() - k,
        {
            let d = store.data_of(self.args[k]);
            assert(ts[k as int] == store.term(self.args@[k as int] as int));
            crate::store::refs_extend(&mut r, &d.upward_refs);
            proof {
                crate::pass_laws::lemma_args_vars_step(ts, k as int);
                assert(crate::store::refs_set(r@) =~= body.union(
                    crate::pass_laws::args_vars(ts.subrange(0, k as int + 1)),
                ));
            }
            k += 1;
        }
        assert(ts.subrange(0, k as int) =~= ts);
        r
    }
}

} // verus!
