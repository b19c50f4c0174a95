//! What holds of moving the indices of a term.
use vstd::prelude::*;
use crate::term::{Term, ShiftSpec, shift_term, free_vars, free_ivars, in_range};
use crate::expr::{Node, nodes_ok, node_ok, term_at, terms_of, lemma_term_at_unfold};

verus! {

/// Moving the free variables of a term by `k` and then by `-k` gives the
/// term back, wherever the first move can be made.
pub proof fn lemma_shift_round_trip(t: Term, k: int, depth: nat)
    requires
        in_range(t),
        shift_term(t, ShiftSpec::Var(k), depth) is Some,
    ensures
        shift_term(shift_term(t, ShiftSpec::Var(k), depth).unwrap(), ShiftSpec::Var(-k), depth)
            == Some(t),
    decreases t,
{
    match t {
        Term::App(f, x) => {
            lemma_shift_round_trip(*f, k, depth);
            lemma_shift_round_trip(*x, k, depth);
            let f2 = shift_term(*f, ShiftSpec::Var(k), depth).unwrap();
            let x2 = shift_term(*x, ShiftSpec::Var(k), depth).unwrap();
            let t2 = Term::App(Box::new(f2), Box::new(x2));
            assert(shift_term(t, ShiftSpec::Var(k), depth) == Some(t2));
            assert(shift_term(t2, ShiftSpec::Var(-k), depth) == Some(
                Term::App(Box::new(*f), Box::new(*x)),
            ));
        },
        Term::Lam(b) => {
            lemma_shift_round_trip(*b, k, depth + 1);
            let b2 = shift_term(*b, ShiftSpec::Var(k), depth + 1).unwrap();
            let t2 = Term::Lam(Box::new(b2));
            assert(shift_term(t, ShiftSpec::Var(k), depth) == Some(t2));
            assert(shift_term(t2, ShiftSpec::Var(-k), depth) == Some(Term::Lam(Box::new(*b))));
        },
        Term::Var(i) => {
            if i >= depth {
                let j = (i + k) as nat;
                assert(shift_term(t, ShiftSpec::Var(k), depth) == Some(Term::Var(j)));
                assert(crate::term::shift_var(j, ShiftSpec::Var(-k), depth) == Some(i));
            }
        },
        _ => {},
    }
}

/// The indices of the terms of a table of nodes are indices that a node can
/// hold.
pub proof fn lemma_term_at_in_range(nodes: Seq<Node>, id: int)
    requires
        nodes_ok(nodes),
        0 <= id < nodes.len(),
    ensures
        in_range(term_at(nodes, id)),
    decreases id,
{
    lemma_term_at_unfold(nodes, id);
    assert(node_ok(nodes[id], id));
    match nodes[id] {
        Node::App(f, x) => {
            lemma_term_at_in_range(nodes, f as int);
            lemma_term_at_in_range(nodes, x as int);
        },
        Node::Lam(b) => {
            lemma_term_at_in_range(nodes, b as int);
        },
        Node::Programs(cs) => {
            let ps = terms_of(nodes, cs);
            assert forall|k: int| 0 <= k < ps.len() implies in_range(#[trigger] ps[k]) by {
                lemma_term_at_in_range(nodes, cs[k] as int);
            }
        },
        _ => {},
    }
}

/// The indices below `depth` of a set, and the others moved by `k`.
pub open spec fn moved_vars(s: Set<nat>, k: int, depth: nat) -> Set<nat> {
    Set::new(|j: nat| (j < depth && s.contains(j)) || (j - k >= depth && s.contains((j - k) as nat)))
}

/// Moving the free variables of a term by `k` moves the set of its free
/// variables by `k`, and leaves its holes.
pub proof fn lemma_shift_moves_free_vars(t: Term, k: int, depth: nat)
    requires
        shift_term(t, ShiftSpec::Var(k), depth) is Some,
    ensures
        free_vars(shift_term(t, ShiftSpec::Var(k), depth).unwrap()) == moved_vars(
            free_vars(t),
            k,
            depth,
        ),
        free_ivars(shift_term(t, ShiftSpec::Var(k), depth).unwrap()) == free_ivars(t),
    decreases t,
{
    let m = ShiftSpec::Var(k);
    let t2 = shift_term(t, m, depth).unwrap();
    match t {
        Term::Var(i) => {
            assert(free_vars(t2) =~= moved_vars(free_vars(t), k, depth));
        },
        Term::App(f, x) => {
            lemma_shift_moves_free_vars(*f, k, depth);
            lemma_shift_moves_free_vars(*x, k, depth);
            assert(free_vars(t2) =~= moved_vars(free_vars(t), k, depth));
        },
        Term::Lam(b) => {
            lemma_shift_moves_free_vars(*b, k, depth + 1);
            let b2 = shift_term(*b, m, depth + 1).unwrap();
            assert forall|j: nat| free_vars(t2).contains(j) == moved_vars(
                free_vars(t),
                k,
                depth,
            ).contains(j) by {
                assert(free_vars(t2).contains(j) == free_vars(b2).contains(j + 1));
                if j - k >= depth {
                    assert(free_vars(t).contains((j - k) as nat) == free_vars(*b).contains(
                        (j - k) as nat + 1,
                    ));
                    assert((j - k) as nat + 1 == (j + 1 - k) as nat);
                }
            }
            assert(free_vars(t2) =~= moved_vars(free_vars(t), k, depth));
        },
        _ => {
            assert(free_vars(t2) =~= moved_vars(free_vars(t), k, depth));
        },
    }
}

/// Where the holes of a set go under a way of moving holes.
pub open spec fn moved_holes(s: Set<nat>, m: ShiftSpec) -> Set<nat> {
    Set::new(|j: nat| exists|i: nat| s.contains(i) && crate::term::shift_hole(i, m) == Some(j))
}

/// Moving the holes of a term moves each hole `#i` to the index that the
/// way of moving gives for `i`: with a table `tb`, to `#(i + tb[i])`, at the
/// place where `#i` stood. So every hole of the term has an entry in the
/// table, the holes of the result are the moved holes of the term, and the
/// free variables stay.
pub proof fn lemma_shift_moves_holes(t: Term, m: ShiftSpec, depth: nat)
    requires
        !(m is Var),
        shift_term(t, m, depth) is Some,
    ensures
        forall|i: nat| free_ivars(t).contains(i) ==> crate::term::shift_hole(i, m) is Some,
        free_ivars(shift_term(t, m, depth).unwrap()) == moved_holes(free_ivars(t), m),
        free_vars(shift_term(t, m, depth).unwrap()) == free_vars(t),
    decreases t,
{
    let t2 = shift_term(t, m, depth).unwrap();
    match t {
        Term::IVar(i) => {
            assert forall|j: nat| free_ivars(t2).contains(j) == moved_holes(
                free_ivars(t),
                m,
            ).contains(j) by {
                if free_ivars(t2).contains(j) {
                    assert(free_ivars(t).contains(i) && crate::term::shift_hole(i, m) == Some(j));
                }
            }
            assert(free_ivars(t2) =~= moved_holes(free_ivars(t), m));
        },
        Term::App(f, x) => {
            lemma_shift_moves_holes(*f, m, depth);
            lemma_shift_moves_holes(*x, m, depth);
            let f2 = shift_term(*f, m, depth).unwrap();
            let x2 = shift_term(*x, m, depth).unwrap();
            assert forall|j: nat| free_ivars(t2).contains(j) == moved_holes(
                free_ivars(t),
                m,
            ).contains(j) by {
                if free_ivars(f2).contains(j) {
                    let i = choose|i: nat|
                        free_ivars(*f).contains(i) && crate::term::shift_hole(i, m) == Some(j);
                    assert(free_ivars(t).contains(i));
                }
                if free_ivars(x2).contains(j) {
                    let i = choose|i: nat|
                        free_ivars(*x).contains(i) && crate::term::shift_hole(i, m) == Some(j);
                    assert(free_ivars(t).contains(i));
                }
                if moved_holes(free_ivars(t), m).contains(j) {
                    let i = choose|i: nat|
                        free_ivars(t).contains(i) && crate::term::shift_hole(i, m) == Some(j);
                    if free_ivars(*f).contains(i) {
                        assert(moved_holes(free_ivars(*f), m).contains(j));
                    } else {
                        assert(moved_holes(free_ivars(*x), m).contains(j));
                    }
                }
            }
            assert(free_ivars(t2) =~= moved_holes(free_ivars(t), m));
        },
        Term::Lam(b) => {
            lemma_shift_moves_holes(*b, m, depth + 1);
            assert(free_vars(t2) =~= free_vars(t));
        },
        _ => {
            assert(free_ivars(t2) =~= moved_holes(free_ivars(t), m));
        },
    }
}

} // verus!
