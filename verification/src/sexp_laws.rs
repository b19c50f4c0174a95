//! Reading what was written: the text of a term reads as the term.
use vstd::prelude::*;
use crate::term::{Term, max_index};
use crate::compress::decimal;
use crate::order::{size, size_sum, lemma_size_sum};
use crate::sexp::{
    ParseError, is_space, is_delim, skip_spaces, word_end, digits_value, index_of, word_app,
    word_lam, word_programs, node_of, parse_expr, parse_list, parse_spec, render, render_all,
};

verus! {

/// Whether no byte of the list ends a word.
pub open spec fn no_delims(p: Seq<u8>) -> bool {
    forall|k: int| 0 <= k < p.len() ==> !is_delim(#[trigger] p[k])
}

/// Whether the name of a primitive reads as a primitive: it is a word, does
/// not begin like a variable or a hole, and is none of the words `app`,
/// `lam` and `programs`.
pub open spec fn plain_name(p: Seq<u8>) -> bool {
    &&& p.len() > 0
    &&& no_delims(p)
    &&& p[0] != 36
    &&& p[0] != 35
    &&& p != word_app()
    &&& p != word_lam()
    &&& p != word_programs()
}

/// Whether the text of the term reads as the term: its indices are in
/// range, and the names of its primitives are plain.
pub open spec fn printable(t: Term) -> bool
    decreases t,
{
    match t {
        Term::Var(i) | Term::IVar(i) => i <= max_index(),
        Term::Prim(p) => plain_name(p),
        Term::App(f, x) => printable(*f) && printable(*x),
        Term::Lam(b) => printable(*b),
        Term::Programs(ps) => forall|k: int| 0 <= k < ps.len() ==> printable(#[trigger] ps[k]),
    }
}

/// Whether the text `s` holds the bytes `r` from the place `pos` on.
pub open spec fn holds_at(s: Seq<u8>, pos: nat, r: Seq<u8>) -> bool {
    pos + r.len() <= s.len() && forall|i: int| 0 <= i < r.len() ==> s[pos + i] == #[trigger] r[i]
}

/// Whether a word that ends at `end` ends there: the text ends, or a byte
/// that ends a word follows.
pub open spec fn closed_at(s: Seq<u8>, end: nat) -> bool {
    end == s.len() || (end < s.len() && is_delim(s[end as int]))
}

/// A text that holds two lists of bytes, one after the other, holds each.
pub proof fn lemma_holds_concat(s: Seq<u8>, pos: nat, a: Seq<u8>, b: Seq<u8>)
    requires
        holds_at(s, pos, a + b),
    ensures
        holds_at(s, pos, a),
        holds_at(s, pos + a.len(), b),
{
    assert forall|i: int| 0 <= i < a.len() implies s[pos + i] == #[trigger] a[i] by {
        assert((a + b)[i] == a[i]);
    }
    assert forall|i: int| 0 <= i < b.len() implies s[pos + a.len() + i] == #[trigger] b[i] by {
        assert((a + b)[a.len() + i] == b[i]);
    }
}

/// The digits of a number are digits, and the first of them stay the first
/// when more follow.
pub proof fn lemma_digits_push(d: Seq<u8>, x: u8, n: nat)
    requires
        n <= d.len(),
    ensures
        digits_value(d.push(x), n) == digits_value(d, n),
    decreases n,
{
    if n > 0 {
        lemma_digits_push(d, x, (n - 1) as nat);
        assert(d.push(x)[n - 1] == d[n - 1]);
    }
}

/// The digits of a number in the range of indices spell the number, and
/// hold no byte that ends a word.
pub proof fn lemma_decimal(n: nat)
    requires
        n <= max_index(),
    ensures
        decimal(n).len() > 0,
        no_delims(decimal(n)),
        digits_value(decimal(n), decimal(n).len()) == Some(n),
        index_of(decimal(n)) == Some(n),
    decreases n,
{
    if n < 10 {
        assert(decimal(n)[0] == (48 + n) as u8);
        assert(digits_value(decimal(n), 0) == Some(0nat));
    } else {
        lemma_decimal(n / 10);
        let d = decimal(n / 10);
        let x = (48 + n % 10) as u8;
        lemma_digits_push(d, x, d.len());
        assert(decimal(n) == d.push(x));
        assert(decimal(n)[d.len() as int] == x);
        assert forall|k: int| 0 <= k < decimal(n).len() implies !is_delim(
            #[trigger] decimal(n)[k],
        ) by {
            if k < d.len() {
                assert(decimal(n)[k] == d[k]);
            }
        }
    }
}

/// A run of bytes that do not end a word, with the end of a word after it,
/// is a word.
pub proof fn lemma_word_run(s: Seq<u8>, pos: nat, r: Seq<u8>)
    requires
        holds_at(s, pos, r),
        no_delims(r),
        closed_at(s, pos + r.len()),
    ensures
        word_end(s, pos) == pos + r.len(),
        s.subrange(pos as int, (pos + r.len()) as int) == r,
    decreases r.len(),
{
    assert(s.subrange(pos as int, (pos + r.len()) as int) =~= r);
    if r.len() > 0 {
        assert(s[pos as int] == r[0]);
        let rest = r.subrange(1, r.len() as int);
        assert forall|i: int| 0 <= i < rest.len() implies s[pos + 1 + i] == #[trigger] rest[i] by {
            assert(s[pos + (i + 1)] == r[i + 1]);
        }
        assert forall|k: int| 0 <= k < rest.len() implies !is_delim(#[trigger] rest[k]) by {
            assert(!is_delim(r[k + 1]));
        }
        lemma_word_run(s, pos + 1, rest);
    }
}

/// The text of a printable term is not empty, and begins with a byte that
/// is neither white space nor `)`.
pub proof fn lemma_render_begins(t: Term)
    requires
        printable(t),
    ensures
        render(t).len() > 0,
        !is_space(render(t)[0]),
        render(t)[0] != 41,
{
    match t {
        Term::Var(i) => {
            assert(render(t)[0] == 36);
        },
        Term::IVar(i) => {
            assert(render(t)[0] == 35);
        },
        Term::Prim(p) => {
            assert(!is_delim(p[0]));
        },
        Term::App(f, x) => {
            assert(render(t)[0] == 40);
        },
        Term::Lam(b) => {
            assert(render(t)[0] == 40);
        },
        Term::Programs(ps) => {
            if ps.len() == 0 {
                assert(render(t)[0] == 112);
            } else {
                assert(render(t)[0] == 40);
            }
        },
    }
}

/// The same term is read from two places with nothing but white space
/// between them.
pub proof fn lemma_parse_expr_skips(s: Seq<u8>, a: nat, b: nat)
    requires
        skip_spaces(s, a) == skip_spaces(s, b),
    ensures
        parse_expr(s, a) == parse_expr(s, b),
{
}

/// A text that holds the text of a printable term at a place, with the end
/// of a word after it, reads there as the term.
pub proof fn lemma_reads_back(s: Seq<u8>, pos: nat, t: Term)
    requires
        printable(t),
        holds_at(s, pos, render(t)),
        closed_at(s, pos + render(t).len()),
    ensures
        parse_expr(s, pos) == Ok::<(Term, nat), ParseError>((t, pos + render(t).len())),
    decreases size(t), 0nat, 0nat,
{
    let r = render(t);
    lemma_render_begins(t);
    assert(s[pos as int] == r[0]);
    assert(skip_spaces(s, pos) == pos);
    match t {
        Term::Var(i) => {
            lemma_decimal(i);
            let d = decimal(i);
            assert(r == seq![36u8] + d);
            assert forall|k: int| 0 <= k < r.len() implies !is_delim(#[trigger] r[k]) by {
                if k > 0 {
                    assert(r[k] == d[k - 1]);
                }
            }
            lemma_word_run(s, pos, r);
            assert(r.subrange(1, r.len() as int) =~= d);
            assert(r[0] == 36);
            assert(r != word_app() && r != word_lam() && r != word_programs());
        },
        Term::IVar(i) => {
            lemma_decimal(i);
            let d = decimal(i);
            assert(r == seq![35u8] + d);
            assert forall|k: int| 0 <= k < r.len() implies !is_delim(#[trigger] r[k]) by {
                if k > 0 {
                    assert(r[k] == d[k - 1]);
                }
            }
            lemma_word_run(s, pos, r);
            assert(r.subrange(1, r.len() as int) =~= d);
            assert(r[0] == 35);
            assert(r != word_app() && r != word_lam() && r != word_programs());
        },
        Term::Prim(p) => {
            lemma_word_run(s, pos, r);
        },
        Term::App(f, x) => {
            let ts = seq![*f, *x];
            assert(render_all(ts, 0) =~= Seq::<u8>::empty());
            assert(render_all(ts, 1) =~= seq![32u8] + render(*f));
            assert(render_all(ts, 2) =~= seq![32u8] + render(*f) + seq![32u8] + render(*x));
            assert(r =~= seq![40u8] + word_app() + render_all(ts, 2) + seq![41u8]);
            assert(size_sum(ts, 0) == 0);
            assert(size_sum(ts, 1) == size(*f));
            assert(size_sum(ts, 2) == size(*f) + size(*x));
            lemma_reads_list(s, pos, word_app(), ts);
            assert(Term::App(Box::new(ts[0]), Box::new(ts[1])) == t);
        },
        Term::Lam(b) => {
            let ts = seq![*b];
            assert(render_all(ts, 0) =~= Seq::<u8>::empty());
            assert(render_all(ts, 1) =~= seq![32u8] + render(*b));
            assert(r =~= seq![40u8] + word_lam() + render_all(ts, 1) + seq![41u8]);
            assert(size_sum(ts, 0) == 0);
            assert(size_sum(ts, 1) == size(*b));
            lemma_reads_list(s, pos, word_lam(), ts);
            assert(Term::Lam(Box::new(ts[0])) == t);
        },
        Term::Programs(ps) => {
            if ps.len() == 0 {
                assert(no_delims(word_programs())) by {
                    let w = word_programs();
                    assert forall|k: int| 0 <= k < w.len() implies !is_delim(#[trigger] w[k]) by {}
                }
                lemma_word_run(s, pos, r);
                assert(ps =~= Seq::<Term>::empty());
                assert(r != word_app() && r != word_lam()) by {
                    assert(r.len() == 8);
                }
            } else {
                lemma_reads_list(s, pos, word_programs(), ps);
            }
        },
    }
}

/// A text that holds, at a place, `(`, one of the words `app`, `lam` and
/// `programs`, the texts of printable terms, each after a blank, and `)`,
/// reads there as the word with the terms.
pub proof fn lemma_reads_list(s: Seq<u8>, pos: nat, w: Seq<u8>, ts: Seq<Term>)
    requires
        ts.len() > 0,
        w == word_app() || w == word_lam() || w == word_programs(),
        forall|k: int| 0 <= k < ts.len() ==> printable(#[trigger] ts[k]),
        holds_at(s, pos, seq![40u8] + w + render_all(ts, ts.len()) + seq![41u8]),
    ensures
        parse_expr(s, pos) == match node_of(w, ts) {
            Ok(t) => Ok::<(Term, nat), ParseError>(
                (t, pos + 1 + w.len() + render_all(ts, ts.len()).len() + 1),
            ),
            Err(e) => Err::<(Term, nat), ParseError>(e),
        },
    decreases size_sum(ts, ts.len()), 2nat, 0nat,
{
    let body = render_all(ts, ts.len());
    let whole = seq![40u8] + w + body + seq![41u8];
    assert(whole =~= seq![40u8] + (w + (body + seq![41u8])));
    lemma_holds_concat(s, pos, seq![40u8], w + (body + seq![41u8]));
    lemma_holds_concat(s, pos + 1, w, body + seq![41u8]);
    lemma_holds_concat(s, pos + 1 + w.len(), body, seq![41u8]);
    assert(s[pos as int] == seq![40u8][0]);
    assert(skip_spaces(s, pos) == pos);
    assert(no_delims(w)) by {
        assert forall|k: int| 0 <= k < w.len() implies !is_delim(#[trigger] w[k]) by {}
    }
    assert(s[(pos + 1) as int] == w[0]);
    assert(skip_spaces(s, pos + 1) == pos + 1);
    // the word ends at the blank before the first term
    lemma_render_all_begins(ts, ts.len());
    assert(s[(pos + 1 + w.len()) as int] == body[0]);
    lemma_word_run(s, pos + 1, w);
    let e = pos + 1 + w.len();
    assert(word_end(s, pos + 1) == e);
    assert(render_all(ts, 0) =~= Seq::<u8>::empty());
    assert(ts.subrange(0, 0) =~= Seq::<Term>::empty());
    lemma_reads_terms(s, e, ts, 0);
    assert(ts.subrange(0, ts.len() as int) =~= ts);
}

/// The texts of terms, each after a blank, begin with a blank.
pub proof fn lemma_render_all_begins(ts: Seq<Term>, n: nat)
    requires
        0 < n <= ts.len(),
    ensures
        render_all(ts, n).len() > 0,
        render_all(ts, n)[0] == 32,
    decreases n,
{
    if n > 1 {
        lemma_render_all_begins(ts, (n - 1) as nat);
        assert(render_all(ts, n)[0] == render_all(ts, (n - 1) as nat)[0]);
    } else {
        assert(render_all(ts, 0) =~= Seq::<u8>::empty());
        assert(render_all(ts, 1) =~= seq![32u8] + render(ts[0]));
    }
}

/// A text that holds, from `start` on, the texts of printable terms, each
/// after a blank, and `)` after them, reads from the end of the first `k` of
/// them as the terms that remain, and ends after the `)`.
pub proof fn lemma_reads_terms(s: Seq<u8>, start: nat, ts: Seq<Term>, k: nat)
    requires
        k <= ts.len(),
        forall|j: int| 0 <= j < ts.len() ==> printable(#[trigger] ts[j]),
        holds_at(s, start, render_all(ts, ts.len())),
        holds_at(s, start + render_all(ts, ts.len()).len(), seq![41u8]),
    ensures
        parse_list(s, start + render_all(ts, k).len(), ts.subrange(0, k as int)) == Ok::<
            (Seq<Term>, nat),
            ParseError,
        >((ts.subrange(0, ts.len() as int), start + render_all(ts, ts.len()).len() + 1)),
    decreases size_sum(ts, ts.len()), 1nat, ts.len() - k,
{
    let all = render_all(ts, ts.len());
    let here = start + render_all(ts, k).len();
    let close = start + all.len();
    assert(s[close as int] == seq![41u8][0]);
    if k == ts.len() {
        assert(skip_spaces(s, here) == here);
    } else {
        let t = ts[k as int];
        let r = render(t);
        lemma_render_begins(t);
        lemma_render_all_prefix(ts, k + 1, ts.len());
        let upto = render_all(ts, k + 1);
        assert(upto == render_all(ts, k) + seq![32u8] + r);
        // the text holds the blank and the term
        assert forall|i: int| 0 <= i < upto.len() implies s[start + i] == #[trigger] upto[i] by {
            assert(all[i] == upto[i]);
        }
        assert(holds_at(s, start, upto));
        assert(upto =~= render_all(ts, k) + (seq![32u8] + r));
        lemma_holds_concat(s, start, render_all(ts, k), seq![32u8] + r);
        lemma_holds_concat(s, here, seq![32u8], r);
        assert(s[here as int] == seq![32u8][0]);
        assert(s[(here + 1) as int] == r[0]);
        assert(skip_spaces(s, here + 1) == here + 1);
        assert(skip_spaces(s, here) == here + 1);
        // what follows the term ends a word
        let after = here + 1 + r.len();
        assert(after == start + upto.len());
        if k + 1 == ts.len() {
            assert(after == close);
        } else {
            lemma_render_all_prefix(ts, k + 2, ts.len());
            let more = render_all(ts, k + 2);
            assert(more == upto + seq![32u8] + render(ts[(k + 1) as int]));
            assert(more[upto.len() as int] == 32);
            assert(all[upto.len() as int] == more[upto.len() as int]);
            assert(s[(start + upto.len()) as int] == all[upto.len() as int]);
        }
        lemma_size_sum(ts, ts.len(), k as int);
        lemma_reads_back(s, here + 1, t);
        lemma_parse_expr_skips(s, here, here + 1);
        assert(ts.subrange(0, k as int).push(t) =~= ts.subrange(0, (k + 1) as int));
        lemma_reads_terms(s, start, ts, k + 1);
    }
}

/// The texts of the first terms of a list begin the texts of more of them.
pub proof fn lemma_render_all_prefix(ts: Seq<Term>, n: nat, m: nat)
    requires
        n <= m <= ts.len(),
    ensures
        render_all(ts, n).len() <= render_all(ts, m).len(),
        forall|i: int|
            0 <= i < render_all(ts, n).len() ==> render_all(ts, m)[i] == #[trigger] render_all(
                ts,
                n,
            )[i],
    decreases m,
{
    if n < m {
        lemma_render_all_prefix(ts, n, (m - 1) as nat);
        let a = render_all(ts, (m - 1) as nat);
        assert forall|i: int| 0 <= i < render_all(ts, n).len() implies render_all(ts, m)[i]
            == #[trigger] render_all(ts, n)[i] by {
            assert(render_all(ts, m)[i] == a[i]);
        }
    }
}

/// What is written of a printable term reads as the term.
pub proof fn lemma_parse_render(t: Term)
    requires
        printable(t),
    ensures
        parse_spec(render(t)) == Ok::<Term, ParseError>(t),
{
    let s = render(t);
    lemma_reads_back(s, 0, t);
    assert(skip_spaces(s, s.len()) == s.len());
}

} // verus!
