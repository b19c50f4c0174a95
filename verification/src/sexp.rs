//! Terms as text: `(app f x)`, `(lam b)`, `(programs p ...)`, `$i` for a
//! variable, `#i` for a hole, and any other word for a primitive.
use vstd::prelude::*;
use vstd::slice::*;
use crate::term::{Term, max_index};
use crate::expr::{
    Id, Lambda, Node, RecExpr, ids_below, is_prefix, node_ok, term_at, terms_of, same_bytes,
    append_bytes, lemma_node_term, lemma_term_at_unfold, lemma_prefix_trans,
};
use crate::applam::lemma_terms_of_prefix;
use crate::compress::{decimal, decimal_digits};

verus! {

/// Why a text is no term.
#[derive(Debug, Clone, Copy, PartialEq, Eq, Structural)]
pub enum ParseError {
    /// The text ends where a term or a `)` is due.
    UnexpectedEnd,
    /// A `)` stands where a term is due.
    UnexpectedClose,
    /// A `(` is not followed by a word.
    MissingOperator,
    /// `app` without two children, `lam` without one, or another word with
    /// children.
    WrongChildren,
    /// `$` or `#` is not followed by digits alone, or the number is out of
    /// range.
    BadIndex,
    /// Something follows the term.
    TrailingInput,
}

/// Whether the byte is white space.
pub open spec fn is_space(c: u8) -> bool {
    c == 32 || c == 9 || c == 10 || c == 13
}

/// Whether the byte ends a word.
pub open spec fn is_delim(c: u8) -> bool {
    is_space(c) || c == 40 || c == 41
}

/// The first place from `pos` on that holds no white space.
pub open spec fn skip_spaces(s: Seq<u8>, pos: nat) -> nat
    decreases s.len() - pos,
{
    if pos < s.len() && is_space(s[pos as int]) {
        skip_spaces(s, pos + 1)
    } else {
        pos
    }
}

/// The first place from `pos` on that ends a word.
pub open spec fn word_end(s: Seq<u8>, pos: nat) -> nat
    decreases s.len() - pos,
{
    if pos < s.len() && !is_delim(s[pos as int]) {
        word_end(s, pos + 1)
    } else {
        pos
    }
}

/// White space is skipped forwards, and not beyond the text.
pub proof fn lemma_skip_spaces(s: Seq<u8>, pos: nat)
    ensures
        pos <= skip_spaces(s, pos),
        pos <= s.len() ==> skip_spaces(s, pos) <= s.len(),
        skip_spaces(s, pos) < s.len() ==> !is_space(s[skip_spaces(s, pos) as int]),
    decreases s.len() - pos,
{
    if pos < s.len() && is_space(s[pos as int]) {
        lemma_skip_spaces(s, pos + 1);
    }
}

/// A word ends after its beginning, and not beyond the text.
pub proof fn lemma_word_end(s: Seq<u8>, pos: nat)
    ensures
        pos <= word_end(s, pos),
        pos <= s.len() ==> word_end(s, pos) <= s.len(),
        pos < s.len() && !is_delim(s[pos as int]) ==> pos < word_end(s, pos),
    decreases s.len() - pos,
{
    if pos < s.len() && !is_delim(s[pos as int]) {
        lemma_word_end(s, pos + 1);
    }
}

/// The number that the first `n` bytes spell, if they are digits; a number
/// beyond the range of indices counts as one beyond it.
pub open spec fn digits_value(d: Seq<u8>, n: nat) -> Option<nat>
    decreases n,
{
    if n == 0 {
        Some(0)
    } else {
        match digits_value(d, (n - 1) as nat) {
            Some(v) => if 48 <= d[n - 1] <= 57 {
                if v * 10 + (d[n - 1] - 48) > max_index() {
                    Some((max_index() + 1) as nat)
                } else {
                    Some((v * 10 + (d[n - 1] - 48)) as nat)
                }
            } else {
                None
            },
            None => None,
        }
    }
}

/// The index that the bytes spell: digits, at least one, for a number in the
/// range of indices.
pub open spec fn index_of(d: Seq<u8>) -> Option<nat> {
    if d.len() == 0 {
        None
    } else {
        match digits_value(d, d.len()) {
            Some(v) => if v <= max_index() {
                Some(v)
            } else {
                None
            },
            None => None,
        }
    }
}

/// The word `app`.
pub open spec fn word_app() -> Seq<u8> {
    seq![97u8, 112u8, 112u8]
}

/// The word `lam`.
pub open spec fn word_lam() -> Seq<u8> {
    seq![108u8, 97u8, 109u8]
}

/// The word `programs`.
pub open spec fn word_programs() -> Seq<u8> {
    seq![112u8, 114u8, 111u8, 103u8, 114u8, 97u8, 109u8, 115u8]
}

/// The term that a word and the terms after it make.
pub open spec fn node_of(op: Seq<u8>, children: Seq<Term>) -> Result<Term, ParseError> {
    if op == word_app() {
        if children.len() == 2 {
            Ok(Term::App(Box::new(children[0]), Box::new(children[1])))
        } else {
            Err(ParseError::WrongChildren)
        }
    } else if op == word_lam() {
        if children.len() == 1 {
            Ok(Term::Lam(Box::new(children[0])))
        } else {
            Err(ParseError::WrongChildren)
        }
    } else if op == word_programs() {
        Ok(Term::Programs(children))
    } else if children.len() != 0 {
        Err(ParseError::WrongChildren)
    } else if op.len() > 0 && op[0] == 36 {
        match index_of(op.subrange(1, op.len() as int)) {
            Some(i) => Ok(Term::Var(i)),
            None => Err(ParseError::BadIndex),
        }
    } else if op.len() > 0 && op[0] == 35 {
        match index_of(op.subrange(1, op.len() as int)) {
            Some(i) => Ok(Term::IVar(i)),
            None => Err(ParseError::BadIndex),
        }
    } else {
        Ok(Term::Prim(op))
    }
}

/// A term with the place after it, or why there is none.
pub open spec fn ending(r: Result<Term, ParseError>, end: nat) -> Result<(Term, nat), ParseError> {
    match r {
        Ok(t) => Ok((t, end)),
        Err(x) => Err(x),
    }
}

/// The term that begins at `pos`, after white space, and the place after it.
pub open spec fn parse_expr(s: Seq<u8>, pos: nat) -> Result<(Term, nat), ParseError>
    decreases s.len() - pos, 1nat,
{
    let p = skip_spaces(s, pos);
    if p >= s.len() {
        Err(ParseError::UnexpectedEnd)
    } else if s[p as int] == 41 {
        Err(ParseError::UnexpectedClose)
    } else if s[p as int] == 40 {
        let q = skip_spaces(s, p + 1);
        if q >= s.len() {
            Err(ParseError::UnexpectedEnd)
        } else if s[q as int] == 40 || s[q as int] == 41 {
            Err(ParseError::MissingOperator)
        } else {
            let e = word_end(s, q);
            proof {
                lemma_skip_spaces(s, pos);
                lemma_skip_spaces(s, p + 1);
                lemma_word_end(s, q);
            }
            match parse_list(s, e, Seq::empty()) {
                Err(x) => Err(x),
                Ok((children, r)) => match node_of(s.subrange(q as int, e as int), children) {
                    Ok(t) => Ok((t, r)),
                    Err(x) => Err(x),
                },
            }
        }
    } else {
        let e = word_end(s, p);
        match node_of(s.subrange(p as int, e as int), Seq::empty()) {
            Ok(t) => Ok((t, e)),
            Err(x) => Err(x),
        }
    }
}

/// The terms from `pos` up to the `)` that closes their list, after the terms
/// `acc`, and the place after the `)`.
pub open spec fn parse_list(s: Seq<u8>, pos: nat, acc: Seq<Term>) -> Result<
    (Seq<Term>, nat),
    ParseError,
>
    decreases s.len() - pos, 2nat,
{
    let p = skip_spaces(s, pos);
    if p >= s.len() {
        Err(ParseError::UnexpectedEnd)
    } else if s[p as int] == 41 {
        Ok((acc, p + 1))
    } else {
        match parse_expr(s, pos) {
            Err(x) => Err(x),
            Ok((t, r)) => if pos < r <= s.len() {
                parse_list(s, r, acc.push(t))
            } else {
                Err(ParseError::UnexpectedEnd)
            },
        }
    }
}

/// The term that a text spells: one term, with nothing but white space
/// around it.
pub open spec fn parse_spec(s: Seq<u8>) -> Result<Term, ParseError> {
    match parse_expr(s, 0) {
        Err(x) => Err(x),
        Ok((t, r)) => if skip_spaces(s, r) >= s.len() {
            Ok(t)
        } else {
            Err(ParseError::TrailingInput)
        },
    }
}

/// A term that is read ends after it begins, within the text.
pub proof fn lemma_parse_expr_moves(s: Seq<u8>, pos: nat)
    requires
        pos <= s.len(),
        parse_expr(s, pos) is Ok,
    ensures
        pos < parse_expr(s, pos).unwrap().1 <= s.len(),
    decreases s.len() - pos, 1nat,
{
    let p = skip_spaces(s, pos);
    lemma_skip_spaces(s, pos);
    if s[p as int] == 40 {
        let q = skip_spaces(s, p + 1);
        lemma_skip_spaces(s, p + 1);
        let e = word_end(s, q);
        lemma_word_end(s, q);
        lemma_parse_list_moves(s, e, Seq::empty());
    } else {
        lemma_word_end(s, p);
    }
}

/// A list that is read ends after it begins, within the text.
pub proof fn lemma_parse_list_moves(s: Seq<u8>, pos: nat, acc: Seq<Term>)
    requires
        pos <= s.len(),
        parse_list(s, pos, acc) is Ok,
    ensures
        pos < parse_list(s, pos, acc).unwrap().1 <= s.len(),
    decreases s.len() - pos, 2nat,
{
    let p = skip_spaces(s, pos);
    lemma_skip_spaces(s, pos);
    if s[p as int] != 41 {
        lemma_parse_expr_moves(s, pos);
        let (t, r) = parse_expr(s, pos).unwrap();
        lemma_parse_list_moves(s, r, acc.push(t));
    }
}

/// The place of the first byte from `pos` on that is no white space.
pub fn skip(input: &[u8], pos: usize) -> (r: usize)
    requires
        pos <= input@.len(),
    ensures
        r == skip_spaces(input@, pos as nat),
        pos <= r <= input@.len(),
    decreases input@.len() - pos,
{
    if pos < input.len() && (input[pos] == 32 || input[pos] == 9 || input[pos] == 10 || input[pos]
        == 13) {
        skip(input, pos + 1)
    } else {
        pos
    }
}

/// The place of the first byte from `pos` on that ends a word.
pub fn word_stop(input: &[u8], pos: usize) -> (r: usize)
    requires
        pos <= input@.len(),
    ensures
        r == word_end(input@, pos as nat),
        pos <= r <= input@.len(),
    decreases input@.len() - pos,
{
    if pos < input.len() && !(input[pos] == 32 || input[pos] == 9 || input[pos] == 10 || input[pos]
        == 13 || input[pos] == 40 || input[pos] == 41) {
        word_stop(input, pos + 1)
    } else {
        pos
    }
}

/// The bytes of the text from `from` up to `to`.
pub fn word(input: &[u8], from: usize, to: usize) -> (r: Vec<u8>)
    requires
        from <= to <= input@.len(),
    ensures
        r@ == input@.subrange(from as int, to as int),
{
    let mut r: Vec<u8> = Vec::new();
    let mut k: usize = from;
    while k < to
        invariant
            from <= k <= to,
            to <= input@.len(),
            r@ == input@.subrange(from as int, k as int),
        decreases to - k,
    {
        r.push(input[k]);
        k += 1;
        assert(r@ =~= input@.subrange(from as int, k as int));
    }
    r
}

/// The index that the bytes of a word after its first spell.
pub fn index(op: &Vec<u8>) -> (r: Option<u32>)
    requires
        op@.len() > 0,
    ensures
        match index_of(op@.subrange(1, op@.len() as int)) {
            Some(i) => r == Some(i as u32),
            None => r is None,
        },
{
    let ghost d = op@.subrange(1, op@.len() as int);
    if op.len() == 1 {
        return None;
    }
    let mut v: u64 = 0;
    let mut k: usize = 1;
    while k < op.len()
        invariant
            1 <= k <= op@.len(),
            d == op@.subrange(1, op@.len() as int),
            digits_value(d, (k - 1) as nat) == Some(v as nat),
            v <= 0x1_0000_0000,
        decreases op@.len() - k,
    {
        let c = op[k];
        assert(d[k - 1] == c);
        if c < 48 || c > 57 {
            proof {
                lemma_digits_fail(d, k as nat, d.len());
            }
            return None;
        }
        let next: u64 = v * 10 + (c - 48) as u64;
        v = if next > 0xffff_ffff {
            0x1_0000_0000
        } else {
            next
        };
        k += 1;
    }
    if v > 0xffff_ffff {
        None
    } else {
        Some(v as u32)
    }
}

/// Bytes whose first are no digits are no digits.
pub proof fn lemma_digits_fail(d: Seq<u8>, n: nat, m: nat)
    requires
        n <= m,
        digits_value(d, n) is None,
    ensures
        digits_value(d, m) is None,
    decreases m,
{
    if n < m {
        lemma_digits_fail(d, n, (m - 1) as nat);
    }
}

/// The node that a word and the nodes after it make: `app` with two
/// children, `lam` with one, `programs` with any; without children, `$` and
/// an index for a variable, `#` and an index for a hole, any other word for a
/// primitive.
pub fn from_op_str(op: Vec<u8>, children: Vec<Id>) -> (r: Result<Lambda, ParseError>)
    ensures
        match r {
            Ok(n) => match n@ {
                Node::App(f, x) => op@ == word_app() && children@ == seq![f, x],
                Node::Lam(b) => op@ == word_lam() && children@ == seq![b],
                Node::Programs(cs) => op@ == word_programs() && children@ == cs,
                Node::Var(i) => op@ != word_app() && op@ != word_lam() && op@ != word_programs()
                    && children@.len() == 0 && op@.len() > 0 && op@[0] == 36 && index_of(
                    op@.subrange(1, op@.len() as int),
                ) == Some(i as nat),
                Node::IVar(i) => op@ != word_app() && op@ != word_lam() && op@ != word_programs()
                    && children@.len() == 0 && op@.len() > 0 && op@[0] == 35 && index_of(
                    op@.subrange(1, op@.len() as int),
                ) == Some(i as nat),
                Node::Prim(p) => op@ != word_app() && op@ != word_lam() && op@ != word_programs()
                    && children@.len() == 0 && !(op@.len() > 0 && (op@[0] == 36 || op@[0] == 35))
                    && p == op@,
            },
            Err(e) => forall|ts: Seq<Term>|
                ts.len() == children@.len() ==> #[trigger] node_of(op@, ts) == Err::<
                    Term,
                    ParseError,
                >(e),
        },
{
    let mut app: Vec<u8> = Vec::new();
    app.push(97);
    app.push(112);
    app.push(112);
    assert(app@ =~= word_app());
    let mut lam: Vec<u8> = Vec::new();
    lam.push(108);
    lam.push(97);
    lam.push(109);
    assert(lam@ =~= word_lam());
    let mut programs: Vec<u8> = Vec::new();
    programs.push(112);
    programs.push(114);
    programs.push(111);
    programs.push(103);
    programs.push(114);
    programs.push(97);
    programs.push(109);
    programs.push(115);
    assert(programs@ =~= word_programs());
    if same_bytes(&op, &app) {
        if children.len() != 2 {
            return Err(ParseError::WrongChildren);
        }
        assert(children@ =~= seq![children@[0], children@[1]]);
        Ok(Lambda::App(children[0], children[1]))
    } else if same_bytes(&op, &lam) {
        if children.len() != 1 {
            return Err(ParseError::WrongChildren);
        }
        assert(children@ =~= seq![children@[0]]);
        Ok(Lambda::Lam(children[0]))
    } else if same_bytes(&op, &programs) {
        Ok(Lambda::Programs(children))
    } else if children.len() != 0 {
        Err(ParseError::WrongChildren)
    } else if op.len() > 0 && op[0] == 36 {
        match index(&op) {
            Some(i) => Ok(Lambda::Var(i)),
            None => Err(ParseError::BadIndex),
        }
    } else if op.len() > 0 && op[0] == 35 {
        match index(&op) {
            Some(i) => Ok(Lambda::IVar(i)),
            None => Err(ParseError::BadIndex),
        }
    } else {
        Ok(Lambda::Prim(op))
    }
}

/// Reads the term that begins at `pos`, after white space, writes it at the
/// end of `expr`, and gives the place of its root there and the place after
/// the term in the text.
pub fn parse_rec(input: &[u8], pos: usize, expr: &mut RecExpr) -> (r: Result<
    (Id, usize),
    ParseError,
>)
    requires
        pos <= input@.len(),
        old(expr).wf(),
    ensures
        final(expr).wf(),
        is_prefix(old(expr)@, final(expr)@),
        match parse_expr(input@, pos as nat) {
            Ok((t, end)) => r matches Ok(out) && out.0 + 1 == final(expr)@.len() && term_at(
                final(expr)@,
                out.0 as int,
            ) == t && out.1 == end && pos < end <= input@.len(),
            Err(e) => r matches Err(x) && x == e,
        },
    decreases input@.len() - pos, 1nat,
{
    let ghost s = input@;
    let ghost e0 = expr@;
    let p = skip(input, pos);
    if p >= input.len() {
        return Err(ParseError::UnexpectedEnd);
    }
    if input[p] == 41 {
        return Err(ParseError::UnexpectedClose);
    }
    let (op, children, end): (Vec<u8>, Vec<Id>, usize) = if input[p] == 40 {
        let q = skip(input, p + 1);
        if q >= input.len() {
            return Err(ParseError::UnexpectedEnd);
        }
        if input[q] == 40 || input[q] == 41 {
            return Err(ParseError::MissingOperator);
        }
        let e = word_stop(input, q);
        proof {
            lemma_word_end(s, q as nat);
        }
        let mut children: Vec<Id> = Vec::new();
        let mut at: usize = e;
        let mut closed = false;
        assert(terms_of(expr@, children@) =~= Seq::<Term>::empty());
        while !closed
            invariant
                e <= at <= input@.len(),
                pos < at,
                s == input@,
                e0 == old(expr)@,
                expr.wf(),
                is_prefix(e0, expr@),
                ids_below(children@, expr@.len() as int),
                !closed ==> parse_list(s, e as nat, Seq::empty()) == parse_list(
                    s,
                    at as nat,
                    terms_of(expr@, children@),
                ),
                closed ==> parse_list(s, e as nat, Seq::empty()) == Ok::<
                    (Seq<Term>, nat),
                    ParseError,
                >((terms_of(expr@, children@), at as nat)),
                parse_list(s, e as nat, Seq::empty()) is Err ==> parse_expr(s, pos as nat) is Err
                    && parse_expr(s, pos as nat)->Err_0 == parse_list(
                    s,
                    e as nat,
                    Seq::empty(),
                )->Err_0,
            decreases input@.len() - at + (if closed { 0int } else { 1int }),
        {
            let c = skip(input, at);
            if c >= input.len() {
                return Err(ParseError::UnexpectedEnd);
            }
            if input[c] == 41 {
                at = c + 1;
                closed = true;
            } else {
                let ghost e1 = expr@;
                let ghost done = terms_of(e1, children@);
                match parse_rec(input, at, expr) {
                    Err(x) => {
                        proof {
                            lemma_prefix_trans(e0, e1, expr@);
                        }
                        return Err(x);
                    },
                    Ok((id, next)) => {
                        proof {
                            lemma_prefix_trans(e0, e1, expr@);
                            lemma_terms_of_prefix(e1, expr@, children@);
                        }
                        children.push(id);
                        assert(terms_of(expr@, children@) =~= done.push(
                            term_at(expr@, id as int),
                        ));
                        at = next;
                    },
                }
            }
        }
        let w = word(input, q, e);
        assert(parse_expr(s, pos as nat) == ending(
            node_of(w@, terms_of(expr@, children@)),
            at as nat,
        ));
        (w, children, at)
    } else {
        let e = word_stop(input, p);
        proof {
            lemma_word_end(s, p as nat);
        }
        let children: Vec<Id> = Vec::new();
        assert(terms_of(expr@, children@) =~= Seq::<Term>::empty());
        let w = word(input, p, e);
        assert(parse_expr(s, pos as nat) == ending(
            node_of(w@, terms_of(expr@, children@)),
            e as nat,
        ));
        (w, children, e)
    };
    assert(parse_expr(s, pos as nat) == ending(
        node_of(op@, terms_of(expr@, children@)),
        end as nat,
    ));
    let ghost ts = terms_of(expr@, children@);
    let ghost opv = op@;
    proof {
        lemma_skip_spaces(s, pos as nat);
        lemma_word_end(s, p as nat);
    }
    assert(pos < end <= input@.len());
    match from_op_str(op, children) {
        Err(x) => {
            assert(node_of(opv, ts) == Err::<Term, ParseError>(x));
            Err(x)
        },
        Ok(n) => {
            proof {
                lemma_node_term(expr@, n@);
                match n@ {
                    Node::App(f, x) => {
                        assert(ts[0] == term_at(expr@, f as int));
                        assert(ts[1] == term_at(expr@, x as int));
                    },
                    Node::Lam(b) => {
                        assert(ts[0] == term_at(expr@, b as int));
                    },
                    _ => {},
                }
                assert(node_of(opv, ts) == Ok::<Term, ParseError>(
                    crate::expr::node_term(expr@, n@),
                ));
            }
            let ghost e2 = expr@;
            let ghost nv = n@;
            let id = expr.add(n);
            proof {
                lemma_prefix_trans(e0, e2, expr@);
                assert(term_at(expr@, id as int) == crate::expr::node_term(e2, nv));
                assert(parse_expr(s, pos as nat) == Ok::<(Term, nat), ParseError>(
                    (term_at(expr@, id as int), end as nat),
                ));
            }
            Ok((id, end))
        },
    }
}

/// Reads a term from a text.
pub fn parse(input: &[u8]) -> (r: Result<RecExpr, ParseError>)
    ensures
        match parse_spec(input@) {
            Ok(t) => r matches Ok(e) && e.wf() && e@.len() > 0 && e.term() == t,
            Err(x) => r matches Err(y) && y == x,
        },
{
    let mut expr = RecExpr::new();
    match parse_rec(input, 0, &mut expr) {
        Err(x) => Err(x),
        Ok((_, end)) => {
            let rest = skip(input, end);
            if rest < input.len() {
                Err(ParseError::TrailingInput)
            } else {
                Ok(expr)
            }
        },
    }
}

/// The word that stands for the operator of a node.
pub open spec fn op_of(n: Node) -> Seq<u8> {
    match n {
        Node::Var(i) => seq![36u8] + decimal(i as nat),
        Node::IVar(i) => seq![35u8] + decimal(i as nat),
        Node::App(_, _) => word_app(),
        Node::Lam(_) => word_lam(),
        Node::Prim(p) => p,
        Node::Programs(_) => word_programs(),
    }
}

/// The word that stands for the operator of a node.
pub fn op_text(node: &Lambda) -> (r: Vec<u8>)
    ensures
        r@ == op_of(node@),
{
    let mut r: Vec<u8> = Vec::new();
    match node {
        Lambda::Var(i) => {
            r.push(36);
            let d = decimal_digits(*i as usize);
            append_bytes(&mut r, &d);
            assert(r@ =~= seq![36u8] + decimal(*i as nat));
        },
        Lambda::IVar(i) => {
            r.push(35);
            let d = decimal_digits(*i as usize);
            append_bytes(&mut r, &d);
            assert(r@ =~= seq![35u8] + decimal(*i as nat));
        },
        Lambda::App(_, _) => {
            r.push(97);
            r.push(112);
            r.push(112);
            assert(r@ =~= word_app());
        },
        Lambda::Lam(_) => {
            r.push(108);
            r.push(97);
            r.push(109);
            assert(r@ =~= word_lam());
        },
        Lambda::Prim(p) => {
            append_bytes(&mut r, p);
            assert(r@ =~= p@);
        },
        Lambda::Programs(_) => {
            r.push(112);
            r.push(114);
            r.push(111);
            r.push(103);
            r.push(114);
            r.push(97);
            r.push(109);
            r.push(115);
            assert(r@ =~= word_programs());
        },
    }
    r
}

/// The text of a term. A primitive is written as its name is; a container
/// without programs as the word `programs` alone.
pub open spec fn render(t: Term) -> Seq<u8>
    decreases t, 0nat,
{
    match t {
        Term::Var(i) => seq![36u8] + decimal(i),
        Term::IVar(i) => seq![35u8] + decimal(i),
        Term::Prim(p) => p,
        Term::App(f, x) => seq![40u8] + word_app() + seq![32u8] + render(*f) + seq![32u8] + render(
            *x,
        ) + seq![41u8],
        Term::Lam(b) => seq![40u8] + word_lam() + seq![32u8] + render(*b) + seq![41u8],
        Term::Programs(ps) => if ps.len() == 0 {
            word_programs()
        } else {
            seq![40u8] + word_programs() + render_all(ps, ps.len()) + seq![41u8]
        },
    }
}

/// The texts of the first `n` terms, each after a blank.
pub open spec fn render_all(ps: Seq<Term>, n: nat) -> Seq<u8>
    decreases ps, n,
{
    if n == 0 || n > ps.len() {
        Seq::empty()
    } else {
        render_all(ps, (n - 1) as nat) + seq![32u8] + render(ps[n - 1])
    }
}

/// Appends the text of the term at the place `i` of an expression.
pub fn show_rec(expr: &RecExpr, i: usize, out: &mut Vec<u8>)
    requires
        expr.wf(),
        i < expr@.len(),
    ensures
        final(out)@ == old(out)@ + render(term_at(expr@, i as int)),
    decreases i,
{
    let ghost o0 = out@;
    proof {
        lemma_term_at_unfold(expr@, i as int);
        assert(node_ok(expr@[i as int], i as int));
    }
    match &expr.nodes[i] {
        Lambda::Var(v) => {
            out.push(36);
            let d = decimal_digits(*v as usize);
            append_bytes(out, &d);
            assert(out@ =~= o0 + (seq![36u8] + decimal(*v as nat)));
        },
        Lambda::IVar(v) => {
            out.push(35);
            let d = decimal_digits(*v as usize);
            append_bytes(out, &d);
            assert(out@ =~= o0 + (seq![35u8] + decimal(*v as nat)));
        },
        Lambda::Prim(p) => {
            append_bytes(out, p);
        },
        Lambda::App(f, x) => {
            out.push(40);
            out.push(97);
            out.push(112);
            out.push(112);
            out.push(32);
            show_rec(expr, *f, out);
            out.push(32);
            show_rec(expr, *x, out);
            out.push(41);
            assert(out@ =~= o0 + (seq![40u8] + word_app() + seq![32u8] + render(
                term_at(expr@, *f as int),
            ) + seq![32u8] + render(term_at(expr@, *x as int)) + seq![41u8]));
        },
        Lambda::Lam(b) => {
            out.push(40);
            out.push(108);
            out.push(97);
            out.push(109);
            out.push(32);
            show_rec(expr, *b, out);
            out.push(41);
            assert(out@ =~= o0 + (seq![40u8] + word_lam() + seq![32u8] + render(
                term_at(expr@, *b as int),
            ) + seq![41u8]));
        },
        Lambda::Programs(cs) => {
            let ghost ps = terms_of(expr@, cs@);
            if cs.len() > 0 {
                out.push(40);
            }
            out.push(112);
            out.push(114);
            out.push(111);
            out.push(103);
            out.push(114);
            out.push(97);
            out.push(109);
            out.push(115);
            let ghost head = out@;
            let mut k: usize = 0;
            assert(out@ =~= head + render_all(ps, 0));
            while k < cs.len()
                invariant
                    k <= cs@.len(),
                    expr.wf(),
                    i < expr@.len(),
                    ids_below(cs@, i as int),
                    ps == terms_of(expr@, cs@),
                    out@ == head + render_all(ps, k as nat),
                decreases cs@.len() - k,
            {
                let ghost before = out@;
                out.push(32);
                assert(ps[k as int] == term_at(expr@, cs@[k as int] as int));
                show_rec(expr, cs[k], out);
                assert(out@ =~= head + (render_all(ps, k as nat) + seq![32u8] + render(
                    ps[k as int],
                )));
                k += 1;
            }
            if cs.len() > 0 {
                out.push(41);
                assert(out@ =~= o0 + (seq![40u8] + word_programs() + render_all(ps, ps.len())
                    + seq![41u8]));
            } else {
                assert(out@ =~= o0 + word_programs());
            }
        },
    }
}

/// The text of an expression; `()` for an expression without nodes.
pub fn show(e: &RecExpr) -> (r: Vec<u8>)
    requires
        e.wf(),
    ensures
        r@ == if e@.len() == 0 {
            seq![40u8, 41u8]
        } else {
            render(e.term())
        },
{
    let mut r: Vec<u8> = Vec::new();
    if e.len() == 0 {
        r.push(40);
        r.push(41);
        assert(r@ =~= seq![40u8, 41u8]);
    } else {
        show_rec(e, e.len() - 1, &mut r);
        assert(r@ =~= render(e.term()));
    }
    r
}

} // verus!
