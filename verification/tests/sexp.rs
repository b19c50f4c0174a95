use dreamegg::expr::{Lambda, RecExpr};
use dreamegg::sexp::{from_op_str, op_text, parse, show, ParseError};

fn round(text: &str) -> String {
    String::from_utf8(show(&parse(text.as_bytes()).unwrap())).unwrap()
}

#[test]
fn words_become_nodes() {
    let e = parse(b"(app f (lam $3))").unwrap();
    assert_eq!(
        e.nodes,
        vec![
            Lambda::Prim(b"f".to_vec()),
            Lambda::Var(3),
            Lambda::Lam(1),
            Lambda::App(0, 2),
        ]
    );
    let e = parse(b"(programs #0 a (programs))").unwrap();
    assert_eq!(
        e.nodes,
        vec![
            Lambda::IVar(0),
            Lambda::Prim(b"a".to_vec()),
            Lambda::Programs(vec![]),
            Lambda::Programs(vec![0, 1, 2]),
        ]
    );
    assert_eq!(parse(b"programs").unwrap().nodes, vec![Lambda::Programs(vec![])]);
    assert_eq!(parse(b"(f)").unwrap().nodes, vec![Lambda::Prim(b"f".to_vec())]);
    assert_eq!(parse(b"$007").unwrap().nodes, vec![Lambda::Var(7)]);
    assert_eq!(parse(b"$4294967295").unwrap().nodes, vec![Lambda::Var(4294967295)]);
    assert_eq!(parse(b"a$1").unwrap().nodes, vec![Lambda::Prim(b"a$1".to_vec())]);
}

#[test]
fn texts_that_are_no_terms() {
    assert_eq!(parse(b""), Err(ParseError::UnexpectedEnd));
    assert_eq!(parse(b"   "), Err(ParseError::UnexpectedEnd));
    assert_eq!(parse(b"(app f"), Err(ParseError::UnexpectedEnd));
    assert_eq!(parse(b"("), Err(ParseError::UnexpectedEnd));
    assert_eq!(parse(b")"), Err(ParseError::UnexpectedClose));
    assert_eq!(parse(b"()"), Err(ParseError::MissingOperator));
    assert_eq!(parse(b"((f) a)"), Err(ParseError::MissingOperator));
    assert_eq!(parse(b"(app f)"), Err(ParseError::WrongChildren));
    assert_eq!(parse(b"(app f a b)"), Err(ParseError::WrongChildren));
    assert_eq!(parse(b"app"), Err(ParseError::WrongChildren));
    assert_eq!(parse(b"(lam)"), Err(ParseError::WrongChildren));
    assert_eq!(parse(b"(lam a b)"), Err(ParseError::WrongChildren));
    assert_eq!(parse(b"(f a)"), Err(ParseError::WrongChildren));
    assert_eq!(parse(b"($1 a)"), Err(ParseError::WrongChildren));
    assert_eq!(parse(b"$"), Err(ParseError::BadIndex));
    assert_eq!(parse(b"$x"), Err(ParseError::BadIndex));
    assert_eq!(parse(b"$-1"), Err(ParseError::BadIndex));
    assert_eq!(parse(b"#1a"), Err(ParseError::BadIndex));
    assert_eq!(parse(b"$4294967296"), Err(ParseError::BadIndex));
    assert_eq!(parse(b"#99999999999999999999999999"), Err(ParseError::BadIndex));
    assert_eq!(parse(b"a b"), Err(ParseError::TrailingInput));
    assert_eq!(parse(b"(lam a))"), Err(ParseError::TrailingInput));
}

#[test]
fn a_word_and_its_children() {
    assert_eq!(from_op_str(b"app".to_vec(), vec![3, 4]), Ok(Lambda::App(3, 4)));
    assert_eq!(from_op_str(b"lam".to_vec(), vec![3]), Ok(Lambda::Lam(3)));
    assert_eq!(from_op_str(b"programs".to_vec(), vec![]), Ok(Lambda::Programs(vec![])));
    assert_eq!(from_op_str(b"$12".to_vec(), vec![]), Ok(Lambda::Var(12)));
    assert_eq!(from_op_str(b"#0".to_vec(), vec![]), Ok(Lambda::IVar(0)));
    assert_eq!(from_op_str(b"+".to_vec(), vec![]), Ok(Lambda::Prim(b"+".to_vec())));
    assert_eq!(from_op_str(b"".to_vec(), vec![]), Ok(Lambda::Prim(vec![])));
    assert_eq!(from_op_str(b"app".to_vec(), vec![3]), Err(ParseError::WrongChildren));
    assert_eq!(from_op_str(b"lam".to_vec(), vec![]), Err(ParseError::WrongChildren));
    assert_eq!(from_op_str(b"x".to_vec(), vec![1]), Err(ParseError::WrongChildren));
    assert_eq!(from_op_str(b"$".to_vec(), vec![]), Err(ParseError::BadIndex));
}

#[test]
fn terms_are_written_as_they_are_read() {
    for t in [
        "a",
        "$0",
        "#12",
        "(app f a)",
        "(lam (app f $0))",
        "(programs (app f a) (lam $0))",
        "(programs a)",
        "programs",
        "(app (app map (lam (app (app + $0) 1))) $0)",
    ] {
        assert_eq!(round(t), t);
    }
    assert_eq!(round(" ( app\tf\n( lam   $01 ) ) "), "(app f (lam $1))");
    assert_eq!(round("(programs)"), "programs");
    assert_eq!(show(&RecExpr::new()), b"()".to_vec());
}

#[test]
fn operators_as_words() {
    assert_eq!(op_text(&Lambda::Var(10)), b"$10".to_vec());
    assert_eq!(op_text(&Lambda::IVar(0)), b"#0".to_vec());
    assert_eq!(op_text(&Lambda::App(0, 1)), b"app".to_vec());
    assert_eq!(op_text(&Lambda::Lam(0)), b"lam".to_vec());
    assert_eq!(op_text(&Lambda::Prim(b"fold".to_vec())), b"fold".to_vec());
    assert_eq!(op_text(&Lambda::Programs(vec![1])), b"programs".to_vec());
}

#[test]
fn what_is_written_reads_back() {
    let mut e = RecExpr::new();
    let g = e.add(Lambda::Prim(b"g".to_vec()));
    let x = e.add(Lambda::Var(4294967295));
    let h = e.add(Lambda::IVar(0));
    let a = e.add(Lambda::App(g, x));
    let b = e.add(Lambda::App(a, h));
    let l = e.add(Lambda::Lam(b));
    let none = e.add(Lambda::Programs(vec![]));
    let w = e.add(Lambda::Prim(b"apply".to_vec()));
    e.add(Lambda::Programs(vec![l, none, w, g]));
    let text = show(&e);
    assert_eq!(text, b"(programs (lam (app (app g $4294967295) #0)) programs apply g)".to_vec());
    let back = parse(&text).unwrap();
    assert_eq!(show(&back), text);
    assert_eq!(back.nodes.len(), 10);
    assert_eq!(back.nodes.last(), Some(&Lambda::Programs(vec![5, 6, 7, 8])));
}
