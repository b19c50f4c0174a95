use dreamegg::extract::extract;
use dreamegg::sexp::{parse, show};
use dreamegg::shift::{shift, CacheGenerator, Shift};
use dreamegg::store::Dag;

fn shifted(text: &str, mode: &Shift, cache: bool) -> Option<String> {
    let mut store = Dag::new();
    let id = store.add_term(&parse(text.as_bytes()).unwrap()).unwrap();
    let mut caches = CacheGenerator::new(cache);
    let r = shift(id, mode, &mut store, &mut caches)?;
    Some(String::from_utf8(show(&extract(r, &store))).unwrap())
}

#[test]
fn free_variables_move_and_bound_ones_stay() {
    let m = Shift::ShiftVar(2);
    assert_eq!(shifted("$0", &m, true).unwrap(), "$2");
    assert_eq!(shifted("(lam $0)", &m, true).unwrap(), "(lam $0)");
    assert_eq!(shifted("(lam (app $0 $1))", &m, true).unwrap(), "(lam (app $0 $3))");
    assert_eq!(
        shifted("(app (lam (lam (app $2 $1))) $5)", &m, true).unwrap(),
        "(app (lam (lam (app $4 $1))) $7)"
    );
    assert_eq!(shifted("(app f #1)", &m, true).unwrap(), "(app f #1)");
}

#[test]
fn shifting_down_fails_on_the_lowest_variable() {
    let m = Shift::ShiftVar(-1);
    assert_eq!(shifted("$1", &m, true).unwrap(), "$0");
    assert_eq!(shifted("$0", &m, true), None);
    assert_eq!(shifted("(app f $0)", &m, true), None);
    assert_eq!(shifted("(lam (app $1 $0))", &m, true), None);
    assert_eq!(shifted("(lam (app $2 $0))", &m, true).unwrap(), "(lam (app $1 $0))");
    assert_eq!(shifted("(lam (app f $0))", &m, true).unwrap(), "(lam (app f $0))");
    assert_eq!(shifted("$1", &Shift::ShiftVar(-2), true), None);
}

#[test]
fn an_index_beyond_the_range_fails() {
    assert_eq!(shifted("$4294967295", &Shift::ShiftVar(1), true), None);
    assert_eq!(shifted("$4294967294", &Shift::ShiftVar(1), true).unwrap(), "$4294967295");
    assert_eq!(shifted("#4294967295", &Shift::ShiftIVar(1), true), None);
    assert_eq!(shifted("#0", &Shift::ShiftIVar(-1), true), None);
}

#[test]
fn holes_move_under_lambdas_too() {
    let m = Shift::ShiftIVar(3);
    assert_eq!(shifted("(lam (app #0 $0))", &m, true).unwrap(), "(lam (app #3 $0))");
    assert_eq!(shifted("(app #1 (lam #2))", &m, true).unwrap(), "(app #4 (lam #5))");
    assert_eq!(shifted("(lam (app f $0))", &m, true).unwrap(), "(lam (app f $0))");
}

#[test]
fn each_hole_moves_by_its_own_entry() {
    let m = Shift::TableShiftIVar(vec![2, -1, 0]);
    assert_eq!(
        shifted("(app (app #0 #1) (lam #2))", &m, true).unwrap(),
        "(app (app #2 #0) (lam #2))"
    );
    // a hole without an entry cannot be moved
    assert_eq!(shifted("(app #0 #3)", &m, true), None);
    // an entry that leads below 0 cannot be followed
    assert_eq!(shifted("#0", &Shift::TableShiftIVar(vec![-1]), true), None);
}

#[test]
fn results_do_not_depend_on_keeping() {
    let texts = ["(lam (app (app $1 $2) (lam (app $1 $2))))", "(app (app $1 $1) (app $1 $1))"];
    for t in texts {
        for m in [Shift::ShiftVar(1), Shift::ShiftVar(-1), Shift::ShiftIVar(2)] {
            assert_eq!(shifted(t, &m, true), shifted(t, &m, false));
        }
    }
}

#[test]
fn what_is_kept_is_used_again() {
    let mut store = Dag::new();
    let id = store.add_term(&parse(b"(lam (app $1 (app $1 $2)))").unwrap()).unwrap();
    let mut caches = CacheGenerator::new(true);
    let m = Shift::ShiftVar(1);
    let a = shift(id, &m, &mut store, &mut caches).unwrap();
    let n = store.len();
    let b = shift(id, &m, &mut store, &mut caches).unwrap();
    assert_eq!(a, b);
    assert_eq!(store.len(), n);
    assert_eq!(caches.caches.len(), 1);
    shift(id, &Shift::ShiftVar(2), &mut store, &mut caches).unwrap();
    assert_eq!(caches.caches.len(), 2);
    assert!(m.same(&Shift::ShiftVar(1)));
    assert!(!m.same(&Shift::ShiftIVar(1)));
    assert!(Shift::TableShiftIVar(vec![1, 2]).same(&Shift::TableShiftIVar(vec![1, 2]).copy()));
    assert!(!Shift::TableShiftIVar(vec![1, 2]).same(&Shift::TableShiftIVar(vec![1])));
}

#[test]
fn up_and_down_again_is_the_term() {
    let mut store = Dag::new();
    let id = store.add_term(&parse(b"(lam (app (app $0 $1) (lam (app $2 $5))))").unwrap()).unwrap();
    let mut caches = CacheGenerator::new(true);
    for k in [1, 3, 40] {
        let up = shift(id, &Shift::ShiftVar(k), &mut store, &mut caches).unwrap();
        assert_ne!(up, id);
        let down = shift(up, &Shift::ShiftVar(-k), &mut store, &mut caches).unwrap();
        assert_eq!(down, id);
    }
}
