use dreamegg::expr::{Lambda, RecExpr};
use dreamegg::sexp::parse;
use dreamegg::store::{AddError, Dag};

fn prim(name: &str) -> Lambda {
    Lambda::Prim(name.as_bytes().to_vec())
}

#[test]
fn equal_nodes_share_a_place() {
    let mut store = Dag::new();
    let a = store.try_add(prim("a")).unwrap();
    let f = store.try_add(prim("f")).unwrap();
    let app = store.try_add(Lambda::App(f, a)).unwrap();
    let again = store.try_add(Lambda::App(f, a)).unwrap();
    assert_eq!(app, again);
    assert_eq!(store.len(), 3);
    assert_eq!(store.lookup(&Lambda::App(f, a)), Some(app));
    assert_eq!(store.lookup(&Lambda::App(a, f)), None);
}

#[test]
fn expression_added_twice_keeps_its_place() {
    let e = parse(b"(lam (app f $0))").unwrap();
    let mut store = Dag::new();
    let first = store.add_expr(&e).unwrap();
    let n = store.len();
    let second = store.add_expr(&e).unwrap();
    assert_eq!(first, second);
    assert_eq!(store.len(), n);
    let third = store.add_term(&e).unwrap();
    assert_eq!(first, third);
    assert_eq!(store.len(), n);
}

#[test]
fn same_text_parsed_twice_has_one_place() {
    let mut store = Dag::new();
    let a = store.add_term(&parse(b"(app (app g a) a)").unwrap()).unwrap();
    let b = store.add_term(&parse(b"  (app   (app g a)\n a) ").unwrap()).unwrap();
    assert_eq!(a, b);
    // g, a, (app g a), (app (app g a) a)
    assert_eq!(store.len(), 4);
}

#[test]
fn costs_of_nodes() {
    let mut store = Dag::new();
    let x = store.try_add(Lambda::Var(0)).unwrap();
    let h = store.try_add(Lambda::IVar(3)).unwrap();
    let f = store.try_add(prim("f")).unwrap();
    assert_eq!(store.data_of(x).inventionless_cost, 100);
    assert_eq!(store.data_of(h).inventionless_cost, 100);
    assert_eq!(store.data_of(f).inventionless_cost, 100);
    let app = store.try_add(Lambda::App(f, x)).unwrap();
    assert_eq!(store.data_of(app).inventionless_cost, 201);
    let lam = store.try_add(Lambda::Lam(app)).unwrap();
    assert_eq!(store.data_of(lam).inventionless_cost, 202);
    let ps = store.try_add(Lambda::Programs(vec![lam, f, lam])).unwrap();
    assert_eq!(store.data_of(ps).inventionless_cost, 202 + 100 + 202);
    let none = store.try_add(Lambda::Programs(vec![])).unwrap();
    assert_eq!(store.data_of(none).inventionless_cost, 0);
}

#[test]
fn free_variables_of_nodes() {
    let mut store = Dag::new();
    let id = store.add_term(&parse(b"(lam (app (app $0 $1) (lam $3)))").unwrap()).unwrap();
    let mut refs = store.data_of(id).upward_refs.clone();
    refs.sort();
    // $1 under one binder is $0 outside; $3 under two binders is $1 outside
    assert_eq!(refs, vec![0, 1]);
    assert!(store.data_of(id).upward_refs_ivar.is_empty());
    assert!(!store.is_closed(id));

    let body = store.add_term(&parse(b"(lam (app #2 (app $0 #0)))").unwrap()).unwrap();
    assert!(store.data_of(body).upward_refs.is_empty());
    let mut holes = store.data_of(body).upward_refs_ivar.clone();
    holes.sort();
    // a lambda binds no hole
    assert_eq!(holes, vec![0, 2]);
    assert!(!store.is_closed(body));

    let closed = store.add_term(&parse(b"(lam (lam (app $1 $0)))").unwrap()).unwrap();
    assert!(store.is_closed(closed));
}

#[test]
fn nodes_that_cannot_be_added() {
    let mut store = Dag::new();
    assert_eq!(store.try_add(Lambda::App(0, 1)), Err(AddError::DanglingChild));
    assert_eq!(store.try_add(Lambda::Lam(7)), Err(AddError::DanglingChild));
    assert_eq!(store.try_add(Lambda::Programs(vec![0])), Err(AddError::DanglingChild));
    let x = store.try_add(Lambda::Var(0)).unwrap();
    assert_eq!(store.try_add(Lambda::Programs(vec![x])), Err(AddError::OpenProgram));
    let h = store.try_add(Lambda::IVar(0)).unwrap();
    assert_eq!(store.try_add(Lambda::Programs(vec![h])), Err(AddError::OpenProgram));
    assert_eq!(store.len(), 2);
}

#[test]
fn a_cost_beyond_the_range_is_refused() {
    // each application of a node to itself doubles the cost
    let mut store = Dag::new();
    let mut id = store.try_add(prim("a")).unwrap();
    let mut doubled = 0;
    loop {
        match store.try_add(Lambda::App(id, id)) {
            Ok(next) => {
                id = next;
                doubled += 1;
            }
            Err(e) => {
                assert_eq!(e, AddError::TooCostly);
                break;
            }
        }
    }
    // 101 * 2^n - 1 fits below 2^31 for n <= 24
    assert_eq!(doubled, 24);
    assert_eq!(store.data_of(id).inventionless_cost, 101 * (1 << 24) - 1);
}

#[test]
fn open_program_in_an_expression() {
    let mut e = RecExpr::new();
    let x = e.add(Lambda::Var(2));
    e.add(Lambda::Programs(vec![x]));
    let mut store = Dag::new();
    assert_eq!(store.add_expr(&e), Err(AddError::OpenProgram));
    let mut store = Dag::new();
    assert_eq!(store.add_term(&e), Err(AddError::OpenProgram));
}

#[test]
fn operators_and_children() {
    let a = Lambda::App(1, 2);
    assert!(a.matches(&Lambda::App(5, 6)));
    assert!(!a.matches(&Lambda::Lam(1)));
    assert!(Lambda::Var(1).matches(&Lambda::Var(1)));
    assert!(!Lambda::Var(1).matches(&Lambda::Var(2)));
    assert!(!Lambda::Var(1).matches(&Lambda::IVar(1)));
    assert!(prim("f").matches(&prim("f")));
    assert!(!prim("f").matches(&prim("g")));
    assert!(Lambda::Programs(vec![1, 2]).matches(&Lambda::Programs(vec![3, 4])));
    assert!(!Lambda::Programs(vec![1, 2]).matches(&Lambda::Programs(vec![3])));
    assert_eq!(a.children(), vec![1, 2]);
    assert_eq!(Lambda::Lam(4).children(), vec![4]);
    assert_eq!(Lambda::Programs(vec![3, 1]).children(), vec![3, 1]);
    assert!(prim("f").children().is_empty());
    assert!(prim("f").is_leaf());
    assert!(!a.is_leaf());
    assert!(a.same(&a.copy()));
    assert!(!a.same(&Lambda::App(2, 1)));
}
