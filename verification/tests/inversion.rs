use dreamegg::applam::Invention;
use dreamegg::expr::Lambda;
use dreamegg::extract::{extract, extract_enode, extract_under_inv, InvariantViolation};
use dreamegg::info::cost_rec;
use dreamegg::inversion::{run_inversions, InversionResult};
use dreamegg::order::topological_ordering;
use dreamegg::sexp::{parse, show};
use dreamegg::store::Dag;

fn text(store: &Dag, id: usize) -> String {
    String::from_utf8(show(&extract(id, store))).unwrap()
}

fn pass(corpus: &str, max_arity: usize, no_cache: bool) -> (Dag, usize, Vec<usize>, InversionResult) {
    let mut store = Dag::new();
    let root = store.add_term(&parse(corpus.as_bytes()).unwrap()).unwrap();
    let order = topological_ordering(root, &store);
    let res = run_inversions(&order, max_arity, 10_000_000, no_cache, &mut store);
    (store, root, order, res)
}

fn applams_of(store: &Dag, res: &InversionResult, id: usize) -> Vec<(String, Vec<String>)> {
    res.applams_of_treenode[&id]
        .iter()
        .map(|a| (text(store, a.inv.body), a.args.iter().map(|x| text(store, *x)).collect()))
        .collect()
}

fn entry(body: &str, args: &[&str]) -> (String, Vec<String>) {
    (body.to_string(), args.iter().map(|a| a.to_string()).collect())
}

#[test]
fn children_come_first_and_no_node_twice() {
    let mut store = Dag::new();
    let root = store
        .add_term(&parse(b"(programs (app (app g a) a) (lam (app (app g a) $0)))").unwrap())
        .unwrap();
    let order = topological_ordering(root, &store);
    let names: Vec<String> = order.iter().map(|id| text(&store, *id)).collect();
    assert_eq!(
        names,
        vec![
            "g",
            "a",
            "(app g a)",
            "(app (app g a) a)",
            "$0",
            "(app (app g a) $0)",
            "(lam (app (app g a) $0))",
            "(programs (app (app g a) a) (lam (app (app g a) $0)))",
        ]
    );
    assert_eq!(*order.last().unwrap(), root);
    for (k, id) in order.iter().enumerate() {
        assert!(!order[..k].contains(id));
        for c in store.get(*id).children() {
            assert!(order[..k].contains(&c));
        }
    }
}

#[test]
fn applams_of_an_application() {
    let (store, _, order, res) = pass("(programs (app f a))", 2, false);
    let app = order[2];
    assert_eq!(text(&store, app), "(app f a)");
    assert_eq!(
        applams_of(&store, &res, app),
        vec![
            entry("#0", &["(app f a)"]),
            entry("(app #0 a)", &["f"]),
            entry("(app f #0)", &["a"]),
            entry("(app #0 #1)", &["f", "a"]),
        ]
    );
    assert_eq!(applams_of(&store, &res, order[0]), vec![entry("#0", &["f"])]);
    // a container has its identity only
    assert_eq!(applams_of(&store, &res, order[3]), vec![entry("#0", &["(programs (app f a))"])]);
}

#[test]
fn no_applam_has_more_holes_than_allowed() {
    let corpus = "(programs (app (app (app h a) b) c) (lam (app (app $0 a) (app b c))))";
    for max_arity in 1..4 {
        let (_, _, _, res) = pass(corpus, max_arity, false);
        let mut most = 0;
        for applams in res.applams_of_treenode.values() {
            for a in applams {
                assert_eq!(a.args.len(), a.inv.arity);
                assert!(a.inv.arity <= max_arity);
                most = most.max(a.inv.arity);
            }
        }
        assert_eq!(most, max_arity);
    }
}

#[test]
fn applams_keep_the_free_variables_of_their_node() {
    let (store, _, order, res) =
        pass("(programs (lam (lam (app (app $1 (lam (app $2 $0))) (app f $0)))))", 3, false);
    for id in order {
        let mut of_node = store.data_of(id).upward_refs.clone();
        of_node.sort();
        for a in &res.applams_of_treenode[&id] {
            let mut refs = a.upward_refs(&store);
            refs.sort();
            assert_eq!(refs, of_node);
        }
    }
}

#[test]
fn arguments_under_a_lambda_are_shifted_and_get_tables() {
    let (store, _, order, res) = pass("(programs (lam (lam (app g (app f $1)))))", 2, false);
    let inner = order.iter().find(|id| text(&store, **id) == "(lam (app g (app f $1)))").unwrap();
    let applams = applams_of(&store, &res, *inner);
    // the argument `(app f $1)` passes the binder and reads `(app f $0)` above it
    assert!(applams.contains(&entry("(lam (app g #0))", &["(app f $0)"])));
    // `$1` passes too, and reads `$0`
    assert!(applams.contains(&entry("(lam (app g (app f #0)))", &["$0"])));
    // the whole body is open under the binder no more: it passes as well
    assert!(applams.contains(&entry("(lam #0)", &["(app g (app f $0))"])));
    assert_eq!(applams.len(), 1 + 9);
    let shifted = store.lookup(&Lambda::App(
        store.lookup(&Lambda::Prim(b"f".to_vec())).unwrap(),
        store.lookup(&Lambda::Var(0)).unwrap(),
    )).unwrap();
    assert!(!order.contains(&shifted));
    let old = order.iter().find(|id| text(&store, **id) == "(app f $1)").unwrap();
    // the shifted argument has the best costs of the argument
    assert_eq!(res.best_inventions_of_treenode[&shifted], res.best_inventions_of_treenode[old]);
    // and its applams, with their arguments shifted
    assert_eq!(
        applams_of(&store, &res, shifted),
        vec![
            entry("#0", &["(app f $0)"]),
            entry("(app #0 $1)", &["f"]),
            entry("(app f #0)", &["$0"]),
            entry("(app #0 #1)", &["f", "$0"]),
        ]
    );
}

#[test]
fn best_costs_of_a_corpus() {
    let (store, root, order, res) =
        pass("(programs (app (app g a) a) (app (app g b) b) (app (app g a) c))", 2, false);
    let body = store.add_term_probe("(app (app g #0) #0)");
    let inv = Invention::new(body, 1);
    let first = order.iter().find(|id| text(&store, **id) == "(app (app g a) a)").unwrap();
    let third = order.iter().find(|id| text(&store, **id) == "(app (app g a) c)").unwrap();
    // the new primitive, one application, and the argument
    assert_eq!(res.best_inventions_of_treenode[first].cost_under_inv(&inv), 100 + 1 + 100);
    assert_eq!(res.best_inventions_of_treenode[first].inventionless_cost, 302);
    // the invention does not help the third program
    assert_eq!(res.best_inventions_of_treenode[third].cost_under_inv(&inv), 302);
    // it helps two programs: the sum over all three
    assert_eq!(res.best_inventions_of_treenode[&root].cost_under_inv(&inv), 201 + 201 + 302);
    assert_eq!(res.best_inventions_of_treenode[&root].inventionless_cost, 906);
    // an invention that helps one program only is not kept for the corpus
    let single = Invention::new(store.add_term_probe("(app (app g #0) c)"), 1);
    assert_eq!(res.best_inventions_of_treenode[third].cost_under_inv(&single), 201);
    assert!(!res.best_inventions_of_treenode[&root].contains(&single));
    for best in res.best_inventions_of_treenode.values() {
        for (inv, c) in &best.inventionful_cost {
            assert!(*c < best.inventionless_cost);
            assert!(inv.valid_invention(&store));
        }
    }
}

trait Probe {
    fn add_term_probe(&self, text: &str) -> usize;
}

impl Probe for Dag {
    /// The place of a term that the store holds already.
    fn add_term_probe(&self, text: &str) -> usize {
        let e = parse(text.as_bytes()).unwrap();
        let mut ids = Vec::new();
        for n in &e.nodes {
            let mapped = match n {
                Lambda::App(f, x) => Lambda::App(ids[*f], ids[*x]),
                Lambda::Lam(b) => Lambda::Lam(ids[*b]),
                Lambda::Programs(cs) => Lambda::Programs(cs.iter().map(|c| ids[*c]).collect()),
                other => other.clone(),
            };
            ids.push(self.lookup(&mapped).unwrap());
        }
        *ids.last().unwrap()
    }
}

#[test]
fn the_pass_does_not_depend_on_keeping_shifts() {
    let corpus = "(programs (lam (lam (app (app $1 a) (app $1 a)))) (lam (app (app $0 a) b)))";
    let (s1, r1, _, res1) = pass(corpus, 2, false);
    let (s2, r2, _, res2) = pass(corpus, 2, true);
    assert_eq!(r1, r2);
    assert_eq!(s1.len(), s2.len());
    assert_eq!(res1.applams_of_treenode, res2.applams_of_treenode);
    assert_eq!(res1.best_inventions_of_treenode, res2.best_inventions_of_treenode);
}

#[test]
fn what_is_rewritten_costs_what_the_table_says() {
    let (store, root, order, res) = pass(
        "(programs (app (app g (app (app g a) a)) (app (app g a) a)) (lam (app (app g $0) $0)))",
        2,
        false,
    );
    let name = b"new".to_vec();
    for inv in res.best_inventions_of_treenode[&root].top_inventions() {
        for id in &order {
            let e = extract_under_inv(*id, inv, &name, &res, &store).unwrap();
            assert_eq!(
                cost_rec(&e),
                Some(res.best_inventions_of_treenode[id].cost_under_inv(&inv))
            );
        }
    }
    let top = res.best_inventions_of_treenode[&root].top_inventions()[0];
    assert_eq!(text(&store, top.body), "(app (app g #0) #0)");
    let e = extract_under_inv(root, top, &name, &res, &store).unwrap();
    assert_eq!(
        String::from_utf8(show(&e)).unwrap(),
        "(programs (app new (app new a)) (lam (app new $0)))"
    );
    assert_eq!(cost_rec(&e), Some(1 + 100 + 201 + 1 + 201));
}

#[test]
fn arguments_are_applied_last_first() {
    let (store, root, _, res) = pass(
        "(programs (app (app (app k a) (app (app j b) c)) d) (app (app (app k b) (app (app j c) a)) d))",
        3,
        false,
    );
    let top = res.best_inventions_of_treenode[&root].top_inventions()[0];
    assert_eq!(text(&store, top.body), "(app (app (app k #0) (app (app j #1) #2)) d)");
    let e = extract_under_inv(root, top, &b"i".to_vec(), &res, &store).unwrap();
    assert_eq!(
        String::from_utf8(show(&e)).unwrap(),
        "(programs (app (app (app i c) b) a) (app (app (app i a) c) b))"
    );
    let def = top.to_expr(&store).unwrap();
    assert_eq!(def.arity, 3);
    assert_eq!(
        String::from_utf8(show(&def.lam_expr)).unwrap(),
        "(lam (lam (lam (app (app (app k $0) (app (app j $1) $2)) d))))"
    );
}

#[test]
fn nodes_as_expressions() {
    let mut store = Dag::new();
    let id = store.add_term(&parse(b"(lam (app f $0))").unwrap()).unwrap();
    let f = store.lookup(&Lambda::Prim(b"f".to_vec())).unwrap();
    assert_eq!(show(&extract(id, &store)), b"(lam (app f $0))".to_vec());
    assert_eq!(show(&extract_enode(&Lambda::App(id, f), &store)), b"(app (lam (app f $0)) f)".to_vec());
    assert_eq!(show(&extract_enode(&Lambda::Var(3), &store)), b"$3".to_vec());
}

#[test]
fn tables_that_do_not_fit_the_rewriting() {
    let (store, root, _, mut res) =
        pass("(programs (app (app g a) a) (app (app g b) b))", 2, false);
    let top = res.best_inventions_of_treenode[&root].top_inventions()[0];
    let name = b"new".to_vec();
    assert!(extract_under_inv(root, top, &name, &res, &store).is_ok());
    // a cost that is kept, but is not the cost of what is written
    let table = res.best_inventions_of_treenode.get_mut(&root).unwrap();
    let place = table.find(&top).unwrap();
    table.inventionful_cost[place].1 -= 1;
    assert_eq!(extract_under_inv(root, top, &name, &res, &store), Err(InvariantViolation));
    // a hole cannot be written under an invention
    let (mut store, _, _, res) = pass("(programs a)", 2, false);
    let hole = store.try_add(Lambda::IVar(0)).unwrap();
    assert_eq!(
        extract_under_inv(hole, Invention::new(hole, 1), &name, &res, &store),
        Err(InvariantViolation)
    );
}
