use dreamegg::applam::{bubble_lam, bubble_left, bubble_right, merge, AppLam, Invention};
use dreamegg::expr::Lambda;
use dreamegg::extract::extract;
use dreamegg::sexp::{parse, show};
use dreamegg::shift::CacheGenerator;
use dreamegg::store::Dag;

fn add(store: &mut Dag, text: &str) -> usize {
    store.add_term(&parse(text.as_bytes()).unwrap()).unwrap()
}

fn text(store: &Dag, id: usize) -> String {
    String::from_utf8(show(&extract(id, store))).unwrap()
}

fn applam(store: &mut Dag, body: &str, args: &[&str]) -> AppLam {
    let body = add(store, body);
    let args = args.iter().map(|a| add(store, a)).collect();
    AppLam::new(body, args)
}

fn texts(store: &Dag, a: &AppLam) -> (String, Vec<String>) {
    (text(store, a.inv.body), a.args.iter().map(|x| text(store, *x)).collect())
}

#[test]
fn an_applam_has_one_argument_for_each_hole() {
    let a = AppLam::new(7, vec![1, 2, 3]);
    assert_eq!(a.inv, Invention::new(7, 3));
    assert_eq!(a.inv.arity, a.args.len());
    assert_eq!(a.copy(), a);
}

#[test]
fn bubbling_from_the_left_and_from_the_right() {
    let mut store = Dag::new();
    let x = add(&mut store, "a");
    let f = add(&mut store, "(app g b)");
    let fa = applam(&mut store, "(app g #0)", &["b"]);
    let l = bubble_left(&fa, x, &mut store).unwrap();
    assert_eq!(texts(&store, &l), ("(app (app g #0) a)".to_string(), vec!["b".to_string()]));
    let xa = applam(&mut store, "#0", &["a"]);
    let r = bubble_right(f, &xa, &mut store).unwrap();
    assert_eq!(texts(&store, &r), ("(app (app g b) #0)".to_string(), vec!["a".to_string()]));
}

#[test]
fn merging_without_a_shared_argument() {
    let mut store = Dag::new();
    let mut caches = CacheGenerator::new(true);
    let fa = applam(&mut store, "(app g #0)", &["a"]);
    let xa = applam(&mut store, "(app (app h #0) #1)", &["b", "c"]);
    let m = merge(&fa, &xa, 3, &mut store, &mut caches).unwrap();
    assert_eq!(
        texts(&store, &m),
        (
            "(app (app g #0) (app (app h #1) #2))".to_string(),
            vec!["a".to_string(), "b".to_string(), "c".to_string()]
        )
    );
    assert_eq!(m.inv.arity, 3);
    // one hole too many
    assert_eq!(merge(&fa, &xa, 2, &mut store, &mut caches), None);
}

#[test]
fn shared_arguments_fill_one_hole() {
    let mut store = Dag::new();
    let mut caches = CacheGenerator::new(true);
    // the two sides share `a`: 1 + 1 - 1 holes
    let fa = applam(&mut store, "(app g #0)", &["a"]);
    let xa = applam(&mut store, "#0", &["a"]);
    let m = merge(&fa, &xa, 1, &mut store, &mut caches).unwrap();
    assert_eq!(texts(&store, &m), ("(app (app g #0) #0)".to_string(), vec!["a".to_string()]));
    assert_eq!(m.inv.arity, 1);

    // two of three arguments of the right side are shared: 2 + 3 - 2 holes
    let fa = applam(&mut store, "(app #0 #1)", &["p", "q"]);
    let xa = applam(&mut store, "(app (app #0 #1) #2)", &["q", "r", "p"]);
    let m = merge(&fa, &xa, 3, &mut store, &mut caches).unwrap();
    assert_eq!(
        texts(&store, &m),
        (
            "(app (app #0 #1) (app (app #1 #2) #0))".to_string(),
            vec!["p".to_string(), "q".to_string(), "r".to_string()]
        )
    );
    assert_eq!(m.inv.arity, 2 + 3 - 2);
    assert_eq!(merge(&fa, &xa, 2, &mut store, &mut caches), None);
}

#[test]
fn an_argument_that_uses_the_binder_does_not_pass_it() {
    let mut store = Dag::new();
    let mut caches = CacheGenerator::new(true);
    let stuck = applam(&mut store, "(app f #0)", &["$0"]);
    assert_eq!(bubble_lam(&stuck, &mut store, &mut caches), None);
    let stuck = applam(&mut store, "(app #0 #1)", &["$3", "(lam $1)"]);
    assert_eq!(bubble_lam(&stuck, &mut store, &mut caches), None);
    let free = applam(&mut store, "(app #0 $0)", &["(app f $2)"]);
    let up = bubble_lam(&free, &mut store, &mut caches).unwrap();
    assert_eq!(
        texts(&store, &up),
        ("(lam (app #0 $0))".to_string(), vec!["(app f $1)".to_string()])
    );
    assert!(up.inv.valid_invention(&store));
    let open = applam(&mut store, "(app #0 $1)", &["f"]);
    assert!(!open.inv.valid_invention(&store));
}

#[test]
fn free_variables_of_an_applam() {
    let mut store = Dag::new();
    let a = applam(&mut store, "(app (app #0 $4) #1)", &["(lam $2)", "$0"]);
    let mut refs = a.upward_refs(&store);
    refs.sort();
    assert_eq!(refs, vec![0, 1, 4]);
    // the node which the applam stands for has the same
    let n = add(&mut store, "(app (app (lam $2) $4) $0)");
    let mut of_node = store.data_of(n).upward_refs.clone();
    of_node.sort();
    assert_eq!(of_node, refs);
    let hole = Lambda::IVar(0);
    assert!(store.lookup(&hole).is_some());
}

#[test]
fn an_applam_as_text() {
    let mut store = Dag::new();
    let a = applam(&mut store, "(app (app g #0) (lam #1))", &["(app f a)", "b"]);
    assert_eq!(
        String::from_utf8(a.to_string(&store).unwrap()).unwrap(),
        "inv:[arity 2]: (lam (lam (app (app g $0) (lam $2)))) \narg:(app f a)\narg:b"
    );
}
