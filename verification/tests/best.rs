use dreamegg::applam::Invention;
use dreamegg::best::BestInventions;

#[test]
fn a_cost_is_kept_only_if_it_is_less() {
    let a = Invention::new(3, 1);
    let b = Invention::new(3, 2);
    let mut best = BestInventions::new(300);
    assert_eq!(best.cost_under_inv(&a), 300);
    assert!(!best.contains(&a));
    // not less than the cost without an abstraction
    best.new_cost_under_inv(a, 300);
    assert!(!best.contains(&a));
    best.new_cost_under_inv(a, 400);
    assert!(!best.contains(&a));
    best.new_cost_under_inv(a, 250);
    assert_eq!(best.cost_under_inv(&a), 250);
    // not less than what is kept
    best.new_cost_under_inv(a, 250);
    best.new_cost_under_inv(a, 260);
    assert_eq!(best.cost_under_inv(&a), 250);
    best.new_cost_under_inv(a, 249);
    assert_eq!(best.cost_under_inv(&a), 249);
    // the number of holes tells inventions apart
    assert_eq!(best.cost_under_inv(&b), 300);
    best.propose_wide(b, 10);
    assert_eq!(best.cost_under_inv(&b), 10);
    best.propose_wide(b, 1 << 40);
    assert_eq!(best.cost_under_inv(&b), 10);
    assert_eq!(best.inventionful_cost, vec![(a, 249), (b, 10)]);
    assert_eq!(best.find(&b), Some(1));
    assert_eq!(best.find(&Invention::new(4, 1)), None);
    assert_eq!(best.copy(), best);
}

#[test]
fn no_cost_exceeds_the_cost_without_an_abstraction() {
    let mut best = BestInventions::new(120);
    for (k, c) in [500, 119, 120, 7, 121, 0, 119].iter().enumerate() {
        best.new_cost_under_inv(Invention::new(k, 1), *c);
    }
    for k in 0..9 {
        assert!(best.cost_under_inv(&Invention::new(k, 1)) <= 120);
    }
    assert_eq!(best.inventionful_cost.len(), 4);
}

#[test]
fn cheapest_first_and_ties_in_order() {
    let mut best = BestInventions::new(1000);
    let inv = |k: usize| Invention::new(k, 1);
    best.new_cost_under_inv(inv(0), 500);
    best.new_cost_under_inv(inv(1), 300);
    best.new_cost_under_inv(inv(2), 700);
    best.new_cost_under_inv(inv(3), 300);
    best.new_cost_under_inv(inv(4), 100);
    best.new_cost_under_inv(inv(5), 500);
    assert_eq!(best.top_inventions(), vec![inv(4), inv(1), inv(3), inv(0), inv(5), inv(2)]);
    assert!(BestInventions::new(5).top_inventions().is_empty());
}

#[test]
fn costs_from_children() {
    let inv = |k: usize| Invention::new(k, 1);
    let mut f = BestInventions::new(201);
    f.new_cost_under_inv(inv(0), 150);
    f.new_cost_under_inv(inv(1), 200);
    let mut x = BestInventions::new(100);
    x.new_cost_under_inv(inv(1), 99);
    // an application: 1 + cost of the function + cost of the argument
    let mut app = BestInventions::new(302);
    app.add_from_sides(&f, &x, &f.inventionful_cost);
    app.add_from_sides(&f, &x, &x.inventionful_cost);
    assert_eq!(app.cost_under_inv(&inv(0)), 1 + 150 + 100);
    assert_eq!(app.cost_under_inv(&inv(1)), 1 + 200 + 99);
    assert_eq!(app.cost_under_inv(&inv(2)), 302);
    // a lambda: 1 + cost of the body
    let mut lam = BestInventions::new(202);
    lam.add_from_body(&f.inventionful_cost);
    assert_eq!(lam.cost_under_inv(&inv(0)), 151);
    assert_eq!(lam.cost_under_inv(&inv(1)), 201);
}

#[test]
fn a_beam_that_takes_the_table_leaves_it() {
    let mut best = BestInventions::new(90);
    best.new_cost_under_inv(Invention::new(1, 1), 50);
    best.new_cost_under_inv(Invention::new(2, 1), 60);
    let before = best.copy();
    best.narrow_beam(10_000_000);
    assert_eq!(best, before);
    best.narrow_beam(2);
    assert_eq!(best, before);
}

#[test]
fn a_narrow_beam_keeps_the_cheapest_entries() {
    let a = Invention::new(1, 1);
    let b = Invention::new(2, 1);
    let c = Invention::new(3, 1);
    let d = Invention::new(4, 1);
    let e = Invention::new(5, 1);
    let mut best = BestInventions::new(900);
    best.new_cost_under_inv(a, 500);
    best.new_cost_under_inv(b, 300);
    best.new_cost_under_inv(c, 700);
    best.new_cost_under_inv(d, 300);
    best.new_cost_under_inv(e, 100);
    best.narrow_beam(2);
    // the cheapest first; of the two of one cost, the one found first
    assert_eq!(best.inventionful_cost, vec![(e, 100), (b, 300)]);
    assert_eq!(best.inventionless_cost, 900);
    assert!(best.contains(&e));
    assert!(best.contains(&b));
    assert!(!best.contains(&a));
    assert!(!best.contains(&c));
    assert!(!best.contains(&d));
    assert_eq!(best.cost_under_inv(&e), 100);
    assert_eq!(best.cost_under_inv(&b), 300);
    assert_eq!(best.cost_under_inv(&d), 900);
    assert_eq!(best.top_inventions(), vec![e, b]);
    // an entry that left can come again
    best.new_cost_under_inv(d, 200);
    assert_eq!(best.cost_under_inv(&d), 200);
    assert_eq!(best.top_inventions(), vec![e, d, b]);
}

#[test]
fn a_beam_of_no_width_empties_the_table() {
    let a = Invention::new(1, 1);
    let b = Invention::new(2, 2);
    let mut best = BestInventions::new(400);
    best.new_cost_under_inv(a, 350);
    best.new_cost_under_inv(b, 150);
    best.narrow_beam(1);
    assert_eq!(best.inventionful_cost, vec![(b, 150)]);
    best.narrow_beam(0);
    assert_eq!(best, BestInventions::new(400));
    assert_eq!(best.cost_under_inv(&b), 400);
}

#[test]
fn the_cheapest_come_first_and_the_table_stays() {
    let a = Invention::new(7, 1);
    let b = Invention::new(8, 1);
    let c = Invention::new(9, 2);
    let mut best = BestInventions::new(1000);
    best.new_cost_under_inv(a, 600);
    best.new_cost_under_inv(b, 200);
    best.new_cost_under_inv(c, 600);
    let before = best.copy();
    assert_eq!(best.cheapest_first(), vec![(b, 200), (a, 600), (c, 600)]);
    assert_eq!(best, before);
}
