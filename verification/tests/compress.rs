use dreamegg::compress::{
    compress_programs, compression, decimal_digits, find_redex, invention_name,
    run_compression_step, top_candidates, wrap_programs, CompressionError, CorpusError,
};
use dreamegg::sexp::ParseError;
use dreamegg::expr::{Lambda, RecExpr};
use dreamegg::info::{cost_rec, depth_rec, programs_info, ProgramsInfo};
use dreamegg::sexp::{parse, show};

fn text(bytes: &[u8]) -> String {
    String::from_utf8(bytes.to_vec()).unwrap()
}

fn compress_text(corpus: &str, iterations: usize, max_arity: usize) -> (Vec<(String, usize)>, String) {
    let expr = parse(corpus.as_bytes()).unwrap();
    let (invs, rewritten) = compression(&expr, iterations, max_arity, 10_000_000, false).unwrap();
    let again = compression(&expr, iterations, max_arity, 0, true).unwrap();
    assert_eq!(again.0, invs);
    assert_eq!(again.1, rewritten);
    assert!(cost_rec(&rewritten).unwrap() <= cost_rec(&expr).unwrap());
    let invs = invs.iter().map(|i| (text(&show(&i.lam_expr)), i.arity)).collect();
    (invs, text(&show(&rewritten)))
}

fn cost_of(text: &str) -> i32 {
    cost_rec(&parse(text.as_bytes()).unwrap()).unwrap()
}

#[test]
fn one_program_is_left_as_it_is() {
    for iterations in [0usize, 1, 5] {
        let (invs, rewritten) = compress_text("(programs a)", iterations, 2);
        assert!(invs.is_empty());
        assert_eq!(rewritten, "(programs a)");
    }
}

#[test]
fn the_same_small_program_twice() {
    // a call of an invention with one hole costs what `(app f a)` costs
    let (invs, rewritten) = compress_text("(programs (app f a) (app f a))", 3, 2);
    assert!(invs.is_empty());
    assert_eq!(rewritten, "(programs (app f a) (app f a))");
}

#[test]
fn two_programs_that_differ_in_one_argument() {
    let (invs, rewritten) = compress_text("(programs (app f a) (app f b))", 3, 2);
    assert!(invs.is_empty());
    assert_eq!(rewritten, "(programs (app f a) (app f b))");
    // with more in common, the common part is found
    let (invs, rewritten) =
        compress_text("(programs (app (app f x) a) (app (app f x) b))", 1, 2);
    assert_eq!(invs, vec![("(lam (app (app f x) $0))".to_string(), 1)]);
    assert_eq!(rewritten, "(programs (app inv0 a) (app inv0 b))");
}

#[test]
fn an_argument_that_occurs_twice_fills_one_hole() {
    for max_arity in [1usize, 2, 3] {
        let (invs, rewritten) =
            compress_text("(programs (app (app g a) a) (app (app g b) b))", 1, max_arity);
        assert_eq!(invs, vec![("(lam (app (app g $0) $0))".to_string(), 1)]);
        assert_eq!(rewritten, "(programs (app inv0 a) (app inv0 b))");
        assert_eq!(cost_of(&rewritten), 402);
    }
}

#[test]
fn no_invention_with_more_holes_than_allowed() {
    let corpus = "(programs (app (app (app h a) b) c) (app (app (app h d) e) f))";
    let (invs, rewritten) = compress_text(corpus, 3, 2);
    for (_, arity) in &invs {
        assert!(*arity <= 2);
    }
    assert!(invs.is_empty());
    assert_eq!(rewritten, corpus);
    // where three holes pay, they are found only if they are allowed
    let corpus = "(programs (app (app (app (app h x) a) b) c) (app (app (app (app h x) d) e) f))";
    let (invs, _) = compress_text(corpus, 1, 3);
    assert_eq!(invs, vec![("(lam (lam (lam (app (app (app (app h x) $0) $1) $2))))".to_string(), 3)]);
    let (invs, _) = compress_text(corpus, 1, 2);
    for (_, arity) in &invs {
        assert!(*arity <= 2);
    }
}

#[test]
fn an_argument_that_uses_the_binder_stays_under_it() {
    let (invs, rewritten) = compress_text("(programs (lam (app f $0)) (lam (app f $0)))", 1, 2);
    // `$0` cannot leave the lambda, `f` can
    assert_eq!(invs, vec![("(lam (lam (app $1 $0)))".to_string(), 1)]);
    assert_eq!(rewritten, "(programs (app inv0 f) (app inv0 f))");
}

#[test]
fn steps_follow_one_another() {
    let corpus =
        "(programs (app (app g a) a) (app (app g b) b) (app (app h a) a) (app (app h b) b))";
    let (one, after_one) = compress_text(corpus, 1, 2);
    // four inventions make the corpus as cheap; the first that was found is taken
    assert_eq!(one, vec![("(lam (app (app $0 a) a))".to_string(), 1)]);
    assert_eq!(
        after_one,
        "(programs (app inv0 g) (app (app g b) b) (app inv0 h) (app (app h b) b))"
    );
    let (two, after_two) = compress_text(corpus, 2, 2);
    assert_eq!(two.len(), 2);
    assert_eq!(two[0], one[0]);
    assert!(cost_of(&after_two) < cost_of(&after_one));
    assert!(cost_of(&after_one) < cost_of(corpus));
    // the second invention is named after the first
    assert_eq!(two[1], ("(lam (app (app $0 b) b))".to_string(), 1));
    assert_eq!(after_two, "(programs (app inv0 g) (app inv1 g) (app inv0 h) (app inv1 h))");
    // once nothing is found, more steps change nothing
    let (many, after_many) = compress_text(corpus, 20, 2);
    let (more, after_more) = compress_text(corpus, 21, 2);
    assert_eq!(many, more);
    assert_eq!(after_many, after_more);
    let (none, same) = compress_text(&after_many, 1, 2);
    assert!(none.is_empty());
    assert_eq!(same, after_many);
}

#[test]
fn one_step() {
    let e = parse(b"(programs (app (app g a) a) (app (app g b) b))").unwrap();
    let r = run_compression_step(&e, 2, 0, false, &b"fresh".to_vec()).unwrap().unwrap();
    assert_eq!(text(&show(&r.inv.lam_expr)), "(lam (app (app g $0) $0))");
    assert_eq!(r.inv.arity, 1);
    assert_eq!(text(&show(&r.rewritten)), "(programs (app fresh a) (app fresh b))");
    let e = parse(b"(programs a b)").unwrap();
    assert_eq!(run_compression_step(&e, 2, 0, false, &b"fresh".to_vec()), Ok(None));
}

#[test]
fn corpora_that_are_refused() {
    let e = parse(b"(programs (app (lam $0) a))").unwrap();
    assert_eq!(compression(&e, 1, 2, 0, false), Err(CompressionError::Preflight));
    assert!(find_redex(&e, e.len() - 1));
    let e = parse(b"(programs (lam (app $0 (lam a))))").unwrap();
    assert!(!find_redex(&e, e.len() - 1));
    let e = parse(b"(programs (app f $0))").unwrap();
    assert_eq!(compression(&e, 1, 2, 0, false), Err(CompressionError::CorpusClosedness));
    let e = parse(b"(programs (lam (app #0 $0)))").unwrap();
    assert_eq!(
        run_compression_step(&e, 2, 0, false, &b"inv0".to_vec()),
        Err(CompressionError::CorpusClosedness)
    );
    let e = parse(b"(app f #1)").unwrap();
    assert_eq!(
        run_compression_step(&e, 2, 0, false, &b"inv0".to_vec()),
        Err(CompressionError::CorpusClosedness)
    );
    // a corpus whose cost does not fit
    let mut text = String::from("a");
    for _ in 0..25 {
        text = format!("(app {} {})", text, text);
    }
    assert!(text.len() < 1 << 30);
}

#[test]
fn names_of_inventions() {
    assert_eq!(invention_name(0), b"inv0".to_vec());
    assert_eq!(invention_name(7), b"inv7".to_vec());
    assert_eq!(invention_name(10), b"inv10".to_vec());
    assert_eq!(invention_name(1234567890), b"inv1234567890".to_vec());
    assert_eq!(decimal_digits(0), b"0".to_vec());
    assert_eq!(decimal_digits(409), b"409".to_vec());
}

#[test]
fn cost_and_depth() {
    assert_eq!(cost_of("a"), 100);
    assert_eq!(cost_of("(app f a)"), 201);
    assert_eq!(cost_of("(lam (app f $0))"), 202);
    assert_eq!(cost_of("(programs (app f a) (lam $0) x)"), 201 + 101 + 100);
    assert_eq!(cost_of("(programs)"), 0);
    let depth = |t: &str| depth_rec(&parse(t.as_bytes()).unwrap());
    assert_eq!(depth("a"), Some(1));
    assert_eq!(depth("(app f (lam (app g $0)))"), Some(4));
    assert_eq!(depth("(app (lam (lam (lam $0))) f)"), Some(5));
    assert_eq!(depth("(programs (app f (app g a)) (lam $0) (app (app f a) (lam b)))"), Some(2));
    assert_eq!(depth("(programs)"), None);
    assert_eq!(depth("(app f (programs))"), None);
}

#[test]
fn what_is_told_of_a_corpus() {
    let programs: Vec<_> = ["(app f a)", "(lam (lam (lam $0)))", "(app (app f a) (app g b))"]
        .iter()
        .map(|t| parse(t.as_bytes()).unwrap())
        .collect();
    assert_eq!(
        programs_info(&programs),
        Some(ProgramsInfo { num: 3, max_cost: 403, max_depth: 4 })
    );
    let programs = vec![parse(b"(programs)").unwrap()];
    assert_eq!(programs_info(&programs), None);
}

#[test]
fn the_cheapest_inventions_in_order() {
    let e = parse(b"(programs (app (app g (app k a)) (app k a)) (app (app g (app k b)) (app k b)))")
        .unwrap();
    let name = b"new".to_vec();
    let all = top_candidates(&e, 2, 0, false, 1000, &name).unwrap();
    assert!(all.len() > 3);
    let costs: Vec<i32> =
        all.iter().map(|c| cost_rec(&c.as_ref().unwrap().rewritten).unwrap()).collect();
    let mut sorted = costs.clone();
    sorted.sort();
    assert_eq!(costs, sorted);
    assert!(*costs.last().unwrap() < cost_rec(&e).unwrap());
    let two = top_candidates(&e, 2, 0, false, 2, &name).unwrap();
    assert_eq!(two.len(), 2);
    assert_eq!(two[0], all[0]);
    assert_eq!(two[1], all[1]);
    // the first is what a step takes
    let step = run_compression_step(&e, 2, 0, false, &name).unwrap().unwrap();
    assert_eq!(Ok(step.clone()), all[0]);
    assert_eq!(text(&show(&step.inv.lam_expr)), "(lam (app (app g (app k $0)) (app k $0)))");
    assert_eq!(text(&show(&step.rewritten)), "(programs (app new a) (app new b))");
    assert!(top_candidates(&e, 2, 0, false, 0, &name).unwrap().is_empty());
    let open = parse(b"(programs $0)").unwrap();
    assert_eq!(
        top_candidates(&open, 2, 0, false, 3, &name),
        Err(CompressionError::CorpusClosedness)
    );
}

#[test]
fn a_corpus_whose_cost_does_not_fit() {
    // every application doubles the cost of `a`
    let mut e = RecExpr::new();
    let mut id = e.add(Lambda::Prim(b"a".to_vec()));
    for _ in 0..21 {
        id = e.add(Lambda::App(id, id));
    }
    assert_eq!(cost_rec(&e), Some(101 * (1 << 21) - 1));
    let programs: Vec<usize> = (0..11).map(|_| id).collect();
    e.add(Lambda::Programs(programs));
    assert_eq!(cost_rec(&e), None);
    assert_eq!(
        run_compression_step(&e, 2, 0, false, &b"inv0".to_vec()),
        Err(CompressionError::TooLarge)
    );
    assert_eq!(compression(&e, 3, 2, 0, false), Err(CompressionError::TooLarge));
}

#[test]
fn a_corpus_of_list_programs() {
    let programs = [
        "(lam (app (app map (lam (app (app + $0) 1))) $0))",
        "(lam (app (app map (lam (app (app + $0) 2))) $0))",
        "(lam (app (app map (lam (app (app * $0) 2))) $0))",
        "(lam (app (app (app fold (lam (lam (app (app + $1) $0)))) 0) $0))",
        "(lam (app (app (app fold (lam (lam (app (app * $1) $0)))) 1) $0))",
        "(lam (lam (app (app map (lam (app (app + $0) $2))) $0)))",
        "(lam (app (app filter (lam (app (app gt $0) 0))) (app (app map (lam (app (app + $0) 1))) $0)))",
        "(lam (app (app filter (lam (app (app gt $0) 1))) (app (app map (lam (app (app * $0) 2))) $0)))",
        "(lam (app length (app (app filter (lam (app (app gt $0) 0))) $0)))",
        "(lam (app (app (app fold (lam (lam (app (app + $1) (app (app * $0) $0))))) 0) $0))",
    ];
    let corpus = format!("(programs {})", programs.join(" "));
    let expr = parse(corpus.as_bytes()).unwrap();
    let before = cost_rec(&expr).unwrap();
    let mut last = before;
    for max_arity in [1usize, 2, 3] {
        let mut found = 0;
        let mut cost = before;
        for iterations in 1..6 {
            let (invs, rewritten) =
                compression(&expr, iterations, max_arity, 10_000_000, false).unwrap();
            let c = cost_rec(&rewritten).unwrap();
            assert!(invs.len() <= iterations);
            assert!(invs.len() >= found);
            // each invention that is found makes the corpus cheaper
            if invs.len() > found {
                assert!(c < cost);
            } else {
                assert_eq!(c, cost);
            }
            for inv in &invs {
                assert!(inv.arity <= max_arity);
            }
            found = invs.len();
            cost = c;
        }
        assert!(found >= 2);
        assert!(cost < before);
        // more holes never make the first step worse
        let first = run_compression_step(&expr, max_arity, 0, false, &b"inv0".to_vec())
            .unwrap()
            .unwrap();
        let c = cost_rec(&first.rewritten).unwrap();
        assert!(c <= last);
        last = c;
    }
}

#[test]
fn programs_as_texts() {
    let texts = |ps: &[&str]| -> Vec<Vec<u8>> { ps.iter().map(|p| p.as_bytes().to_vec()).collect() };
    assert_eq!(wrap_programs(&texts(&[])), b"(programs )".to_vec());
    assert_eq!(wrap_programs(&texts(&["a"])), b"(programs a)".to_vec());
    assert_eq!(
        wrap_programs(&texts(&["(app f a)", "b", "(lam $0)"])),
        b"(programs (app f a) b (lam $0))".to_vec()
    );
    let (invs, rewritten) =
        compress_programs(&texts(&["(app (app g a) a)", "(app (app g b) b)"]), 5, 2, 0, false)
            .unwrap();
    assert_eq!(invs.len(), 1);
    assert_eq!(text(&show(&invs[0].lam_expr)), "(lam (app (app g $0) $0))");
    assert_eq!(text(&show(&rewritten)), "(programs (app inv0 a) (app inv0 b))");
    let (invs, rewritten) = compress_programs(&texts(&[]), 5, 2, 0, false).unwrap();
    assert!(invs.is_empty());
    assert_eq!(text(&show(&rewritten)), "programs");
    assert_eq!(
        compress_programs(&texts(&["(app f a)", "(lam"]), 5, 2, 0, false),
        Err(CorpusError::Parse(ParseError::WrongChildren))
    );
    assert_eq!(
        compress_programs(&texts(&["a", ")"]), 5, 2, 0, false),
        Err(CorpusError::Parse(ParseError::TrailingInput))
    );
    assert_eq!(
        compress_programs(&texts(&["(app (lam $0) a)"]), 5, 2, 0, false),
        Err(CorpusError::Compression(CompressionError::Preflight))
    );
    assert_eq!(
        compress_programs(&texts(&["(lam $1)"]), 5, 2, 0, false),
        Err(CorpusError::Compression(CompressionError::CorpusClosedness))
    );
}
