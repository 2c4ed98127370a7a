use topple::formula::{pretty, Op, F};
use topple::laws::{cascade, step, Law};

fn p() -> F {
    F::Atom(0)
}

fn q() -> F {
    F::Atom(1)
}

fn r() -> F {
    F::Atom(2)
}

fn t() -> F {
    F::Const(true)
}

fn b() -> F {
    F::Const(false)
}

#[test]
fn every_law_fires_and_rewrites_correctly() {
    let cases: Vec<(F, Law, &str)> = vec![
        (F::and(t(), p()), Law::TopAnd, "p"),
        (F::and(p(), t()), Law::AndTop, "p"),
        (F::and(b(), p()), Law::BotAnd, "⊥"),
        (F::and(p(), b()), Law::AndBot, "⊥"),
        (F::or(t(), p()), Law::TopOr, "⊤"),
        (F::or(p(), t()), Law::OrTop, "⊤"),
        (F::or(b(), p()), Law::BotOr, "p"),
        (F::or(p(), b()), Law::OrBot, "p"),
        (F::imp(t(), p()), Law::TopImp, "p"),
        (F::imp(b(), p()), Law::BotImp, "⊤"),
        (F::imp(p(), t()), Law::ImpTop, "⊤"),
        (F::imp(p(), b()), Law::ImpBot, "¬p"),
        (F::eq(t(), p()), Law::TopEq, "p"),
        (F::eq(p(), t()), Law::EqTop, "p"),
        (F::eq(b(), p()), Law::BotEq, "¬p"),
        (F::eq(p(), b()), Law::EqBot, "¬p"),
        (F::not(t()), Law::NotTop, "⊥"),
        (F::not(b()), Law::NotBot, "⊤"),
        (F::not(F::not(p())), Law::NotNot, "p"),
    ];
    for (f, law, want) in cases {
        let s = step(&f).unwrap_or_else(|| panic!("no law fired on {}", pretty(&f)));
        assert_eq!(s.law, law, "wrong law on {}", pretty(&f));
        assert_eq!(pretty(&s.after), want, "wrong result on {}", pretty(&f));
        assert!(s.path.is_empty());
    }
}

#[test]
fn every_law_strictly_shrinks() {
    // The termination argument, checked mechanically on the cases above.
    let redexes = vec![
        F::and(t(), p()),
        F::and(p(), b()),
        F::or(t(), F::and(p(), q())),
        F::imp(F::or(p(), q()), b()),
        F::eq(b(), F::not(p())),
        F::not(F::not(F::and(p(), q()))),
    ];
    for f in redexes {
        let s = step(&f).unwrap();
        assert!(s.after.size() < f.size(), "{} did not shrink", pretty(&f));
    }
}

#[test]
fn cascade_order_matches_worked_example_blunder() {
    // After p ≔ ⊤ in (p ⇒ q) ∧ (p ∨ r) ∧ (r ⇒ q):
    //   ⊤⇒x = x   →  q ∧ (⊤ ∨ r) ∧ (r ⇒ q)
    //   ⊤∨x = ⊤   →  q ∧ ⊤ ∧ (r ⇒ q)
    //   x∧⊤ = x   →  q ∧ (r ⇒ q)
    let f = F::and(F::and(F::imp(p(), q()), F::or(p(), r())), F::imp(r(), q())).substitute(0, true);
    let (end, steps) = cascade(&f);
    let trace: Vec<(Law, String)> = steps.iter().map(|s| (s.law, pretty(&s.after))).collect();
    assert_eq!(
        trace,
        vec![
            (Law::TopImp, "q ∧ (⊤ ∨ r) ∧ (r ⇒ q)".to_string()),
            (Law::TopOr, "q ∧ ⊤ ∧ (r ⇒ q)".to_string()),
            (Law::AndTop, "q ∧ (r ⇒ q)".to_string()),
        ]
    );
    assert_eq!(pretty(&end), "q ∧ (r ⇒ q)");
}

#[test]
fn cascade_order_matches_worked_example_winning_move() {
    // q ≔ ⊤: x⇒⊤ = ⊤ (twice), then the ∧-laws leave p ∨ r.
    let f = F::and(F::and(F::imp(p(), q()), F::or(p(), r())), F::imp(r(), q())).substitute(1, true);
    let (end, _) = cascade(&f);
    assert_eq!(pretty(&end), "p ∨ r");
}

/// Every formula over the constants up to the given depth.
fn shapes(depth: usize) -> Vec<F> {
    if depth == 0 {
        return vec![F::Const(true), F::Const(false)];
    }
    let subs = shapes(depth - 1);
    let mut out = subs.clone();
    for l in &subs {
        out.push(F::not(l.clone()));
        for r in &subs {
            for op in [Op::And, Op::Or, Op::Imp, Op::Eq] {
                out.push(F::bin(op, l.clone(), r.clone()));
            }
        }
    }
    out
}

#[test]
fn closed_formulas_always_collapse_to_a_constant() {
    // Exhaustive over all shapes up to depth 2 with constants only.
    for f in shapes(2) {
        let (end, _) = cascade(&f);
        let want = f.eval(0);
        assert_eq!(end, F::Const(want), "{} should collapse to {}", pretty(&f), want);
    }
}

#[test]
fn cascade_preserves_truth_value() {
    // Rewriting is equational: the cascade result must be logically
    // equivalent to the input under every assignment of remaining atoms.
    let f = F::and(F::imp(F::or(p(), q()), F::not(r())), F::eq(q(), F::imp(r(), p())));
    for atom in 0..3u8 {
        for val in [true, false] {
            let g = f.substitute(atom, val);
            let (end, _) = cascade(&g);
            for env in 0..8u8 {
                assert_eq!(g.eval(env), end.eval(env));
            }
        }
    }
}

#[test]
fn any_rewrite_order_reaches_the_cascade_result() {
    // (⊤ ∧ p) ∨ (q ⇒ ⊥): the cascade fires ⊤∧x first; firing x⇒⊥ first
    // instead, by hand, leads to the same calm board.
    let f = F::or(F::and(t(), p()), F::imp(q(), b()));
    let (end, steps) = cascade(&f);
    assert_eq!(steps[0].law, Law::TopAnd);
    assert_eq!(pretty(&end), "p ∨ ¬q");
    let other_first = F::or(F::and(t(), p()), F::not(q()));
    let (end2, _) = cascade(&other_first);
    assert_eq!(end2, end);
    // ⊥ = ⊤ matches two laws at once; either choice ends on ⊥.
    let (end3, _) = cascade(&F::eq(b(), t()));
    assert_eq!(end3, b());
    let (end4, _) = cascade(&F::not(t()));
    assert_eq!(end4, end3);
}
