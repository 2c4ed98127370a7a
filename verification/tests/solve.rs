use topple::formula::{pretty, Op, F};
use topple::game::{apply_move, legal_moves, winner, Move, Side};
use topple::rng::Rng;
use topple::solve::Solver;

fn p() -> F {
    F::Atom(0)
}

fn q() -> F {
    F::Atom(1)
}

fn r() -> F {
    F::Atom(2)
}

fn worked_example() -> F {
    F::and(F::and(F::imp(p(), q()), F::or(p(), r())), F::imp(r(), q()))
}

#[test]
fn worked_example_is_top_win_in_two_with_unique_key_move() {
    // ⊤ to move wins; q ≔ ⊤ is the only winning assignment, and it is a
    // forced win in two of ⊤'s moves (3 plies).
    let f = worked_example();
    let mut s = Solver::new();
    let e = s.solve(&f, Side::Top);
    assert_eq!(e.winner, Side::Top);
    assert_eq!(e.plies, 3, "mate in 2 (⊤ moves 1 and 3)");
    let wins = s.winning_moves(&f, Side::Top);
    assert_eq!(wins, vec![Move::new(1, true)], "only q ≔ ⊤ wins");
}

#[test]
fn worked_example_follow_up_fork_works() {
    // After q ≔ ⊤ the board is p ∨ r with ⊥ to move: ⊥ loses both prongs.
    let (g, _) = apply_move(&worked_example(), Move::new(1, true)).unwrap();
    assert_eq!(pretty(&g), "p ∨ r");
    let mut s = Solver::new();
    assert_eq!(s.solve(&g, Side::Bot).winner, Side::Top);
    // And any ⊤-assignment by ⊥ is instant suicide via ⊤∨x = ⊤.
    for atom in [0, 2] {
        let (h, _) = apply_move(&g, Move::new(atom, true)).unwrap();
        assert_eq!(winner(&h), Some(Side::Top));
    }
}

#[test]
fn lone_atom_is_won_by_the_mover() {
    let mut s = Solver::new();
    assert_eq!(s.solve(&p(), Side::Top).winner, Side::Top);
    assert_eq!(s.solve(&p(), Side::Bot).winner, Side::Bot);
}

#[test]
fn lone_equality_is_mutual_zugzwang() {
    // (p = q): whoever touches it first hands the opponent the deciding
    // assignment — the mover always loses.
    let f = F::eq(p(), q());
    let mut s = Solver::new();
    assert_eq!(s.solve(&f, Side::Top).winner, Side::Bot);
    assert_eq!(s.solve(&f, Side::Bot).winner, Side::Top);
}

#[test]
fn conjunction_of_two_atoms_favours_bot_disjunction_top() {
    let mut s = Solver::new();
    let f = F::and(p(), q());
    // ⊥ just kills either atom regardless of who starts.
    assert_eq!(s.solve(&f, Side::Top).winner, Side::Bot);
    assert_eq!(s.solve(&f, Side::Bot).winner, Side::Bot);
    let g = F::or(p(), q());
    assert_eq!(s.solve(&g, Side::Top).winner, Side::Top);
    assert_eq!(s.solve(&g, Side::Bot).winner, Side::Top);
}

/// A memo-free reference: the mover wins iff some move leaves a position
/// the opponent loses.
fn brute(f: &F, to_move: Side) -> Side {
    if let Some(w) = winner(f) {
        return w;
    }
    let mut can_win = false;
    for mv in legal_moves(f) {
        let (g, _) = apply_move(f, mv).unwrap();
        if brute(&g, to_move.other()) == to_move {
            can_win = true;
            break;
        }
    }
    if can_win {
        to_move
    } else {
        to_move.other()
    }
}

fn random_formula(rng: &mut Rng, depth: u32) -> F {
    if depth == 0 || rng.below(4) == 0 {
        return F::Atom(rng.below(3) as u8);
    }
    match rng.below(6) {
        0 => F::not(random_formula(rng, depth - 1)),
        1 => F::bin(Op::Imp, random_formula(rng, depth - 1), random_formula(rng, depth - 1)),
        2 => F::bin(Op::Eq, random_formula(rng, depth - 1), random_formula(rng, depth - 1)),
        3 | 4 => F::bin(Op::And, random_formula(rng, depth - 1), random_formula(rng, depth - 1)),
        _ => F::bin(Op::Or, random_formula(rng, depth - 1), random_formula(rng, depth - 1)),
    }
}

#[test]
fn solver_agrees_with_brute_force_on_random_formulas() {
    // Cross-check the memoized solver against a memo-free reference
    // implementation on a swarm of small random formulas.
    let mut rng = Rng::new(0xC0FFEE);
    for _ in 0..300 {
        let f = random_formula(&mut rng, 4);
        if f.total_occurrences() > 6 {
            continue;
        }
        let mut s = Solver::new();
        for side in [Side::Top, Side::Bot] {
            assert_eq!(
                s.solve(&f, side).winner,
                brute(&f, side),
                "disagreement on {} ({:?} to move)",
                pretty(&f),
                side
            );
        }
    }
}

#[test]
fn winner_always_has_a_move_that_stays_winning() {
    // Strategy consistency: from any winning position, best_moves is
    // non-empty and following it keeps the win.
    let f = worked_example();
    let mut s = Solver::new();
    let mut cur = f;
    let mut to_move = Side::Top;
    let expected = s.solve(&cur, to_move).winner;
    while winner(&cur).is_none() {
        let mv = s.best_moves(&cur, to_move)[0];
        let (next, _) = apply_move(&cur, mv).unwrap();
        cur = next;
        to_move = to_move.other();
        assert_eq!(winner(&cur).unwrap_or_else(|| s.solve(&cur, to_move).winner), expected);
    }
    assert_eq!(winner(&cur), Some(expected));
}

#[test]
fn following_a_best_move_keeps_the_win() {
    let f = worked_example();
    let mut s = Solver::new();
    let e = s.solve(&f, Side::Top);
    assert_eq!(e.winner, Side::Top);
    let best = s.best_moves(&f, Side::Top);
    let winning = s.winning_moves(&f, Side::Top);
    assert!(!best.is_empty());
    for mv in &best {
        assert!(winning.contains(mv));
    }
}

#[test]
fn plies_are_one_more_than_the_chosen_child() {
    let f = worked_example();
    let mut s = Solver::new();
    let e = s.solve(&f, Side::Top);
    let mut fewest: Option<u32> = None;
    for mv in legal_moves(&f) {
        let (g, _) = apply_move(&f, mv).unwrap();
        let c = s.solve(&g, Side::Bot);
        if c.winner == Side::Top {
            fewest = Some(fewest.map_or(c.plies, |x| x.min(c.plies)));
        }
    }
    assert_eq!(e.plies, fewest.unwrap() + 1);
    assert_eq!(e.plies, 3);
}
