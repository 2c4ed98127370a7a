use topple::formula::{pretty, F};
use topple::game::{apply_move, legal_moves, winner, Move, Side};

fn worked_example() -> F {
    let p = || F::Atom(0);
    let q = || F::Atom(1);
    let r = || F::Atom(2);
    F::and(F::and(F::imp(p(), q()), F::or(p(), r())), F::imp(r(), q()))
}

#[test]
fn game_ends_when_board_is_a_lone_constant() {
    let f = worked_example();
    assert_eq!(winner(&f), None);
    // The full blunder line: p ≔ ⊤, then q ≔ ⊥ ends it.
    let (f, _) = apply_move(&f, Move::new(0, true)).unwrap();
    assert_eq!(pretty(&f), "q ∧ (r ⇒ q)");
    let (f, _) = apply_move(&f, Move::new(1, false)).unwrap();
    assert_eq!(winner(&f), Some(Side::Bot));
    // r was deleted from the board unassigned; no legal moves remain.
    assert!(legal_moves(&f).is_empty());
}

#[test]
fn deleted_atoms_cannot_be_assigned() {
    let f = worked_example();
    let (f, _) = apply_move(&f, Move::new(1, true)).unwrap(); // q ≔ ⊤ → p ∨ r
    let (f, _) = apply_move(&f, Move::new(0, false)).unwrap(); // p ≔ ⊥ → r
    assert_eq!(pretty(&f), "r");
    assert!(apply_move(&f, Move::new(0, true)).is_err());
    assert_eq!(legal_moves(&f), vec![Move::new(2, true), Move::new(2, false)]);
}

#[test]
fn every_move_strictly_reduces_occurrences() {
    let f = worked_example();
    for mv in legal_moves(&f) {
        let (g, _) = apply_move(&f, mv).unwrap();
        assert!(g.total_occurrences() < f.total_occurrences());
    }
}

#[test]
fn a_move_is_a_branch_of_the_shannon_expansion() {
    let f = worked_example();
    for (atom, value) in [(1u8, true), (0, true), (2, false)] {
        let (after, _) = apply_move(&f, Move::new(atom, value)).unwrap();
        for env in 0..8u8 {
            if (env & (1 << atom) != 0) == value {
                assert_eq!(after.eval(env), f.eval(env), "atom {atom} ≔ {value}, env {env:03b}");
            }
        }
    }
}
