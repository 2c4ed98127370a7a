use topple::formula::pretty;
use topple::game::{Move, Side};
use topple::puzzles::{builtin_puzzles, is_sound};
use topple::solve::Solver;

#[test]
fn every_builtin_puzzle_is_sound() {
    let book = builtin_puzzles();
    assert!(book.len() >= 8, "book too thin: {} puzzles", book.len());
    for pz in &book {
        assert!(is_sound(pz), "unsound puzzle {:?}: {}", pz.title, pretty(&pz.f));
    }
}

#[test]
fn first_builtin_is_the_worked_example() {
    let book = builtin_puzzles();
    assert_eq!(pretty(&book[0].f), "(p ⇒ q) ∧ (p ∨ r) ∧ (r ⇒ q)");
    let mut s = Solver::new();
    assert_eq!(s.winning_moves(&book[0].f, Side::Top), vec![Move::new(1, true)]);
}

#[test]
fn builtin_book_is_deterministic() {
    let a = builtin_puzzles();
    let b = builtin_puzzles();
    assert_eq!(a.len(), b.len());
    for (x, y) in a.iter().zip(&b) {
        assert_eq!(x.f, y.f);
    }
}
