use topple::formula::F;
use topple::game::{apply_move, Move, Side};
use topple::input::Button;
use topple::rng::Rng;
use topple::round::{PlayerKind, Record, Round, RoundCfg};
use topple::theme::{bg, bot, side_color, top};
use topple::fb::Color;

#[test]
fn humans_are_told_apart_from_the_adversary() {
    assert!(PlayerKind::Human(1).is_human());
    assert!(PlayerKind::Human(2).is_human());
    assert!(!PlayerKind::Adversary.is_human());
}

#[test]
fn a_record_clones_its_cascade() {
    let before = F::and(F::Atom(0), F::or(F::Atom(1), F::Atom(2)));
    let mv = Move::new(1, true);
    let (_, steps) = apply_move(&before, mv).unwrap();
    let rec = Record { mover: Side::Top, mv, before: before.clone(), steps };
    let copy = rec.clone();
    assert_eq!(copy.before, before);
    assert_eq!(copy.mv, mv);
    assert_eq!(copy.mover, Side::Top);
    assert_eq!(copy.steps.len(), rec.steps.len());
    for (a, b) in copy.steps.iter().zip(&rec.steps) {
        assert_eq!(a.law, b.law);
        assert_eq!(a.path, b.path);
        assert_eq!(a.after, b.after);
    }
    let cfg = RoundCfg { allow_preview: true, label: String::from("DUEL · ROUND 2"), status: String::new() };
    assert!(cfg.allow_preview && cfg.label.starts_with("DUEL") && cfg.status.is_empty());
}

#[test]
fn each_side_has_its_colour() {
    assert_eq!(side_color(Side::Top), Color::rgb(0xFF, 0xC5, 0x3D));
    assert_eq!(side_color(Side::Bot), Color::rgb(0x4D, 0xC4, 0xFF));
    assert_eq!(side_color(Side::Top), top());
    assert_eq!(side_color(Side::Bot), bot());
    assert_eq!(bg(), Color::rgb(0x0E, 0x11, 0x16));
}

#[test]
fn the_cursor_walks_lines_and_assigns_the_hovered_atom() {
    // (p ∧ q) ∨ (r ∧ s), laid out as "p ∧ q" over "∨ r ∧ s".
    let board = F::or(F::and(F::Atom(0), F::Atom(1)), F::and(F::Atom(2), F::Atom(3)));
    let cfg = RoundCfg { allow_preview: true, label: String::new(), status: String::new() };
    let mut round = Round::new(board, Side::Top, PlayerKind::Human(1), PlayerKind::Human(2), cfg);
    let mut rng = Rng::new(1);
    round.place_occurrences(&[(0, 0), (0, 40), (1, 20), (1, 60)]);
    assert_eq!(round.hovered_atom(), Some(0));
    assert!(round.press(Button::Right, &mut rng));
    assert_eq!(round.hovered_atom(), Some(1));
    assert!(round.press(Button::Down, &mut rng)); // nearest below q (x 40): s (x 60) vs r (x 20) — r first at equal distance
    assert_eq!(round.hovered_atom(), Some(2));
    assert!(round.press(Button::Left, &mut rng));
    assert_eq!(round.hovered_atom(), Some(1));
    assert!(round.press(Button::Left, &mut rng));
    assert!(round.press(Button::Left, &mut rng)); // wraps to s
    assert_eq!(round.hovered_atom(), Some(3));
    assert!(!round.press(Button::Start, &mut rng));
    assert!(round.press(Button::X, &mut rng)); // s ≔ ⊤
    assert!(round.animating());
    assert_eq!(round.history.len(), 1);
    assert_eq!(round.board, F::or(F::and(F::Atom(0), F::Atom(1)), F::Atom(2)));
    assert!(round.press(Button::A, &mut rng)); // fast-forward
    assert!(!round.animating());
    assert_eq!(round.to_move, Side::Bot);
    assert_eq!(round.outcome, None);
}

#[test]
fn the_adversary_plays_a_best_move_after_thinking() {
    // p ∨ q with the Adversary as ⊤ to move: any ⊤ assignment wins at once.
    let board = F::or(F::Atom(0), F::Atom(1));
    let cfg = RoundCfg { allow_preview: false, label: String::new(), status: String::new() };
    let mut round = Round::new(board, Side::Top, PlayerKind::Adversary, PlayerKind::Human(1), cfg);
    let mut rng = Rng::new(9);
    round.tick(699, &mut rng);
    assert!(round.history.is_empty());
    round.tick(1, &mut rng);
    assert_eq!(round.history.len(), 1);
    assert!(round.history[0].mv.value);
    assert_eq!(round.board, F::Const(true));
    round.tick(10_000, &mut rng);
    assert_eq!(round.outcome, Some(Side::Top));
}

#[test]
fn a_move_animates_its_substitution_then_each_law_then_the_result() {
    // (p ∧ q) ∨ r: ⊥ on p flashes p, then ⊥ ∧ q = ⊥, then ⊥ ∨ r = r.
    let board = F::or(F::and(F::Atom(0), F::Atom(1)), F::Atom(2));
    let cfg = RoundCfg { allow_preview: false, label: String::new(), status: String::new() };
    let mut round = Round::new(board, Side::Bot, PlayerKind::Human(1), PlayerKind::Human(2), cfg);
    let mut rng = Rng::new(3);
    assert_eq!(round.hovered_index(3), Some(0));
    assert!(round.press(Button::B, &mut rng)); // p ≔ ⊥
    let f0 = round.frame().expect("the flash");
    assert!(matches!(f0.highlight, topple::round::Highlight::AtomAll(0)));
    assert_eq!(f0.toast, Some(("p ≔ ⊥".to_string(), false)));
    assert_eq!(f0.dur, 700);
    round.tick(700, &mut rng);
    let f1 = round.frame().expect("the first law");
    assert!(matches!(f1.highlight, topple::round::Highlight::Redex(_)));
    assert_eq!(f1.toast, Some(("⊥ ∧ x  =  ⊥".to_string(), true)));
    round.tick(849, &mut rng);
    assert_eq!(round.frame().unwrap().toast, Some(("⊥ ∧ x  =  ⊥".to_string(), true)));
    round.tick(1, &mut rng);
    assert_eq!(round.frame().unwrap().toast, Some(("⊥ ∨ x  =  x".to_string(), true)));
    round.tick(850, &mut rng);
    let last = round.frame().expect("the result");
    assert_eq!(last.board, F::Atom(2));
    assert!(last.toast.is_none());
    assert_eq!(round.hovered_index(1), None);
    round.tick(299, &mut rng);
    assert!(round.animating());
    round.tick(1, &mut rng);
    assert!(!round.animating());
    assert_eq!(round.to_move, Side::Top);
}

#[test]
fn the_adversary_plays_the_generators_pick_among_its_best_moves() {
    // (p ∧ q) ∨ r with the Adversary as ⊥ to move: r ≔ ⊥ is its one best move.
    let board = F::or(F::and(F::Atom(0), F::Atom(1)), F::Atom(2));
    let cfg = RoundCfg { allow_preview: false, label: String::new(), status: String::new() };
    let mut round = Round::new(board.clone(), Side::Bot, PlayerKind::Human(1), PlayerKind::Adversary, cfg);
    let mut rng = Rng::new(12345);
    let mut solver = topple::solve::Solver::new();
    let best = solver.best_moves(&board, Side::Bot);
    let mut expected_rng = rng.clone();
    let expected = *expected_rng.pick(&best);
    round.tick(700, &mut rng);
    assert_eq!(round.history.len(), 1);
    assert_eq!(round.history[0].mv, expected);
    assert_eq!(expected, Move::new(2, false));
    assert_eq!(rng.next_u64(), expected_rng.next_u64());
}
