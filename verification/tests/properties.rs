use topple::formula::{atom_name, glyph_count, pretty, Op, F};
use topple::game::{apply_move, legal_moves, winner, Move, Side};
use topple::gen::{deal, gauntlet_seed, parse_share_code, share_code, DealKind, GenParams};
use topple::laws::{cascade, step, Law};
use topple::online::{Actor, Event, MatchState};
use topple::puzzles::{builtin_puzzles, is_sound, Puzzle};
use topple::rng::{hash_str, Rng};
use topple::save::SaveData;
use topple::solve::{solve_both_orders, Solver};

fn worked_example() -> F {
    let p = || F::Atom(0);
    let q = || F::Atom(1);
    let r = || F::Atom(2);
    F::and(F::and(F::imp(p(), q()), F::or(p(), r())), F::imp(r(), q()))
}

// ------------------------------------------------------------- formulas --

#[test]
fn atoms_are_listed_once_in_ascending_order() {
    let f = F::and(F::Atom(3), F::or(F::Atom(1), F::not(F::Atom(3))));
    assert_eq!(f.atoms(), vec![1, 3]);
    assert_eq!(f.count_atom(3), 2);
    assert_eq!(f.total_occurrences(), 3);
    assert_eq!(f.size(), 6);
    assert_eq!(F::Const(true).atoms(), Vec::<u8>::new());
}

#[test]
fn paths_walk_left_and_right() {
    let f = worked_example();
    assert_eq!(f.at(&[]), Some(&f));
    assert_eq!(f.at(&[1, 0]), Some(&F::Atom(2)));
    assert_eq!(f.at(&[0, 1, 1]), Some(&F::Atom(2)));
    assert_eq!(f.at(&[1, 0, 0]), None);
    let g = F::not(F::Atom(4));
    assert_eq!(g.at(&[0]), Some(&F::Atom(4)));
    assert_eq!(g.at(&[1]), None);
}

#[test]
fn names_glyphs_and_constants() {
    assert_eq!(atom_name(0), 'p');
    assert_eq!(atom_name(1), 'q');
    assert_eq!(atom_name(2), 'r');
    assert_eq!(Op::And.glyph(), '∧');
    assert_eq!(Op::Or.glyph(), '∨');
    assert_eq!(Op::Imp.glyph(), '⇒');
    assert_eq!(Op::Eq.glyph(), '=');
    assert!(Op::And.chains() && Op::Or.chains() && !Op::Imp.chains() && !Op::Eq.chains());
    assert_eq!(F::Const(false).as_const(), Some(false));
    assert_eq!(F::Atom(0).as_const(), None);
    assert_eq!(glyph_count(&worked_example()), 17);
    assert_eq!(pretty(&F::Const(true)), "⊤");
}

#[test]
fn memo_keys_tell_boards_apart() {
    let boards = vec![
        worked_example(),
        F::and(F::Atom(0), F::Atom(1)),
        F::and(F::Atom(1), F::Atom(0)),
        F::or(F::Atom(0), F::Atom(1)),
        F::not(F::and(F::Atom(0), F::Atom(1))),
        F::and(F::not(F::Atom(0)), F::Atom(1)),
        F::Const(true),
        F::Const(false),
        F::Atom(7),
    ];
    for (i, a) in boards.iter().enumerate() {
        assert_eq!(a.key(), a.clone().key());
        for b in &boards[i + 1..] {
            assert_ne!(a.key(), b.key(), "{} vs {}", pretty(a), pretty(b));
        }
    }
}

// ----------------------------------------------------------------- laws --

#[test]
fn law_toasts_name_the_equation() {
    assert_eq!(Law::TopAnd.equation(), "⊤ ∧ x  =  x");
    assert_eq!(Law::ImpBot.equation(), "x ⇒ ⊥  =  ¬x");
    assert_eq!(Law::BotEq.equation(), "(⊥ = x)  =  ¬x");
    assert_eq!(Law::NotNot.equation(), "¬¬x  =  x");
}

#[test]
fn the_cascade_stops_only_when_no_law_fires() {
    let f = worked_example().substitute(2, false);
    let (end, steps) = cascade(&f);
    assert!(step(&end).is_none());
    assert!(!steps.is_empty());
    assert_eq!(steps.last().unwrap().after, end);
    // Nothing to do on a calm board.
    let (same, none) = cascade(&worked_example());
    assert_eq!(same, worked_example());
    assert!(none.is_empty());
}

#[test]
fn laws_fire_on_the_first_redex_in_reading_order() {
    // Both conjuncts are redexes; the left one goes first.
    let f = F::and(F::and(F::Const(true), F::Atom(0)), F::or(F::Atom(1), F::Const(false)));
    let s = step(&f).unwrap();
    assert_eq!(s.law, Law::TopAnd);
    assert_eq!(s.path, vec![0]);
    assert_eq!(pretty(&s.after), "p ∧ (q ∨ ⊥)");
}

// ----------------------------------------------------------------- game --

#[test]
fn lone_constants_are_won_and_other_boards_are_open() {
    assert_eq!(winner(&F::Const(true)), Some(Side::Top));
    assert_eq!(winner(&F::Const(false)), Some(Side::Bot));
    assert_eq!(winner(&F::Atom(0)), None);
    assert_eq!(Side::Top.other(), Side::Bot);
    assert_eq!(Side::Bot.glyph(), '⊥');
    assert!(Side::Top.constant() && !Side::Bot.constant());
    assert_eq!(Side::of_constant(false), Side::Bot);
}

#[test]
fn legal_moves_list_each_atom_true_then_false() {
    let f = F::or(F::Atom(5), F::and(F::Atom(2), F::Atom(5)));
    assert_eq!(
        legal_moves(&f),
        vec![Move::new(2, true), Move::new(2, false), Move::new(5, true), Move::new(5, false)]
    );
    assert!(legal_moves(&F::Const(true)).is_empty());
}

#[test]
fn assigning_an_absent_atom_is_an_error() {
    assert_eq!(apply_move(&worked_example(), Move::new(6, true)).err(), Some("atom is not on the board"));
    assert!(apply_move(&F::Const(true), Move::new(0, false)).is_err());
}

// -------------------------------------------------------------- solving --

#[test]
fn lost_positions_have_no_winning_moves() {
    let mut s = Solver::new();
    for f in [worked_example(), F::eq(F::Atom(0), F::Atom(1)), F::and(F::Atom(0), F::Atom(1))] {
        for side in [Side::Top, Side::Bot] {
            let won = s.solve(&f, side).winner == side;
            assert_eq!(s.winning_moves(&f, side).is_empty(), !won, "{}", pretty(&f));
            assert!(!s.best_moves(&f, side).is_empty());
        }
    }
}

#[test]
fn both_orders_agree_with_the_solver() {
    let mut s = Solver::default();
    for f in [worked_example(), F::eq(F::Atom(0), F::Atom(1)), F::or(F::Atom(0), F::Atom(1))] {
        let (a, b) = solve_both_orders(&f);
        assert_eq!(a, s.solve(&f, Side::Top).winner);
        assert_eq!(b, s.solve(&f, Side::Bot).winner);
    }
    assert_eq!(solve_both_orders(&F::eq(F::Atom(0), F::Atom(1))), (Side::Bot, Side::Top));
}

#[test]
fn a_decided_board_needs_no_plies() {
    let mut s = Solver::new();
    let e = s.solve(&F::Const(true), Side::Bot);
    assert_eq!(e.winner, Side::Top);
    assert_eq!(e.plies, 0);
    let e = s.solve(&F::Atom(3), Side::Bot);
    assert_eq!(e.winner, Side::Bot);
    assert_eq!(e.plies, 1);
}

// -------------------------------------------------------------- puzzles --

#[test]
fn a_puzzle_with_the_wrong_length_or_side_is_unsound() {
    let mk = |you, mate_in| Puzzle { title: String::new(), f: worked_example(), you, mate_in };
    assert!(is_sound(&mk(Side::Top, 2)));
    assert!(!is_sound(&mk(Side::Top, 3)));
    assert!(!is_sound(&mk(Side::Top, 1)));
    assert_eq!(mk(Side::Top, 2).plies(), 3);
    assert_eq!(mk(Side::Top, 3).plies(), 5);
}

#[test]
fn the_book_starts_with_the_fork() {
    let book = builtin_puzzles();
    assert_eq!(book[0].title, "⊤ in 2 · the fork");
    assert_eq!(book[0].you, Side::Top);
    assert_eq!(book[0].mate_in, 2);
    assert!(book.len() <= 11);
}

// ------------------------------------------------------------ generator --

#[test]
fn difficulty_levels_are_clamped() {
    assert_eq!(GenParams::difficulty(0).max_glyphs, 26);
    assert_eq!(GenParams::difficulty(1).atoms, 4);
    assert_eq!(GenParams::difficulty(3).ops, [4, 4, 3, 0]);
    assert_eq!(GenParams::difficulty(5).atoms, 8);
    assert_eq!(GenParams::difficulty(200).neg_permille, 90);
}

#[test]
fn share_codes_are_crockford_base32() {
    assert_eq!(share_code(0), "TPL-0000000");
    assert_eq!(share_code(1), "TPL-0000001");
    assert_eq!(share_code(0xDEAD_BEEF), "TPL-3FAVFQF");
    assert_eq!(share_code(u32::MAX), "TPL-3ZZZZZZ");
}

#[test]
fn share_codes_parse_leniently() {
    assert_eq!(parse_share_code("  tpl-3favfqf \n"), Some(0xDEAD_BEEF));
    assert_eq!(parse_share_code("3FAVFQF"), Some(0xDEAD_BEEF));
    assert_eq!(parse_share_code("TPL-000000I"), Some(1));
    assert_eq!(parse_share_code("000000l"), Some(1));
    // 4 · 2^30 = 2^32 does not fit a seed.
    assert_eq!(parse_share_code("TPL-4000000"), None);
    assert_eq!(parse_share_code("TPL-000000U"), None);
    assert_eq!(parse_share_code("TPL-00000000"), None);
    assert_eq!(parse_share_code(""), None);
}

#[test]
fn dates_hash_to_gauntlet_seeds() {
    assert_eq!(hash_str(""), 0xCBF2_9CE4_8422_2325);
    assert_eq!(hash_str("2026-07-03"), 0xABD1_7CE7_3A79_238F);
    assert_eq!(gauntlet_seed("2026-07-03"), 1_256_209_877);
}

// ------------------------------------------------------------------ rng --

#[test]
fn splitmix_sequence_is_fixed() {
    let mut r = Rng::new(42);
    assert_eq!(r.next_u64(), 13_679_457_532_755_275_413);
    assert_eq!(r.next_u64(), 2_949_826_092_126_892_291);
    assert_eq!(r.next_u64(), 5_139_283_748_462_763_858);
}

#[test]
fn sampling_helpers_draw_fixed_values() {
    let mut r = Rng::new(7);
    let got: Vec<u64> = (0..10).map(|_| r.below(5)).collect();
    assert_eq!(got, vec![2, 4, 1, 3, 4, 0, 3, 2, 0, 0]);
    let mut r = Rng::new(1);
    let got: Vec<bool> = (0..5).map(|_| r.chance(500)).collect();
    assert_eq!(got, vec![true, false, false, true, false]);
    let mut r = Rng::new(3);
    let got: Vec<usize> = (0..6).map(|_| r.pick_weighted(&[0, 5, 0, 1])).collect();
    assert_eq!(got, vec![1, 1, 1, 3, 1, 1]);
    let mut r = Rng::new(7);
    assert_eq!(*r.pick(&[10, 20, 30, 40, 50]), 30);
}

#[test]
fn shuffle_permutes_in_place() {
    let mut r = Rng::new(5);
    let mut items: Vec<u32> = (0..8).collect();
    r.shuffle(&mut items);
    assert_eq!(items, vec![0, 7, 3, 1, 4, 6, 5, 2]);
    let mut one = [9u8];
    r.shuffle(&mut one);
    assert_eq!(one, [9]);
}

// --------------------------------------------------------------- online --

fn sample_match() -> MatchState {
    MatchState {
        seed: 0x0102_0304_0506_0708,
        level: 2,
        events: vec![Event::PickSide(Side::Top), Event::PickOrder(Side::Bot), Event::Assign(Move::new(3, true))],
    }
}

#[test]
fn the_wire_format_is_fixed() {
    let m = sample_match();
    let mut want = b"TPLM".to_vec();
    want.push(1);
    want.extend_from_slice(&[8, 7, 6, 5, 4, 3, 2, 1]);
    want.extend_from_slice(&[2, 3, 0, 0, 1, 1, 2, 3, 1]);
    assert_eq!(m.encode(), want);
    assert_eq!(m.p1_side(), Some(Side::Top));
    assert_eq!(m.first(), Some(Side::Bot));
    assert_eq!(m.assigns(), vec![Move::new(3, true)]);
}

#[test]
fn malformed_blobs_are_rejected() {
    let good = MatchState::new(11, 3);
    let blob = good.encode();
    assert_eq!(MatchState::decode(&blob), Some(good));
    let mut bad = blob.clone();
    bad[4] = 2; // version
    assert_eq!(MatchState::decode(&bad), None);
    let mut bad = blob.clone();
    bad[13] = 0; // level
    assert_eq!(MatchState::decode(&bad), None);
    let mut bad = blob.clone();
    bad.push(0); // trailing byte
    assert_eq!(MatchState::decode(&bad), None);
    let mut bad = blob.clone();
    bad[14] = 1; // one event, missing
    assert_eq!(MatchState::decode(&bad), None);
    bad.extend_from_slice(&[0, 2]); // side byte out of range
    assert_eq!(MatchState::decode(&bad), None);
}

#[test]
fn levels_are_clamped_and_order_is_checked() {
    assert_eq!(MatchState::new(1, 0).level, 1);
    assert_eq!(MatchState::new(1, 9).level, 5);
    let m = MatchState { seed: 1, level: 2, events: vec![Event::PickOrder(Side::Top)] };
    assert!(!m.valid());
    let m = MatchState { seed: 1, level: 2, events: vec![Event::PickSide(Side::Top), Event::PickSide(Side::Bot)] };
    assert!(!m.valid());
    assert!(MatchState::new(1, 2).valid());
}

#[test]
fn a_finished_match_reports_its_winner() {
    let mut st = MatchState::new(99, 2);
    st.events.push(Event::PickSide(Side::Top));
    st.events.push(Event::PickOrder(Side::Top));
    // Play best moves to the end, alternating sides.
    let mut s = Solver::new();
    let mut guard = 0;
    while let Some((board, None)) = st.board() {
        let mover = st.to_move().unwrap();
        let mv = s.best_moves(&board, mover)[0];
        st.events.push(Event::Assign(mv));
        guard += 1;
        assert!(guard < 64);
    }
    let (end, w) = st.board().unwrap();
    assert_eq!(w, winner(&end));
    assert_eq!(st.next_actor(), Some(Actor::Over(w.unwrap())));
    assert!(st.valid());
    // Any move after the end is illegal.
    st.events.push(Event::Assign(Move::new(0, true)));
    assert_eq!(st.board(), None);
    assert!(!st.valid());
}

// ----------------------------------------------------------------- save --

#[test]
fn save_blob_layout_is_fixed() {
    let s = SaveData { solved: 0x0102_0304, strict: false, level: 3 };
    assert_eq!(s.to_bytes(), b"TPL1\x04\x03\x02\x01\x00\x03\x00\x00".to_vec());
    assert_eq!(SaveData::default(), SaveData { solved: 0, strict: false, level: 2 });
}

#[test]
fn save_levels_are_clamped_on_load() {
    let mut b = SaveData { solved: 5, strict: true, level: 3 }.to_bytes();
    b[9] = 0;
    assert_eq!(SaveData::from_bytes(&b).unwrap().level, 1);
    b[9] = 9;
    assert_eq!(SaveData::from_bytes(&b).unwrap().level, 5);
    b[8] = 7;
    assert!(SaveData::from_bytes(&b).unwrap().strict);
    b.push(42); // longer blobs are fine
    assert_eq!(SaveData::from_bytes(&b).unwrap().solved, 5);
    assert_eq!(SaveData::from_bytes(&b[..9]), None);
    assert_eq!(SaveData::from_bytes(b"TPL2\x00\x00\x00\x00\x00\x01"), None);
}

#[test]
fn an_accepted_blob_is_the_encoding_of_its_match() {
    let m = sample_match();
    let blob = m.encode();
    let back = MatchState::decode(&blob).expect("a legal log decodes");
    assert_eq!(back.encode(), blob);
}

fn stacks_negations(f: &F) -> bool {
    match f {
        F::Not(x) => matches!(**x, F::Not(_)) || stacks_negations(x),
        F::Bin(_, l, r) => stacks_negations(l) || stacks_negations(r),
        _ => false,
    }
}

#[test]
fn dealt_boards_never_stack_negations() {
    for lvl in 3..=5 {
        let p = GenParams::difficulty(lvl);
        let mut rng = Rng::new(4242 + lvl as u64);
        for _ in 0..6 {
            let d = deal(&mut rng, &p, DealKind::Any);
            assert!(!stacks_negations(&d.f), "{}", pretty(&d.f));
        }
    }
}
