use topple::app::App;
use topple::fb::Color;
use topple::formula::F;
use topple::game::{Move, Side};
use topple::input::Button;
use topple::rng::Rng;
use topple::round::{PlayerKind, Round, RoundCfg};
use topple::theme::{bot, dim, faint, glyph_color, good, side_color, text, top};

fn boot() -> App {
    App::new(0xBEEF, "2026-07-03")
}

fn press(app: &mut App, b: Button) {
    app.on_press(b);
    app.on_release(b);
    app.tick(16);
}

fn settle(app: &mut App, ms: u32) {
    let mut left = ms;
    while left > 0 {
        app.tick(50);
        left = left.saturating_sub(50);
    }
}

fn texts(lines: &[(String, Color)]) -> Vec<&str> {
    lines.iter().map(|(s, _)| s.as_str()).collect()
}

#[test]
fn the_title_page_lists_the_modes() {
    let mut app = boot();
    let p = app.page();
    assert_eq!(p.title, Some(("⊤OPP⊥E".to_string(), text())));
    assert_eq!(p.subtitle, Some(("two players adversarially build a valuation".to_string(), faint())));
    assert_eq!(
        p.items,
        vec!["duel", "adversary", "puzzles", "daily gauntlet", "rules", "strict mode · off", "quit"]
    );
    assert_eq!(p.sel, Some(0));
    assert_eq!(p.hint, "↑↓ choose · A confirm");
    assert!(p.board.is_none() && p.lines.is_empty());
    for _ in 0..5 {
        press(&mut app, Button::Down);
    }
    press(&mut app, Button::A); // strict mode on
    let p = app.page();
    assert_eq!(p.items[5], "strict mode · on");
    assert_eq!(p.sel, Some(5));
}

#[test]
fn the_rules_page_is_the_rules_card() {
    let mut app = boot();
    for _ in 0..4 {
        press(&mut app, Button::Down);
    }
    press(&mut app, Button::A);
    let p = app.page();
    assert_eq!(p.lines.len(), 20);
    assert_eq!(p.lines[0], ("⊤OPP⊥E ─────────────────────────────".to_string(), top()));
    assert_eq!(p.lines[4], ("SETUP  Formula appears. One player".to_string(), text()));
    assert_eq!(p.lines[5].1, dim());
    assert_eq!(p.lines[18], ("WIN    The instant a lone ⊤ or ⊥".to_string(), text()));
    assert_eq!(p.lines[19], ("remains, that side wins. No draws.".to_string(), dim()));
    assert_eq!(p.hint, "START to return");
}

#[test]
fn the_difficulty_page_names_the_mode() {
    let mut app = boot();
    press(&mut app, Button::Down);
    press(&mut app, Button::A); // adversary
    let p = app.page();
    assert_eq!(p.title, Some(("adversary — board size".to_string(), text())));
    assert_eq!(p.items[4], "5 · eight atoms, the full mix");
    assert_eq!(p.sel, Some(1)); // the saved level, 2
}

#[test]
fn the_gauntlet_menu_shows_the_date_and_its_code() {
    let mut app = boot();
    for _ in 0..3 {
        press(&mut app, Button::Down);
    }
    press(&mut app, Button::A);
    let p = app.page();
    assert_eq!(p.subtitle, Some(("2026-07-03 · TPL-15E0FEN".to_string(), dim())));
    assert_eq!(p.items, vec!["play five seeded formulas", "enter a shared code"]);
    press(&mut app, Button::Down);
    press(&mut app, Button::A); // code entry, starting from today's code
    let p = app.page();
    assert_eq!(p.items, vec!["1", "5", "E", "0", "F", "E", "N"]);
    assert_eq!(p.sel, Some(0));
    assert_eq!(p.subtitle, Some(("TPL-".to_string(), faint())));
}

#[test]
fn the_pie_rule_pages_show_the_board() {
    let mut app = boot();
    press(&mut app, Button::A); // duel
    press(&mut app, Button::A); // level
    let p = app.page();
    assert_eq!(p.title, Some(("player 1 — price the formula, pick a side".to_string(), dim())));
    assert!(p.board.is_some());
    assert_eq!(p.items, vec!["X · top", "B · bottom"]);
    press(&mut app, Button::X);
    let q = app.page();
    assert_eq!(q.title, Some(("player 2 — who assigns first?".to_string(), dim())));
    assert_eq!(q.items, vec!["player 1 assigns first", "player 2 assigns first"]);
    assert_eq!(q.board, p.board);
    press(&mut app, Button::A);
    assert_eq!(app.screen_name(), "play");
    let r = app.page();
    assert!(r.title.is_none() && r.items.is_empty() && r.lines.is_empty());
}

#[test]
fn a_solved_puzzle_reads_as_a_proof() {
    let mut app = boot();
    press(&mut app, Button::Down);
    press(&mut app, Button::Down);
    press(&mut app, Button::A); // puzzle list
    let p = app.page();
    assert_eq!(p.items.len(), 9);
    assert_eq!(p.items[0], "  ⊤ in 2 · the fork");
    press(&mut app, Button::A);
    press(&mut app, Button::Right);
    press(&mut app, Button::X); // q ≔ ⊤
    settle(&mut app, 20_000);
    press(&mut app, Button::X);
    settle(&mut app, 20_000);
    assert_eq!(app.screen_name(), "round-over");
    let p = app.page();
    assert_eq!(p.title, Some(("solved in 2".to_string(), good())));
    assert_eq!(p.subtitle, Some(("book line: ⊤ in 2".to_string(), dim())));
    assert_eq!(p.items, vec!["next puzzle", "review the proof", "puzzle list"]);
    press(&mut app, Button::Down);
    press(&mut app, Button::A);
    assert_eq!(app.screen_name(), "proof");
    let p = app.page();
    assert_eq!(p.title, Some(("the proof".to_string(), text())));
    let lines = texts(&p.lines);
    assert_eq!(
        &lines[..7],
        &[
            "      (p ⇒ q) ∧ (p ∨ r) ∧ (r ⇒ q)",
            "",
            "1. ⊤  q ≔ ⊤",
            "      x ⇒ ⊤  =  ⊤      ⊢  ⊤ ∧ (p ∨ r) ∧ (r ⇒ ⊤)",
            "      ⊤ ∧ x  =  x      ⊢  (p ∨ r) ∧ (r ⇒ ⊤)",
            "      x ⇒ ⊤  =  ⊤      ⊢  (p ∨ r) ∧ ⊤",
            "      x ∧ ⊤  =  x      ⊢  p ∨ r",
        ]
    );
    assert_eq!(p.lines[2].1, top());
    assert_eq!(p.lines[3].1, dim());
    assert_eq!(lines[7], "");
    assert!(lines[8].starts_with("2. ⊥  "));
    assert_eq!(p.lines[8].1, bot());
    assert!(lines.iter().any(|l| l.starts_with("3. ⊤  ")));
    assert_eq!(p.hint, "↑↓ scroll · B back");
    // The whole derivation fits one page: scrolling down keeps it in place.
    press(&mut app, Button::Down);
    press(&mut app, Button::Down);
    let q = app.page();
    assert_eq!(q.lines, p.lines);
    press(&mut app, Button::B); // back to the end menu, on "review the proof"
    press(&mut app, Button::Down);
    press(&mut app, Button::A); // puzzle list, now with the check mark
    assert_eq!(app.screen_name(), "puzzle-list");
    let p = app.page();
    assert_eq!(p.items[0], "✓ ⊤ in 2 · the fork");
}

#[test]
fn the_gauntlet_summary_counts_the_wins() {
    let mut app = boot();
    for b in [Button::Down, Button::Down, Button::Down] {
        press(&mut app, b);
    }
    press(&mut app, Button::A);
    press(&mut app, Button::A);
    'outer: for _ in 0..400 {
        for b in [Button::X, Button::A, Button::B] {
            press(&mut app, b);
            settle(&mut app, 6000);
            if app.screen_name() == "gauntlet-summary" {
                break 'outer;
            }
        }
    }
    assert_eq!(app.screen_name(), "gauntlet-summary");
    let p = app.page();
    assert_eq!(p.title, Some(("gauntlet complete".to_string(), text())));
    let lines = texts(&p.lines);
    let marks: Vec<char> = lines[1].chars().filter(|c| *c != ' ').collect();
    assert_eq!(marks.len(), 5);
    assert_eq!(lines[1].chars().count(), 9);
    let wins = marks.iter().filter(|c| **c == '●').count();
    assert_eq!(lines[0], format!("{wins} / 5"));
    assert_eq!(lines[2], "TPL-15E0FEN");
    assert_eq!(p.lines[2].1, top());
    assert_eq!(lines[3], "share the code — same five formulas, same order");
    assert_eq!(p.hint, "A menu");
}

fn fork_round(first: Side, top_player: PlayerKind, bot_player: PlayerKind, preview: bool) -> Round {
    let board = F::or(F::and(F::Atom(0), F::Atom(1)), F::and(F::Atom(2), F::Atom(3)));
    let cfg = RoundCfg { allow_preview: preview, label: String::new(), status: String::new() };
    Round::new(board, first, top_player, bot_player, cfg)
}

#[test]
fn the_round_says_whose_turn_it_is() {
    let r = fork_round(Side::Top, PlayerKind::Human(1), PlayerKind::Human(2), true);
    assert_eq!(r.banner(), ("P1 · ⊤ to move".to_string(), top()));
    assert_eq!(r.help_line(), "◂ ▸ atom   X ⊤   B ⊥   Y peek   A zoom   START menu");
    let r = fork_round(Side::Bot, PlayerKind::Human(1), PlayerKind::Adversary, false);
    assert_eq!(r.banner(), ("Adversary · ⊥ to move".to_string(), bot()));
    assert_eq!(r.help_line(), "the Adversary is reading the board…");
    let r = fork_round(Side::Bot, PlayerKind::Human(2), PlayerKind::Human(1), false);
    assert_eq!(r.help_line(), "◂ ▸ atom   X ⊤   B ⊥   A zoom   START menu");
}

#[test]
fn the_ghost_preview_shows_both_assignments() {
    let mut r = fork_round(Side::Top, PlayerKind::Human(1), PlayerKind::Human(2), true);
    let lines = r.preview_lines(0);
    assert_eq!(texts(&lines), vec!["p ≔ ⊤  ▸  q ∨ (r ∧ s)", "p ≔ ⊥  ▸  r ∧ s"]);
    assert_eq!(lines[0].1, dim());
    let mut rng = Rng::new(3);
    assert!(r.ghost_preview().is_none());
    assert!(r.press(Button::Y, &mut rng));
    assert_eq!(r.ghost_preview().map(|l| texts(&l).iter().map(|s| s.to_string()).collect::<Vec<_>>()),
        Some(vec!["p ≔ ⊤  ▸  q ∨ (r ∧ s)".to_string(), "p ≔ ⊥  ▸  r ∧ s".to_string()]));
    assert!(r.press(Button::Y, &mut rng));
    assert!(r.ghost_preview().is_none());
    // A board one move from collapse previews in the winner's colour.
    let cfg = RoundCfg { allow_preview: true, label: String::new(), status: String::new() };
    let r = Round::new(F::or(F::Atom(0), F::Atom(1)), Side::Top, PlayerKind::Human(1), PlayerKind::Human(2), cfg);
    let lines = r.preview_lines(0);
    assert_eq!(lines[0], ("p ≔ ⊤  ▸  ⊤".to_string(), side_color(Side::Top)));
    assert_eq!(lines[1], ("p ≔ ⊥  ▸  q".to_string(), dim()));
}

#[test]
fn the_round_proof_starts_empty_and_records_each_move() {
    let mut r = fork_round(Side::Top, PlayerKind::Human(1), PlayerKind::Human(2), false);
    assert!(r.proof_lines().is_empty());
    let mut rng = Rng::new(5);
    assert!(r.press(Button::X, &mut rng)); // p ≔ ⊤ (cursor starts on p)
    let lines = r.proof_lines();
    assert_eq!(
        texts(&lines),
        vec![
            "      (p ∧ q) ∨ (r ∧ s)",
            "",
            "1. ⊤  p ≔ ⊤",
            "      ⊤ ∧ x  =  x      ⊢  q ∨ (r ∧ s)",
        ]
    );
    assert_eq!(r.human_moves(), 1);
    let _ = Move::new(0, true);
}

#[test]
fn board_glyphs_have_their_colours() {
    assert_eq!(glyph_color('⊤', None), top());
    assert_eq!(glyph_color('⊥', Some('p')), bot());
    assert_eq!(glyph_color('(', None), faint());
    assert_eq!(glyph_color('⇒', None), dim());
    assert_eq!(glyph_color('p', Some('p')), topple::theme::cursor());
    assert_eq!(glyph_color('q', Some('p')), text());
}

#[test]
fn the_launcher_icon_halves_the_logo_band() {
    let mut fb = topple::fb::Frame::new();
    let c = Color::rgb(10, 20, 30);
    fb.fill_rect(192, 52, 2, 2, c); // one whole 2×2 block: icon pixel (0, 48)
    fb.fill_rect(194, 52, 1, 2, c); // half of the next block: icon pixel (1, 48)
    let icon = fb.icon();
    assert_eq!(icon.len(), 128 * 128 * 4);
    let at = |x: usize, y: usize| -> [u8; 4] {
        let i = (y * 128 + x) * 4;
        [icon[i], icon[i + 1], icon[i + 2], icon[i + 3]]
    };
    assert_eq!(at(0, 48), [10, 20, 30, 255]);
    assert_eq!(at(1, 48), [5, 10, 15, 255]);
    assert_eq!(at(2, 48), [0, 0, 0, 255]);
    assert_eq!(at(0, 0), [0x0E, 0x11, 0x16, 255]);
    assert_eq!(at(127, 127), [0x0E, 0x11, 0x16, 255]);
    assert_eq!(at(64, 79), [0, 0, 0, 255]);
    assert_eq!(at(64, 80), [0x0E, 0x11, 0x16, 255]);
}

#[test]
fn the_round_shows_its_cursor_zoom_and_animation() {
    let mut r = fork_round(Side::Top, PlayerKind::Human(1), PlayerKind::Human(2), false);
    let mut rng = Rng::new(9);
    assert_eq!(r.cursor(), 0);
    assert!(r.zoom().is_none());
    assert!(r.frame().is_none());
    assert!(r.press(Button::Right, &mut rng));
    assert_eq!(r.cursor(), 1);
    assert!(r.press(Button::A, &mut rng)); // zoom into q's conjunct
    assert_eq!(r.zoom(), Some(vec![0]));
    assert!(r.press(Button::A, &mut rng)); // and out again
    assert!(r.zoom().is_none());
    assert!(r.press(Button::X, &mut rng)); // p ≔ ⊤ (the cursor went back to p)
    let f = r.frame().expect("the cascade animates");
    assert_eq!(f.board, F::or(F::and(F::Atom(0), F::Atom(1)), F::and(F::Atom(2), F::Atom(3))));
    assert_eq!(f.toast, Some(("p ≔ ⊤".to_string(), false)));
    assert!(matches!(f.highlight, topple::round::Highlight::AtomAll(0)));
    r.tick(700, &mut rng);
    let f = r.frame().expect("the law beat");
    assert_eq!(f.toast, Some(("⊤ ∧ x  =  x".to_string(), true)));
    assert!(matches!(&f.highlight, topple::round::Highlight::Redex(p) if p == &vec![0]));
    let cfg = r.config();
    assert!(cfg.label.is_empty() && cfg.status.is_empty() && !cfg.allow_preview);
}

#[test]
fn the_front_end_reads_the_round_and_places_its_atoms() {
    let mut app = boot();
    assert!(app.round().is_none());
    press(&mut app, Button::A); // duel
    press(&mut app, Button::A); // level
    press(&mut app, Button::X); // P1 takes ⊤
    press(&mut app, Button::A); // P1 assigns first
    assert_eq!(app.screen_name(), "play");
    let (banner, color) = app.round().expect("a round in play").banner();
    assert_eq!(banner, "P1 · ⊤ to move");
    let cfg = app.round().unwrap().config();
    assert_eq!(cfg.label, "DUEL · ROUND 1");
    assert_eq!(cfg.status, "P1 0 — 0 P2");
    assert!(cfg.allow_preview);
    assert_eq!(color, top());
    let n = app.round().unwrap().proof_lines().len();
    assert_eq!(n, 0);
    // Lay every occurrence on its own line, one under the other.
    let places: Vec<(u32, i32)> = (0..16u32).map(|i| (i, 0)).collect();
    app.place_occurrences(&places);
    assert_eq!(app.round().unwrap().cursor(), 0);
    press(&mut app, Button::Down); // the next line down
    assert_eq!(app.round().unwrap().cursor(), 1);
    press(&mut app, Button::Up);
    assert_eq!(app.round().unwrap().cursor(), 0);
}
