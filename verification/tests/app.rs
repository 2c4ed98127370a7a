use topple::app::App;
use topple::input::Button;
use topple::save::SaveData;

fn boot() -> App {
    App::new(0xBEEF, "2026-07-03")
}

fn press(app: &mut App, b: Button) {
    app.on_press(b);
    app.on_release(b);
    app.tick(16);
}

/// Drive the app long enough for animations and the Adversary to settle.
fn settle(app: &mut App, ms: u32) {
    let mut left = ms;
    while left > 0 {
        app.tick(50);
        left = left.saturating_sub(50);
    }
}

#[test]
fn rules_screen_opens_and_returns() {
    let mut app = boot();
    for _ in 0..4 {
        press(&mut app, Button::Down);
    }
    press(&mut app, Button::A); // rules
    assert_eq!(app.screen_name(), "rules");
    press(&mut app, Button::Start); // back
    assert_eq!(app.screen_name(), "title");
}

#[test]
fn full_duel_round_plays_to_a_win() {
    let mut app = boot();
    press(&mut app, Button::A); // duel
    press(&mut app, Button::A); // difficulty select (default)
    // Pie rule: P1 picks ⊤, P2 lets P1 go first.
    press(&mut app, Button::X);
    press(&mut app, Button::A);
    // Now in play. Assign every atom to ⊤ until the board collapses.
    for _ in 0..64 {
        press(&mut app, Button::X); // assign (or fast-forward anim)
        settle(&mut app, 8000);
    }
    // Round must have ended by now (menus accept A).
    press(&mut app, Button::A);
}

#[test]
fn adversary_round_ai_moves_and_finishes() {
    let mut app = boot();
    press(&mut app, Button::Down);
    press(&mut app, Button::A); // adversary
    press(&mut app, Button::A); // level
    press(&mut app, Button::X); // pick ⊤
    press(&mut app, Button::A); // notice: continue
    // Play out: keep assigning ⊥ as the human whenever it's our turn;
    // let the AI think between.
    for _ in 0..64 {
        settle(&mut app, 10_000);
        press(&mut app, Button::B);
    }
    press(&mut app, Button::A);
}

#[test]
fn puzzle_solves_with_the_book_move() {
    let mut app = boot();
    // Navigate: down x2 to puzzles.
    press(&mut app, Button::Down);
    press(&mut app, Button::Down);
    press(&mut app, Button::A);
    press(&mut app, Button::A); // first puzzle: the worked example
    // Board: (p ⇒ q) ∧ (p ∨ r) ∧ (r ⇒ q); cursor starts on p.
    // Move to q (second occurrence in reading order) and set ⊤.
    press(&mut app, Button::Right);
    press(&mut app, Button::X); // q ≔ ⊤
    settle(&mut app, 20_000); // cascade + adversary reply
    // Adversary deletes a prong; we take the other. The remaining board
    // is a single atom (p or r) — either occurrence, assign ⊤.
    press(&mut app, Button::X);
    settle(&mut app, 20_000);
    // Should be solved: save blob records it.
    let blob = app.take_save().expect("puzzle solve must dirty the save");
    let data = SaveData::from_bytes(&blob).unwrap();
    assert!(data.solved & 1 != 0, "puzzle 0 not marked solved");
}

#[test]
fn full_gauntlet_reaches_the_summary() {
    // Drive all five rounds with blind button-mashing: X picks a side or
    // assigns ⊤, A confirms menus, B assigns ⊥. The mode flow must pass
    // through the summary and land back on the title.
    let mut app = boot();
    for b in [Button::Down, Button::Down, Button::Down] {
        press(&mut app, b);
    }
    press(&mut app, Button::A); // gauntlet menu
    press(&mut app, Button::A); // play today's
    let mut seen_summary = false;
    'outer: for _ in 0..400 {
        for b in [Button::X, Button::A, Button::B] {
            press(&mut app, b);
            settle(&mut app, 6000);
            if app.screen_name() == "gauntlet-summary" {
                seen_summary = true;
                break 'outer;
            }
        }
    }
    assert!(seen_summary, "never reached the gauntlet summary");
    press(&mut app, Button::A);
    assert_eq!(app.screen_name(), "title");
}

#[test]
fn adversary_tempo_round_flow() {
    // Round 2 of an adversary match is the pick-the-tempo round:
    // notice → pick-order → play. Win or lose round 1 first.
    let mut app = boot();
    press(&mut app, Button::Down);
    press(&mut app, Button::A); // adversary
    press(&mut app, Button::A); // level
    assert_eq!(app.screen_name(), "pick-side");
    press(&mut app, Button::X); // take ⊤
    assert_eq!(app.screen_name(), "notice");
    press(&mut app, Button::A); // continue → play
    assert_eq!(app.screen_name(), "play");
    // Mash until round 1 ends and we advance into round 2.
    for _ in 0..100 {
        if app.screen_name() == "round-over" {
            break;
        }
        press(&mut app, Button::B);
        settle(&mut app, 6000);
    }
    assert_eq!(app.screen_name(), "round-over");
    press(&mut app, Button::A); // next round
    // Even round: the Adversary announces its side, we pick the order.
    assert_eq!(app.screen_name(), "notice");
    press(&mut app, Button::A);
    assert_eq!(app.screen_name(), "pick-order");
    press(&mut app, Button::A);
    assert_eq!(app.screen_name(), "play");
}

#[test]
fn gauntlet_menu_shows_todays_code() {
    let mut app = boot();
    press(&mut app, Button::Down);
    press(&mut app, Button::Down);
    press(&mut app, Button::Down);
    press(&mut app, Button::A); // gauntlet menu
    assert_eq!(app.screen_name(), "gauntlet-menu");
    press(&mut app, Button::B); // back out without dealing
    assert_eq!(app.screen_name(), "title");
}

#[test]
fn strict_mode_toggles_and_saves() {
    let mut app = boot();
    for _ in 0..5 {
        press(&mut app, Button::Down);
    }
    press(&mut app, Button::A); // toggle strict
    let blob = app.take_save().expect("toggle must dirty save");
    let data = SaveData::from_bytes(&blob).unwrap();
    assert!(data.strict);
}

#[test]
fn code_entry_starts_from_todays_code_and_plays_it() {
    let mut app = boot();
    for _ in 0..3 {
        press(&mut app, Button::Down);
    }
    press(&mut app, Button::A); // gauntlet menu
    press(&mut app, Button::Down); // "enter a code"
    press(&mut app, Button::A);
    assert_eq!(app.screen_name(), "code-entry");
    press(&mut app, Button::B);
    assert_eq!(app.screen_name(), "gauntlet-menu");
    press(&mut app, Button::A);
    assert_eq!(app.screen_name(), "code-entry");
    press(&mut app, Button::A); // today's code is a valid code
    assert!(matches!(app.screen_name(), "pick-side" | "notice"));
}

#[test]
fn quitting_from_the_title_is_remembered() {
    let mut app = boot();
    assert!(!app.wants_exit());
    press(&mut app, Button::Up); // wraps to "quit"
    press(&mut app, Button::A);
    assert!(app.wants_exit());
    assert_eq!(app.screen_name(), "title");
}

#[test]
fn a_loaded_save_sets_the_adversary_level() {
    let mut app = boot();
    app.load_save(Some(&SaveData { solved: 3, strict: false, level: 4 }.to_bytes()));
    app.load_save(Some(b"garbage"));
    app.load_save(None);
    assert_eq!(app.save.level, 4);
    assert_eq!(app.save.solved, 3);
    assert!(app.take_save().is_none());
    press(&mut app, Button::Down);
    press(&mut app, Button::A); // adversary: difficulty menu opens on the saved level
    assert_eq!(app.screen_name(), "difficulty");
    press(&mut app, Button::A); // confirm level 4
    assert_eq!(app.screen_name(), "pick-side");
    let blob = app.take_save().expect("starting a match stores its level");
    assert_eq!(SaveData::from_bytes(&blob).unwrap().level, 4);
}

#[test]
fn a_new_app_fits_every_press_and_tick() {
    let app = boot();
    assert!(app.fits_press());
    assert!(app.fits_tick(0));
    assert!(app.fits_tick(u32::MAX));
}

#[test]
fn navigation_leaves_the_save_alone() {
    let mut app = boot();
    for _ in 0..4 {
        press(&mut app, Button::Down);
    }
    press(&mut app, Button::Up);
    assert_eq!(app.save, SaveData::default());
    assert!(app.take_save().is_none());
    assert!(!app.wants_exit());
}

#[test]
fn a_held_direction_repeats_as_presses() {
    let mut app = boot();
    app.on_press(Button::Down);
    assert_eq!(app.page().sel, Some(1));
    // Held for 1000 ms: the first repeat after 380 ms, then one per 120 ms,
    // six in all, each a press of Down on the seven-item title menu.
    app.tick(1000);
    assert_eq!(app.page().sel, Some(0));
    app.on_release(Button::Down);
    app.tick(1000);
    assert_eq!(app.page().sel, Some(0));
    assert_eq!(app.save, SaveData::default());
}

#[test]
fn the_rules_card_returns_where_it_was_opened() {
    let mut app = boot();
    for _ in 0..4 {
        press(&mut app, Button::Down);
    }
    press(&mut app, Button::A);
    assert_eq!(app.screen_name(), "rules");
    press(&mut app, Button::A);
    assert_eq!(app.screen_name(), "title");
    assert_eq!(app.page().sel, Some(4));
    // A duel into play, then the rules from the pause menu.
    for _ in 0..4 {
        press(&mut app, Button::Up);
    }
    press(&mut app, Button::A); // duel level menu
    press(&mut app, Button::A); // side pick
    assert_eq!(app.screen_name(), "pick-side");
    press(&mut app, Button::X);
    assert_eq!(app.screen_name(), "pick-order");
    press(&mut app, Button::A);
    assert_eq!(app.screen_name(), "play");
    press(&mut app, Button::Start);
    assert_eq!(app.screen_name(), "pause");
    press(&mut app, Button::Down);
    press(&mut app, Button::A);
    assert_eq!(app.screen_name(), "rules");
    press(&mut app, Button::B);
    assert_eq!(app.screen_name(), "pause");
    assert_eq!(app.page().sel, Some(0));
}

#[test]
fn backing_out_of_the_level_menu_highlights_its_mode() {
    let mut app = boot();
    press(&mut app, Button::A);
    assert_eq!(app.screen_name(), "difficulty");
    press(&mut app, Button::B);
    assert_eq!(app.page().sel, Some(0));
    press(&mut app, Button::Down);
    press(&mut app, Button::A);
    assert_eq!(app.screen_name(), "difficulty");
    press(&mut app, Button::B);
    assert_eq!(app.screen_name(), "title");
    assert_eq!(app.page().sel, Some(1));
}

#[test]
fn leaving_the_proof_returns_to_its_end_menu_item() {
    let mut app = boot();
    press(&mut app, Button::A);
    press(&mut app, Button::A);
    press(&mut app, Button::X);
    press(&mut app, Button::A);
    for _ in 0..64 {
        if app.screen_name() != "play" {
            break;
        }
        press(&mut app, Button::X);
        settle(&mut app, 8000);
    }
    assert_eq!(app.screen_name(), "round-over");
    press(&mut app, Button::Down);
    press(&mut app, Button::A);
    assert_eq!(app.screen_name(), "proof");
    press(&mut app, Button::B);
    assert_eq!(app.screen_name(), "round-over");
    assert_eq!(app.page().sel, Some(1));
}
