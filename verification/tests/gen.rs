use topple::formula::{glyph_count, pretty};
use topple::game::{legal_moves, Side};
use topple::gen::{
    deal, gauntlet, gauntlet_seed, parse_share_code, share_code, DealKind, GenParams,
    GAUNTLET_SIZE,
};
use topple::rng::Rng;
use topple::solve::Solver;

#[test]
fn generator_is_deterministic() {
    let p = GenParams::difficulty(3);
    let a: Vec<String> = {
        let mut rng = Rng::new(99);
        (0..5).map(|_| pretty(&deal(&mut rng, &p, DealKind::Any).f)).collect()
    };
    let b: Vec<String> = {
        let mut rng = Rng::new(99);
        (0..5).map(|_| pretty(&deal(&mut rng, &p, DealKind::Any).f)).collect()
    };
    assert_eq!(a, b);
}

#[test]
fn deals_respect_the_legibility_budget() {
    for lvl in 1..=5 {
        let p = GenParams::difficulty(lvl);
        let mut rng = Rng::new(lvl as u64 * 17);
        for _ in 0..10 {
            let d = deal(&mut rng, &p, DealKind::Any);
            assert!(glyph_count(&d.f) <= p.max_glyphs);
            assert!(d.f.atoms().len() <= 8);
            assert!(d.plies >= 2, "dead board dealt: {}", pretty(&d.f));
        }
    }
}

#[test]
fn side_dominant_deals_are_dominant_but_blunderable() {
    // The pick-a-side pie-rule rounds depend on this contract at every
    // difficulty: a dominant side exists, the game lasts, and the
    // dominant side can throw it away.
    for lvl in 1..=5 {
        let p = GenParams::difficulty(lvl);
        let mut rng = Rng::new(1234 + lvl as u64);
        for _ in 0..4 {
            let d = deal(&mut rng, &p, DealKind::SideDominant);
            let w = d
                .side_dominant()
                .unwrap_or_else(|| panic!("lv{lvl}: not dominant: {}", pretty(&d.f)));
            let mut s = Solver::new();
            assert_eq!(s.solve(&d.f, Side::Top).winner, w);
            assert_eq!(s.solve(&d.f, Side::Bot).winner, w);
            assert!(d.plies >= 3, "lv{lvl}: too short: {}", pretty(&d.f));
            // Winning side moving first must have at least one losing move.
            let total = legal_moves(&d.f).len();
            assert!(
                s.winning_moves(&d.f, w).len() < total,
                "lv{lvl}: unloseable: {}",
                pretty(&d.f)
            );
        }
    }
}

#[test]
fn tempo_sensitive_deals_flip_on_order() {
    let p = GenParams::difficulty(2);
    let mut rng = Rng::new(555);
    for _ in 0..8 {
        let d = deal(&mut rng, &p, DealKind::TempoSensitive);
        assert_ne!(d.if_top_first, d.if_bot_first);
    }
}

#[test]
fn gauntlet_is_stable_for_a_date() {
    let seed = gauntlet_seed("2026-07-03");
    let a = gauntlet(seed);
    let b = gauntlet(seed);
    assert_eq!(a.len(), GAUNTLET_SIZE);
    for (x, y) in a.iter().zip(&b) {
        assert_eq!(x.f, y.f);
    }
    // Different date, different formulas (with overwhelming probability).
    let other = gauntlet(gauntlet_seed("2026-07-04"));
    assert!(a.iter().zip(&other).any(|(x, y)| x.f != y.f));
}

#[test]
fn share_codes_round_trip() {
    for seed in [0u32, 1, 0xDEAD_BEEF, u32::MAX, 0x7099_1e5a] {
        let code = share_code(seed);
        assert_eq!(parse_share_code(&code), Some(seed), "{code}");
    }
    assert_eq!(parse_share_code("TPL-000000O"), Some(0)); // Crockford O→0
    assert_eq!(parse_share_code("garbage"), None);
}

#[test]
fn gauntlet_deals_fit_their_level_and_are_tense() {
    let deals = gauntlet(gauntlet_seed("2026-07-03"));
    for (i, d) in deals.iter().enumerate() {
        let level = (i + 1) as u8;
        assert!(glyph_count(&d.f) <= GenParams::difficulty(level).max_glyphs, "deal {i} over budget");
        assert!(d.plies >= 3, "deal {i} is not tense");
        if level % 2 == 0 {
            assert_ne!(d.if_top_first, d.if_bot_first, "deal {i}: the order must matter");
        } else {
            assert!(d.side_dominant().is_some(), "deal {i}: one side must win either way");
        }
    }
}

#[test]
fn generated_formulas_use_every_atom_and_no_negation_at_zero_rate() {
    let params = GenParams { atoms: 5, extra_occ: 2, ops: [3, 3, 2, 1], neg_permille: 0, max_glyphs: 40 };
    let mut rng = Rng::new(31337);
    for _ in 0..20 {
        let f = topple::gen::gen_formula(&mut rng, &params);
        for a in 0..5u8 {
            assert!(f.count_atom(a) > 0);
        }
        assert!(!pretty(&f).contains('¬'));
    }
}

#[test]
fn the_gauntlet_is_five_successive_deals() {
    let seed = gauntlet_seed("2026-07-03");
    let g = gauntlet(seed);
    let mut rng = Rng::new(0x7099_1e00_0000_0000 ^ seed as u64);
    for lvl in 1..=GAUNTLET_SIZE as u8 {
        let kind = if lvl % 2 == 0 { DealKind::TempoSensitive } else { DealKind::SideDominant };
        let d = deal(&mut rng, &GenParams::difficulty(lvl), kind);
        let i = (lvl - 1) as usize;
        assert_eq!(pretty(&d.f), pretty(&g[i].f));
        assert_eq!(d.plies, g[i].plies);
    }
}

#[test]
fn the_fallback_board_shows_seven_glyphs_and_lasts() {
    let f = topple::formula::F::or(
        topple::formula::F::and(topple::formula::F::Atom(0), topple::formula::F::Atom(1)),
        topple::formula::F::Atom(2),
    );
    assert_eq!(glyph_count(&f), 7);
    let d = topple::gen::price(&f);
    assert!(d.plies >= 2);
    assert_eq!(d.plies, 3);
    assert_eq!(d.if_top_first, Side::Top);
    assert_eq!(d.if_bot_first, Side::Bot);
}
