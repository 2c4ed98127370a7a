//! The whole game outside a single round: title, modes, pie-rule setup,
//! pause, proof review. One state machine that eats buttons and
//! milliseconds; drawing its screens is the front end's business.

use crate::calendar::{digits_of, push_decimal};
use crate::fb::Color;
use crate::formula::{push_char, F};
use crate::game::{winner_of, Side};
use crate::gen::{
    b32_char, b32_digit, deal, digit_of, gauntlet, gauntlet_seed, gauntlet_seed_of, lemma_pow32_div,
    gauntlet_of, parse_share_code, parse_share_code_of, pow32, share_code, share_code_of, side_dominant_of, Deal,
    DealKind, GenParams,
};
use crate::input::{held_ms, is_direction, presses, repeat_count, Button, Repeater};
use crate::puzzles::{builtin_book, builtin_puzzles, puzzle_view, Puzzle};
use crate::rng::Rng;
use crate::round::{fresh, lines_view, pressed, proof_lines_of, ticked, PlayerKind, Round, RoundCfg, RoundView};
use crate::theme::{
    bad, bad_shade, dim, dim_shade, faint, faint_shade, good, good_shade, side_color, side_color_of, text as text_color,
    text_shade,
};
use crate::save::{save_bytes_of, save_from_bytes_of, SaveData};
use crate::solve::{solvable, Solver};
use vstd::prelude::*;
use vstd::string::{StrSliceExecFns, StringExecFns};
use vstd::utf8::encode_utf8;

verus! {

/// Items on the title menu.
pub const TITLE_ITEMS: usize = 7;

/// What a notice leads to once dismissed.
#[derive(Clone, Copy, PartialEq, Eq, Structural)]
enum After {
    Play,
    PickOrder,
}

enum Screen {
    Title { sel: usize },
    Rules { from_pause: bool },
    Difficulty { sel: usize, duel: bool },
    PuzzleList { sel: usize },
    GauntletMenu { sel: usize },
    CodeEntry { chars: Vec<usize>, pos: usize },
    PickSide,
    PickOrder { sel: usize },
    Notice { title: String, lines: Vec<String>, next: After },
    Play,
    Pause { sel: usize },
    RoundOver { sel: usize, title: String, win: bool },
    Proof { scroll: i32 },
    GauntletSummary,
}

enum Mode {
    Duel { level: u8, round_no: u32, p1: u32, p2: u32 },
    Adversary { level: u8, round_no: u32, you: u32, adv: u32 },
    Puzzle { index: usize },
    Gauntlet { seed: u32, idx: usize, results: Vec<bool>, deals: Vec<Deal> },
}

/// Pie-rule state between the deal and the first assignment.
struct Pending {
    deal: Deal,
    /// Duel: the side the picking player took. Vs-AI: the human's side.
    picked_side: Option<Side>,
    /// Vs-AI: the Adversary's side (even rounds), or the first mover it chose.
    ai_side: Option<Side>,
}

pub struct App {
    rng: Rng,
    date_iso: String,
    screen: Screen,
    mode: Option<Mode>,
    pending: Option<Pending>,
    round: Option<Round>,
    repeater: Repeater,
    pub save: SaveData,
    save_dirty: bool,
    wants_exit: bool,
    over_timer: u32,
    puzzles: Vec<Puzzle>,
}

/// A board a round can start on.
pub open spec fn playable(f: F) -> bool {
    solvable(f) && !(f is Const)
}

spec fn label_ok(p: PlayerKind) -> bool {
    p matches PlayerKind::Human(n) ==> 1 <= n <= 2
}

/// Which screen shows.
#[derive(Clone, Copy, Debug, PartialEq, Eq, Structural)]
pub enum ScreenKind {
    Title,
    Rules,
    Difficulty,
    PuzzleList,
    GauntletMenu,
    CodeEntry,
    PickSide,
    PickOrder,
    Notice,
    Play,
    Pause,
    RoundOver,
    Proof,
    GauntletSummary,
}

spec fn kind_of(s: Screen) -> ScreenKind {
    match s {
        Screen::Title { .. } => ScreenKind::Title,
        Screen::Rules { .. } => ScreenKind::Rules,
        Screen::Difficulty { .. } => ScreenKind::Difficulty,
        Screen::PuzzleList { .. } => ScreenKind::PuzzleList,
        Screen::GauntletMenu { .. } => ScreenKind::GauntletMenu,
        Screen::CodeEntry { .. } => ScreenKind::CodeEntry,
        Screen::PickSide => ScreenKind::PickSide,
        Screen::PickOrder { .. } => ScreenKind::PickOrder,
        Screen::Notice { .. } => ScreenKind::Notice,
        Screen::Play => ScreenKind::Play,
        Screen::Pause { .. } => ScreenKind::Pause,
        Screen::RoundOver { .. } => ScreenKind::RoundOver,
        Screen::Proof { .. } => ScreenKind::Proof,
        Screen::GauntletSummary => ScreenKind::GauntletSummary,
    }
}

/// The screen's name, as tests and headless front ends see it.
pub open spec fn screen_name_of(k: ScreenKind) -> Seq<char> {
    match k {
        ScreenKind::Title => "title"@,
        ScreenKind::Rules => "rules"@,
        ScreenKind::Difficulty => "difficulty"@,
        ScreenKind::PuzzleList => "puzzle-list"@,
        ScreenKind::GauntletMenu => "gauntlet-menu"@,
        ScreenKind::CodeEntry => "code-entry"@,
        ScreenKind::PickSide => "pick-side"@,
        ScreenKind::PickOrder => "pick-order"@,
        ScreenKind::Notice => "notice"@,
        ScreenKind::Play => "play"@,
        ScreenKind::Pause => "pause"@,
        ScreenKind::RoundOver => "round-over"@,
        ScreenKind::Proof => "proof"@,
        ScreenKind::GauntletSummary => "gauntlet-summary"@,
    }
}

spec fn selection_of(s: Screen) -> Option<usize> {
    match s {
        Screen::Title { sel } => Some(sel),
        Screen::Difficulty { sel, .. } => Some(sel),
        Screen::PuzzleList { sel } => Some(sel),
        Screen::GauntletMenu { sel } => Some(sel),
        Screen::CodeEntry { pos, .. } => Some(pos),
        Screen::PickOrder { sel } => Some(sel),
        Screen::Pause { sel } => Some(sel),
        Screen::RoundOver { sel, .. } => Some(sel),
        _ => None,
    }
}

pub open spec fn confirms(b: Button) -> bool {
    b is A || b is Start
}

/// The screen today's gauntlet with `seed` opens on: the side pick when its
/// first board is side-dominant, else the notice of the Adversary's side.
pub open spec fn gauntlet_opening(seed: u32) -> ScreenKind {
    gauntlet_screen(seed, 0)
}

/// The code the entry's digits spell.
pub open spec fn code_chars(code: Seq<usize>) -> Seq<char> {
    Seq::new(7, |i: int| b32_char(code[i] as nat))
}

/// The screen round `i` of the gauntlet with `seed` opens on: the side pick
/// when its board is side-dominant, else the notice of the Adversary's side.
pub open spec fn gauntlet_screen(seed: u32, i: int) -> ScreenKind {
    if side_dominant_of(gauntlet_of(seed)[i]) is Some {
        ScreenKind::PickSide
    } else {
        ScreenKind::Notice
    }
}

/// The screen the end menu's first item leads to: a duel's next side pick;
/// an Adversary match's next round (a new match once a side has three
/// wins), whose odd rounds open on your side pick and even ones on the notice
/// of its side; the puzzle again, or the next one once solved; the next
/// gauntlet board, or the summary after the fifth; the title otherwise.
pub open spec fn next_round_opening(m: Option<ModeView>) -> ScreenKind {
    match m {
        Some(ModeView::Duel { .. }) => ScreenKind::PickSide,
        Some(ModeView::Adversary { round_no, you, adv, .. }) => if you >= 3 || adv >= 3 || (
        round_no + 1) % 2 == 1 {
            ScreenKind::PickSide
        } else {
            ScreenKind::Notice
        },
        Some(ModeView::Puzzle { .. }) => ScreenKind::Play,
        Some(ModeView::Gauntlet { seed, idx, .. }) => if idx + 1 >= 5 {
            ScreenKind::GauntletSummary
        } else {
            gauntlet_screen(seed, idx + 1)
        },
        None => ScreenKind::Title,
    }
}

/// Where one press leads, screen by screen: menus move their highlight
/// (wrapping) or open what it points at, B backs out, and the pie rule
/// walks from the side pick through the order pick into play.
pub open spec fn screen_step(before: AppView, after: AppView, b: Button) -> bool {
    let s = before.screen;
    let t = after.screen;
    let k = before.selection.unwrap() as int;
    let stays = t == s && after.selection == before.selection;
    if s == ScreenKind::Title {
        if b is Up {
            t == s && after.selection == Some(((k + 6) % 7) as usize)
        } else if b is Down {
            t == s && after.selection == Some(((k + 1) % 7) as usize)
        } else if confirms(b) {
            if k == 0 {
                t == ScreenKind::Difficulty && after.selection == Some(1usize)
            } else if k == 1 {
                t == ScreenKind::Difficulty && after.selection == Some((before.save.level - 1) as usize)
            } else if k == 2 {
                t == ScreenKind::PuzzleList && after.selection == Some(0usize)
            } else if k == 3 {
                t == ScreenKind::GauntletMenu && after.selection == Some(0usize)
            } else if k == 4 {
                t == ScreenKind::Rules
            } else if k == 5 {
                stays && after.save.strict == !before.save.strict && after.save_dirty
            } else {
                stays && after.wants_exit
            }
        } else {
            stays
        }
    } else if s == ScreenKind::Rules {
        if b is A || b is B || b is Start {
            if before.from_pause {
                t == ScreenKind::Pause && after.selection == Some(0usize)
            } else {
                t == ScreenKind::Title && after.selection == Some(4usize)
            }
        } else {
            stays
        }
    } else if s == ScreenKind::Difficulty {
        if b is Up {
            t == s && after.selection == Some(((k + 4) % 5) as usize)
        } else if b is Down {
            t == s && after.selection == Some(((k + 1) % 5) as usize)
        } else if b is B {
            t == ScreenKind::Title && after.selection == Some(
                if before.duel {
                    0usize
                } else {
                    1usize
                },
            )
        } else if confirms(b) {
            t == ScreenKind::PickSide
        } else {
            stays
        }
    } else if s == ScreenKind::PuzzleList {
        let n = before.book_size as int;
        if b is Up {
            t == s && after.selection == Some(((k + n - 1) % n) as usize)
        } else if b is Down {
            t == s && after.selection == Some(((k + 1) % n) as usize)
        } else if b is B {
            t == ScreenKind::Title && after.selection == Some(2usize)
        } else if confirms(b) {
            t == ScreenKind::Play
        } else {
            stays
        }
    } else if s == ScreenKind::GauntletMenu {
        if b is Up || b is Down {
            t == s && after.selection == Some((1 - k) as usize)
        } else if b is B {
            t == ScreenKind::Title && after.selection == Some(3usize)
        } else if confirms(b) {
            if k == 0 {
                t == gauntlet_opening(gauntlet_seed_of(encode_utf8(before.date)))
            } else {
                t == ScreenKind::CodeEntry
            }
        } else {
            stays
        }
    } else if s == ScreenKind::CodeEntry {
        if b is Left {
            t == s && after.selection == Some(((k + 6) % 7) as usize)
        } else if b is Right {
            t == s && after.selection == Some(((k + 1) % 7) as usize)
        } else if b is B {
            t == ScreenKind::GauntletMenu
        } else if confirms(b) {
            match parse_share_code_of(code_chars(before.code)) {
                Some(seed) => t == gauntlet_opening(seed),
                None => stays,
            }
        } else if b is Up {
            stays && after.code == before.code.update(k, ((before.code[k] + 1) % 32) as usize)
        } else if b is Down {
            stays && after.code == before.code.update(k, ((before.code[k] + 31) % 32) as usize)
        } else {
            stays && after.code == before.code
        }
    } else if s == ScreenKind::PickSide {
        if b is X || b is B {
            if before.against_adversary {
                t == ScreenKind::Notice
            } else {
                t == ScreenKind::PickOrder && after.selection == Some(0usize)
            }
        } else {
            stays
        }
    } else if s == ScreenKind::PickOrder {
        if b is Up || b is Down {
            t == s && after.selection == Some((1 - k) as usize)
        } else if confirms(b) || b is X {
            t == ScreenKind::Play
        } else {
            stays
        }
    } else if s == ScreenKind::Notice {
        if confirms(b) || b is X {
            if before.then_play {
                t == ScreenKind::Play
            } else {
                t == ScreenKind::PickOrder && after.selection == Some(0usize)
            }
        } else {
            stays
        }
    } else if s == ScreenKind::Play {
        if b is Start {
            (t == ScreenKind::Pause && after.selection == Some(0usize)) || t == ScreenKind::Play
                || t == ScreenKind::RoundOver
        } else {
            t == ScreenKind::Play || t == ScreenKind::RoundOver
        }
    } else if s == ScreenKind::Pause {
        if b is Up {
            t == s && after.selection == Some(((k + 3) % 4) as usize)
        } else if b is Down {
            t == s && after.selection == Some(((k + 1) % 4) as usize)
        } else if b is B || b is Start {
            t == ScreenKind::Play
        } else if b is A {
            if k == 0 || k == 2 {
                t == ScreenKind::Play
            } else if k == 1 {
                t == ScreenKind::Rules
            } else {
                t == ScreenKind::Title && after.selection == Some(0usize)
            }
        } else {
            stays
        }
    } else if s == ScreenKind::RoundOver {
        if confirms(b) {
            if k == 0 {
                t == next_round_opening(before.mode)
            } else if k == 1 {
                t == ScreenKind::Proof
            } else if before.mode matches Some(ModeView::Puzzle { .. }) {
                t == ScreenKind::PuzzleList && after.selection == Some(0usize)
            } else {
                t == ScreenKind::Title && after.selection == Some(0usize)
            }
        } else if b is Up || b is Down {
            let n: int = if before.mode is Some {
                3
            } else {
                1
            };
            t == s && after.selection == Some(
                (if b is Up {
                    (k + n - 1) % n
                } else {
                    (k + 1) % n
                }) as usize,
            )
        } else {
            stays
        }
    } else if s == ScreenKind::Proof {
        if b is A || b is B || b is Start {
            (t == ScreenKind::RoundOver && after.selection == Some(1usize)) || (t
                == ScreenKind::Title && after.selection == Some(0usize))
        } else {
            t == s
        }
    } else {
        if b is A || b is B || b is Start {
            t == ScreenKind::Title && after.selection == Some(0usize)
        } else {
            stays
        }
    }
}

/// What one press does to the save and the request to quit: the title's
/// strict toggle flips strict mode and marks the save changed, its last item
/// asks to quit, a level confirmed for an Adversary match is stored, the
/// end menu's first item may start a new Adversary match (which stores its
/// level again), and play may end in a solved puzzle; no other press
/// touches either.
pub open spec fn settings_step(before: AppView, after: AppView, b: Button) -> bool {
    let k = before.selection.unwrap() as int;
    let unchanged = after.save == before.save && after.save_dirty == before.save_dirty
        && after.wants_exit == before.wants_exit;
    if before.screen == ScreenKind::Title && confirms(b) && k == 5 {
        after.save == (SaveData { strict: !before.save.strict, ..before.save }) && after.save_dirty
            && after.wants_exit == before.wants_exit
    } else if before.screen == ScreenKind::Title && confirms(b) && k == 6 {
        after.save == before.save && after.save_dirty == before.save_dirty && after.wants_exit
    } else if before.screen == ScreenKind::Difficulty && confirms(b) {
        &&& after.wants_exit == before.wants_exit
        &&& after.save.solved == before.save.solved
        &&& after.save.strict == before.save.strict
        &&& (after.against_adversary ==> after.save.level == k + 1 && after.save_dirty)
        &&& (!after.against_adversary ==> unchanged)
    } else if before.screen == ScreenKind::RoundOver && confirms(b) && k == 0 {
        &&& after.wants_exit == before.wants_exit
        &&& after.save.solved == before.save.solved
        &&& after.save.strict == before.save.strict
    } else if before.screen == ScreenKind::Play {
        after.wants_exit == before.wants_exit && (after.screen != ScreenKind::RoundOver
            ==> unchanged)
    } else {
        unchanged
    }
}

/// On the play screen a press goes to the round, but for START on a live
/// round, which pauses it as it stands.
pub open spec fn play_step(
    before: AppView,
    r0: Option<RoundView>,
    after: AppView,
    r1: Option<RoundView>,
    b: Button,
) -> bool {
    before.screen == ScreenKind::Play ==> match r0 {
        Some(v0) => if b is Start && v0.outcome is None {
            after.screen == ScreenKind::Pause && r1 == r0
        } else {
            &&& r1 matches Some(v1) && pressed(v0, v1, b)
            &&& after.screen == if r1.unwrap().outcome is Some && !r1.unwrap().animating
                && !v0.consumes(b) {
                ScreenKind::RoundOver
            } else {
                ScreenKind::Play
            }
        },
        None => r1 is None,
    }
}

/// The pause menu's restart deals the round afresh from its opening board,
/// with its first mover, players and settings.
pub open spec fn restart_step(
    before: AppView,
    r0: Option<RoundView>,
    after: AppView,
    r1: Option<RoundView>,
    b: Button,
) -> bool {
    before.screen == ScreenKind::Pause && b is A && before.selection == Some(2usize) ==> match r0 {
        Some(v0) => if v0.history.len() > 0 {
            r1 matches Some(v1) && fresh(
                v1,
                v0.history[0].before,
                v0.history[0].mover,
                v0.top_player,
                v0.bot_player,
                v0.allow_preview,
                v0.label,
                v0.status,
            )
        } else {
            r1 == r0
        },
        None => r1 is None,
    }
}

/// Leaving the proof view goes back to the end menu, on its proof item,
/// when there is a decided round, and to the title otherwise.
pub open spec fn proof_step(before: AppView, r0: Option<RoundView>, after: AppView, b: Button) -> bool {
    before.screen == ScreenKind::Proof && (b is A || b is B || b is Start) ==> if r0 matches Some(
        v,
    ) && v.outcome is Some {
        after.screen == ScreenKind::RoundOver && after.selection == Some(1usize)
    } else {
        after.screen == ScreenKind::Title && after.selection == Some(0usize)
    }
}

/// One press, seen from outside: where it leads, what it does to the save,
/// and what it does to the round.
pub open spec fn press_step(
    before: AppView,
    r0: Option<RoundView>,
    after: AppView,
    r1: Option<RoundView>,
    b: Button,
) -> bool {
    &&& screen_step(before, after, b)
    &&& settings_step(before, after, b)
    &&& play_step(before, r0, after, r1, b)
    &&& restart_step(before, r0, after, r1, b)
    &&& proof_step(before, r0, after, b)
    &&& steady(before, after)
}

/// What the clock does once a tick's repeats are handled: on the play screen
/// the round runs on for `dt` milliseconds; a decided round whose last
/// animation has played lingers `dt` more, and once it has lingered 1100 ms
/// the end menu opens; everything else stays as it is. The generator, going
/// from `g0` to `g1`, is drawn from only by the round.
pub open spec fn clock_step(
    before: AppView,
    r0: Option<RoundView>,
    over0: nat,
    g0: u64,
    after: AppView,
    r1: Option<RoundView>,
    over1: nat,
    g1: u64,
    dt: u32,
) -> bool {
    if before.screen == ScreenKind::Play && r0 is Some {
        &&& r1 is Some
        &&& ticked(r0.unwrap(), r1.unwrap(), dt, g0, g1)
        &&& if r1.unwrap().outcome is Some && !r1.unwrap().animating {
            if over0 + dt >= 1100 {
                after.screen == ScreenKind::RoundOver
            } else {
                after == before && over1 == over0 + dt
            }
        } else {
            after == before && over1 == over0
        }
    } else {
        after == before && r1 == r0 && over1 == over0 && g1 == g0
    }
}

/// The app, seen from outside: which screen shows, the save and whether it
/// changed since it was last taken, and whether the player asked to quit.
pub struct AppView {
    pub screen: ScreenKind,
    /// The item the current menu highlights (the cursor's place in the code
    /// entry); `None` on screens without one.
    pub selection: Option<usize>,
    pub save: SaveData,
    pub save_dirty: bool,
    pub wants_exit: bool,
    /// The d-pad direction held down, which repeats while it stays down.
    pub held: Option<Button>,
    /// The match is played against the Adversary (its own matches, the
    /// puzzles, the gauntlet), not between two players.
    pub against_adversary: bool,
    /// Today's date, which seeds today's gauntlet.
    pub date: Seq<char>,
    /// The rules card was opened from the pause menu.
    pub from_pause: bool,
    /// The level menu picks a duel's level, not an Adversary match's.
    pub duel: bool,
    /// The notice leads into play, not to the order pick.
    pub then_play: bool,
    /// The seven digits on the code entry (empty on other screens).
    pub code: Seq<usize>,
    /// The mode of play, if any.
    pub mode: Option<ModeView>,
    /// How many puzzles the book holds.
    pub book_size: nat,
}

impl View for App {
    type V = AppView;

    closed spec fn view(&self) -> AppView {
        AppView {
            screen: kind_of(self.screen),
            selection: selection_of(self.screen),
            save: self.save,
            save_dirty: self.save_dirty,
            wants_exit: self.wants_exit,
            held: match self.repeater@.held {
                Some((h, _)) => Some(h),
                None => None,
            },
            against_adversary: self.vs_ai(),
            date: self.date_iso@,
            from_pause: self.screen matches Screen::Rules { from_pause } && from_pause,
            duel: self.screen matches Screen::Difficulty { duel, .. } && duel,
            then_play: self.screen matches Screen::Notice { next, .. } && next == After::Play,
            code: match self.screen {
                Screen::CodeEntry { chars, .. } => chars@,
                _ => Seq::empty(),
            },
            mode: match self.mode {
                Some(m) => Some(mode_view_of(m)),
                None => None,
            },
            book_size: self.puzzles@.len(),
        }
    }
}

/// Every solved-puzzle bit of `before` is still set in `after`.
pub open spec fn keeps_solved(before: u32, after: u32) -> bool {
    before & after == before
}

impl App {
    spec fn vs_ai(&self) -> bool {
        self.mode matches Some(m) && !(m is Duel)
    }

    spec fn screen_ok(&self) -> bool {
        &&& self.screen_fields_ok()
        &&& (self.mode matches Some(Mode::Gauntlet { idx, .. }) ==> idx < 5
            || self.screen is GauntletSummary)
    }

    spec fn screen_fields_ok(&self) -> bool {
        match self.screen {
            Screen::Title { sel } => sel < TITLE_ITEMS,
            Screen::Difficulty { sel, .. } => sel < 5,
            Screen::PuzzleList { sel } => sel < self.puzzles@.len(),
            Screen::GauntletMenu { sel } => sel <= 1,
            Screen::CodeEntry { chars, pos } => {
                &&& chars@.len() == 7
                &&& pos < 7
                &&& forall|i: int| 0 <= i < 7 ==> #[trigger] chars@[i] < 32
            },
            Screen::PickSide => self.pending is Some,
            Screen::PickOrder { sel } => {
                &&& sel <= 1
                &&& self.pending matches Some(p)
                &&& (self.vs_ai() ==> p.ai_side is Some)
                &&& (!self.vs_ai() ==> p.picked_side is Some)
            },
            Screen::Notice { next, .. } => {
                &&& self.pending matches Some(p)
                &&& p.ai_side is Some
                &&& self.vs_ai()
                &&& (next == After::Play ==> p.picked_side is Some)
            },
            Screen::Pause { sel } => sel < 4,
            Screen::RoundOver { sel, .. } => sel < 3,
            Screen::Proof { scroll } => scroll >= 0,
            _ => true,
        }
    }

    spec fn mode_ok(&self) -> bool {
        match self.mode {
            Some(Mode::Puzzle { index }) => index < self.puzzles@.len(),
            Some(Mode::Gauntlet { deals, idx, seed, .. }) => {
                &&& deals@ == gauntlet_of(seed)
                &&& deals@.len() == 5
                &&& idx <= 5
                &&& forall|i: int| 0 <= i < deals@.len() ==> playable(#[trigger] deals@[i].f)
            },
            Some(Mode::Adversary { level, .. }) => 1 <= level <= 5,
            _ => true,
        }
    }

    /// The app's invariant: the puzzle book is playable, the saved level is
    /// a level, every screen has the state it works on (the pending deal
    /// of the pie rule, its picks), menus point at an item, and the round,
    /// if any, is sound and played by a known player.
    pub closed spec fn wf(&self) -> bool {
        self.wf_but_screen() && self.screen_ok()
    }

    /// The invariant, but for what the current screen needs.
    spec fn wf_but_screen(&self) -> bool {
        &&& 1 <= self.puzzles@.len() <= 11
        &&& forall|i: int| 0 <= i < self.puzzles@.len() ==> playable(#[trigger] self.puzzles@[i].f)
        &&& 1 <= self.save.level <= 5
        &&& (self.pending matches Some(p) ==> playable(p.deal.f))
        &&& self.mode_ok()
        &&& (self.round matches Some(r) ==> r.wf() && label_ok(r@.top_player) && label_ok(
            r@.bot_player,
        ))
        &&& (self.repeater@.held matches Some(h) ==> is_direction(h.0))
    }

    /// The duel's scores can take one more win.
    pub closed spec fn scores_fit(&self) -> bool {
        match self.mode {
            Some(Mode::Duel { p1, p2, .. }) => p1 < u32::MAX && p2 < u32::MAX,
            Some(Mode::Adversary { you, adv, .. }) => you < u32::MAX && adv < u32::MAX,
            _ => true,
        }
    }

    /// The round counters can take one more round.
    pub closed spec fn rounds_fit(&self) -> bool {
        match self.mode {
            Some(Mode::Duel { round_no, .. }) => round_no < u32::MAX,
            Some(Mode::Adversary { round_no, .. }) => round_no < u32::MAX,
            _ => true,
        }
    }

    /// The proof view can scroll `k` more steps down.
    pub closed spec fn scroll_fits(&self, k: nat) -> bool {
        self.screen matches Screen::Proof { scroll } ==> scroll + 3 * k <= i32::MAX
    }

    /// The proof view can take every repeat a held direction fires in `dt`.
    pub closed spec fn repeats_fit(&self, dt: u32) -> bool {
        self.scroll_fits((held_ms(self.repeater@) + dt) as nat)
    }

    /// `dt` more milliseconds fit every running timer.
    pub closed spec fn timers_fit(&self, dt: u32) -> bool {
        &&& held_ms(self.repeater@) + dt <= u32::MAX
        &&& self.over_timer + dt <= u32::MAX
        &&& (self.round matches Some(r) ==> r@.anim_ms + dt <= u32::MAX && r@.ai_ms + dt
            <= u32::MAX)
    }

    /// The generator's state.
    pub closed spec fn rng_state(&self) -> u64 {
        self.rng@
    }

    /// Today's date, which the gauntlet menu shows and seeds today's run from.
    pub closed spec fn date(&self) -> Seq<char> {
        self.date_iso@
    }

    /// The puzzle book, entry by entry.
    pub closed spec fn book(&self) -> Seq<(Seq<char>, F, Side, u32)> {
        self.puzzles@.map_values(|p: Puzzle| puzzle_view(p))
    }

    /// How long a decided round has stayed on screen, in milliseconds.
    pub closed spec fn over_ms(&self) -> nat {
        self.over_timer as nat
    }

    /// The repeats the held direction fires over the next `dt` milliseconds.
    pub closed spec fn repeats_due(&self, dt: u32) -> Seq<Button> {
        match self.repeater@.held {
            Some((b, t)) => presses(b, repeat_count(self.repeater@.fired_once, (t + dt) as nat)),
            None => Seq::empty(),
        }
    }

    /// `self` and `other` differ at most in the held direction's clock.
    pub closed spec fn same_but_clock(&self, other: &App) -> bool {
        &&& self.rng == other.rng
        &&& self.date_iso == other.date_iso
        &&& self.screen == other.screen
        &&& self.mode == other.mode
        &&& self.pending == other.pending
        &&& self.round == other.round
        &&& self.save == other.save
        &&& self.save_dirty == other.save_dirty
        &&& self.wants_exit == other.wants_exit
        &&& self.over_timer == other.over_timer
        &&& self.puzzles == other.puzzles
        &&& self@ == other@
    }

    /// A tick of `dt` from `self` to `after`, through `trail`, the app as it
    /// stands before and after each repeat of the held direction: every repeat
    /// is handled as a press of that direction, then the clock runs.
    pub open spec fn ticked_through(&self, trail: Seq<App>, after: &App, dt: u32) -> bool {
        let reps = self.repeats_due(dt);
        let mid = trail.last();
        &&& trail.len() == reps.len() + 1
        &&& trail[0].same_but_clock(self)
        &&& forall|i: int| 0 <= i < reps.len() ==> #[trigger] trail[i].handled(&trail[i + 1], reps[i])
        &&& forall|i: int|
            0 <= i < reps.len() ==> #[trigger] press_step(
                trail[i]@,
                trail[i].round_view(),
                trail[i + 1]@,
                trail[i + 1].round_view(),
                reps[i],
            )
        &&& clock_step(
            mid@,
            mid.round_view(),
            mid.over_ms(),
            mid.rng_state(),
            after@,
            after.round_view(),
            after.over_ms(),
            after.rng_state(),
            dt,
        )
        &&& (mid@.screen is Play && after@.screen is RoundOver ==> mid.finished(after))
    }

    /// The machine limits a press needs: the scores, the round counters and
    /// the proof view's scroll can each take one more step.
    pub open spec fn press_fits(&self) -> bool {
        self.scores_fit() && self.rounds_fit() && self.scroll_fits(1)
    }

    /// The machine limits a tick of `dt` needs: every timer, and every
    /// repeat a held direction may fire, fits.
    pub open spec fn tick_fits(&self, dt: u32) -> bool {
        self.timers_fit(dt) && self.scores_fit() && self.repeats_fit(dt)
    }

    pub fn new(seed: u64, date_iso: &str) -> (app: App)
        ensures
            app.wf(),
            app.rng_state() == seed,
            app.date() == date_iso@,
            app.book() == builtin_book(),
            app.round_view() is None,
            app.over_ms() == 0,
            app.press_fits(),
            forall|dt: u32| #[trigger] app.tick_fits(dt),
            app@ == (AppView {
                screen: ScreenKind::Title,
                selection: Some(0),
                save: SaveData { solved: 0, strict: false, level: 2 },
                save_dirty: false,
                wants_exit: false,
                held: None,
                against_adversary: false,
                date: date_iso@,
                from_pause: false,
                duel: false,
                then_play: false,
                code: Seq::empty(),
                mode: None,
                book_size: builtin_book().len(),
            }),
    {
        App {
            rng: Rng::new(seed),
            date_iso: String::from_str(date_iso),
            screen: Screen::Title { sel: 0 },
            mode: None,
            pending: None,
            round: None,
            repeater: Repeater::new(),
            save: SaveData::default(),
            save_dirty: false,
            wants_exit: false,
            over_timer: 0,
            puzzles: builtin_puzzles(),
        }
    }

    /// Whether the machine limits a press needs hold.
    pub fn fits_press(&self) -> (b: bool)
        ensures
            b == self.press_fits(),
    {
        let scores = match &self.mode {
            Some(Mode::Duel { p1, p2, .. }) => *p1 < u32::MAX && *p2 < u32::MAX,
            Some(Mode::Adversary { you, adv, .. }) => *you < u32::MAX && *adv < u32::MAX,
            _ => true,
        };
        let rounds = match &self.mode {
            Some(Mode::Duel { round_no, .. }) => *round_no < u32::MAX,
            Some(Mode::Adversary { round_no, .. }) => *round_no < u32::MAX,
            _ => true,
        };
        let scroll = match &self.screen {
            Screen::Proof { scroll } => *scroll <= i32::MAX - 3,
            _ => true,
        };
        scores && rounds && scroll
    }

    /// Whether the machine limits a tick of `dt_ms` needs hold.
    pub fn fits_tick(&self, dt_ms: u32) -> (b: bool)
        ensures
            b == self.tick_fits(dt_ms),
    {
        let held = self.repeater.held_for();
        if held as u64 + dt_ms as u64 > u32::MAX as u64 {
            return false;
        }
        if self.over_timer as u64 + dt_ms as u64 > u32::MAX as u64 {
            return false;
        }
        if let Some(r) = &self.round {
            let (anim_ms, ai_ms) = r.timers();
            if anim_ms as u64 + dt_ms as u64 > u32::MAX as u64 || ai_ms as u64 + dt_ms as u64
                > u32::MAX as u64 {
                return false;
            }
        }
        let scores = match &self.mode {
            Some(Mode::Duel { p1, p2, .. }) => *p1 < u32::MAX && *p2 < u32::MAX,
            Some(Mode::Adversary { you, adv, .. }) => *you < u32::MAX && *adv < u32::MAX,
            _ => true,
        };
        let steps: u64 = held as u64 + dt_ms as u64;
        let scroll = match &self.screen {
            Screen::Proof { scroll } => (*scroll as i64) + 3 * (steps as i64) <= i32::MAX as i64,
            _ => true,
        };
        scores && scroll
    }

    pub fn wants_exit(&self) -> (b: bool)
        ensures
            b == self@.wants_exit,
    {
        self.wants_exit
    }

    /// Which screen is showing — for tests and headless front ends.
    pub fn screen_name(&self) -> (s: &'static str)
        ensures
            s@ == screen_name_of(self@.screen),
    {
        match self.screen {
            Screen::Title { .. } => "title",
            Screen::Rules { .. } => "rules",
            Screen::Difficulty { .. } => "difficulty",
            Screen::PuzzleList { .. } => "puzzle-list",
            Screen::GauntletMenu { .. } => "gauntlet-menu",
            Screen::CodeEntry { .. } => "code-entry",
            Screen::PickSide => "pick-side",
            Screen::PickOrder { .. } => "pick-order",
            Screen::Notice { .. } => "notice",
            Screen::Play => "play",
            Screen::Pause { .. } => "pause",
            Screen::RoundOver { .. } => "round-over",
            Screen::Proof { .. } => "proof",
            Screen::GauntletSummary => "gauntlet-summary",
        }
    }

    /// Adopt a stored save blob, if it reads as one.
    pub fn load_save(&mut self, blob: Option<&[u8]>)
        requires
            old(self).wf(),
        ensures
            final(self).wf(),
            final(self)@ == (AppView {
                save: match blob {
                    Some(b) => match save_from_bytes_of(b@) {
                        Some(s) => s,
                        None => old(self)@.save,
                    },
                    None => old(self)@.save,
                },
                ..old(self)@
            }),
    {
        if let Some(b) = blob {
            if let Some(s) = SaveData::from_bytes(b) {
                self.save = s;
            }
        }
    }

    /// A save blob when something changed since the last call.
    pub fn take_save(&mut self) -> (r: Option<Vec<u8>>)
        requires
            old(self).wf(),
        ensures
            final(self).wf(),
            match r {
                Some(v) => old(self)@.save_dirty && v@ == save_bytes_of(old(self)@.save),
                None => !old(self)@.save_dirty,
            },
            final(self)@ == (AppView { save_dirty: false, ..old(self)@ }),
    {
        if self.save_dirty {
            self.save_dirty = false;
            Some(self.save.to_bytes())
        } else {
            None
        }
    }
}

fn text(s: &str) -> (r: String)
    ensures
        r@ == s@,
{
    String::from_str(s)
}

fn push_text(s: &mut String, t: &str)
    ensures
        final(s)@ == old(s)@ + t@,
{
    s.append(t);
}

/// "The Adversary takes ⊤." / "You hold ⊥. Choose the tempo."
fn tempo_lines(ai: Side) -> (v: Vec<String>)
    ensures
        strings_view(v@) == seq![
            "The Adversary takes "@ + seq![ai.glyph_of(), '.'],
            "You hold "@ + seq![ai.other_of().glyph_of()] + ". Choose the tempo."@,
        ],
{
    let mut a = text("The Adversary takes ");
    push_char(&mut a, ai.glyph());
    push_char(&mut a, '.');
    let mut b = text("You hold ");
    push_char(&mut b, ai.other().glyph());
    push_text(&mut b, ". Choose the tempo.");
    assert(a@ =~= "The Adversary takes "@ + seq![ai.glyph_of(), '.']);
    assert(b@ =~= "You hold "@ + seq![ai.other_of().glyph_of()] + ". Choose the tempo."@);
    let mut v: Vec<String> = Vec::new();
    v.push(a);
    v.push(b);
    assert(strings_view(v@) =~= seq![a@, b@]);
    v
}

/// The pie-rule reply that wins for `ai_side` if some order does.
pub open spec fn pie_reply_of(f: F, ai_side: Side) -> Side {
    let top = crate::solve::value_of(f, Side::Top);
    let bot = crate::solve::value_of(f, Side::Bot);
    if top.0 == ai_side {
        Side::Top
    } else if bot.0 == ai_side {
        Side::Bot
    } else if top.1 >= bot.1 {
        Side::Top
    } else {
        Side::Bot
    }
}

/// Perfect pie-rule reply: pick the first mover that wins for `ai_side`,
/// or failing that the order that drags longest.
pub fn ai_pick_order(f: &F, ai_side: Side) -> (first: Side)
    requires
        solvable(*f),
    ensures
        first == pie_reply_of(*f, ai_side),
{
    let mut s = Solver::new();
    let top_first = s.solve(f, Side::Top);
    let bot_first = s.solve(f, Side::Bot);
    if top_first.winner == ai_side {
        Side::Top
    } else if bot_first.winner == ai_side {
        Side::Bot
    } else if top_first.plies >= bot_first.plies {
        Side::Top
    } else {
        Side::Bot
    }
}

/// The Adversary's side in round `idx` of the gauntlet with `seed`: fixed
/// by the code, so a shared code is the same challenge.
pub fn gauntlet_ai_side(seed: u32, idx: usize) -> (s: Side)
    requires
        idx <= 1_000_000,
    ensures
        s == (if crate::rng::below_of((seed as u64 * 1009 + idx as u64) as u64, 2).0 == 0 {
            Side::Top
        } else {
            Side::Bot
        }),
{
    let mut r = Rng::new(seed as u64 * 1009 + idx as u64);
    if r.below(2) == 0 {
        Side::Top
    } else {
        Side::Bot
    }
}

/// What every step of the app keeps: solved puzzles stay solved, a request
/// to quit stands, and the saved level stays a level.
pub open spec fn steady(before: AppView, after: AppView) -> bool {
    &&& keeps_solved(before.save.solved, after.save.solved)
    &&& (before.wants_exit ==> after.wants_exit)
}

proof fn lemma_keeps_solved_refl(s: u32)
    ensures
        keeps_solved(s, s),
{
    assert(s & s == s) by (bit_vector);
}

proof fn lemma_set_bit_keeps(s: u32, i: u32)
    requires
        i < 32,
    ensures
        keeps_solved(s, s | (1u32 << i)),
{
    assert(s & (s | (1u32 << i)) == s) by (bit_vector)
        requires
            i < 32,
    ;
}

impl App {
    fn start_duel(&mut self, level: u8)
        requires
            old(self).wf_but_screen(),
        ensures
            final(self).repeater == old(self).repeater,
            final(self).wants_exit == old(self).wants_exit,
            final(self).wf(),
            steady(old(self)@, final(self)@),
            final(self).save == old(self).save,
            final(self).save_dirty == old(self).save_dirty,
            final(self).mode matches Some(Mode::Duel { .. }),
            final(self).round_ms() <= old(self).round_ms(),
            final(self).over_timer <= old(self).over_timer,
            final(self).screen is PickSide,
    {
        self.mode = Some(Mode::Duel { level, round_no: 1, p1: 0, p2: 0 });
        self.next_duel_round();
    }

    fn next_duel_round(&mut self)
        requires
            old(self).wf_but_screen(),
            old(self).mode matches Some(Mode::Duel { .. }),
        ensures
            final(self).repeater == old(self).repeater,
            final(self).wants_exit == old(self).wants_exit,
            final(self).wf(),
            steady(old(self)@, final(self)@),
            final(self).save == old(self).save,
            final(self).save_dirty == old(self).save_dirty,
            final(self).mode == old(self).mode,
            final(self).round_ms() <= old(self).round_ms(),
            final(self).over_timer <= old(self).over_timer,
            final(self).screen is PickSide,
    {
        let level = match &self.mode {
            Some(Mode::Duel { level, .. }) => *level,
            _ => {
                proof {
                    lemma_keeps_solved_refl(self.save.solved);
                }
                return ;
            },
        };
        let params = GenParams::difficulty(level);
        let d = deal(&mut self.rng, &params, DealKind::Any);
        self.pending = Some(Pending { deal: d, picked_side: None, ai_side: None });
        self.screen = Screen::PickSide;
        proof {
            lemma_keeps_solved_refl(self.save.solved);
        }
    }

    fn start_adversary(&mut self, level: u8)
        requires
            old(self).wf_but_screen(),
            1 <= level <= 5,
        ensures
            final(self).repeater == old(self).repeater,
            final(self).wants_exit == old(self).wants_exit,
            final(self).wf(),
            steady(old(self)@, final(self)@),
            final(self).save.solved == old(self).save.solved,
            final(self).save.strict == old(self).save.strict,
            final(self).save.level == level,
            final(self).save_dirty,
            final(self).mode matches Some(Mode::Adversary { .. }),
            final(self).round_ms() <= old(self).round_ms(),
            final(self).over_timer <= old(self).over_timer,
            final(self).screen is PickSide,
    {
        self.save.level = level;
        self.save_dirty = true;
        self.mode = Some(Mode::Adversary { level, round_no: 1, you: 0, adv: 0 });
        self.next_adversary_round();
    }

    fn next_adversary_round(&mut self)
        requires
            old(self).wf_but_screen(),
            old(self).mode matches Some(Mode::Adversary { .. }),
        ensures
            final(self).repeater == old(self).repeater,
            final(self).wants_exit == old(self).wants_exit,
            final(self).wf(),
            steady(old(self)@, final(self)@),
            final(self).save == old(self).save,
            final(self).save_dirty == old(self).save_dirty,
            final(self).mode == old(self).mode,
            final(self).round_ms() <= old(self).round_ms(),
            final(self).over_timer <= old(self).over_timer,
            final(self).screen is PickSide || final(self).screen is Notice,
            old(self).mode matches Some(Mode::Adversary { round_no, .. }) && round_no % 2 == 1
                ==> final(self).screen is PickSide,
            old(self).mode matches Some(Mode::Adversary { round_no, .. }) && round_no % 2 == 0
                ==> final(self).screen is Notice,
    {
        proof {
            lemma_keeps_solved_refl(self.save.solved);
        }
        let (level, round_no) = match &self.mode {
            Some(Mode::Adversary { level, round_no, .. }) => (*level, *round_no),
            _ => {
                return ;
            },
        };
        let params = GenParams::difficulty(level);
        if round_no % 2 == 1 {
            // You price the formula and pick a side; the Adversary replies
            // with the tempo. Correct judgment and correct play win.
            let d = deal(&mut self.rng, &params, DealKind::SideDominant);
            self.pending = Some(Pending { deal: d, picked_side: None, ai_side: None });
            self.screen = Screen::PickSide;
        } else {
            // The Adversary takes a side; you pick who assigns first.
            let d = deal(&mut self.rng, &params, DealKind::TempoSensitive);
            let ai = if self.rng.below(2) == 0 {
                Side::Top
            } else {
                Side::Bot
            };
            self.pending = Some(Pending { deal: d, picked_side: None, ai_side: Some(ai) });
            self.screen = Screen::Notice {
                title: text("the pie rule"),
                lines: tempo_lines(ai),
                next: After::PickOrder,
            };
        }
    }

    fn start_puzzle(&mut self, index: usize)
        requires
            old(self).wf_but_screen(),
            index < old(self).puzzles@.len(),
        ensures
            final(self).repeater == old(self).repeater,
            final(self).wants_exit == old(self).wants_exit,
            final(self).wf(),
            steady(old(self)@, final(self)@),
            final(self).save == old(self).save,
            final(self).save_dirty == old(self).save_dirty,
            final(self).puzzles == old(self).puzzles,
            final(self).round_ms() <= old(self).round_ms(),
            final(self).over_timer <= old(self).over_timer,
            final(self).screen is Play,
    {
        proof {
            lemma_keeps_solved_refl(self.save.solved);
        }
        let you = self.puzzles[index].you;
        let (top, bot) = if you == Side::Top {
            (PlayerKind::Human(1), PlayerKind::Adversary)
        } else {
            (PlayerKind::Adversary, PlayerKind::Human(1))
        };
        let mut label = text("PUZZLE · ");
        push_text(&mut label, self.puzzles[index].title.as_str());
        let mut status = text("you are ");
        push_char(&mut status, you.glyph());
        push_text(&mut status, " · move first");
        let board = self.puzzles[index].f.clone();
        assert(playable(self.puzzles@[index as int].f));
        self.mode = Some(Mode::Puzzle { index });
        self.round = Some(
            Round::new(board, you, top, bot, RoundCfg { allow_preview: false, label, status }),
        );
        self.over_timer = 0;
        self.screen = Screen::Play;
    }

    fn start_gauntlet(&mut self, seed: u32)
        requires
            old(self).wf_but_screen(),
        ensures
            final(self).repeater == old(self).repeater,
            final(self).wants_exit == old(self).wants_exit,
            final(self).wf(),
            steady(old(self)@, final(self)@),
            final(self).save == old(self).save,
            final(self).save_dirty == old(self).save_dirty,
            final(self).round_ms() <= old(self).round_ms(),
            final(self).over_timer <= old(self).over_timer,
            final(self).screen is PickSide || final(self).screen is Notice,
            kind_of(final(self).screen) == gauntlet_opening(seed),
    {
        let deals = gauntlet(seed);
        self.mode = Some(Mode::Gauntlet { seed, idx: 0, results: Vec::new(), deals });
        self.next_gauntlet_round();
    }

    fn next_gauntlet_round(&mut self)
        requires
            old(self).wf_but_screen(),
            old(self).mode matches Some(Mode::Gauntlet { .. }),
        ensures
            final(self).repeater == old(self).repeater,
            final(self).wants_exit == old(self).wants_exit,
            final(self).wf(),
            steady(old(self)@, final(self)@),
            final(self).save == old(self).save,
            final(self).save_dirty == old(self).save_dirty,
            final(self).mode == old(self).mode,
            final(self).round_ms() <= old(self).round_ms(),
            final(self).over_timer <= old(self).over_timer,
            final(self).screen is PickSide || final(self).screen is Notice || final(self).screen is GauntletSummary,
            old(self).mode matches Some(Mode::Gauntlet { idx, .. }) && idx < 5 ==> !(final(self).screen is GauntletSummary),
            match old(self).mode {
                Some(Mode::Gauntlet { idx, deals, .. }) => idx < deals@.len() ==> ((final(self).screen is PickSide) == (side_dominant_of(deals@[idx as int]) is Some)),
                _ => true,
            },
    {
        proof {
            lemma_keeps_solved_refl(self.save.solved);
        }
        let (seed, idx, d) = match &self.mode {
            Some(Mode::Gauntlet { seed, idx, deals, .. }) => {
                if *idx >= deals.len() {
                    self.screen = Screen::GauntletSummary;
                    return ;
                }
                (*seed, *idx, deals[*idx].clone())
            },
            _ => {
                return ;
            },
        };
        if d.side_dominant().is_some() {
            self.pending = Some(Pending { deal: d, picked_side: None, ai_side: None });
            self.screen = Screen::PickSide;
        } else {
            // A deterministic side, so a shared code is the same challenge.
            let ai = gauntlet_ai_side(seed, idx);
            let mut title = text("gauntlet ");
            push_decimal(&mut title, idx as u64 + 1);
            push_text(&mut title, " of 5");
            self.pending = Some(Pending { deal: d, picked_side: None, ai_side: Some(ai) });
            self.screen = Screen::Notice { title, lines: tempo_lines(ai), next: After::PickOrder };
        }
    }

    fn is_vs_ai(&self) -> (b: bool)
        ensures
            b == self.vs_ai(),
    {
        match &self.mode {
            Some(Mode::Duel { .. }) => false,
            Some(_) => true,
            None => false,
        }
    }

    /// The top bar's label: the mode and how far it has come.
    spec fn mode_label_of(&self) -> Seq<char> {
        match self.mode {
            Some(Mode::Duel { round_no, .. }) => "DUEL · ROUND "@ + digits_of(round_no as nat),
            Some(Mode::Adversary { level, round_no, .. }) => "ADVERSARY · LV"@ + digits_of(
                level as nat,
            ) + " · ROUND "@ + digits_of(round_no as nat),
            Some(Mode::Puzzle { index }) => "PUZZLE · "@ + self.puzzles@[index as int].title@,
            Some(Mode::Gauntlet { idx, .. }) => "GAUNTLET · "@ + digits_of((idx + 1) as nat)
                + " OF 5"@,
            None => Seq::empty(),
        }
    }

    /// The top bar's status: the scores, the book line, or the gauntlet score.
    spec fn mode_status_of(&self) -> Seq<char> {
        match self.mode {
            Some(Mode::Duel { p1, p2, .. }) => "P1 "@ + digits_of(p1 as nat) + " — "@ + digits_of(
                p2 as nat,
            ) + " P2"@,
            Some(Mode::Adversary { you, adv, .. }) => "you "@ + digits_of(you as nat) + " — "@
                + digits_of(adv as nat) + " adv · to 3"@,
            Some(Mode::Puzzle { index }) => seq![self.puzzles@[index as int].you.glyph_of()]
                + " in "@ + digits_of(self.puzzles@[index as int].mate_in as nat),
            Some(Mode::Gauntlet { results, .. }) => "score "@ + digits_of(wins_of(results@)),
            None => Seq::empty(),
        }
    }

    fn mode_label(&self) -> (s: String)
        requires
            self.mode_ok(),
        ensures
            s@ == self.mode_label_of(),
    {
        match &self.mode {
            Some(Mode::Duel { round_no, .. }) => {
                let mut s = text("DUEL · ROUND ");
                push_decimal(&mut s, *round_no as u64);
                s
            },
            Some(Mode::Adversary { level, round_no, .. }) => {
                let mut s = text("ADVERSARY · LV");
                push_decimal(&mut s, *level as u64);
                push_text(&mut s, " · ROUND ");
                push_decimal(&mut s, *round_no as u64);
                s
            },
            Some(Mode::Puzzle { index }) => {
                let mut s = text("PUZZLE · ");
                push_text(&mut s, self.puzzles[*index].title.as_str());
                s
            },
            Some(Mode::Gauntlet { idx, .. }) => {
                let mut s = text("GAUNTLET · ");
                push_decimal(&mut s, *idx as u64 + 1);
                push_text(&mut s, " OF 5");
                s
            },
            None => String::new(),
        }
    }

    fn mode_status(&self) -> (s: String)
        requires
            self.mode_ok(),
        ensures
            s@ == self.mode_status_of(),
    {
        match &self.mode {
            Some(Mode::Duel { p1, p2, .. }) => {
                let mut s = text("P1 ");
                push_decimal(&mut s, *p1 as u64);
                push_text(&mut s, " — ");
                push_decimal(&mut s, *p2 as u64);
                push_text(&mut s, " P2");
                s
            },
            Some(Mode::Adversary { you, adv, .. }) => {
                let mut s = text("you ");
                push_decimal(&mut s, *you as u64);
                push_text(&mut s, " — ");
                push_decimal(&mut s, *adv as u64);
                push_text(&mut s, " adv · to 3");
                s
            },
            Some(Mode::Puzzle { index }) => {
                let pz = &self.puzzles[*index];
                let mut s = String::new();
                push_char(&mut s, pz.you.glyph());
                push_text(&mut s, " in ");
                push_decimal(&mut s, pz.mate_in as u64);
                s
            },
            Some(Mode::Gauntlet { results, .. }) => {
                let (wins, _) = tally(results);
                let mut s = text("score ");
                push_decimal(&mut s, wins as u64);
                s
            },
            None => String::new(),
        }
    }

    fn build_round(&mut self, human_or_p1_side: Side, first: Side, duel: bool)
        requires
            old(self).wf(),
            !(old(self).screen is GauntletSummary),
        ensures
            final(self).repeater == old(self).repeater,
            final(self).wants_exit == old(self).wants_exit,
            final(self).wf(),
            steady(old(self)@, final(self)@),
            final(self).save == old(self).save,
            final(self).save_dirty == old(self).save_dirty,
            final(self).mode == old(self).mode,
            final(self).round_ms() <= old(self).round_ms(),
            final(self).over_timer <= old(self).over_timer,
            old(self).pending is Some ==> final(self).screen is Play,
            old(self).pending is None ==> final(self).screen == old(self).screen,
            old(self).pending matches Some(p) ==> final(self).round matches Some(r) && {
                let v = r@;
                let you = PlayerKind::Human(1);
                let other = if duel {
                    PlayerKind::Human(2)
                } else {
                    PlayerKind::Adversary
                };
                &&& v.board == p.deal.f
                &&& v.to_move == first
                &&& v.top_player == (if human_or_p1_side == Side::Top {
                    you
                } else {
                    other
                })
                &&& v.bot_player == (if human_or_p1_side == Side::Top {
                    other
                } else {
                    you
                })
                &&& v.allow_preview == (!old(self).save.strict && !(old(self).mode matches Some(
                    Mode::Puzzle { .. },
                )))
                &&& v.label == old(self).mode_label_of()
                &&& v.status == old(self).mode_status_of()
                &&& v.history.len() == 0
                &&& v.outcome is None
            },
    {
        proof {
            lemma_keeps_solved_refl(self.save.solved);
        }
        let p = match self.pending.take() {
            Some(p) => p,
            None => {
                return ;
            },
        };
        let (top, bot) = if duel {
            if human_or_p1_side == Side::Top {
                (PlayerKind::Human(1), PlayerKind::Human(2))
            } else {
                (PlayerKind::Human(2), PlayerKind::Human(1))
            }
        } else if human_or_p1_side == Side::Top {
            (PlayerKind::Human(1), PlayerKind::Adversary)
        } else {
            (PlayerKind::Adversary, PlayerKind::Human(1))
        };
        let allow_preview = !self.save.strict && !matches!(self.mode, Some(Mode::Puzzle { .. }));
        let label = self.mode_label();
        let status = self.mode_status();
        self.round = Some(Round::new(p.deal.f, first, top, bot, RoundCfg { allow_preview, label, status }));
        self.over_timer = 0;
        self.screen = Screen::Play;
    }

    fn go_title(&mut self)
        requires
            old(self).wf_but_screen(),
        ensures
            final(self).repeater == old(self).repeater,
            final(self).wants_exit == old(self).wants_exit,
            final(self).wf(),
            steady(old(self)@, final(self)@),
            final(self).save == old(self).save,
            final(self).save_dirty == old(self).save_dirty,
            final(self)@.screen == ScreenKind::Title,
            final(self).round_ms() <= old(self).round_ms(),
            final(self).over_timer <= old(self).over_timer,
            final(self).screen == (Screen::Title { sel: 0 }),
    {
        proof {
            lemma_keeps_solved_refl(self.save.solved);
        }
        self.mode = None;
        self.round = None;
        self.pending = None;
        self.screen = Screen::Title { sel: 0 };
    }
}

/// The end menu's heading once `w`, played by `k`, has won: the winner,
/// with the duel player or whether it was you, or the puzzle's verdict.
spec fn finish_title_of(w: Side, k: PlayerKind, mode: Option<Mode>, moves: nat) -> Seq<char> {
    let g = seq![w.glyph_of()];
    match mode {
        Some(Mode::Duel { .. }) => match k {
            PlayerKind::Human(n) => g + " wins — Player "@ + digits_of(n as nat),
            PlayerKind::Adversary => g + " wins"@,
        },
        Some(Mode::Adversary { .. }) | Some(Mode::Gauntlet { .. }) => g + if k is Human {
            " wins — you"@
        } else {
            " wins — the Adversary"@
        },
        Some(Mode::Puzzle { .. }) => if k is Human {
            "solved in "@ + digits_of(moves)
        } else {
            "refuted"@
        },
        None => g + " wins"@,
    }
}

/// The mode once the round is scored: the winning duel player or match
/// side takes a point, and a gauntlet records whether you won.
spec fn scored(before: Option<Mode>, after: Option<Mode>, k: PlayerKind) -> bool {
    let human = k is Human;
    match before {
        Some(Mode::Duel { level, round_no, p1, p2 }) => after == Some(
            Mode::Duel {
                level,
                round_no,
                p1: if k == PlayerKind::Human(1) {
                    (p1 + 1) as u32
                } else {
                    p1
                },
                p2: if human && k != PlayerKind::Human(1) {
                    (p2 + 1) as u32
                } else {
                    p2
                },
            },
        ),
        Some(Mode::Adversary { level, round_no, you, adv }) => after == Some(
            Mode::Adversary {
                level,
                round_no,
                you: if human {
                    (you + 1) as u32
                } else {
                    you
                },
                adv: if human {
                    adv
                } else {
                    (adv + 1) as u32
                },
            },
        ),
        Some(Mode::Puzzle { index }) => after == Some(Mode::Puzzle { index }),
        Some(Mode::Gauntlet { seed, idx, results, deals }) => after matches Some(
            Mode::Gauntlet { seed: s2, idx: i2, results: r2, deals: d2 },
        ) && s2 == seed && i2 == idx && r2@ == results@.push(human) && d2 == deals,
        None => after is None,
    }
}

impl App {
    /// What scoring a decided round does: the end menu opens on its first
    /// item under the heading for the result, the mode is scored, and a
    /// puzzle solved by you is marked in the save.
    pub closed spec fn finished(&self, after: &App) -> bool {
        match after.round {
            Some(r) => match r@.outcome {
                Some(w) => {
                    let k = r@.player(w);
                    let moves = crate::round::human_moves_of(r@, r@.history.len());
                    &&& after.screen matches Screen::RoundOver { sel, title, win } && sel == 0
                        && title@ == finish_title_of(w, k, self.mode, moves) && win == (
                    k is Human || self.mode matches Some(Mode::Duel { .. }) || self.mode is None)
                    &&& scored(self.mode, after.mode, k)
                    &&& match self.mode {
                        Some(Mode::Puzzle { index }) if k is Human => after.save == (SaveData {
                            solved: self.save.solved | (1u32 << (index as u32)),
                            ..self.save
                        }) && after.save_dirty,
                        _ => after.save == self.save && after.save_dirty == self.save_dirty,
                    }
                    &&& after.pending == self.pending
                    &&& after.puzzles == self.puzzles
                    &&& after.wants_exit == self.wants_exit
                },
                None => true,
            },
            None => true,
        }
    }

    /// The board collapsed: score the round and open the end menu.
    fn finish_round(&mut self)
        requires
            old(self).wf(),
            old(self).screen is Play,
            old(self).scores_fit(),
            old(self).round matches Some(r) ==> r@.outcome is Some,
        ensures
            final(self).repeater == old(self).repeater,
            final(self).wants_exit == old(self).wants_exit,
            final(self).wf(),
            steady(old(self)@, final(self)@),
            old(self).round is Some ==> final(self).screen is RoundOver,
            old(self).round is None ==> *final(self) == *old(self),
            old(self).finished(final(self)),
            final(self).round == old(self).round,
            final(self).rng == old(self).rng,
            final(self).rounds_fit() == old(self).rounds_fit(),
            final(self).round_ms() <= old(self).round_ms(),
            final(self).over_timer <= old(self).over_timer,
    {
        proof {
            lemma_keeps_solved_refl(self.save.solved);
        }
        let (w, winner_kind, human_won, human_moves) = match &self.round {
            Some(r) => {
                let w = match r.outcome() {
                    Some(w) => w,
                    None => {
                        return ;
                    },
                };
                let k = r.player(w);
                (w, k, k.is_human(), r.human_moves())
            },
            None => {
                return ;
            },
        };
        let mut title = String::new();
        push_char(&mut title, w.glyph());
        push_text(&mut title, " wins");
        let mut win_for_menu = true;
        let m = self.mode.take();
        match m {
            Some(Mode::Duel { level, round_no, p1, p2 }) => {
                let (mut p1, mut p2) = (p1, p2);
                if let PlayerKind::Human(n) = winner_kind {
                    if n == 1 {
                        p1 = p1 + 1;
                    } else {
                        p2 = p2 + 1;
                    }
                    title = String::new();
                    push_char(&mut title, w.glyph());
                    push_text(&mut title, " wins — Player ");
                    push_decimal(&mut title, n as u64);
                }
                self.mode = Some(Mode::Duel { level, round_no, p1, p2 });
            },
            Some(Mode::Adversary { level, round_no, you, adv }) => {
                let (mut you, mut adv) = (you, adv);
                title = String::new();
                push_char(&mut title, w.glyph());
                if human_won {
                    you = you + 1;
                    push_text(&mut title, " wins — you");
                } else {
                    adv = adv + 1;
                    push_text(&mut title, " wins — the Adversary");
                }
                win_for_menu = human_won;
                self.mode = Some(Mode::Adversary { level, round_no, you, adv });
            },
            Some(Mode::Puzzle { index }) => {
                if human_won {
                    title = text("solved in ");
                    push_decimal(&mut title, human_moves as u64);
                    proof {
                        lemma_set_bit_keeps(self.save.solved, index as u32);
                    }
                    self.save.solved = self.save.solved | (1u32 << index as u32);
                    self.save_dirty = true;
                } else {
                    title = text("refuted");
                }
                win_for_menu = human_won;
                self.mode = Some(Mode::Puzzle { index });
            },
            Some(Mode::Gauntlet { seed, idx, results, deals }) => {
                let mut results = results;
                results.push(human_won);
                title = String::new();
                push_char(&mut title, w.glyph());
                if human_won {
                    push_text(&mut title, " wins — you");
                } else {
                    push_text(&mut title, " wins — the Adversary");
                }
                win_for_menu = human_won;
                self.mode = Some(Mode::Gauntlet { seed, idx, results, deals });
            },
            None => {},
        }
        self.screen = Screen::RoundOver { sel: 0, title, win: win_for_menu };
    }

    /// The end-of-round menu.
    fn round_over_items(&self) -> (v: Vec<String>)
        requires
            self.mode_ok(),
            self.puzzles@.len() <= 11,
        ensures
            strings_view(v@) == self.round_over_items_of(),
    {
        let mut v: Vec<String> = Vec::new();
        match &self.mode {
            Some(Mode::Duel { .. }) => {
                v.push(text("rematch"));
                v.push(text("review the proof"));
                v.push(text("main menu"));
            },
            Some(Mode::Adversary { you, adv, .. }) => {
                if *you >= 3 || *adv >= 3 {
                    v.push(text("new match"));
                } else {
                    v.push(text("next round"));
                }
                v.push(text("review the proof"));
                v.push(text("main menu"));
            },
            Some(Mode::Puzzle { index }) => {
                let solved = self.save.solved & (1u32 << *index as u32) != 0;
                if solved && *index + 1 < self.puzzles.len() {
                    v.push(text("next puzzle"));
                } else {
                    v.push(text("try again"));
                }
                v.push(text("review the proof"));
                v.push(text("puzzle list"));
            },
            Some(Mode::Gauntlet { idx, deals, .. }) => {
                if *idx + 1 >= deals.len() {
                    v.push(text("finish"));
                } else {
                    v.push(text("next formula"));
                }
                v.push(text("review the proof"));
                v.push(text("abandon"));
            },
            None => {
                v.push(text("main menu"));
            },
        }
        assert(strings_view(v@) =~= self.round_over_items_of());
        v
    }

    /// The first item of the end menu: the next round, puzzle or formula.
    fn round_over_advance(&mut self)
        requires
            old(self).wf(),
            old(self).rounds_fit(),
            old(self).screen is RoundOver,
        ensures
            final(self).repeater == old(self).repeater,
            final(self).wants_exit == old(self).wants_exit,
            final(self).wf(),
            steady(old(self)@, final(self)@),
            final(self).save.solved == old(self).save.solved,
            final(self).save.strict == old(self).save.strict,
            final(self).round_ms() <= old(self).round_ms(),
            final(self).over_timer <= old(self).over_timer,
            final(self).screen is PickSide || final(self).screen is Notice || final(self).screen is Play || final(self).screen is GauntletSummary || final(self).screen is Title,
            kind_of(final(self).screen) == next_round_opening(old(self)@.mode),
    {
        proof {
            lemma_keeps_solved_refl(self.save.solved);
        }
        let m = self.mode.take();
        match m {
            Some(Mode::Duel { level, round_no, p1, p2 }) => {
                self.mode = Some(Mode::Duel { level, round_no: round_no + 1, p1, p2 });
                self.next_duel_round();
            },
            Some(Mode::Adversary { level, round_no, you, adv }) => {
                if you >= 3 || adv >= 3 {
                    self.mode = Some(Mode::Adversary { level, round_no, you, adv });
                    self.start_adversary(level);
                } else {
                    self.mode = Some(Mode::Adversary { level, round_no: round_no + 1, you, adv });
                    self.next_adversary_round();
                }
            },
            Some(Mode::Puzzle { index }) => {
                self.mode = Some(Mode::Puzzle { index });
                let solved = self.save.solved & (1u32 << index as u32) != 0;
                if solved && index + 1 < self.puzzles.len() {
                    self.start_puzzle(index + 1);
                } else {
                    self.start_puzzle(index);
                }
            },
            Some(Mode::Gauntlet { seed, idx, results, deals }) => {
                let n = deals.len();
                self.mode = Some(Mode::Gauntlet { seed, idx: idx + 1, results, deals });
                if idx + 1 >= n {
                    self.screen = Screen::GauntletSummary;
                } else {
                    self.next_gauntlet_round();
                }
            },
            None => self.go_title(),
        }
    }
}

impl App {
    /// The round's timers, or 0 without a round.
    spec fn round_ms(&self) -> nat {
        match self.round {
            Some(r) => if r@.anim_ms >= r@.ai_ms {
                r@.anim_ms
            } else {
                r@.ai_ms
            },
            None => 0,
        }
    }

    /// The seven digits of today's code, for the code entry to start from.
    /// Today's share-code digits, most significant first.
    fn today_digits(&self) -> (v: Vec<usize>)
        ensures
            v@.len() == 7,
            forall|i: int|
                0 <= i < 7 ==> #[trigger] v@[i] == digit_of(
                    gauntlet_seed_of(encode_utf8(self.date_iso@)),
                    (6 - i) as nat,
                ),
            forall|i: int| 0 <= i < 7 ==> #[trigger] v@[i] < 32,
    {
        let seed = gauntlet_seed(self.date_iso.as_str());
        let mut x: u64 = seed as u64;
        let mut rev: Vec<usize> = Vec::new();
        let mut t: usize = 0;
        assert(pow32(0) == 1);
        while t < 7
            invariant
                t <= 7,
                x == (seed as nat) / pow32(t as nat),
                rev@.len() == t,
                forall|j: int| 0 <= j < t ==> #[trigger] rev@[j] == digit_of(seed, j as nat),
            decreases 7 - t,
        {
            proof {
                lemma_pow32_div(seed as nat, t as nat);
                assert(x & 31 == x % 32) by (bit_vector);
                assert(x >> 5 == x / 32) by (bit_vector);
            }
            rev.push((x & 31) as usize);
            x = x >> 5;
            t = t + 1;
        }
        let mut v: Vec<usize> = Vec::new();
        let mut k: usize = 0;
        while k < 7
            invariant
                k <= 7,
                rev@.len() == 7,
                forall|j: int| 0 <= j < 7 ==> #[trigger] rev@[j] == digit_of(seed, j as nat),
                v@.len() == k,
                forall|i: int| 0 <= i < k ==> #[trigger] v@[i] == digit_of(seed, (6 - i) as nat),
            decreases 7 - k,
        {
            v.push(rev[6 - k]);
            k = k + 1;
        }
        v
    }

    /// What handling one button keeps: the invariant and the steady parts
    /// of the save; timers never grow; and the d-pad, which the repeater
    /// may fire many times in one tick, never enters play or the proof view
    /// from elsewhere, never moves a duel score outside play, and scrolls the
    /// proof view at most one step.
    pub closed spec fn handled(&self, after: &App, b: Button) -> bool {
        &&& after.wf()
        &&& after.repeater == self.repeater
        &&& (self.screen is Play && after.screen is RoundOver ==> self.finished(after))
        &&& press_step(self@, self.round_view(), after@, after.round_view(), b)
        &&& after.round_ms() <= self.round_ms()
        &&& after.over_timer <= self.over_timer
        &&& (is_direction(b) && after.screen is Play ==> self.screen is Play && after.scores_fit()
            == self.scores_fit())
        &&& (is_direction(b) ==> ((self.screen is Proof) == (after.screen is Proof)))
        &&& (is_direction(b) ==> forall|k: nat| #[trigger]
            self.scroll_fits(k + 1) ==> after.scroll_fits(k))
    }

    spec fn may_handle(&self, b: Button) -> bool {
        &&& self.wf()
        &&& (self.screen is Play ==> self.scores_fit())
        &&& (self.screen is RoundOver && (b is A || b is Start) ==> self.rounds_fit())
        &&& (b is Down ==> self.scroll_fits(1))
    }

    fn handle(&mut self, b: Button)
        requires
            old(self).may_handle(b),
        ensures
            old(self).handled(final(self), b),
    {
        let (kind, a, flag) = match &self.screen {
            Screen::Title { sel } => (0u8, *sel, false),
            Screen::Rules { from_pause } => (1u8, 0, *from_pause),
            Screen::Difficulty { sel, duel } => (2u8, *sel, *duel),
            Screen::PuzzleList { sel } => (3u8, *sel, false),
            Screen::GauntletMenu { sel } => (4u8, *sel, false),
            Screen::CodeEntry { pos, .. } => (5u8, *pos, false),
            Screen::PickSide => (6u8, 0, false),
            Screen::PickOrder { sel } => (7u8, *sel, false),
            Screen::Notice { next, .. } => (8u8, 0, *next == After::Play),
            Screen::Play => (9u8, 0, false),
            Screen::Pause { sel } => (10u8, *sel, false),
            Screen::RoundOver { sel, .. } => (11u8, *sel, false),
            Screen::Proof { .. } => (12u8, 0, false),
            Screen::GauntletSummary => (13u8, 0, false),
        };
        if kind == 0 {
            self.on_title(a, b);
        } else if kind == 1 {
            self.on_rules(flag, b);
        } else if kind == 2 {
            self.on_difficulty(a, flag, b);
        } else if kind == 3 {
            self.on_puzzle_list(a, b);
        } else if kind == 4 {
            self.on_gauntlet_menu(a, b);
        } else if kind == 5 {
            self.on_code_entry(b);
        } else if kind == 6 {
            self.on_pick_side(b);
        } else if kind == 7 {
            self.on_pick_order(a, b);
        } else if kind == 8 {
            self.on_notice(flag, b);
        } else if kind == 9 {
            self.on_play(b);
        } else if kind == 10 {
            self.on_pause(a, b);
        } else if kind == 11 {
            self.on_round_over(a, b);
        } else if kind == 12 {
            self.on_proof(b);
        } else {
            self.on_summary(b);
        }
    }

    fn on_title(&mut self, sel: usize, b: Button)
        requires
            old(self).may_handle(b),
            old(self).screen == (Screen::Title { sel }),
        ensures
            old(self).handled(final(self), b),
    {
        proof {
            lemma_keeps_solved_refl(self.save.solved);
        }
        match b {
            Button::Up => self.screen = Screen::Title { sel: (sel + TITLE_ITEMS - 1) % TITLE_ITEMS },
            Button::Down => self.screen = Screen::Title { sel: (sel + 1) % TITLE_ITEMS },
            Button::A | Button::Start => {
                if sel == 0 {
                    self.screen = Screen::Difficulty { sel: 1, duel: true };
                } else if sel == 1 {
                    let lv = self.save.level;
                    self.screen = Screen::Difficulty { sel: (lv - 1) as usize, duel: false };
                } else if sel == 2 {
                    self.screen = Screen::PuzzleList { sel: 0 };
                } else if sel == 3 {
                    self.screen = Screen::GauntletMenu { sel: 0 };
                } else if sel == 4 {
                    self.screen = Screen::Rules { from_pause: false };
                } else if sel == 5 {
                    self.save.strict = !self.save.strict;
                    self.save_dirty = true;
                } else {
                    self.wants_exit = true;
                }
            },
            _ => {},
        }
    }

    fn on_rules(&mut self, from_pause: bool, b: Button)
        requires
            old(self).may_handle(b),
            old(self).screen == (Screen::Rules { from_pause }),
        ensures
            old(self).handled(final(self), b),
    {
        proof {
            lemma_keeps_solved_refl(self.save.solved);
        }
        if matches!(b, Button::A | Button::B | Button::Start) {
            self.screen = if from_pause {
                Screen::Pause { sel: 0 }
            } else {
                Screen::Title { sel: 4 }
            };
        }
    }

    fn on_difficulty(&mut self, sel: usize, duel: bool, b: Button)
        requires
            old(self).may_handle(b),
            old(self).screen == (Screen::Difficulty { sel, duel }),
        ensures
            old(self).handled(final(self), b),
    {
        proof {
            lemma_keeps_solved_refl(self.save.solved);
        }
        match b {
            Button::Up => self.screen = Screen::Difficulty { sel: (sel + 4) % 5, duel },
            Button::Down => self.screen = Screen::Difficulty { sel: (sel + 1) % 5, duel },
            Button::B => {
                self.screen = Screen::Title {
                    sel: if duel {
                        0
                    } else {
                        1
                    },
                }
            },
            Button::A | Button::Start => {
                let lv = sel as u8 + 1;
                if duel {
                    self.start_duel(lv);
                } else {
                    self.start_adversary(lv);
                }
            },
            _ => {},
        }
    }

    fn on_puzzle_list(&mut self, sel: usize, b: Button)
        requires
            old(self).may_handle(b),
            old(self).screen == (Screen::PuzzleList { sel }),
        ensures
            old(self).handled(final(self), b),
    {
        proof {
            lemma_keeps_solved_refl(self.save.solved);
        }
        let n = self.puzzles.len();
        match b {
            Button::Up => self.screen = Screen::PuzzleList { sel: (sel + n - 1) % n },
            Button::Down => self.screen = Screen::PuzzleList { sel: (sel + 1) % n },
            Button::B => self.screen = Screen::Title { sel: 2 },
            Button::A | Button::Start => self.start_puzzle(sel),
            _ => {},
        }
    }

    fn on_gauntlet_menu(&mut self, sel: usize, b: Button)
        requires
            old(self).may_handle(b),
            old(self).screen == (Screen::GauntletMenu { sel }),
        ensures
            old(self).handled(final(self), b),
    {
        proof {
            lemma_keeps_solved_refl(self.save.solved);
        }
        match b {
            Button::Up | Button::Down => self.screen = Screen::GauntletMenu { sel: 1 - sel },
            Button::B => self.screen = Screen::Title { sel: 3 },
            Button::A | Button::Start => {
                if sel == 0 {
                    let seed = gauntlet_seed(self.date_iso.as_str());
                    self.start_gauntlet(seed);
                } else {
                    // Start from today's code: the digits of its seed.
                    let chars = self.today_digits();
                    self.screen = Screen::CodeEntry { chars, pos: 0 };
                }
            },
            _ => {},
        }
    }

    fn on_code_entry(&mut self, b: Button)
        requires
            old(self).may_handle(b),
            old(self).screen is CodeEntry,
        ensures
            old(self).handled(final(self), b),
    {
        proof {
            lemma_keeps_solved_refl(self.save.solved);
        }
        let mut screen = Screen::GauntletSummary;
        std::mem::swap(&mut screen, &mut self.screen);
        let (mut chars, pos) = match screen {
            Screen::CodeEntry { chars, pos } => (chars, pos),
            _ => {
                // Not reached: the caller is on the code entry.
                self.go_title();
                return ;
            },
        };
        match b {
            Button::Left => self.screen = Screen::CodeEntry { chars, pos: (pos + 6) % 7 },
            Button::Right => self.screen = Screen::CodeEntry { chars, pos: (pos + 1) % 7 },
            Button::Up => {
                let c = (chars[pos] + 1) % 32;
                chars.set(pos, c);
                self.screen = Screen::CodeEntry { chars, pos };
            },
            Button::Down => {
                let c = (chars[pos] + 31) % 32;
                chars.set(pos, c);
                self.screen = Screen::CodeEntry { chars, pos };
            },
            Button::B => self.screen = Screen::GauntletMenu { sel: 1 },
            Button::A | Button::Start => {
                let mut code = String::new();
                let mut i: usize = 0;
                while i < 7
                    invariant
                        i <= 7,
                        chars@.len() == 7,
                        forall|k: int| 0 <= k < 7 ==> #[trigger] chars@[k] < 32,
                        code@ == Seq::new(i as nat, |k: int| b32_char(chars@[k] as nat)),
                    decreases 7 - i,
                {
                    push_char(&mut code, b32_digit(chars[i] as u64));
                    assert(code@ =~= Seq::new((i + 1) as nat, |k: int| b32_char(chars@[k] as nat)));
                    i = i + 1;
                }
                assert(code@ =~= code_chars(chars@));
                let parsed = parse_share_code(code.as_str());
                self.screen = Screen::CodeEntry { chars, pos };
                if let Some(seed) = parsed {
                    self.start_gauntlet(seed);
                }
            },
            _ => self.screen = Screen::CodeEntry { chars, pos },
        }
    }

    fn on_pick_side(&mut self, b: Button)
        requires
            old(self).may_handle(b),
            old(self).screen is PickSide,
        ensures
            old(self).handled(final(self), b),
    {
        proof {
            lemma_keeps_solved_refl(self.save.solved);
        }
        let side = match b {
            Button::X => Some(Side::Top),
            Button::B => Some(Side::Bot),
            _ => None,
        };
        if let Some(s) = side {
            let mut p = match self.pending.take() {
                Some(p) => p,
                None => {
                    return ;
                },
            };
            if self.is_vs_ai() {
                // The Adversary replies with a perfect tempo pick.
                let first = ai_pick_order(&p.deal.f, s.other());
                p.picked_side = Some(s);
                // The order rides in ai_side: the first mover.
                p.ai_side = Some(first);
                self.pending = Some(p);
                let mut l1 = text("You take ");
                push_char(&mut l1, s.glyph());
                push_char(&mut l1, '.');
                let mut l2 = text("The Adversary decides: ");
                push_char(&mut l2, first.glyph());
                push_text(&mut l2, " assigns first.");
                let mut lines: Vec<String> = Vec::new();
                lines.push(l1);
                lines.push(l2);
                self.screen = Screen::Notice { title: text("the pie rule"), lines, next: After::Play };
            } else {
                p.picked_side = Some(s);
                self.pending = Some(p);
                self.screen = Screen::PickOrder { sel: 0 };
            }
        }
    }

    fn on_pick_order(&mut self, sel: usize, b: Button)
        requires
            old(self).may_handle(b),
            old(self).screen == (Screen::PickOrder { sel }),
        ensures
            old(self).handled(final(self), b),
    {
        proof {
            lemma_keeps_solved_refl(self.save.solved);
        }
        match b {
            Button::Up | Button::Down => self.screen = Screen::PickOrder { sel: 1 - sel },
            Button::A | Button::Start | Button::X => {
                let (picked, ai) = match &self.pending {
                    Some(p) => (p.picked_side, p.ai_side),
                    None => {
                        return ;
                    },
                };
                if self.is_vs_ai() {
                    // Options: 0 = you first, 1 = the Adversary first.
                    if let Some(ai) = ai {
                        let human = ai.other();
                        let first = if sel == 0 {
                            human
                        } else {
                            ai
                        };
                        self.build_round(human, first, false);
                    }
                } else if let Some(picked) = picked {
                    // Duel: one player chose a side, the other the order.
                    // Options: 0 = P1 first, 1 = P2 first.
                    let round_no = match &self.mode {
                        Some(Mode::Duel { round_no, .. }) => *round_no,
                        _ => 1,
                    };
                    let picker_is_p1 = round_no % 2 == 1;
                    let p1_side = if picker_is_p1 {
                        picked
                    } else {
                        picked.other()
                    };
                    let first = if sel == 0 {
                        p1_side
                    } else {
                        p1_side.other()
                    };
                    self.build_round(p1_side, first, true);
                }
            },
            _ => {},
        }
    }

    fn on_notice(&mut self, then_play: bool, b: Button)
        requires
            old(self).may_handle(b),
            old(self).screen matches Screen::Notice { next, .. } && (next == After::Play) == then_play,
        ensures
            old(self).handled(final(self), b),
    {
        proof {
            lemma_keeps_solved_refl(self.save.solved);
        }
        if matches!(b, Button::A | Button::Start | Button::X) {
            if !then_play {
                self.screen = Screen::PickOrder { sel: 0 };
            } else {
                let (picked, ai) = match &self.pending {
                    Some(p) => (p.picked_side, p.ai_side),
                    None => {
                        return ;
                    },
                };
                match (picked, ai) {
                    (Some(human), Some(first)) => self.build_round(human, first, false),
                    _ => {},
                }
            }
        }
    }

    fn on_play(&mut self, b: Button)
        requires
            old(self).may_handle(b),
            old(self).screen is Play,
        ensures
            old(self).handled(final(self), b),
    {
        proof {
            lemma_keeps_solved_refl(self.save.solved);
        }
        let mut round = match self.round.take() {
            Some(r) => r,
            None => {
                return ;
            },
        };
        if b == Button::Start && round.outcome().is_none() {
            self.round = Some(round);
            self.screen = Screen::Pause { sel: 0 };
            return ;
        }
        let consumed = round.press(b, &mut self.rng);
        let done = round.outcome().is_some() && !round.animating() && !consumed;
        self.round = Some(round);
        if done {
            // Skip the lingering banner.
            self.finish_round();
        }
    }

    fn on_pause(&mut self, sel: usize, b: Button)
        requires
            old(self).may_handle(b),
            old(self).screen == (Screen::Pause { sel }),
        ensures
            old(self).handled(final(self), b),
    {
        proof {
            lemma_keeps_solved_refl(self.save.solved);
        }
        match b {
            Button::Up => self.screen = Screen::Pause { sel: (sel + 3) % 4 },
            Button::Down => self.screen = Screen::Pause { sel: (sel + 1) % 4 },
            Button::B | Button::Start => self.screen = Screen::Play,
            Button::A => {
                if sel == 0 {
                    self.screen = Screen::Play;
                } else if sel == 1 {
                    self.screen = Screen::Rules { from_pause: true };
                } else if sel == 2 {
                    // Restart the round from its opening board.
                    let fresh = match &self.round {
                        Some(r) => {
                            proof {
                                r.lemma_history_ok();
                            }
                            match r.opening() {
                                Some((board, first)) => Some(
                                    Round::new(
                                        board,
                                        first,
                                        r.player(Side::Top),
                                        r.player(Side::Bot),
                                        r.config(),
                                    ),
                                ),
                                None => None,
                            }
                        },
                        None => None,
                    };
                    if let Some(fresh) = fresh {
                        self.round = Some(fresh);
                    }
                    self.screen = Screen::Play;
                } else {
                    self.go_title();
                }
            },
            _ => {},
        }
    }

    fn on_round_over(&mut self, sel: usize, b: Button)
        requires
            old(self).may_handle(b),
            old(self).screen matches Screen::RoundOver { sel: s, .. } && s == sel,
        ensures
            old(self).handled(final(self), b),
    {
        proof {
            lemma_keeps_solved_refl(self.save.solved);
        }
        let all = self.round_over_items();
        let items = all.len();
        assert(strings_view(all@).len() == all@.len());
        assert(1 <= items <= 3);
        match b {
            Button::Up | Button::Down => {
                let mut cur = Screen::GauntletSummary;
                std::mem::swap(&mut cur, &mut self.screen);
                if let Screen::RoundOver { sel, title, win } = cur {
                    let next = if b == Button::Up {
                        (sel + items - 1) % items
                    } else {
                        (sel + 1) % items
                    };
                    self.screen = Screen::RoundOver { sel: next, title, win };
                } else {
                    // Not reached: the caller is on the end menu.
                    self.go_title();
                }
            },
            Button::A | Button::Start => {
                if sel == 0 {
                    self.round_over_advance();
                } else if sel == 1 {
                    self.screen = Screen::Proof { scroll: 0 };
                } else if matches!(self.mode, Some(Mode::Puzzle { .. })) {
                    self.round = None;
                    self.screen = Screen::PuzzleList { sel: 0 };
                } else {
                    self.go_title();
                }
            },
            _ => {},
        }
    }

    fn on_proof(&mut self, b: Button)
        requires
            old(self).may_handle(b),
            old(self).screen is Proof,
        ensures
            old(self).handled(final(self), b),
    {
        proof {
            lemma_keeps_solved_refl(self.save.solved);
        }
        let scroll = match &self.screen {
            Screen::Proof { scroll } => *scroll,
            _ => 0,
        };
        match b {
            Button::Up => self.screen = Screen::Proof {
                scroll: if scroll - 3 > 0 {
                    scroll - 3
                } else {
                    0
                },
            },
            Button::Down => self.screen = Screen::Proof { scroll: scroll + 3 },
            Button::B | Button::A | Button::Start => {
                // Back to wherever we came from.
                let back = match &self.round {
                    Some(r) => match r.outcome() {
                        Some(w) => Some((w, r.player(w).is_human())),
                        None => None,
                    },
                    None => None,
                };
                match back {
                    Some((w, human_won)) => {
                        let mut title = String::new();
                        push_char(&mut title, w.glyph());
                        push_text(&mut title, " wins");
                        let win = human_won || !self.is_vs_ai();
                        self.screen = Screen::RoundOver { sel: 1, title, win };
                    },
                    None => self.go_title(),
                }
            },
            _ => {},
        }
    }

    fn on_summary(&mut self, b: Button)
        requires
            old(self).may_handle(b),
            old(self).screen is GauntletSummary,
        ensures
            old(self).handled(final(self), b),
    {
        proof {
            lemma_keeps_solved_refl(self.save.solved);
        }
        if matches!(b, Button::A | Button::B | Button::Start) {
            self.go_title();
        }
    }
}

proof fn lemma_keeps_solved_trans(a: u32, b: u32, c: u32)
    requires
        keeps_solved(a, b),
        keeps_solved(b, c),
    ensures
        keeps_solved(a, c),
{
    assert(a & c == a) by (bit_vector)
        requires
            a & b == a,
            b & c == b,
    ;
}

proof fn lemma_repeats_bounded(fired: bool, t: nat)
    ensures
        crate::input::repeat_count(fired, t) <= t,
{
}

impl App {
    /// A button went down: it acts at once, and d-pad directions start
    /// repeating while held.
    pub fn on_press(&mut self, b: Button)
        requires
            old(self).wf(),
            old(self).scores_fit(),
            old(self).rounds_fit(),
            b is Down ==> old(self).scroll_fits(1),
        ensures
            final(self).wf(),
            press_step(
                old(self)@,
                old(self).round_view(),
                final(self)@,
                final(self).round_view(),
                b,
            ),
            old(self)@.screen is Play && final(self)@.screen is RoundOver ==> old(self).finished(
                final(self),
            ),
            final(self)@.held == if is_direction(b) {
                Some(b)
            } else {
                old(self)@.held
            },
    {
        self.repeater.press(b);
        self.handle(b);
    }

    /// A button came up: its repeats stop.
    pub fn on_release(&mut self, b: Button)
        requires
            old(self).wf(),
        ensures
            final(self).wf(),
            final(self)@ == (AppView {
                held: if old(self)@.held == Some(b) {
                    None
                } else {
                    old(self)@.held
                },
                ..old(self)@
            }),
    {
        self.repeater.release(b);
    }

    /// Advance time by `dt_ms`: held directions repeat, the round animates
    /// or the Adversary thinks, and a finished round gives way to its end
    /// menu after a short beat.
    pub fn tick(&mut self, dt_ms: u32)
        requires
            old(self).wf(),
            old(self).timers_fit(dt_ms),
            old(self).scores_fit(),
            old(self).repeats_fit(dt_ms),
        ensures
            final(self).wf(),
            steady(old(self)@, final(self)@),
            final(self)@.held == old(self)@.held,
            exists|trail: Seq<App>| #[trigger] old(self).ticked_through(trail, final(self), dt_ms),
    {
        proof {
            lemma_keeps_solved_refl(self.save.solved);
            match self.repeater@.held {
                Some((h, t)) => lemma_repeats_bounded(self.repeater@.fired_once, (t + dt_ms) as nat),
                None => {},
            }
        }
        let ghost start = self@;
        let ghost app0: App = *self;
        let ghost due = self.repeats_due(dt_ms);
        let ghost r0 = self.round_ms();
        let reps = self.repeater.tick(dt_ms);
        proof {
            assert(reps@ =~= due);
        }
        let ghost rep1 = self.repeater;
        let ghost s1: App = *self;
        let ghost mut trail: Seq<App> = seq![*self];
        let mut i: usize = 0;
        while i < reps.len()
            invariant
                self.repeater == rep1,
                self.wf(),
                i <= reps@.len(),
                forall|k: int| 0 <= k < reps@.len() ==> is_direction(#[trigger] reps@[k]),
                self.screen is Play ==> self.scores_fit(),
                self.scroll_fits((reps@.len() - i) as nat),
                self.round_ms() <= r0,
                r0 + dt_ms <= u32::MAX,
                self.over_timer + dt_ms <= u32::MAX,
                steady(start, self@),
                trail.len() == i + 1,
                trail[0] == s1,
                trail.last() == *self,
                forall|k: int| 0 <= k < i ==> #[trigger] trail[k].handled(&trail[k + 1], reps@[k]),
            decreases reps@.len() - i,
        {
            let ghost before = self@;
            let ghost left = (reps@.len() - i - 1) as nat;
            assert(self.scroll_fits(left + 1));
            self.handle(reps[i]);
            proof {
                lemma_keeps_solved_trans(start.save.solved, before.save.solved, self.save.solved);
                let ghost t0 = trail;
                trail = trail.push(*self);
                assert forall|k: int| 0 <= k < i + 1 implies #[trigger] trail[k].handled(
                    &trail[k + 1],
                    reps@[k],
                ) by {
                    if k < i {
                        assert(trail[k] == t0[k]);
                        assert(trail[k + 1] == t0[k + 1]);
                    }
                }
            }
            i = i + 1;
        }
        let ghost mid: App = *self;
        proof {
            assert forall|k: int| 0 <= k < reps@.len() implies #[trigger] press_step(
                trail[k]@,
                trail[k].round_view(),
                trail[k + 1]@,
                trail[k + 1].round_view(),
                reps@[k],
            ) by {
                assert(trail[k].handled(&trail[k + 1], reps@[k]));
            }
            assert(trail[0].same_but_clock(&app0));
        }
        if matches!(self.screen, Screen::Play) && self.round.is_some() {
            let mut round = match self.round.take() {
                Some(r) => r,
                None => {
                    proof {
                        assert(false);
                    }
                    return ;
                },
            };
            round.tick(dt_ms, &mut self.rng);
            let finished = round.outcome().is_some() && !round.animating();
            self.round = Some(round);
            if finished {
                self.over_timer = self.over_timer + dt_ms;
                if self.over_timer >= 1100 {
                    self.finish_round();
                    proof {
                        lemma_keeps_solved_trans(start.save.solved, mid@.save.solved, self.save.solved);
                    }
                }
            }
        }
        proof {
            assert(app0.ticked_through(trail, self, dt_ms));
        }
    }
}

// ------------------------------------------------------ what a screen shows --

/// What a screen shows, ready to be drawn: a heading and a line under it,
/// the board of the pie-rule screens, a menu and its highlighted item, body
/// lines, and the hint at the foot. Play, pause and the end menu are drawn
/// over the round, which describes itself.
pub struct Page {
    pub title: Option<(String, Color)>,
    pub subtitle: Option<(String, Color)>,
    pub board: Option<F>,
    pub items: Vec<String>,
    pub sel: Option<usize>,
    pub lines: Vec<(String, Color)>,
    pub hint: String,
}

pub struct PageView {
    pub title: Option<(Seq<char>, Color)>,
    pub subtitle: Option<(Seq<char>, Color)>,
    pub board: Option<F>,
    pub items: Seq<Seq<char>>,
    pub sel: Option<usize>,
    pub lines: Seq<(Seq<char>, Color)>,
    pub hint: Seq<char>,
}

pub open spec fn line_view(l: Option<(String, Color)>) -> Option<(Seq<char>, Color)> {
    match l {
        Some((s, c)) => Some((s@, c)),
        None => None,
    }
}

pub open spec fn strings_view(v: Seq<String>) -> Seq<Seq<char>> {
    v.map_values(|s: String| s@)
}

impl View for Page {
    type V = PageView;

    open spec fn view(&self) -> PageView {
        PageView {
            title: line_view(self.title),
            subtitle: line_view(self.subtitle),
            board: self.board,
            items: strings_view(self.items@),
            sel: self.sel,
            lines: lines_view(self.lines@),
            hint: self.hint@,
        }
    }
}

pub open spec fn page_spec(
    title: Option<(Seq<char>, Color)>,
    subtitle: Option<(Seq<char>, Color)>,
    board: Option<F>,
    items: Seq<Seq<char>>,
    sel: Option<usize>,
    lines: Seq<(Seq<char>, Color)>,
    hint: Seq<char>,
) -> PageView {
    PageView { title, subtitle, board, items, sel, lines, hint }
}

pub open spec fn title_items_of(strict: bool) -> Seq<Seq<char>> {
    seq![
        "duel"@,
        "adversary"@,
        "puzzles"@,
        "daily gauntlet"@,
        "rules"@,
        if strict {
            "strict mode · on"@
        } else {
            "strict mode · off"@
        },
        "quit"@,
    ]
}

pub open spec fn difficulty_items_of() -> Seq<Seq<char>> {
    seq![
        "1 · four atoms, ∧ ∨"@,
        "2 · four atoms, ∧ ∨ ⇒"@,
        "3 · five atoms, ∧ ∨ ⇒ ¬"@,
        "4 · six atoms, ∧ ∨ ⇒ = ¬"@,
        "5 · eight atoms, the full mix"@,
    ]
}

pub open spec fn pause_items_of() -> Seq<Seq<char>> {
    seq!["resume"@, "rules"@, "restart round"@, "quit to menu"@]
}

/// The rules card, line by line.
pub open spec fn rules_card_of() -> Seq<Seq<char>> {
    seq![
        "⊤OPP⊥E ─────────────────────────────"@,
        "One formula. ⊤ wants it to end ⊤;"@,
        "⊥ wants it to end ⊥."@,
        ""@,
        "SETUP  Formula appears. One player"@,
        "picks a side; the other picks who"@,
        "moves first."@,
        ""@,
        "TURN   Pick any atom on the board and"@,
        "set it to ⊤ or ⊥. Every occurrence is"@,
        "replaced at once. You must move."@,
        ""@,
        "LAWS   The board then rewrites itself,"@,
        "one law at a time (mirrors apply too):"@,
        " ⊤∧x=x   ⊥∧x=⊥   ⊤∨x=⊤   ⊥∨x=x"@,
        " ⊤⇒x=x   ⊥⇒x=⊤   x⇒⊤=⊤   x⇒⊥=¬x"@,
        " (⊤=x)=x (⊥=x)=¬x ¬⊤=⊥ ¬⊥=⊤ ¬¬x=x"@,
        ""@,
        "WIN    The instant a lone ⊤ or ⊥"@,
        "remains, that side wins. No draws."@,
    ]
}

/// The card's first line in ⊤'s colour, its section headings (SETUP, TURN,
/// LAWS, WIN) in the text colour, the rest dim.
pub open spec fn rules_color_of(i: int) -> Color {
    if i == 0 {
        side_color_of(Side::Top)
    } else if i == 4 || i == 8 || i == 12 || i == 18 {
        text_shade()
    } else {
        dim_shade()
    }
}

pub open spec fn rules_lines_of() -> Seq<(Seq<char>, Color)> {
    Seq::new(20, |i: int| (rules_card_of()[i], rules_color_of(i)))
}

/// Whether puzzle `i` is marked solved in the mask.
pub open spec fn solved_bit(mask: u32, i: nat) -> bool {
    mask & (1u32 << (i as u32)) != 0
}

/// The first puzzle of the nine the list shows: the highlighted one stays
/// on screen, and the window never runs past the end of the book.
pub open spec fn puzzle_first_of(sel: nat, n: nat) -> nat {
    let a: nat = if sel >= 8 {
        (sel - 8) as nat
    } else {
        0
    };
    let b: nat = if n >= 9 {
        (n - 9) as nat
    } else {
        0
    };
    if a < b {
        a
    } else {
        b
    }
}

/// A puzzle's entry in the list: a check mark once solved, then its title.
pub open spec fn puzzle_item_of(mask: u32, i: nat, title: Seq<char>) -> Seq<char> {
    (if solved_bit(mask, i) {
        "✓ "@
    } else {
        "  "@
    }) + title
}

/// How many of the results are wins.
pub open spec fn wins_of(r: Seq<bool>) -> nat
    decreases r.len(),
{
    if r.len() == 0 {
        0
    } else {
        wins_of(r.drop_last()) + if r.last() {
            1nat
        } else {
            0nat
        }
    }
}

/// The results as marks, ● a win and ○ a loss, one space between.
pub open spec fn marks_of(r: Seq<bool>) -> Seq<char>
    decreases r.len(),
{
    if r.len() == 0 {
        Seq::empty()
    } else if r.len() == 1 {
        seq![if r[0] {
            '●'
        } else {
            '○'
        }]
    } else {
        marks_of(r.drop_last()) + seq![' ', if r.last() {
            '●'
        } else {
            '○'
        }]
    }
}

/// The proof view's scroll, kept so that the last page stays full: at most
/// the number of lines past the first sixteen.
pub open spec fn clamp_scroll(s: int, n: nat) -> int {
    let top: int = if n > 16 {
        n - 16
    } else {
        0
    };
    if s > top {
        top
    } else {
        s
    }
}

/// The sixteen lines of `lines` from `s` on (fewer at the end).
pub open spec fn window_of(lines: Seq<(Seq<char>, Color)>, s: int) -> Seq<(Seq<char>, Color)> {
    lines.subrange(s, if s + 16 < lines.len() {
        s + 16
    } else {
        lines.len() as int
    })
}

impl App {
    /// The current round read as a derivation (nothing without a round).
    pub closed spec fn derivation(&self) -> Seq<(Seq<char>, Color)> {
        match self.round {
            Some(r) => proof_lines_of(r@.history),
            None => Seq::empty(),
        }
    }

    /// The proof view's scroll, while it shows.
    pub closed spec fn proof_scroll(&self) -> Option<int> {
        match self.screen {
            Screen::Proof { scroll } => Some(scroll as int),
            _ => None,
        }
    }

    spec fn round_over_items_of(&self) -> Seq<Seq<char>> {
        match self.mode {
            Some(Mode::Duel { .. }) => seq!["rematch"@, "review the proof"@, "main menu"@],
            Some(Mode::Adversary { you, adv, .. }) => seq![
                if you >= 3 || adv >= 3 {
                    "new match"@
                } else {
                    "next round"@
                },
                "review the proof"@,
                "main menu"@,
            ],
            Some(Mode::Puzzle { index }) => seq![
                if solved_bit(self.save.solved, index as nat) && index + 1 < self.puzzles@.len() {
                    "next puzzle"@
                } else {
                    "try again"@
                },
                "review the proof"@,
                "puzzle list"@,
            ],
            Some(Mode::Gauntlet { idx, deals, .. }) => seq![
                if idx + 1 >= deals@.len() {
                    "finish"@
                } else {
                    "next formula"@
                },
                "review the proof"@,
                "abandon"@,
            ],
            None => seq!["main menu"@],
        }
    }

    /// The line under the end menu's heading: the match, session, book line
    /// or gauntlet standing.
    spec fn round_over_subtitle_of(&self) -> Option<Seq<char>> {
        match self.mode {
            Some(Mode::Adversary { you, adv, .. }) => Some(
                if you >= 3 {
                    "match over — you take it "@ + digits_of(you as nat) + "–"@ + digits_of(
                        adv as nat,
                    )
                } else if adv >= 3 {
                    "match over — the Adversary takes it "@ + digits_of(adv as nat) + "–"@
                        + digits_of(you as nat)
                } else {
                    "match to three · you "@ + digits_of(you as nat) + " — "@ + digits_of(
                        adv as nat,
                    ) + " adversary"@
                },
            ),
            Some(Mode::Duel { p1, p2, .. }) => Some(
                "session · P1 "@ + digits_of(p1 as nat) + " — "@ + digits_of(p2 as nat) + " P2"@,
            ),
            Some(Mode::Puzzle { index }) => Some(
                "book line: "@ + seq![self.puzzles@[index as int].you.glyph_of()] + " in "@
                    + digits_of(self.puzzles@[index as int].mate_in as nat),
            ),
            Some(Mode::Gauntlet { results, .. }) => Some(
                "gauntlet · "@ + digits_of(wins_of(results@)) + " of "@ + digits_of(
                    results@.len(),
                ) + " so far"@,
            ),
            None => None,
        }
    }

    spec fn pick_side_title_of(&self) -> Seq<char> {
        match self.mode {
            Some(Mode::Duel { round_no, .. }) => if round_no % 2 == 1 {
                "player 1 — price the formula, pick a side"@
            } else {
                "player 2 — price the formula, pick a side"@
            },
            _ => "price the formula, pick a side"@,
        }
    }

    /// The Adversary's side in the pie rule (⊤ until it has one).
    spec fn ai_side_of(&self) -> Side {
        match self.pending {
            Some(p) => match p.ai_side {
                Some(s) => s,
                None => Side::Top,
            },
            None => Side::Top,
        }
    }

    spec fn pick_order_title_of(&self) -> Seq<char> {
        if self.vs_ai() {
            "choose the tempo — who assigns first?"@
        } else if (match self.mode {
            Some(Mode::Duel { round_no, .. }) => round_no,
            _ => 1,
        }) % 2 == 1 {
            "player 2 — who assigns first?"@
        } else {
            "player 1 — who assigns first?"@
        }
    }

    spec fn pick_order_items_of(&self) -> Seq<Seq<char>> {
        if self.vs_ai() {
            seq![
                "you assign first ("@ + seq![self.ai_side_of().other_of().glyph_of()] + ")"@,
                "the Adversary assigns first ("@ + seq![self.ai_side_of().glyph_of()] + ")"@,
            ]
        } else {
            seq!["player 1 assigns first"@, "player 2 assigns first"@]
        }
    }

    spec fn pending_board(&self) -> Option<F> {
        match self.pending {
            Some(p) => Some(p.deal.f),
            None => None,
        }
    }

    /// What the current screen shows.
    pub closed spec fn page_of(&self) -> PageView {
        match self.screen {
            Screen::Title { sel } => page_spec(
                Some(("⊤OPP⊥E"@, text_shade())),
                Some(("two players adversarially build a valuation"@, faint_shade())),
                None,
                title_items_of(self.save.strict),
                Some(sel),
                Seq::empty(),
                "↑↓ choose · A confirm"@,
            ),
            Screen::Rules { .. } => page_spec(
                None,
                None,
                None,
                Seq::empty(),
                None,
                rules_lines_of(),
                "START to return"@,
            ),
            Screen::Difficulty { sel, duel } => page_spec(
                Some(
                    (
                        if duel {
                            "duel — board size"@
                        } else {
                            "adversary — board size"@
                        },
                        text_shade(),
                    ),
                ),
                None,
                None,
                difficulty_items_of(),
                Some(sel),
                Seq::empty(),
                "difficulty scales by the formula, never by blunders — B back"@,
            ),
            Screen::PuzzleList { sel } => {
                let n = self.puzzles@.len();
                let first = puzzle_first_of(sel as nat, n);
                let shown: nat = if n - first < 9 {
                    (n - first) as nat
                } else {
                    9
                };
                page_spec(
                    Some(("puzzles"@, text_shade())),
                    Some(("forced wins — exactly tsumego · ghost preview disabled"@, faint_shade())),
                    None,
                    Seq::new(
                        shown,
                        |k: int|
                            puzzle_item_of(
                                self.save.solved,
                                (first + k) as nat,
                                self.puzzles@[first + k].title@,
                            ),
                    ),
                    Some((sel - first) as usize),
                    Seq::empty(),
                    "A play · B back"@,
                )
            },
            Screen::GauntletMenu { sel } => page_spec(
                Some(("daily gauntlet"@, text_shade())),
                Some(
                    (
                        self.date_iso@ + " · "@ + share_code_of(
                            gauntlet_seed_of(encode_utf8(self.date_iso@)),
                        ),
                        dim_shade(),
                    ),
                ),
                None,
                seq!["play five seeded formulas"@, "enter a shared code"@],
                Some(sel),
                Seq::empty(),
                "five formulas, difficulty 1→5 · share the code, compare scores"@,
            ),
            Screen::CodeEntry { chars, pos } => page_spec(
                Some(("enter code"@, text_shade())),
                Some(("TPL-"@, faint_shade())),
                None,
                Seq::new(7, |i: int| seq![b32_char(chars@[i] as nat)]),
                Some(pos),
                Seq::empty(),
                "↑↓ change · ◂ ▸ move · A play · B back"@,
            ),
            Screen::PickSide => page_spec(
                Some((self.pick_side_title_of(), dim_shade())),
                None,
                self.pending_board(),
                seq!["X · top"@, "B · bottom"@],
                None,
                Seq::empty(),
                "the other picker chooses who assigns first"@,
            ),
            Screen::PickOrder { sel } => page_spec(
                Some((self.pick_order_title_of(), dim_shade())),
                None,
                self.pending_board(),
                self.pick_order_items_of(),
                Some(sel),
                Seq::empty(),
                "parity matters: count the atoms · A confirm"@,
            ),
            Screen::Notice { title, lines, .. } => page_spec(
                Some((title@, dim_shade())),
                None,
                self.pending_board(),
                Seq::empty(),
                None,
                lines@.map_values(|l: String| (l@, text_shade())),
                "A continue"@,
            ),
            Screen::Play => page_spec(
                None,
                None,
                None,
                Seq::empty(),
                None,
                Seq::empty(),
                Seq::empty(),
            ),
            Screen::Pause { sel } => page_spec(
                Some(("paused"@, text_shade())),
                None,
                None,
                pause_items_of(),
                Some(sel),
                Seq::empty(),
                Seq::empty(),
            ),
            Screen::RoundOver { sel, title, win } => page_spec(
                Some(
                    (
                        title@,
                        if title@.len() > 0 && title@[0] == '⊤' {
                            side_color_of(Side::Top)
                        } else if title@.len() > 0 && title@[0] == '⊥' {
                            side_color_of(Side::Bot)
                        } else if win {
                            good_shade()
                        } else {
                            bad_shade()
                        },
                    ),
                ),
                match self.round_over_subtitle_of() {
                    Some(s) => Some((s, dim_shade())),
                    None => None,
                },
                None,
                self.round_over_items_of(),
                Some(sel),
                Seq::empty(),
                Seq::empty(),
            ),
            Screen::Proof { scroll } => page_spec(
                Some(("the proof"@, text_shade())),
                Some(
                    (
                        "a finished round's move list is verbatim an equational derivation"@,
                        faint_shade(),
                    ),
                ),
                None,
                Seq::empty(),
                None,
                window_of(self.derivation(), scroll as int),
                "↑↓ scroll · B back"@,
            ),
            Screen::GauntletSummary => match self.mode {
                Some(Mode::Gauntlet { seed, results, .. }) => page_spec(
                    Some(("gauntlet complete"@, text_shade())),
                    None,
                    None,
                    Seq::empty(),
                    None,
                    seq![
                        (
                            digits_of(wins_of(results@)) + " / 5"@,
                            if wins_of(results@) >= 3 {
                                good_shade()
                            } else {
                                bad_shade()
                            },
                        ),
                        (marks_of(results@), dim_shade()),
                        (share_code_of(seed), side_color_of(Side::Top)),
                        ("share the code — same five formulas, same order"@, faint_shade()),
                    ],
                    "A menu"@,
                ),
                _ => page_spec(
                    None,
                    None,
                    None,
                    Seq::empty(),
                    None,
                    Seq::empty(),
                    Seq::empty(),
                ),
            },
        }
    }
}

fn line(s: &str, c: Color) -> (r: (String, Color))
    ensures
        r.0@ == s@,
        r.1 == c,
{
    (text(s), c)
}

/// A page with nothing on it but what the caller fills in.
fn blank_page() -> (p: Page)
    ensures
        p@ == page_spec(None, None, None, Seq::empty(), None, Seq::empty(), Seq::empty()),
{
    let p = Page {
        title: None,
        subtitle: None,
        board: None,
        items: Vec::new(),
        sel: None,
        lines: Vec::new(),
        hint: String::new(),
    };
    assert(strings_view(p.items@) =~= Seq::empty());
    assert(lines_view(p.lines@) =~= Seq::empty());
    p
}

fn rules_lines() -> (v: Vec<(String, Color)>)
    ensures
        lines_view(v@) == rules_lines_of(),
{
    let card: [&str; 20] = [
        "⊤OPP⊥E ─────────────────────────────",
        "One formula. ⊤ wants it to end ⊤;",
        "⊥ wants it to end ⊥.",
        "",
        "SETUP  Formula appears. One player",
        "picks a side; the other picks who",
        "moves first.",
        "",
        "TURN   Pick any atom on the board and",
        "set it to ⊤ or ⊥. Every occurrence is",
        "replaced at once. You must move.",
        "",
        "LAWS   The board then rewrites itself,",
        "one law at a time (mirrors apply too):",
        " ⊤∧x=x   ⊥∧x=⊥   ⊤∨x=⊤   ⊥∨x=x",
        " ⊤⇒x=x   ⊥⇒x=⊤   x⇒⊤=⊤   x⇒⊥=¬x",
        " (⊤=x)=x (⊥=x)=¬x ¬⊤=⊥ ¬⊥=⊤ ¬¬x=x",
        "",
        "WIN    The instant a lone ⊤ or ⊥",
        "remains, that side wins. No draws.",
    ];
    assert(card@.map_values(|s: &str| s@) =~= rules_card_of());
    let mut v: Vec<(String, Color)> = Vec::new();
    let mut i: usize = 0;
    while i < 20
        invariant
            i <= 20,
            card@.map_values(|s: &str| s@) == rules_card_of(),
            lines_view(v@) == rules_lines_of().take(i as int),
        decreases 20 - i,
    {
        let c = if i == 0 {
            side_color(Side::Top)
        } else if i == 4 || i == 8 || i == 12 || i == 18 {
            text_color()
        } else {
            dim()
        };
        assert(card@.map_values(|s: &str| s@)[i as int] == card[i as int]@);
        assert(c == rules_color_of(i as int));
        let l = line(card[i], c);
        let ghost before = lines_view(v@);
        v.push(l);
        assert(lines_view(v@) =~= before.push((l.0@, l.1)));
        assert(rules_lines_of().take(i + 1) =~= rules_lines_of().take(i as int).push(
            rules_lines_of()[i as int],
        ));
        i = i + 1;
    }
    assert(rules_lines_of().take(20) =~= rules_lines_of());
    v
}

impl App {
    fn title_page(&self) -> (r: Page)
        requires
            self.screen is Title,
        ensures
            r@ == self.page_of(),
    {
        let sel = match self.screen {
            Screen::Title { sel } => sel,
            _ => 0,
        };
        let mut items: Vec<String> = Vec::new();
        items.push(text("duel"));
        items.push(text("adversary"));
        items.push(text("puzzles"));
        items.push(text("daily gauntlet"));
        items.push(text("rules"));
        items.push(
            text(
                if self.save.strict {
                    "strict mode · on"
                } else {
                    "strict mode · off"
                },
            ),
        );
        items.push(text("quit"));
        assert(strings_view(items@) =~= title_items_of(self.save.strict));
        let mut p = blank_page();
        p.title = Some(line("⊤OPP⊥E", text_color()));
        p.subtitle = Some(line("two players adversarially build a valuation", faint()));
        p.items = items;
        p.sel = Some(sel);
        p.hint = text("↑↓ choose · A confirm");
        p
    }

    fn rules_page(&self) -> (r: Page)
        requires
            self.screen is Rules,
        ensures
            r@ == self.page_of(),
    {
        let mut p = blank_page();
        p.lines = rules_lines();
        p.hint = text("START to return");
        p
    }

    fn difficulty_page(&self) -> (r: Page)
        requires
            self.screen is Difficulty,
        ensures
            r@ == self.page_of(),
    {
        let (sel, duel) = match self.screen {
            Screen::Difficulty { sel, duel } => (sel, duel),
            _ => (0, false),
        };
        let mut items: Vec<String> = Vec::new();
        items.push(text("1 · four atoms, ∧ ∨"));
        items.push(text("2 · four atoms, ∧ ∨ ⇒"));
        items.push(text("3 · five atoms, ∧ ∨ ⇒ ¬"));
        items.push(text("4 · six atoms, ∧ ∨ ⇒ = ¬"));
        items.push(text("5 · eight atoms, the full mix"));
        assert(strings_view(items@) =~= difficulty_items_of());
        let mut p = blank_page();
        p.title = Some(
            line(
                if duel {
                    "duel — board size"
                } else {
                    "adversary — board size"
                },
                text_color(),
            ),
        );
        p.items = items;
        p.sel = Some(sel);
        p.hint = text("difficulty scales by the formula, never by blunders — B back");
        p
    }

    fn pause_page(&self) -> (r: Page)
        requires
            self.screen is Pause,
        ensures
            r@ == self.page_of(),
    {
        let sel = match self.screen {
            Screen::Pause { sel } => sel,
            _ => 0,
        };
        let mut items: Vec<String> = Vec::new();
        items.push(text("resume"));
        items.push(text("rules"));
        items.push(text("restart round"));
        items.push(text("quit to menu"));
        assert(strings_view(items@) =~= pause_items_of());
        let mut p = blank_page();
        p.title = Some(line("paused", text_color()));
        p.items = items;
        p.sel = Some(sel);
        p
    }
}

impl App {
    fn board_of_pending(&self) -> (r: Option<F>)
        ensures
            r == self.pending_board(),
    {
        match &self.pending {
            Some(p) => Some(p.deal.f.duplicate()),
            None => None,
        }
    }

    fn puzzles_page(&self) -> (r: Page)
        requires
            self.wf(),
            self.screen is PuzzleList,
        ensures
            r@ == self.page_of(),
    {
        let sel = match self.screen {
            Screen::PuzzleList { sel } => sel,
            _ => 0,
        };
        let n = self.puzzles.len();
        let a: usize = if sel >= 8 {
            sel - 8
        } else {
            0
        };
        let b: usize = if n >= 9 {
            n - 9
        } else {
            0
        };
        let first: usize = if a < b {
            a
        } else {
            b
        };
        let end: usize = if n - first < 9 {
            n
        } else {
            first + 9
        };
        let ghost want = Seq::new(
            (end - first) as nat,
            |k: int|
                puzzle_item_of(
                    self.save.solved,
                    (first + k) as nat,
                    self.puzzles@[first + k].title@,
                ),
        );
        let mut items: Vec<String> = Vec::new();
        let mut i: usize = first;
        while i < end
            invariant
                first <= i <= end <= n == self.puzzles@.len() <= 11,
                want == Seq::new(
                    (end - first) as nat,
                    |k: int|
                        puzzle_item_of(
                            self.save.solved,
                            (first + k) as nat,
                            self.puzzles@[first + k].title@,
                        ),
                ),
                strings_view(items@) == want.take(i - first),
            decreases end - i,
        {
            let solved = self.save.solved & (1u32 << i as u32) != 0;
            let mut t = text(
                if solved {
                    "✓ "
                } else {
                    "  "
                },
            );
            push_text(&mut t, self.puzzles[i].title.as_str());
            let ghost before = strings_view(items@);
            items.push(t);
            assert(strings_view(items@) =~= before.push(t@));
            assert(want.take(i + 1 - first) =~= want.take(i - first).push(want[i - first]));
            i = i + 1;
        }
        assert(want.take(end - first) =~= want);
        let mut p = blank_page();
        p.title = Some(line("puzzles", text_color()));
        p.subtitle = Some(line("forced wins — exactly tsumego · ghost preview disabled", faint()));
        p.items = items;
        p.sel = Some(sel - first);
        p.hint = text("A play · B back");
        p
    }

    fn gauntlet_menu_page(&self) -> (r: Page)
        requires
            self.screen is GauntletMenu,
        ensures
            r@ == self.page_of(),
    {
        let sel = match self.screen {
            Screen::GauntletMenu { sel } => sel,
            _ => 0,
        };
        let seed = gauntlet_seed(self.date_iso.as_str());
        let mut sub = self.date_iso.clone();
        push_text(&mut sub, " · ");
        push_text(&mut sub, share_code(seed).as_str());
        let mut items: Vec<String> = Vec::new();
        items.push(text("play five seeded formulas"));
        items.push(text("enter a shared code"));
        assert(strings_view(items@) =~= seq!["play five seeded formulas"@, "enter a shared code"@]);
        let mut p = blank_page();
        p.title = Some(line("daily gauntlet", text_color()));
        p.subtitle = Some((sub, dim()));
        p.items = items;
        p.sel = Some(sel);
        p.hint = text("five formulas, difficulty 1→5 · share the code, compare scores");
        p
    }

    fn code_entry_page(&self) -> (r: Page)
        requires
            self.wf(),
            self.screen is CodeEntry,
        ensures
            r@ == self.page_of(),
    {
        let (chars, pos) = match &self.screen {
            Screen::CodeEntry { chars, pos } => (chars, *pos),
            _ => {
                return blank_page();
            },
        };
        let ghost want = Seq::new(7, |i: int| seq![b32_char(chars@[i] as nat)]);
        let mut items: Vec<String> = Vec::new();
        let mut i: usize = 0;
        while i < 7
            invariant
                i <= 7,
                chars@.len() == 7,
                forall|k: int| 0 <= k < 7 ==> #[trigger] chars@[k] < 32,
                want == Seq::new(7, |k: int| seq![b32_char(chars@[k] as nat)]),
                strings_view(items@) == want.take(i as int),
            decreases 7 - i,
        {
            let mut t = String::new();
            push_char(&mut t, b32_digit(chars[i] as u64));
            let ghost before = strings_view(items@);
            items.push(t);
            assert(strings_view(items@) =~= before.push(t@));
            assert(want.take(i + 1) =~= want.take(i as int).push(want[i as int]));
            i = i + 1;
        }
        assert(want.take(7) =~= want);
        let mut p = blank_page();
        p.title = Some(line("enter code", text_color()));
        p.subtitle = Some(line("TPL-", faint()));
        p.items = items;
        p.sel = Some(pos);
        p.hint = text("↑↓ change · ◂ ▸ move · A play · B back");
        p
    }

    fn pick_side_page(&self) -> (r: Page)
        requires
            self.screen is PickSide,
        ensures
            r@ == self.page_of(),
    {
        let title = match &self.mode {
            Some(Mode::Duel { round_no, .. }) => if *round_no % 2 == 1 {
                "player 1 — price the formula, pick a side"
            } else {
                "player 2 — price the formula, pick a side"
            },
            _ => "price the formula, pick a side",
        };
        let mut items: Vec<String> = Vec::new();
        items.push(text("X · top"));
        items.push(text("B · bottom"));
        assert(strings_view(items@) =~= seq!["X · top"@, "B · bottom"@]);
        let mut p = blank_page();
        p.title = Some(line(title, dim()));
        p.board = self.board_of_pending();
        p.items = items;
        p.hint = text("the other picker chooses who assigns first");
        p
    }

    fn pick_order_page(&self) -> (r: Page)
        requires
            self.screen is PickOrder,
        ensures
            r@ == self.page_of(),
    {
        let sel = match self.screen {
            Screen::PickOrder { sel } => sel,
            _ => 0,
        };
        let mut items: Vec<String> = Vec::new();
        let title;
        if self.is_vs_ai() {
            let ai = match &self.pending {
                Some(p) => match p.ai_side {
                    Some(s) => s,
                    None => Side::Top,
                },
                None => Side::Top,
            };
            title = "choose the tempo — who assigns first?";
            let mut a = text("you assign first (");
            push_char(&mut a, ai.other().glyph());
            push_text(&mut a, ")");
            let mut b = text("the Adversary assigns first (");
            push_char(&mut b, ai.glyph());
            push_text(&mut b, ")");
            assert(ai == self.ai_side_of());
            assert(a@ =~= self.pick_order_items_of()[0]);
            assert(b@ =~= self.pick_order_items_of()[1]);
            items.push(a);
            items.push(b);
        } else {
            let round_no = match &self.mode {
                Some(Mode::Duel { round_no, .. }) => *round_no,
                _ => 1,
            };
            title = if round_no % 2 == 1 {
                "player 2 — who assigns first?"
            } else {
                "player 1 — who assigns first?"
            };
            items.push(text("player 1 assigns first"));
            items.push(text("player 2 assigns first"));
        }
        assert(strings_view(items@) =~= self.pick_order_items_of());
        let mut p = blank_page();
        p.title = Some(line(title, dim()));
        p.board = self.board_of_pending();
        p.items = items;
        p.sel = Some(sel);
        p.hint = text("parity matters: count the atoms · A confirm");
        p
    }

    fn notice_page(&self) -> (r: Page)
        requires
            self.screen is Notice,
        ensures
            r@ == self.page_of(),
    {
        let (title, lines) = match &self.screen {
            Screen::Notice { title, lines, .. } => (title, lines),
            _ => {
                return blank_page();
            },
        };
        let ghost want = lines@.map_values(|l: String| (l@, text_shade()));
        let mut out: Vec<(String, Color)> = Vec::new();
        let mut i: usize = 0;
        while i < lines.len()
            invariant
                i <= lines@.len(),
                want == lines@.map_values(|l: String| (l@, text_shade())),
                lines_view(out@) == want.take(i as int),
            decreases lines@.len() - i,
        {
            let l = (lines[i].clone(), text_color());
            let ghost before = lines_view(out@);
            out.push(l);
            assert(lines_view(out@) =~= before.push((l.0@, l.1)));
            assert(want.take(i + 1) =~= want.take(i as int).push(want[i as int]));
            i = i + 1;
        }
        assert(want.take(i as int) =~= want);
        let mut p = blank_page();
        p.title = Some((title.clone(), dim()));
        p.board = self.board_of_pending();
        p.lines = out;
        p.hint = text("A continue");
        p
    }
}

/// Everything but the screen is as it was.
spec fn same_but_screen(a: &App, b: &App) -> bool {
    &&& a.rng == b.rng
    &&& a.date_iso == b.date_iso
    &&& a.mode == b.mode
    &&& a.pending == b.pending
    &&& a.round == b.round
    &&& a.repeater == b.repeater
    &&& a.save == b.save
    &&& a.save_dirty == b.save_dirty
    &&& a.wants_exit == b.wants_exit
    &&& a.over_timer == b.over_timer
    &&& a.puzzles == b.puzzles
}

impl App {
    /// The line under the end menu's heading.
    fn round_over_subtitle(&self) -> (r: Option<String>)
        requires
            self.mode_ok(),
        ensures
            match r {
                Some(s) => self.round_over_subtitle_of() == Some(s@),
                None => self.round_over_subtitle_of() is None,
            },
    {
        match &self.mode {
            Some(Mode::Adversary { you, adv, .. }) => {
                let (you, adv) = (*you, *adv);
                let mut t = String::new();
                if you >= 3 {
                    push_text(&mut t, "match over — you take it ");
                    push_decimal(&mut t, you as u64);
                    push_text(&mut t, "–");
                    push_decimal(&mut t, adv as u64);
                } else if adv >= 3 {
                    push_text(&mut t, "match over — the Adversary takes it ");
                    push_decimal(&mut t, adv as u64);
                    push_text(&mut t, "–");
                    push_decimal(&mut t, you as u64);
                } else {
                    push_text(&mut t, "match to three · you ");
                    push_decimal(&mut t, you as u64);
                    push_text(&mut t, " — ");
                    push_decimal(&mut t, adv as u64);
                    push_text(&mut t, " adversary");
                }
                Some(t)
            },
            Some(Mode::Duel { p1, p2, .. }) => {
                let mut t = text("session · P1 ");
                push_decimal(&mut t, *p1 as u64);
                push_text(&mut t, " — ");
                push_decimal(&mut t, *p2 as u64);
                push_text(&mut t, " P2");
                Some(t)
            },
            Some(Mode::Puzzle { index }) => {
                let pz = &self.puzzles[*index];
                let mut t = text("book line: ");
                push_char(&mut t, pz.you.glyph());
                push_text(&mut t, " in ");
                push_decimal(&mut t, pz.mate_in as u64);
                Some(t)
            },
            Some(Mode::Gauntlet { results, .. }) => {
                let (wins, _) = tally(results);
                let mut t = text("gauntlet · ");
                push_decimal(&mut t, wins as u64);
                push_text(&mut t, " of ");
                push_decimal(&mut t, results.len() as u64);
                push_text(&mut t, " so far");
                Some(t)
            },
            None => None,
        }
    }

    fn round_over_page(&self) -> (r: Page)
        requires
            self.wf(),
            self.screen is RoundOver,
        ensures
            r@ == self.page_of(),
    {
        let (sel, title, win) = match &self.screen {
            Screen::RoundOver { sel, title, win } => (*sel, title, *win),
            _ => {
                return blank_page();
            },
        };
        let n = title.as_str().unicode_len();
        let color = if n > 0 && title.as_str().get_char(0) == '⊤' {
            side_color(Side::Top)
        } else if n > 0 && title.as_str().get_char(0) == '⊥' {
            side_color(Side::Bot)
        } else if win {
            good()
        } else {
            bad()
        };
        let mut p = blank_page();
        p.title = Some((title.clone(), color));
        p.subtitle = match self.round_over_subtitle() {
            Some(s) => Some((s, dim())),
            None => None,
        };
        p.items = self.round_over_items();
        p.sel = Some(sel);
        p
    }

    fn summary_page(&self) -> (r: Page)
        requires
            self.screen is GauntletSummary,
        ensures
            r@ == self.page_of(),
    {
        match &self.mode {
            Some(Mode::Gauntlet { seed, results, .. }) => {
                let (wins, marks) = tally(results);
                let mut score = String::new();
                push_decimal(&mut score, wins as u64);
                push_text(&mut score, " / 5");
                let mut lines: Vec<(String, Color)> = Vec::new();
                lines.push(
                    (
                        score,
                        if wins >= 3 {
                            good()
                        } else {
                            bad()
                        },
                    ),
                );
                lines.push((marks, dim()));
                lines.push((share_code(*seed), side_color(Side::Top)));
                lines.push(line("share the code — same five formulas, same order", faint()));
                let mut p = blank_page();
                p.title = Some(line("gauntlet complete", text_color()));
                p.lines = lines;
                p.hint = text("A menu");
                assert(lines_view(p.lines@) =~= self.page_of().lines);
                p
            },
            _ => blank_page(),
        }
    }

    fn proof_page(&mut self) -> (r: Page)
        requires
            old(self).wf(),
            old(self).screen is Proof,
        ensures
            final(self).wf(),
            same_but_screen(old(self), final(self)),
            final(self).screen is Proof,
            final(self).proof_scroll() == Some(
                clamp_scroll(old(self).proof_scroll().unwrap(), old(self).derivation().len()),
            ),
            r@ == final(self).page_of(),
    {
        let lines = match &self.round {
            Some(r) => r.proof_lines(),
            None => Vec::new(),
        };
        assert(lines_view(lines@) == self.derivation());
        let scroll = match self.screen {
            Screen::Proof { scroll } => scroll,
            _ => 0,
        };
        let n = lines.len();
        let top: usize = if n > 16 {
            n - 16
        } else {
            0
        };
        let s: i32 = if scroll as usize > top {
            top as i32
        } else {
            scroll
        };
        self.screen = Screen::Proof { scroll: s };
        let start = s as usize;
        let end: usize = if start + 16 < n {
            start + 16
        } else {
            n
        };
        let ghost all = lines_view(lines@);
        let mut out: Vec<(String, Color)> = Vec::new();
        let mut i: usize = start;
        while i < end
            invariant
                start <= i <= end <= n == lines@.len(),
                all == lines_view(lines@),
                lines_view(out@) == all.subrange(start as int, i as int),
            decreases end - i,
        {
            let l = (lines[i].0.clone(), lines[i].1);
            let ghost before = lines_view(out@);
            out.push(l);
            assert(lines_view(out@) =~= before.push((l.0@, l.1)));
            assert(all.subrange(start as int, i + 1) =~= all.subrange(start as int, i as int).push(
                all[i as int],
            ));
            i = i + 1;
        }
        let mut p = blank_page();
        p.title = Some(line("the proof", text_color()));
        p.subtitle = Some(
            line("a finished round's move list is verbatim an equational derivation", faint()),
        );
        p.lines = out;
        p.hint = text("↑↓ scroll · B back");
        p
    }

    /// What the current screen shows, for the front end to draw. On the
    /// proof view the scroll is first kept in range, so that the last page
    /// stays full.
    pub fn page(&mut self) -> (r: Page)
        requires
            old(self).wf(),
        ensures
            final(self).wf(),
            final(self)@ == old(self)@,
            final(self).derivation() == old(self).derivation(),
            final(self).proof_scroll() == match old(self).proof_scroll() {
                Some(s) => Some(clamp_scroll(s, old(self).derivation().len())),
                None => None,
            },
            final(self).scores_fit() == old(self).scores_fit(),
            final(self).rounds_fit() == old(self).rounds_fit(),
            forall|k: nat| old(self).scroll_fits(k) ==> #[trigger] final(self).scroll_fits(k),
            forall|dt: u32| #[trigger] final(self).timers_fit(dt) == old(self).timers_fit(dt),
            forall|dt: u32| old(self).repeats_fit(dt) ==> #[trigger] final(self).repeats_fit(dt),
            r@ == final(self).page_of(),
    {
        match self.screen {
            Screen::Title { .. } => self.title_page(),
            Screen::Rules { .. } => self.rules_page(),
            Screen::Difficulty { .. } => self.difficulty_page(),
            Screen::PuzzleList { .. } => self.puzzles_page(),
            Screen::GauntletMenu { .. } => self.gauntlet_menu_page(),
            Screen::CodeEntry { .. } => self.code_entry_page(),
            Screen::PickSide => self.pick_side_page(),
            Screen::PickOrder { .. } => self.pick_order_page(),
            Screen::Notice { .. } => self.notice_page(),
            Screen::Play => blank_page(),
            Screen::Pause { .. } => self.pause_page(),
            Screen::RoundOver { .. } => self.round_over_page(),
            Screen::Proof { .. } => self.proof_page(),
            Screen::GauntletSummary => self.summary_page(),
        }
    }
}

/// How many results are wins, and the results as marks.
fn tally(results: &Vec<bool>) -> (r: (usize, String))
    ensures
        r.0 == wins_of(results@),
        r.1@ == marks_of(results@),
{
    let mut wins: usize = 0;
    let mut marks = String::new();
    let mut i: usize = 0;
    while i < results.len()
        invariant
            i <= results@.len(),
            wins == wins_of(results@.take(i as int)),
            wins <= i,
            marks@ == marks_of(results@.take(i as int)),
        decreases results@.len() - i,
    {
        let r = results[i];
        if i > 0 {
            push_char(&mut marks, ' ');
        }
        push_char(
            &mut marks,
            if r {
                '●'
            } else {
                '○'
            },
        );
        if r {
            wins = wins + 1;
        }
        assert(results@.take(i + 1).drop_last() =~= results@.take(i as int));
        i = i + 1;
    }
    assert(results@.take(i as int) =~= results@);
    (wins, marks)
}

impl App {
    /// The round being played or reviewed, as the front end sees it.
    pub closed spec fn round_view(&self) -> Option<crate::round::RoundView> {
        match self.round {
            Some(r) => Some(r@),
            None => None,
        }
    }

    /// The round being played or reviewed, for the front end to draw.
    pub fn round(&self) -> (r: Option<&Round>)
        requires
            self.wf(),
        ensures
            match r {
                Some(rr) => rr.wf() && self.round_view() == Some(rr@),
                None => self.round_view() is None,
            },
    {
        match &self.round {
            Some(r) => Some(r),
            None => None,
        }
    }

    /// Where the front end drew each atom occurrence of the round's board
    /// (its line, and its x), so the cursor can walk the lines.
    pub fn place_occurrences(&mut self, places: &[(u32, i32)])
        requires
            old(self).wf(),
        ensures
            final(self).wf(),
            final(self)@ == old(self)@,
            final(self).derivation() == old(self).derivation(),
            final(self).proof_scroll() == old(self).proof_scroll(),
            final(self).scores_fit() == old(self).scores_fit(),
            final(self).rounds_fit() == old(self).rounds_fit(),
            forall|k: nat| #[trigger] final(self).scroll_fits(k) == old(self).scroll_fits(k),
            forall|dt: u32| #[trigger] final(self).timers_fit(dt) == old(self).timers_fit(dt),
            forall|dt: u32| #[trigger] final(self).repeats_fit(dt) == old(self).repeats_fit(dt),
            match old(self).round_view() {
                Some(r0) => final(self).round_view() matches Some(r1) && crate::round::placed(
                    r0,
                    r1,
                    places@,
                ),
                None => final(self).round_view() is None,
            },
    {
        let mut round = match self.round.take() {
            Some(r) => r,
            None => {
                return ;
            },
        };
        round.place_occurrences(places);
        self.round = Some(round);
    }
}


// ------------------------------------------------ what the closed views show --

/// The mode of play, seen from outside: a duel's level, round and scores; an
/// Adversary match's; the puzzle being played; a gauntlet's seed, the board
/// it is on, and whether you won each board so far.
pub enum ModeView {
    Duel { level: u8, round_no: u32, p1: u32, p2: u32 },
    Adversary { level: u8, round_no: u32, you: u32, adv: u32 },
    Puzzle { index: usize },
    Gauntlet { seed: u32, idx: usize, results: Seq<bool> },
}

spec fn mode_view_of(m: Mode) -> ModeView {
    match m {
        Mode::Duel { level, round_no, p1, p2 } => ModeView::Duel { level, round_no, p1, p2 },
        Mode::Adversary { level, round_no, you, adv } => ModeView::Adversary {
            level,
            round_no,
            you,
            adv,
        },
        Mode::Puzzle { index } => ModeView::Puzzle { index },
        Mode::Gauntlet { seed, idx, results, .. } => ModeView::Gauntlet {
            seed,
            idx,
            results: results@,
        },
    }
}

/// The mode once a round won by a player of kind `k` is scored: the winning
/// duel player or match side takes a point, and a gauntlet records whether
/// you won.
pub open spec fn scored_view(before: Option<ModeView>, k: PlayerKind) -> Option<ModeView> {
    let human = k is Human;
    match before {
        Some(ModeView::Duel { level, round_no, p1, p2 }) => Some(
            ModeView::Duel {
                level,
                round_no,
                p1: if k == PlayerKind::Human(1) {
                    (p1 + 1) as u32
                } else {
                    p1
                },
                p2: if human && k != PlayerKind::Human(1) {
                    (p2 + 1) as u32
                } else {
                    p2
                },
            },
        ),
        Some(ModeView::Adversary { level, round_no, you, adv }) => Some(
            ModeView::Adversary {
                level,
                round_no,
                you: if human {
                    (you + 1) as u32
                } else {
                    you
                },
                adv: if human {
                    adv
                } else {
                    (adv + 1) as u32
                },
            },
        ),
        Some(ModeView::Puzzle { index }) => Some(ModeView::Puzzle { index }),
        Some(ModeView::Gauntlet { seed, idx, results }) => Some(
            ModeView::Gauntlet { seed, idx, results: results.push(human) },
        ),
        None => None,
    }
}

/// The heading of the end menu after a round won by `w`, played by a player
/// of kind `k`, with `moves` human moves.
pub open spec fn finish_heading(w: Side, k: PlayerKind, mode: Option<ModeView>, moves: nat) -> Seq<
    char,
> {
    let g = seq![w.glyph_of()];
    match mode {
        Some(ModeView::Duel { .. }) => match k {
            PlayerKind::Human(n) => g + " wins — Player "@ + digits_of(n as nat),
            PlayerKind::Adversary => g + " wins"@,
        },
        Some(ModeView::Adversary { .. }) | Some(ModeView::Gauntlet { .. }) => g + if k is Human {
            " wins — you"@
        } else {
            " wins — the Adversary"@
        },
        Some(ModeView::Puzzle { .. }) => if k is Human {
            "solved in "@ + digits_of(moves)
        } else {
            "refuted"@
        },
        None => g + " wins"@,
    }
}

impl App {
    /// The mode of play, if any.
    pub open spec fn mode_view(&self) -> Option<ModeView> {
        self@.mode
    }

    /// What scoring a round leaves, seen from outside: the end menu opens on
    /// its first item under the heading for the result, the mode is scored,
    /// a puzzle solved by you is marked in the save and nothing else in the
    /// save changes, and the round, the book, the date and the generator stay.
    pub proof fn lemma_finished(&self, after: &App)
        requires
            self.finished(after),
            after.round_view() matches Some(r) && r.outcome is Some,
        ensures
            ({
                let r = after.round_view().unwrap();
                let w = r.outcome.unwrap();
                let k = r.player(w);
                let moves = crate::round::human_moves_of(r, r.history.len());
                &&& after@.screen == ScreenKind::RoundOver
                &&& after@.selection == Some(0usize)
                &&& (after.page_of().title matches Some(t) && t.0 == finish_heading(
                    w,
                    k,
                    self.mode_view(),
                    moves,
                ))
                &&& after.mode_view() == scored_view(self.mode_view(), k)
                &&& match self.mode_view() {
                    Some(ModeView::Puzzle { index }) if k is Human => after@.save == (SaveData {
                        solved: self@.save.solved | (1u32 << (index as u32)),
                        ..self@.save
                    }) && after@.save_dirty,
                    _ => after@.save == self@.save && after@.save_dirty == self@.save_dirty,
                }
                &&& after@.wants_exit == self@.wants_exit
                &&& after.book() == self.book()
            }),
    {
        let r = after.round_view().unwrap();
        let w = r.outcome.unwrap();
        let k = r.player(w);
        match self.mode {
            Some(Mode::Gauntlet { seed, idx, results, deals }) => {
                let r2 = match after.mode {
                    Some(Mode::Gauntlet { results, .. }) => results,
                    _ => results,
                };
                assert(after.mode_view() == scored_view(self.mode_view(), k));
            },
            _ => {},
        }
    }

    /// What a well-formed app guarantees, seen from outside: the saved level
    /// is a level; the book holds one to eleven playable boards; a menu's
    /// highlight is one of its items; and the round, if any, is well formed.
    pub proof fn lemma_wf_view(&self)
        requires
            self.wf(),
        ensures
            1 <= self@.save.level <= 5,
            1 <= self.book().len() <= 11,
            forall|i: int| 0 <= i < self.book().len() ==> playable(#[trigger] self.book()[i].1),
            self@.screen == ScreenKind::Title ==> self@.selection.unwrap() < 7,
            self@.screen == ScreenKind::Difficulty ==> self@.selection.unwrap() < 5,
            self@.screen == ScreenKind::Pause ==> self@.selection.unwrap() < 4,
            self@.screen == ScreenKind::RoundOver ==> self@.selection.unwrap() < 3,
            self@.screen == ScreenKind::GauntletMenu || self@.screen == ScreenKind::PickOrder
                ==> self@.selection.unwrap() <= 1,
            self@.screen == ScreenKind::CodeEntry ==> self@.selection.unwrap() < 7,
            self@.screen == ScreenKind::PuzzleList ==> self@.selection.unwrap() < self.book().len(),
    {
        assert forall|i: int| 0 <= i < self.book().len() implies playable(
            #[trigger] self.book()[i].1,
        ) by {
            assert(self.book()[i] == puzzle_view(self.puzzles@[i]));
        }
    }

    /// A handled press, seen from outside: the invariant holds after it, the
    /// held direction stays, it is a step of `press_step`, and a round that
    /// ends in play is scored.
    pub proof fn lemma_handled(&self, after: &App, b: Button)
        requires
            self.handled(after, b),
        ensures
            after.wf(),
            after@.held == self@.held,
            press_step(self@, self.round_view(), after@, after.round_view(), b),
            self@.screen == ScreenKind::Play && after@.screen == ScreenKind::RoundOver
                ==> self.finished(after),
    {
    }

    /// What the menus show: the title, level, pause and gauntlet menus list
    /// their items with the highlight where the view has it; the gauntlet
    /// menu shows today's date and code; the rules card shows the rules; the
    /// proof view shows its window of the derivation; play shows nothing.
    pub proof fn lemma_page_menus(&self)
        ensures
            self@.screen == ScreenKind::Title ==> self.page_of().items == title_items_of(
                self@.save.strict,
            ) && self.page_of().sel == self@.selection,
            self@.screen == ScreenKind::Difficulty ==> self.page_of().items
                == difficulty_items_of() && self.page_of().sel == self@.selection,
            self@.screen == ScreenKind::Pause ==> self.page_of().items == pause_items_of()
                && self.page_of().sel == self@.selection,
            self@.screen == ScreenKind::GauntletMenu ==> self.page_of().sel == self@.selection
                && (self.page_of().subtitle matches Some(st) && st.0 == self.date() + " · "@
                + share_code_of(gauntlet_seed_of(encode_utf8(self.date())))),
            self@.screen == ScreenKind::CodeEntry || self@.screen == ScreenKind::PickOrder
                || self@.screen == ScreenKind::RoundOver ==> self.page_of().sel == self@.selection,
            self@.screen == ScreenKind::Rules ==> self.page_of().lines == rules_lines_of(),
            self@.screen == ScreenKind::Proof ==> self.page_of().lines == window_of(
                self.derivation(),
                self.proof_scroll().unwrap(),
            ),
            self@.screen == ScreenKind::Play ==> self.page_of().items.len() == 0
                && self.page_of().lines.len() == 0 && self.page_of().title is None,
    {
    }
}


// ---------------------------------------------------------- laws of play --

/// The Adversary's order reply wins whenever some order wins for it: if
/// either first mover leaves `ai_side` winning under perfect play, so does the
/// first mover it picks.
pub proof fn lemma_pie_reply_wins(f: F, ai_side: Side)
    requires
        crate::solve::value_of(f, Side::Top).0 == ai_side || crate::solve::value_of(f, Side::Bot).0
            == ai_side,
    ensures
        crate::solve::value_of(f, pie_reply_of(f, ai_side)).0 == ai_side,
{
}

/// When no order wins for the Adversary, its reply is the order that drags
/// the lost game out longest.
pub proof fn lemma_pie_reply_drags(f: F, ai_side: Side)
    requires
        crate::solve::value_of(f, Side::Top).0 != ai_side,
        crate::solve::value_of(f, Side::Bot).0 != ai_side,
    ensures
        crate::solve::value_of(f, pie_reply_of(f, ai_side)).1 >= crate::solve::value_of(f, Side::Top).1,
        crate::solve::value_of(f, pie_reply_of(f, ai_side)).1 >= crate::solve::value_of(f, Side::Bot).1,
{
}

/// A gauntlet's score counts the rounds you won: the results that are wins.
pub proof fn lemma_wins_count(r: Seq<bool>)
    ensures
        wins_of(r) == r.filter(|b: bool| b).len(),
        wins_of(r) <= r.len(),
        (forall|i: int| 0 <= i < r.len() ==> r[i]) ==> wins_of(r) == r.len(),
        (forall|i: int| 0 <= i < r.len() ==> !r[i]) ==> wins_of(r) == 0,
    decreases r.len(),
{
    reveal(Seq::filter);
    if r.len() > 0 {
        lemma_wins_count(r.drop_last());
        assert(r.drop_last().len() == r.len() - 1);
        assert forall|i: int| 0 <= i < r.drop_last().len() implies r.drop_last()[i] == r[i] by {}
    }
}

/// The summary's marks: one per round in order, ● for a win and ○ for a
/// loss, with a space between each two: the mark at place `2i` is round
/// `i`'s, and every odd place holds a space.
pub proof fn lemma_marks_spell(r: Seq<bool>)
    ensures
        r.len() > 0 ==> marks_of(r).len() == 2 * r.len() - 1,
        forall|k: int|
            0 <= k < marks_of(r).len() && k % 2 == 0 ==> #[trigger] marks_of(r)[k] == if r[k / 2] {
                '●'
            } else {
                '○'
            },
        forall|k: int| 0 <= k < marks_of(r).len() && k % 2 == 1 ==> #[trigger] marks_of(r)[k] == ' ',
    decreases r.len(),
{
    if r.len() > 1 {
        let d = r.drop_last();
        lemma_marks_spell(d);
        let m = seq![' ', if r.last() {
            '●'
        } else {
            '○'
        }];
        assert(marks_of(r) == marks_of(d) + m);
        assert forall|k: int| 0 <= k < marks_of(r).len() implies #[trigger] marks_of(r)[k] == if k
            % 2 == 0 {
            if r[k / 2] {
                '●'
            } else {
                '○'
            }
        } else {
            ' '
        } by {
            if k < marks_of(d).len() {
                assert(marks_of(r)[k] == marks_of(d)[k]);
                if k % 2 == 0 {
                    assert(d[k / 2] == r[k / 2]);
                }
            } else if k == marks_of(d).len() {
                assert(k % 2 == 1);
            } else {
                assert(k == 2 * r.len() - 2);
                assert(k / 2 == r.len() - 1);
            }
        }
    }
}

} // verus!
