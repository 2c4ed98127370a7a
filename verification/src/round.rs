//! One round of ⊤OPP⊥E: a board, two players, the cascade animation.
//! The pie-rule setup happens in the app's screens; a `Round` starts when
//! sides and move order are already settled. Drawing the round is the front
//! end's business: it reads the board and the animation frames, and hands
//! back where its layout put each atom occurrence.

use crate::calendar::{digits_of, push_decimal};
use crate::fb::Color;
use crate::formula::{
    atom_char, atom_name, lemma_named_count, pretty, pretty_of, push_char, span_of, tokens, Atom,
    Path, F,
};
use crate::game::{
    after_move, apply_move, lemma_move_progress, legal_moves, winner, winner_of, Move, Side,
};
use crate::laws::{lemma_cascade_decided_or_open, lemma_trace_named, step_views, trace_of, Step, StepSpec};
use crate::theme::{dim, dim_shade, side_color, side_color_of, text, text_shade};
use crate::rng::{below_of, Rng};
use crate::solve::{solvable, Solver};
use vstd::prelude::*;
use vstd::string::StringExecFns;

verus! {

#[derive(Clone, Copy, Debug, PartialEq, Eq, Structural)]
pub enum PlayerKind {
    /// Human with a pass-and-play label (1 or 2).
    Human(u8),
    Adversary,
}

impl PlayerKind {
    pub fn is_human(self) -> (b: bool)
        ensures
            b == (self is Human),
    {
        matches!(self, PlayerKind::Human(_))
    }
}

/// One played move: who made it, the board before it, and the cascade it
/// set off.
#[derive(Debug)]
pub struct Record {
    pub mover: Side,
    pub mv: Move,
    pub before: F,
    pub steps: Vec<Step>,
}

impl Clone for Record {
    fn clone(&self) -> (r: Record)
        ensures
            r.mover == self.mover,
            r.mv == self.mv,
            r.before == self.before,
            step_views(r.steps@) == step_views(self.steps@),
    {
        let mut steps: Vec<Step> = Vec::new();
        let mut i: usize = 0;
        while i < self.steps.len()
            invariant
                i <= self.steps@.len(),
                steps@.len() == i,
                forall|j: int| 0 <= j < i ==> #[trigger] steps@[j]@ == self.steps@[j]@,
            decreases self.steps@.len() - i,
        {
            steps.push(self.steps[i].clone());
            i = i + 1;
        }
        assert(step_views(steps@) =~= step_views(self.steps@));
        Record { mover: self.mover, mv: self.mv, before: self.before.duplicate(), steps }
    }
}

pub struct RoundCfg {
    /// Ghost preview allowed (off in Strict duels and all puzzles).
    pub allow_preview: bool,
    /// Top-left label, e.g. "DUEL · ROUND 2".
    pub label: String,
    /// Optional top-right status (scores).
    pub status: String,
}

/// What the board animation marks under the glyphs.
#[derive(Debug)]
pub enum Highlight {
    Plain,
    /// Every occurrence of the atom just assigned.
    AtomAll(Atom),
    /// The redex the next law rewrites.
    Redex(Path),
}

/// One beat of the move animation: the board to show, what to mark, the
/// toast (its text, and whether it names a law), and how long it stays.
#[derive(Debug)]
pub struct AnimFrame {
    pub board: F,
    pub highlight: Highlight,
    pub toast: Option<(String, bool)>,
    pub dur: u32,
}

struct Anim {
    frames: Vec<AnimFrame>,
    idx: usize,
    t: u32,
}

pub const SUBST_MS: u32 = 700;

pub const LAW_MS: u32 = 850;

pub const FINAL_MS: u32 = 300;

/// How long the Adversary "thinks" before it moves.
pub const AI_DELAY_MS: u32 = 700;

/// An atom glyph of the laid-out board: its atom, the path of its node, and
/// where the layout put it (its line, and its x in layout units).
#[derive(Debug)]
pub struct Occurrence {
    pub atom: Atom,
    pub path: Path,
    pub line: u32,
    pub x: i32,
}

pub struct Round {
    pub board: F,
    pub to_move: Side,
    pub top_player: PlayerKind,
    pub bot_player: PlayerKind,
    pub cfg: RoundCfg,
    pub history: Vec<Record>,
    pub outcome: Option<Side>,
    cursor: usize,
    zoom: Option<Path>,
    preview: bool,
    anim: Option<Anim>,
    ai_timer: u32,
    solver: Solver,
    layout: Option<Vec<Occurrence>>,
}

pub open spec fn player_of(top: PlayerKind, bot: PlayerKind, s: Side) -> PlayerKind {
    match s {
        Side::Top => top,
        Side::Bot => bot,
    }
}

/// A board the round can go on from: solvable, and a decided board is a
/// decided round.
proof fn lemma_after_move_solvable(f: F, mv: Move)
    requires
        solvable(f),
        f.count_of(mv.atom) > 0,
    ensures
        solvable(after_move(f, mv)),
{
    lemma_move_progress(f, mv);
    lemma_cascade_decided_or_open(f.subst(mv.atom, mv.value));
}

/// What a round is, seen from outside: the position, the players, what has
/// been played, and the timers that drive the animation and the Adversary.
pub struct RoundView {
    pub board: F,
    pub to_move: Side,
    pub top_player: PlayerKind,
    pub bot_player: PlayerKind,
    pub allow_preview: bool,
    pub history: Seq<Record>,
    pub outcome: Option<Side>,
    pub animating: bool,
    /// The atom under the cursor, once the board has been laid out.
    pub hovered: Option<Atom>,
    /// Milliseconds into the current animation beat (0 when idle).
    pub anim_ms: nat,
    /// Milliseconds the Adversary has been thinking.
    pub ai_ms: nat,
    /// The ghost preview is switched on.
    pub previewing: bool,
    /// The top bar's label and status texts.
    pub label: Seq<char>,
    pub status: Seq<char>,
    /// Which occurrence of the laid-out board the cursor is on.
    pub cursor: nat,
    /// The subformula the view is zoomed into, if any.
    pub zoom: Option<Seq<u8>>,
    /// The animation beat on screen, while the cascade plays.
    pub frame: Option<AnimFrame>,
    /// Every beat of the move animation in order (empty when idle), and
    /// which of them is on screen.
    pub frames: Seq<AnimFrame>,
    pub frame_idx: nat,
    /// Where each atom occurrence of the laid-out board sits (its line, its
    /// x, and the path of its node), once the board has been laid out.
    pub places: Option<Seq<(u32, i32, Seq<u8>)>>,
}

impl View for Round {
    type V = RoundView;

    closed spec fn view(&self) -> RoundView {
        RoundView {
            board: self.board,
            to_move: self.to_move,
            top_player: self.top_player,
            bot_player: self.bot_player,
            allow_preview: self.cfg.allow_preview,
            history: self.history@,
            outcome: self.outcome,
            animating: self.anim is Some,
            hovered: match self.layout {
                Some(occs) => if self.cursor < occs@.len() {
                    Some(occs@[self.cursor as int].atom)
                } else {
                    None
                },
                None => None,
            },
            anim_ms: match self.anim {
                Some(a) => a.t as nat,
                None => 0,
            },
            ai_ms: self.ai_timer as nat,
            previewing: self.preview,
            label: self.cfg.label@,
            status: self.cfg.status@,
            cursor: self.cursor as nat,
            zoom: match self.zoom {
                Some(p) => Some(p@),
                None => None,
            },
            places: match self.layout {
                Some(occs) => Some(occs@.map_values(|o: Occurrence| (o.line, o.x, o.path@))),
                None => None,
            },
            frame: match self.anim {
                Some(a) => if a.idx < a.frames@.len() {
                    Some(a.frames@[a.idx as int])
                } else {
                    None
                },
                None => None,
            },
            frames: match self.anim {
                Some(a) => a.frames@,
                None => Seq::empty(),
            },
            frame_idx: match self.anim {
                Some(a) => a.idx as nat,
                None => 0,
            },
        }
    }
}

impl RoundView {
    /// Every recorded move was played on a live, solvable board.
    pub open spec fn history_ok(self) -> bool {
        forall|i: int| 0 <= i < self.history.len() ==> record_ok(#[trigger] self.history[i])
    }

    pub open spec fn player(self, s: Side) -> PlayerKind {
        player_of(self.top_player, self.bot_player, s)
    }

    pub open spec fn mover_is_human(self) -> bool {
        self.player(self.to_move) is Human
    }

    /// Whether a press is used: any face button during an animation (to
    /// fast-forward it), every pad button but START and SELECT on an idle
    /// human turn, nothing otherwise.
    pub open spec fn consumes(self, b: crate::input::Button) -> bool {
        if self.animating {
            b is A || b is B || b is X || b is Y
        } else if self.outcome is Some || !self.mover_is_human() {
            false
        } else {
            !(b is Start || b is Select)
        }
    }
}

impl Round {
    /// The round's invariant: the board is one the solver can read, the
    /// solver's memo is sound, a finished animation has been applied, and a
    /// board with no atoms left has its outcome recorded.
    pub closed spec fn wf(&self) -> bool {
        &&& solvable(self.board)
        &&& self.solver.wf()
        &&& (self.anim is Some ==> self.outcome is None)
        &&& (self.anim is None ==> self.outcome == winner_of(self.board))
        &&& (self.anim matches Some(a) ==> a.idx <= a.frames@.len())
        &&& forall|i: int| 0 <= i < self.history@.len() ==> record_ok(#[trigger] self.history@[i])
    }

    pub fn new(board: F, first: Side, top_player: PlayerKind, bot_player: PlayerKind, cfg: RoundCfg) -> (r: Round)
        requires
            solvable(board),
            !(board is Const),
        ensures
            r.wf(),
            fresh(r@, board, first, top_player, bot_player, cfg.allow_preview, cfg.label@, cfg.status@),
    {
        Round {
            board,
            to_move: first,
            top_player,
            bot_player,
            cfg,
            history: Vec::new(),
            outcome: None,
            cursor: 0,
            zoom: None,
            preview: false,
            anim: None,
            ai_timer: 0,
            solver: Solver::new(),
            layout: None,
        }
    }

    pub fn player(&self, s: Side) -> (p: PlayerKind)
        ensures
            p == self@.player(s),
    {
        match s {
            Side::Top => self.top_player,
            Side::Bot => self.bot_player,
        }
    }

    pub fn mover_is_human(&self) -> (b: bool)
        ensures
            b == self@.mover_is_human(),
    {
        self.player(self.to_move).is_human()
    }

    pub fn animating(&self) -> (b: bool)
        ensures
            b == self@.animating,
    {
        self.anim.is_some()
    }

    /// Which occurrence the cursor is on.
    pub fn cursor(&self) -> (c: usize)
        ensures
            c == self@.cursor,
    {
        self.cursor
    }

    /// The path of the subformula the view is zoomed into, if any.
    pub fn zoom(&self) -> (z: Option<Path>)
        ensures
            match z {
                Some(p) => self@.zoom == Some(p@),
                None => self@.zoom is None,
            },
    {
        match &self.zoom {
            Some(p) => Some(p.clone()),
            None => None,
        }
    }

    /// The animation beat on screen, while the cascade plays.
    pub fn frame(&self) -> (r: Option<&AnimFrame>)
        ensures
            match r {
                Some(f) => self@.frame == Some(*f),
                None => self@.frame is None,
            },
    {
        match &self.anim {
            Some(a) => if a.idx < a.frames.len() {
                Some(&a.frames[a.idx])
            } else {
                None
            },
            None => None,
        }
    }

    /// The atom under the cursor, if any.
    pub fn hovered_atom(&self) -> (r: Option<Atom>)
        ensures
            r == self@.hovered,
    {
        match &self.layout {
            Some(occs) => if self.cursor < occs.len() {
                Some(occs[self.cursor].atom)
            } else {
                None
            },
            None => None,
        }
    }

    /// The occurrence the cursor marks among the `n` the front end drew, on
    /// a human's idle turn: the cursor's own, or the last one when the
    /// cursor has run past the end.
    pub fn hovered_index(&self, n: usize) -> (r: Option<usize>)
        ensures
            r == (if !self@.animating && self@.outcome is None && self@.mover_is_human() && n > 0 {
                Some(clamp_cursor(self@.cursor, n as nat) as usize)
            } else {
                None
            }),
    {
        if self.anim.is_some() || self.outcome.is_some() || !self.mover_is_human() || n == 0 {
            None
        } else if self.cursor < n - 1 {
            Some(self.cursor)
        } else {
            Some(n - 1)
        }
    }

    /// Make sure the cursor has occurrences to walk: input can arrive before
    /// the board is first drawn. Until the front end places them, every
    /// occurrence sits on one line.
    fn ensure_layout(&mut self)
        requires
            old(self).wf(),
        ensures
            final(self).wf(),
            final(self).layout is Some,
            final(self).board == old(self).board,
            final(self).outcome == old(self).outcome,
            final(self).to_move == old(self).to_move,
            final(self).history == old(self).history,
            final(self).anim == old(self).anim,
            final(self).cursor == old(self).cursor,
            final(self).zoom == old(self).zoom,
            final(self).ai_timer == old(self).ai_timer,
            final(self).top_player == old(self).top_player,
            final(self).bot_player == old(self).bot_player,
            final(self).cfg == old(self).cfg,
            final(self).preview == old(self).preview,
            old(self).layout is Some ==> final(self).layout == old(self).layout,
    {
        if self.layout.is_some() {
            return ;
        }
        let all = tokens(&self.board);
        let (start, end) = match &self.zoom {
            Some(p) => match span_of(&all, p.as_slice()) {
                Some((s, e)) => (s, e),
                None => (0, all.len()),
            },
            None => (0, all.len()),
        };
        let mut occs: Vec<Occurrence> = Vec::new();
        let mut i = start;
        while i < end
            invariant
                start <= i <= end <= all@.len(),
            decreases end - i,
        {
            if let Some(a) = all[i].atom {
                occs.push(Occurrence { atom: a, path: all[i].path.clone(), line: 0, x: 0 });
            }
            i = i + 1;
        }
        self.layout = Some(occs);
    }

    /// The front end's layout, once it has drawn the board: the line and x
    /// of each occurrence, in reading order.
    pub fn place_occurrences(&mut self, places: &[(u32, i32)])
        requires
            old(self).wf(),
        ensures
            final(self).wf(),
            placed(old(self)@, final(self)@, places@),
    {
        self.ensure_layout();
        let mut occs = match self.layout.take() {
            Some(o) => o,
            None => Vec::new(),
        };
        let ghost before = occs@;
        let ghost pl = before.map_values(|o: Occurrence| (o.line, o.x, o.path@));
        let mut i: usize = 0;
        while i < occs.len() && i < places.len()
            invariant
                i <= occs@.len(),
                i <= places@.len(),
                occs@.len() == before.len(),
                pl == before.map_values(|o: Occurrence| (o.line, o.x, o.path@)),
                forall|k: int| 0 <= k < occs@.len() ==> #[trigger] occs@[k].atom == before[k].atom,
                forall|k: int|
                    0 <= k < occs@.len() ==> (#[trigger] occs@[k].line, occs@[k].x, occs@[k].path@)
                        == if k < i {
                        (places@[k].0, places@[k].1, pl[k].2)
                    } else {
                        pl[k]
                    },
            decreases occs@.len() - i,
        {
            let (line, x) = places[i];
            let path = occs[i].path.clone();
            assert((occs@[i as int].line, occs@[i as int].x, occs@[i as int].path@) == pl[i as int]);
            assert(path@ =~= occs@[i as int].path@);
            let moved = Occurrence { atom: occs[i].atom, path, line, x };
            occs.set(i, moved);
            i = i + 1;
        }
        proof {
            let want = Seq::new(
                pl.len(),
                |k: int|
                    if k < places@.len() {
                        (places@[k].0, places@[k].1, pl[k].2)
                    } else {
                        pl[k]
                    },
            );
            assert forall|k: int| 0 <= k < occs@.len() implies occs@.map_values(
                |o: Occurrence| (o.line, o.x, o.path@),
            )[k] == want[k] by {
                assert(k < i ==> k < places@.len());
                assert(k >= i ==> (i == occs@.len() || i == places@.len()));
            }
            assert(occs@.map_values(|o: Occurrence| (o.line, o.x, o.path@)) =~= want);
        }
        self.layout = Some(occs);
    }
}


/// `after` is `before` with the front end's places for its atom
/// occurrences (line and x, in reading order) stored: the game, players,
/// timers, cursor, zoom and a hovered atom stay; the board is laid out; and
/// where it was laid out already, the first occurrences take the given places.
pub open spec fn placed(before: RoundView, after: RoundView, places: Seq<(u32, i32)>) -> bool {
    &&& after.board == before.board
    &&& after.outcome == before.outcome
    &&& after.to_move == before.to_move
    &&& after.history == before.history
    &&& after.animating == before.animating
    &&& after.top_player == before.top_player
    &&& after.bot_player == before.bot_player
    &&& after.anim_ms == before.anim_ms
    &&& after.ai_ms == before.ai_ms
    &&& (before.hovered is Some ==> after.hovered == before.hovered)
    &&& after.cursor == before.cursor
    &&& after.zoom == before.zoom
    &&& after.places is Some
    &&& match before.places {
        Some(pl) => after.places == Some(
            Seq::new(
                pl.len(),
                |k: int|
                    if k < places.len() {
                        (places[k].0, places[k].1, pl[k].2)
                    } else {
                        pl[k]
                    },
            ),
        ),
        None => true,
    }
}

/// The cursor kept on one of `n` occurrences.
pub open spec fn clamp_cursor(cur: nat, n: nat) -> nat {
    if cur < n - 1 {
        cur
    } else {
        (n - 1) as nat
    }
}

/// Where ◂ or ▸ takes the cursor among `n` occurrences: one back or on,
/// wrapping around.
pub open spec fn step_cursor(cur: nat, n: nat, forward: bool) -> nat {
    let c = clamp_cursor(cur, n);
    if forward {
        (c + 1) % n
    } else if c == 0 {
        (n - 1) as nat
    } else {
        (c - 1) as nat
    }
}

/// Occurrence `i` sits on a line below (or above) occurrence `c`.
pub open spec fn beyond(pl: Seq<(u32, i32, Seq<u8>)>, c: int, i: int, down: bool) -> bool {
    if down {
        pl[i].0 > pl[c].0
    } else {
        pl[i].0 < pl[c].0
    }
}

pub open spec fn dist(a: int, b: int) -> int {
    if a < b {
        b - a
    } else {
        a - b
    }
}

/// Seen from occurrence `c`, occurrence `i` is strictly nearer than `j`:
/// fewer lines away, or as many and nearer across.
pub open spec fn nearer(pl: Seq<(u32, i32, Seq<u8>)>, c: int, i: int, j: int) -> bool {
    let li = dist(pl[i].0 as int, pl[c].0 as int);
    let lj = dist(pl[j].0 as int, pl[c].0 as int);
    li < lj || (li == lj && dist(pl[i].1 as int, pl[c].1 as int) < dist(
        pl[j].1 as int,
        pl[c].1 as int,
    ))
}

/// Where ▴ or ▾ takes the cursor from `c`: the occurrence on a line above
/// (below) that none is nearer than, the first in reading order of those.
pub open spec fn line_target(pl: Seq<(u32, i32, Seq<u8>)>, c: int, down: bool, t: int) -> bool {
    &&& 0 <= t < pl.len()
    &&& beyond(pl, c, t, down)
    &&& forall|o: int|
        0 <= o < pl.len() && #[trigger] beyond(pl, c, o, down) ==> !nearer(pl, c, o, t) && (o < t
            ==> nearer(pl, c, t, o))
}

/// Where zooming in from the occurrence at path `p` goes: the nearest binary
/// node strictly above it, unless that is the whole board (then nowhere).
pub open spec fn zoom_target(f: F, p: Seq<u8>) -> Option<Seq<u8>>
    decreases p.len(),
{
    if p.len() == 0 {
        None
    } else {
        let q = p.drop_last();
        if f.at_path(q) matches Some(F::Bin(_, _, _)) {
            if q.len() > 0 {
                Some(q)
            } else {
                None
            }
        } else {
            zoom_target(f, q)
        }
    }
}

/// `after` is `before` with the zoom toggled: out again if zoomed, else into
/// the zoom target of the occurrence under the cursor; the cursor starts
/// over and the board is laid out afresh whenever the view changes.
pub open spec fn zoomed(before: RoundView, after: RoundView) -> bool {
    match before.zoom {
        Some(_) => after.zoom is None && after.cursor == 0 && after.places is None,
        None => match before.places {
            Some(pl) => pl.len() > 0 ==> match zoom_target(
                before.board,
                pl[clamp_cursor(before.cursor, pl.len()) as int].2,
            ) {
                Some(q) => after.zoom == Some(q) && after.cursor == 0 && after.places is None,
                None => after.zoom is None && after.cursor == before.cursor && after.places
                    == before.places,
            },
            None => after.zoom is None,
        },
    }
}

/// How many of the first `k` recorded moves a human made.
pub open spec fn human_moves_of(v: RoundView, k: nat) -> nat
    decreases k,
{
    if k == 0 {
        0
    } else {
        human_moves_of(v, (k - 1) as nat) + if v.player(v.history[k - 1].mover) is Human {
            1nat
        } else {
            0nat
        }
    }
}

/// A faithful record of a legal move played on a live, solvable board.
pub open spec fn record_ok(r: Record) -> bool {
    &&& solvable(r.before)
    &&& !(r.before is Const)
    &&& r.before.count_of(r.mv.atom) > 0
    &&& record_of(r, r.mover, r.mv, r.before)
}

/// The record of `mv` played by `mover` on `before`.
pub open spec fn record_of(r: Record, mover: Side, mv: Move, before: F) -> bool {
    &&& r.mover == mover
    &&& r.mv == mv
    &&& r.before == before
    &&& step_views(r.steps@) == crate::laws::trace_of(before.subst(mv.atom, mv.value))
}

/// A round that has not begun: the board and players it was dealt, the
/// first mover to move, nothing played, nothing animating, no timer run, and
/// the view not yet laid out, zoomed or previewed.
pub open spec fn fresh(
    v: RoundView,
    board: F,
    first: Side,
    top: PlayerKind,
    bot: PlayerKind,
    allow_preview: bool,
    label: Seq<char>,
    status: Seq<char>,
) -> bool {
    &&& v.board == board
    &&& v.to_move == first
    &&& v.top_player == top
    &&& v.bot_player == bot
    &&& v.allow_preview == allow_preview
    &&& v.label == label
    &&& v.status == status
    &&& v.history.len() == 0
    &&& v.outcome is None
    &&& !v.animating
    &&& v.frames.len() == 0
    &&& v.ai_ms == 0
    &&& v.anim_ms == 0
    &&& !v.previewing
    &&& v.cursor == 0
    &&& v.zoom is None
    &&& v.places is None
    &&& v.hovered is None
}

/// The moves the Adversary draws from: its best moves, or every legal move
/// should it have no best one.
pub open spec fn ai_pool(v: RoundView) -> Seq<Move> {
    let moves = crate::game::moves_of(v.board);
    let best = crate::solve::best_moves_of(v.board, v.to_move, moves.len());
    if best.len() > 0 {
        best
    } else {
        moves
    }
}

/// What `dt` milliseconds do to a round, with the generator going from
/// state `r0` to `r1`: an animation runs on through its beats and settles the
/// move once the last beat's time is used up; an idle human turn, or a
/// decided round, stays as it is; on the Adversary's turn it thinks, and once
/// it has thought `AI_DELAY_MS` it plays the move the generator picks
/// uniformly from its pool. Only that pick draws from the generator.
pub open spec fn ticked(before: RoundView, after: RoundView, dt: u32, r0: u64, r1: u64) -> bool {
    if before.animating {
        let at = advance(before.frames, before.frame_idx, (before.anim_ms + dt) as nat);
        &&& r1 == r0
        &&& if at.0 < before.frames.len() {
            &&& after.animating
            &&& same_game(before, after)
            &&& after.frames == before.frames
            &&& after.frame_idx == at.0
            &&& after.anim_ms == at.1
            &&& after.ai_ms == before.ai_ms
        } else {
            settled(before, after)
        }
    } else if before.outcome is Some || before.mover_is_human() {
        after == before && r1 == r0
    } else if before.ai_ms + dt < AI_DELAY_MS {
        &&& same_game(before, after)
        &&& after.ai_ms == before.ai_ms + dt
        &&& r1 == r0
    } else {
        let pool = ai_pool(before);
        let pick = below_of(r0, pool.len() as u64);
        &&& pool.len() > 0
        &&& pick.0 < pool.len()
        &&& played(before, after, pool[pick.0 as int])
        &&& r1 == pick.1
        &&& crate::game::moves_of(before.board).contains(pool[pick.0 as int])
        &&& crate::solve::best_moves_of(
            before.board,
            before.to_move,
            crate::game::moves_of(before.board).len(),
        ).contains(pool[pick.0 as int])
    }
}

/// A toast's text and whether it names a law.
pub open spec fn toast_view(t: Option<(String, bool)>) -> Option<(Seq<char>, bool)> {
    match t {
        Some((s, law)) => Some((s@, law)),
        None => None,
    }
}

/// The toast of a move: who played it (the Adversary, or nobody named),
/// the atom, `≔`, and the constant.
pub open spec fn move_toast_of(mv: Move, by_ai: bool) -> Seq<char> {
    (if by_ai {
        "Adversary: "@
    } else {
        ""@
    }) + seq![atom_char(mv.atom)] + " ≔ "@ + seq![if mv.value { '⊤' } else { '⊥' }]
}

/// The board the `k`-th law of a trace rewrites.
pub open spec fn law_board(start: F, tr: Seq<StepSpec>, k: int) -> F {
    if k == 0 {
        start
    } else {
        tr[k - 1].after
    }
}

/// The beat of the `k`-th law: the board it rewrites, its redex marked, its
/// equation toasted.
pub open spec fn law_frame(fr: AnimFrame, start: F, tr: Seq<StepSpec>, k: int) -> bool {
    &&& fr.board == law_board(start, tr, k)
    &&& fr.highlight matches Highlight::Redex(p) && p@ == tr[k].path
    &&& toast_view(fr.toast) == Some((tr[k].law.equation_of(), true))
    &&& fr.dur == LAW_MS
}

/// The animation of `mv` played on `before`: the assignment flash over every
/// occurrence of the atom with the move's toast, then one beat per law of
/// the cascade, then the settled board.
pub open spec fn cascade_frames(before: F, mv: Move, by_ai: bool, frames: Seq<AnimFrame>) -> bool {
    let start = before.subst(mv.atom, mv.value);
    let tr = trace_of(start);
    &&& frames.len() == tr.len() + 2
    &&& frames[0].board == before
    &&& frames[0].highlight == Highlight::AtomAll(mv.atom)
    &&& toast_view(frames[0].toast) == Some((move_toast_of(mv, by_ai), false))
    &&& frames[0].dur == SUBST_MS
    &&& forall|k: int| 1 <= k <= tr.len() ==> law_frame(#[trigger] frames[k], start, tr, k - 1)
    &&& frames.last().board == after_move(before, mv)
    &&& frames.last().highlight is Plain
    &&& frames.last().toast is None
    &&& frames.last().dur == FINAL_MS
}

/// Where an animation stands once `t` milliseconds have run from the start
/// of beat `i`: every beat whose time is used up is passed.
pub open spec fn advance(frames: Seq<AnimFrame>, i: nat, t: nat) -> (nat, nat)
    decreases frames.len() - i,
{
    if i < frames.len() && t >= frames[i as int].dur {
        advance(frames, i + 1, (t - frames[i as int].dur) as nat)
    } else {
        (i, t)
    }
}

/// `after` is `before` with `mv` played by the side to move: the board
/// rewritten, the move recorded, and its animation started.
pub open spec fn played(before: RoundView, after: RoundView, mv: Move) -> bool {
    &&& before.board.count_of(mv.atom) > 0
    &&& after.board == after_move(before.board, mv)
    &&& after.history.len() == before.history.len() + 1
    &&& after.history.subrange(0, before.history.len() as int) == before.history
    &&& record_of(after.history.last(), before.to_move, mv, before.board)
    &&& after.animating
    &&& cascade_frames(before.board, mv, !before.mover_is_human(), after.frames)
    &&& after.frame_idx == 0
    &&& after.anim_ms == 0
    &&& after.ai_ms == 0
    &&& after.outcome is None
    &&& after.to_move == before.to_move
    &&& after.top_player == before.top_player
    &&& after.bot_player == before.bot_player
    &&& after.allow_preview == before.allow_preview
}

/// `after` is `before` with atom `a` set to `value` by the side to move.
pub open spec fn assigned(before: RoundView, after: RoundView, a: Atom, value: bool) -> bool {
    played(before, after, Move { atom: a, value })
}

/// `after` is `before` with its move animation finished: the side to move
/// passes, unless the board has collapsed, which decides the round.
pub open spec fn settled(before: RoundView, after: RoundView) -> bool {
    &&& !after.animating
    &&& after.board == before.board
    &&& after.history == before.history
    &&& after.top_player == before.top_player
    &&& after.bot_player == before.bot_player
    &&& after.allow_preview == before.allow_preview
    &&& match winner_of(before.board) {
        Some(w) => after.outcome == Some(w) && after.to_move == before.to_move,
        None => after.outcome is None && after.to_move == before.to_move.other_of(),
    }
}

/// The position and the record are as they were.
pub open spec fn same_game(before: RoundView, after: RoundView) -> bool {
    &&& after.board == before.board
    &&& after.to_move == before.to_move
    &&& after.history == before.history
    &&& after.outcome == before.outcome
    &&& after.animating == before.animating
    &&& after.top_player == before.top_player
    &&& after.bot_player == before.bot_player
    &&& after.allow_preview == before.allow_preview
}

/// What a press does to the round: a used press during an animation
/// fast-forwards it; an unused one leaves the game as it is; on an idle
/// human turn X and B assign the hovered atom, A toggles the zoom, Y the
/// ghost preview, and the d-pad walks the cursor. No timer grows.
pub open spec fn pressed(before: RoundView, after: RoundView, b: crate::input::Button) -> bool {
    let used = before.consumes(b);
    &&& (before.animating && used ==> settled(before, after))
    &&& (!used ==> same_game(before, after))
    &&& (!before.animating && used && (b is X || b is B) ==> same_game(before, after) || exists|
        a: Atom,
    | #[trigger] assigned(before, after, a, b is X))
    &&& (!before.animating && used && b is A && (before.zoom is Some || before.places is Some)
        ==> zoomed(before, after))
    &&& (!before.animating && used && (b is X || b is B) ==> match before.hovered {
        Some(a) => if before.board.count_of(a) > 0 {
            assigned(before, after, a, b is X)
        } else {
            same_game(before, after)
        },
        None => true,
    })
    &&& (!before.animating && used && !(b is X || b is B) ==> same_game(before, after))
    &&& (!before.animating && used && b is Y ==> after.previewing == (before.previewing
        != before.allow_preview))
    &&& (!before.animating && used && (b is Left || b is Right) ==> match before.places {
        Some(pl) => pl.len() > 0 ==> after.cursor == step_cursor(before.cursor, pl.len(), b is Right),
        None => true,
    })
    &&& (!before.animating && used && (b is Up || b is Down) ==> match before.places {
        Some(pl) => pl.len() > 0 ==> {
            let c = clamp_cursor(before.cursor, pl.len()) as int;
            if exists|o: int| 0 <= o < pl.len() && #[trigger] beyond(pl, c, o, b is Down) {
                line_target(pl, c, b is Down, after.cursor as int)
            } else {
                after.cursor == before.cursor
            }
        },
        None => true,
    })
    &&& after.anim_ms <= before.anim_ms
    &&& after.ai_ms <= before.ai_ms
}

impl Round {
    /// Handle a button during play. Returns true if the button was consumed.
    pub fn press(&mut self, b: crate::input::Button, rng: &mut Rng) -> (used: bool)
        requires
            old(self).wf(),
        ensures
            final(self).wf(),
            used == old(self)@.consumes(b),
            pressed(old(self)@, final(self)@, b),
    {
        self.ensure_layout();
        let ghost v1 = self@;
        if self.anim.is_some() {
            // Any face button fast-forwards the cascade.
            if matches!(b, crate::input::Button::A | crate::input::Button::B | crate::input::Button::X | crate::input::Button::Y) {
                self.finish_anim();
                return true;
            }
            return false;
        }
        if self.outcome.is_some() || !self.mover_is_human() {
            return false;
        }
        match b {
            crate::input::Button::Left => self.move_cursor(false),
            crate::input::Button::Right => self.move_cursor(true),
            crate::input::Button::Up | crate::input::Button::Down => {
                let down = matches!(b, crate::input::Button::Down);
                self.move_cursor_line(down);
                proof {
                    if let Some(pl) = old(self)@.places {
                        assert(v1.places == Some(pl));
                        assert(v1.cursor == old(self)@.cursor);
                    }
                }
            },
            crate::input::Button::X => {
                self.try_assign(true);
                proof {
                    if !same_game(v1, self@) {
                        let a = choose|a: Atom| #[trigger] assigned(v1, self@, a, true);
                        assert(assigned(old(self)@, self@, a, true));
                    }
                }
            },
            crate::input::Button::B => {
                self.try_assign(false);
                proof {
                    if !same_game(v1, self@) {
                        let a = choose|a: Atom| #[trigger] assigned(v1, self@, a, false);
                        assert(assigned(old(self)@, self@, a, false));
                    }
                }
            },
            crate::input::Button::Y => {
                if self.cfg.allow_preview {
                    self.preview = !self.preview;
                }
            },
            crate::input::Button::A => self.toggle_zoom(),
            _ => return false,
        }
        true
    }

    /// Step the cursor to the next (or previous) occurrence, wrapping.
    fn move_cursor(&mut self, forward: bool)
        requires
            old(self).wf(),
        ensures
            final(self).wf(),
            same_game(old(self)@, final(self)@),
            final(self)@.places == old(self)@.places,
            match old(self)@.places {
                Some(pl) => pl.len() > 0 ==> final(self)@.cursor == step_cursor(
                    old(self)@.cursor,
                    pl.len(),
                    forward,
                ),
                None => true,
            },
            final(self)@.ai_ms <= old(self)@.ai_ms,
            final(self)@.anim_ms <= old(self)@.anim_ms,
    {
        let n = match &self.layout {
            Some(occs) => occs.len(),
            None => 0,
        };
        if n == 0 {
            return ;
        }
        let cur = if self.cursor < n - 1 {
            self.cursor
        } else {
            n - 1
        };
        self.cursor = if forward {
            (cur + 1) % n
        } else if cur == 0 {
            n - 1
        } else {
            cur - 1
        };
    }

    /// Move the cursor to the nearest occurrence on a line above (or below):
    /// fewest lines away first, then nearest across.
    fn move_cursor_line(&mut self, down: bool)
        requires
            old(self).wf(),
        ensures
            final(self).wf(),
            same_game(old(self)@, final(self)@),
            final(self)@.places == old(self)@.places,
            match old(self)@.places {
                Some(pl) => pl.len() > 0 ==> {
                    let c = clamp_cursor(old(self)@.cursor, pl.len()) as int;
                    if exists|o: int| 0 <= o < pl.len() && #[trigger] beyond(pl, c, o, down) {
                        line_target(pl, c, down, final(self)@.cursor as int)
                    } else {
                        final(self)@.cursor == old(self)@.cursor
                    }
                },
                None => true,
            },
            final(self)@.ai_ms <= old(self)@.ai_ms,
            final(self)@.anim_ms <= old(self)@.anim_ms,
    {
        let mut best: Option<(i64, i64, usize)> = None;
        match &self.layout {
            Some(occs) => {
                if occs.len() == 0 {
                    return ;
                }
                let cur = if self.cursor < occs.len() - 1 {
                    self.cursor
                } else {
                    occs.len() - 1
                };
                let cl = occs[cur].line as i64;
                let cx = occs[cur].x as i64;
                let ghost pl = occs@.map_values(|o: Occurrence| (o.line, o.x, o.path@));
                let ghost c = cur as int;
                let mut oi: usize = 0;
                while oi < occs.len()
                    invariant
                        oi <= occs@.len(),
                        pl == occs@.map_values(|o: Occurrence| (o.line, o.x, o.path@)),
                        0 <= c < pl.len(),
                        cl == pl[c].0,
                        cx == pl[c].1,
                        0 <= cl <= u32::MAX,
                        i32::MIN <= cx <= i32::MAX,
                        match best {
                            Some((bl, bx, bi)) => {
                                &&& bi < oi
                                &&& beyond(pl, c, bi as int, down)
                                &&& bl == dist(pl[bi as int].0 as int, cl as int)
                                &&& bx == dist(pl[bi as int].1 as int, cx as int)
                                &&& forall|o: int|
                                    0 <= o < oi && #[trigger] beyond(pl, c, o, down) ==> !nearer(
                                        pl,
                                        c,
                                        o,
                                        bi as int,
                                    ) && (o < bi ==> nearer(pl, c, bi as int, o))
                            },
                            None => forall|o: int| 0 <= o < oi ==> !#[trigger] beyond(pl, c, o, down),
                        },
                    decreases occs@.len() - oi,
                {
                    assert(pl[oi as int] == (occs@[oi as int].line, occs@[oi as int].x, occs@[oi as int].path@));
                    let dl = occs[oi].line as i64 - cl;
                    let wanted = if down {
                        dl > 0
                    } else {
                        dl < 0
                    };
                    if wanted {
                        let key_l = if dl < 0 {
                            -dl
                        } else {
                            dl
                        };
                        let dx = occs[oi].x as i64 - cx;
                        let key_x = if dx < 0 {
                            -dx
                        } else {
                            dx
                        };
                        let better = match best {
                            None => true,
                            Some((bl, bx, _)) => key_l < bl || (key_l == bl && key_x < bx),
                        };
                        if better {
                            best = Some((key_l, key_x, oi));
                        }
                    }
                    oi = oi + 1;
                }
            },
            None => {
                return ;
            },
        }
        if let Some((_, _, oi)) = best {
            self.cursor = oi;
        }
    }

    /// Zoom to the smallest binary subformula strictly containing the
    /// hovered atom (a pure reading aid on big boards); zoom back out.
    fn toggle_zoom(&mut self)
        requires
            old(self).wf(),
        ensures
            final(self).wf(),
            same_game(old(self)@, final(self)@),
            zoomed(old(self)@, final(self)@),
            final(self)@.ai_ms <= old(self)@.ai_ms,
            final(self)@.anim_ms <= old(self)@.anim_ms,
    {
        if self.zoom.is_some() {
            self.zoom = None;
            self.cursor = 0;
            self.layout = None;
            return ;
        }
        let mut path: Vec<u8> = match &self.layout {
            Some(occs) => {
                if occs.len() == 0 {
                    return ;
                }
                let i = if self.cursor < occs.len() - 1 {
                    self.cursor
                } else {
                    occs.len() - 1
                };
                occs[i].path.clone()
            },
            None => {
                return ;
            },
        };
        let ghost start = path@;
        proof {
            let pl = old(self)@.places.unwrap();
            assert(pl[clamp_cursor(old(self)@.cursor, pl.len()) as int].2 == start);
        }
        while path.len() > 0
            invariant
                self.wf(),
                same_game(old(self)@, self@),
                self@.ai_ms == old(self)@.ai_ms,
                self@.anim_ms == old(self)@.anim_ms,
                *self == *old(self),
                old(self).zoom is None,
                old(self)@.places matches Some(pl) && pl.len() > 0 && pl[clamp_cursor(
                    old(self)@.cursor,
                    pl.len(),
                ) as int].2 == start,
                zoom_target(self.board, path@) == zoom_target(self.board, start),
            decreases path@.len(),
        {
            let ghost before_pop = path@;
            path.pop();
            assert(path@ =~= before_pop.drop_last());
            let is_bin = match self.board.at(path.as_slice()) {
                Some(F::Bin(..)) => true,
                _ => false,
            };
            if is_bin {
                assert(zoom_target(self.board, before_pop) == if path@.len() > 0 {
                    Some(path@)
                } else {
                    None
                });
                if path.len() > 0 {
                    self.zoom = Some(path);
                    self.cursor = 0;
                    self.layout = None;
                }
                return ;
            }
        }
    }

    fn try_assign(&mut self, value: bool)
        requires
            old(self).wf(),
            old(self)@.outcome is None,
            !old(self)@.animating,
            old(self)@.mover_is_human(),
        ensures
            final(self).wf(),
            same_game(old(self)@, final(self)@) || exists|a: Atom|
                #[trigger] assigned(old(self)@, final(self)@, a, value),
            match old(self)@.hovered {
                Some(a) => if old(self)@.board.count_of(a) > 0 {
                    assigned(old(self)@, final(self)@, a, value)
                } else {
                    same_game(old(self)@, final(self)@)
                },
                None => same_game(old(self)@, final(self)@),
            },
            final(self)@.ai_ms <= old(self)@.ai_ms,
            final(self)@.anim_ms <= old(self)@.anim_ms,
    {
        let ghost v0 = self@;
        match self.hovered_atom() {
            Some(atom) => {
                self.play_move(Move::new(atom, value), false);
                assert(v0.board.count_of(atom) > 0 ==> assigned(v0, self@, atom, value));
            },
            None => {},
        }
    }

    /// Play `mv` and build its animation: the assignment flash, then one law
    /// at a time, each naming the equation that fired, then the result.
    fn play_move(&mut self, mv: Move, by_ai: bool)
        requires
            old(self).wf(),
            old(self)@.outcome is None,
            !old(self)@.animating,
            by_ai == !old(self)@.mover_is_human(),
        ensures
            final(self).wf(),
            old(self)@.board.count_of(mv.atom) > 0 ==> played(old(self)@, final(self)@, mv),
            old(self)@.board.count_of(mv.atom) == 0 ==> same_game(old(self)@, final(self)@),
            final(self)@.ai_ms <= old(self)@.ai_ms,
            final(self)@.anim_ms <= old(self)@.anim_ms,
    {
        let before = self.board.duplicate();
        let (after, steps) = match apply_move(&before, mv) {
            Ok(r) => r,
            Err(_) => {
                return ;
            },
        };
        proof {
            lemma_named_count(before, mv.atom);
            lemma_after_move_solvable(before, mv);
        }
        let mover = self.to_move;
        let ghost old_history = self.history@;
        let ghost v0 = self@;
        let rec_steps = clone_steps(&steps);
        self.history.push(Record { mover, mv, before: before.duplicate(), steps: rec_steps });
        let mut toast = String::from_str(
            if by_ai {
                "Adversary: "
            } else {
                ""
            },
        );
        push_char(&mut toast, atom_name(mv.atom));
        toast.append(" ≔ ");
        push_char(
            &mut toast,
            if mv.value {
                '⊤'
            } else {
                '⊥'
            },
        );
        assert(toast@ =~= move_toast_of(mv, by_ai));
        let mut frames: Vec<AnimFrame> = Vec::new();
        frames.push(
            AnimFrame {
                board: before.duplicate(),
                highlight: Highlight::AtomAll(mv.atom),
                toast: Some((toast, false)),
                dur: SUBST_MS,
            },
        );
        let ghost start = before.subst(mv.atom, mv.value);
        let ghost tr = trace_of(start);
        let mut cur = before.substitute(mv.atom, mv.value);
        let mut i: usize = 0;
        while i < steps.len()
            invariant
                i <= steps@.len(),
                step_views(steps@) == tr,
                tr == trace_of(start),
                frames@.len() == i + 1,
                frames@[0].board == before,
                frames@[0].highlight == Highlight::AtomAll(mv.atom),
                toast_view(frames@[0].toast) == Some((move_toast_of(mv, by_ai), false)),
                frames@[0].dur == SUBST_MS,
                forall|k: int| 1 <= k <= i ==> law_frame(#[trigger] frames@[k], start, tr, k - 1),
                cur == law_board(start, tr, i as int),
            decreases steps@.len() - i,
        {
            let s = &steps[i];
            let ghost sv = tr[i as int];
            assert(s@ == sv);
            let fr = AnimFrame {
                board: cur,
                highlight: Highlight::Redex(s.path.clone()),
                toast: Some((String::from_str(s.law.equation()), true)),
                dur: LAW_MS,
            };
            assert(law_frame(fr, start, tr, i as int));
            frames.push(fr);
            cur = s.after.duplicate();
            i = i + 1;
        }
        frames.push(
            AnimFrame { board: after.duplicate(), highlight: Highlight::Plain, toast: None, dur: FINAL_MS },
        );
        assert(frames@.len() == tr.len() + 2);
        assert forall|k: int| 1 <= k <= tr.len() implies law_frame(
            #[trigger] frames@[k],
            start,
            tr,
            k - 1,
        ) by {
            assert(frames@[k] == frames@.drop_last()[k]);
        }
        self.board = after;
        self.anim = Some(Anim { frames, idx: 0, t: 0 });
        self.zoom = None;
        self.preview = false;
        self.cursor = 0;
        self.ai_timer = 0;
        self.layout = None;
        assert(self.history@.subrange(0, old_history.len() as int) =~= old_history);
        assert(cascade_frames(v0.board, mv, by_ai, self@.frames));
    }

    fn finish_anim(&mut self)
        requires
            old(self).wf(),
            old(self)@.animating,
        ensures
            final(self).wf(),
            settled(old(self)@, final(self)@),
            final(self)@.ai_ms == old(self)@.ai_ms,
    {
        self.anim = None;
        self.after_move();
    }

    fn after_move(&mut self)
        requires
            old(self).anim is None,
            solvable(old(self).board),
            old(self).solver.wf(),
            old(self).outcome is None,
            forall|i: int|
                0 <= i < old(self).history@.len() ==> record_ok(#[trigger] old(self).history@[i]),
        ensures
            final(self).wf(),
            final(self).anim is None,
            final(self).board == old(self).board,
            final(self).history == old(self).history,
            final(self).ai_timer == old(self).ai_timer,
            final(self).cursor == old(self).cursor,
            final(self).layout == old(self).layout,
            final(self).cfg == old(self).cfg,
            final(self).top_player == old(self).top_player,
            final(self).bot_player == old(self).bot_player,
            match winner_of(old(self).board) {
                Some(w) => final(self).outcome == Some(w) && final(self).to_move == old(self).to_move,
                None => final(self).outcome is None && final(self).to_move == old(self).to_move.other_of(),
            },
    {
        match winner(&self.board) {
            Some(w) => self.outcome = Some(w),
            None => self.to_move = self.to_move.other(),
        }
    }

    /// Advance time: play out the animation, or let the Adversary think and
    /// then play one of its best moves.
    pub fn tick(&mut self, dt: u32, rng: &mut Rng)
        requires
            old(self).wf(),
            old(self)@.anim_ms + dt <= u32::MAX,
            !old(self)@.animating && old(self)@.outcome is None && !old(self)@.mover_is_human()
                ==> old(self)@.ai_ms + dt <= u32::MAX,
        ensures
            final(self).wf(),
            ticked(old(self)@, final(self)@, dt, old(rng)@, final(rng)@),
    {
        if self.anim.is_some() {
            let mut anim = match self.anim.take() {
                Some(a) => a,
                None => {
                    return ;
                },
            };
            let ghost target = advance(anim.frames@, anim.idx as nat, (anim.t + dt) as nat);
            let ghost frames0 = anim.frames@;
            anim.t = anim.t + dt;
            while anim.idx < anim.frames.len() && anim.t >= anim.frames[anim.idx].dur
                invariant
                    anim.idx <= anim.frames@.len(),
                    advance(anim.frames@, anim.idx as nat, anim.t as nat) == target,
                    anim.frames@ == frames0,
                decreases anim.frames@.len() - anim.idx,
            {
                anim.t = anim.t - anim.frames[anim.idx].dur;
                anim.idx = anim.idx + 1;
            }
            assert(advance(anim.frames@, anim.idx as nat, anim.t as nat) == (
                anim.idx as nat,
                anim.t as nat,
            ));
            if anim.idx >= anim.frames.len() {
                self.after_move();
            } else {
                self.anim = Some(anim);
            }
            return ;
        }
        if self.outcome.is_some() || self.mover_is_human() {
            return ;
        }
        // The Adversary's turn: think for a beat, then play a perfect move.
        self.ai_timer = self.ai_timer + dt;
        if self.ai_timer >= AI_DELAY_MS {
            let best = self.solver.best_moves(&self.board, self.to_move);
            let moves = if best.len() == 0 {
                legal_moves(&self.board)
            } else {
                best
            };
            proof {
                crate::solve::lemma_best_moves_keep_value(self.board, self.to_move);
                crate::solve::lemma_best_moves_legal(
                    self.board,
                    self.to_move,
                    crate::game::moves_of(self.board).len(),
                );
            }
            let mv = *rng.pick(moves.as_slice());
            proof {
                assert(moves@.contains(mv));
                assert(best@.contains(mv));
                assert(crate::game::moves_of(self.board).contains(mv));
            }
            let ghost v2 = self@;
            self.play_move(mv, true);
            proof {
                crate::game::lemma_moves_of(v2.board);
                assert(played(v2, self@, mv));
            }
        }
    }
}

fn clone_steps(steps: &Vec<Step>) -> (r: Vec<Step>)
    ensures
        step_views(r@) == step_views(steps@),
{
    let mut out: Vec<Step> = Vec::new();
    let mut i: usize = 0;
    while i < steps.len()
        invariant
            i <= steps@.len(),
            out@.len() == i,
            forall|j: int| 0 <= j < i ==> #[trigger] out@[j]@ == steps@[j]@,
        decreases steps@.len() - i,
    {
        out.push(steps[i].clone());
        i = i + 1;
    }
    assert(step_views(out@) =~= step_views(steps@));
    out
}

impl Round {
    /// What a well-formed round guarantees, seen from outside: its board is
    /// one the solver reads; an animating round is undecided and shows one of
    /// its beats or has just run out of them; an idle round's outcome is the
    /// winner of its board; and every recorded move is faithful.
    pub proof fn lemma_wf_view(&self)
        requires
            self.wf(),
        ensures
            solvable(self@.board),
            self@.animating ==> self@.outcome is None && self@.frame_idx <= self@.frames.len(),
            !self@.animating ==> self@.outcome == winner_of(self@.board) && self@.frames.len() == 0,
            self@.history_ok(),
    {
    }
}

impl Round {
    /// A well-formed round's moves were all played on live, solvable boards.
    pub proof fn lemma_history_ok(&self)
        requires
            self.wf(),
        ensures
            self@.history_ok(),
    {
    }
}

impl Round {
    pub fn outcome(&self) -> (r: Option<Side>)
        ensures
            r == self@.outcome,
    {
        self.outcome
    }

    /// How many of the recorded moves a human made.
    pub fn human_moves(&self) -> (n: usize)
        ensures
            n == human_moves_of(self@, self@.history.len()),
    {
        let mut n: usize = 0;
        let mut i: usize = 0;
        while i < self.history.len()
            invariant
                i <= self.history@.len(),
                n == human_moves_of(self@, i as nat),
                n <= i,
            decreases self.history@.len() - i,
        {
            if self.player(self.history[i].mover).is_human() {
                n = n + 1;
            }
            i = i + 1;
        }
        n
    }

    /// The milliseconds into the current animation beat, and those the
    /// Adversary has spent thinking.
    pub fn timers(&self) -> (r: (u32, u32))
        ensures
            r.0 == self@.anim_ms,
            r.1 == self@.ai_ms,
    {
        (
            match &self.anim {
                Some(a) => a.t,
                None => 0,
            },
            self.ai_timer,
        )
    }

    /// The opening board and first mover, once a move has been played.
    pub fn opening(&self) -> (r: Option<(F, Side)>)
        requires
            self.wf(),
        ensures
            match r {
                Some((f, s)) => self@.history.len() > 0 && f == self@.history[0].before && s
                    == self@.history[0].mover && solvable(f) && !(f is Const),
                None => self@.history.len() == 0,
            },
    {
        if self.history.len() == 0 {
            None
        } else {
            Some((self.history[0].before.duplicate(), self.history[0].mover))
        }
    }

    /// A copy of the round's configuration.
    pub fn config(&self) -> (c: RoundCfg)
        ensures
            c.allow_preview == self@.allow_preview,
            c.label@ == self@.label,
            c.status@ == self@.status,
    {
        RoundCfg {
            allow_preview: self.cfg.allow_preview,
            label: self.cfg.label.clone(),
            status: self.cfg.status.clone(),
        }
    }
}

// ----------------------------------------------------- what the round shows --

/// Lines of text, each with the colour it is drawn in.
pub open spec fn lines_view(v: Seq<(String, Color)>) -> Seq<(Seq<char>, Color)> {
    v.map_values(|l: (String, Color)| (l.0@, l.1))
}

/// The glyph of a constant.
pub open spec fn const_char(b: bool) -> char {
    if b {
        '⊤'
    } else {
        '⊥'
    }
}

/// "P1 · ", "P2 · " or "Adversary · ".
pub open spec fn who_of(p: PlayerKind) -> Seq<char> {
    match p {
        PlayerKind::Human(n) => "P"@ + digits_of(n as nat) + " · "@,
        PlayerKind::Adversary => "Adversary · "@,
    }
}

/// The banner above the board: the winner, or whose turn it is, in that
/// side's colour.
pub open spec fn banner_of(v: RoundView) -> (Seq<char>, Color) {
    match v.outcome {
        Some(w) => (seq![w.glyph_of()] + " wins"@, side_color_of(w)),
        None => (
            who_of(v.player(v.to_move)) + seq![v.to_move.glyph_of()] + " to move"@,
            side_color_of(v.to_move),
        ),
    }
}

/// The help line under the board.
pub open spec fn help_of(v: RoundView) -> Seq<char> {
    if v.animating {
        "any button: fast-forward"@
    } else if v.outcome is Some {
        Seq::empty()
    } else if v.mover_is_human() {
        "◂ ▸ atom   X ⊤   B ⊥"@ + (if v.allow_preview {
            "   Y peek"@
        } else {
            Seq::empty()
        }) + "   A zoom   START menu"@
    } else {
        "the Adversary is reading the board…"@
    }
}

/// Where setting `a` to `value` lands the board `f` (the board itself when
/// `a` is not on it), as the ghost preview writes it, in the colour of the
/// side that board hands the win to, dim while undecided.
pub open spec fn preview_line_of(f: F, a: Atom, value: bool) -> (Seq<char>, Color) {
    let result = if f.count_of(a) > 0 {
        after_move(f, Move { atom: a, value })
    } else {
        f
    };
    (
        seq![atom_char(a)] + " ≔ "@ + seq![const_char(value)] + "  ▸  "@ + pretty_of(result),
        match winner_of(result) {
            Some(w) => side_color_of(w),
            None => dim_shade(),
        },
    )
}

/// `s` padded with spaces on the right to at least `w` characters.
pub open spec fn padded(s: Seq<char>, w: nat) -> Seq<char> {
    if s.len() >= w {
        s
    } else {
        s + Seq::new((w - s.len()) as nat, |i: int| ' ')
    }
}

/// A law that fired, and the board it left: one line of the derivation.
pub open spec fn law_line_of(s: StepSpec) -> (Seq<char>, Color) {
    ("      "@ + padded(s.law.equation_of(), 16) + " ⊢  "@ + pretty_of(s.after), dim_shade())
}

/// "3. ⊤  q ≔ ⊥": the `i`-th move (counting from 0), in its mover's colour.
pub open spec fn move_line_of(i: nat, r: Record) -> (Seq<char>, Color) {
    (
        digits_of(i + 1) + ". "@ + seq![r.mover.glyph_of()] + "  "@ + seq![atom_char(r.mv.atom)]
            + " ≔ "@ + seq![const_char(r.mv.value)],
        side_color_of(r.mover),
    )
}

/// The derivation's lines for the moves of `h`: for each, a blank line, the
/// move, then every law its cascade fired with the board it left.
pub open spec fn history_lines_of(h: Seq<Record>) -> Seq<(Seq<char>, Color)>
    decreases h.len(),
{
    if h.len() == 0 {
        Seq::empty()
    } else {
        history_lines_of(h.drop_last()) + seq![
            (Seq::empty(), text_shade()),
            move_line_of((h.len() - 1) as nat, h.last()),
        ] + step_views(h.last().steps@).map_values(|s: StepSpec| law_line_of(s))
    }
}

/// A finished round read as an equational derivation: the opening board,
/// then every move with the laws its cascade fired.
pub open spec fn proof_lines_of(h: Seq<Record>) -> Seq<(Seq<char>, Color)> {
    if h.len() == 0 {
        Seq::empty()
    } else {
        seq![("      "@ + pretty_of(h[0].before), text_shade())] + history_lines_of(h)
    }
}

fn text_of(s: &str) -> (r: String)
    ensures
        r@ == s@,
{
    String::from_str(s)
}

fn const_glyph(b: bool) -> (c: char)
    ensures
        c == const_char(b),
{
    if b {
        '⊤'
    } else {
        '⊥'
    }
}

/// "⊢  board" after a law's equation padded to 16 characters.
fn law_line(s: &Step) -> (r: (String, Color))
    requires
        s.after.atoms_named(),
    ensures
        (r.0@, r.1) == law_line_of(s@),
{
    let eq = s.law.equation();
    let mut line = text_of("      ");
    line.append(eq);
    let n = eq.unicode_len();
    let mut k: usize = n;
    while k < 16
        invariant
            n == eq@.len(),
            n <= k <= 16 || (k == n && n > 16),
            line@ == "      "@ + eq@ + Seq::new((k - n) as nat, |i: int| ' '),
        decreases 16 - k,
    {
        push_char(&mut line, ' ');
        assert(line@ =~= "      "@ + eq@ + Seq::new((k + 1 - n) as nat, |i: int| ' '));
        k = k + 1;
    }
    assert(line@ =~= "      "@ + padded(s.law.equation_of(), 16));
    line.append(" ⊢  ");
    line.append(pretty(&s.after).as_str());
    (line, dim())
}

impl Round {
    /// The banner above the board.
    pub fn banner(&self) -> (r: (String, Color))
        requires
            self.wf(),
        ensures
            (r.0@, r.1) == banner_of(self@),
    {
        match self.outcome {
            Some(w) => {
                let mut t = String::new();
                push_char(&mut t, w.glyph());
                t.append(" wins");
                (t, side_color(w))
            },
            None => {
                let mut t = String::new();
                match self.player(self.to_move) {
                    PlayerKind::Human(n) => {
                        t.append("P");
                        push_decimal(&mut t, n as u64);
                        t.append(" · ");
                    },
                    PlayerKind::Adversary => t.append("Adversary · "),
                }
                push_char(&mut t, self.to_move.glyph());
                t.append(" to move");
                (t, side_color(self.to_move))
            },
        }
    }

    /// The help line under the board.
    pub fn help_line(&self) -> (r: String)
        ensures
            r@ == help_of(self@),
    {
        if self.anim.is_some() {
            text_of("any button: fast-forward")
        } else if self.outcome.is_some() {
            String::new()
        } else if self.mover_is_human() {
            let mut h = text_of("◂ ▸ atom   X ⊤   B ⊥");
            if self.cfg.allow_preview {
                h.append("   Y peek");
            }
            h.append("   A zoom   START menu");
            h
        } else {
            text_of("the Adversary is reading the board…")
        }
    }

    /// The ghost preview for atom `a`: where `a ≔ ⊤` and `a ≔ ⊥` land.
    pub fn preview_lines(&self, a: Atom) -> (r: Vec<(String, Color)>)
        requires
            self.wf(),
            a < crate::formula::ATOM_COUNT,
        ensures
            lines_view(r@) == seq![
                preview_line_of(self@.board, a, true),
                preview_line_of(self@.board, a, false),
            ],
    {
        let mut out: Vec<(String, Color)> = Vec::new();
        let mut k: usize = 0;
        while k < 2
            invariant
                self.wf(),
                a < crate::formula::ATOM_COUNT,
                k <= 2,
                out@.len() == k,
                forall|j: int|
                    0 <= j < k ==> (#[trigger] out@[j]).0@ == preview_line_of(
                        self.board,
                        a,
                        j == 0,
                    ).0 && out@[j].1 == preview_line_of(self.board, a, j == 0).1,
            decreases 2 - k,
        {
            let value = k == 0;
            let mv = Move { atom: a, value };
            let result = match apply_move(&self.board, mv) {
                Ok((g, _)) => g,
                Err(_) => self.board.duplicate(),
            };
            proof {
                if self.board.count_of(a) > 0 {
                    lemma_after_move_solvable(self.board, mv);
                }
            }
            let mut t = String::new();
            push_char(&mut t, atom_name(a));
            t.append(" ≔ ");
            push_char(&mut t, const_glyph(value));
            t.append("  ▸  ");
            t.append(pretty(&result).as_str());
            let color = match winner(&result) {
                Some(w) => side_color(w),
                None => dim(),
            };
            out.push((t, color));
            k = k + 1;
        }
        assert(lines_view(out@) =~= seq![
            preview_line_of(self@.board, a, true),
            preview_line_of(self@.board, a, false),
        ]);
        out
    }

    /// The ghost preview, when it shows: switched on, no animation running,
    /// and an atom under the cursor.
    pub fn ghost_preview(&self) -> (r: Option<Vec<(String, Color)>>)
        requires
            self.wf(),
        ensures
            match r {
                Some(lines) => self@.previewing && !self@.animating && (self@.hovered matches Some(
                    a,
                ) && a < crate::formula::ATOM_COUNT && lines_view(lines@) == seq![
                    preview_line_of(self@.board, a, true),
                    preview_line_of(self@.board, a, false),
                ]),
                None => !(self@.previewing && !self@.animating && (self@.hovered matches Some(a)
                    && a < crate::formula::ATOM_COUNT)),
            },
    {
        if !self.preview || self.anim.is_some() {
            return None;
        }
        match self.hovered_atom() {
            Some(a) => if a < crate::formula::ATOM_COUNT {
                Some(self.preview_lines(a))
            } else {
                None
            },
            None => None,
        }
    }

    /// The round read as an equational derivation, line by line.
    pub fn proof_lines(&self) -> (r: Vec<(String, Color)>)
        requires
            self.wf(),
        ensures
            lines_view(r@) == proof_lines_of(self@.history),
    {
        let ghost hs = self.history@;
        let mut out: Vec<(String, Color)> = Vec::new();
        let ghost head: Seq<(Seq<char>, Color)> = Seq::empty();
        if self.history.len() > 0 {
            let mut first = text_of("      ");
            first.append(pretty(&self.history[0].before).as_str());
            out.push((first, text()));
            proof {
                head = seq![("      "@ + pretty_of(hs[0].before), text_shade())];
                assert(lines_view(out@) =~= head);
            }
        }
        let mut i: usize = 0;
        while i < self.history.len()
            invariant
                hs == self.history@,
                self.wf(),
                i <= hs.len(),
                lines_view(out@) == head + history_lines_of(hs.take(i as int)),
                hs.len() == 0 ==> head == Seq::<(Seq<char>, Color)>::empty(),
                hs.len() > 0 ==> head == seq![("      "@ + pretty_of(hs[0].before), text_shade())],
            decreases hs.len() - i,
        {
            let rec = &self.history[i];
            assert(record_ok(hs[i as int]));
            proof {
                lemma_named_count(rec.before, rec.mv.atom);
                crate::game::lemma_subst(rec.before, rec.mv.atom, rec.mv.value);
                lemma_trace_named(rec.before.subst(rec.mv.atom, rec.mv.value));
            }
            let ghost before_out = lines_view(out@);
            out.push((String::new(), text()));
            let mut m = String::new();
            push_decimal(&mut m, (i + 1) as u64);
            m.append(". ");
            push_char(&mut m, rec.mover.glyph());
            m.append("  ");
            push_char(&mut m, atom_name(rec.mv.atom));
            m.append(" ≔ ");
            push_char(&mut m, const_glyph(rec.mv.value));
            assert(m@ =~= move_line_of(i as nat, hs[i as int]).0);
            out.push((m, side_color(rec.mover)));
            let ghost mid = lines_view(out@);
            assert(mid =~= before_out + seq![
                (Seq::empty(), text_shade()),
                move_line_of(i as nat, hs[i as int]),
            ]);
            let ghost sv = step_views(rec.steps@);
            let mut j: usize = 0;
            while j < rec.steps.len()
                invariant
                    sv == step_views(rec.steps@),
                    sv == trace_of(rec.before.subst(rec.mv.atom, rec.mv.value)),
                    forall|t: int| 0 <= t < sv.len() ==> (#[trigger] sv[t]).after.atoms_named(),
                    j <= rec.steps@.len(),
                    lines_view(out@) == mid + sv.take(j as int).map_values(
                        |s: StepSpec| law_line_of(s),
                    ),
                decreases rec.steps@.len() - j,
            {
                assert(sv[j as int] == rec.steps@[j as int]@);
                let line = law_line(&rec.steps[j]);
                let ghost before_j = lines_view(out@);
                out.push(line);
                assert(lines_view(out@) =~= before_j.push((line.0@, line.1)));
                assert(sv.take(j + 1).map_values(|s: StepSpec| law_line_of(s)) =~= sv.take(
                    j as int,
                ).map_values(|s: StepSpec| law_line_of(s)).push(law_line_of(sv[j as int])));
                j = j + 1;
            }
            assert(sv.take(j as int) =~= sv);
            assert(hs.take(i + 1).drop_last() =~= hs.take(i as int));
            assert(hs.take(i + 1).last() == hs[i as int]);
            i = i + 1;
        }
        assert(hs.take(i as int) =~= hs);
        out
    }
}

} // verus!
