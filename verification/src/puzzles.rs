//! Puzzles: forced-win problems, exactly tsumego. "⊤ in 2" means the ⊤ side,
//! moving first, forces the collapse within two of its own assignments —
//! and the first move is unique, or it isn't a puzzle.

use crate::formula::{glyph_count, nonspace_count, tokens_of, Op, F};
use crate::game::{moves_of, Move, Side};
use crate::gen::{difficulty_of, gen_formula, gen_formula_of, params_ok, GenParams, GenSpec};
use crate::rng::Rng;
use crate::solve::{solvable, value_of, winning_moves_of, Solver};
use vstd::prelude::*;
use vstd::string::StringExecFns;

verus! {

#[derive(Debug)]
pub struct Puzzle {
    pub title: String,
    pub f: F,
    /// The side you play; you always move first.
    pub you: Side,
    /// Number of your assignments in the forced win.
    pub mate_in: u32,
}

impl Clone for Puzzle {
    fn clone(&self) -> (p: Puzzle)
        ensures
            p == *self,
    {
        Puzzle { title: self.title.clone(), f: self.f.duplicate(), you: self.you, mate_in: self.mate_in }
    }
}

impl Puzzle {
    /// Total plies of the forced line: your moves interleaved with replies.
    pub fn plies(&self) -> (n: u32)
        requires
            1 <= self.mate_in <= 0x7FFF_FFFF,
        ensures
            n == 2 * self.mate_in - 1,
    {
        2 * self.mate_in - 1
    }
}

/// The tsumego contract: `you` to move wins in exactly `mate_in` of your
/// assignments, with a unique winning first move.
pub open spec fn sound_of(f: F, you: Side, mate_in: u32) -> bool {
    &&& value_of(f, you).0 == you
    &&& value_of(f, you).1 == 2 * mate_in - 1
    &&& winning_moves_of(f, you, moves_of(f).len()).len() == 1
}

/// Check the tsumego contract: `you` to move wins in exactly `mate_in` of
/// your assignments, with a unique winning first move.
pub fn is_sound(p: &Puzzle) -> (b: bool)
    requires
        solvable(p.f),
        value_of(p.f, p.you).0 == p.you ==> 1 <= p.mate_in <= 0x7FFF_FFFF,
    ensures
        b == sound_of(p.f, p.you, p.mate_in),
{
    let mut s = Solver::new();
    let e = s.solve(&p.f, p.you);
    e.winner == p.you && e.plies == p.plies() && s.winning_moves(&p.f, p.you).len() == 1
}

/// The hunt: up to `remaining` more candidates, the first sound one wins.
pub open spec fn hunt_from(state: u64, p: GenSpec, you: Side, mate_in: u32, remaining: nat) -> (
    Option<F>,
    u64,
)
    decreases remaining,
{
    if remaining == 0 {
        (None, state)
    } else {
        let (f, s1) = gen_formula_of(state, p);
        if nonspace_count(tokens_of(f)) > p.max_glyphs || f is Const {
            hunt_from(s1, p, you, mate_in, (remaining - 1) as nat)
        } else if sound_of(f, you, mate_in) {
            (Some(f), s1)
        } else {
            hunt_from(s1, p, you, mate_in, (remaining - 1) as nat)
        }
    }
}

/// Hunt for a sound puzzle with the given shape. Deterministic in `rng`.
pub fn find_puzzle(rng: &mut Rng, params: &GenParams, you: Side, mate_in: u32) -> (r: Option<
    Puzzle,
>)
    requires
        params_ok(params@),
        1 <= mate_in <= 0x7FFF_FFFF,
    ensures
        ({
            let (found, st) = hunt_from(old(rng)@, params@, you, mate_in, 6000);
            &&& final(rng)@ == st
            &&& match r {
                Some(pz) => found == Some(pz.f) && pz.you == you && pz.mate_in == mate_in
                    && pz.title@ == Seq::<char>::empty(),
                None => found is None,
            }
        }),
        r matches Some(pz) ==> solvable(pz.f) && !(pz.f is Const) && sound_of(pz.f, you, mate_in),
        r matches Some(pz) ==> nonspace_count(tokens_of(pz.f)) <= params@.max_glyphs,
{
    let mut i: usize = 0;
    while i < 6000
        invariant
            i <= 6000,
            params_ok(params@),
            1 <= mate_in <= 0x7FFF_FFFF,
            hunt_from(rng@, params@, you, mate_in, (6000 - i) as nat) == hunt_from(
                old(rng)@,
                params@,
                you,
                mate_in,
                6000,
            ),
        decreases 6000 - i,
    {
        let f = gen_formula(rng, params);
        if glyph_count(&f) > params.max_glyphs || f.as_const().is_some() {
            i = i + 1;
            continue;
        }
        proof {
            crate::laws::lemma_const_free_occ(f);
        }
        let candidate = Puzzle { title: String::new(), f, you, mate_in };
        if is_sound(&candidate) {
            return Some(candidate);
        }
        i = i + 1;
    }
    None
}

/// GAME.md's "mate in 2": (p ⇒ q) ∧ (p ∨ r) ∧ (r ⇒ q), ⊤ to move.
pub open spec fn worked_example() -> F {
    let p = F::Atom(0);
    let q = F::Atom(1);
    let r = F::Atom(2);
    F::Bin(
        Op::And,
        Box::new(
            F::Bin(
                Op::And,
                Box::new(F::Bin(Op::Imp, Box::new(p), Box::new(q))),
                Box::new(F::Bin(Op::Or, Box::new(p), Box::new(r))),
            ),
        ),
        Box::new(F::Bin(Op::Imp, Box::new(r), Box::new(q))),
    )
}

/// The seeded hunts of the book: (seed, difficulty, side, mate-in, title).
pub open spec fn book_hunts() -> Seq<(u64, u8, Side, u32, Seq<char>)> {
    seq![
        (0xA11CE, 1, Side::Bot, 2, "⊥ in 2 · first cut"@),
        (0xB0B1, 2, Side::Top, 2, "⊤ in 2 · tempo"@),
        (0xB0B2, 2, Side::Bot, 2, "⊥ in 2 · poisoned pair"@),
        (0xC0DE1, 3, Side::Top, 2, "⊤ in 2 · antecedent trap"@),
        (0xC0DE2, 3, Side::Bot, 3, "⊥ in 3 · the drag"@),
        (0xD00D1, 3, Side::Top, 3, "⊤ in 3 · double threat"@),
        (0xD00D2, 4, Side::Bot, 3, "⊥ in 3 · burn the bridge"@),
        (0xE55E1, 4, Side::Top, 3, "⊤ in 3 · zugzwang"@),
        (0xE55E2, 5, Side::Top, 3, "⊤ in 3 · the long read"@),
        (0xF17A1, 5, Side::Bot, 3, "⊥ in 3 · endgame"@),
    ]
}

/// The puzzles of the book's first `k` hunts, as (title, board, side, mate-in).
pub open spec fn book_from(k: nat) -> Seq<(Seq<char>, F, Side, u32)>
    decreases k,
{
    if k == 0 {
        Seq::empty()
    } else {
        let (seed, lvl, side, mate, name) = book_hunts()[k - 1];
        let found = hunt_from(seed, difficulty_of(lvl), side, mate, 6000).0;
        book_from((k - 1) as nat) + match found {
            Some(f) => seq![(name, f, side, mate)],
            None => Seq::empty(),
        }
    }
}

pub open spec fn puzzle_view(p: Puzzle) -> (Seq<char>, F, Side, u32) {
    (p.title@, p.f, p.you, p.mate_in)
}

/// The built-in book, entry by entry: the worked example, then the puzzles
/// hunted from the fixed seeds.
pub open spec fn builtin_book() -> Seq<(Seq<char>, F, Side, u32)> {
    seq![("⊤ in 2 · the fork"@, worked_example(), Side::Top, 2u32)] + book_from(10)
}

/// The built-in book. The first entry is the worked example from the
/// design notes; the rest are dealt from fixed seeds, each hunted until sound.
pub fn builtin_puzzles() -> (v: Vec<Puzzle>)
    ensures
        v@.map_values(|p: Puzzle| puzzle_view(p)) == builtin_book(),
        forall|i: int| 0 <= i < v@.len() ==> #[trigger] sound_of(v@[i].f, v@[i].you, v@[i].mate_in),
        forall|i: int| 0 <= i < v@.len() ==> solvable(#[trigger] v@[i].f) && !(v@[i].f is Const),
        1 <= v@.len() <= 11,
{
    let mut out: Vec<Puzzle> = Vec::new();
    let p = F::Atom(0);
    let q = F::Atom(1);
    let r = F::Atom(2);
    let f = F::and(
        F::and(F::imp(p.duplicate(), q.duplicate()), F::or(p.duplicate(), r.duplicate())),
        F::imp(r, q),
    );
    proof {
        lemma_worked_example_solvable();
        crate::worked::lemma_worked_example_sound();
    }
    out.push(Puzzle { title: String::from_str("⊤ in 2 · the fork"), f, you: Side::Top, mate_in: 2 });
    let specs: [(u64, u8, Side, u32, &str); 10] = [
        (0xA11CE, 1, Side::Bot, 2, "⊥ in 2 · first cut"),
        (0xB0B1, 2, Side::Top, 2, "⊤ in 2 · tempo"),
        (0xB0B2, 2, Side::Bot, 2, "⊥ in 2 · poisoned pair"),
        (0xC0DE1, 3, Side::Top, 2, "⊤ in 2 · antecedent trap"),
        (0xC0DE2, 3, Side::Bot, 3, "⊥ in 3 · the drag"),
        (0xD00D1, 3, Side::Top, 3, "⊤ in 3 · double threat"),
        (0xD00D2, 4, Side::Bot, 3, "⊥ in 3 · burn the bridge"),
        (0xE55E1, 4, Side::Top, 3, "⊤ in 3 · zugzwang"),
        (0xE55E2, 5, Side::Top, 3, "⊤ in 3 · the long read"),
        (0xF17A1, 5, Side::Bot, 3, "⊥ in 3 · endgame"),
    ];
    let ghost first = seq![("⊤ in 2 · the fork"@, worked_example(), Side::Top, 2u32)];
    assert(out@.map_values(|p: Puzzle| puzzle_view(p)) =~= first + book_from(0));
    let mut k: usize = 0;
    while k < 10
        invariant
            k <= 10,
            forall|j: int|
                0 <= j < 10 ==> (#[trigger] specs@[j]).0 == book_hunts()[j].0 && specs@[j].1
                    == book_hunts()[j].1 && specs@[j].2 == book_hunts()[j].2 && specs@[j].3
                    == book_hunts()[j].3 && specs@[j].4@ == book_hunts()[j].4,
            out@.map_values(|p: Puzzle| puzzle_view(p)) == first + book_from(k as nat),
            forall|i: int|
                0 <= i < out@.len() ==> #[trigger] sound_of(out@[i].f, out@[i].you, out@[i].mate_in),
            forall|i: int| 0 <= i < out@.len() ==> solvable(#[trigger] out@[i].f) && !(out@[i].f is Const),
        decreases 10 - k,
    {
        let (seed, lvl, side, mate, name) = specs[k];
        let mut rng = Rng::new(seed);
        let params = GenParams::difficulty(lvl);
        let ghost before = out@;
        assert(specs@[k as int] == (seed, lvl, side, mate, name));
        let found = find_puzzle(&mut rng, &params, side, mate);
        proof {
            assert(book_hunts()[k as int] == (seed, lvl, side, mate, name@));
            assert(book_from((k + 1) as nat) == book_from(k as nat) + match hunt_from(
                seed,
                difficulty_of(lvl),
                side,
                mate,
                6000,
            ).0 {
                Some(f) => seq![(name@, f, side, mate)],
                None => Seq::empty(),
            });
        }
        if let Some(mut pz) = found {
            pz.title = String::from_str(name);
            out.push(pz);
            assert(out@.map_values(|p: Puzzle| puzzle_view(p)) =~= before.map_values(
                |p: Puzzle| puzzle_view(p),
            ).push(puzzle_view(pz)));
        }
        assert(out@.map_values(|p: Puzzle| puzzle_view(p)) =~= first + book_from((k + 1) as nat));
        k = k + 1;
    }
    proof {
        lemma_book_len(10);
        assert(out@.map_values(|p: Puzzle| puzzle_view(p)).len() == out@.len());
    }
    out
}

proof fn lemma_worked_example_solvable()
    ensures
        solvable(worked_example()),
        !(worked_example() is Const),
{
    let p = F::Atom(0);
    let q = F::Atom(1);
    let r = F::Atom(2);
    let pq = F::Bin(Op::Imp, Box::new(p), Box::new(q));
    let pr = F::Bin(Op::Or, Box::new(p), Box::new(r));
    let rq = F::Bin(Op::Imp, Box::new(r), Box::new(q));
    let left = F::Bin(Op::And, Box::new(pq), Box::new(pr));
    assert(p.size_of() == 1 && q.size_of() == 1 && r.size_of() == 1);
    assert(p.occ_of() == 1 && q.occ_of() == 1 && r.occ_of() == 1);
    assert(pq.size_of() == 3 && pr.size_of() == 3 && rq.size_of() == 3);
    assert(pq.occ_of() == 2);
    assert(left.size_of() == 7 && left.occ_of() >= 1);
    assert(p.atoms_named() && q.atoms_named() && r.atoms_named());
    assert(pq.atoms_named());
    assert(pr.atoms_named());
    assert(rq.atoms_named());
    assert(left.atoms_named());
    assert(worked_example().atoms_named());
    assert(worked_example().size_of() == 11);
    assert(worked_example().occ_of() >= 1);
}

proof fn lemma_book_len(k: nat)
    ensures
        book_from(k).len() <= k,
    decreases k,
{
    if k > 0 {
        lemma_book_len((k - 1) as nat);
    }
}



/// A sound puzzle has one winning first move and only one: `you`, to move,
/// wins, and any two legal moves after which `you` still wins are the same
/// move. A board on which two different moves keep the win is no puzzle.
pub proof fn lemma_sound_unique(f: F, you: Side, mate_in: u32, m1: Move, m2: Move)
    requires
        sound_of(f, you, mate_in),
        moves_of(f).contains(m1),
        moves_of(f).contains(m2),
        value_of(crate::game::after_move(f, m1), you.other_of()).0 == you,
        value_of(crate::game::after_move(f, m2), you.other_of()).0 == you,
    ensures
        m1 == m2,
        value_of(f, you).0 == you,
{
    crate::solve::lemma_moves_filtered(f, you);
    let ms = moves_of(f);
    let pred = |mv: Move| crate::solve::keeps_win(f, you, mv);
    let w = ms.filter(pred);
    let i1 = choose|i: int| 0 <= i < ms.len() && ms[i] == m1;
    let i2 = choose|i: int| 0 <= i < ms.len() && ms[i] == m2;
    ms.lemma_filter_contains(pred, i1);
    ms.lemma_filter_contains(pred, i2);
    assert(w.len() == 1);
    let j1 = choose|j: int| 0 <= j < w.len() && w[j] == m1;
    let j2 = choose|j: int| 0 <= j < w.len() && w[j] == m2;
}

/// Soundness needs a win: `you` to move wins, with at least one legal move
/// that keeps the win.
pub proof fn lemma_sound_wins(f: F, you: Side, mate_in: u32)
    requires
        sound_of(f, you, mate_in),
    ensures
        value_of(f, you).0 == you,
        exists|m: Move|
            #[trigger] moves_of(f).contains(m) && value_of(
                crate::game::after_move(f, m),
                you.other_of(),
            ).0 == you,
{
    crate::solve::lemma_moves_filtered(f, you);
    let ms = moves_of(f);
    let pred = |mv: Move| crate::solve::keeps_win(f, you, mv);
    let w = ms.filter(pred);
    assert(w.len() == 1);
    ms.lemma_filter_pred(pred, 0);
    ms.lemma_filter_contains_rev(pred, w[0]);
    assert(w.contains(w[0]));
    assert(ms.contains(w[0]));
}

} // verus!
