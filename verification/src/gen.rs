//! The dealer. Random formulas are cheap; tense formulas — positions whose
//! outcome flips on best play — are what get served. Every candidate is
//! solved before it reaches the screen, so there are no dead boards.

use crate::formula::{glyph_count, leaves_of, nonspace_count, tokens_of, Op, F};
use crate::game::{legal_moves, moves_of, Move, Side};
use crate::laws::const_free;
use crate::rng::{
    below_of, fnv_of, hash_str, lemma_shuffle_permutes, shuffle_from, shuffle_of, sum_of, weighted_index, Rng,
};
use crate::solve::{solvable, value_of, winning_moves_of, Solver};
use vstd::prelude::*;
use vstd::string::{StrSliceExecFns, StringSliceAdditionalSpecFns};

verus! {

#[derive(Clone, Debug)]
pub struct GenParams {
    /// Distinct atoms (≤ 8, the legibility cap).
    pub atoms: u8,
    /// Extra duplicate occurrences beyond one per atom.
    pub extra_occ: u8,
    /// Weights for ∧ ∨ ⇒ =.
    pub ops: [u64; 4],
    /// Probability (‰) of negating a generated subformula.
    pub neg_permille: u64,
    /// Non-space glyph budget (~30; a hard ceiling for 640×480).
    pub max_glyphs: usize,
}

/// The mathematical content of generator parameters.
pub struct GenSpec {
    pub atoms: u8,
    pub extra_occ: u8,
    pub ops: Seq<u64>,
    pub neg_permille: u64,
    pub max_glyphs: usize,
}

impl View for GenParams {
    type V = GenSpec;

    open spec fn view(&self) -> GenSpec {
        GenSpec {
            atoms: self.atoms,
            extra_occ: self.extra_occ,
            ops: self.ops@,
            neg_permille: self.neg_permille,
            max_glyphs: self.max_glyphs,
        }
    }
}

/// Parameters the generator can run with: at least one atom, at most the
/// eight board atoms, and operator weights with a positive total that fits.
pub open spec fn params_ok(p: GenSpec) -> bool {
    &&& 1 <= p.atoms <= 8
    &&& 0 < sum_of(p.ops) <= u64::MAX
}

pub open spec fn gen_spec(
    atoms: u8,
    extra_occ: u8,
    ops: Seq<u64>,
    neg_permille: u64,
    max_glyphs: usize,
) -> GenSpec {
    GenSpec { atoms, extra_occ, ops, neg_permille, max_glyphs }
}

/// The difficulty table, levels clamped into 1..=5.
pub open spec fn difficulty_of(level: u8) -> GenSpec {
    if level <= 1 {
        gen_spec(4, 0, seq![4, 4, 0, 0], 0, 26)
    } else if level == 2 {
        gen_spec(4, 1, seq![4, 4, 2, 0], 0, 30)
    } else if level == 3 {
        gen_spec(5, 2, seq![4, 4, 3, 0], 40, 32)
    } else if level == 4 {
        gen_spec(6, 2, seq![4, 4, 3, 1], 70, 34)
    } else {
        gen_spec(8, 1, seq![3, 3, 3, 2], 90, 34)
    }
}

impl GenParams {
    /// Difficulty scales by atom count and operator mix — never by blunders.
    pub fn difficulty(level: u8) -> (p: GenParams)
        ensures
            p@ == difficulty_of(level),
            params_ok(p@),
    {
        let lvl = if level < 1 {
            1
        } else if level > 5 {
            5
        } else {
            level
        };
        let p = match lvl {
            // Four atoms, not three: with ∧/∨ only, a side-dominant and
            // blunderable board needs two independent disjunctive threats,
            // which takes four atoms — e.g. (p ∨ q) ∧ (r ∨ s).
            1 => GenParams { atoms: 4, extra_occ: 0, ops: [4, 4, 0, 0], neg_permille: 0, max_glyphs: 26 },
            2 => GenParams { atoms: 4, extra_occ: 1, ops: [4, 4, 2, 0], neg_permille: 0, max_glyphs: 30 },
            3 => GenParams {
                atoms: 5,
                extra_occ: 2,
                ops: [4, 4, 3, 0],
                neg_permille: 40,
                max_glyphs: 32,
            },
            4 => GenParams {
                atoms: 6,
                extra_occ: 2,
                ops: [4, 4, 3, 1],
                neg_permille: 70,
                max_glyphs: 34,
            },
            _ => GenParams {
                atoms: 8,
                extra_occ: 1,
                ops: [3, 3, 3, 2],
                neg_permille: 90,
                max_glyphs: 34,
            },
        };
        proof {
            assert(p.ops@ =~= difficulty_of(level).ops);
            reveal_with_fuel(sum_of, 5);
            assert(p.ops@.drop_last().drop_last().drop_last().drop_last() =~= Seq::<u64>::empty());
        }
        p
    }
}

/// What kind of tension the mode needs.
#[derive(Clone, Copy, Debug, PartialEq, Eq, Structural)]
pub enum DealKind {
    /// One side wins no matter who moves first (but only with correct play).
    /// Served when the human's pie-rule role is picking the side.
    SideDominant,
    /// The winner depends on who moves first.
    /// Served when the human's pie-rule role is picking the tempo.
    TempoSensitive,
    /// Anything tense.
    Any,
}

/// A priced formula, ready to be played.
#[derive(Debug)]
pub struct Deal {
    pub f: F,
    /// Winner if ⊤ assigns first.
    pub if_top_first: Side,
    /// Winner if ⊥ assigns first.
    pub if_bot_first: Side,
    /// Optimal game length (plies), maximised over the two orders.
    pub plies: u32,
}

impl Clone for Deal {
    fn clone(&self) -> (d: Deal)
        ensures
            d == *self,
    {
        Deal {
            f: self.f.duplicate(),
            if_top_first: self.if_top_first,
            if_bot_first: self.if_bot_first,
            plies: self.plies,
        }
    }
}

pub open spec fn side_dominant_of(d: Deal) -> Option<Side> {
    if d.if_top_first == d.if_bot_first {
        Some(d.if_top_first)
    } else {
        None
    }
}

impl Deal {
    pub fn side_dominant(&self) -> (r: Option<Side>)
        ensures
            r == side_dominant_of(*self),
    {
        if self.if_top_first == self.if_bot_first {
            Some(self.if_top_first)
        } else {
            None
        }
    }
}

// ---------------------------------------------------------------- pricing --

/// A formula with its pie-rule price.
pub open spec fn price_of(f: F) -> Deal {
    let top = value_of(f, Side::Top);
    let bot = value_of(f, Side::Bot);
    Deal {
        f,
        if_top_first: top.0,
        if_bot_first: bot.0,
        plies: (if top.1 >= bot.1 {
            top.1
        } else {
            bot.1
        }) as u32,
    }
}

/// Solve and price a formula.
pub fn price(f: &F) -> (d: Deal)
    requires
        solvable(*f),
    ensures
        d == price_of(*f),
{
    let mut s = Solver::new();
    let top = s.solve(f, Side::Top);
    let bot = s.solve(f, Side::Bot);
    let plies = if top.plies >= bot.plies {
        top.plies
    } else {
        bot.plies
    };
    Deal { f: f.duplicate(), if_top_first: top.winner, if_bot_first: bot.winner, plies }
}

/// Is this deal worth a player's time? Never a dead board, never an instant
/// kill; then: a side-dominant deal must be throwable by the dominant side, a
/// tempo-sensitive deal must flip on the order, and any other deal must give
/// someone to move a real choice.
pub open spec fn tense_of(d: Deal, kind: DealKind) -> bool {
    let n = moves_of(d.f).len();
    if d.plies < 3 {
        false
    } else {
        match kind {
            DealKind::SideDominant => match side_dominant_of(d) {
                None => false,
                Some(w) => winning_moves_of(d.f, w, n).len() < n,
            },
            DealKind::TempoSensitive => d.if_top_first != d.if_bot_first,
            DealKind::Any => winning_moves_of(d.f, Side::Top, n).len() < n || winning_moves_of(
                d.f,
                Side::Bot,
                n,
            ).len() < n,
        }
    }
}

fn is_tense(deal: &Deal, kind: DealKind) -> (b: bool)
    requires
        deal.f.wf(),
    ensures
        b == tense_of(*deal, kind),
{
    if deal.plies < 3 {
        return false;
    }
    let mut s = Solver::new();
    match kind {
        DealKind::SideDominant => {
            let w = match deal.side_dominant() {
                Some(w) => w,
                None => {
                    return false;
                },
            };
            // The dominant side must be able to throw the game away under
            // both orders — otherwise the round plays itself.
            let firsts = [Side::Top, Side::Bot];
            let mut k: usize = 0;
            while k < 2
                invariant
                    k <= 2,
                    s.wf(),
                    deal.f.wf(),
                    firsts@ == seq![Side::Top, Side::Bot],
                    side_dominant_of(*deal) == Some(w),
                    deal.plies >= 3,
                    kind == DealKind::SideDominant,
                    forall|j: int|
                        0 <= j < k ==> !(firsts@[j] == w && winning_moves_of(
                            deal.f,
                            firsts@[j],
                            moves_of(deal.f).len(),
                        ).len() >= moves_of(deal.f).len()),
                decreases 2 - k,
            {
                let first = firsts[k];
                let total = legal_moves(&deal.f).len();
                let winning = s.winning_moves(&deal.f, first).len();
                if first == w && winning >= total {
                    return false;
                }
                k = k + 1;
            }
            assert(w == Side::Top || w == Side::Bot);
            assert(firsts@[0] == Side::Top && firsts@[1] == Side::Bot);
            true
        },
        DealKind::TempoSensitive => deal.if_top_first != deal.if_bot_first,
        DealKind::Any => {
            // Tense enough: someone to move must have a real choice.
            let total = legal_moves(&deal.f).len();
            let w_top = s.winning_moves(&deal.f, Side::Top).len();
            let w_bot = s.winning_moves(&deal.f, Side::Bot).len();
            w_top < total || w_bot < total
        },
    }
}

/// The fallback board when no tense candidate turned up: `(p ∧ q) ∨ r`.
pub open spec fn fallback_formula() -> F {
    F::Bin(
        Op::Or,
        Box::new(F::Bin(Op::And, Box::new(F::Atom(0)), Box::new(F::Atom(1)))),
        Box::new(F::Atom(2)),
    )
}

proof fn lemma_fallback_solvable()
    ensures
        solvable(fallback_formula()),
{
    let pq = F::Bin(Op::And, Box::new(F::Atom(0)), Box::new(F::Atom(1)));
    assert(F::Atom(0).size_of() == 1 && F::Atom(1).size_of() == 1 && F::Atom(2).size_of() == 1);
    assert(F::Atom(0).occ_of() == 1 && F::Atom(1).occ_of() == 1 && F::Atom(2).occ_of() == 1);
    assert(pq.size_of() == 3);
    assert(pq.occ_of() == 2);
    assert(F::Atom(0).atoms_named() && F::Atom(1).atoms_named() && F::Atom(2).atoms_named());
    assert(pq.atoms_named());
    assert(fallback_formula().atoms_named());
    assert(fallback_formula().size_of() == 5);
    assert(fallback_formula().occ_of() == 3);
}

proof fn lemma_fallback_plain()
    ensures
        no_double_negation(fallback_formula()),
{
    let p = F::Atom(0);
    let q = F::Atom(1);
    let r = F::Atom(2);
    assert(no_double_negation(p) && no_double_negation(q) && no_double_negation(r));
    let pq = F::Bin(Op::And, Box::new(p), Box::new(q));
    assert(no_double_negation(pq));
}

proof fn lemma_nonspace_add(a: Seq<crate::formula::TokenSpec>, b: Seq<crate::formula::TokenSpec>)
    ensures
        nonspace_count(a + b) == nonspace_count(a) + nonspace_count(b),
    decreases b.len(),
{
    if b.len() == 0 {
        assert(a + b =~= a);
    } else {
        lemma_nonspace_add(a, b.drop_last());
        assert((a + b).drop_last() =~= a + b.drop_last());
    }
}

proof fn lemma_nonspace_one(t: crate::formula::TokenSpec)
    ensures
        nonspace_count(seq![t]) == if t.space {
            0nat
        } else {
            1nat
        },
{
    assert(seq![t].drop_last() =~= Seq::<crate::formula::TokenSpec>::empty());
    assert(nonspace_count(Seq::<crate::formula::TokenSpec>::empty()) == 0);
    assert(seq![t].last() == t);
    assert(seq![t].len() == 1);
}

/// The fallback board `(p ∧ q) ∨ r` shows seven glyphs.
pub proof fn lemma_fallback_glyphs()
    ensures
        nonspace_count(tokens_of(fallback_formula())) == 7,
{
    let e = Seq::<u8>::empty();
    let l = e.push(0);
    let pq = F::Bin(Op::And, Box::new(F::Atom(0)), Box::new(F::Atom(1)));
    let left = crate::formula::emit_of(pq, l, Some(Op::Or));
    let mid = seq![
        crate::formula::tok(' ', e, None, true),
        crate::formula::tok('∨', e, None, false),
        crate::formula::tok(' ', e, None, true),
    ];
    let right = crate::formula::emit_of(F::Atom(2), e.push(1), None);
    assert(crate::formula::needs_paren(Op::Or, pq));
    assert(tokens_of(fallback_formula()) == Seq::<crate::formula::TokenSpec>::empty() + left + mid
        + right + Seq::<crate::formula::TokenSpec>::empty());
    let lp = seq![crate::formula::tok('(', l, None, false)];
    let rp = seq![crate::formula::tok(')', l, None, false)];
    let pe = crate::formula::emit_of(F::Atom(0), l.push(0), None);
    let qe = crate::formula::emit_of(F::Atom(1), l.push(1), None);
    let lmid = seq![
        crate::formula::tok(' ', l, None, true),
        crate::formula::tok('∧', l, None, false),
        crate::formula::tok(' ', l, None, true),
    ];
    assert(!crate::formula::needs_paren(Op::And, F::Atom(0)));
    assert(!crate::formula::needs_paren(Op::And, F::Atom(1)));
    assert(left == lp + pe + lmid + qe + rp);
    lemma_nonspace_add(lp + pe + lmid + qe, rp);
    lemma_nonspace_add(lp + pe + lmid, qe);
    lemma_nonspace_add(lp + pe, lmid);
    lemma_nonspace_add(lp, pe);
    lemma_nonspace_one(crate::formula::tok('(', l, None, false));
    lemma_nonspace_one(crate::formula::tok(')', l, None, false));
    lemma_nonspace_one(crate::formula::tok('p', l.push(0), Some(0u8), false));
    lemma_nonspace_one(crate::formula::tok('q', l.push(1), Some(1u8), false));
    lemma_nonspace_one(crate::formula::tok('r', e.push(1), Some(2u8), false));
    assert(pe == seq![crate::formula::tok('p', l.push(0), Some(0u8), false)]);
    assert(qe == seq![crate::formula::tok('q', l.push(1), Some(1u8), false)]);
    assert(right == seq![crate::formula::tok('r', e.push(1), Some(2u8), false)]);
    assert(nonspace_count(lmid) == 1) by {
        let sp = crate::formula::tok(' ', l, None, true);
        let gl = crate::formula::tok('∧', l, None, false);
        assert(lmid =~= seq![sp] + seq![gl] + seq![sp]);
        lemma_nonspace_add(seq![sp] + seq![gl], seq![sp]);
        lemma_nonspace_add(seq![sp], seq![gl]);
        lemma_nonspace_one(sp);
        lemma_nonspace_one(gl);
    }
    assert(nonspace_count(mid) == 1) by {
        let sp = crate::formula::tok(' ', e, None, true);
        let gl = crate::formula::tok('∨', e, None, false);
        assert(mid =~= seq![sp] + seq![gl] + seq![sp]);
        lemma_nonspace_add(seq![sp] + seq![gl], seq![sp]);
        lemma_nonspace_add(seq![sp], seq![gl]);
        lemma_nonspace_one(sp);
        lemma_nonspace_one(gl);
    }
    let empty = Seq::<crate::formula::TokenSpec>::empty();
    lemma_nonspace_add(empty + left + mid + right, empty);
    lemma_nonspace_add(empty + left + mid, right);
    lemma_nonspace_add(empty + left, mid);
    lemma_nonspace_add(empty, left);
}

/// Every assignment on the fallback board leaves a board that is true with
/// all three atoms true.
proof fn lemma_fallback_moves_true(mv: Move)
    ensures
        fallback_formula().subst(mv.atom, mv.value).eval_of(7),
{
    assert(7u8 & (1u8 << 0u8) != 0) by (bit_vector);
    assert(7u8 & (1u8 << 1u8) != 0) by (bit_vector);
    assert(7u8 & (1u8 << 2u8) != 0) by (bit_vector);
    let p = F::Atom(0);
    let q = F::Atom(1);
    let r = F::Atom(2);
    assert(p.eval_of(7) && q.eval_of(7) && r.eval_of(7));
    let ps = p.subst(mv.atom, mv.value);
    let qs = q.subst(mv.atom, mv.value);
    let rs = r.subst(mv.atom, mv.value);
    let pq = F::Bin(Op::And, Box::new(ps), Box::new(qs));
    assert(fallback_formula().subst(mv.atom, mv.value) == F::Bin(
        Op::Or,
        Box::new(F::Bin(Op::And, Box::new(p), Box::new(q)).subst(mv.atom, mv.value)),
        Box::new(rs),
    ));
    assert(F::Bin(Op::And, Box::new(p), Box::new(q)).subst(mv.atom, mv.value) == pq);
    if mv.atom == 2 {
        assert(ps.eval_of(7) && qs.eval_of(7));
        assert(pq.eval_of(7));
    } else {
        assert(rs == r);
        assert(rs.eval_of(7));
    }
}

/// The fallback board lasts at least two plies: with ⊥ to move, ⊥'s one hope
/// is r ≔ ⊥, which leaves `p ∧ q` to play out.
pub proof fn lemma_fallback_lasts()
    ensures
        price_of(fallback_formula()).plies >= 2,
{
    let f = fallback_formula();
    lemma_fallback_solvable();
    let s = Side::Bot;
    crate::solve::lemma_value_plies_recursion(f, s);
    crate::solve::lemma_value_plies(f, Side::Top);
    crate::solve::lemma_value_plies(f, s);
    crate::game::lemma_moves_of(f);
    assert(F::Atom(0).occ_of() == 1 && F::Atom(1).occ_of() == 1 && F::Atom(2).occ_of() == 1);
    assert(F::Bin(Op::And, Box::new(F::Atom(0)), Box::new(F::Atom(1))).occ_of() == 2);
    assert(f.occ_of() == 3);
    let v = value_of(f, s);
    // r ≔ ⊥ leaves (p ∧ q) ∨ ⊥, which is no constant: it is true with p and q
    // true and false with both false.
    let rb = Move { atom: 2, value: false };
    let pq = F::Bin(Op::And, Box::new(F::Atom(0)), Box::new(F::Atom(1)));
    assert(F::Atom(2).count_of(2) == 1);
    assert(f == F::Bin(Op::Or, Box::new(pq), Box::new(F::Atom(2))));
    assert(f.count_of(2) == pq.count_of(2) + F::Atom(2).count_of(2));
    assert(f.count_of(2) > 0);
    assert(moves_of(f).contains(rb));
    let g = f.subst(2, false);
    assert(F::Atom(0).subst(2, false) == F::Atom(0));
    assert(F::Atom(1).subst(2, false) == F::Atom(1));
    assert(pq.subst(2, false) == pq);
    assert(F::Atom(2).subst(2, false) == F::Const(false));
    assert(g == F::Bin(Op::Or, Box::new(pq), Box::new(F::Const(false))));
    assert(3u8 & (1u8 << 0u8) != 0) by (bit_vector);
    assert(3u8 & (1u8 << 1u8) != 0) by (bit_vector);
    assert(0u8 & (1u8 << 0u8) == 0) by (bit_vector);
    assert(F::Atom(0).eval_of(3) && F::Atom(1).eval_of(3));
    assert(pq.eval_of(3));
    assert(g.eval_of(3));
    assert(!F::Atom(0).eval_of(0));
    assert(!pq.eval_of(0));
    assert(!F::Const(false).eval_of(0));
    assert(!Op::Or.apply(false, false));
    assert(!g.eval_of(0));
    crate::laws::lemma_cascade_sound(g, 3);
    crate::laws::lemma_cascade_sound(g, 0);
    let gc = crate::game::after_move(f, rb);
    assert(!(gc is Const));
    crate::game::lemma_move_progress(f, rb);
    crate::laws::lemma_cascade_decided_or_open(g);
    assert(solvable(gc));
    crate::solve::lemma_value_winner(gc, s.other_of());
    let i = choose|i: int| 0 <= i < moves_of(f).len() && moves_of(f)[i] == rb;
    assert(value_of(crate::game::after_move(f, moves_of(f)[i]), s.other_of()).1 >= 1);
    if v.0 != s {
        assert(v.1 >= 2);
    } else {
        let j = choose|j: int|
            0 <= j < moves_of(f).len() && {
                let c = #[trigger] value_of(crate::game::after_move(f, moves_of(f)[j]), s.other_of());
                value_of(f, s) == (c.0, c.1 + 1)
            };
        let mv = moves_of(f)[j];
        let h = crate::game::after_move(f, mv);
        crate::game::lemma_move_progress(f, mv);
        crate::laws::lemma_cascade_decided_or_open(f.subst(mv.atom, mv.value));
        crate::solve::lemma_value_plies_recursion(h, s.other_of());
        if value_of(h, s.other_of()).1 == 0 {
            lemma_fallback_moves_true(mv);
            crate::laws::lemma_cascade_sound(f.subst(mv.atom, mv.value), 7);
            assert(h.eval_of(7));
            assert(h is Const);
            assert(h == F::Const(true));
            assert(value_of(h, s.other_of()).0 == Side::Top);
        }
        assert(v.1 >= 2);
    }
    assert(value_of(f, Side::Top).1 <= 3 && v.1 <= 3);
}

/// Whatever the dealer serves lasts at least two plies, and fits the glyph
/// budget whenever the budget admits the seven glyphs of the fallback
/// board, as every difficulty's budget does.
pub proof fn lemma_served_fits_budget(d: Deal, p: GenSpec, kind: DealKind)
    requires
        served(d, p, kind),
        p.max_glyphs >= 7,
    ensures
        nonspace_count(tokens_of(d.f)) <= p.max_glyphs,
        d.plies >= 2,
{
    lemma_fallback_glyphs();
    lemma_fallback_lasts();
}

/// The dealer's search: up to `remaining` more candidates; the first tense
/// one wins; otherwise the first playable one (at least two plies), and
/// failing that the fallback board.
pub open spec fn deal_from(
    state: u64,
    p: GenSpec,
    kind: DealKind,
    remaining: nat,
    fallback: Option<Deal>,
) -> (Deal, u64)
    decreases remaining,
{
    if remaining == 0 {
        (
            match fallback {
                Some(d) => d,
                None => price_of(fallback_formula()),
            },
            state,
        )
    } else {
        let (f, s1) = gen_formula_of(state, p);
        if nonspace_count(tokens_of(f)) > p.max_glyphs || f is Const {
            deal_from(s1, p, kind, (remaining - 1) as nat, fallback)
        } else {
            let d = price_of(f);
            if tense_of(d, kind) {
                (d, s1)
            } else {
                let fb = if d.plies >= 2 && fallback is None {
                    Some(d)
                } else {
                    fallback
                };
                deal_from(s1, p, kind, (remaining - 1) as nat, fb)
            }
        }
    }
}

/// What the dealer serves: a tense board within the glyph budget; or, when
/// every candidate missed, one within the budget that lasts at least two
/// plies; or, failing even that, the fixed fallback board.
pub open spec fn served(d: Deal, p: GenSpec, kind: DealKind) -> bool {
    ||| tense_of(d, kind) && nonspace_count(tokens_of(d.f)) <= p.max_glyphs
    ||| d.plies >= 2 && nonspace_count(tokens_of(d.f)) <= p.max_glyphs
    ||| d == price_of(fallback_formula())
}

proof fn lemma_deal_from_served(
    state: u64,
    p: GenSpec,
    kind: DealKind,
    remaining: nat,
    fallback: Option<Deal>,
)
    requires
        fallback matches Some(fb) ==> fb.plies >= 2 && nonspace_count(tokens_of(fb.f))
            <= p.max_glyphs,
    ensures
        served(deal_from(state, p, kind, remaining, fallback).0, p, kind),
    decreases remaining,
{
    if remaining > 0 {
        let (f, s1) = gen_formula_of(state, p);
        if nonspace_count(tokens_of(f)) > p.max_glyphs || f is Const {
            lemma_deal_from_served(s1, p, kind, (remaining - 1) as nat, fallback);
        } else {
            let d = price_of(f);
            if !tense_of(d, kind) {
                let fb = if d.plies >= 2 && fallback is None {
                    Some(d)
                } else {
                    fallback
                };
                lemma_deal_from_served(s1, p, kind, (remaining - 1) as nat, fb);
            }
        }
    }
}

/// The generator state before the dealer's `j`-th candidate.
pub open spec fn candidate_state(state: u64, p: GenSpec, j: nat) -> u64
    decreases j,
{
    if j == 0 {
        state
    } else {
        gen_formula_of(candidate_state(state, p, (j - 1) as nat), p).1
    }
}

/// The dealer's `j`-th candidate would be served for its own sake: within
/// the glyph budget, not a constant, and tense.
pub open spec fn candidate_tense(state: u64, p: GenSpec, kind: DealKind, j: nat) -> bool {
    let f = gen_formula_of(candidate_state(state, p, j), p).0;
    nonspace_count(tokens_of(f)) <= p.max_glyphs && !(f is Const) && tense_of(price_of(f), kind)
}

proof fn lemma_candidate_shift(state: u64, p: GenSpec, j: nat)
    ensures
        candidate_state(gen_formula_of(state, p).1, p, j) == candidate_state(state, p, j + 1),
    decreases j,
{
    let s1 = gen_formula_of(state, p).1;
    assert(candidate_state(state, p, 0) == state);
    assert(candidate_state(state, p, 1) == s1);
    if j > 0 {
        lemma_candidate_shift(state, p, (j - 1) as nat);
        assert(candidate_state(s1, p, j) == gen_formula_of(candidate_state(s1, p, (j - 1) as nat), p).1);
    }
}

proof fn lemma_deal_from_tense(
    state: u64,
    p: GenSpec,
    kind: DealKind,
    remaining: nat,
    fallback: Option<Deal>,
)
    ensures
        (exists|j: nat| j < remaining && #[trigger] candidate_tense(state, p, kind, j)) ==> tense_of(
            deal_from(state, p, kind, remaining, fallback).0,
            kind,
        ),
    decreases remaining,
{
    if remaining > 0 {
        let (f, s1) = gen_formula_of(state, p);
        assert(candidate_state(state, p, 0) == state);
        let fb2 = if !(nonspace_count(tokens_of(f)) > p.max_glyphs || f is Const) {
            let d = price_of(f);
            if d.plies >= 2 && fallback is None {
                Some(d)
            } else {
                fallback
            }
        } else {
            fallback
        };
        if nonspace_count(tokens_of(f)) > p.max_glyphs || f is Const || !tense_of(price_of(f), kind) {
            lemma_deal_from_tense(s1, p, kind, (remaining - 1) as nat, fb2);
            assert(!candidate_tense(state, p, kind, 0));
            if exists|j: nat| j < remaining && #[trigger] candidate_tense(state, p, kind, j) {
                let j = choose|j: nat| j < remaining && #[trigger] candidate_tense(state, p, kind, j);
                assert(j > 0);
                lemma_candidate_shift(state, p, (j - 1) as nat);
                assert(candidate_tense(s1, p, kind, (j - 1) as nat));
            }
        } else {
            assert(candidate_tense(state, p, kind, 0));
        }
    }
}

/// The dealer serves a tense board whenever one of its 4000 candidates is
/// tense within the glyph budget: a merely playable board, or the fixed
/// fallback, comes only when every candidate missed.
pub proof fn lemma_deal_tense(state: u64, p: GenSpec, kind: DealKind)
    ensures
        (exists|j: nat| j < 4000 && #[trigger] candidate_tense(state, p, kind, j)) ==> tense_of(
            deal_of(state, p, kind).0,
            kind,
        ),
{
    reveal(deal_of);
    lemma_deal_from_tense(state, p, kind, 4000, None);
}

#[verifier::opaque]
pub open spec fn deal_of(state: u64, p: GenSpec, kind: DealKind) -> (Deal, u64) {
    deal_from(state, p, kind, 4000, None)
}

/// Deal a tense formula. Deterministic in `rng`; always returns.
pub fn deal(rng: &mut Rng, params: &GenParams, kind: DealKind) -> (d: Deal)
    requires
        params_ok(params@),
    ensures
        (d, final(rng)@) == deal_of(old(rng)@, params@, kind),
        served(d, params@, kind),
        solvable(d.f),
        !(d.f is Const),
        no_double_negation(d.f),
        d == price_of(d.f),
{
    let mut fallback: Option<Deal> = None;
    let mut i: usize = 0;
    proof {
        reveal(deal_of);
        lemma_deal_from_served(old(rng)@, params@, kind, 4000, None);
    }
    while i < 4000
        invariant
            i <= 4000,
            params_ok(params@),
            deal_from(rng@, params@, kind, (4000 - i) as nat, fallback) == deal_of(
                old(rng)@,
                params@,
                kind,
            ),
            fallback matches Some(fb) ==> solvable(fb.f) && !(fb.f is Const) && no_double_negation(
                fb.f,
            ) && fb == price_of(fb.f),
        decreases 4000 - i,
    {
        let f = gen_formula(rng, params);
        if glyph_count(&f) > params.max_glyphs || f.as_const().is_some() {
            i = i + 1;
            continue;
        }
        proof {
            crate::laws::lemma_const_free_occ(f);
        }
        let d = price(&f);
        if is_tense(&d, kind) {
            return d;
        }
        if d.plies >= 2 && fallback.is_none() {
            fallback = Some(d);
        }
        i = i + 1;
    }
    // Practically unreachable; a merely-playable board beats a panic.
    match fallback {
        Some(d) => d,
        None => {
            let f = F::or(F::and(F::Atom(0), F::Atom(1)), F::Atom(2));
            proof {
                lemma_fallback_solvable();
                lemma_fallback_plain();
            }
            price(&f)
        },
    }
}

/// The Daily Gauntlet: five deals, difficulty ramping 1→5, from a date.
pub const GAUNTLET_SIZE: usize = 5;

pub open spec fn gauntlet_seed_of(date: Seq<u8>) -> u32 {
    (fnv_of(date) ^ 0x7099_1e5au64) as u32
}

pub fn gauntlet_seed(date_iso: &str) -> (seed: u32)
    ensures
        seed == gauntlet_seed_of(date_iso.spec_bytes()),
{
    (hash_str(date_iso) ^ 0x7099_1e5a) as u32
}

/// The gauntlet's kind at a level: odd levels are side-dominant (you pick
/// the side), even levels tempo-sensitive (you pick the order).
pub open spec fn gauntlet_kind(level: u8) -> DealKind {
    if level % 2 == 0 {
        DealKind::TempoSensitive
    } else {
        DealKind::SideDominant
    }
}

/// The first `k` gauntlet deals from generator state `state`.
pub open spec fn gauntlet_from(state: u64, k: nat) -> (Seq<Deal>, u64)
    decreases k,
{
    if k == 0 {
        (Seq::empty(), state)
    } else {
        let (prev, st) = gauntlet_from(state, (k - 1) as nat);
        let (d, st2) = deal_of(st, difficulty_of(k as u8), gauntlet_kind(k as u8));
        (prev.push(d), st2)
    }
}

proof fn lemma_gauntlet_len(state: u64, k: nat)
    ensures
        gauntlet_from(state, k).0.len() == k,
    decreases k,
{
    if k > 0 {
        lemma_gauntlet_len(state, (k - 1) as nat);
    }
}

/// The gauntlet is successive deals from one generator: its `i`-th board is
/// dealt at level `i + 1`, of that level's kind, from the state the boards
/// before it left behind.
pub proof fn lemma_gauntlet_successive(state: u64, k: nat)
    requires
        k <= 255,
    ensures
        gauntlet_from(state, k).0.len() == k,
        forall|i: int|
            0 <= i < k ==> #[trigger] gauntlet_from(state, k).0[i] == deal_of(
                gauntlet_from(state, i as nat).1,
                difficulty_of((i + 1) as u8),
                gauntlet_kind((i + 1) as u8),
            ).0,
    decreases k,
{
    lemma_gauntlet_len(state, k);
    if k > 0 {
        lemma_gauntlet_successive(state, (k - 1) as nat);
        let prev = gauntlet_from(state, (k - 1) as nat).0;
        assert forall|i: int| 0 <= i < k implies #[trigger] gauntlet_from(state, k).0[i] == deal_of(
            gauntlet_from(state, i as nat).1,
            difficulty_of((i + 1) as u8),
            gauntlet_kind((i + 1) as u8),
        ).0 by {
            if i < k - 1 {
                assert(gauntlet_from(state, k).0[i] == prev[i]);
            }
        }
    }
}

pub open spec fn gauntlet_of(seed: u32) -> Seq<Deal> {
    gauntlet_from((0x7099_1e00_0000_0000u64 ^ (seed as u64)) as u64, GAUNTLET_SIZE as nat).0
}

pub fn gauntlet(seed: u32) -> (v: Vec<Deal>)
    ensures
        v@ == gauntlet_of(seed),
        v@.len() == GAUNTLET_SIZE,
        forall|i: int| 0 <= i < v@.len() ==> solvable(#[trigger] v@[i].f) && !(v@[i].f is Const),
        forall|i: int|
            0 <= i < v@.len() ==> served(
                #[trigger] v@[i],
                difficulty_of((i + 1) as u8),
                gauntlet_kind((i + 1) as u8),
            ),
{
    let mut rng = Rng::new(0x7099_1e00_0000_0000 ^ seed as u64);
    let ghost s0 = rng@;
    let mut out: Vec<Deal> = Vec::new();
    let mut lvl: u8 = 1;
    while lvl <= GAUNTLET_SIZE as u8
        invariant
            1 <= lvl <= 6,
            (out@, rng@) == gauntlet_from(s0, (lvl - 1) as nat),
            s0 == (0x7099_1e00_0000_0000u64 ^ (seed as u64)) as u64,
            forall|i: int| 0 <= i < out@.len() ==> solvable(#[trigger] out@[i].f) && !(out@[i].f is Const),
            out@.len() == lvl - 1,
            forall|i: int|
                0 <= i < out@.len() ==> served(
                    #[trigger] out@[i],
                    difficulty_of((i + 1) as u8),
                    gauntlet_kind((i + 1) as u8),
                ),
        decreases 6 - lvl,
    {
        let kind = if lvl % 2 == 0 {
            DealKind::TempoSensitive
        } else {
            DealKind::SideDominant
        };
        let params = GenParams::difficulty(lvl);
        let d = deal(&mut rng, &params, kind);
        assert(kind == gauntlet_kind(lvl));
        out.push(d);
        lvl = lvl + 1;
    }
    proof {
        lemma_gauntlet_len(s0, GAUNTLET_SIZE as nat);
    }
    out
}

// ------------------------------------------------------------ share codes --

/// Crockford base32 digit `d` (no I, L, O, U).
pub open spec fn b32_char(d: nat) -> char {
    if d == 0 {
        '0'
    } else if d == 1 {
        '1'
    } else if d == 2 {
        '2'
    } else if d == 3 {
        '3'
    } else if d == 4 {
        '4'
    } else if d == 5 {
        '5'
    } else if d == 6 {
        '6'
    } else if d == 7 {
        '7'
    } else if d == 8 {
        '8'
    } else if d == 9 {
        '9'
    } else if d == 10 {
        'A'
    } else if d == 11 {
        'B'
    } else if d == 12 {
        'C'
    } else if d == 13 {
        'D'
    } else if d == 14 {
        'E'
    } else if d == 15 {
        'F'
    } else if d == 16 {
        'G'
    } else if d == 17 {
        'H'
    } else if d == 18 {
        'J'
    } else if d == 19 {
        'K'
    } else if d == 20 {
        'M'
    } else if d == 21 {
        'N'
    } else if d == 22 {
        'P'
    } else if d == 23 {
        'Q'
    } else if d == 24 {
        'R'
    } else if d == 25 {
        'S'
    } else if d == 26 {
        'T'
    } else if d == 27 {
        'V'
    } else if d == 28 {
        'W'
    } else if d == 29 {
        'X'
    } else if d == 30 {
        'Y'
    } else {
        'Z'
    }
}

/// The digit a Crockford character stands for.
pub open spec fn b32_index(c: char) -> Option<nat> {
    if c == '0' {
        Some(0)
    } else if c == '1' {
        Some(1)
    } else if c == '2' {
        Some(2)
    } else if c == '3' {
        Some(3)
    } else if c == '4' {
        Some(4)
    } else if c == '5' {
        Some(5)
    } else if c == '6' {
        Some(6)
    } else if c == '7' {
        Some(7)
    } else if c == '8' {
        Some(8)
    } else if c == '9' {
        Some(9)
    } else if c == 'A' {
        Some(10)
    } else if c == 'B' {
        Some(11)
    } else if c == 'C' {
        Some(12)
    } else if c == 'D' {
        Some(13)
    } else if c == 'E' {
        Some(14)
    } else if c == 'F' {
        Some(15)
    } else if c == 'G' {
        Some(16)
    } else if c == 'H' {
        Some(17)
    } else if c == 'J' {
        Some(18)
    } else if c == 'K' {
        Some(19)
    } else if c == 'M' {
        Some(20)
    } else if c == 'N' {
        Some(21)
    } else if c == 'P' {
        Some(22)
    } else if c == 'Q' {
        Some(23)
    } else if c == 'R' {
        Some(24)
    } else if c == 'S' {
        Some(25)
    } else if c == 'T' {
        Some(26)
    } else if c == 'V' {
        Some(27)
    } else if c == 'W' {
        Some(28)
    } else if c == 'X' {
        Some(29)
    } else if c == 'Y' {
        Some(30)
    } else if c == 'Z' {
        Some(31)
    } else {
        None
    }
}

pub open spec fn pow32(k: nat) -> nat
    decreases k,
{
    if k == 0 {
        1
    } else {
        32 * pow32((k - 1) as nat)
    }
}

/// The base-32 digit of `seed` with weight 32^k.
pub open spec fn digit_of(seed: u32, k: nat) -> nat {
    ((seed as nat) / pow32(k)) % 32
}

/// `TPL-` and seven Crockford digits, most significant first (35 bits ⊇ u32).
pub open spec fn share_code_of(seed: u32) -> Seq<char> {
    seq!['T', 'P', 'L', '-'] + Seq::new(7, |i: int| b32_char(digit_of(seed, (6 - i) as nat)))
}

pub(crate) fn b32_digit(d: u64) -> (c: char)
    requires
        d < 32,
    ensures
        c == b32_char(d as nat),
{
    match d {
        0 => '0',
        1 => '1',
        2 => '2',
        3 => '3',
        4 => '4',
        5 => '5',
        6 => '6',
        7 => '7',
        8 => '8',
        9 => '9',
        10 => 'A',
        11 => 'B',
        12 => 'C',
        13 => 'D',
        14 => 'E',
        15 => 'F',
        16 => 'G',
        17 => 'H',
        18 => 'J',
        19 => 'K',
        20 => 'M',
        21 => 'N',
        22 => 'P',
        23 => 'Q',
        24 => 'R',
        25 => 'S',
        26 => 'T',
        27 => 'V',
        28 => 'W',
        29 => 'X',
        30 => 'Y',
        _ => 'Z',
    }
}

pub(crate) proof fn lemma_pow32_div(x: nat, k: nat)
    ensures
        pow32(k) > 0,
        x / pow32(k + 1) == (x / pow32(k)) / 32,
{
    lemma_pow32_pos(k);
    vstd::arithmetic::div_mod::lemma_div_denominator(x as int, pow32(k) as int, 32);
    assert(pow32(k + 1) == pow32(k) * 32) by (nonlinear_arith)
        requires
            pow32(k + 1) == 32 * pow32(k),
    ;
}

proof fn lemma_pow32_pos(k: nat)
    ensures
        pow32(k) > 0,
    decreases k,
{
    if k > 0 {
        lemma_pow32_pos((k - 1) as nat);
    }
}

pub fn share_code(seed: u32) -> (s: String)
    ensures
        s@ == share_code_of(seed),
{
    let mut s = String::new();
    crate::formula::push_char(&mut s, 'T');
    crate::formula::push_char(&mut s, 'P');
    crate::formula::push_char(&mut s, 'L');
    crate::formula::push_char(&mut s, '-');
    // Digits come out least significant first.
    let mut v: u64 = seed as u64;
    let mut rev: Vec<char> = Vec::new();
    let mut t: usize = 0;
    assert(pow32(0) == 1);
    while t < 7
        invariant
            t <= 7,
            v == (seed as nat) / pow32(t as nat),
            rev@.len() == t,
            forall|j: int| 0 <= j < t ==> #[trigger] rev@[j] == b32_char(digit_of(seed, j as nat)),
        decreases 7 - t,
    {
        proof {
            lemma_pow32_div(seed as nat, t as nat);
            assert(v & 31 == v % 32) by (bit_vector);
            assert(v >> 5 == v / 32) by (bit_vector);
        }
        rev.push(b32_digit(v & 31));
        v = v >> 5;
        t = t + 1;
    }
    let ghost head = s@;
    let mut k: usize = 7;
    while k > 0
        invariant
            k <= 7,
            rev@.len() == 7,
            head == seq!['T', 'P', 'L', '-'],
            forall|j: int| 0 <= j < 7 ==> #[trigger] rev@[j] == b32_char(digit_of(seed, j as nat)),
            s@ == head + Seq::new((7 - k) as nat, |i: int| b32_char(digit_of(seed, (6 - i) as nat))),
        decreases k,
    {
        crate::formula::push_char(&mut s, rev[k - 1]);
        k = k - 1;
        assert(s@ =~= head + Seq::new((7 - k) as nat, |i: int| b32_char(digit_of(seed, (6 - i) as nat))));
    }
    s
}

/// Unicode `White_Space`, the characters `str::trim` removes.
pub open spec fn is_ws(c: char) -> bool {
    let u = c as u32;
    (0x09 <= u <= 0x0d) || u == 0x20 || u == 0x85 || u == 0xa0 || u == 0x1680 || (0x2000 <= u
        <= 0x200a) || u == 0x2028 || u == 0x2029 || u == 0x202f || u == 0x205f || u == 0x3000
}

pub open spec fn trim_start_of(s: Seq<char>) -> Seq<char>
    decreases s.len(),
{
    if s.len() > 0 && is_ws(s[0]) {
        trim_start_of(s.drop_first())
    } else {
        s
    }
}

pub open spec fn trim_end_of(s: Seq<char>) -> Seq<char>
    decreases s.len(),
{
    if s.len() > 0 && is_ws(s.last()) {
        trim_end_of(s.drop_last())
    } else {
        s
    }
}

pub open spec fn upper_char(c: char) -> char {
    if 'a' <= c && c <= 'z' {
        ((c as u32) - 32) as char
    } else {
        c
    }
}

/// The code as read: trimmed, upper-cased, with an optional `TPL-` prefix removed.
pub open spec fn code_body_of(code: Seq<char>) -> Seq<char> {
    let raw = trim_end_of(trim_start_of(code)).map_values(|c: char| upper_char(c));
    if raw.len() >= 4 && raw.subrange(0, 4) == seq!['T', 'P', 'L', '-'] {
        raw.subrange(4, raw.len() as int)
    } else {
        raw
    }
}

/// Crockford reading of one character: I and L read as 1, O as 0.
pub open spec fn digit_value(c: char) -> Option<nat> {
    if c == 'I' || c == 'L' {
        Some(1)
    } else if c == 'O' {
        Some(0)
    } else {
        b32_index(c)
    }
}

/// The value of the first `k` digits of `body`, if they all read.
pub open spec fn digits_value(body: Seq<char>, k: nat) -> Option<nat>
    decreases k,
{
    if k == 0 {
        Some(0)
    } else {
        match digits_value(body, (k - 1) as nat) {
            None => None,
            Some(v) => match digit_value(body[k - 1]) {
                None => None,
                Some(d) => Some(v * 32 + d),
            },
        }
    }
}

pub open spec fn parse_share_code_of(code: Seq<char>) -> Option<u32> {
    let body = code_body_of(code);
    if body.len() != 7 {
        None
    } else {
        match digits_value(body, 7) {
            Some(v) => if v <= u32::MAX {
                Some(v as u32)
            } else {
                None
            },
            None => None,
        }
    }
}

fn is_ws_exec(c: char) -> (b: bool)
    ensures
        b == is_ws(c),
{
    let u = c as u32;
    (0x09 <= u && u <= 0x0d) || u == 0x20 || u == 0x85 || u == 0xa0 || u == 0x1680 || (0x2000
        <= u && u <= 0x200a) || u == 0x2028 || u == 0x2029 || u == 0x202f || u == 0x205f || u
        == 0x3000
}

fn upper_exec(c: char) -> (r: char)
    ensures
        r == upper_char(c),
{
    if 'a' <= c && c <= 'z' {
        let u = (c as u32) - 32;
        ascii_char(u)
    } else {
        c
    }
}

fn ascii_char(u: u32) -> (c: char)
    requires
        u < 128,
    ensures
        c == u as char,
{
    (u as u8) as char
}

fn digit_value_exec(c: char) -> (r: Option<u64>)
    ensures
        match (r, digit_value(c)) {
            (Some(x), Some(y)) => x == y && x < 32,
            (None, None) => true,
            _ => false,
        },
{
    match c {
        'I' => Some(1),
        'L' => Some(1),
        'O' => Some(0),
        '0' => Some(0),
        '1' => Some(1),
        '2' => Some(2),
        '3' => Some(3),
        '4' => Some(4),
        '5' => Some(5),
        '6' => Some(6),
        '7' => Some(7),
        '8' => Some(8),
        '9' => Some(9),
        'A' => Some(10),
        'B' => Some(11),
        'C' => Some(12),
        'D' => Some(13),
        'E' => Some(14),
        'F' => Some(15),
        'G' => Some(16),
        'H' => Some(17),
        'J' => Some(18),
        'K' => Some(19),
        'M' => Some(20),
        'N' => Some(21),
        'P' => Some(22),
        'Q' => Some(23),
        'R' => Some(24),
        'S' => Some(25),
        'T' => Some(26),
        'V' => Some(27),
        'W' => Some(28),
        'X' => Some(29),
        'Y' => Some(30),
        'Z' => Some(31),
        _ => None,
    }
}

proof fn lemma_trim_start_skip(s: Seq<char>, a: int)
    requires
        0 <= a <= s.len(),
        forall|k: int| 0 <= k < a ==> is_ws(#[trigger] s[k]),
    ensures
        trim_start_of(s) == trim_start_of(s.subrange(a, s.len() as int)),
    decreases a,
{
    if a > 0 {
        assert(s.drop_first().subrange(a - 1, s.drop_first().len() as int) =~= s.subrange(
            a,
            s.len() as int,
        ));
        assert forall|k: int| 0 <= k < a - 1 implies is_ws(#[trigger] s.drop_first()[k]) by {
            assert(s.drop_first()[k] == s[k + 1]);
        }
        assert(is_ws(s[0]));
        lemma_trim_start_skip(s.drop_first(), a - 1);
    } else {
        assert(s.subrange(0, s.len() as int) =~= s);
    }
}

proof fn lemma_trim_end_skip(s: Seq<char>, b: int)
    requires
        0 <= b <= s.len(),
        forall|k: int| b <= k < s.len() ==> is_ws(#[trigger] s[k]),
    ensures
        trim_end_of(s) == trim_end_of(s.subrange(0, b)),
    decreases s.len() - b,
{
    if b < s.len() {
        assert(is_ws(s.last()));
        assert(s.drop_last().subrange(0, b) =~= s.subrange(0, b));
        assert forall|k: int| b <= k < s.drop_last().len() implies is_ws(
            #[trigger] s.drop_last()[k],
        ) by {
            assert(s.drop_last()[k] == s[k]);
        }
        lemma_trim_end_skip(s.drop_last(), b);
    } else {
        assert(s.subrange(0, b) =~= s);
    }
}

pub fn parse_share_code(code: &str) -> (r: Option<u32>)
    ensures
        r == parse_share_code_of(code@),
{
    let n = code.unicode_len();
    let mut chars: Vec<char> = Vec::new();
    let mut i: usize = 0;
    while i < n
        invariant
            i <= n,
            n == code@.len(),
            chars@ == code@.take(i as int),
        decreases n - i,
    {
        chars.push(code.get_char(i));
        assert(chars@ =~= code@.take(i + 1));
        i = i + 1;
    }
    assert(chars@ =~= code@);
    // trim
    let mut a: usize = 0;
    while a < n && is_ws_exec(chars[a])
        invariant
            a <= n,
            n == chars@.len(),
            forall|k: int| 0 <= k < a ==> is_ws(#[trigger] chars@[k]),
        decreases n - a,
    {
        a = a + 1;
    }
    proof {
        lemma_trim_start_skip(chars@, a as int);
        if a < n {
            assert(trim_start_of(chars@.subrange(a as int, n as int)) == chars@.subrange(
                a as int,
                n as int,
            ));
        } else {
            assert(chars@.subrange(a as int, n as int) =~= Seq::<char>::empty());
        }
    }
    let ghost t1 = chars@.subrange(a as int, n as int);
    let mut b: usize = n;
    while b > a && is_ws_exec(chars[b - 1])
        invariant
            a <= b <= n,
            n == chars@.len(),
            forall|k: int| b <= k < n ==> is_ws(#[trigger] chars@[k]),
        decreases b,
    {
        b = b - 1;
    }
    proof {
        assert forall|k: int| b - a <= k < t1.len() implies is_ws(#[trigger] t1[k]) by {
            assert(t1[k] == chars@[k + a]);
        }
        lemma_trim_end_skip(t1, b - a);
        assert(t1.subrange(0, b - a) =~= chars@.subrange(a as int, b as int));
        if b > a {
            assert(trim_end_of(chars@.subrange(a as int, b as int)) == chars@.subrange(
                a as int,
                b as int,
            ));
        } else {
            assert(chars@.subrange(a as int, b as int) =~= Seq::<char>::empty());
        }
    }
    let ghost trimmed = chars@.subrange(a as int, b as int);
    // upper-case
    let mut raw: Vec<char> = Vec::new();
    let mut k: usize = a;
    while k < b
        invariant
            a <= k <= b <= n,
            n == chars@.len(),
            trimmed == chars@.subrange(a as int, b as int),
            raw@ == trimmed.take(k - a).map_values(|c: char| upper_char(c)),
        decreases b - k,
    {
        raw.push(upper_exec(chars[k]));
        assert(raw@ =~= trimmed.take(k + 1 - a).map_values(|c: char| upper_char(c)));
        k = k + 1;
    }
    assert(trimmed.take(b - a) =~= trimmed);
    assert(raw@ == trim_end_of(trim_start_of(code@)).map_values(|c: char| upper_char(c)));
    // strip the optional prefix
    let start: usize = if raw.len() >= 4 && raw[0] == 'T' && raw[1] == 'P' && raw[2] == 'L' && raw[3]
        == '-' {
        assert(raw@.subrange(0, 4) =~= seq!['T', 'P', 'L', '-']);
        4
    } else {
        proof {
            if raw@.len() >= 4 && raw@.subrange(0, 4) == seq!['T', 'P', 'L', '-'] {
                assert(raw@.subrange(0, 4)[0] == raw@[0]);
                assert(raw@.subrange(0, 4)[1] == raw@[1]);
                assert(raw@.subrange(0, 4)[2] == raw@[2]);
                assert(raw@.subrange(0, 4)[3] == raw@[3]);
            }
        }
        0
    };
    let ghost body = raw@.subrange(start as int, raw@.len() as int);
    assert(body == code_body_of(code@)) by {
        if start == 0 {
            assert(raw@.subrange(0, raw@.len() as int) =~= raw@);
        }
    }
    if raw.len() - start != 7 {
        return None;
    }
    let mut v: u64 = 0;
    let mut j: usize = 0;
    while j < 7
        invariant
            j <= 7,
            start <= 4,
            start + 7 == raw@.len(),
            body == raw@.subrange(start as int, raw@.len() as int),
            body == code_body_of(code@),
            digits_value(body, j as nat) == Some(v as nat),
            v < pow32(j as nat),
        decreases 7 - j,
    {
        assert(body[j as int] == raw@[start + j]);
        let d = match digit_value_exec(raw[start + j]) {
            Some(d) => d,
            None => {
                proof {
                    lemma_digits_none(body, j as nat, 7);
                }
                return None;
            },
        };
        proof {
            assert(pow32((j + 1) as nat) == 32 * pow32(j as nat));
            assert(pow32(7) == 34359738368) by {
                reveal_with_fuel(pow32, 8);
            }
            lemma_pow32_mono(j as nat + 1, 7);
            assert((v << 5u64) | d == v * 32 + d) by (bit_vector)
                requires
                    v < 0x8_0000_0000u64,
                    d < 32,
            ;
        }
        v = (v << 5) | d;
        j = j + 1;
    }
    if v <= u32::MAX as u64 {
        Some(v as u32)
    } else {
        None
    }
}

proof fn lemma_pow32_mono(a: nat, b: nat)
    requires
        a <= b,
    ensures
        pow32(a) <= pow32(b),
    decreases b,
{
    if a < b {
        lemma_pow32_mono(a, (b - 1) as nat);
    }
}

proof fn lemma_digits_none(body: Seq<char>, j: nat, k: nat)
    requires
        j < k,
        j < body.len(),
        digit_value(body[j as int]) is None,
    ensures
        digits_value(body, k) is None,
    decreases k,
{
    if k > j + 1 {
        lemma_digits_none(body, j, (k - 1) as nat);
    }
}

proof fn lemma_b32_digit(d: nat)
    requires
        d < 32,
    ensures
        digit_value(b32_char(d)) == Some(d),
        upper_char(b32_char(d)) == b32_char(d),
        !is_ws(b32_char(d)),
{
}

/// Share codes round-trip: every seed reads back from its own code.
pub proof fn lemma_share_code_round_trip(seed: u32)
    ensures
        parse_share_code_of(share_code_of(seed)) == Some(seed),
{
    let code = share_code_of(seed);
    assert(code.len() == 11);
    assert(!is_ws(code[0]));
    assert(trim_start_of(code) == code);
    lemma_digit_bound(seed, 0);
    lemma_b32_digit(digit_of(seed, 0));
    assert(code.last() == b32_char(digit_of(seed, 0)));
    assert(trim_end_of(code) == code);
    assert forall|i: int| 0 <= i < code.len() implies upper_char(#[trigger] code[i]) == code[i] by {
        if i >= 4 {
            lemma_digit_bound(seed, (6 - (i - 4)) as nat);
            lemma_b32_digit(digit_of(seed, (6 - (i - 4)) as nat));
        }
    }
    let raw = code.map_values(|c: char| upper_char(c));
    assert(raw =~= code);
    assert(raw.subrange(0, 4) =~= seq!['T', 'P', 'L', '-']);
    let body = raw.subrange(4, 11);
    assert(body == code_body_of(code));
    assert(body =~= Seq::new(7, |i: int| b32_char(digit_of(seed, (6 - i) as nat))));
    lemma_digits_round_trip(seed, body, 7);
    assert(pow32(0) == 1);
    assert((seed as nat) / 1 == seed as nat) by (nonlinear_arith);
    assert((seed as nat) / pow32(0) == seed as nat);
    assert(digits_value(body, 7) == Some(seed as nat));
    assert(body.len() == 7);
    assert(code_body_of(code).len() == 7);
}

proof fn lemma_digit_bound(seed: u32, k: nat)
    ensures
        digit_of(seed, k) < 32,
{
    lemma_pow32_pos(k);
}

/// A share code is `TPL-` and seven base-32 digits of the seed, most
/// significant first; as a seed has 32 bits, the first digit is 0 to 3.
pub proof fn lemma_share_code_shape(seed: u32)
    ensures
        share_code_of(seed).len() == 11,
        share_code_of(seed).subrange(0, 4) == seq!['T', 'P', 'L', '-'],
        forall|i: int|
            4 <= i < 11 ==> digit_of(seed, (10 - i) as nat) < 32 && #[trigger] share_code_of(seed)[i]
                == b32_char(digit_of(seed, (10 - i) as nat)),
        digit_of(seed, 6) < 4,
        share_code_of(seed)[4] == '0' || share_code_of(seed)[4] == '1' || share_code_of(seed)[4]
            == '2' || share_code_of(seed)[4] == '3',
{
    let c = share_code_of(seed);
    assert(c.subrange(0, 4) =~= seq!['T', 'P', 'L', '-']);
    assert forall|i: int| 4 <= i < 11 implies digit_of(seed, (10 - i) as nat) < 32
        && #[trigger] c[i] == b32_char(digit_of(seed, (10 - i) as nat)) by {
        lemma_digit_bound(seed, (10 - i) as nat);
    }
    assert(pow32(6) == 1073741824) by {
        reveal_with_fuel(pow32, 7);
    }
    assert((seed as nat) / 1073741824 < 4) by (nonlinear_arith)
        requires
            seed < 4294967296,
    ;
    assert(c[4] == b32_char(digit_of(seed, 6)));
}

proof fn lemma_digits_round_trip(seed: u32, body: Seq<char>, k: nat)
    requires
        k <= 7,
        body == Seq::new(7, |i: int| b32_char(digit_of(seed, (6 - i) as nat))),
    ensures
        digits_value(body, k) == Some((seed as nat) / pow32((7 - k) as nat)),
    decreases k,
{
    if k == 0 {
        assert(pow32(7) == 34359738368) by {
            reveal_with_fuel(pow32, 8);
        }
        vstd::arithmetic::div_mod::lemma_basic_div(seed as int, 34359738368);
        assert((seed as nat) / pow32(7) == 0);
    } else {
        lemma_digits_round_trip(seed, body, (k - 1) as nat);
        let j = (7 - k) as nat;
        lemma_digit_bound(seed, j);
        lemma_b32_digit(digit_of(seed, j));
        assert(body[k - 1] == b32_char(digit_of(seed, j)));
        lemma_pow32_div(seed as nat, j);
        let x = (seed as nat) / pow32(j);
        assert(x == (x / 32) * 32 + x % 32) by {
            vstd::arithmetic::div_mod::lemma_fundamental_div_mod(x as int, 32);
        }
    }
}

// ------------------------------------------------------------- generation --

pub open spec fn op_of_index(k: nat) -> Op {
    if k == 0 {
        Op::And
    } else if k == 1 {
        Op::Or
    } else if k == 2 {
        Op::Imp
    } else {
        Op::Eq
    }
}

/// The split point of `n >= 3` leaves, biased toward the middle.
pub open spec fn cut_of(state: u64, n: nat) -> (nat, u64) {
    if n == 2 {
        (1, state)
    } else {
        let (a, s1) = below_of(state, (n - 1) as u64);
        let (b, s2) = below_of(s1, (n - 1) as u64);
        ((1 + (a + b) / 2) as nat, s2)
    }
}

/// The tree over the leaf bag before the optional negation of its root.
pub open spec fn core_of(state: u64, p: GenSpec, leaves: Seq<u8>) -> (F, u64)
    decreases leaves.len(), 0nat,
{
    if leaves.len() <= 1 {
        (F::Atom(leaves[0]), state)
    } else {
        let n = leaves.len();
        let (cut, s1) = cut_of(state, n);
        let (roll, s2) = below_of(s1, sum_of(p.ops) as u64);
        let op = op_of_index(weighted_index(p.ops, roll as int));
        if 1 <= cut < n {
            let (l, s3) = build_of(s2, p, leaves.subrange(0, cut as int));
            let (r, s4) = build_of(s3, p, leaves.subrange(cut as int, n as int));
            (F::Bin(op, Box::new(l), Box::new(r)), s4)
        } else {
            (F::Atom(leaves[0]), s2)
        }
    }
}

/// The random tree over the leaf bag, and the generator state after it:
/// leaves and small groups are negated occasionally, never stacking ¬¬.
pub open spec fn build_of(state: u64, p: GenSpec, leaves: Seq<u8>) -> (F, u64)
    decreases leaves.len(), 1nat,
{
    let (f, st) = core_of(state, p, leaves);
    if p.neg_permille > 0 && !(f is Not) {
        let (roll, s5) = below_of(st, 1000);
        if roll < p.neg_permille {
            (F::Not(Box::new(f)), s5)
        } else {
            (f, s5)
        }
    } else {
        (f, st)
    }
}

/// The leaf bag before shuffling: one of each atom, then `k` random extras.
pub open spec fn bag_of(state: u64, p: GenSpec, k: nat) -> (Seq<u8>, u64)
    decreases k,
{
    if k == 0 {
        (Seq::new(p.atoms as nat, |i: int| i as u8), state)
    } else {
        let (bag, st) = bag_of(state, p, (k - 1) as nat);
        let (a, st2) = below_of(st, p.atoms as u64);
        (bag.push(a as u8), st2)
    }
}

/// A random formula over a shuffled bag of atom occurrences.
#[verifier::opaque]
pub open spec fn gen_formula_of(state: u64, p: GenSpec) -> (F, u64) {
    let (bag, s1) = bag_of(state, p, p.extra_occ as nat);
    let (leaves, s2) = shuffle_of(s1, bag);
    build_of(s2, p, leaves)
}

/// Build a random tree over a shuffled bag of atom occurrences.
#[verifier::spinoff_prover]
#[verifier::rlimit(40)]
pub fn gen_formula(rng: &mut Rng, params: &GenParams) -> (f: F)
    requires
        params_ok(params@),
    ensures
        (f, final(rng)@) == gen_formula_of(old(rng)@, params@),
        gen_ok(f, params@),
{
    let mut leaves: Vec<u8> = Vec::new();
    let mut a: u8 = 0;
    while a < params.atoms
        invariant
            a <= params.atoms,
            leaves@ == Seq::new(a as nat, |i: int| i as u8),
        decreases params.atoms - a,
    {
        leaves.push(a);
        assert(leaves@ =~= Seq::new((a + 1) as nat, |i: int| i as u8));
        a = a + 1;
    }
    let ghost s0 = rng@;
    let mut k: u8 = 0;
    while k < params.extra_occ
        invariant
            k <= params.extra_occ,
            params_ok(params@),
            (leaves@, rng@) == bag_of(s0, params@, k as nat),
        decreases params.extra_occ - k,
    {
        let x = rng.below(params.atoms as u64);
        leaves.push(x as u8);
        k = k + 1;
    }
    proof {
        lemma_bag(s0, params@, params.extra_occ as nat);
    }
    let ghost bag = leaves@;
    let ghost s1 = rng@;
    proof {
        reveal(gen_formula_of);
    }
    rng.shuffle(leaves.as_mut_slice());
    proof {
        lemma_shuffle_bag(s1, bag, params.atoms);
    }
    let ghost s2 = rng@;
    let f = build(rng, params, leaves.as_slice());
    proof {
        lemma_build(s2, params@, leaves@);
        lemma_gen_formula_uses_atoms(s0, params@);
    }
    f
}

fn build(rng: &mut Rng, params: &GenParams, leaves: &[u8]) -> (f: F)
    requires
        params_ok(params@),
        1 <= leaves@.len() <= u32::MAX,
    ensures
        (f, final(rng)@) == build_of(old(rng)@, params@, leaves@),
    decreases leaves@.len(), 1nat,
{
    let f = build_core(rng, params, leaves);
    let negate = if params.neg_permille > 0 && !is_not(&f) {
        rng.chance(params.neg_permille)
    } else {
        false
    };
    if negate {
        F::not(f)
    } else {
        f
    }
}

fn split_point(rng: &mut Rng, n: usize) -> (cut: usize)
    requires
        2 <= n <= u32::MAX,
    ensures
        (cut as nat, final(rng)@) == cut_of(old(rng)@, n as nat),
        1 <= cut < n,
{
    if n == 2 {
        1
    } else {
        let x = rng.below((n - 1) as u64);
        let y = rng.below((n - 1) as u64);
        1 + ((x + y) / 2) as usize
    }
}

fn build_core(rng: &mut Rng, params: &GenParams, leaves: &[u8]) -> (f: F)
    requires
        params_ok(params@),
        1 <= leaves@.len() <= u32::MAX,
    ensures
        (f, final(rng)@) == core_of(old(rng)@, params@, leaves@),
    decreases leaves@.len(), 0nat,
{
    if leaves.len() == 1 {
        return F::Atom(leaves[0]);
    }
    // Split point biased toward the middle for readable, bushy trees.
    let n = leaves.len();
    let cut = split_point(rng, n);
    let k = rng.pick_weighted(&params.ops);
    let op = match k {
        0 => Op::And,
        1 => Op::Or,
        2 => Op::Imp,
        _ => Op::Eq,
    };
    assert(op == op_of_index(k as nat));
    let l = build(rng, params, &leaves[0..cut]);
    let r = build(rng, params, &leaves[cut..n]);
    F::bin(op, l, r)
}

fn is_not(f: &F) -> (b: bool)
    ensures
        b == (*f is Not),
{
    match f {
        F::Not(_) => true,
        _ => false,
    }
}

/// No negation sits directly on another: ¬¬ never appears.
pub open spec fn no_double_negation(f: F) -> bool
    decreases f,
{
    match f {
        F::Not(x) => !(*x is Not) && no_double_negation(*x),
        F::Bin(_, l, r) => no_double_negation(*l) && no_double_negation(*r),
        _ => true,
    }
}

/// Generated formulas: the atoms are exactly those below `p.atoms`, each
/// occurring at least once; there are no constants and no stacked
/// negations, and none at all at a 0‰ negation rate; there is one
/// occurrence per leaf, and the tree is small.
pub open spec fn gen_ok(f: F, p: GenSpec) -> bool {
    &&& f.wf()
    &&& const_free(f)
    &&& no_double_negation(f)
    &&& f.occ_of() == p.atoms + p.extra_occ
    &&& f.size_of() <= 4 * (p.atoms + p.extra_occ)
    &&& forall|a: u8| #[trigger] f.count_of(a) > 0 <==> a < p.atoms
    &&& p.neg_permille == 0 ==> not_free(f)
}

proof fn lemma_bag(s: u64, p: GenSpec, k: nat)
    requires
        params_ok(p),
    ensures
        bag_of(s, p, k).0.len() == p.atoms + k,
        forall|i: int| 0 <= i < bag_of(s, p, k).0.len() ==> #[trigger] bag_of(s, p, k).0[i] < p.atoms,
    decreases k,
{
    if k > 0 {
        lemma_bag(s, p, (k - 1) as nat);
        let (bag, st) = bag_of(s, p, (k - 1) as nat);
        crate::rng::lemma_below_of_range(st, p.atoms as u64);
    }
}

proof fn lemma_shuffle_from_bounded(s: u64, bag: Seq<u8>, i: nat, bound: u8)
    requires
        i < bag.len(),
        bag.len() <= u64::MAX,
        forall|k: int| 0 <= k < bag.len() ==> #[trigger] bag[k] < bound,
    ensures
        shuffle_from(s, bag, i).0.len() == bag.len(),
        forall|k: int|
            0 <= k < shuffle_from(s, bag, i).0.len() ==> #[trigger] shuffle_from(s, bag, i).0[k]
                < bound,
    decreases i,
{
    if i > 0 {
        let (j, st) = below_of(s, (i + 1) as u64);
        crate::rng::lemma_below_of_range(s, (i + 1) as u64);
        let b2 = crate::rng::swap_of(bag, i as int, j as int);
        assert forall|k: int| 0 <= k < b2.len() implies #[trigger] b2[k] < bound by {
            if k == i {
                assert(b2[k] == bag[j as int] || b2[k] == bag[i as int]);
            } else if k == j {
                assert(b2[k] == bag[i as int]);
            } else {
                assert(b2[k] == bag[k]);
            }
        }
        lemma_shuffle_from_bounded(st, b2, (i - 1) as nat, bound);
    }
}

proof fn lemma_shuffle_bag(s: u64, bag: Seq<u8>, bound: u8)
    requires
        bag.len() <= u64::MAX,
        forall|k: int| 0 <= k < bag.len() ==> #[trigger] bag[k] < bound,
    ensures
        shuffle_of(s, bag).0.len() == bag.len(),
        forall|k: int| 0 <= k < shuffle_of(s, bag).0.len() ==> #[trigger] shuffle_of(s, bag).0[k] < bound,
{
    if bag.len() > 1 {
        lemma_shuffle_from_bounded(s, bag, (bag.len() - 1) as nat, bound);
    }
}

proof fn lemma_cut(state: u64, n: nat)
    requires
        n >= 2,
        n <= u64::MAX,
    ensures
        1 <= cut_of(state, n).0 < n,
{
    if n > 2 {
        let (a, s1) = below_of(state, (n - 1) as u64);
        crate::rng::lemma_below_of_range(state, (n - 1) as u64);
        crate::rng::lemma_below_of_range(s1, (n - 1) as u64);
    }
}

pub open spec fn built_ok(f: F, p: GenSpec, n: nat) -> bool {
    &&& const_free(f)
    &&& no_double_negation(f)
    &&& f.atoms_named()
    &&& f.occ_of() == n
    &&& f.size_of() + 2 <= 4 * n
    &&& forall|a: u8| #[trigger] f.count_of(a) > 0 ==> a < p.atoms
}

proof fn lemma_core(s: u64, p: GenSpec, leaves: Seq<u8>)
    requires
        params_ok(p),
        leaves.len() >= 1,
        leaves.len() <= u64::MAX,
        forall|k: int| 0 <= k < leaves.len() ==> #[trigger] leaves[k] < p.atoms,
    ensures
        built_ok(core_of(s, p, leaves).0, p, leaves.len()),
        core_of(s, p, leaves).0.size_of() + 3 <= 4 * leaves.len(),
    decreases leaves.len(), 0nat,
{
    let n = leaves.len();
    if n > 1 {
        let (cut, s1) = cut_of(s, n);
        lemma_cut(s, n);
        let (roll, s2) = below_of(s1, sum_of(p.ops) as u64);
        let ll = leaves.subrange(0, cut as int);
        let rl = leaves.subrange(cut as int, n as int);
        assert forall|k: int| 0 <= k < ll.len() implies #[trigger] ll[k] < p.atoms by {
            assert(ll[k] == leaves[k]);
        }
        assert forall|k: int| 0 <= k < rl.len() implies #[trigger] rl[k] < p.atoms by {
            assert(rl[k] == leaves[k + cut]);
        }
        lemma_build(s2, p, ll);
        let (l, s3) = build_of(s2, p, ll);
        lemma_build(s3, p, rl);
        let r = build_of(s3, p, rl).0;
        let f = core_of(s, p, leaves).0;
        assert(f == F::Bin(op_of_index(weighted_index(p.ops, roll as int)), Box::new(l), Box::new(r)));
        assert forall|a: u8| #[trigger] f.count_of(a) > 0 implies a < p.atoms by {
            assert(f.count_of(a) == l.count_of(a) + r.count_of(a));
            if l.count_of(a) > 0 {
            } else {
                assert(r.count_of(a) > 0);
            }
        }
    } else {
        assert(leaves[0] < p.atoms);
        let f = core_of(s, p, leaves).0;
        assert(f == F::Atom(leaves[0]));
        assert forall|a: u8| #[trigger] f.count_of(a) > 0 implies a < p.atoms by {
            assert(a == leaves[0]);
        }
    }
}

proof fn lemma_build(s: u64, p: GenSpec, leaves: Seq<u8>)
    requires
        params_ok(p),
        leaves.len() >= 1,
        leaves.len() <= u64::MAX,
        forall|k: int| 0 <= k < leaves.len() ==> #[trigger] leaves[k] < p.atoms,
    ensures
        built_ok(build_of(s, p, leaves).0, p, leaves.len()),
    decreases leaves.len(), 1nat,
{
    lemma_core(s, p, leaves);
    let (f, st) = core_of(s, p, leaves);
    let g = build_of(s, p, leaves).0;
    if g != f {
        assert(g == F::Not(Box::new(f)));
        assert forall|a: u8| #[trigger] g.count_of(a) > 0 implies a < p.atoms by {
            assert(g.count_of(a) == f.count_of(a));
        }
    }
}


/// No negation anywhere in the tree.
pub open spec fn not_free(f: F) -> bool
    decreases f,
{
    match f {
        F::Not(_) => false,
        F::Bin(_, l, r) => not_free(*l) && not_free(*r),
        _ => true,
    }
}

proof fn lemma_built_leaves(s: u64, p: GenSpec, leaves: Seq<u8>)
    requires
        params_ok(p),
        leaves.len() >= 1,
        leaves.len() <= u64::MAX,
    ensures
        leaves_of(core_of(s, p, leaves).0) == leaves,
        leaves_of(build_of(s, p, leaves).0) == leaves,
        p.neg_permille == 0 ==> not_free(core_of(s, p, leaves).0),
        p.neg_permille == 0 ==> not_free(build_of(s, p, leaves).0),
    decreases leaves.len(),
{
    let n = leaves.len();
    if n > 1 {
        let (cut, s1) = cut_of(s, n);
        lemma_cut(s, n);
        let (roll, s2) = below_of(s1, sum_of(p.ops) as u64);
        let ll = leaves.subrange(0, cut as int);
        let rl = leaves.subrange(cut as int, n as int);
        lemma_built_leaves(s2, p, ll);
        let (l, s3) = build_of(s2, p, ll);
        lemma_built_leaves(s3, p, rl);
        assert(ll + rl =~= leaves);
    } else {
        assert(seq![leaves[0]] =~= leaves);
    }
    let (f, st) = core_of(s, p, leaves);
    let g = build_of(s, p, leaves).0;
    if g != f {
        assert(g == F::Not(Box::new(f)));
        assert(leaves_of(g) == leaves_of(f));
    }
}

proof fn lemma_count_leaves(f: F, a: u8)
    ensures
        f.count_of(a) > 0 <==> leaves_of(f).contains(a),
    decreases f,
{
    match f {
        F::Atom(x) => {
            if x == a {
                assert(leaves_of(f)[0] == a);
            }
        },
        F::Not(x) => lemma_count_leaves(*x, a),
        F::Bin(_, l, r) => {
            lemma_count_leaves(*l, a);
            lemma_count_leaves(*r, a);
            let ls = leaves_of(*l);
            let rs = leaves_of(*r);
            if ls.contains(a) {
                let i = choose|i: int| 0 <= i < ls.len() && ls[i] == a;
                assert((ls + rs)[i] == a);
            }
            if rs.contains(a) {
                let i = choose|i: int| 0 <= i < rs.len() && rs[i] == a;
                assert((ls + rs)[ls.len() + i] == a);
            }
            if (ls + rs).contains(a) {
                let i = choose|i: int| 0 <= i < (ls + rs).len() && (ls + rs)[i] == a;
                if i < ls.len() {
                    assert(ls[i] == a);
                } else {
                    assert(rs[i - ls.len()] == a);
                }
            }
        },
        F::Const(_) => {},
    }
}

proof fn lemma_bag_prefix(s: u64, p: GenSpec, k: nat)
    ensures
        bag_of(s, p, k).0.len() == p.atoms + k,
        forall|i: int| 0 <= i < p.atoms ==> #[trigger] bag_of(s, p, k).0[i] == i,
    decreases k,
{
    if k > 0 {
        lemma_bag_prefix(s, p, (k - 1) as nat);
    }
}

/// A generated formula names every atom below `p.atoms` at least once (its
/// leaves are the shuffled bag, which starts with one of each), and at a
/// negation rate of 0‰ it holds no negation at all.
pub proof fn lemma_gen_formula_uses_atoms(state: u64, p: GenSpec)
    requires
        params_ok(p),
    ensures
        forall|a: u8| a < p.atoms ==> #[trigger] gen_formula_of(state, p).0.count_of(a) > 0,
        p.neg_permille == 0 ==> not_free(gen_formula_of(state, p).0),
{
    reveal(gen_formula_of);
    let (bag, s1) = bag_of(state, p, p.extra_occ as nat);
    let (leaves, s2) = shuffle_of(s1, bag);
    lemma_bag_prefix(state, p, p.extra_occ as nat);
    lemma_shuffle_permutes(s1, bag);
    lemma_built_leaves(s2, p, leaves);
    let f = gen_formula_of(state, p).0;
    assert forall|a: u8| a < p.atoms implies #[trigger] f.count_of(a) > 0 by {
        broadcast use vstd::seq_lib::to_multiset_contains;

        assert(bag[a as int] == a);
        assert(bag.contains(a));
        assert(bag.to_multiset().count(a) > 0);
        assert(leaves.to_multiset().count(a) > 0);
        assert(leaves.contains(a));
        lemma_count_leaves(f, a);
    }
}

} // verus!
