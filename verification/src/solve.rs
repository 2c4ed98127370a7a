//! Perfect play. At board sizes within the legibility budget (≤ 8 atoms) the
//! whole game tree fits in a memo table, so the Adversary never blunders and
//! the generator can price every formula it deals.

use crate::formula::{lemma_atoms_below, lemma_counts_bounded, lemma_key_injective, ATOM_COUNT, F};
use crate::game::{
    after_move, apply_move, lemma_move_progress, lemma_moves_of, legal_moves, moves_of, side_of,
    winner, Move, Side,
};
use crate::laws::{cascade_of, lemma_cascade_decided_or_open};
use vstd::hash_map::StringHashMap;
use vstd::prelude::*;

verus! {

/// Value of a position from the point of view of the game itself.
#[derive(Clone, Copy, Debug, PartialEq, Eq, Structural)]
pub struct Eval {
    pub winner: Side,
    /// Plies until the board collapses under optimal play: the winner hurries,
    /// the loser drags. 0 when the board is already a constant.
    pub plies: u32,
}

/// The mathematical content of an `Eval`.
pub open spec fn ev(e: Eval) -> (Side, nat) {
    (e.winner, e.plies as nat)
}

/// The player to move prefers winning, then (if winning) fewer plies,
/// then (if losing) more plies. Ties keep the earlier candidate `a`.
pub open spec fn pick_of(to_move: Side, a: (Side, nat), b: (Side, nat)) -> (Side, nat) {
    let a_wins = a.0 == to_move;
    let b_wins = b.0 == to_move;
    if a_wins && !b_wins {
        a
    } else if !a_wins && b_wins {
        b
    } else if a_wins && b_wins {
        if b.1 < a.1 {
            b
        } else {
            a
        }
    } else {
        if b.1 > a.1 {
            b
        } else {
            a
        }
    }
}

/// A position the solver accepts: a well-formed board that is either decided
/// or still has an atom to assign.
pub open spec fn solvable(f: F) -> bool {
    f.wf() && (f is Const || f.occ_of() > 0)
}

/// The candidate value of playing the `i`-th legal move.
pub open spec fn candidate_of(f: F, s: Side, i: int) -> (Side, nat)
    decreases f.occ_of(), 0nat, 0nat,
{
    if 0 <= i < moves_of(f).len() {
        proof {
            lemma_legal_index(f, i);
        }
        let sub = value_of(after_move(f, moves_of(f)[i]), s.other_of());
        (sub.0, sub.1 + 1)
    } else {
        (s, 0)
    }
}

/// Best candidate among the first `k` legal moves, in move order.
pub open spec fn best_of(f: F, s: Side, k: nat) -> Option<(Side, nat)>
    decreases f.occ_of(), 1nat, k,
{
    if k == 0 || k > moves_of(f).len() {
        None
    } else {
        let cand = candidate_of(f, s, k - 1);
        match best_of(f, s, (k - 1) as nat) {
            None => Some(cand),
            Some(b) => Some(pick_of(s, b, cand)),
        }
    }
}

/// Minimax value of `f` with `s` choosing the next assignment.
pub open spec fn value_of(f: F, s: Side) -> (Side, nat)
    decreases f.occ_of(), 2nat, 0nat,
{
    match f {
        F::Const(b) => (side_of(b), 0),
        _ => match best_of(f, s, moves_of(f).len()) {
            Some(e) => e,
            None => (s.other_of(), 0),
        },
    }
}

/// The `i`-th legal move is legal and makes progress.
pub proof fn lemma_legal_index(f: F, i: int)
    requires
        0 <= i < moves_of(f).len(),
    ensures
        f.count_of(moves_of(f)[i].atom) > 0,
        after_move(f, moves_of(f)[i]).occ_of() < f.occ_of(),
{
    lemma_atoms_below(f, ATOM_COUNT as nat);
    assert(f.atoms_of().contains(f.atoms_of()[i / 2]));
    lemma_move_progress(f, moves_of(f)[i]);
}

/// Moves that keep the value: same winner, one ply closer.
pub open spec fn best_moves_of(f: F, s: Side, k: nat) -> Seq<Move>
    decreases k,
{
    if k == 0 {
        Seq::empty()
    } else {
        let mv = moves_of(f)[k - 1];
        let sub = value_of(after_move(f, mv), s.other_of());
        best_moves_of(f, s, (k - 1) as nat) + if sub.0 == value_of(f, s).0 && sub.1 + 1
            == value_of(f, s).1 {
            seq![mv]
        } else {
            Seq::empty()
        }
    }
}

/// Moves after which `s` still wins.
pub open spec fn winning_moves_of(f: F, s: Side, k: nat) -> Seq<Move>
    decreases k,
{
    if k == 0 {
        Seq::empty()
    } else {
        let mv = moves_of(f)[k - 1];
        winning_moves_of(f, s, (k - 1) as nat) + if value_of(after_move(f, mv), s.other_of()).0
            == s {
            seq![mv]
        } else {
            Seq::empty()
        }
    }
}

/// A memo table for side `s`: every entry is the value of the board that
/// owns the key.
pub open spec fn memo_ok(m: Map<Seq<char>, Eval>, s: Side) -> bool {
    forall|g: F| #[trigger]
        m.contains_key(g.key_of()) && g.wf() ==> ev(m[g.key_of()]) == value_of(g, s)
}

pub struct Solver {
    memo_top: StringHashMap<Eval>,
    memo_bot: StringHashMap<Eval>,
}

impl Default for Solver {
    fn default() -> (s: Self)
        ensures
            s.wf(),
    {
        Self::new()
    }
}

impl Solver {
    /// Every memoized value is the true minimax value of its board.
    pub closed spec fn wf(&self) -> bool {
        memo_ok(self.memo_top@, Side::Top) && memo_ok(self.memo_bot@, Side::Bot)
    }

    pub fn new() -> (s: Solver)
        ensures
            s.wf(),
    {
        Solver { memo_top: StringHashMap::new(), memo_bot: StringHashMap::new() }
    }

    fn lookup(&self, key: &String, to_move: Side) -> (r: Option<Eval>)
        ensures
            match r {
                Some(e) => (match to_move {
                    Side::Top => self.memo_top@.contains_key(key@) && self.memo_top@[key@] == e,
                    Side::Bot => self.memo_bot@.contains_key(key@) && self.memo_bot@[key@] == e,
                }),
                None => match to_move {
                    Side::Top => !self.memo_top@.contains_key(key@),
                    Side::Bot => !self.memo_bot@.contains_key(key@),
                },
            },
    {
        let found = match to_move {
            Side::Top => self.memo_top.get(key.as_str()),
            Side::Bot => self.memo_bot.get(key.as_str()),
        };
        match found {
            Some(e) => Some(*e),
            None => None,
        }
    }

    /// Solve with `to_move` choosing the next assignment.
    pub fn solve(&mut self, f: &F, to_move: Side) -> (e: Eval)
        requires
            old(self).wf(),
            solvable(*f),
        ensures
            final(self).wf(),
            ev(e) == value_of(*f, to_move),
        decreases f.occ_of(),
    {
        if let Some(w) = winner(f) {
            return Eval { winner: w, plies: 0 };
        }
        let key = f.key();
        if let Some(e) = self.lookup(&key, to_move) {
            return e;
        }
        let moves = legal_moves(f);
        proof {
            lemma_moves_of(*f);
            lemma_counts_bounded(*f, 0);
        }
        let mut best: Option<Eval> = None;
        let mut i: usize = 0;
        while i < moves.len()
            invariant
                self.wf(),
                solvable(*f),
                !(*f is Const),
                i <= moves@.len(),
                moves@ == moves_of(*f),
                f.occ_of() <= u32::MAX,
                match best {
                    None => best_of(*f, to_move, i as nat) is None,
                    Some(b) => best_of(*f, to_move, i as nat) == Some(ev(b)),
                },
                i > 0 ==> best is Some,
            decreases moves.len() - i,
        {
            let mv = moves[i];
            proof {
                lemma_legal_index(*f, i as int);
                lemma_move_progress(*f, mv);
                lemma_cascade_decided_or_open(f.subst(mv.atom, mv.value));
            }
            let g = match apply_move(f, mv) {
                Ok((g, _)) => g,
                Err(_) => {
                    proof {
                        assert(false);
                    }
                    return Eval { winner: to_move, plies: 0 };
                },
            };
            let sub = self.solve(&g, to_move.other());
            proof {
                lemma_value_plies(g, to_move.other_of());
            }
            let cand = Eval { winner: sub.winner, plies: sub.plies + 1 };
            assert(ev(cand) == candidate_of(*f, to_move, i as int));
            best = Some(
                match best {
                    None => cand,
                    Some(b) => pick(to_move, b, cand),
                },
            );
            i = i + 1;
        }
        let e = match best {
            Some(e) => e,
            None => {
                proof {
                    assert(false);
                }
                Eval { winner: to_move, plies: 0 }
            },
        };
        assert(ev(e) == value_of(*f, to_move));
        match to_move {
            Side::Top => {
                proof {
                    lemma_memo_insert(self.memo_top@, Side::Top, *f, e);
                }
                self.memo_top.insert(key, e);
            },
            Side::Bot => {
                proof {
                    lemma_memo_insert(self.memo_bot@, Side::Bot, *f, e);
                }
                self.memo_bot.insert(key, e);
            },
        }
        e
    }

    /// Moves that preserve the best achievable outcome for `to_move`
    /// (and among those, the best ply count for them).
    pub fn best_moves(&mut self, f: &F, to_move: Side) -> (v: Vec<Move>)
        requires
            old(self).wf(),
            solvable(*f),
        ensures
            final(self).wf(),
            v@ == best_moves_of(*f, to_move, moves_of(*f).len()),
    {
        let target = self.solve(f, to_move);
        let moves = legal_moves(f);
        proof {
            lemma_counts_bounded(*f, 0);
        }
        let mut out: Vec<Move> = Vec::new();
        let mut i: usize = 0;
        while i < moves.len()
            invariant
                self.wf(),
                solvable(*f),
                i <= moves@.len(),
                moves@ == moves_of(*f),
                f.occ_of() <= u32::MAX,
                ev(target) == value_of(*f, to_move),
                out@ == best_moves_of(*f, to_move, i as nat),
            decreases moves.len() - i,
        {
            let mv = moves[i];
            proof {
                lemma_legal_index(*f, i as int);
                lemma_move_progress(*f, mv);
                lemma_cascade_decided_or_open(f.subst(mv.atom, mv.value));
            }
            let g = match apply_move(f, mv) {
                Ok((g, _)) => g,
                Err(_) => {
                    proof {
                        assert(false);
                    }
                    return out;
                },
            };
            let sub = self.solve(&g, to_move.other());
            proof {
                lemma_value_plies(g, to_move.other_of());
            }
            if sub.winner == target.winner && sub.plies + 1 == target.plies {
                out.push(mv);
            }
            assert(out@ =~= best_moves_of(*f, to_move, (i + 1) as nat));
            i = i + 1;
        }
        out
    }

    /// Moves that win for `to_move` (regardless of speed). Empty iff lost.
    pub fn winning_moves(&mut self, f: &F, to_move: Side) -> (v: Vec<Move>)
        requires
            old(self).wf(),
            f.wf(),
        ensures
            final(self).wf(),
            v@ == winning_moves_of(*f, to_move, moves_of(*f).len()),
    {
        let moves = legal_moves(f);
        proof {
            lemma_counts_bounded(*f, 0);
        }
        let mut out: Vec<Move> = Vec::new();
        let mut i: usize = 0;
        while i < moves.len()
            invariant
                self.wf(),
                f.wf(),
                i <= moves@.len(),
                moves@ == moves_of(*f),
                out@ == winning_moves_of(*f, to_move, i as nat),
            decreases moves.len() - i,
        {
            let mv = moves[i];
            proof {
                lemma_legal_index(*f, i as int);
                lemma_move_progress(*f, mv);
                lemma_cascade_decided_or_open(f.subst(mv.atom, mv.value));
            }
            let g = match apply_move(f, mv) {
                Ok((g, _)) => g,
                Err(_) => {
                    proof {
                        assert(false);
                    }
                    return out;
                },
            };
            let sub = self.solve(&g, to_move.other());
            if sub.winner == to_move {
                out.push(mv);
            }
            assert(out@ =~= winning_moves_of(*f, to_move, (i + 1) as nat));
            i = i + 1;
        }
        out
    }
}

fn pick(to_move: Side, a: Eval, b: Eval) -> (r: Eval)
    ensures
        ev(r) == pick_of(to_move, ev(a), ev(b)),
{
    let a_wins = a.winner == to_move;
    let b_wins = b.winner == to_move;
    match (a_wins, b_wins) {
        (true, false) => a,
        (false, true) => b,
        (true, true) => {
            if b.plies < a.plies {
                b
            } else {
                a
            }
        },
        (false, false) => {
            if b.plies > a.plies {
                b
            } else {
                a
            }
        },
    }
}

/// Winner for each choice of who moves first: `(if Top moves first, if Bot
/// moves first)`. This is the whole pie-rule pricing of a fresh formula.
pub fn solve_both_orders(f: &F) -> (r: (Side, Side))
    requires
        solvable(*f),
    ensures
        r == (value_of(*f, Side::Top).0, value_of(*f, Side::Bot).0),
{
    let mut s = Solver::new();
    let top = s.solve(f, Side::Top);
    let bot = s.solve(f, Side::Bot);
    (top.winner, bot.winner)
}

// ------------------------------------------------------------------ lemmas --

proof fn lemma_memo_insert(m: Map<Seq<char>, Eval>, s: Side, f: F, e: Eval)
    requires
        memo_ok(m, s),
        f.wf(),
        ev(e) == value_of(f, s),
    ensures
        memo_ok(m.insert(f.key_of(), e), s),
{
    let m2 = m.insert(f.key_of(), e);
    assert forall|g: F| #[trigger] m2.contains_key(g.key_of()) && g.wf() implies ev(m2[g.key_of()])
        == value_of(g, s) by {
        if g.key_of() == f.key_of() {
            lemma_key_injective(g, f);
        } else {
            assert(m.contains_key(g.key_of()));
        }
    }
}

/// Candidate plies are positive and bounded by the occurrences on the board.
pub proof fn lemma_value_plies(f: F, s: Side)
    ensures
        value_of(f, s).1 <= f.occ_of(),
    decreases f.occ_of(), 2nat, 0nat,
{
    match f {
        F::Const(_) => {},
        _ => {
            lemma_best_plies(f, s, moves_of(f).len());
        },
    }
}

proof fn lemma_best_plies(f: F, s: Side, k: nat)
    ensures
        best_of(f, s, k) matches Some(e) ==> 1 <= e.1 <= f.occ_of(),
    decreases f.occ_of(), 1nat, k,
{
    if k > 0 && k <= moves_of(f).len() {
        lemma_best_plies(f, s, (k - 1) as nat);
        lemma_legal_index(f, k - 1);
        let g = after_move(f, moves_of(f)[k - 1]);
        lemma_value_plies(g, s.other_of());
        let c = candidate_of(f, s, k - 1);
        assert(c == (value_of(g, s.other_of()).0, value_of(g, s.other_of()).1 + 1));
    }
}

proof fn lemma_best_of_shape(f: F, s: Side, k: nat)
    requires
        1 <= k <= moves_of(f).len(),
    ensures
        best_of(f, s, k) is Some,
        (best_of(f, s, k).unwrap().0 == s) <==> exists|i: int|
            0 <= i < k && #[trigger] candidate_of(f, s, i).0 == s,
        exists|i: int| 0 <= i < k && best_of(f, s, k) == Some(#[trigger] candidate_of(f, s, i)),
    decreases k,
{
    let c = candidate_of(f, s, k - 1);
    if k == 1 {
        assert(best_of(f, s, 0) is None);
        assert(best_of(f, s, k) == Some(candidate_of(f, s, 0)));
    } else {
        lemma_best_of_shape(f, s, (k - 1) as nat);
        let b = best_of(f, s, (k - 1) as nat).unwrap();
        assert(best_of(f, s, k) == Some(pick_of(s, b, c)));
        let j = choose|i: int|
            0 <= i < k - 1 && best_of(f, s, (k - 1) as nat) == Some(#[trigger] candidate_of(f, s, i));
        if pick_of(s, b, c) == b {
            assert(best_of(f, s, k) == Some(candidate_of(f, s, j)));
        } else {
            assert(best_of(f, s, k) == Some(candidate_of(f, s, k - 1)));
        }
        if best_of(f, s, k).unwrap().0 == s {
            if b.0 == s {
                let i = choose|i: int| 0 <= i < k - 1 && #[trigger] candidate_of(f, s, i).0 == s;
                assert(0 <= i < k && candidate_of(f, s, i).0 == s);
            } else {
                assert(candidate_of(f, s, k - 1).0 == s);
            }
        }
        if exists|i: int| 0 <= i < k && #[trigger] candidate_of(f, s, i).0 == s {
            let i = choose|i: int| 0 <= i < k && #[trigger] candidate_of(f, s, i).0 == s;
            if i < k - 1 {
                assert(b.0 == s);
            }
        }
    }
}

/// Brute-force characterization of the winner: in an undecided position the
/// side to move wins exactly when some legal move leads to a position it
/// wins with the opponent to move.
pub proof fn lemma_value_winner(f: F, s: Side)
    requires
        solvable(f),
        !(f is Const),
    ensures
        (value_of(f, s).0 == s) <==> exists|i: int|
            0 <= i < moves_of(f).len() && #[trigger] value_of(
                after_move(f, moves_of(f)[i]),
                s.other_of(),
            ).0 == s,
        value_of(f, s).1 >= 1,
{
    lemma_moves_of(f);
    lemma_best_of_shape(f, s, moves_of(f).len());
    lemma_best_plies(f, s, moves_of(f).len());
    if value_of(f, s).0 == s {
        let i = choose|i: int| 0 <= i < moves_of(f).len() && #[trigger] candidate_of(f, s, i).0 == s;
        assert(value_of(after_move(f, moves_of(f)[i]), s.other_of()).0 == s);
    }
    if exists|i: int|
        0 <= i < moves_of(f).len() && #[trigger] value_of(
            after_move(f, moves_of(f)[i]),
            s.other_of(),
        ).0 == s {
        let i = choose|i: int|
            0 <= i < moves_of(f).len() && #[trigger] value_of(
                after_move(f, moves_of(f)[i]),
                s.other_of(),
            ).0 == s;
        assert(candidate_of(f, s, i).0 == s);
    }
}

proof fn lemma_winning_moves_prefix(f: F, s: Side, k: nat)
    requires
        k <= moves_of(f).len(),
    ensures
        (winning_moves_of(f, s, k).len() == 0) <==> forall|i: int|
            0 <= i < k ==> #[trigger] value_of(after_move(f, moves_of(f)[i]), s.other_of()).0 != s,
        forall|j: int|
            0 <= j < winning_moves_of(f, s, k).len() ==> value_of(
                after_move(f, #[trigger] winning_moves_of(f, s, k)[j]),
                s.other_of(),
            ).0 == s,
    decreases k,
{
    if k > 0 {
        lemma_winning_moves_prefix(f, s, (k - 1) as nat);
        let prev = winning_moves_of(f, s, (k - 1) as nat);
        let cur = winning_moves_of(f, s, k);
        assert forall|j: int| 0 <= j < cur.len() implies value_of(
            after_move(f, #[trigger] cur[j]),
            s.other_of(),
        ).0 == s by {
            if j < prev.len() {
                assert(cur[j] == prev[j]);
            }
        }
    }
}

/// `winning_moves` is empty exactly when the side to move has lost, and every
/// move it lists keeps the win.
pub proof fn lemma_winning_moves_iff(f: F, s: Side)
    requires
        solvable(f),
        !(f is Const),
    ensures
        (winning_moves_of(f, s, moves_of(f).len()).len() == 0) == (value_of(f, s).0 != s),
        forall|j: int|
            0 <= j < winning_moves_of(f, s, moves_of(f).len()).len() ==> value_of(
                after_move(f, #[trigger] winning_moves_of(f, s, moves_of(f).len())[j]),
                s.other_of(),
            ).0 == s,
{
    lemma_value_winner(f, s);
    lemma_winning_moves_prefix(f, s, moves_of(f).len());
}

proof fn lemma_best_moves_prefix(f: F, s: Side, k: nat)
    requires
        k <= moves_of(f).len(),
    ensures
        (exists|i: int|
            0 <= i < k && #[trigger] candidate_of(f, s, i) == value_of(f, s)) ==> best_moves_of(
            f,
            s,
            k,
        ).len() > 0,
        forall|j: int|
            0 <= j < best_moves_of(f, s, k).len() ==> {
                let sub = value_of(after_move(f, #[trigger] best_moves_of(f, s, k)[j]), s.other_of());
                sub.0 == value_of(f, s).0 && sub.1 + 1 == value_of(f, s).1
            },
    decreases k,
{
    if k > 0 {
        lemma_best_moves_prefix(f, s, (k - 1) as nat);
        let prev = best_moves_of(f, s, (k - 1) as nat);
        let cur = best_moves_of(f, s, k);
        assert forall|j: int| 0 <= j < cur.len() implies {
            let sub = value_of(after_move(f, #[trigger] cur[j]), s.other_of());
            sub.0 == value_of(f, s).0 && sub.1 + 1 == value_of(f, s).1
        } by {
            if j < prev.len() {
                assert(cur[j] == prev[j]);
            }
        }
        if exists|i: int| 0 <= i < k && #[trigger] candidate_of(f, s, i) == value_of(f, s) {
            let i = choose|i: int| 0 <= i < k && #[trigger] candidate_of(f, s, i) == value_of(f, s);
            if i == k - 1 {
                lemma_legal_index(f, i);
            } else {
                assert(0 <= i < k - 1);
            }
        }
    }
}

/// From any undecided position the side to move has at least one best move,
/// and every best move keeps the value: the same winner, one ply closer.
pub proof fn lemma_best_moves_keep_value(f: F, s: Side)
    requires
        solvable(f),
        !(f is Const),
    ensures
        best_moves_of(f, s, moves_of(f).len()).len() > 0,
        forall|j: int|
            0 <= j < best_moves_of(f, s, moves_of(f).len()).len() ==> {
                let sub = value_of(
                    after_move(f, #[trigger] best_moves_of(f, s, moves_of(f).len())[j]),
                    s.other_of(),
                );
                sub.0 == value_of(f, s).0 && sub.1 + 1 == value_of(f, s).1
            },
{
    lemma_moves_of(f);
    lemma_best_of_shape(f, s, moves_of(f).len());
    lemma_best_moves_prefix(f, s, moves_of(f).len());
}

/// Every best move is a legal move.
pub proof fn lemma_best_moves_legal(f: F, s: Side, k: nat)
    requires
        k <= moves_of(f).len(),
    ensures
        forall|mv: Move| #[trigger] best_moves_of(f, s, k).contains(mv) ==> moves_of(f).contains(mv),
    decreases k,
{
    if k > 0 {
        lemma_best_moves_legal(f, s, (k - 1) as nat);
        let mv = moves_of(f)[k - 1];
        assert(moves_of(f)[k - 1] == mv);
        let prev = best_moves_of(f, s, (k - 1) as nat);
        let cur = best_moves_of(f, s, k);
        assert forall|m: Move| #[trigger] cur.contains(m) implies moves_of(f).contains(m) by {
            let i = choose|i: int| 0 <= i < cur.len() && cur[i] == m;
            if i < prev.len() {
                assert(prev[i] == m);
                assert(prev.contains(m));
            } else {
                assert(m == mv);
            }
        }
    }
}


/// Following a best move keeps a win: when the side to move wins, every one
/// of its best moves is a winning move.
pub proof fn lemma_best_moves_keep_win(f: F, s: Side, k: nat)
    requires
        k <= moves_of(f).len(),
        value_of(f, s).0 == s,
    ensures
        forall|mv: Move| #[trigger] best_moves_of(f, s, k).contains(mv) ==> winning_moves_of(
            f,
            s,
            k,
        ).contains(mv),
    decreases k,
{
    if k > 0 {
        lemma_best_moves_keep_win(f, s, (k - 1) as nat);
        let mv = moves_of(f)[k - 1];
        let prev = best_moves_of(f, s, (k - 1) as nat);
        let cur = best_moves_of(f, s, k);
        let wprev = winning_moves_of(f, s, (k - 1) as nat);
        let wcur = winning_moves_of(f, s, k);
        assert forall|m: Move| #[trigger] cur.contains(m) implies wcur.contains(m) by {
            let i = choose|i: int| 0 <= i < cur.len() && cur[i] == m;
            if i < prev.len() {
                assert(prev[i] == m);
                assert(prev.contains(m));
                assert(wprev.contains(m));
                let j = choose|j: int| 0 <= j < wprev.len() && wprev[j] == m;
                assert(wcur[j] == m);
            } else {
                assert(m == mv);
                assert(wcur[wcur.len() - 1] == mv);
            }
        }
    }
}

proof fn lemma_best_of_extreme(f: F, s: Side, k: nat)
    requires
        1 <= k <= moves_of(f).len(),
    ensures
        forall|i: int|
            0 <= i < k ==> {
                let b = best_of(f, s, k).unwrap();
                let c = #[trigger] candidate_of(f, s, i);
                &&& (b.0 == s && c.0 == s ==> b.1 <= c.1)
                &&& (b.0 != s ==> c.0 != s && c.1 <= b.1)
            },
    decreases k,
{
    lemma_best_of_shape(f, s, k);
    if k > 1 {
        lemma_best_of_extreme(f, s, (k - 1) as nat);
        lemma_best_of_shape(f, s, (k - 1) as nat);
    } else {
        assert(best_of(f, s, 0) is None);
    }
}

/// The ply count's recursion: a constant board is 0 plies from its end;
/// otherwise the count is one more than a child's, the fewest among the
/// children the side to move wins when it wins, and the most among all
/// children when it loses.
pub proof fn lemma_value_plies_recursion(f: F, s: Side)
    requires
        solvable(f),
    ensures
        f is Const <==> value_of(f, s).1 == 0,
        !(f is Const) ==> exists|i: int|
            0 <= i < moves_of(f).len() && {
                let c = #[trigger] value_of(after_move(f, moves_of(f)[i]), s.other_of());
                value_of(f, s) == (c.0, c.1 + 1)
            },
        !(f is Const) ==> forall|i: int|
            0 <= i < moves_of(f).len() ==> {
                let c = #[trigger] value_of(after_move(f, moves_of(f)[i]), s.other_of());
                &&& (value_of(f, s).0 == s && c.0 == s ==> value_of(f, s).1 <= c.1 + 1)
                &&& (value_of(f, s).0 != s ==> c.0 != s && c.1 + 1 <= value_of(f, s).1)
            },
{
    if !(f is Const) {
        lemma_value_winner(f, s);
        lemma_moves_of(f);
        let n = moves_of(f).len();
        lemma_best_of_shape(f, s, n);
        lemma_best_of_extreme(f, s, n);
        let j = choose|i: int| 0 <= i < n && best_of(f, s, n) == Some(#[trigger] candidate_of(f, s, i));
        lemma_legal_index(f, j);
        assert(value_of(after_move(f, moves_of(f)[j]), s.other_of()).1 + 1 == value_of(f, s).1);
        assert forall|i: int| 0 <= i < n implies {
            let c = #[trigger] value_of(after_move(f, moves_of(f)[i]), s.other_of());
            &&& (value_of(f, s).0 == s && c.0 == s ==> value_of(f, s).1 <= c.1 + 1)
            &&& (value_of(f, s).0 != s ==> c.0 != s && c.1 + 1 <= value_of(f, s).1)
        } by {
            lemma_legal_index(f, i);
            assert(candidate_of(f, s, i) == (
                value_of(after_move(f, moves_of(f)[i]), s.other_of()).0,
                value_of(after_move(f, moves_of(f)[i]), s.other_of()).1 + 1,
            ));
        }
    }
}


/// The child of `mv` keeps the mover's value, one ply closer.
pub open spec fn keeps_value(f: F, s: Side, mv: Move) -> bool {
    let sub = value_of(after_move(f, mv), s.other_of());
    sub.0 == value_of(f, s).0 && sub.1 + 1 == value_of(f, s).1
}

/// After `mv` the mover still wins.
pub open spec fn keeps_win(f: F, s: Side, mv: Move) -> bool {
    value_of(after_move(f, mv), s.other_of()).0 == s
}

proof fn lemma_moves_filtered_prefix(f: F, s: Side, k: nat)
    requires
        k <= moves_of(f).len(),
    ensures
        best_moves_of(f, s, k) == moves_of(f).take(k as int).filter(|mv: Move| keeps_value(f, s, mv)),
        winning_moves_of(f, s, k) == moves_of(f).take(k as int).filter(|mv: Move| keeps_win(f, s, mv)),
    decreases k,
{
    reveal(Seq::filter);
    let t = moves_of(f).take(k as int);
    if k == 0 {
        assert(t =~= Seq::<Move>::empty());
    } else {
        lemma_moves_filtered_prefix(f, s, (k - 1) as nat);
        assert(t.drop_last() =~= moves_of(f).take(k - 1));
        assert(t.last() == moves_of(f)[k - 1]);
        let mv = moves_of(f)[k - 1];
        let bp = best_moves_of(f, s, (k - 1) as nat);
        let wp = winning_moves_of(f, s, (k - 1) as nat);
        if keeps_value(f, s, mv) {
            assert(bp + seq![mv] =~= bp.push(mv));
        } else {
            assert(bp + Seq::<Move>::empty() =~= bp);
        }
        if keeps_win(f, s, mv) {
            assert(wp + seq![mv] =~= wp.push(mv));
        } else {
            assert(wp + Seq::<Move>::empty() =~= wp);
        }
    }
}

/// The best moves are the legal moves, in their order, whose board keeps
/// the mover's value one ply closer; the winning moves are the legal moves,
/// in their order, after which the mover still wins.
pub proof fn lemma_moves_filtered(f: F, s: Side)
    ensures
        best_moves_of(f, s, moves_of(f).len()) == moves_of(f).filter(
            |mv: Move| keeps_value(f, s, mv),
        ),
        winning_moves_of(f, s, moves_of(f).len()) == moves_of(f).filter(
            |mv: Move| keeps_win(f, s, mv),
        ),
{
    lemma_moves_filtered_prefix(f, s, moves_of(f).len());
    assert(moves_of(f).take(moves_of(f).len() as int) =~= moves_of(f));
}

} // verus!
