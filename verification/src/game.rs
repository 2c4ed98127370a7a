//! Game rules: sides, moves, the win condition.

use crate::formula::{lemma_atoms_of, lemma_counts_bounded, Atom, ATOM_COUNT, F};
use crate::laws::{cascade, cascade_of, lemma_cascade_sound, step_views, trace_of, Step};
use vstd::prelude::*;

verus! {

#[derive(Clone, Copy, Debug, PartialEq, Eq, Hash, Structural)]
pub enum Side {
    Top,
    Bot,
}

/// The side whose constant is `b`.
pub open spec fn side_of(b: bool) -> Side {
    if b {
        Side::Top
    } else {
        Side::Bot
    }
}

impl Side {
    pub open spec fn constant_of(self) -> bool {
        self == Side::Top
    }

    pub open spec fn other_of(self) -> Side {
        match self {
            Side::Top => Side::Bot,
            Side::Bot => Side::Top,
        }
    }

    pub open spec fn glyph_of(self) -> char {
        match self {
            Side::Top => '⊤',
            Side::Bot => '⊥',
        }
    }

    pub fn constant(self) -> (b: bool)
        ensures
            b == self.constant_of(),
    {
        match self {
            Side::Top => true,
            Side::Bot => false,
        }
    }

    pub fn of_constant(b: bool) -> (s: Side)
        ensures
            s == side_of(b),
    {
        if b {
            Side::Top
        } else {
            Side::Bot
        }
    }

    pub fn other(self) -> (s: Side)
        ensures
            s == self.other_of(),
    {
        match self {
            Side::Top => Side::Bot,
            Side::Bot => Side::Top,
        }
    }

    pub fn glyph(self) -> (c: char)
        ensures
            c == self.glyph_of(),
    {
        match self {
            Side::Top => '⊤',
            Side::Bot => '⊥',
        }
    }
}

#[derive(Clone, Copy, Debug, PartialEq, Eq, Hash, Structural)]
pub struct Move {
    pub atom: Atom,
    pub value: bool,
}

impl Move {
    pub fn new(atom: Atom, value: bool) -> (m: Move)
        ensures
            m == (Move { atom, value }),
    {
        Move { atom, value }
    }
}

/// The winner, if the board has collapsed to a lone constant.
pub open spec fn winner_of(f: F) -> Option<Side> {
    match f {
        F::Const(b) => Some(side_of(b)),
        _ => None,
    }
}

/// Legal moves: every atom still on the board, ascending, ⊤ before ⊥.
pub open spec fn moves_of(f: F) -> Seq<Move> {
    Seq::new(
        2 * f.atoms_of().len(),
        |i: int| Move { atom: f.atoms_of()[i / 2], value: i % 2 == 0 },
    )
}

/// The board after assigning `mv`: every occurrence replaced, then the cascade.
pub open spec fn after_move(f: F, mv: Move) -> F {
    cascade_of(f.subst(mv.atom, mv.value))
}

/// The winner, if the board has collapsed.
pub fn winner(f: &F) -> (w: Option<Side>)
    ensures
        w == winner_of(*f),
{
    match f.as_const() {
        Some(b) => Some(Side::of_constant(b)),
        None => None,
    }
}

/// All legal moves: any atom still on the board, either value.
pub fn legal_moves(f: &F) -> (v: Vec<Move>)
    requires
        f.wf(),
    ensures
        v@ == moves_of(*f),
{
    let atoms = f.atoms();
    proof {
        lemma_atoms_of(*f);
    }
    let mut out: Vec<Move> = Vec::new();
    let mut i: usize = 0;
    while i < atoms.len()
        invariant
            i <= atoms.len() <= ATOM_COUNT,
            atoms@ == f.atoms_of(),
            out@ == moves_of(*f).take(2 * i),
        decreases atoms.len() - i,
    {
        out.push(Move::new(atoms[i], true));
        out.push(Move::new(atoms[i], false));
        proof {
            assert forall|k: int| 0 <= k < 2 * i + 2 implies out@[k] == moves_of(*f)[k] by {
                if k >= 2 * i {
                    assert(k / 2 == i);
                }
            }
            assert(out@ =~= moves_of(*f).take(2 * i + 2));
        }
        i = i + 1;
    }
    assert(out@ =~= moves_of(*f));
    out
}

/// Apply a move: substitute every occurrence, then run the cascade.
/// Returns the final board and the full step trace for animation.
/// Errors if the atom is no longer on the board.
pub fn apply_move(f: &F, mv: Move) -> (r: Result<(F, Vec<Step>), &'static str>)
    requires
        f.size_of() <= u32::MAX,
    ensures
        match r {
            Ok((g, steps)) => {
                &&& f.count_of(mv.atom) > 0
                &&& g == after_move(*f, mv)
                &&& step_views(steps@) == trace_of(f.subst(mv.atom, mv.value))
            },
            Err(e) => f.count_of(mv.atom) == 0 && e@ == "atom is not on the board"@,
        },
{
    if f.count_atom(mv.atom) == 0 {
        return Err("atom is not on the board");
    }
    let substituted = f.substitute(mv.atom, mv.value);
    let (end, steps) = cascade(&substituted);
    Ok((end, steps))
}

// ------------------------------------------------------------------ lemmas --

/// Substitution removes every occurrence of the atom and touches nothing else.
pub proof fn lemma_subst(f: F, a: Atom, v: bool)
    ensures
        f.subst(a, v).count_of(a) == 0,
        forall|b: Atom| b != a ==> #[trigger] f.subst(a, v).count_of(b) == f.count_of(b),
        f.subst(a, v).occ_of() + f.count_of(a) == f.occ_of(),
        f.subst(a, v).size_of() == f.size_of(),
        f.atoms_named() ==> f.subst(a, v).atoms_named(),
    decreases f,
{
    match f {
        F::Not(x) => {
            lemma_subst(*x, a, v);
            assert forall|b: Atom| b != a implies #[trigger] f.subst(a, v).count_of(b)
                == f.count_of(b) by {
                assert(x.subst(a, v).count_of(b) == x.count_of(b));
            }
        },
        F::Bin(_, l, r) => {
            lemma_subst(*l, a, v);
            lemma_subst(*r, a, v);
            assert forall|b: Atom| b != a implies #[trigger] f.subst(a, v).count_of(b)
                == f.count_of(b) by {
                assert(l.subst(a, v).count_of(b) == l.count_of(b));
                assert(r.subst(a, v).count_of(b) == r.count_of(b));
            }
        },
        _ => {},
    }
}

/// A legal move strictly reduces the atom occurrences on the board, deletes
/// every occurrence of the assigned atom, and keeps the board well formed.
pub proof fn lemma_move_progress(f: F, mv: Move)
    requires
        f.count_of(mv.atom) > 0,
    ensures
        after_move(f, mv).occ_of() < f.occ_of(),
        after_move(f, mv).count_of(mv.atom) == 0,
        forall|b: Atom| #[trigger] after_move(f, mv).count_of(b) <= f.count_of(b),
        after_move(f, mv).size_of() <= f.size_of(),
        f.wf() ==> after_move(f, mv).wf(),
{
    lemma_subst(f, mv.atom, mv.value);
    let s = f.subst(mv.atom, mv.value);
    lemma_cascade_sound(s, 0);
    assert forall|b: Atom| #[trigger] after_move(f, mv).count_of(b) <= f.count_of(b) by {
        assert(cascade_of(s).count_of(b) <= s.count_of(b));
        if b != mv.atom {
            assert(s.count_of(b) == f.count_of(b));
        }
    }
    assert(cascade_of(s).count_of(mv.atom) <= s.count_of(mv.atom));
}

/// The legal moves are exactly the assignments of atoms on the board.
pub proof fn lemma_moves_of(f: F)
    requires
        f.atoms_named(),
    ensures
        forall|i: int| 0 <= i < moves_of(f).len() ==> f.count_of(#[trigger] moves_of(f)[i].atom) > 0,
        forall|a: Atom, v: bool|
            f.count_of(a) > 0 ==> #[trigger] moves_of(f).contains(Move { atom: a, value: v }),
        moves_of(f).len() <= 16,
        (moves_of(f).len() == 0) == (f.occ_of() == 0),
{
    lemma_atoms_of(f);
    let at = f.atoms_of();
    assert forall|i: int| 0 <= i < moves_of(f).len() implies f.count_of(
        #[trigger] moves_of(f)[i].atom,
    ) > 0 by {
        assert(at.contains(at[i / 2]));
    }
    assert forall|a: Atom, v: bool| f.count_of(a) > 0 implies #[trigger] moves_of(f).contains(
        Move { atom: a, value: v },
    ) by {
        assert(at.contains(a));
        let k = choose|k: int| 0 <= k < at.len() && at[k] == a;
        let i = if v {
            2 * k
        } else {
            2 * k + 1
        };
        assert(moves_of(f)[i] == Move { atom: a, value: v });
    }
    if f.occ_of() == 0 {
        lemma_no_occ_no_count(f);
        if at.len() > 0 {
            assert(at.contains(at[0]));
        }
    } else {
        let a = lemma_some_atom(f);
        assert(at.contains(a));
    }
}

proof fn lemma_no_occ_no_count(f: F)
    requires
        f.occ_of() == 0,
    ensures
        forall|a: Atom| #[trigger] f.count_of(a) == 0,
{
    assert forall|a: Atom| #[trigger] f.count_of(a) == 0 by {
        lemma_counts_bounded(f, a);
    }
}

/// A board with an occurrence has some atom on it.
pub proof fn lemma_some_atom(f: F) -> (a: Atom)
    requires
        f.occ_of() > 0,
    ensures
        f.count_of(a) > 0,
    decreases f,
{
    match f {
        F::Atom(x) => x,
        F::Not(x) => lemma_some_atom(*x),
        F::Bin(_, l, r) => {
            if l.occ_of() > 0 {
                lemma_some_atom(*l)
            } else {
                lemma_some_atom(*r)
            }
        },
        F::Const(_) => 0,
    }
}

/// A run of moves, each legal on the board it meets: the board still
/// undecided and the atom still on it.
pub open spec fn legal_run(f: F, run: Seq<Move>) -> bool
    decreases run.len(),
{
    run.len() == 0 || (!(f is Const) && f.count_of(run[0].atom) > 0 && legal_run(
        after_move(f, run[0]),
        run.drop_first(),
    ))
}

/// No draws: a board that is not a lone constant always offers a move, and
/// every game stops within as many moves as the board has atom occurrences
/// (a player must move, so the game goes on until a lone constant stands).
pub proof fn lemma_no_draws(f: F, run: Seq<Move>)
    requires
        crate::solve::solvable(f),
        legal_run(f, run),
    ensures
        f is Const || moves_of(f).len() > 0,
        run.len() <= f.occ_of(),
    decreases run.len(),
{
    lemma_moves_of(f);
    if run.len() > 0 {
        let mv = run[0];
        let g = after_move(f, mv);
        lemma_move_progress(f, mv);
        crate::laws::lemma_cascade_decided_or_open(f.subst(mv.atom, mv.value));
        lemma_no_draws(g, run.drop_first());
    }
}

/// Substituting the value an assignment gives an atom keeps the truth value
/// under that assignment.
proof fn lemma_subst_eval(f: F, a: Atom, v: bool, env: u8)
    requires
        (env & (1u8 << a) != 0) == v,
    ensures
        f.subst(a, v).eval_of(env) == f.eval_of(env),
    decreases f,
{
    match f {
        F::Not(x) => lemma_subst_eval(*x, a, v, env),
        F::Bin(_, l, r) => {
            lemma_subst_eval(*l, a, v, env);
            lemma_subst_eval(*r, a, v, env);
        },
        _ => {},
    }
}

/// A move picks a branch of the board's Shannon expansion: under every
/// assignment that gives the atom the value the move gave it, the board
/// after the move and its cascade has the truth value of the board before.
pub proof fn lemma_move_is_branch(f: F, mv: Move, env: u8)
    requires
        (env & (1u8 << mv.atom) != 0) == mv.value,
    ensures
        after_move(f, mv).eval_of(env) == f.eval_of(env),
{
    lemma_subst_eval(f, mv.atom, mv.value, env);
    lemma_cascade_sound(f.subst(mv.atom, mv.value), env);
}

} // verus!
