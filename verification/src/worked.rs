//! The worked example of the design notes, `(p ⇒ q) ∧ (p ∨ r) ∧ (r ⇒ q)`
//! with ⊤ to move, played out move by move: ⊤ wins in two assignments, and
//! only by q ≔ ⊤.

use crate::formula::{Op, F};
use crate::game::{after_move, moves_of, Move, Side};
use crate::laws::{cascade_of, redex_of, replace_of, step_of};
use crate::puzzles::worked_example;
use crate::solve::{solvable, value_of};
use vstd::prelude::*;

verus! {

// ------------------------------------------------- the worked example's tree --

spec fn at(a: u8) -> F {
    F::Atom(a)
}

spec fn tt() -> F {
    F::Const(true)
}

spec fn ff() -> F {
    F::Const(false)
}

spec fn and_(l: F, r: F) -> F {
    F::Bin(Op::And, Box::new(l), Box::new(r))
}

spec fn or_(l: F, r: F) -> F {
    F::Bin(Op::Or, Box::new(l), Box::new(r))
}

spec fn imp_(l: F, r: F) -> F {
    F::Bin(Op::Imp, Box::new(l), Box::new(r))
}

spec fn not_(x: F) -> F {
    F::Not(Box::new(x))
}

proof fn lemma_via(x: F, y: F)
    requires
        step_of(x) == Some(y),
    ensures
        cascade_of(x) == cascade_of(y),
{
}

proof fn lemma_calm_end(x: F)
    requires
        step_of(x) is None,
    ensures
        cascade_of(x) == x,
{
}

/// ⊤ to move plays q ≔ ⊤: the board settles to p ∨ r.
#[verifier::spinoff_prover]
#[verifier::rlimit(60)]
proof fn lemma_child_q_top()
    ensures
        after_move(worked_example(), Move { atom: 1, value: true }) == or_(at(0), at(2)),
{
    let w1 = and_(and_(imp_(at(0), tt()), or_(at(0), at(2))), imp_(at(2), tt()));
    assert(worked_example().subst(1, true) == w1) by {
        reveal_with_fuel(F::subst, 4);
    }
    let w2 = and_(and_(tt(), or_(at(0), at(2))), imp_(at(2), tt()));
    let w3 = and_(or_(at(0), at(2)), imp_(at(2), tt()));
    let w4 = and_(or_(at(0), at(2)), tt());
    let w5 = or_(at(0), at(2));
    assert(step_of(w1) == Some(w2)) by {
        reveal_with_fuel(redex_of, 4);
        reveal_with_fuel(replace_of, 4);
    }
    assert(step_of(w2) == Some(w3)) by {
        reveal_with_fuel(redex_of, 4);
        reveal_with_fuel(replace_of, 4);
    }
    assert(step_of(w3) == Some(w4)) by {
        reveal_with_fuel(redex_of, 4);
        reveal_with_fuel(replace_of, 4);
    }
    assert(step_of(w4) == Some(w5)) by {
        reveal_with_fuel(redex_of, 4);
        reveal_with_fuel(replace_of, 4);
    }
    assert(step_of(w5) is None) by {
        reveal_with_fuel(redex_of, 4);
    }
    lemma_via(w1, w2);
    lemma_via(w2, w3);
    lemma_via(w3, w4);
    lemma_via(w4, w5);
    lemma_calm_end(w5);
}


/// Rewrites `x0` through `xs` to its calm end.
proof fn lemma_chain(x0: F, xs: Seq<F>)
    requires
        xs.len() >= 1,
        step_of(x0) == Some(xs[0]),
        forall|i: int| 0 <= i < xs.len() - 1 ==> step_of(#[trigger] xs[i]) == Some(xs[i + 1]),
        step_of(xs.last()) is None,
    ensures
        cascade_of(x0) == xs.last(),
    decreases xs.len(),
{
    if xs.len() == 1 {
        lemma_calm_end(xs[0]);
    } else {
        lemma_chain(xs[0], xs.drop_first());
    }
}

#[verifier::spinoff_prover]
#[verifier::rlimit(60)]
proof fn lemma_atom_top(a: u8)
    requires
        a < 8,
    ensures
        value_of(at(a), Side::Top) == (Side::Top, 1nat),
{
    let f = at(a);
    assert(solvable(f));
    assert(f.atoms_of() =~= seq![a]) by {
        reveal_with_fuel(crate::formula::atoms_below, 9);
    }
    assert(moves_of(f) =~= seq![Move { atom: a, value: true }, Move { atom: a, value: false }]);
    assert(f.subst(a, true) == tt());
    assert(f.subst(a, false) == ff());
    lemma_calm_end(tt());
    lemma_calm_end(ff());
    assert(after_move(f, moves_of(f)[0]) == tt());
    assert(after_move(f, moves_of(f)[1]) == ff());
    assert(value_of(tt(), Side::Bot) == (Side::Top, 0nat));
    assert(value_of(ff(), Side::Bot) == (Side::Bot, 0nat));
    crate::solve::lemma_value_winner(f, Side::Top);
    crate::solve::lemma_value_plies_recursion(f, Side::Top);
}

/// After q ≔ ⊤ the board p ∨ r, ⊥ to move, is ⊤'s in two more plies.
#[verifier::spinoff_prover]
#[verifier::rlimit(60)]
proof fn lemma_fork_value()
    ensures
        value_of(or_(at(0), at(2)), Side::Bot) == (Side::Top, 2nat),
{
    let f = or_(at(0), at(2));
    assert(at(0).atoms_named() && at(0).size_of() == 1 && at(0).occ_of() == 1);
    assert(at(2).atoms_named() && at(2).size_of() == 1 && at(2).occ_of() == 1);
    assert(at(0).count_of(0) == 1 && at(2).count_of(0) == 0);
    assert(at(0).count_of(2) == 0 && at(2).count_of(2) == 1);
    assert(f.atoms_named() && f.size_of() == 3 && f.occ_of() == 2);
    assert(solvable(f));
    assert(f.count_of(0) == 1 && f.count_of(2) == 1);
    assert(f.atoms_of() =~= seq![0u8, 2u8]) by {
        reveal_with_fuel(crate::formula::atoms_below, 9);
        reveal_with_fuel(F::count_of, 3);
    }
    let ms = moves_of(f);
    assert(ms =~= seq![
        Move { atom: 0, value: true },
        Move { atom: 0, value: false },
        Move { atom: 2, value: true },
        Move { atom: 2, value: false },
    ]);
    assert(at(0).subst(0, true) == tt() && at(0).subst(0, false) == ff());
    assert(at(2).subst(2, true) == tt() && at(2).subst(2, false) == ff());
    assert(at(2).subst(0, true) == at(2) && at(2).subst(0, false) == at(2));
    assert(at(0).subst(2, true) == at(0) && at(0).subst(2, false) == at(0));
    assert(f.subst(0, true) == or_(tt(), at(2)));
    assert(f.subst(0, false) == or_(ff(), at(2)));
    assert(f.subst(2, true) == or_(at(0), tt()));
    assert(f.subst(2, false) == or_(at(0), ff()));
    assert(step_of(or_(tt(), at(2))) == Some(tt())) by {
        reveal_with_fuel(redex_of, 3);
    }
    assert(step_of(or_(ff(), at(2))) == Some(at(2))) by {
        reveal_with_fuel(redex_of, 3);
    }
    assert(step_of(or_(at(0), tt())) == Some(tt())) by {
        reveal_with_fuel(redex_of, 3);
    }
    assert(step_of(or_(at(0), ff())) == Some(at(0))) by {
        reveal_with_fuel(redex_of, 3);
    }
    lemma_calm_end(tt());
    lemma_calm_end(at(0));
    lemma_calm_end(at(2));
    lemma_via(or_(tt(), at(2)), tt());
    lemma_via(or_(ff(), at(2)), at(2));
    lemma_via(or_(at(0), tt()), tt());
    lemma_via(or_(at(0), ff()), at(0));
    lemma_atom_top(0);
    lemma_atom_top(2);
    assert(value_of(tt(), Side::Top) == (Side::Top, 0nat));
    assert(value_of(after_move(f, ms[0]), Side::Top) == (Side::Top, 0nat));
    assert(value_of(after_move(f, ms[1]), Side::Top) == (Side::Top, 1nat));
    assert(value_of(after_move(f, ms[2]), Side::Top) == (Side::Top, 0nat));
    assert(value_of(after_move(f, ms[3]), Side::Top) == (Side::Top, 1nat));
    crate::solve::lemma_value_winner(f, Side::Bot);
    crate::solve::lemma_value_plies_recursion(f, Side::Bot);
    assert(value_of(f, Side::Bot).0 == Side::Top);
    let v = value_of(f, Side::Bot);
    assert(v.1 + 0 >= 2) by {
        assert(value_of(after_move(f, ms[1]), Side::Top).1 + 1 <= v.1);
    }
}


/// ⊥ to move wins at once when one move collapses the board to ⊥.
proof fn lemma_bot_kills(c: F, m: Move)
    requires
        solvable(c),
        !(c is Const),
        c.count_of(m.atom) > 0,
        after_move(c, m) == ff(),
    ensures
        value_of(c, Side::Bot).0 == Side::Bot,
{
    let s = Side::Bot;
    crate::game::lemma_moves_of(c);
    assert(m == Move { atom: m.atom, value: m.value });
    assert(moves_of(c).contains(Move { atom: m.atom, value: m.value }));
    let i = choose|i: int| 0 <= i < moves_of(c).len() && moves_of(c)[i] == m;
    assert(value_of(ff(), s.other_of()) == (Side::Bot, 0nat));
    assert(value_of(after_move(c, moves_of(c)[i]), s.other_of()).0 == s);
    crate::solve::lemma_value_winner(c, s);
}

/// ⊤ to move plays p ≔ ⊤: the board settles where ⊥ wins at once.
#[verifier::spinoff_prover]
#[verifier::rlimit(60)]
proof fn lemma_child_p_top()
    ensures
        after_move(worked_example(), Move { atom: 0, value: true }) == and_(at(1), imp_(at(2), at(1))),
        solvable(and_(at(1), imp_(at(2), at(1)))),
        !(and_(at(1), imp_(at(2), at(1))) is Const),
        value_of(and_(at(1), imp_(at(2), at(1))), Side::Bot).0 == Side::Bot,
{
    let c = and_(at(1), imp_(at(2), at(1)));
    assert(worked_example().subst(0, true) == and_(and_(imp_(tt(), at(1)), or_(tt(), at(2))), imp_(at(2), at(1)))) by {
        reveal_with_fuel(F::subst, 4);
    }
    {
        let x0 = and_(and_(imp_(tt(), at(1)), or_(tt(), at(2))), imp_(at(2), at(1)));
        let x1 = and_(and_(at(1), or_(tt(), at(2))), imp_(at(2), at(1)));
        let x2 = and_(and_(at(1), tt()), imp_(at(2), at(1)));
        let x3 = and_(at(1), imp_(at(2), at(1)));
        assert(step_of(x0) == Some(x1)) by {
            reveal_with_fuel(redex_of, 4);
            reveal_with_fuel(replace_of, 4);
        }
        assert(step_of(x1) == Some(x2)) by {
            reveal_with_fuel(redex_of, 4);
            reveal_with_fuel(replace_of, 4);
        }
        assert(step_of(x2) == Some(x3)) by {
            reveal_with_fuel(redex_of, 4);
            reveal_with_fuel(replace_of, 4);
        }
        assert(step_of(x3) is None) by {
            reveal_with_fuel(redex_of, 4);
        }
        lemma_chain(x0, seq![x1, x2, x3]);
    }
    assert(c.atoms_named() && c.size_of() <= 11 && c.occ_of() >= 1 && c.count_of(1) > 0) by {
        reveal_with_fuel(F::atoms_named, 4);
        reveal_with_fuel(F::size_of, 4);
        reveal_with_fuel(F::occ_of, 4);
        reveal_with_fuel(F::count_of, 4);
    }
    assert(c.subst(1, false) == and_(ff(), imp_(at(2), ff()))) by {
        reveal_with_fuel(F::subst, 4);
    }
    {
        let y0 = and_(ff(), imp_(at(2), ff()));
        let y1 = ff();
        assert(step_of(y0) == Some(y1)) by {
            reveal_with_fuel(redex_of, 4);
            reveal_with_fuel(replace_of, 4);
        }
        assert(step_of(y1) is None) by {
            reveal_with_fuel(redex_of, 4);
        }
        lemma_chain(y0, seq![y1]);
    }
    lemma_bot_kills(c, Move { atom: 1, value: false });
}

/// ⊤ to move plays p ≔ ⊥: the board settles where ⊥ wins at once.
#[verifier::spinoff_prover]
#[verifier::rlimit(60)]
proof fn lemma_child_p_bot()
    ensures
        after_move(worked_example(), Move { atom: 0, value: false }) == and_(at(2), imp_(at(2), at(1))),
        solvable(and_(at(2), imp_(at(2), at(1)))),
        !(and_(at(2), imp_(at(2), at(1))) is Const),
        value_of(and_(at(2), imp_(at(2), at(1))), Side::Bot).0 == Side::Bot,
{
    let c = and_(at(2), imp_(at(2), at(1)));
    assert(worked_example().subst(0, false) == and_(and_(imp_(ff(), at(1)), or_(ff(), at(2))), imp_(at(2), at(1)))) by {
        reveal_with_fuel(F::subst, 4);
    }
    {
        let x0 = and_(and_(imp_(ff(), at(1)), or_(ff(), at(2))), imp_(at(2), at(1)));
        let x1 = and_(and_(tt(), or_(ff(), at(2))), imp_(at(2), at(1)));
        let x2 = and_(or_(ff(), at(2)), imp_(at(2), at(1)));
        let x3 = and_(at(2), imp_(at(2), at(1)));
        assert(step_of(x0) == Some(x1)) by {
            reveal_with_fuel(redex_of, 4);
            reveal_with_fuel(replace_of, 4);
        }
        assert(step_of(x1) == Some(x2)) by {
            reveal_with_fuel(redex_of, 4);
            reveal_with_fuel(replace_of, 4);
        }
        assert(step_of(x2) == Some(x3)) by {
            reveal_with_fuel(redex_of, 4);
            reveal_with_fuel(replace_of, 4);
        }
        assert(step_of(x3) is None) by {
            reveal_with_fuel(redex_of, 4);
        }
        lemma_chain(x0, seq![x1, x2, x3]);
    }
    assert(c.atoms_named() && c.size_of() <= 11 && c.occ_of() >= 1 && c.count_of(2) > 0) by {
        reveal_with_fuel(F::atoms_named, 4);
        reveal_with_fuel(F::size_of, 4);
        reveal_with_fuel(F::occ_of, 4);
        reveal_with_fuel(F::count_of, 4);
    }
    assert(c.subst(2, false) == and_(ff(), imp_(ff(), at(1)))) by {
        reveal_with_fuel(F::subst, 4);
    }
    {
        let y0 = and_(ff(), imp_(ff(), at(1)));
        let y1 = ff();
        assert(step_of(y0) == Some(y1)) by {
            reveal_with_fuel(redex_of, 4);
            reveal_with_fuel(replace_of, 4);
        }
        assert(step_of(y1) is None) by {
            reveal_with_fuel(redex_of, 4);
        }
        lemma_chain(y0, seq![y1]);
    }
    lemma_bot_kills(c, Move { atom: 2, value: false });
}

#[verifier::spinoff_prover]
proof fn lemma_q_bot_settles()
    ensures
        cascade_of(and_(and_(imp_(at(0), ff()), or_(at(0), at(2))), imp_(at(2), ff()))) == and_(and_(not_(at(0)), or_(at(0), at(2))), not_(at(2))),
{
    {
        let x0 = and_(and_(imp_(at(0), ff()), or_(at(0), at(2))), imp_(at(2), ff()));
        let x1 = and_(and_(not_(at(0)), or_(at(0), at(2))), imp_(at(2), ff()));
        let x2 = and_(and_(not_(at(0)), or_(at(0), at(2))), not_(at(2)));
        assert(step_of(x0) == Some(x1)) by {
            reveal_with_fuel(redex_of, 4);
            reveal_with_fuel(replace_of, 4);
        }
        assert(step_of(x1) == Some(x2)) by {
            reveal_with_fuel(redex_of, 4);
            reveal_with_fuel(replace_of, 4);
        }
        assert(step_of(x2) is None) by {
            reveal_with_fuel(redex_of, 4);
        }
        lemma_chain(x0, seq![x1, x2]);
    }
}

#[verifier::spinoff_prover]
proof fn lemma_q_bot_falls()
    ensures
        cascade_of(and_(and_(not_(tt()), or_(tt(), at(2))), not_(at(2)))) == ff(),
{
    {
        let y0 = and_(and_(not_(tt()), or_(tt(), at(2))), not_(at(2)));
        let y1 = and_(and_(ff(), or_(tt(), at(2))), not_(at(2)));
        let y2 = and_(ff(), not_(at(2)));
        let y3 = ff();
        assert(step_of(y0) == Some(y1)) by {
            reveal_with_fuel(redex_of, 4);
            reveal_with_fuel(replace_of, 4);
        }
        assert(step_of(y1) == Some(y2)) by {
            reveal_with_fuel(redex_of, 4);
            reveal_with_fuel(replace_of, 4);
        }
        assert(step_of(y2) == Some(y3)) by {
            reveal_with_fuel(redex_of, 4);
            reveal_with_fuel(replace_of, 4);
        }
        assert(step_of(y3) is None) by {
            reveal_with_fuel(redex_of, 4);
        }
        lemma_chain(y0, seq![y1, y2, y3]);
    }
}

/// ⊤ to move plays q ≔ ⊥: the board settles where ⊥ wins at once.
#[verifier::spinoff_prover]
#[verifier::rlimit(60)]
proof fn lemma_child_q_bot()
    ensures
        after_move(worked_example(), Move { atom: 1, value: false }) == and_(and_(not_(at(0)), or_(at(0), at(2))), not_(at(2))),
        solvable(and_(and_(not_(at(0)), or_(at(0), at(2))), not_(at(2)))),
        !(and_(and_(not_(at(0)), or_(at(0), at(2))), not_(at(2))) is Const),
        value_of(and_(and_(not_(at(0)), or_(at(0), at(2))), not_(at(2))), Side::Bot).0 == Side::Bot,
{
    let c = and_(and_(not_(at(0)), or_(at(0), at(2))), not_(at(2)));
    assert(worked_example().subst(1, false) == and_(and_(imp_(at(0), ff()), or_(at(0), at(2))), imp_(at(2), ff()))) by {
        reveal_with_fuel(F::subst, 4);
    }
    lemma_q_bot_settles();
    assert(c.atoms_named() && c.size_of() <= 11 && c.occ_of() >= 1 && c.count_of(0) > 0) by {
        reveal_with_fuel(F::atoms_named, 4);
        reveal_with_fuel(F::size_of, 4);
        reveal_with_fuel(F::occ_of, 4);
        reveal_with_fuel(F::count_of, 4);
    }
    assert(c.subst(0, true) == and_(and_(not_(tt()), or_(tt(), at(2))), not_(at(2)))) by {
        reveal_with_fuel(F::subst, 4);
    }
    lemma_q_bot_falls();
    lemma_bot_kills(c, Move { atom: 0, value: true });
}

/// ⊤ to move plays r ≔ ⊤: the board settles where ⊥ wins at once.
#[verifier::spinoff_prover]
#[verifier::rlimit(60)]
proof fn lemma_child_r_top()
    ensures
        after_move(worked_example(), Move { atom: 2, value: true }) == and_(imp_(at(0), at(1)), at(1)),
        solvable(and_(imp_(at(0), at(1)), at(1))),
        !(and_(imp_(at(0), at(1)), at(1)) is Const),
        value_of(and_(imp_(at(0), at(1)), at(1)), Side::Bot).0 == Side::Bot,
{
    let c = and_(imp_(at(0), at(1)), at(1));
    assert(worked_example().subst(2, true) == and_(and_(imp_(at(0), at(1)), or_(at(0), tt())), imp_(tt(), at(1)))) by {
        reveal_with_fuel(F::subst, 4);
    }
    {
        let x0 = and_(and_(imp_(at(0), at(1)), or_(at(0), tt())), imp_(tt(), at(1)));
        let x1 = and_(and_(imp_(at(0), at(1)), tt()), imp_(tt(), at(1)));
        let x2 = and_(imp_(at(0), at(1)), imp_(tt(), at(1)));
        let x3 = and_(imp_(at(0), at(1)), at(1));
        assert(step_of(x0) == Some(x1)) by {
            reveal_with_fuel(redex_of, 4);
            reveal_with_fuel(replace_of, 4);
        }
        assert(step_of(x1) == Some(x2)) by {
            reveal_with_fuel(redex_of, 4);
            reveal_with_fuel(replace_of, 4);
        }
        assert(step_of(x2) == Some(x3)) by {
            reveal_with_fuel(redex_of, 4);
            reveal_with_fuel(replace_of, 4);
        }
        assert(step_of(x3) is None) by {
            reveal_with_fuel(redex_of, 4);
        }
        lemma_chain(x0, seq![x1, x2, x3]);
    }
    assert(c.atoms_named() && c.size_of() <= 11 && c.occ_of() >= 1 && c.count_of(1) > 0) by {
        reveal_with_fuel(F::atoms_named, 4);
        reveal_with_fuel(F::size_of, 4);
        reveal_with_fuel(F::occ_of, 4);
        reveal_with_fuel(F::count_of, 4);
    }
    assert(c.subst(1, false) == and_(imp_(at(0), ff()), ff())) by {
        reveal_with_fuel(F::subst, 4);
    }
    {
        let y0 = and_(imp_(at(0), ff()), ff());
        let y1 = ff();
        assert(step_of(y0) == Some(y1)) by {
            reveal_with_fuel(redex_of, 4);
            reveal_with_fuel(replace_of, 4);
        }
        assert(step_of(y1) is None) by {
            reveal_with_fuel(redex_of, 4);
        }
        lemma_chain(y0, seq![y1]);
    }
    lemma_bot_kills(c, Move { atom: 1, value: false });
}

/// ⊤ to move plays r ≔ ⊥: the board settles where ⊥ wins at once.
#[verifier::spinoff_prover]
#[verifier::rlimit(60)]
proof fn lemma_child_r_bot()
    ensures
        after_move(worked_example(), Move { atom: 2, value: false }) == and_(imp_(at(0), at(1)), at(0)),
        solvable(and_(imp_(at(0), at(1)), at(0))),
        !(and_(imp_(at(0), at(1)), at(0)) is Const),
        value_of(and_(imp_(at(0), at(1)), at(0)), Side::Bot).0 == Side::Bot,
{
    let c = and_(imp_(at(0), at(1)), at(0));
    assert(worked_example().subst(2, false) == and_(and_(imp_(at(0), at(1)), or_(at(0), ff())), imp_(ff(), at(1)))) by {
        reveal_with_fuel(F::subst, 4);
    }
    {
        let x0 = and_(and_(imp_(at(0), at(1)), or_(at(0), ff())), imp_(ff(), at(1)));
        let x1 = and_(and_(imp_(at(0), at(1)), at(0)), imp_(ff(), at(1)));
        let x2 = and_(and_(imp_(at(0), at(1)), at(0)), tt());
        let x3 = and_(imp_(at(0), at(1)), at(0));
        assert(step_of(x0) == Some(x1)) by {
            reveal_with_fuel(redex_of, 4);
            reveal_with_fuel(replace_of, 4);
        }
        assert(step_of(x1) == Some(x2)) by {
            reveal_with_fuel(redex_of, 4);
            reveal_with_fuel(replace_of, 4);
        }
        assert(step_of(x2) == Some(x3)) by {
            reveal_with_fuel(redex_of, 4);
            reveal_with_fuel(replace_of, 4);
        }
        assert(step_of(x3) is None) by {
            reveal_with_fuel(redex_of, 4);
        }
        lemma_chain(x0, seq![x1, x2, x3]);
    }
    assert(c.atoms_named() && c.size_of() <= 11 && c.occ_of() >= 1 && c.count_of(0) > 0) by {
        reveal_with_fuel(F::atoms_named, 4);
        reveal_with_fuel(F::size_of, 4);
        reveal_with_fuel(F::occ_of, 4);
        reveal_with_fuel(F::count_of, 4);
    }
    assert(c.subst(0, false) == and_(imp_(ff(), at(1)), ff())) by {
        reveal_with_fuel(F::subst, 4);
    }
    {
        let y0 = and_(imp_(ff(), at(1)), ff());
        let y1 = ff();
        assert(step_of(y0) == Some(y1)) by {
            reveal_with_fuel(redex_of, 4);
            reveal_with_fuel(replace_of, 4);
        }
        assert(step_of(y1) is None) by {
            reveal_with_fuel(redex_of, 4);
        }
        lemma_chain(y0, seq![y1]);
    }
    lemma_bot_kills(c, Move { atom: 0, value: false });
}



spec fn worked_moves() -> Seq<Move> {
    seq![
        Move { atom: 0, value: true },
        Move { atom: 0, value: false },
        Move { atom: 1, value: true },
        Move { atom: 1, value: false },
        Move { atom: 2, value: true },
        Move { atom: 2, value: false },
    ]
}

#[verifier::spinoff_prover]
proof fn lemma_worked_moves()
    ensures
        solvable(worked_example()),
        !(worked_example() is Const),
        moves_of(worked_example()) == worked_moves(),
{
    let w = worked_example();
    assert(w == and_(and_(imp_(at(0), at(1)), or_(at(0), at(2))), imp_(at(2), at(1))));
    assert(w.atoms_named() && w.size_of() == 11 && w.occ_of() == 6) by {
        reveal_with_fuel(F::atoms_named, 4);
        reveal_with_fuel(F::size_of, 4);
        reveal_with_fuel(F::occ_of, 4);
    }
    assert(w.atoms_of() =~= seq![0u8, 1u8, 2u8]) by {
        reveal_with_fuel(crate::formula::atoms_below, 9);
        reveal_with_fuel(F::count_of, 4);
    }
    assert(moves_of(w) =~= worked_moves());
}

/// After each of ⊤'s first moves, ⊥ to move: only q ≔ ⊤ leaves a board ⊤
/// still wins, two plies from its end.
#[verifier::spinoff_prover]
proof fn lemma_worked_children()
    ensures
        forall|i: int|
            0 <= i < 6 && i != 2 ==> #[trigger] value_of(
                after_move(worked_example(), worked_moves()[i]),
                Side::Bot,
            ).0 == Side::Bot,
        value_of(after_move(worked_example(), worked_moves()[2]), Side::Bot) == (Side::Top, 2nat),
{
    lemma_child_p_top();
    lemma_child_p_bot();
    lemma_child_q_top();
    lemma_child_q_bot();
    lemma_child_r_top();
    lemma_child_r_bot();
    lemma_fork_value();
}

/// The worked example is sound: ⊤ to move wins in two assignments, three
/// plies in all, and q ≔ ⊤ is its only winning first move.
#[verifier::spinoff_prover]
pub proof fn lemma_worked_example_sound()
    ensures
        crate::puzzles::sound_of(worked_example(), Side::Top, 2),
{
    let w = worked_example();
    let s = Side::Top;
    lemma_worked_moves();
    lemma_worked_children();
    let ms = moves_of(w);
    assert(s.other_of() == Side::Bot);
    assert(value_of(after_move(w, ms[0]), s.other_of()).0 == Side::Bot);
    assert(value_of(after_move(w, ms[1]), s.other_of()).0 == Side::Bot);
    assert(value_of(after_move(w, ms[2]), s.other_of()) == (Side::Top, 2nat));
    assert(value_of(after_move(w, ms[3]), s.other_of()).0 == Side::Bot);
    assert(value_of(after_move(w, ms[4]), s.other_of()).0 == Side::Bot);
    assert(value_of(after_move(w, ms[5]), s.other_of()).0 == Side::Bot);
    crate::solve::lemma_value_winner(w, s);
    crate::solve::lemma_value_plies_recursion(w, s);
    assert(value_of(w, s).0 == s);
    let j = choose|j: int|
        0 <= j < ms.len() && {
            let c = #[trigger] value_of(after_move(w, moves_of(w)[j]), s.other_of());
            value_of(w, s) == (c.0, c.1 + 1)
        };
    assert(j == 2);
    assert(value_of(w, s) == (Side::Top, 3nat));
    assert(crate::solve::winning_moves_of(w, s, 6).len() == 1) by {
        reveal_with_fuel(crate::solve::winning_moves_of, 7);
    }
}

} // verus!
