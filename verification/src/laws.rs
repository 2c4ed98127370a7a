//! The rewrite laws — the only physics the board obeys.
//!
//! After each assignment the board rewrites itself one law at a time. The
//! scheduler is deterministic: scan the tree in pre-order (outermost first,
//! left before right) and fire the first law that matches. Every law strictly
//! shrinks the tree, so the cascade always terminates; a formula with no
//! atoms always ends as a lone constant.

use crate::formula::{Atom, Op, Path, F};
use vstd::prelude::*;

verus! {

#[derive(Clone, Copy, Debug, PartialEq, Eq, Structural)]
pub enum Law {
    TopAnd,  // ⊤ ∧ x = x
    AndTop,  // x ∧ ⊤ = x
    BotAnd,  // ⊥ ∧ x = ⊥
    AndBot,  // x ∧ ⊥ = ⊥
    TopOr,  // ⊤ ∨ x = ⊤
    OrTop,  // x ∨ ⊤ = ⊤
    BotOr,  // ⊥ ∨ x = x
    OrBot,  // x ∨ ⊥ = x
    TopImp,  // ⊤ ⇒ x = x
    BotImp,  // ⊥ ⇒ x = ⊤
    ImpTop,  // x ⇒ ⊤ = ⊤
    ImpBot,  // x ⇒ ⊥ = ¬x
    TopEq,  // (⊤ = x) = x
    EqTop,  // (x = ⊤) = x
    BotEq,  // (⊥ = x) = ¬x
    EqBot,  // (x = ⊥) = ¬x
    NotTop,  // ¬⊤ = ⊥
    NotBot,  // ¬⊥ = ⊤
    NotNot,  // ¬¬x = x
}

impl Law {
    pub open spec fn equation_of(self) -> Seq<char> {
        match self {
            Law::TopAnd => "⊤ ∧ x  =  x"@,
            Law::AndTop => "x ∧ ⊤  =  x"@,
            Law::BotAnd => "⊥ ∧ x  =  ⊥"@,
            Law::AndBot => "x ∧ ⊥  =  ⊥"@,
            Law::TopOr => "⊤ ∨ x  =  ⊤"@,
            Law::OrTop => "x ∨ ⊤  =  ⊤"@,
            Law::BotOr => "⊥ ∨ x  =  x"@,
            Law::OrBot => "x ∨ ⊥  =  x"@,
            Law::TopImp => "⊤ ⇒ x  =  x"@,
            Law::BotImp => "⊥ ⇒ x  =  ⊤"@,
            Law::ImpTop => "x ⇒ ⊤  =  ⊤"@,
            Law::ImpBot => "x ⇒ ⊥  =  ¬x"@,
            Law::TopEq => "(⊤ = x)  =  x"@,
            Law::EqTop => "(x = ⊤)  =  x"@,
            Law::BotEq => "(⊥ = x)  =  ¬x"@,
            Law::EqBot => "(x = ⊥)  =  ¬x"@,
            Law::NotTop => "¬⊤  =  ⊥"@,
            Law::NotBot => "¬⊥  =  ⊤"@,
            Law::NotNot => "¬¬x  =  x"@,
        }
    }

    /// The equation, exactly as the toast displays it.
    pub fn equation(self) -> (s: &'static str)
        ensures
            s@ == self.equation_of(),
    {
        match self {
            Law::TopAnd => "⊤ ∧ x  =  x",
            Law::AndTop => "x ∧ ⊤  =  x",
            Law::BotAnd => "⊥ ∧ x  =  ⊥",
            Law::AndBot => "x ∧ ⊥  =  ⊥",
            Law::TopOr => "⊤ ∨ x  =  ⊤",
            Law::OrTop => "x ∨ ⊤  =  ⊤",
            Law::BotOr => "⊥ ∨ x  =  x",
            Law::OrBot => "x ∨ ⊥  =  x",
            Law::TopImp => "⊤ ⇒ x  =  x",
            Law::BotImp => "⊥ ⇒ x  =  ⊤",
            Law::ImpTop => "x ⇒ ⊤  =  ⊤",
            Law::ImpBot => "x ⇒ ⊥  =  ¬x",
            Law::TopEq => "(⊤ = x)  =  x",
            Law::EqTop => "(x = ⊤)  =  x",
            Law::BotEq => "(⊥ = x)  =  ¬x",
            Law::EqBot => "(x = ⊥)  =  ¬x",
            Law::NotTop => "¬⊤  =  ⊥",
            Law::NotBot => "¬⊥  =  ⊤",
            Law::NotNot => "¬¬x  =  x",
        }
    }
}

pub open spec fn not_of(f: F) -> F {
    F::Not(Box::new(f))
}

/// The law that fires at this single node, with its right-hand side.
/// Constant-on-the-left laws take priority, matching reading order.
pub open spec fn rewrite_of(f: F) -> Option<(Law, F)> {
    match f {
        F::Not(x) => match *x {
            F::Const(true) => Some((Law::NotTop, F::Const(false))),
            F::Const(false) => Some((Law::NotBot, F::Const(true))),
            F::Not(y) => Some((Law::NotNot, *y)),
            _ => None,
        },
        F::Bin(op, l, r) => {
            let lc = l.const_of();
            let rc = r.const_of();
            match op {
                Op::And => if lc == Some(true) {
                    Some((Law::TopAnd, *r))
                } else if lc == Some(false) {
                    Some((Law::BotAnd, F::Const(false)))
                } else if rc == Some(true) {
                    Some((Law::AndTop, *l))
                } else if rc == Some(false) {
                    Some((Law::AndBot, F::Const(false)))
                } else {
                    None
                },
                Op::Or => if lc == Some(true) {
                    Some((Law::TopOr, F::Const(true)))
                } else if lc == Some(false) {
                    Some((Law::BotOr, *r))
                } else if rc == Some(true) {
                    Some((Law::OrTop, F::Const(true)))
                } else if rc == Some(false) {
                    Some((Law::OrBot, *l))
                } else {
                    None
                },
                Op::Imp => if lc == Some(true) {
                    Some((Law::TopImp, *r))
                } else if lc == Some(false) {
                    Some((Law::BotImp, F::Const(true)))
                } else if rc == Some(true) {
                    Some((Law::ImpTop, F::Const(true)))
                } else if rc == Some(false) {
                    Some((Law::ImpBot, not_of(*l)))
                } else {
                    None
                },
                Op::Eq => if lc == Some(true) {
                    Some((Law::TopEq, *r))
                } else if lc == Some(false) {
                    Some((Law::BotEq, not_of(*r)))
                } else if rc == Some(true) {
                    Some((Law::EqTop, *l))
                } else if rc == Some(false) {
                    Some((Law::EqBot, not_of(*l)))
                } else {
                    None
                },
            }
        },
        _ => None,
    }
}

/// The first redex in pre-order (outermost first, left before right): its
/// path, the law, and the replacement.
pub open spec fn redex_of(f: F) -> Option<(Seq<u8>, Law, F)>
    decreases f,
{
    match rewrite_of(f) {
        Some((law, repl)) => Some((Seq::empty(), law, repl)),
        None => match f {
            F::Not(x) => match redex_of(*x) {
                Some((p, law, repl)) => Some((seq![0u8] + p, law, repl)),
                None => None,
            },
            F::Bin(_, l, r) => match redex_of(*l) {
                Some((p, law, repl)) => Some((seq![0u8] + p, law, repl)),
                None => match redex_of(*r) {
                    Some((p, law, repl)) => Some((seq![1u8] + p, law, repl)),
                    None => None,
                },
            },
            _ => None,
        },
    }
}

/// `f` with the subtree at `path` replaced by `repl`.
pub open spec fn replace_of(f: F, path: Seq<u8>, repl: F) -> F
    decreases path.len(),
{
    if path.len() == 0 {
        repl
    } else {
        match f {
            F::Not(x) => F::Not(Box::new(replace_of(*x, path.drop_first(), repl))),
            F::Bin(op, l, r) => if path[0] == 0 {
                F::Bin(op, Box::new(replace_of(*l, path.drop_first(), repl)), r)
            } else {
                F::Bin(op, l, Box::new(replace_of(*r, path.drop_first(), repl)))
            },
            _ => f,
        }
    }
}

/// A calm board: no law fires anywhere.
pub open spec fn calm(f: F) -> bool {
    redex_of(f) is None
}

/// The board after one rewrite step, if any law fires.
pub open spec fn step_of(f: F) -> Option<F> {
    match redex_of(f) {
        Some((p, law, repl)) => Some(replace_of(f, p, repl)),
        None => None,
    }
}

/// One rewrite step: the law that fired, where, and the whole-board result.
#[derive(Debug)]
pub struct Step {
    pub law: Law,
    /// Path of the redex in the formula before this step.
    pub path: Path,
    /// The whole formula after this step.
    pub after: F,
}

impl Clone for Step {
    fn clone(&self) -> (r: Step)
        ensures
            r@ == self@,
    {
        Step { law: self.law, path: self.path.clone(), after: self.after.duplicate() }
    }
}

pub struct StepSpec {
    pub law: Law,
    pub path: Seq<u8>,
    pub after: F,
}

impl View for Step {
    type V = StepSpec;

    open spec fn view(&self) -> StepSpec {
        StepSpec { law: self.law, path: self.path@, after: self.after }
    }
}

pub open spec fn step_views(v: Seq<Step>) -> Seq<StepSpec> {
    v.map_values(|s: Step| s@)
}

// ------------------------------------------------------------------ lemmas --

proof fn lemma_rewrite_not(x: F, env: u8)
    requires
        rewrite_of(not_of(x)) is Some,
    ensures
        rewrite_of(not_of(x)).unwrap().1.size_of() < not_of(x).size_of(),
        forall|a: Atom| #[trigger]
            rewrite_of(not_of(x)).unwrap().1.count_of(a) <= not_of(x).count_of(a),
        rewrite_of(not_of(x)).unwrap().1.occ_of() <= not_of(x).occ_of(),
        rewrite_of(not_of(x)).unwrap().1.eval_of(env) == not_of(x).eval_of(env),
        not_of(x).atoms_named() ==> rewrite_of(not_of(x)).unwrap().1.atoms_named(),
{
    match x {
        F::Not(y) => {
            assert(rewrite_of(not_of(x)) == Some((Law::NotNot, *y)));
            assert(x.size_of() == 1 + y.size_of());
            assert(x.eval_of(env) == !y.eval_of(env));
            assert(not_of(x).eval_of(env) == !x.eval_of(env));
            assert(x.occ_of() == y.occ_of());
            assert(x.atoms_named() == y.atoms_named());
            assert(not_of(x).atoms_named() == x.atoms_named());
            assert forall|a: Atom| #[trigger] y.count_of(a) <= not_of(x).count_of(a) by {
                assert(x.count_of(a) == y.count_of(a));
            }
            let g = rewrite_of(not_of(x)).unwrap().1;
            assert(g == *y);
            assert(g.size_of() < not_of(x).size_of());
            assert(g.occ_of() <= not_of(x).occ_of());
            assert(g.eval_of(env) == not_of(x).eval_of(env));
        },
        F::Const(b) => {
            assert(rewrite_of(not_of(x)) == Some(
                (if b { Law::NotTop } else { Law::NotBot }, F::Const(!b)),
            ));
            assert(x.eval_of(env) == b);
            assert(x.size_of() == 1);
        },
        F::Atom(_) => {
            assert(rewrite_of(not_of(x)) is None);
        },
        F::Bin(_, _, _) => {
            assert(rewrite_of(not_of(x)) is None);
        },
    }
}

proof fn lemma_rewrite_bin(op: Op, l: F, r: F, env: u8)
    requires
        rewrite_of(F::Bin(op, Box::new(l), Box::new(r))) is Some,
    ensures
        ({
            let f = F::Bin(op, Box::new(l), Box::new(r));
            let g = rewrite_of(f).unwrap().1;
            &&& g.size_of() < f.size_of()
            &&& forall|a: Atom| #[trigger] g.count_of(a) <= f.count_of(a)
            &&& g.occ_of() <= f.occ_of()
            &&& g.eval_of(env) == f.eval_of(env)
            &&& (f.atoms_named() ==> g.atoms_named())
        }),
{
    let f = F::Bin(op, Box::new(l), Box::new(r));
    assert(f.size_of() == 1 + l.size_of() + r.size_of());
    assert(f.eval_of(env) == op.apply(l.eval_of(env), r.eval_of(env)));
    crate::formula::lemma_counts_bounded(l, 0);
    crate::formula::lemma_counts_bounded(r, 0);
    let g = rewrite_of(f).unwrap().1;
    assert(g == l || g == r || g is Const || g == not_of(l) || g == not_of(r));
    assert(not_of(l).eval_of(env) == !l.eval_of(env));
    assert(not_of(r).eval_of(env) == !r.eval_of(env));
}

/// Every law's right-hand side is strictly smaller than its redex, has no
/// more occurrences of any atom, and has the same truth value.
pub proof fn lemma_rewrite_sound(f: F, env: u8)
    requires
        rewrite_of(f) is Some,
    ensures
        rewrite_of(f).unwrap().1.size_of() < f.size_of(),
        forall|a: Atom| #[trigger] rewrite_of(f).unwrap().1.count_of(a) <= f.count_of(a),
        rewrite_of(f).unwrap().1.occ_of() <= f.occ_of(),
        rewrite_of(f).unwrap().1.eval_of(env) == f.eval_of(env),
        f.atoms_named() ==> rewrite_of(f).unwrap().1.atoms_named(),
{
    match f {
        F::Not(x) => {
            assert(f == not_of(*x));
            lemma_rewrite_not(*x, env);
        },
        F::Bin(op, l, r) => {
            lemma_rewrite_bin(op, *l, *r, env);
        },
        _ => {},
    }
}

/// The first redex is a real subtree on which its law fires.
pub proof fn lemma_redex_at(f: F)
    requires
        redex_of(f) is Some,
    ensures
        f.at_path(redex_of(f).unwrap().0) is Some,
        rewrite_of(f.at_path(redex_of(f).unwrap().0).unwrap()) == Some(
            (redex_of(f).unwrap().1, redex_of(f).unwrap().2),
        ),
    decreases f,
{
    if rewrite_of(f) is None {
        match f {
            F::Not(x) => {
                lemma_redex_at(*x);
                let p = redex_of(*x).unwrap().0;
                assert((seq![0u8] + p).drop_first() =~= p);
            },
            F::Bin(_, l, r) => {
                if redex_of(*l) is Some {
                    lemma_redex_at(*l);
                    let p = redex_of(*l).unwrap().0;
                    assert((seq![0u8] + p).drop_first() =~= p);
                } else {
                    lemma_redex_at(*r);
                    let p = redex_of(*r).unwrap().0;
                    assert((seq![1u8] + p).drop_first() =~= p);
                }
            },
            _ => {},
        }
    }
}

/// Replacing a subtree by a smaller, equivalent one with no more atom
/// occurrences does the same to the whole board.
pub proof fn lemma_replace(f: F, path: Seq<u8>, repl: F, env: u8)
    requires
        f.at_path(path) is Some,
    ensures
        ({
            let sub = f.at_path(path).unwrap();
            let g = replace_of(f, path, repl);
            &&& g.size_of() + sub.size_of() == f.size_of() + repl.size_of()
            &&& (forall|a: Atom|
                #[trigger] repl.count_of(a) <= sub.count_of(a) ==> g.count_of(a) <= f.count_of(a))
            &&& (repl.occ_of() <= sub.occ_of() ==> g.occ_of() <= f.occ_of())
            &&& (repl.eval_of(env) == sub.eval_of(env) ==> g.eval_of(env) == f.eval_of(env))
            &&& (f.atoms_named() && repl.atoms_named() ==> g.atoms_named())
        }),
    decreases path.len(),
{
    if path.len() > 0 {
        match f {
            F::Not(x) => {
                lemma_replace(*x, path.drop_first(), repl, env);
            },
            F::Bin(op, l, r) => {
                if path[0] == 0 {
                    lemma_replace(*l, path.drop_first(), repl, env);
                } else {
                    lemma_replace(*r, path.drop_first(), repl, env);
                }
            },
            _ => {},
        }
    }
}

/// One rewrite step strictly shrinks the board, never adds an occurrence of
/// any atom, and keeps its truth value under every assignment.
pub proof fn lemma_step_sound(f: F, env: u8)
    requires
        step_of(f) is Some,
    ensures
        step_of(f).unwrap().size_of() < f.size_of(),
        forall|a: Atom| #[trigger] step_of(f).unwrap().count_of(a) <= f.count_of(a),
        step_of(f).unwrap().occ_of() <= f.occ_of(),
        step_of(f).unwrap().eval_of(env) == f.eval_of(env),
        f.atoms_named() ==> step_of(f).unwrap().atoms_named(),
{
    let (p, law, repl) = redex_of(f).unwrap();
    lemma_redex_at(f);
    let sub = f.at_path(p).unwrap();
    lemma_rewrite_sound(sub, env);
    lemma_replace(f, p, repl, env);
    assert forall|a: Atom| #[trigger] step_of(f).unwrap().count_of(a) <= f.count_of(a) by {
        assert(repl.count_of(a) <= sub.count_of(a));
    }
    if f.atoms_named() {
        lemma_at_named(f, p);
    }
}

/// Subtrees of a board with named atoms have named atoms.
pub proof fn lemma_at_named(f: F, path: Seq<u8>)
    requires
        f.atoms_named(),
        f.at_path(path) is Some,
    ensures
        f.at_path(path).unwrap().atoms_named(),
    decreases path.len(),
{
    if path.len() > 0 {
        match f {
            F::Not(x) => lemma_at_named(*x, path.drop_first()),
            F::Bin(_, l, r) => if path[0] == 0 {
                lemma_at_named(*l, path.drop_first())
            } else {
                lemma_at_named(*r, path.drop_first())
            },
            _ => {},
        }
    }
}

/// The board after the cascade has run to quiescence.
pub open spec fn cascade_of(f: F) -> F
    decreases f.size_of(),
{
    match step_of(f) {
        Some(g) => {
            proof {
                lemma_step_sound(f, 0);
            }
            cascade_of(g)
        },
        None => f,
    }
}

/// Every step of the cascade, in order.
pub open spec fn trace_of(f: F) -> Seq<StepSpec>
    decreases f.size_of(),
{
    match redex_of(f) {
        Some((p, law, repl)) => {
            proof {
                lemma_step_sound(f, 0);
            }
            let g = replace_of(f, p, repl);
            seq![StepSpec { law, path: p, after: g }] + trace_of(g)
        },
        None => Seq::empty(),
    }
}

/// No constant anywhere in the tree.
pub open spec fn const_free(f: F) -> bool
    decreases f,
{
    match f {
        F::Const(_) => false,
        F::Atom(_) => true,
        F::Not(x) => const_free(*x),
        F::Bin(_, l, r) => const_free(*l) && const_free(*r),
    }
}

/// A calm board is a lone constant, or has no constant left in it at all.
pub proof fn lemma_calm_shape(f: F)
    requires
        calm(f),
    ensures
        f is Const || const_free(f),
    decreases f,
{
    match f {
        F::Not(x) => {
            lemma_calm_shape(*x);
        },
        F::Bin(op, l, r) => {
            lemma_calm_shape(*l);
            lemma_calm_shape(*r);
        },
        _ => {},
    }
}

/// A board with no constants has at least one atom occurrence.
pub proof fn lemma_const_free_occ(f: F)
    requires
        const_free(f),
    ensures
        f.occ_of() >= 1,
    decreases f,
{
    match f {
        F::Not(x) => lemma_const_free_occ(*x),
        F::Bin(_, l, r) => {
            lemma_const_free_occ(*l);
        },
        _ => {},
    }
}

/// The cascade ends calm; it never adds an occurrence of any atom; it keeps
/// the truth value under every assignment (the rewriting is equational).
pub proof fn lemma_cascade_sound(f: F, env: u8)
    ensures
        calm(cascade_of(f)),
        forall|a: Atom| #[trigger] cascade_of(f).count_of(a) <= f.count_of(a),
        cascade_of(f).occ_of() <= f.occ_of(),
        cascade_of(f).size_of() <= f.size_of(),
        cascade_of(f).eval_of(env) == f.eval_of(env),
        f.atoms_named() ==> cascade_of(f).atoms_named(),
    decreases f.size_of(),
{
    match step_of(f) {
        Some(g) => {
            lemma_step_sound(f, env);
            lemma_cascade_sound(g, env);
            assert forall|a: Atom| #[trigger] cascade_of(f).count_of(a) <= f.count_of(a) by {
                assert(cascade_of(g).count_of(a) <= g.count_of(a));
                assert(g.count_of(a) <= f.count_of(a));
            }
        },
        None => {},
    }
}

/// A closed board (no atoms) always collapses to the constant it evaluates to.
pub proof fn lemma_closed_collapses(f: F, env: u8)
    requires
        f.occ_of() == 0,
    ensures
        cascade_of(f) == F::Const(f.eval_of(env)),
{
    lemma_cascade_sound(f, env);
    let g = cascade_of(f);
    lemma_calm_shape(g);
    if const_free(g) {
        lemma_const_free_occ(g);
    }
}

/// After the cascade the board is a lone constant, or still has an atom on it.
pub proof fn lemma_cascade_decided_or_open(f: F)
    ensures
        cascade_of(f) is Const || cascade_of(f).occ_of() >= 1,
{
    lemma_cascade_sound(f, 0);
    lemma_calm_shape(cascade_of(f));
    if !(cascade_of(f) is Const) {
        lemma_const_free_occ(cascade_of(f));
    }
}

/// Every board the cascade passes through keeps to the board's atom names.
pub proof fn lemma_trace_named(f: F)
    requires
        f.atoms_named(),
    ensures
        forall|j: int|
            0 <= j < trace_of(f).len() ==> (#[trigger] trace_of(f)[j]).after.atoms_named(),
    decreases f.size_of(),
{
    match redex_of(f) {
        Some((p, law, repl)) => {
            lemma_step_sound(f, 0);
            let g = replace_of(f, p, repl);
            lemma_trace_named(g);
            assert forall|j: int| 0 <= j < trace_of(f).len() implies (#[trigger] trace_of(
                f,
            )[j]).after.atoms_named() by {
                if j > 0 {
                    assert(trace_of(f)[j] == trace_of(g)[j - 1]);
                }
            }
        },
        None => {},
    }
}

// ------------------------------------------------------------- confluence --

/// `c op x`, rewritten by the law whose constant stands on the left.
pub open spec fn left_law(op: Op, c: bool, x: F) -> F {
    match op {
        Op::And => if c { x } else { F::Const(false) },
        Op::Or => if c { F::Const(true) } else { x },
        Op::Imp => if c { x } else { F::Const(true) },
        Op::Eq => if c { x } else { not_of(x) },
    }
}

/// `x op c`, rewritten by the mirror law whose constant stands on the right.
pub open spec fn right_law(op: Op, x: F, c: bool) -> F {
    match op {
        Op::And => if c { x } else { F::Const(false) },
        Op::Or => if c { F::Const(true) } else { x },
        Op::Imp => if c { F::Const(true) } else { not_of(x) },
        Op::Eq => if c { x } else { not_of(x) },
    }
}

/// `g` is `f` rewritten at its root by one of the laws that match there,
/// whichever one is chosen (a node with constants on both sides matches two).
pub open spec fn fires(f: F, g: F) -> bool {
    match f {
        F::Not(x) => match *x {
            F::Const(b) => g == F::Const(!b),
            F::Not(y) => g == *y,
            _ => false,
        },
        F::Bin(op, l, r) => {
            ||| (l.const_of() is Some && g == left_law(op, l.const_of().unwrap(), *r))
            ||| (r.const_of() is Some && g == right_law(op, *l, r.const_of().unwrap()))
        },
        _ => false,
    }
}

/// `g` is `f` after one law fired at some node of it: any law, anywhere,
/// in whatever order the laws are applied.
pub open spec fn rewrites(f: F, g: F) -> bool
    decreases f,
{
    ||| fires(f, g)
    ||| match f {
        F::Not(x) => match g {
            F::Not(y) => rewrites(*x, *y),
            _ => false,
        },
        F::Bin(op, l, r) => match g {
            F::Bin(op2, l2, r2) => op2 == op && ((*r2 == *r && rewrites(*l, *l2)) || (*l2 == *l
                && rewrites(*r, *r2))),
            _ => false,
        },
        _ => false,
    }
}

/// No law matches at any node.
pub open spec fn settled(f: F) -> bool
    decreases f,
{
    match f {
        F::Not(x) => !(*x is Const) && !(*x is Not) && settled(*x),
        F::Bin(_, l, r) => !(*l is Const) && !(*r is Const) && settled(*l) && settled(*r),
        _ => true,
    }
}

/// `¬x` on a settled `x`, settled again.
pub open spec fn settle_not(x: F) -> F {
    match x {
        F::Const(b) => F::Const(!b),
        F::Not(y) => *y,
        _ => not_of(x),
    }
}

/// `l op r` on settled operands, settled again.
pub open spec fn settle_bin(op: Op, l: F, r: F) -> F {
    match l {
        F::Const(c) => match left_law(op, c, r) {
            F::Not(y) => settle_not(*y),
            g => g,
        },
        _ => match r {
            F::Const(c) => match right_law(op, l, c) {
                F::Not(y) => settle_not(*y),
                g => g,
            },
            _ => F::Bin(op, Box::new(l), Box::new(r)),
        },
    }
}

/// The settled form of a board, computed bottom-up.
pub open spec fn settled_form(f: F) -> F
    decreases f,
{
    match f {
        F::Not(x) => settle_not(settled_form(*x)),
        F::Bin(op, l, r) => settle_bin(op, settled_form(*l), settled_form(*r)),
        _ => f,
    }
}

proof fn lemma_settled_form_settled(f: F)
    ensures
        settled(settled_form(f)),
    decreases f,
{
    match f {
        F::Not(x) => {
            lemma_settled_form_settled(*x);
            let n = settled_form(*x);
            if let F::Not(y) = n {
                assert(settled(*y));
            }
        },
        F::Bin(op, l, r) => {
            lemma_settled_form_settled(*l);
            lemma_settled_form_settled(*r);
            let a = settled_form(*l);
            let b = settled_form(*r);
            if let F::Not(y) = a {
                assert(settled(*y));
            }
            if let F::Not(y) = b {
                assert(settled(*y));
            }
        },
        _ => {},
    }
}

proof fn lemma_settled_fixed(f: F)
    requires
        settled(f),
    ensures
        settled_form(f) == f,
    decreases f,
{
    match f {
        F::Not(x) => {
            lemma_settled_fixed(*x);
        },
        F::Bin(op, l, r) => {
            lemma_settled_fixed(*l);
            lemma_settled_fixed(*r);
        },
        _ => {},
    }
}

proof fn lemma_settle_not_twice(n: F)
    requires
        settled(n),
    ensures
        settle_not(settle_not(n)) == n,
{
}

/// Rewriting at the root keeps the settled form, and shrinks the board.
proof fn lemma_fires_keeps(f: F, g: F)
    requires
        fires(f, g),
    ensures
        settled_form(g) == settled_form(f),
        g.size_of() < f.size_of(),
{
    match f {
        F::Not(x) => {
            assert(f.size_of() == 1 + x.size_of());
            match *x {
                F::Not(y) => {
                    lemma_settled_form_settled(*y);
                    lemma_settle_not_twice(settled_form(*y));
                    assert(settled_form(*x) == settle_not(settled_form(*y)));
                    assert(x.size_of() == 1 + y.size_of());
                },
                F::Const(b) => {
                    assert(settled_form(*x) == F::Const(b));
                    assert(x.size_of() == 1);
                },
                _ => {},
            }
        },
        F::Bin(op, l, r) => {
            lemma_settled_form_settled(*l);
            lemma_settled_form_settled(*r);
            let a = settled_form(*l);
            let b = settled_form(*r);
            assert(f.size_of() == 1 + l.size_of() + r.size_of());
            assert(not_of(*l).size_of() == 1 + l.size_of());
            assert(not_of(*r).size_of() == 1 + r.size_of());
            if l.const_of() is Some && g == left_law(op, l.const_of().unwrap(), *r) {
                assert(l.size_of() == 1);
                assert(settled_form(not_of(*r)) == settle_not(b));
            } else {
                assert(r.size_of() == 1);
                assert(settled_form(not_of(*l)) == settle_not(a));
                assert(r.const_of() is Some);
                if let F::Const(d) = a {
                    assert(settle_not(a) == F::Const(!d));
                }
            }
        },
        _ => {},
    }
}

/// Any single rewrite, anywhere, keeps the settled form and shrinks the board.
pub proof fn lemma_rewrite_keeps(f: F, g: F)
    requires
        rewrites(f, g),
    ensures
        settled_form(g) == settled_form(f),
        g.size_of() < f.size_of(),
    decreases f,
{
    if fires(f, g) {
        lemma_fires_keeps(f, g);
    } else {
        match f {
            F::Not(x) => match g {
                F::Not(y) => lemma_rewrite_keeps(*x, *y),
                _ => {},
            },
            F::Bin(op, l, r) => match g {
                F::Bin(op2, l2, r2) => {
                    if *r2 == *r && rewrites(*l, *l2) {
                        lemma_rewrite_keeps(*l, *l2);
                    } else {
                        lemma_rewrite_keeps(*r, *r2);
                    }
                },
                _ => {},
            },
            _ => {},
        }
    }
}

proof fn lemma_calm_settled(f: F)
    ensures
        calm(f) <==> settled(f),
    decreases f,
{
    match f {
        F::Not(x) => lemma_calm_settled(*x),
        F::Bin(_, l, r) => {
            lemma_calm_settled(*l);
            lemma_calm_settled(*r);
        },
        _ => {},
    }
}

proof fn lemma_rewrite_of_fires(f: F)
    requires
        rewrite_of(f) is Some,
    ensures
        fires(f, rewrite_of(f).unwrap().1),
{
}

/// The cascade's own step is one of the rewrites.
proof fn lemma_redex_rewrites(f: F)
    requires
        redex_of(f) is Some,
    ensures
        rewrites(f, replace_of(f, redex_of(f).unwrap().0, redex_of(f).unwrap().2)),
    decreases f,
{
    let (p, law, repl) = redex_of(f).unwrap();
    if rewrite_of(f) is Some {
        lemma_rewrite_of_fires(f);
    } else {
        match f {
            F::Not(x) => {
                lemma_redex_rewrites(*x);
                let (q, _, _) = redex_of(*x).unwrap();
                assert(p == seq![0u8] + q);
                assert(p.drop_first() =~= q);
            },
            F::Bin(op, l, r) => {
                if redex_of(*l) is Some {
                    lemma_redex_rewrites(*l);
                    let (q, _, _) = redex_of(*l).unwrap();
                    assert(p.drop_first() =~= q);
                } else {
                    lemma_redex_rewrites(*r);
                    let (q, _, _) = redex_of(*r).unwrap();
                    assert(p.drop_first() =~= q);
                }
            },
            _ => {},
        }
    }
}

/// A settled board admits no rewrite.
proof fn lemma_settled_stuck(f: F, g: F)
    requires
        settled(f),
    ensures
        !rewrites(f, g),
    decreases f,
{
    match f {
        F::Not(x) => match g {
            F::Not(y) => lemma_settled_stuck(*x, *y),
            _ => {},
        },
        F::Bin(_, l, r) => match g {
            F::Bin(_, l2, r2) => {
                lemma_settled_stuck(*l, *l2);
                lemma_settled_stuck(*r, *r2);
            },
            _ => {},
        },
        _ => {},
    }
}

/// A board is calm exactly when no law, in any order, can fire anywhere on it.
pub proof fn lemma_calm_iff_stuck(f: F)
    ensures
        calm(f) <==> forall|g: F| !#[trigger] rewrites(f, g),
{
    lemma_calm_settled(f);
    if calm(f) {
        assert forall|g: F| !#[trigger] rewrites(f, g) by {
            lemma_settled_stuck(f, g);
        }
    } else {
        lemma_redex_rewrites(f);
    }
}

/// The cascade ends on the settled form of the board.
pub proof fn lemma_cascade_settled_form(f: F)
    ensures
        cascade_of(f) == settled_form(f),
    decreases f.size_of(),
{
    match step_of(f) {
        Some(g) => {
            lemma_redex_rewrites(f);
            lemma_rewrite_keeps(f, g);
            lemma_cascade_settled_form(g);
        },
        None => {
            lemma_calm_settled(f);
            lemma_settled_fixed(f);
        },
    }
}

/// The result is confluent: whatever order the laws fire in, and whichever
/// law is chosen where two match, a run of rewrites that ends on a calm board
/// ends on the very board the cascade produces.
pub proof fn lemma_confluent(run: Seq<F>)
    requires
        run.len() >= 1,
        forall|i: int| 0 <= i < run.len() - 1 ==> rewrites(#[trigger] run[i], run[i + 1]),
        calm(run.last()),
    ensures
        run.last() == cascade_of(run[0]),
    decreases run.len(),
{
    if run.len() == 1 {
        lemma_calm_settled(run[0]);
        lemma_settled_fixed(run[0]);
        lemma_cascade_settled_form(run[0]);
    } else {
        let rest = run.drop_first();
        assert forall|i: int| 0 <= i < rest.len() - 1 implies rewrites(
            #[trigger] rest[i],
            rest[i + 1],
        ) by {
            assert(rest[i] == run[i + 1]);
            assert(rewrites(run[i + 1], run[i + 2]));
        }
        lemma_confluent(rest);
        assert(rewrites(run[0], run[1]));
        lemma_rewrite_keeps(run[0], run[1]);
        lemma_cascade_settled_form(run[0]);
        lemma_cascade_settled_form(run[1]);
    }
}

/// A cascade reads as a derivation: each board of its trace follows from the
/// board before it (the first from the board the cascade started on) by one
/// law, and the trace ends on the cascade's result.
pub proof fn lemma_trace_derivation(f: F)
    ensures
        forall|j: int|
            0 <= j < trace_of(f).len() ==> rewrites(
                if j == 0 {
                    f
                } else {
                    trace_of(f)[j - 1].after
                },
                #[trigger] trace_of(f)[j].after,
            ),
        trace_of(f).len() > 0 ==> trace_of(f).last().after == cascade_of(f),
    decreases f.size_of(),
{
    match redex_of(f) {
        Some((p, law, repl)) => {
            lemma_step_sound(f, 0);
            lemma_redex_rewrites(f);
            let g = replace_of(f, p, repl);
            lemma_trace_derivation(g);
            assert forall|j: int| 0 <= j < trace_of(f).len() implies rewrites(
                if j == 0 {
                    f
                } else {
                    trace_of(f)[j - 1].after
                },
                #[trigger] trace_of(f)[j].after,
            ) by {
                if j > 0 {
                    assert(trace_of(f)[j] == trace_of(g)[j - 1]);
                    if j > 1 {
                        assert(trace_of(f)[j - 1] == trace_of(g)[j - 2]);
                    }
                }
            }
            if trace_of(g).len() > 0 {
                assert(trace_of(f).last() == trace_of(g).last());
            }
        },
        None => {},
    }
}

// -------------------------------------------------------------------- exec --

/// Try every law at this single node.
fn match_node(f: &F) -> (r: Option<(Law, F)>)
    ensures
        r == rewrite_of(*f),
{
    match f {
        F::Not(x) => match &**x {
            F::Const(true) => Some((Law::NotTop, F::Const(false))),
            F::Const(false) => Some((Law::NotBot, F::Const(true))),
            F::Not(y) => Some((Law::NotNot, y.duplicate())),
            _ => None,
        },
        F::Bin(op, l, r) => {
            let lc = l.as_const();
            let rc = r.as_const();
            match op {
                Op::And => match (lc, rc) {
                    (Some(true), _) => Some((Law::TopAnd, r.duplicate())),
                    (Some(false), _) => Some((Law::BotAnd, F::Const(false))),
                    (_, Some(true)) => Some((Law::AndTop, l.duplicate())),
                    (_, Some(false)) => Some((Law::AndBot, F::Const(false))),
                    _ => None,
                },
                Op::Or => match (lc, rc) {
                    (Some(true), _) => Some((Law::TopOr, F::Const(true))),
                    (Some(false), _) => Some((Law::BotOr, r.duplicate())),
                    (_, Some(true)) => Some((Law::OrTop, F::Const(true))),
                    (_, Some(false)) => Some((Law::OrBot, l.duplicate())),
                    _ => None,
                },
                Op::Imp => match (lc, rc) {
                    (Some(true), _) => Some((Law::TopImp, r.duplicate())),
                    (Some(false), _) => Some((Law::BotImp, F::Const(true))),
                    (_, Some(true)) => Some((Law::ImpTop, F::Const(true))),
                    (_, Some(false)) => Some((Law::ImpBot, F::not(l.duplicate()))),
                    _ => None,
                },
                Op::Eq => match (lc, rc) {
                    (Some(true), _) => Some((Law::TopEq, r.duplicate())),
                    (Some(false), _) => Some((Law::BotEq, F::not(r.duplicate()))),
                    (_, Some(true)) => Some((Law::EqTop, l.duplicate())),
                    (_, Some(false)) => Some((Law::EqBot, F::not(l.duplicate()))),
                    _ => None,
                },
            }
        },
        _ => None,
    }
}

fn copy_path(p: &Vec<u8>) -> (r: Vec<u8>)
    ensures
        r@ == p@,
{
    let mut r: Vec<u8> = Vec::new();
    let mut i: usize = 0;
    while i < p.len()
        invariant
            i <= p.len(),
            r@ == p@.take(i as int),
        decreases p.len() - i,
    {
        r.push(p[i]);
        assert(r@ =~= p@.take(i + 1));
        i = i + 1;
    }
    assert(p@.take(i as int) =~= p@);
    r
}

/// Pre-order search for the first redex below the node at `path`.
fn find_redex(f: &F, path: &mut Path) -> (r: Option<(Path, Law, F)>)
    ensures
        final(path)@ == old(path)@,
        match (r, redex_of(*f)) {
            (Some((p, law, repl)), Some((q, law2, repl2))) => p@ == old(path)@ + q && law == law2
                && repl == repl2,
            (None, None) => true,
            _ => false,
        },
    decreases f,
{
    let ghost p0 = path@;
    if let Some((law, repl)) = match_node(f) {
        let p = copy_path(path);
        assert(p@ =~= p0 + Seq::<u8>::empty());
        return Some((p, law, repl));
    }
    match f {
        F::Not(x) => {
            path.push(0);
            let r = find_redex(x, path);
            path.pop();
            assert(path@ =~= p0);
            proof {
                if let Some((q, _, _)) = redex_of(**x) {
                    assert(p0.push(0) + q =~= p0 + (seq![0u8] + q));
                }
            }
            r
        },
        F::Bin(_, l, r) => {
            path.push(0);
            let hit = find_redex(l, path);
            path.pop();
            assert(path@ =~= p0);
            if hit.is_some() {
                proof {
                    if let Some((q, _, _)) = redex_of(**l) {
                        assert(p0.push(0) + q =~= p0 + (seq![0u8] + q));
                    }
                }
                return hit;
            }
            path.push(1);
            let hit = find_redex(r, path);
            path.pop();
            assert(path@ =~= p0);
            proof {
                if let Some((q, _, _)) = redex_of(**r) {
                    assert(p0.push(1) + q =~= p0 + (seq![1u8] + q));
                }
            }
            hit
        },
        _ => None,
    }
}

/// Fire the first matching law (pre-order). None = the board is calm.
pub fn step(f: &F) -> (r: Option<Step>)
    ensures
        match (r, redex_of(*f)) {
            (Some(s), Some((p, law, repl))) => s@ == StepSpec {
                law,
                path: p,
                after: replace_of(*f, p, repl),
            },
            (None, None) => true,
            _ => false,
        },
{
    let mut path: Path = Vec::new();
    let found = find_redex(f, &mut path);
    match found {
        None => None,
        Some((p, law, repl)) => {
            proof {
                assert(p@ =~= redex_of(*f).unwrap().0);
                lemma_redex_at(*f);
                assert(p@.skip(0) =~= p@);
            }
            let after = replace_at(f, &p, 0, repl);
            Some(Step { law, path: p, after })
        },
    }
}

/// `f` with the subtree at `path[i..]` replaced; the path must exist.
fn replace_at(f: &F, path: &Path, i: usize, repl: F) -> (g: F)
    requires
        i <= path@.len(),
        f.at_path(path@.skip(i as int)) is Some,
    ensures
        g == replace_of(*f, path@.skip(i as int), repl),
    decreases path@.len() - i,
{
    if i == path.len() {
        return repl;
    }
    assert(path@.skip(i as int).drop_first() =~= path@.skip(i + 1));
    match f {
        F::Not(x) => F::not(replace_at(x, path, i + 1, repl)),
        F::Bin(op, l, r) => {
            if path[i] == 0 {
                F::bin(*op, replace_at(l, path, i + 1, repl), r.duplicate())
            } else {
                F::bin(*op, l.duplicate(), replace_at(r, path, i + 1, repl))
            }
        },
        _ => {
            // `at_path` rules out a path through a leaf.
            repl
        },
    }
}

/// Run the cascade to quiescence, recording every step.
pub fn cascade(f: &F) -> (r: (F, Vec<Step>))
    ensures
        r.0 == cascade_of(*f),
        step_views(r.1@) == trace_of(*f),
{
    let mut cur = f.duplicate();
    let mut steps: Vec<Step> = Vec::new();
    loop
        invariant
            cascade_of(cur) == cascade_of(*f),
            step_views(steps@) + trace_of(cur) == trace_of(*f),
        ensures
            cur == cascade_of(*f),
            step_views(steps@) == trace_of(*f),
        decreases cur.size_of(),
    {
        match step(&cur) {
            Some(s) => {
                proof {
                    lemma_step_sound(cur, 0);
                    assert(step_views(steps@.push(s)) =~= step_views(steps@).push(s@));
                    assert(trace_of(cur) =~= seq![s@] + trace_of(s.after));
                    assert(step_views(steps@).push(s@) + trace_of(s.after) =~= step_views(steps@)
                        + trace_of(cur));
                }
                cur = s.after.duplicate();
                steps.push(s);
            },
            None => {
                assert(step_views(steps@) =~= step_views(steps@) + trace_of(cur));
                break ;
            },
        }
    }
    (cur, steps)
}


/// The board the `j`-th step of `f`'s cascade rewrites.
pub open spec fn step_board(f: F, j: int) -> F {
    if j == 0 {
        f
    } else {
        trace_of(f)[j - 1].after
    }
}

/// The `j`-th step of the cascade rewrites the first redex of the board
/// before it, by the law and at the path it records.
pub open spec fn step_faithful(f: F, j: int) -> bool {
    &&& redex_of(step_board(f, j)) matches Some(r) && r.0 == trace_of(f)[j].path && r.1
        == trace_of(f)[j].law
    &&& step_of(step_board(f, j)) == Some(trace_of(f)[j].after)
}

proof fn lemma_trace_chain(f: F)
    ensures
        forall|j: int| 0 <= j < trace_of(f).len() ==> #[trigger] step_faithful(f, j),
        cascade_of(f) == if trace_of(f).len() == 0 {
            f
        } else {
            trace_of(f).last().after
        },
        trace_of(f).len() < f.size_of(),
    decreases f.size_of(),
{
    match redex_of(f) {
        Some((p, law, repl)) => {
            lemma_step_sound(f, 0);
            let g = replace_of(f, p, repl);
            lemma_trace_chain(g);
            assert forall|j: int| 0 <= j < trace_of(f).len() implies #[trigger] step_faithful(
                f,
                j,
            ) by {
                if j > 0 {
                    assert(trace_of(f)[j] == trace_of(g)[j - 1]);
                    assert(step_faithful(g, j - 1));
                    if j > 1 {
                        assert(trace_of(f)[j - 1] == trace_of(g)[j - 2]);
                    }
                    assert(step_board(f, j) == step_board(g, j - 1));
                }
            }
            if trace_of(g).len() > 0 {
                assert(trace_of(f).last() == trace_of(g).last());
            }
        },
        None => {},
    }
}

/// The cascade, step by step: each step rewrites the first redex of the board
/// before it, by the law and at the path it records; the cascade ends on the
/// last step's board (the board itself when no law fires), where no law
/// fires; it takes fewer steps than the board has nodes; it keeps the truth
/// value under every valuation; and a board with no atoms ends as the
/// constant it evaluates to.
pub proof fn lemma_cascade_steps(f: F)
    ensures
        forall|env: u8| #[trigger] cascade_of(f).eval_of(env) == f.eval_of(env),
        step_of(cascade_of(f)) is None,
        trace_of(f).len() < f.size_of(),
        forall|j: int| 0 <= j < trace_of(f).len() ==> #[trigger] step_faithful(f, j),
        cascade_of(f) == if trace_of(f).len() == 0 {
            f
        } else {
            trace_of(f).last().after
        },
        f.occ_of() == 0 ==> cascade_of(f) == F::Const(f.eval_of(0)),
{
    assert forall|env: u8| #[trigger] cascade_of(f).eval_of(env) == f.eval_of(env) by {
        lemma_cascade_sound(f, env);
    }
    lemma_cascade_sound(f, 0);
    lemma_cascade_decided_or_open(f);
    lemma_trace_chain(f);
}

} // verus!
