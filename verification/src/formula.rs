//! The formula AST and its textual form.
//!
//! Everything on the board is one `F`. Rendering is fully deterministic and
//! returns tokens annotated with the AST path they came from, so a front end
//! can highlight a redex or every occurrence of an atom without re-parsing.

use vstd::prelude::*;

verus! {

/// Atom identifier; index into the fixed name table `pqrstuvw`.
pub type Atom = u8;

/// Number of distinct atoms a board can name.
pub const ATOM_COUNT: u8 = 8;

/// The display name of atom `a`.
pub open spec fn atom_char(a: u8) -> char {
    if a == 0 {
        'p'
    } else if a == 1 {
        'q'
    } else if a == 2 {
        'r'
    } else if a == 3 {
        's'
    } else if a == 4 {
        't'
    } else if a == 5 {
        'u'
    } else if a == 6 {
        'v'
    } else {
        'w'
    }
}

pub fn atom_name(a: Atom) -> (c: char)
    requires
        a < ATOM_COUNT,
    ensures
        c == atom_char(a),
{
    match a {
        0 => 'p',
        1 => 'q',
        2 => 'r',
        3 => 's',
        4 => 't',
        5 => 'u',
        6 => 'v',
        _ => 'w',
    }
}

#[derive(Clone, Copy, Debug, PartialEq, Eq, Hash, Structural)]
pub enum Op {
    And,
    Or,
    Imp,
    Eq,
}

impl Op {
    pub open spec fn glyph_of(self) -> char {
        match self {
            Op::And => '∧',
            Op::Or => '∨',
            Op::Imp => '⇒',
            Op::Eq => '=',
        }
    }

    /// The truth function of the connective.
    pub open spec fn apply(self, a: bool, b: bool) -> bool {
        match self {
            Op::And => a && b,
            Op::Or => a || b,
            Op::Imp => !a || b,
            Op::Eq => a == b,
        }
    }

    pub fn glyph(self) -> (c: char)
        ensures
            c == self.glyph_of(),
    {
        match self {
            Op::And => '∧',
            Op::Or => '∨',
            Op::Imp => '⇒',
            Op::Eq => '=',
        }
    }

    pub open spec fn chains_spec(self) -> bool {
        self == Op::And || self == Op::Or
    }

    /// Chains of the same operator render without parentheses.
    pub fn chains(self) -> (b: bool)
        ensures
            b == self.chains_spec(),
    {
        match self {
            Op::And => true,
            Op::Or => true,
            _ => false,
        }
    }
}

#[derive(Debug, PartialEq, Eq, Hash)]
pub enum F {
    Const(bool),
    Atom(Atom),
    Not(Box<F>),
    Bin(Op, Box<F>, Box<F>),
}

impl Clone for F {
    fn clone(&self) -> (r: F)
        ensures
            r == *self,
    {
        self.duplicate()
    }
}

/// A path from the root: 0 = left (or the child of ¬), 1 = right.
pub type Path = Vec<u8>;

impl F {
    /// Number of nodes.
    pub open spec fn size_of(self) -> nat
        decreases self,
    {
        match self {
            F::Const(_) => 1,
            F::Atom(_) => 1,
            F::Not(x) => 1 + x.size_of(),
            F::Bin(_, l, r) => 1 + l.size_of() + r.size_of(),
        }
    }

    /// Number of occurrences of atom `a`.
    pub open spec fn count_of(self, a: Atom) -> nat
        decreases self,
    {
        match self {
            F::Const(_) => 0,
            F::Atom(x) => if x == a {
                1
            } else {
                0
            },
            F::Not(x) => x.count_of(a),
            F::Bin(_, l, r) => l.count_of(a) + r.count_of(a),
        }
    }

    /// Number of atom occurrences of any name.
    pub open spec fn occ_of(self) -> nat
        decreases self,
    {
        match self {
            F::Const(_) => 0,
            F::Atom(_) => 1,
            F::Not(x) => x.occ_of(),
            F::Bin(_, l, r) => l.occ_of() + r.occ_of(),
        }
    }

    /// Every atom names one of the eight board atoms.
    pub open spec fn atoms_named(self) -> bool
        decreases self,
    {
        match self {
            F::Const(_) => true,
            F::Atom(x) => x < ATOM_COUNT,
            F::Not(x) => x.atoms_named(),
            F::Bin(_, l, r) => l.atoms_named() && r.atoms_named(),
        }
    }

    /// A well-formed board: its atoms are board atoms, and it is small enough
    /// that node and ply counters (`u32`) cannot overflow.
    pub open spec fn wf(self) -> bool {
        self.atoms_named() && self.size_of() <= u32::MAX
    }

    /// Truth value under the total assignment `env` (bit i = atom i).
    pub open spec fn eval_of(self, env: u8) -> bool
        decreases self,
    {
        match self {
            F::Const(b) => b,
            F::Atom(a) => env & (1u8 << a) != 0,
            F::Not(x) => !x.eval_of(env),
            F::Bin(op, l, r) => op.apply(l.eval_of(env), r.eval_of(env)),
        }
    }

    /// Every occurrence of `atom` replaced by the constant `value`.
    pub open spec fn subst(self, atom: Atom, value: bool) -> F
        decreases self,
    {
        match self {
            F::Const(b) => F::Const(b),
            F::Atom(a) => if a == atom {
                F::Const(value)
            } else {
                F::Atom(a)
            },
            F::Not(x) => F::Not(Box::new(x.subst(atom, value))),
            F::Bin(op, l, r) => F::Bin(
                op,
                Box::new(l.subst(atom, value)),
                Box::new(r.subst(atom, value)),
            ),
        }
    }

    /// The subtree reached by following `path`, if the path exists.
    pub open spec fn at_path(self, path: Seq<u8>) -> Option<F>
        decreases path.len(),
    {
        if path.len() == 0 {
            Some(self)
        } else {
            match self {
                F::Not(x) => if path[0] == 0 {
                    x.at_path(path.drop_first())
                } else {
                    None
                },
                F::Bin(_, l, r) => if path[0] == 0 {
                    l.at_path(path.drop_first())
                } else {
                    r.at_path(path.drop_first())
                },
                _ => None,
            }
        }
    }

    pub open spec fn const_of(self) -> Option<bool> {
        match self {
            F::Const(b) => Some(b),
            _ => None,
        }
    }

    /// Structural copy.
    pub fn duplicate(&self) -> (r: F)
        ensures
            r == *self,
        decreases self,
    {
        match self {
            F::Const(b) => F::Const(*b),
            F::Atom(a) => F::Atom(*a),
            F::Not(x) => F::Not(Box::new(x.duplicate())),
            F::Bin(op, l, r) => F::Bin(*op, Box::new(l.duplicate()), Box::new(r.duplicate())),
        }
    }

    pub fn not(f: F) -> (r: F)
        ensures
            r == F::Not(Box::new(f)),
    {
        F::Not(Box::new(f))
    }

    pub fn bin(op: Op, l: F, r: F) -> (res: F)
        ensures
            res == F::Bin(op, Box::new(l), Box::new(r)),
    {
        F::Bin(op, Box::new(l), Box::new(r))
    }

    pub fn and(l: F, r: F) -> (res: F)
        ensures
            res == F::Bin(Op::And, Box::new(l), Box::new(r)),
    {
        F::bin(Op::And, l, r)
    }

    pub fn or(l: F, r: F) -> (res: F)
        ensures
            res == F::Bin(Op::Or, Box::new(l), Box::new(r)),
    {
        F::bin(Op::Or, l, r)
    }

    pub fn imp(l: F, r: F) -> (res: F)
        ensures
            res == F::Bin(Op::Imp, Box::new(l), Box::new(r)),
    {
        F::bin(Op::Imp, l, r)
    }

    pub fn eq(l: F, r: F) -> (res: F)
        ensures
            res == F::Bin(Op::Eq, Box::new(l), Box::new(r)),
    {
        F::bin(Op::Eq, l, r)
    }

    pub fn as_const(&self) -> (r: Option<bool>)
        ensures
            r == self.const_of(),
    {
        match self {
            F::Const(b) => Some(*b),
            _ => None,
        }
    }

    pub fn count_atom(&self, a: Atom) -> (n: usize)
        requires
            self.size_of() <= u32::MAX,
        ensures
            n == self.count_of(a),
        decreases self,
    {
        proof {
            lemma_counts_bounded(*self, a);
        }
        match self {
            F::Const(_) => 0,
            F::Atom(x) => if *x == a {
                1
            } else {
                0
            },
            F::Not(x) => x.count_atom(a),
            F::Bin(_, l, r) => l.count_atom(a) + r.count_atom(a),
        }
    }

    pub fn total_occurrences(&self) -> (n: usize)
        requires
            self.size_of() <= u32::MAX,
        ensures
            n == self.occ_of(),
        decreases self,
    {
        proof {
            lemma_counts_bounded(*self, 0);
        }
        match self {
            F::Const(_) => 0,
            F::Atom(_) => 1,
            F::Not(x) => x.total_occurrences(),
            F::Bin(_, l, r) => l.total_occurrences() + r.total_occurrences(),
        }
    }

    pub fn size(&self) -> (n: usize)
        requires
            self.size_of() <= u32::MAX,
        ensures
            n == self.size_of(),
        decreases self,
    {
        match self {
            F::Const(_) => 1,
            F::Atom(_) => 1,
            F::Not(x) => 1 + x.size(),
            F::Bin(_, l, r) => 1 + l.size() + r.size(),
        }
    }

    /// Replace every occurrence of `atom` with the constant `value`.
    pub fn substitute(&self, atom: Atom, value: bool) -> (r: F)
        ensures
            r == self.subst(atom, value),
        decreases self,
    {
        match self {
            F::Const(b) => F::Const(*b),
            F::Atom(a) => {
                if *a == atom {
                    F::Const(value)
                } else {
                    F::Atom(*a)
                }
            },
            F::Not(x) => F::not(x.substitute(atom, value)),
            F::Bin(op, l, r) => F::bin(*op, l.substitute(atom, value), r.substitute(atom, value)),
        }
    }

    /// Truth-table evaluation under a total assignment (bit i of `env` = atom i).
    pub fn eval(&self, env: u8) -> (b: bool)
        requires
            self.atoms_named(),
        ensures
            b == self.eval_of(env),
        decreases self,
    {
        match self {
            F::Const(b) => *b,
            F::Atom(a) => env & (1u8 << *a) != 0,
            F::Not(x) => !x.eval(env),
            F::Bin(op, l, r) => {
                let a = l.eval(env);
                let b = r.eval(env);
                match op {
                    Op::And => a && b,
                    Op::Or => a || b,
                    Op::Imp => !a || b,
                    Op::Eq => a == b,
                }
            },
        }
    }
}


/// The memo-key character of a connective.
pub open spec fn op_key_char(op: Op) -> char {
    match op {
        Op::And => '&',
        Op::Or => '|',
        Op::Imp => '>',
        Op::Eq => '=',
    }
}

impl F {
    /// Compact canonical string: `T`, `F`, atom names, `!x`, `(l&r)`, `(l|r)`,
    /// `(l>r)`, `(l=r)`.
    pub open spec fn key_of(self) -> Seq<char>
        decreases self,
    {
        match self {
            F::Const(b) => if b {
                seq!['T']
            } else {
                seq!['F']
            },
            F::Atom(a) => seq![atom_char(a)],
            F::Not(x) => seq!['!'] + x.key_of(),
            F::Bin(op, l, r) => seq!['('] + l.key_of() + seq![op_key_char(op)] + r.key_of() + seq![
                ')',
            ],
        }
    }

    /// Subtree at `path`, if it exists.
    pub fn at(&self, path: &[u8]) -> (r: Option<&F>)
        ensures
            match r {
                Some(g) => self.at_path(path@) == Some(*g),
                None => self.at_path(path@) is None,
            },
    {
        let mut cur: &F = self;
        let mut i: usize = 0;
        assert(path@.skip(0) =~= path@);
        while i < path.len()
            invariant
                i <= path.len(),
                self.at_path(path@) == cur.at_path(path@.skip(i as int)),
            decreases path.len() - i,
        {
            let step = path[i];
            assert(path@.skip(i as int).drop_first() =~= path@.skip(i + 1));
            match cur {
                F::Not(x) => {
                    if step == 0 {
                        cur = &**x;
                    } else {
                        return None;
                    }
                },
                F::Bin(_, l, r) => {
                    if step == 0 {
                        cur = &**l;
                    } else {
                        cur = &**r;
                    }
                },
                _ => {
                    return None;
                },
            }
            i = i + 1;
        }
        assert(path@.skip(i as int) =~= Seq::<u8>::empty());
        Some(cur)
    }

    /// Compact canonical string, used as a solver memo key and in tests.
    pub fn key(&self) -> (s: String)
        requires
            self.atoms_named(),
        ensures
            s@ == self.key_of(),
    {
        let mut s = String::new();
        self.key_into(&mut s);
        s
    }

    fn key_into(&self, s: &mut String)
        requires
            self.atoms_named(),
        ensures
            final(s)@ == old(s)@ + self.key_of(),
        decreases self,
    {
        match self {
            F::Const(b) => {
                if *b {
                    push_char(s, 'T');
                } else {
                    push_char(s, 'F');
                }
            },
            F::Atom(a) => push_char(s, atom_name(*a)),
            F::Not(x) => {
                push_char(s, '!');
                x.key_into(s);
            },
            F::Bin(op, l, r) => {
                push_char(s, '(');
                l.key_into(s);
                let c = match op {
                    Op::And => '&',
                    Op::Or => '|',
                    Op::Imp => '>',
                    Op::Eq => '=',
                };
                push_char(s, c);
                r.key_into(s);
                push_char(s, ')');
            },
        }
        assert(final(s)@ =~= old(s)@ + self.key_of());
    }
}

/// Atoms among `0..n` that occur in `f`, ascending.
pub open spec fn atoms_below(f: F, n: nat) -> Seq<u8>
    decreases n,
{
    if n == 0 {
        Seq::empty()
    } else {
        atoms_below(f, (n - 1) as nat) + if f.count_of((n - 1) as u8) > 0 {
            seq![(n - 1) as u8]
        } else {
            Seq::empty()
        }
    }
}

impl F {
    /// Distinct atoms on the board, ascending.
    pub open spec fn atoms_of(self) -> Seq<u8> {
        atoms_below(self, ATOM_COUNT as nat)
    }

    /// Distinct atoms present, in ascending order.
    pub fn atoms(&self) -> (v: Vec<Atom>)
        requires
            self.wf(),
        ensures
            v@ == self.atoms_of(),
    {
        let mut out: Vec<Atom> = Vec::new();
        let mut i: u8 = 0;
        while i < ATOM_COUNT
            invariant
                i <= ATOM_COUNT,
                self.wf(),
                out@ == atoms_below(*self, i as nat),
            decreases ATOM_COUNT - i,
        {
            if self.count_atom(i) > 0 {
                out.push(i);
            }
            proof {
                assert(out@ =~= atoms_below(*self, (i + 1) as nat));
            }
            i = i + 1;
        }
        out
    }
}

/// `atoms_below` lists exactly the occurring atoms below `n`, strictly ascending.
pub proof fn lemma_atoms_below(f: F, n: nat)
    requires
        n <= 256,
    ensures
        forall|a: u8| #[trigger] atoms_below(f, n).contains(a) <==> (a < n && f.count_of(a) > 0),
        forall|i: int, j: int|
            0 <= i < j < atoms_below(f, n).len() ==> atoms_below(f, n)[i] < atoms_below(f, n)[j],
        forall|i: int| 0 <= i < atoms_below(f, n).len() ==> atoms_below(f, n)[i] < n,
        atoms_below(f, n).len() <= n,
    decreases n,
{
    if n > 0 {
        lemma_atoms_below(f, (n - 1) as nat);
        let prev = atoms_below(f, (n - 1) as nat);
        let cur = atoms_below(f, n);
        if f.count_of((n - 1) as u8) > 0 {
            assert(cur =~= prev.push((n - 1) as u8));
            assert forall|a: u8| #[trigger] cur.contains(a) <==> (a < n && f.count_of(a) > 0) by {
                assert((n - 1) as u8 == n - 1);
                if a == n - 1 {
                    assert(cur[cur.len() - 1] == a);
                } else {
                    if cur.contains(a) {
                        let k = choose|k: int| 0 <= k < cur.len() && cur[k] == a;
                        if k < prev.len() {
                            assert(prev[k] == a);
                            assert(prev.contains(a));
                        } else {
                            assert(cur[k] == (n - 1) as u8);
                        }
                    }
                    if a < n && f.count_of(a) > 0 {
                        assert(prev.contains(a));
                        let k = choose|k: int| 0 <= k < prev.len() && prev[k] == a;
                        assert(cur[k] == a);
                    }
                }
            }
        } else {
            assert(cur =~= prev);
        }
    } else {
        assert(atoms_below(f, n) =~= Seq::<u8>::empty());
    }
}

/// An occurring atom of a board with named atoms is a board atom.
pub proof fn lemma_named_count(f: F, a: u8)
    requires
        f.atoms_named(),
        f.count_of(a) > 0,
    ensures
        a < ATOM_COUNT,
    decreases f,
{
    match f {
        F::Not(x) => lemma_named_count(*x, a),
        F::Bin(_, l, r) => {
            if l.count_of(a) > 0 {
                lemma_named_count(*l, a);
            } else {
                lemma_named_count(*r, a);
            }
        },
        _ => {},
    }
}

/// The board's atom list holds exactly the atoms that occur on it.
pub proof fn lemma_atoms_of(f: F)
    requires
        f.atoms_named(),
    ensures
        forall|a: u8| #[trigger] f.atoms_of().contains(a) <==> f.count_of(a) > 0,
        forall|i: int, j: int| 0 <= i < j < f.atoms_of().len() ==> f.atoms_of()[i] < f.atoms_of()[j],
        forall|i: int| 0 <= i < f.atoms_of().len() ==> f.atoms_of()[i] < ATOM_COUNT,
        f.atoms_of().len() <= ATOM_COUNT,
{
    lemma_atoms_below(f, ATOM_COUNT as nat);
    assert forall|a: u8| #[trigger] f.atoms_of().contains(a) <==> f.count_of(a) > 0 by {
        if f.count_of(a) > 0 {
            lemma_named_count(f, a);
        }
    }
}

/// One display glyph with provenance.
#[derive(Clone, Debug, PartialEq)]
pub struct Token {
    pub ch: char,
    /// Path of the AST node this glyph belongs to.
    pub path: Path,
    /// Set when this glyph is an atom occurrence.
    pub atom: Option<Atom>,
    /// True for spacing glyphs (excluded from the glyph budget).
    pub space: bool,
}

/// The mathematical content of a token.
pub struct TokenSpec {
    pub ch: char,
    pub path: Seq<u8>,
    pub atom: Option<u8>,
    pub space: bool,
}

impl View for Token {
    type V = TokenSpec;

    open spec fn view(&self) -> TokenSpec {
        TokenSpec { ch: self.ch, path: self.path@, atom: self.atom, space: self.space }
    }
}

pub open spec fn tok(ch: char, path: Seq<u8>, atom: Option<u8>, space: bool) -> TokenSpec {
    TokenSpec { ch, path, atom, space }
}

pub open spec fn token_views(v: Seq<Token>) -> Seq<TokenSpec> {
    v.map_values(|t: Token| t@)
}

/// Does the child of an `op` node need its own parentheses?
pub open spec fn needs_paren(op: Op, child: F) -> bool {
    match child {
        F::Bin(cop, _, _) => !(op.chains_spec() && cop == op),
        _ => false,
    }
}

/// The rendering of `f` rooted at `path`: fully parenthesized except the
/// outermost node, atoms and constants, ¬-groups, and same-op chains of ∧/∨.
pub open spec fn emit_of(f: F, path: Seq<u8>, parent: Option<Op>) -> Seq<TokenSpec>
    decreases f,
{
    match f {
        F::Const(b) => seq![tok(if b { '⊤' } else { '⊥' }, path, None, false)],
        F::Atom(a) => seq![tok(atom_char(a), path, Some(a), false)],
        F::Not(x) => {
            let wrap = (*x) is Bin;
            let open_p = if wrap {
                seq![tok('(', path, None, false)]
            } else {
                Seq::empty()
            };
            let close_p = if wrap {
                seq![tok(')', path, None, false)]
            } else {
                Seq::empty()
            };
            seq![tok('¬', path, None, false)] + open_p + emit_of(*x, path.push(0), None) + close_p
        },
        F::Bin(op, l, r) => {
            let wrap_self = parent is Some;
            let open_p = if wrap_self {
                seq![tok('(', path, None, false)]
            } else {
                Seq::empty()
            };
            let close_p = if wrap_self {
                seq![tok(')', path, None, false)]
            } else {
                Seq::empty()
            };
            let lpar = if needs_paren(op, *l) {
                Some(op)
            } else {
                None
            };
            let rpar = if needs_paren(op, *r) {
                Some(op)
            } else {
                None
            };
            open_p + emit_of(*l, path.push(0), lpar) + seq![
                tok(' ', path, None, true),
                tok(op.glyph_of(), path, None, false),
                tok(' ', path, None, true),
            ] + emit_of(*r, path.push(1), rpar) + close_p
        },
    }
}

pub open spec fn tokens_of(f: F) -> Seq<TokenSpec> {
    emit_of(f, Seq::empty(), None)
}

/// The characters the player reads.
pub open spec fn pretty_of(f: F) -> Seq<char> {
    tokens_of(f).map_values(|t: TokenSpec| t.ch)
}

/// Number of tokens that are not spacing.
pub open spec fn nonspace_count(s: Seq<TokenSpec>) -> nat
    decreases s.len(),
{
    if s.len() == 0 {
        0
    } else {
        nonspace_count(s.drop_last()) + if s.last().space {
            0nat
        } else {
            1nat
        }
    }
}

fn copy_path(p: &Vec<u8>) -> (r: Vec<u8>)
    ensures
        r@ == p@,
{
    let mut r: Vec<u8> = Vec::new();
    let mut i: usize = 0;
    while i < p.len()
        invariant
            i <= p.len(),
            r@ == p@.take(i as int),
        decreases p.len() - i,
    {
        r.push(p[i]);
        assert(r@ =~= p@.take(i + 1));
        i = i + 1;
    }
    assert(p@.take(i as int) =~= p@);
    r
}

fn push_tok(out: &mut Vec<Token>, ch: char, path: &Vec<u8>, atom: Option<Atom>, space: bool)
    ensures
        token_views(final(out)@) == token_views(old(out)@).push(tok(ch, path@, atom, space)),
{
    let t = Token { ch, path: copy_path(path), atom, space };
    out.push(t);
    assert(token_views(final(out)@) =~= token_views(old(out)@).push(tok(ch, path@, atom, space)));
}

/// Render to tokens. Fully parenthesized except: outermost, atoms/constants,
/// ¬-groups, and same-op chains of ∧/∨ (which read flat, as on the rules card).
pub fn tokens(f: &F) -> (v: Vec<Token>)
    requires
        f.atoms_named(),
    ensures
        token_views(v@) == tokens_of(*f),
{
    let mut out: Vec<Token> = Vec::new();
    let mut path: Vec<u8> = Vec::new();
    emit(f, &mut path, &mut out, None);
    assert(token_views(out@) =~= token_views(Seq::<Token>::empty()) + tokens_of(*f));
    out
}

#[verifier::spinoff_prover]
#[verifier::rlimit(40)]
fn emit(f: &F, path: &mut Vec<u8>, out: &mut Vec<Token>, parent: Option<Op>)
    requires
        f.atoms_named(),
    ensures
        final(path)@ == old(path)@,
        token_views(final(out)@) == token_views(old(out)@) + emit_of(*f, old(path)@, parent),
    decreases f,
{
    let ghost p0 = path@;
    let ghost o0 = token_views(out@);
    match f {
        F::Const(b) => {
            push_tok(out, if *b { '⊤' } else { '⊥' }, path, None, false);
            assert(token_views(out@) =~= o0 + emit_of(*f, p0, parent));
        },
        F::Atom(a) => {
            push_tok(out, atom_name(*a), path, Some(*a), false);
            assert(token_views(out@) =~= o0 + emit_of(*f, p0, parent));
        },
        F::Not(x) => {
            push_tok(out, '¬', path, None, false);
            let wrap = match &**x {
                F::Bin(..) => true,
                _ => false,
            };
            if wrap {
                push_tok(out, '(', path, None, false);
            }
            let ghost o1 = token_views(out@);
            path.push(0);
            emit(x, path, out, None);
            path.pop();
            assert(path@ =~= p0);
            let ghost o2 = token_views(out@);
            if wrap {
                push_tok(out, ')', path, None, false);
            }
            assert(token_views(out@) =~= o0 + emit_of(*f, p0, parent));
        },
        F::Bin(op, l, r) => {
            let wrap_self = parent.is_some();
            if wrap_self {
                push_tok(out, '(', path, None, false);
            }
            let lp = needs_paren_exec(*op, l);
            path.push(0);
            emit(l, path, out, if lp { Some(*op) } else { None });
            path.pop();
            assert(path@ =~= p0);
            push_tok(out, ' ', path, None, true);
            push_tok(out, op.glyph(), path, None, false);
            push_tok(out, ' ', path, None, true);
            let rp = needs_paren_exec(*op, r);
            path.push(1);
            emit(r, path, out, if rp { Some(*op) } else { None });
            path.pop();
            assert(path@ =~= p0);
            if wrap_self {
                push_tok(out, ')', path, None, false);
            }
            assert(token_views(out@) =~= o0 + emit_of(*f, p0, parent));
        },
    }
}

fn needs_paren_exec(op: Op, child: &F) -> (b: bool)
    ensures
        b == needs_paren(op, *child),
{
    match child {
        F::Bin(cop, _, _) => !(op.chains() && *cop == op),
        _ => false,
    }
}

/// Plain string rendering (what the player reads).
pub fn pretty(f: &F) -> (s: String)
    requires
        f.atoms_named(),
    ensures
        s@ == pretty_of(*f),
{
    let toks = tokens(f);
    let mut s = String::new();
    let mut i: usize = 0;
    while i < toks.len()
        invariant
            i <= toks.len(),
            token_views(toks@) == tokens_of(*f),
            s@ == token_views(toks@).take(i as int).map_values(|t: TokenSpec| t.ch),
        decreases toks.len() - i,
    {
        push_char(&mut s, toks[i].ch);
        assert(token_views(toks@)[i as int] == toks@[i as int]@);
        assert(s@ =~= token_views(toks@).take(i + 1).map_values(|t: TokenSpec| t.ch));
        i = i + 1;
    }
    assert(token_views(toks@).take(i as int) =~= tokens_of(*f));
    s
}

/// Number of non-space glyphs (the legibility budget).
pub fn glyph_count(f: &F) -> (n: usize)
    requires
        f.atoms_named(),
    ensures
        n == nonspace_count(tokens_of(*f)),
{
    let toks = tokens(f);
    let mut n: usize = 0;
    let mut i: usize = 0;
    while i < toks.len()
        invariant
            i <= toks.len(),
            n <= i,
            token_views(toks@) == tokens_of(*f),
            n == nonspace_count(token_views(toks@).take(i as int)),
        decreases toks.len() - i,
    {
        assert(token_views(toks@).take(i + 1).drop_last() =~= token_views(toks@).take(i as int));
        assert(token_views(toks@)[i as int] == toks@[i as int]@);
        if !toks[i].space {
            n = n + 1;
        }
        i = i + 1;
    }
    assert(token_views(toks@).take(i as int) =~= tokens_of(*f));
    n
}

pub open spec fn has_prefix(p: Seq<u8>, prefix: Seq<u8>) -> bool {
    p.len() >= prefix.len() && p.subrange(0, prefix.len() as int) == prefix
}

fn is_prefix(p: &Vec<u8>, prefix: &[u8]) -> (b: bool)
    ensures
        b == has_prefix(p@, prefix@),
{
    if p.len() < prefix.len() {
        return false;
    }
    let mut i: usize = 0;
    while i < prefix.len()
        invariant
            i <= prefix.len() <= p.len(),
            forall|j: int| 0 <= j < i ==> p@[j] == prefix@[j],
        decreases prefix.len() - i,
    {
        if p[i] != prefix[i] {
            assert(p@.subrange(0, prefix@.len() as int)[i as int] != prefix@[i as int]);
            return false;
        }
        i = i + 1;
    }
    assert(p@.subrange(0, prefix@.len() as int) =~= prefix@);
    true
}

/// Token index span (start..end, exclusive) of the subtree at `path`:
/// from the first to the last token whose path extends `path`.
pub fn span_of(toks: &[Token], path: &[u8]) -> (r: Option<(usize, usize)>)
    ensures
        match r {
            None => forall|i: int| 0 <= i < toks@.len() ==> !has_prefix(toks@[i].path@, path@),
            Some((s, e)) => {
                &&& s < e <= toks@.len()
                &&& has_prefix(toks@[s as int].path@, path@)
                &&& has_prefix(toks@[e - 1].path@, path@)
                &&& forall|i: int| 0 <= i < s ==> !has_prefix(toks@[i].path@, path@)
                &&& forall|i: int| e <= i < toks@.len() ==> !has_prefix(toks@[i].path@, path@)
            },
        },
{
    let mut start: Option<usize> = None;
    let mut end: usize = 0;
    let mut i: usize = 0;
    while i < toks.len()
        invariant
            i <= toks@.len(),
            match start {
                None => forall|k: int| 0 <= k < i ==> !has_prefix(toks@[k].path@, path@),
                Some(s) => {
                    &&& s < end <= i
                    &&& has_prefix(toks@[s as int].path@, path@)
                    &&& has_prefix(toks@[end - 1].path@, path@)
                    &&& forall|k: int| 0 <= k < s ==> !has_prefix(toks@[k].path@, path@)
                    &&& forall|k: int| end <= k < i ==> !has_prefix(toks@[k].path@, path@)
                },
            },
        decreases toks.len() - i,
    {
        if is_prefix(&toks[i].path, path) {
            if start.is_none() {
                start = Some(i);
            }
            end = i + 1;
        }
        i = i + 1;
    }
    match start {
        Some(s) => Some((s, end)),
        None => None,
    }
}

/// `String::push`: appends one character.
#[verifier::external_body]
pub(crate) fn push_char(s: &mut String, c: char)
    ensures
        final(s)@ == old(s)@.push(c),
{
    s.push(c);
}

/// The first character of a key tells the node kind.
pub open spec fn head_char(f: F) -> char {
    match f {
        F::Const(b) => if b {
            'T'
        } else {
            'F'
        },
        F::Atom(a) => atom_char(a),
        F::Not(_) => '!',
        F::Bin(_, _, _) => '(',
    }
}

proof fn lemma_key_head(f: F, r: Seq<char>)
    ensures
        f.key_of().len() >= 1,
        (f.key_of() + r)[0] == head_char(f),
{
    match f {
        F::Not(x) => {
            assert((f.key_of() + r)[0] == f.key_of()[0]);
        },
        F::Bin(op, l, rr) => {
            assert((f.key_of() + r)[0] == f.key_of()[0]);
        },
        _ => {},
    }
}

proof fn lemma_key_unique_not(x: F, y: F, r1: Seq<char>, r2: Seq<char>)
    requires
        x.atoms_named(),
        y.atoms_named(),
        F::Not(Box::new(x)).key_of() + r1 == F::Not(Box::new(y)).key_of() + r2,
    ensures
        x == y,
        r1 == r2,
    decreases x.size_of() + 1, 0nat,
{
    let s1 = F::Not(Box::new(x)).key_of() + r1;
    let s2 = F::Not(Box::new(y)).key_of() + r2;
    assert(x.key_of() + r1 =~= s1.drop_first());
    assert(y.key_of() + r2 =~= s2.drop_first());
    lemma_key_prefix_unique(x, y, r1, r2);
}

#[verifier::rlimit(30)]
proof fn lemma_key_unique_bin(
    op: Op,
    l: F,
    r: F,
    op2: Op,
    l2: F,
    r2b: F,
    r1: Seq<char>,
    r2: Seq<char>,
)
    requires
        l.atoms_named(),
        r.atoms_named(),
        l2.atoms_named(),
        r2b.atoms_named(),
        F::Bin(op, Box::new(l), Box::new(r)).key_of() + r1 == F::Bin(
            op2,
            Box::new(l2),
            Box::new(r2b),
        ).key_of() + r2,
    ensures
        op == op2,
        l == l2,
        r == r2b,
        r1 == r2,
    decreases l.size_of() + r.size_of() + 1, 0nat,
{
    let s1 = F::Bin(op, Box::new(l), Box::new(r)).key_of() + r1;
    let s2 = F::Bin(op2, Box::new(l2), Box::new(r2b)).key_of() + r2;
    let t1 = seq![op_key_char(op)] + r.key_of() + seq![')'] + r1;
    let t2 = seq![op_key_char(op2)] + r2b.key_of() + seq![')'] + r2;
    assert(s1 =~= seq!['('] + (l.key_of() + t1));
    assert(s2 =~= seq!['('] + (l2.key_of() + t2));
    assert(l.key_of() + t1 =~= s1.drop_first());
    assert(l2.key_of() + t2 =~= s2.drop_first());
    lemma_key_prefix_unique(l, l2, t1, t2);
    assert(t1[0] == t2[0]);
    let u1 = seq![')'] + r1;
    let u2 = seq![')'] + r2;
    assert(r.key_of() + u1 =~= t1.drop_first());
    assert(r2b.key_of() + u2 =~= t2.drop_first());
    lemma_key_prefix_unique(r, r2b, u1, u2);
    assert(r1 =~= u1.drop_first());
    assert(r2 =~= u2.drop_first());
}

/// The memo key is canonical: a key followed by anything can be read back in
/// exactly one way, so two boards with the same key are the same board.
pub proof fn lemma_key_prefix_unique(f: F, g: F, r1: Seq<char>, r2: Seq<char>)
    requires
        f.atoms_named(),
        g.atoms_named(),
        f.key_of() + r1 == g.key_of() + r2,
    ensures
        f == g,
        r1 == r2,
    decreases f.size_of(), 1nat,
{
    lemma_key_head(f, r1);
    lemma_key_head(g, r2);
    assert(head_char(f) == head_char(g));
    match f {
        F::Const(b) => {
            assert(r1 =~= (f.key_of() + r1).drop_first());
            assert(r2 =~= (g.key_of() + r2).drop_first());
        },
        F::Atom(a) => {
            assert(r1 =~= (f.key_of() + r1).drop_first());
            assert(r2 =~= (g.key_of() + r2).drop_first());
        },
        F::Not(x) => {
            match g {
                F::Not(y) => {
                    lemma_key_unique_not(*x, *y, r1, r2);
                },
                _ => {},
            }
        },
        F::Bin(op, l, r) => {
            match g {
                F::Bin(op2, l2, r2b) => {
                    lemma_key_unique_bin(op, *l, *r, op2, *l2, *r2b, r1, r2);
                },
                _ => {},
            }
        },
    }
}

/// Two well-formed boards with the same memo key are equal.
pub proof fn lemma_key_injective(f: F, g: F)
    requires
        f.atoms_named(),
        g.atoms_named(),
        f.key_of() == g.key_of(),
    ensures
        f == g,
{
    assert(f.key_of() + Seq::<char>::empty() =~= g.key_of() + Seq::<char>::empty());
    lemma_key_prefix_unique(f, g, Seq::empty(), Seq::empty());
}

/// Occurrence counts never exceed the node count.
pub proof fn lemma_counts_bounded(f: F, a: Atom)
    ensures
        f.count_of(a) <= f.occ_of(),
        f.occ_of() <= f.size_of(),
        f.size_of() >= 1,
    decreases f,
{
    match f {
        F::Not(x) => lemma_counts_bounded(*x, a),
        F::Bin(_, l, r) => {
            lemma_counts_bounded(*l, a);
            lemma_counts_bounded(*r, a);
        },
        _ => {},
    }
}


// ------------------------------------------------------- laws of the tokens --

/// The atom leaves of `f`, left to right.
pub open spec fn leaves_of(f: F) -> Seq<Atom>
    decreases f,
{
    match f {
        F::Const(_) => Seq::empty(),
        F::Atom(a) => seq![a],
        F::Not(x) => leaves_of(*x),
        F::Bin(_, l, r) => leaves_of(*l) + leaves_of(*r),
    }
}

/// The atoms the atom-bearing tokens name, in order.
pub open spec fn token_atoms(ts: Seq<TokenSpec>) -> Seq<Atom>
    decreases ts.len(),
{
    if ts.len() == 0 {
        Seq::empty()
    } else {
        token_atoms(ts.drop_last()) + match ts.last().atom {
            Some(a) => seq![a],
            None => Seq::empty(),
        }
    }
}

/// A token read against the board `g` it was rendered from: it is a space
/// exactly when its glyph is `' '`, its path leads to a node of `g`, and an
/// atom token shows its atom's name and sits on that atom's leaf.
pub open spec fn token_ok(g: F, t: TokenSpec) -> bool {
    &&& (t.space <==> t.ch == ' ')
    &&& g.at_path(t.path) is Some
    &&& (t.atom matches Some(a) ==> t.ch == atom_char(a) && g.at_path(t.path) == Some(F::Atom(a)))
}

/// The characters of a rendering that are not spaces.
pub open spec fn nonspace_chars(s: Seq<char>) -> nat
    decreases s.len(),
{
    if s.len() == 0 {
        0
    } else {
        nonspace_chars(s.drop_last()) + if s.last() == ' ' {
            0nat
        } else {
            1nat
        }
    }
}

proof fn lemma_at_push(g: F, p: Seq<u8>, c: u8)
    requires
        g.at_path(p) is Some,
    ensures
        g.at_path(p.push(c)) == match g.at_path(p).unwrap() {
            F::Not(x) => if c == 0 {
                Some(*x)
            } else {
                None
            },
            F::Bin(_, l, r) => if c == 0 {
                Some(*l)
            } else {
                Some(*r)
            },
            _ => None,
        },
    decreases p.len(),
{
    if p.len() == 0 {
        assert(p.push(c).drop_first() =~= Seq::<u8>::empty());
    } else {
        assert(p.push(c).drop_first() =~= p.drop_first().push(c));
        assert(p.push(c)[0] == p[0]);
        match g {
            F::Not(x) => {
                if p[0] == 0 {
                    lemma_at_push(*x, p.drop_first(), c);
                }
            },
            F::Bin(_, l, r) => {
                if p[0] == 0 {
                    lemma_at_push(*l, p.drop_first(), c);
                } else {
                    lemma_at_push(*r, p.drop_first(), c);
                }
            },
            _ => {},
        }
    }
}

proof fn lemma_token_atoms_one(t: TokenSpec)
    ensures
        token_atoms(seq![t]) == match t.atom {
            Some(a) => seq![a],
            None => Seq::<Atom>::empty(),
        },
{
    assert(seq![t].drop_last() =~= Seq::<TokenSpec>::empty());
    assert(token_atoms(Seq::<TokenSpec>::empty()) == Seq::<Atom>::empty());
    assert(seq![t].last() == t);
    assert(Seq::<Atom>::empty() + seq![0u8] =~= seq![0u8]);
    match t.atom {
        Some(a) => assert(Seq::<Atom>::empty() + seq![a] =~= seq![a]),
        None => assert(Seq::<Atom>::empty() + Seq::<Atom>::empty() =~= Seq::<Atom>::empty()),
    }
}

proof fn lemma_token_atoms_add(a: Seq<TokenSpec>, b: Seq<TokenSpec>)
    ensures
        token_atoms(a + b) == token_atoms(a) + token_atoms(b),
    decreases b.len(),
{
    if b.len() == 0 {
        assert(a + b =~= a);
        assert(token_atoms(b) =~= Seq::<Atom>::empty());
    } else {
        lemma_token_atoms_add(a, b.drop_last());
        assert((a + b).drop_last() =~= a + b.drop_last());
        assert((a + b).last() == b.last());
    }
}

proof fn lemma_emit_ok(g: F, f: F, path: Seq<u8>, parent: Option<Op>)
    requires
        g.at_path(path) == Some(f),
    ensures
        forall|i: int|
            0 <= i < emit_of(f, path, parent).len() ==> token_ok(
                g,
                #[trigger] emit_of(f, path, parent)[i],
            ),
        token_atoms(emit_of(f, path, parent)) == leaves_of(f),
    decreases f,
{
    let e = emit_of(f, path, parent);
    match f {
        F::Const(b) => {
            lemma_token_atoms_one(tok(if b { '⊤' } else { '⊥' }, path, None, false));
        },
        F::Atom(a) => {
            lemma_token_atoms_one(tok(atom_char(a), path, Some(a), false));
        },
        F::Not(x) => {
            lemma_at_push(g, path, 0);
            lemma_emit_ok(g, *x, path.push(0), None);
            let inner = emit_of(*x, path.push(0), None);
            let wrap = (*x) is Bin;
            let open_p = if wrap {
                seq![tok('(', path, None, false)]
            } else {
                Seq::empty()
            };
            let close_p = if wrap {
                seq![tok(')', path, None, false)]
            } else {
                Seq::empty()
            };
            let head = seq![tok('¬', path, None, false)];
            assert(e == head + open_p + inner + close_p);
            lemma_token_atoms_add(head + open_p + inner, close_p);
            lemma_token_atoms_add(head + open_p, inner);
            lemma_token_atoms_add(head, open_p);
            lemma_token_atoms_one(tok('¬', path, None, false));
            lemma_token_atoms_one(tok('(', path, None, false));
            lemma_token_atoms_one(tok(')', path, None, false));
            assert(token_atoms(open_p) =~= Seq::<Atom>::empty());
            assert(token_atoms(close_p) =~= Seq::<Atom>::empty());
            assert(token_atoms(e) =~= leaves_of(f));
            assert forall|i: int| 0 <= i < e.len() implies token_ok(g, #[trigger] e[i]) by {
                let k = i - head.len() - open_p.len();
                if 0 <= k < inner.len() {
                    assert(e[i] == inner[k]);
                }
            }
        },
        F::Bin(op, l, r) => {
            lemma_at_push(g, path, 0);
            lemma_at_push(g, path, 1);
            let lpar = if needs_paren(op, *l) {
                Some(op)
            } else {
                None
            };
            let rpar = if needs_paren(op, *r) {
                Some(op)
            } else {
                None
            };
            lemma_emit_ok(g, *l, path.push(0), lpar);
            lemma_emit_ok(g, *r, path.push(1), rpar);
            let le = emit_of(*l, path.push(0), lpar);
            let re = emit_of(*r, path.push(1), rpar);
            let wrap_self = parent is Some;
            let open_p = if wrap_self {
                seq![tok('(', path, None, false)]
            } else {
                Seq::empty()
            };
            let close_p = if wrap_self {
                seq![tok(')', path, None, false)]
            } else {
                Seq::empty()
            };
            let mid = seq![
                tok(' ', path, None, true),
                tok(op.glyph_of(), path, None, false),
                tok(' ', path, None, true),
            ];
            assert(e == open_p + le + mid + re + close_p);
            lemma_token_atoms_add(open_p + le + mid + re, close_p);
            lemma_token_atoms_add(open_p + le + mid, re);
            lemma_token_atoms_add(open_p + le, mid);
            lemma_token_atoms_add(open_p, le);
            lemma_token_atoms_one(tok('(', path, None, false));
            lemma_token_atoms_one(tok(')', path, None, false));
            assert(token_atoms(open_p) =~= Seq::<Atom>::empty());
            assert(token_atoms(close_p) =~= Seq::<Atom>::empty());
            assert(token_atoms(mid) =~= Seq::<Atom>::empty()) by {
                let sp = tok(' ', path, None, true);
                let gl = tok(op.glyph_of(), path, None, false);
                lemma_token_atoms_one(sp);
                lemma_token_atoms_one(gl);
                assert(mid =~= seq![sp] + seq![gl] + seq![sp]);
                lemma_token_atoms_add(seq![sp] + seq![gl], seq![sp]);
                lemma_token_atoms_add(seq![sp], seq![gl]);
            }
            assert(token_atoms(e) =~= leaves_of(f));
            assert forall|i: int| 0 <= i < e.len() implies token_ok(g, #[trigger] e[i]) by {
                let k = i - open_p.len();
                let m = k - le.len() - 3;
                if 0 <= k < le.len() {
                    assert(e[i] == le[k]);
                } else if 0 <= m < re.len() {
                    assert(e[i] == re[m]);
                }
            }
        },
    }
}

proof fn lemma_leaves_count(f: F)
    ensures
        leaves_of(f).len() == f.occ_of(),
    decreases f,
{
    match f {
        F::Not(x) => lemma_leaves_count(*x),
        F::Bin(_, l, r) => {
            lemma_leaves_count(*l);
            lemma_leaves_count(*r);
        },
        _ => {},
    }
}

proof fn lemma_nonspace_chars(ts: Seq<TokenSpec>)
    requires
        forall|i: int| 0 <= i < ts.len() ==> (#[trigger] ts[i].space <==> ts[i].ch == ' '),
    ensures
        nonspace_count(ts) == nonspace_chars(ts.map_values(|t: TokenSpec| t.ch)),
    decreases ts.len(),
{
    if ts.len() > 0 {
        lemma_nonspace_chars(ts.drop_last());
        assert(ts.map_values(|t: TokenSpec| t.ch).drop_last() =~= ts.drop_last().map_values(
            |t: TokenSpec| t.ch,
        ));
        assert(ts[ts.len() - 1].space <==> ts[ts.len() - 1].ch == ' ');
    }
}

/// The tokens of a board: each is a space exactly when its glyph is `' '`,
/// each path leads to a node of the board, each atom token shows its atom's
/// name on that atom's leaf, and the atom tokens are the atom leaves in
/// order, as many as the board has occurrences.
pub proof fn lemma_tokens_faithful(f: F)
    ensures
        forall|i: int| 0 <= i < tokens_of(f).len() ==> token_ok(f, #[trigger] tokens_of(f)[i]),
        token_atoms(tokens_of(f)) == leaves_of(f),
        token_atoms(tokens_of(f)).len() == f.occ_of(),
{
    assert(f.at_path(Seq::empty()) == Some(f));
    lemma_emit_ok(f, f, Seq::empty(), None);
    lemma_leaves_count(f);
}

/// The glyph budget counts the characters of the rendering that are not
/// spaces.
pub proof fn lemma_glyphs_are_nonspace(f: F)
    ensures
        nonspace_count(tokens_of(f)) == nonspace_chars(pretty_of(f)),
{
    lemma_tokens_faithful(f);
    lemma_nonspace_chars(tokens_of(f));
}


// --------------------------------------------------- grouping in the text --

proof fn lemma_emit_shape(x: F, p: Seq<u8>, par: Option<Op>)
    ensures
        emit_of(x, p, par).len() >= 1,
        forall|i: int|
            0 <= i < emit_of(x, p, par).len() ==> (#[trigger] emit_of(x, p, par)[i]).path.len()
                >= p.len(),
        x is Bin && par is Some ==> emit_of(x, p, par)[0] == tok('(', p, None, false) && emit_of(
            x,
            p,
            par,
        ).last() == tok(')', p, None, false),
        x is Bin && par is None ==> emit_of(x, p, par)[0].path.len() > p.len() && emit_of(
            x,
            p,
            par,
        ).last().path.len() > p.len(),
    decreases x,
{
    let e = emit_of(x, p, par);
    match x {
        F::Not(y) => {
            lemma_emit_shape(*y, p.push(0), None);
            let inner = emit_of(*y, p.push(0), None);
            let wrap = (*y) is Bin;
            let open_p = if wrap {
                seq![tok('(', p, None, false)]
            } else {
                Seq::empty()
            };
            let close_p = if wrap {
                seq![tok(')', p, None, false)]
            } else {
                Seq::empty()
            };
            let head = seq![tok('¬', p, None, false)];
            assert(e == head + open_p + inner + close_p);
            assert forall|i: int| 0 <= i < e.len() implies (#[trigger] e[i]).path.len() >= p.len() by {
                let k = i - head.len() - open_p.len();
                if 0 <= k < inner.len() {
                    assert(e[i] == inner[k]);
                }
            }
        },
        F::Bin(op, l, r) => {
            let lpar = if needs_paren(op, *l) {
                Some(op)
            } else {
                None
            };
            let rpar = if needs_paren(op, *r) {
                Some(op)
            } else {
                None
            };
            lemma_emit_shape(*l, p.push(0), lpar);
            lemma_emit_shape(*r, p.push(1), rpar);
            let le = emit_of(*l, p.push(0), lpar);
            let re = emit_of(*r, p.push(1), rpar);
            let wrap_self = par is Some;
            let open_p = if wrap_self {
                seq![tok('(', p, None, false)]
            } else {
                Seq::empty()
            };
            let close_p = if wrap_self {
                seq![tok(')', p, None, false)]
            } else {
                Seq::empty()
            };
            let mid = seq![
                tok(' ', p, None, true),
                tok(op.glyph_of(), p, None, false),
                tok(' ', p, None, true),
            ];
            assert(e == open_p + le + mid + re + close_p);
            assert forall|i: int| 0 <= i < e.len() implies (#[trigger] e[i]).path.len() >= p.len() by {
                let k = i - open_p.len();
                let m = k - le.len() - 3;
                if 0 <= k < le.len() {
                    assert(e[i] == le[k]);
                } else if 0 <= m < re.len() {
                    assert(e[i] == re[m]);
                }
            }
            if !wrap_self {
                assert(e[0] == le[0]);
                assert(e.last() == re.last());
            }
        },
        _ => {},
    }
}

/// The text never hides how a board is grouped: a child of a binary node
/// that is itself binary opens with `(` and closes with `)`, both on the
/// child's own node, unless both nodes carry the same operator and it is ∧
/// or ∨, whose chains read flat. So `(p = q) = r` and `p = (q = r)` read
/// differently, and neither reads `p = q = r`.
pub proof fn lemma_binary_children_grouped(op: Op, l: F, r: F)
    ensures
        ({
            let f = F::Bin(op, Box::new(l), Box::new(r));
            let flat = |c: F|
                match c {
                    F::Bin(cop, _, _) => cop == op && (op == Op::And || op == Op::Or),
                    _ => true,
                };
            &&& l is Bin ==> (tokens_of(f)[0] == tok('(', seq![0u8], None, false) <==> !flat(l))
            &&& r is Bin ==> (tokens_of(f).last() == tok(')', seq![1u8], None, false) <==> !flat(r))
        }),
        tokens_of(F::Not(Box::new(l)))[0] == tok('¬', Seq::empty(), None, false),
        l is Bin <==> tokens_of(F::Not(Box::new(l)))[1] == tok('(', Seq::empty(), None, false),
{
    let n = F::Not(Box::new(l));
    let e0 = Seq::<u8>::empty();
    lemma_emit_shape(l, e0.push(0), None);
    let inner = emit_of(l, e0.push(0), None);
    let open_p = if l is Bin {
        seq![tok('(', e0, None, false)]
    } else {
        Seq::empty()
    };
    let close_p = if l is Bin {
        seq![tok(')', e0, None, false)]
    } else {
        Seq::empty()
    };
    assert(tokens_of(n) == seq![tok('¬', e0, None, false)] + open_p + inner + close_p);
    if !(l is Bin) {
        assert(tokens_of(n)[1] == inner[0]);
        assert(inner[0].path.len() >= 1);
    }
    let f = F::Bin(op, Box::new(l), Box::new(r));
    let e = Seq::<u8>::empty();
    assert(e.push(0) == seq![0u8]);
    assert(e.push(1) == seq![1u8]);
    let lpar = if needs_paren(op, l) {
        Some(op)
    } else {
        None
    };
    let rpar = if needs_paren(op, r) {
        Some(op)
    } else {
        None
    };
    lemma_emit_shape(l, e.push(0), lpar);
    lemma_emit_shape(r, e.push(1), rpar);
    let le = emit_of(l, e.push(0), lpar);
    let re = emit_of(r, e.push(1), rpar);
    let mid = seq![
        tok(' ', e, None, true),
        tok(op.glyph_of(), e, None, false),
        tok(' ', e, None, true),
    ];
    assert(tokens_of(f) == Seq::<TokenSpec>::empty() + le + mid + re + Seq::<TokenSpec>::empty());
    assert(tokens_of(f)[0] == le[0]);
    assert(tokens_of(f).last() == re.last());
}

} // verus!
