use topple::formula::{pretty, span_of, tokens, F};

fn p() -> F {
    F::Atom(0)
}

fn q() -> F {
    F::Atom(1)
}

fn r() -> F {
    F::Atom(2)
}

#[test]
fn pretty_worked_example() {
    // (p ⇒ q) ∧ (p ∨ r) ∧ (r ⇒ q), left-associated chain.
    let f = F::and(F::and(F::imp(p(), q()), F::or(p(), r())), F::imp(r(), q()));
    assert_eq!(pretty(&f), "(p ⇒ q) ∧ (p ∨ r) ∧ (r ⇒ q)");
}

#[test]
fn pretty_not_and_nesting() {
    let f = F::or(F::not(F::and(p(), q())), F::not(r()));
    assert_eq!(pretty(&f), "¬(p ∧ q) ∨ ¬r");
    let g = F::imp(F::imp(p(), q()), r());
    assert_eq!(pretty(&g), "(p ⇒ q) ⇒ r");
    let h = F::and(p(), F::or(q(), r()));
    assert_eq!(pretty(&h), "p ∧ (q ∨ r)");
}

#[test]
fn chains_stay_flat_both_sides() {
    let left = F::and(F::and(p(), q()), r());
    let right = F::and(p(), F::and(q(), r()));
    assert_eq!(pretty(&left), "p ∧ q ∧ r");
    assert_eq!(pretty(&right), "p ∧ q ∧ r");
}

#[test]
fn substitution_hits_every_occurrence() {
    let f = F::and(F::imp(p(), q()), F::or(p(), r()));
    let g = f.substitute(0, true);
    assert_eq!(g.count_atom(0), 0);
    assert_eq!(pretty(&g), "(⊤ ⇒ q) ∧ (⊤ ∨ r)");
}

#[test]
fn spans_are_contiguous_and_correct() {
    let f = F::and(F::imp(p(), q()), F::or(p(), r()));
    let toks = tokens(&f);
    let (s, e) = span_of(&toks, &[1]).unwrap();
    let text: String = toks[s..e].iter().map(|t| t.ch).collect();
    assert_eq!(text, "(p ∨ r)");
    let (s, e) = span_of(&toks, &[0, 0]).unwrap();
    let text: String = toks[s..e].iter().map(|t| t.ch).collect();
    assert_eq!(text, "p");
}

#[test]
fn eval_matches_semantics() {
    let f = F::imp(p(), q());
    assert!(f.eval(0b00)); // F ⇒ F = T
    assert!(f.eval(0b10)); // F ⇒ T = T
    assert!(!f.eval(0b01)); // T ⇒ F = F
    assert!(f.eval(0b11));
    let g = F::eq(p(), q());
    assert!(g.eval(0b00));
    assert!(!g.eval(0b01));
}

fn leaves(f: &F, out: &mut Vec<u8>) {
    match f {
        F::Const(_) => {}
        F::Atom(a) => out.push(*a),
        F::Not(x) => leaves(x, out),
        F::Bin(_, l, r) => {
            leaves(l, out);
            leaves(r, out);
        }
    }
}

#[test]
fn tokens_resolve_and_list_the_atom_leaves_in_order() {
    let f = F::and(
        F::and(F::imp(p(), q()), F::or(p(), r())),
        F::imp(r(), q()),
    );
    let toks = tokens(&f);
    let mut atoms = Vec::new();
    for t in &toks {
        assert_eq!(t.space, t.ch == ' ');
        let node = f.at(&t.path).expect("every token's path leads to a node");
        if let Some(a) = t.atom {
            assert_eq!(*node, F::Atom(a));
            assert_eq!(t.ch, topple::formula::atom_name(a));
            atoms.push(a);
        }
    }
    let mut want = Vec::new();
    leaves(&f, &mut want);
    assert_eq!(atoms, want);
    assert_eq!(atoms.len(), 6);
}

#[test]
fn the_glyph_budget_counts_the_non_space_characters() {
    let f = F::and(
        F::and(F::imp(p(), q()), F::or(p(), r())),
        F::imp(r(), q()),
    );
    let s = pretty(&f);
    assert_eq!(s.chars().count(), 27);
    assert_eq!(topple::formula::glyph_count(&f), 17);
    assert_eq!(s.chars().filter(|c| *c != ' ').count(), 17);
}
