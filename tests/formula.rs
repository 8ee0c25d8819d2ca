use bddl::dimacs::qdimacs;
use bddl::qbf::{atom, Atom, AtomCounter, BitVector, Formula, Quantifier};
use std::collections::HashMap;

fn lit(v: u64) -> Formula {
    Formula::Atom(Atom { var: v, positive: true })
}

fn show(f: &Formula) -> String {
    format!("{:?}", f)
}

fn has_not(f: &Formula) -> bool {
    match f {
        Formula::Atom(_) => false,
        Formula::Not(_) => true,
        Formula::Exists(_, g) | Formula::Forall(_, g) => has_not(g),
        Formula::And(g, h) | Formula::Or(g, h) => has_not(g) || has_not(h),
    }
}

fn count_quantifiers(f: &Formula) -> usize {
    match f {
        Formula::Atom(_) => 0,
        Formula::Not(g) => count_quantifiers(g),
        Formula::Exists(_, g) | Formula::Forall(_, g) => 1 + count_quantifiers(g),
        Formula::And(g, h) | Formula::Or(g, h) => count_quantifiers(g) + count_quantifiers(h),
    }
}

fn value(a: &Atom, s: &HashMap<u64, bool>) -> bool {
    let v = *s.get(&a.var).unwrap_or(&false);
    if a.positive {
        v
    } else {
        !v
    }
}

fn eval(f: &Formula, s: &mut HashMap<u64, bool>) -> bool {
    match f {
        Formula::Atom(a) => value(a, s),
        Formula::Not(g) => !eval(g, s),
        Formula::And(g, h) => eval(g, s) && eval(h, s),
        Formula::Or(g, h) => eval(g, s) || eval(h, s),
        Formula::Exists(a, g) | Formula::Forall(a, g) => {
            let old = s.get(&a.var).copied();
            let mut results = Vec::new();
            for b in [false, true] {
                s.insert(a.var, b);
                results.push(eval(g, s));
            }
            match old {
                Some(v) => s.insert(a.var, v),
                None => s.remove(&a.var),
            };
            if matches!(f, Formula::Exists(..)) {
                results[0] || results[1]
            } else {
                results[0] && results[1]
            }
        }
    }
}

fn cnf_holds(m: &Vec<Vec<Atom>>, s: &HashMap<u64, bool>) -> bool {
    m.iter().all(|c| c.iter().any(|a| value(a, s)))
}

#[test]
fn atoms_are_fresh_and_positive() {
    let mut c = AtomCounter::new();
    let a = atom(&mut c);
    let b = atom(&mut c);
    assert_eq!(a, Atom { var: 1, positive: true });
    assert_eq!(b, Atom { var: 2, positive: true });
    assert_eq!(c.last, 2);
    assert_eq!(a.invert(), Atom { var: 1, positive: false });
    assert_eq!(a.invert().invert(), a);
}

#[test]
fn atom_equal_is_xnor() {
    let a = Atom { var: 1, positive: true };
    let b = Atom { var: 2, positive: true };
    let f = a.equal(b);
    for (x, y) in [(false, false), (false, true), (true, false), (true, true)] {
        let mut s = HashMap::from([(1, x), (2, y)]);
        assert_eq!(eval(&f, &mut s), x == y);
    }
}

#[test]
fn denegify_pushes_negations_to_atoms() {
    // not (1 and (2 or not 3))  ==>  not 1 or (not 2 and 3)
    let f = lit(1).and(lit(2).or(lit(3).not())).not();
    let g = f.denegify();
    let want = Formula::Or(
        Box::new(Formula::Atom(Atom { var: 1, positive: false })),
        Box::new(Formula::And(
            Box::new(Formula::Atom(Atom { var: 2, positive: false })),
            Box::new(Formula::Atom(Atom { var: 3, positive: true })),
        )),
    );
    assert_eq!(show(&g), show(&want));
}

#[test]
fn denegify_swaps_quantifiers() {
    let a = Atom { var: 1, positive: true };
    let f = a.wrap_exists(a.wrap_forall(lit(1)).not()).not();
    let g = f.denegify();
    let want = a.wrap_forall(a.wrap_forall(lit(1)));
    assert_eq!(show(&g), show(&want));
}

#[test]
fn denegify_is_idempotent() {
    let a = Atom { var: 1, positive: true };
    let b = Atom { var: 2, positive: true };
    let build = || {
        a.wrap_forall(b.wrap_exists(lit(1).implies(lit(2)).not().or(lit(1).ite(lit(2), lit(1).not()))))
            .not()
    };
    let once = build().denegify();
    let twice = build().denegify().denegify();
    assert!(!has_not(&once));
    assert_eq!(show(&once), show(&twice));
    // meaning is kept
    let mut s = HashMap::new();
    assert_eq!(eval(&build(), &mut s), eval(&once, &mut s));
}

#[test]
fn prenexify_keeps_every_quantifier() {
    let a = Atom { var: 1, positive: true };
    let b = Atom { var: 2, positive: true };
    let c = Atom { var: 3, positive: true };
    let f = a.wrap_exists(lit(1)).and(b.wrap_forall(lit(2).or(c.wrap_exists(lit(3)))));
    let n = count_quantifiers(&f);
    let p = f.prenexify();
    let want = a.wrap_exists(b.wrap_forall(c.wrap_exists(lit(1).and(lit(2).or(lit(3))))));
    assert_eq!(n, 3);
    assert_eq!(show(&p), show(&want));
    let mut counter = AtomCounter { last: 3 };
    let (prefix, _) = p.prenex_to_prenex_cnf(&mut counter);
    assert_eq!(
        prefix[..3].to_vec(),
        vec![(Quantifier::Exists, a), (Quantifier::Forall, b), (Quantifier::Exists, c)]
    );
}

#[test]
fn tseitin_clauses_of_an_and() {
    let mut counter = AtomCounter { last: 2 };
    let (prefix, matrix) = lit(1).and(lit(2)).prenex_to_prenex_cnf(&mut counter);
    let c = Atom { var: 3, positive: true };
    let a = Atom { var: 1, positive: true };
    let b = Atom { var: 2, positive: true };
    assert_eq!(prefix, vec![(Quantifier::Exists, c)]);
    assert_eq!(
        matrix,
        vec![vec![c, a.invert(), b.invert()], vec![a, c.invert()], vec![b, c.invert()], vec![c]]
    );
    assert_eq!(counter.last, 3);
}

#[test]
fn tseitin_clauses_of_an_or() {
    let mut counter = AtomCounter { last: 2 };
    let (prefix, matrix) = lit(1).or(lit(2)).prenex_to_prenex_cnf(&mut counter);
    let c = Atom { var: 3, positive: true };
    let a = Atom { var: 1, positive: true };
    let b = Atom { var: 2, positive: true };
    assert_eq!(prefix, vec![(Quantifier::Exists, c)]);
    assert_eq!(
        matrix,
        vec![vec![c.invert(), a, b], vec![a.invert(), c], vec![b.invert(), c], vec![c]]
    );
}

#[test]
fn tseitin_is_equisatisfiable() {
    // ((1 and not 2) or (3 and 4)) and (not 5 or 6)
    let build = || {
        lit(1)
            .and(Formula::Atom(Atom { var: 2, positive: false }))
            .or(lit(3).and(lit(4)))
            .and(Formula::Atom(Atom { var: 5, positive: false }).or(lit(6)))
    };
    let mut counter = AtomCounter { last: 6 };
    let (prefix, matrix) = build().prenex_to_prenex_cnf(&mut counter);
    assert_eq!(prefix.len(), 5);
    for bits in 0u32..64 {
        let mut s: HashMap<u64, bool> = (1..=6).map(|v| (v, bits >> (v - 1) & 1 == 1)).collect();
        let want = eval(&build(), &mut s);
        // some assignment of the helpers satisfies the clauses exactly when the formula holds
        let mut any = false;
        for h in 0u32..32 {
            let mut t = s.clone();
            for (i, (_, a)) in prefix.iter().enumerate() {
                t.insert(a.var, h >> i & 1 == 1);
            }
            any |= cnf_holds(&matrix, &t);
        }
        assert_eq!(any, want);
    }
}

#[test]
fn bitvector_equal_le_ge_are_exact() {
    let mut c = AtomCounter::new();
    let v = BitVector::new(3, &mut c);
    assert_eq!(v.bits.len(), 3);
    for val in 0u64..8 {
        let eq = v.equal(val);
        let le = v.le(val);
        let ge = v.ge(val);
        for x in 0u64..8 {
            let mut s: HashMap<u64, bool> = (0..3).map(|i| (v.bits[i].var, x >> i & 1 == 1)).collect();
            assert_eq!(eval(&eq, &mut s), x == val);
            assert_eq!(eval(&le, &mut s), x <= val);
            assert_eq!(eval(&ge, &mut s), x >= val);
        }
    }
}

#[test]
fn bitvector_quantifies_bit_zero_outermost() {
    let mut c = AtomCounter::new();
    let v = BitVector::new(2, &mut c);
    let f = v.wrap_exists(lit(9));
    let want = v.bits[0].wrap_exists(v.bits[1].wrap_exists(lit(9)));
    assert_eq!(show(&f), show(&want));
    let g = v.wrap_forall(lit(9));
    let want = v.bits[0].wrap_forall(v.bits[1].wrap_forall(lit(9)));
    assert_eq!(show(&g), show(&want));
}

#[test]
fn qdimacs_renumbers_densely() {
    let a = Atom { var: 7, positive: true };
    let b = Atom { var: 3, positive: true };
    let c = Atom { var: 11, positive: true };
    let prefix = vec![(Quantifier::Forall, a), (Quantifier::Forall, b), (Quantifier::Exists, c)];
    let matrix = vec![vec![a.invert(), c], vec![b, Atom { var: 20, positive: false }]];
    let text = qdimacs(&prefix, &matrix);
    assert_eq!(text, "p cnf 4 2\na 1 2 0\ne 3 0\n-1 3 0\n2 -4 0\n");
}

#[test]
fn qdimacs_is_well_formed() {
    let mut counter = AtomCounter { last: 4 };
    let a = Atom { var: 1, positive: true };
    let b = Atom { var: 2, positive: true };
    let f = a.wrap_exists(b.wrap_forall(lit(1).and(lit(2).or(lit(3))).or(lit(4))));
    let (prefix, matrix) = f.prenex_to_prenex_cnf(&mut counter);
    let text = qdimacs(&prefix, &matrix);
    let lines: Vec<&str> = text.lines().collect();
    let header: Vec<&str> = lines[0].split(' ').collect();
    assert_eq!(header[0..2], ["p", "cnf"]);
    let n: usize = header[2].parse().unwrap();
    let m: usize = header[3].parse().unwrap();
    let quant: Vec<&&str> = lines[1..].iter().filter(|l| l.starts_with('a') || l.starts_with('e')).collect();
    assert_eq!(quant.iter().map(|l| &l[..1]).collect::<Vec<_>>(), vec!["e", "a", "e"]);
    let clauses = &lines[1 + quant.len()..];
    assert_eq!(clauses.len(), m);
    assert_eq!(m, matrix.len());
    let mut seen = std::collections::BTreeSet::new();
    for l in lines[1..].iter() {
        for tok in l.split(' ').filter(|t| !t.is_empty() && *t != "a" && *t != "e") {
            let id: i64 = tok.parse().unwrap();
            if id != 0 {
                seen.insert(id.unsigned_abs() as usize);
            }
        }
    }
    assert_eq!(seen.into_iter().collect::<Vec<_>>(), (1..=n).collect::<Vec<_>>());
}

#[test]
fn formulas_print_with_logic_symbols() {
    let a = Atom { var: 1, positive: true };
    let f = a.wrap_exists(lit(1).and(Formula::Atom(Atom { var: 2, positive: false }).or(lit(3))));
    assert_eq!(f.to_text(), "\u{2203}1(1\u{2227}(\u{ac}2\u{2228}3))");
    let g = Atom { var: 12, positive: true }.wrap_forall(lit(4).not());
    assert_eq!(g.to_text(), "\u{2200}12(\u{ac}4)");
}

#[test]
fn display_tseitin_joins_clauses() {
    let a = Atom { var: 1, positive: true };
    let c = Atom { var: 3, positive: true };
    let prefix = vec![(Quantifier::Forall, a), (Quantifier::Exists, c)];
    let matrix = vec![vec![a, c.invert()], vec![c]];
    let text = bddl::dimacs::display_tseitin(&prefix, &matrix);
    assert_eq!(text, "\u{2200}1\u{2203}31\u{2228}\u{ac}3\u{2227}3");
    assert_eq!(bddl::dimacs::display_tseitin(&vec![], &vec![]), "");
}
