use vstd::arithmetic::div_mod::{lemma_div_denominator, lemma_mod_breakdown, lemma_small_mod};
use vstd::prelude::*;

verus! {

/// A propositional variable together with a polarity.
///
/// `var` is the magnitude of the atom's signed identifier; `positive` is its sign.
#[derive(Debug, Clone, Copy, PartialEq, Eq, Structural)]
pub struct Atom {
    pub var: u64,
    pub positive: bool,
}

/// Hands out fresh atoms: the last variable handed out is `last`.
#[derive(Debug)]
pub struct AtomCounter {
    pub last: u64,
}

impl AtomCounter {
    pub fn new() -> (r: AtomCounter)
        ensures
            r.last == 0,
    {
        AtomCounter { last: 0 }
    }
}

/// The positive atom of variable `v`.
pub open spec fn var_atom(v: int) -> Atom {
    Atom { var: v as u64, positive: true }
}

/// Allocates a fresh positive atom, one above every atom handed out before.
pub fn atom(c: &mut AtomCounter) -> (r: Atom)
    requires
        old(c).last < u64::MAX,
    ensures
        final(c).last == old(c).last + 1,
        r == var_atom(final(c).last as int),
{
    c.last = c.last + 1;
    Atom { var: c.last, positive: true }
}


impl Atom {
    /// The atom of the same variable with the opposite polarity.
    pub open spec fn neg(self) -> Atom {
        Atom { var: self.var, positive: !self.positive }
    }

    /// The value of this literal under an assignment of the variables.
    pub open spec fn value(self, s: spec_fn(int) -> bool) -> bool {
        if self.positive {
            s(self.var as int)
        } else {
            !s(self.var as int)
        }
    }

    /// `Exists(self, formula)`.
    pub fn wrap_exists(self, formula: Formula) -> (r: Formula)
        ensures
            r == Formula::Exists(self, Box::new(formula)),
    {
        Formula::Exists(self, Box::new(formula))
    }

    /// `Forall(self, formula)`.
    pub fn wrap_forall(self, formula: Formula) -> (r: Formula)
        ensures
            r == Formula::Forall(self, Box::new(formula)),
    {
        Formula::Forall(self, Box::new(formula))
    }

    /// The same variable with the opposite polarity.
    pub fn invert(self) -> (r: Atom)
        ensures
            r == self.neg(),
    {
        Atom { var: self.var, positive: !self.positive }
    }

    /// The literal formula of this atom.
    pub fn lit(self) -> (r: Formula)
        ensures
            r == Formula::Atom(self),
    {
        Formula::Atom(self)
    }

    /// The literal formula of the negated atom (a value transform, no `Not` node).
    pub fn not(self) -> (r: Formula)
        ensures
            r == Formula::Atom(self.neg()),
    {
        Formula::Atom(self.invert())
    }

    /// `(self and other) or (not self and not other)`.
    pub fn equal(self, other: Atom) -> (r: Formula)
        ensures
            r == atom_equal(self, other),
    {
        Formula::Or(
            Box::new(Formula::And(Box::new(self.lit()), Box::new(other.lit()))),
            Box::new(Formula::And(Box::new(self.not()), Box::new(other.not()))),
        )
    }
}

/// The XNOR of two atoms.
pub open spec fn atom_equal(a: Atom, b: Atom) -> Formula {
    Formula::Or(
        Box::new(Formula::And(Box::new(Formula::Atom(a)), Box::new(Formula::Atom(b)))),
        Box::new(Formula::And(Box::new(Formula::Atom(a.neg())), Box::new(Formula::Atom(b.neg())))),
    )
}

/// A quantified boolean formula.
#[derive(Debug)]
pub enum Formula {
    Atom(Atom),
    Not(Box<Formula>),
    Exists(Atom, Box<Formula>),
    Forall(Atom, Box<Formula>),
    And(Box<Formula>, Box<Formula>),
    Or(Box<Formula>, Box<Formula>),
}

/// The kind of a quantifier in a prefix.
#[derive(Debug, Clone, Copy, PartialEq, Eq, Structural)]
pub enum Quantifier {
    Forall,
    Exists,
}

/// The assignment `s` with variable `v` set to `b`.
pub open spec fn update(s: spec_fn(int) -> bool, v: int, b: bool) -> spec_fn(int) -> bool {
    |x: int| if x == v { b } else { s(x) }
}

/// The truth value of `f` under the assignment `s` of its free variables.
pub open spec fn eval(f: Formula, s: spec_fn(int) -> bool) -> bool
    decreases f,
{
    match f {
        Formula::Atom(a) => a.value(s),
        Formula::Not(g) => !eval(*g, s),
        Formula::Exists(a, g) => eval(*g, update(s, a.var as int, true)) || eval(
            *g,
            update(s, a.var as int, false),
        ),
        Formula::Forall(a, g) => eval(*g, update(s, a.var as int, true)) && eval(
            *g,
            update(s, a.var as int, false),
        ),
        Formula::And(g, h) => eval(*g, s) && eval(*h, s),
        Formula::Or(g, h) => eval(*g, s) || eval(*h, s),
    }
}

/// No `Not` node occurs in `f`.
pub open spec fn is_nnf(f: Formula) -> bool
    decreases f,
{
    match f {
        Formula::Atom(_) => true,
        Formula::Not(_) => false,
        Formula::Exists(_, g) => is_nnf(*g),
        Formula::Forall(_, g) => is_nnf(*g),
        Formula::And(g, h) => is_nnf(*g) && is_nnf(*h),
        Formula::Or(g, h) => is_nnf(*g) && is_nnf(*h),
    }
}

/// The negation normal form of `f`.
pub open spec fn nnf(f: Formula) -> Formula
    decreases f,
{
    match f {
        Formula::Atom(a) => Formula::Atom(a),
        Formula::Not(g) => nnf_neg(*g),
        Formula::Exists(a, g) => Formula::Exists(a, Box::new(nnf(*g))),
        Formula::Forall(a, g) => Formula::Forall(a, Box::new(nnf(*g))),
        Formula::And(g, h) => Formula::And(Box::new(nnf(*g)), Box::new(nnf(*h))),
        Formula::Or(g, h) => Formula::Or(Box::new(nnf(*g)), Box::new(nnf(*h))),
    }
}

/// The negation normal form of `Not(f)`.
pub open spec fn nnf_neg(f: Formula) -> Formula
    decreases f,
{
    match f {
        Formula::Atom(a) => Formula::Atom(a.neg()),
        Formula::Not(g) => nnf(*g),
        Formula::Exists(a, g) => Formula::Forall(a, Box::new(nnf_neg(*g))),
        Formula::Forall(a, g) => Formula::Exists(a, Box::new(nnf_neg(*g))),
        Formula::And(g, h) => Formula::Or(Box::new(nnf_neg(*g)), Box::new(nnf_neg(*h))),
        Formula::Or(g, h) => Formula::And(Box::new(nnf_neg(*g)), Box::new(nnf_neg(*h))),
    }
}

impl Formula {
    /// A copy of this formula.
    pub fn duplicate(&self) -> (r: Formula)
        ensures
            r == *self,
        decreases self,
    {
        match self {
            Formula::Atom(a) => Formula::Atom(*a),
            Formula::Not(g) => Formula::Not(Box::new(g.duplicate())),
            Formula::Exists(a, g) => Formula::Exists(*a, Box::new(g.duplicate())),
            Formula::Forall(a, g) => Formula::Forall(*a, Box::new(g.duplicate())),
            Formula::And(g, h) => Formula::And(Box::new(g.duplicate()), Box::new(h.duplicate())),
            Formula::Or(g, h) => Formula::Or(Box::new(g.duplicate()), Box::new(h.duplicate())),
        }
    }

    /// `self and other`.
    pub fn and(self, other: Formula) -> (r: Formula)
        ensures
            r == Formula::And(Box::new(self), Box::new(other)),
    {
        Formula::And(Box::new(self), Box::new(other))
    }

    /// `self or other`.
    pub fn or(self, other: Formula) -> (r: Formula)
        ensures
            r == Formula::Or(Box::new(self), Box::new(other)),
    {
        Formula::Or(Box::new(self), Box::new(other))
    }

    /// `not self`, as a tree node.
    pub fn not(self) -> (r: Formula)
        ensures
            r == Formula::Not(Box::new(self)),
    {
        Formula::Not(Box::new(self))
    }

    /// `not self or other`.
    pub fn implies(self, other: Formula) -> (r: Formula)
        ensures
            r == implication(self, other),
    {
        self.not().or(other)
    }

    /// `(self implies then) and (not self implies other)`.
    pub fn ite(self, then: Formula, other: Formula) -> (r: Formula)
        ensures
            r == if_then_else(self, then, other),
    {
        let c = self.duplicate();
        c.implies(then).and(self.not().implies(other))
    }

    /// Pushes every negation down to the atoms.
    pub fn denegify(self) -> (r: Formula)
        ensures
            r == nnf(self),
        decreases self,
    {
        match self {
            Formula::Atom(v) => Formula::Atom(v),
            Formula::Not(v) => v.denegify_neg(),
            Formula::Exists(a, v) => Formula::Exists(a, Box::new(v.denegify())),
            Formula::Forall(a, v) => Formula::Forall(a, Box::new(v.denegify())),
            Formula::And(a, b) => Formula::And(Box::new(a.denegify()), Box::new(b.denegify())),
            Formula::Or(a, b) => Formula::Or(Box::new(a.denegify()), Box::new(b.denegify())),
        }
    }

    fn denegify_neg(self) -> (r: Formula)
        ensures
            r == nnf_neg(self),
        decreases self,
    {
        match self {
            Formula::Atom(v) => v.not(),
            Formula::Not(v) => v.denegify(),
            Formula::Exists(a, v) => Formula::Forall(a, Box::new(v.denegify_neg())),
            Formula::Forall(a, v) => Formula::Exists(a, Box::new(v.denegify_neg())),
            Formula::And(a, b) => Formula::Or(Box::new(a.denegify_neg()), Box::new(b.denegify_neg())),
            Formula::Or(a, b) => Formula::And(Box::new(a.denegify_neg()), Box::new(b.denegify_neg())),
        }
    }
}

/// `not a or b`.
pub open spec fn implication(a: Formula, b: Formula) -> Formula {
    Formula::Or(Box::new(Formula::Not(Box::new(a))), Box::new(b))
}

/// `(c implies t) and (not c implies e)`.
pub open spec fn if_then_else(c: Formula, t: Formula, e: Formula) -> Formula {
    Formula::And(
        Box::new(implication(c, t)),
        Box::new(implication(Formula::Not(Box::new(c)), e)),
    )
}


/// Negation normal form leaves no `Not` node, for `Not(f)` as for `f`.
pub proof fn lemma_nnf_has_no_not(f: Formula)
    ensures
        is_nnf(nnf(f)),
        is_nnf(nnf_neg(f)),
    decreases f,
{
    match f {
        Formula::Atom(_) => {},
        Formula::Not(g) => lemma_nnf_has_no_not(*g),
        Formula::Exists(_, g) => lemma_nnf_has_no_not(*g),
        Formula::Forall(_, g) => lemma_nnf_has_no_not(*g),
        Formula::And(g, h) => {
            lemma_nnf_has_no_not(*g);
            lemma_nnf_has_no_not(*h);
        },
        Formula::Or(g, h) => {
            lemma_nnf_has_no_not(*g);
            lemma_nnf_has_no_not(*h);
        },
    }
}

/// A formula without `Not` nodes is its own negation normal form.
pub proof fn lemma_nnf_of_nnf(f: Formula)
    requires
        is_nnf(f),
    ensures
        nnf(f) == f,
    decreases f,
{
    match f {
        Formula::Atom(_) => {},
        Formula::Not(_) => {},
        Formula::Exists(_, g) => lemma_nnf_of_nnf(*g),
        Formula::Forall(_, g) => lemma_nnf_of_nnf(*g),
        Formula::And(g, h) => {
            lemma_nnf_of_nnf(*g);
            lemma_nnf_of_nnf(*h);
        },
        Formula::Or(g, h) => {
            lemma_nnf_of_nnf(*g);
            lemma_nnf_of_nnf(*h);
        },
    }
}

/// Denegifying twice gives the same tree as denegifying once, and the result
/// holds no `Not` node.
pub proof fn lemma_denegify_idempotent(f: Formula)
    ensures
        nnf(nnf(f)) == nnf(f),
        is_nnf(nnf(f)),
{
    lemma_nnf_has_no_not(f);
    lemma_nnf_of_nnf(nnf(f));
}

/// Denegifying keeps the meaning of a formula under every assignment.
pub proof fn lemma_denegify_keeps_meaning(f: Formula, s: spec_fn(int) -> bool)
    ensures
        eval(nnf(f), s) == eval(f, s),
        eval(nnf_neg(f), s) == !eval(f, s),
    decreases f,
{
    match f {
        Formula::Atom(_) => {},
        Formula::Not(g) => lemma_denegify_keeps_meaning(*g, s),
        Formula::Exists(a, g) | Formula::Forall(a, g) => {
            lemma_denegify_keeps_meaning(*g, update(s, a.var as int, true));
            lemma_denegify_keeps_meaning(*g, update(s, a.var as int, false));
        },
        Formula::And(g, h) | Formula::Or(g, h) => {
            lemma_denegify_keeps_meaning(*g, s);
            lemma_denegify_keeps_meaning(*h, s);
        },
    }
}


/// The quantifiers of `f`, in depth-first order, left child before right.
pub open spec fn prefix_of(f: Formula) -> Seq<(Quantifier, Atom)>
    decreases f,
{
    match f {
        Formula::Atom(_) => seq![],
        Formula::Not(_) => seq![],
        Formula::Exists(a, g) => seq![(Quantifier::Exists, a)] + prefix_of(*g),
        Formula::Forall(a, g) => seq![(Quantifier::Forall, a)] + prefix_of(*g),
        Formula::And(g, h) => prefix_of(*g) + prefix_of(*h),
        Formula::Or(g, h) => prefix_of(*g) + prefix_of(*h),
    }
}

/// `f` with every quantifier node replaced by its body.
pub open spec fn matrix_of(f: Formula) -> Formula
    decreases f,
{
    match f {
        Formula::Atom(a) => Formula::Atom(a),
        Formula::Not(g) => Formula::Not(g),
        Formula::Exists(_, g) => matrix_of(*g),
        Formula::Forall(_, g) => matrix_of(*g),
        Formula::And(g, h) => Formula::And(Box::new(matrix_of(*g)), Box::new(matrix_of(*h))),
        Formula::Or(g, h) => Formula::Or(Box::new(matrix_of(*g)), Box::new(matrix_of(*h))),
    }
}

/// The quantifier `q` over `a`, applied to `f`.
pub open spec fn quantify(q: Quantifier, a: Atom, f: Formula) -> Formula {
    match q {
        Quantifier::Exists => Formula::Exists(a, Box::new(f)),
        Quantifier::Forall => Formula::Forall(a, Box::new(f)),
    }
}

/// `m` under the quantifiers of `p`, the first one outermost.
pub open spec fn wrap_prefix(p: Seq<(Quantifier, Atom)>, m: Formula) -> Formula
    decreases p.len(),
{
    if p.len() == 0 {
        m
    } else {
        quantify(p[0].0, p[0].1, wrap_prefix(p.drop_first(), m))
    }
}

/// The number of quantifier nodes in `f`.
pub open spec fn count_quantifiers(f: Formula) -> nat
    decreases f,
{
    match f {
        Formula::Atom(_) => 0,
        Formula::Not(g) => count_quantifiers(*g),
        Formula::Exists(_, g) => 1 + count_quantifiers(*g),
        Formula::Forall(_, g) => 1 + count_quantifiers(*g),
        Formula::And(g, h) => count_quantifiers(*g) + count_quantifiers(*h),
        Formula::Or(g, h) => count_quantifiers(*g) + count_quantifiers(*h),
    }
}

/// `f` is built from atoms, `And` and `Or` alone.
pub open spec fn is_matrix(f: Formula) -> bool
    decreases f,
{
    match f {
        Formula::Atom(_) => true,
        Formula::And(g, h) => is_matrix(*g) && is_matrix(*h),
        Formula::Or(g, h) => is_matrix(*g) && is_matrix(*h),
        _ => false,
    }
}

impl Formula {
    /// Moves every quantifier of a formula in negation normal form to the front, in
    /// depth-first order, left child before right.
    pub fn prenexify(self) -> (r: Formula)
        requires
            is_nnf(self),
        ensures
            r == wrap_prefix(prefix_of(self), matrix_of(self)),
    {
        let mut prenex: Vec<(Quantifier, Atom)> = Vec::new();
        let ghost f = self;
        let mut ret = self.prenexify_inner(&mut prenex);
        let mut i: usize = prenex.len();
        assert(prenex@.subrange(i as int, prenex@.len() as int) =~= seq![]);
        while i > 0
            invariant
                i <= prenex@.len(),
                prenex@ == prefix_of(f),
                ret == wrap_prefix(prenex@.subrange(i as int, prenex@.len() as int), matrix_of(f)),
            decreases i,
        {
            i = i - 1;
            let (q, a) = prenex[i];
            let ghost rest = prenex@.subrange(i as int + 1, prenex@.len() as int);
            assert(prenex@.subrange(i as int, prenex@.len() as int).drop_first() =~= rest);
            ret = match q {
                Quantifier::Exists => Formula::Exists(a, Box::new(ret)),
                Quantifier::Forall => Formula::Forall(a, Box::new(ret)),
            };
        }
        assert(prenex@.subrange(0, prenex@.len() as int) =~= prenex@);
        ret
    }

    fn prenexify_inner(self, prenex: &mut Vec<(Quantifier, Atom)>) -> (r: Formula)
        requires
            is_nnf(self),
        ensures
            final(prenex)@ == old(prenex)@ + prefix_of(self),
            r == matrix_of(self),
        decreases self,
    {
        let ghost start = prenex@;
        match self {
            Formula::Atom(v) => {
                assert(prenex@ =~= start + prefix_of(self));
                Formula::Atom(v)
            },
            Formula::Not(g) => Formula::Not(g),
            Formula::Exists(a, f) => {
                prenex.push((Quantifier::Exists, a));
                let r = f.prenexify_inner(prenex);
                assert(prenex@ =~= start + prefix_of(self));
                r
            },
            Formula::Forall(a, f) => {
                prenex.push((Quantifier::Forall, a));
                let r = f.prenexify_inner(prenex);
                assert(prenex@ =~= start + prefix_of(self));
                r
            },
            Formula::And(a, b) => {
                let ra = a.prenexify_inner(prenex);
                let rb = b.prenexify_inner(prenex);
                assert(prenex@ =~= start + prefix_of(self));
                Formula::And(Box::new(ra), Box::new(rb))
            },
            Formula::Or(a, b) => {
                let ra = a.prenexify_inner(prenex);
                let rb = b.prenexify_inner(prenex);
                assert(prenex@ =~= start + prefix_of(self));
                Formula::Or(Box::new(ra), Box::new(rb))
            },
        }
    }
}

/// Prenexing a formula in negation normal form keeps every quantifier: the prenex
/// formula's prefix is as long as the number of quantifier nodes of the input, and what
/// stands under the prefix is a matrix without quantifiers (nor `Not` nodes).
pub proof fn lemma_prenex_conserves_quantifiers(f: Formula)
    requires
        is_nnf(f),
    ensures
        prefix_of(f).len() == count_quantifiers(f),
        is_matrix(matrix_of(f)),
        count_quantifiers(matrix_of(f)) == 0,
        leading_prefix(wrap_prefix(prefix_of(f), matrix_of(f))) == prefix_of(f),
        leading_body(wrap_prefix(prefix_of(f), matrix_of(f))) == matrix_of(f),
{
    lemma_prefix_and_matrix(f);
    lemma_leading_of_prenex(prefix_of(f), matrix_of(f));
}

proof fn lemma_prefix_and_matrix(f: Formula)
    requires
        is_nnf(f),
    ensures
        prefix_of(f).len() == count_quantifiers(f),
        is_matrix(matrix_of(f)),
        count_quantifiers(matrix_of(f)) == 0,
    decreases f,
{
    match f {
        Formula::Atom(_) => {},
        Formula::Not(_) => {},
        Formula::Exists(_, g) | Formula::Forall(_, g) => lemma_prefix_and_matrix(*g),
        Formula::And(g, h) | Formula::Or(g, h) => {
            lemma_prefix_and_matrix(*g);
            lemma_prefix_and_matrix(*h);
        },
    }
}

/// The number of `And` and `Or` nodes of `f`.
pub open spec fn connectives(f: Formula) -> nat
    decreases f,
{
    match f {
        Formula::And(g, h) => connectives(*g) + connectives(*h) + 1,
        Formula::Or(g, h) => connectives(*g) + connectives(*h) + 1,
        _ => 0,
    }
}

/// The Tseitin encoding of the matrix `f` when the atoms handed out so far end at
/// `n`: the literal that stands for `f`, and the clauses that define it. Each
/// connective gets the next fresh atom, children before parents, left before right.
pub open spec fn tseitin(f: Formula, n: int) -> (Atom, Seq<Seq<Atom>>)
    decreases f,
{
    match f {
        Formula::Atom(a) => (a, seq![]),
        Formula::And(g, h) => {
            let (ga, gc) = tseitin(*g, n);
            let (ha, hc) = tseitin(*h, n + connectives(*g));
            let c = var_atom(n + connectives(f));
            (c, gc + hc + seq![seq![c, ga.neg(), ha.neg()], seq![ga, c.neg()], seq![ha, c.neg()]])
        },
        Formula::Or(g, h) => {
            let (ga, gc) = tseitin(*g, n);
            let (ha, hc) = tseitin(*h, n + connectives(*g));
            let c = var_atom(n + connectives(f));
            (c, gc + hc + seq![seq![c.neg(), ga, ha], seq![ga.neg(), c], seq![ha.neg(), c]])
        },
        _ => (var_atom(0), seq![]),
    }
}

/// The existential prefix entries of the `k` atoms handed out after `n`.
pub open spec fn helpers(n: int, k: nat) -> Seq<(Quantifier, Atom)> {
    Seq::new(k, |i: int| (Quantifier::Exists, var_atom(n + 1 + i)))
}

/// The quantifiers in front of `f`, outermost first.
pub open spec fn leading_prefix(f: Formula) -> Seq<(Quantifier, Atom)>
    decreases f,
{
    match f {
        Formula::Exists(a, g) => seq![(Quantifier::Exists, a)] + leading_prefix(*g),
        Formula::Forall(a, g) => seq![(Quantifier::Forall, a)] + leading_prefix(*g),
        _ => seq![],
    }
}

/// What stands under the quantifiers in front of `f`.
pub open spec fn leading_body(f: Formula) -> Formula
    decreases f,
{
    match f {
        Formula::Exists(_, g) => leading_body(*g),
        Formula::Forall(_, g) => leading_body(*g),
        _ => f,
    }
}

/// The clauses of a matrix as sequences of literals.
pub open spec fn clauses_view(m: Seq<Vec<Atom>>) -> Seq<Seq<Atom>> {
    m.map_values(|c: Vec<Atom>| c@)
}

/// The prefix of the prenex CNF of `f`: its own quantifiers, then the helper atoms.
pub open spec fn cnf_prefix(f: Formula, n: int) -> Seq<(Quantifier, Atom)> {
    leading_prefix(f) + helpers(n, connectives(leading_body(f)))
}

/// The clauses of the prenex CNF of `f`: the Tseitin clauses, then the unit clause of
/// the root literal.
pub open spec fn cnf_clauses(f: Formula, n: int) -> Seq<Seq<Atom>> {
    let (root, cls) = tseitin(leading_body(f), n);
    cls.push(seq![root])
}

impl Formula {
    /// Turns a prenex formula into a prefix and an equisatisfiable CNF matrix; the
    /// helper atoms come from `c` and are quantified existentially, innermost.
    pub fn prenex_to_prenex_cnf(&self, c: &mut AtomCounter) -> (r: (
        Vec<(Quantifier, Atom)>,
        Vec<Vec<Atom>>,
    ))
        requires
            is_matrix(leading_body(*self)),
            old(c).last + connectives(leading_body(*self)) <= u64::MAX,
        ensures
            final(c).last == old(c).last + connectives(leading_body(*self)),
            r.0@ == cnf_prefix(*self, old(c).last as int),
            clauses_view(r.1@) == cnf_clauses(*self, old(c).last as int),
    {
        let mut acc: Vec<(Quantifier, Atom)> = Vec::new();
        let matrix = self.prenex_cnf_inner(&mut acc, c);
        assert(acc@ =~= cnf_prefix(*self, old(c).last as int));
        (acc, matrix)
    }

    fn prenex_cnf_inner(&self, acc: &mut Vec<(Quantifier, Atom)>, c: &mut AtomCounter) -> (r: Vec<
        Vec<Atom>,
    >)
        requires
            is_matrix(leading_body(*self)),
            old(c).last + connectives(leading_body(*self)) <= u64::MAX,
        ensures
            final(c).last == old(c).last + connectives(leading_body(*self)),
            final(acc)@ == old(acc)@ + leading_prefix(*self) + helpers(
                old(c).last as int,
                connectives(leading_body(*self)),
            ),
            clauses_view(r@) == cnf_clauses(*self, old(c).last as int),
        decreases self,
    {
        let ghost start = acc@;
        match self {
            Formula::Exists(a, v) => {
                acc.push((Quantifier::Exists, *a));
                let r = v.prenex_cnf_inner(acc, c);
                assert(acc@ =~= start + leading_prefix(*self) + helpers(
                    old(c).last as int,
                    connectives(leading_body(*self)),
                ));
                r
            },
            Formula::Forall(a, v) => {
                acc.push((Quantifier::Forall, *a));
                let r = v.prenex_cnf_inner(acc, c);
                assert(acc@ =~= start + leading_prefix(*self) + helpers(
                    old(c).last as int,
                    connectives(leading_body(*self)),
                ));
                r
            },
            _ => {
                assert(leading_body(*self) == *self);
                let (a, mut matrix) = self.tseitin(acc, c);
                let ghost before = clauses_view(matrix@);
                let unit = vec![a];
                assert(unit@ =~= seq![a]);
                matrix.push(unit);
                assert(clauses_view(matrix@) =~= before.push(seq![a]));
                assert(clauses_view(matrix@) =~= cnf_clauses(*self, old(c).last as int));
                assert(acc@ =~= start + leading_prefix(*self) + helpers(
                    old(c).last as int,
                    connectives(leading_body(*self)),
                ));
                matrix
            },
        }
    }

    fn tseitin(&self, low: &mut Vec<(Quantifier, Atom)>, c: &mut AtomCounter) -> (r: (
        Atom,
        Vec<Vec<Atom>>,
    ))
        requires
            is_matrix(*self),
            old(c).last + connectives(*self) <= u64::MAX,
        ensures
            final(c).last == old(c).last + connectives(*self),
            final(low)@ == old(low)@ + helpers(old(c).last as int, connectives(*self)),
            (r.0, clauses_view(r.1@)) == tseitin(*self, old(c).last as int),
        decreases self,
    {
        let ghost n = old(c).last as int;
        let ghost start = low@;
        match self {
            Formula::Atom(v) => {
                assert(low@ =~= start + helpers(n, 0));
                let r: Vec<Vec<Atom>> = Vec::new();
                assert(clauses_view(r@) =~= seq![]);
                (*v, r)
            },
            Formula::And(a, b) => {
                let (aa, mut at) = a.tseitin(low, c);
                let (ba, mut bt) = b.tseitin(low, c);
                let ghost atv = clauses_view(at@);
                let ghost btv = clauses_view(bt@);
                at.append(&mut bt);
                let ca = atom(c);
                low.push((Quantifier::Exists, ca));
                at.push(vec![ca, aa.invert(), ba.invert()]);
                at.push(vec![aa, ca.invert()]);
                at.push(vec![ba, ca.invert()]);
                assert(low@ =~= start + helpers(n, connectives(*self)));
                assert(clauses_view(at@) =~= atv + btv + seq![
                    seq![ca, aa.neg(), ba.neg()],
                    seq![aa, ca.neg()],
                    seq![ba, ca.neg()],
                ]);
                (ca, at)
            },
            Formula::Or(a, b) => {
                let (aa, mut at) = a.tseitin(low, c);
                let (ba, mut bt) = b.tseitin(low, c);
                let ghost atv = clauses_view(at@);
                let ghost btv = clauses_view(bt@);
                at.append(&mut bt);
                let ca = atom(c);
                low.push((Quantifier::Exists, ca));
                at.push(vec![ca.invert(), aa, ba]);
                at.push(vec![aa.invert(), ca]);
                at.push(vec![ba.invert(), ca]);
                assert(low@ =~= start + helpers(n, connectives(*self)));
                assert(clauses_view(at@) =~= atv + btv + seq![
                    seq![ca.neg(), aa, ba],
                    seq![aa.neg(), ca],
                    seq![ba.neg(), ca],
                ]);
                (ca, at)
            },
            _ => {
                proof {
                    assert(false);
                }
                (Atom { var: 0, positive: true }, Vec::new())
            },
        }
    }
}


/// Some literal of the clause is true under `s`.
pub open spec fn clause_holds(c: Seq<Atom>, s: spec_fn(int) -> bool) -> bool {
    exists|i: int| 0 <= i < c.len() && #[trigger] c[i].value(s)
}

/// Every clause of `m` holds under `s`.
pub open spec fn cnf_holds(m: Seq<Seq<Atom>>, s: spec_fn(int) -> bool) -> bool {
    forall|j: int| 0 <= j < m.len() ==> clause_holds(#[trigger] m[j], s)
}

/// Every atom of `f` is a variable no greater than `n`.
pub open spec fn vars_at_most(f: Formula, n: int) -> bool
    decreases f,
{
    match f {
        Formula::Atom(a) => a.var <= n,
        Formula::Not(g) => vars_at_most(*g, n),
        Formula::Exists(a, g) => a.var <= n && vars_at_most(*g, n),
        Formula::Forall(a, g) => a.var <= n && vars_at_most(*g, n),
        Formula::And(g, h) => vars_at_most(*g, n) && vars_at_most(*h, n),
        Formula::Or(g, h) => vars_at_most(*g, n) && vars_at_most(*h, n),
    }
}

/// Every literal of `m` is a variable no greater than `n`.
pub open spec fn lits_at_most(m: Seq<Seq<Atom>>, n: int) -> bool {
    forall|j: int, i: int| 0 <= j < m.len() && 0 <= i < m[j].len() ==> #[trigger] m[j][i].var <= n
}

/// `s` and `t` agree on every variable up to `n`.
pub open spec fn agree_upto(s: spec_fn(int) -> bool, t: spec_fn(int) -> bool, n: int) -> bool {
    forall|x: int| x <= n ==> #[trigger] s(x) == t(x)
}

/// The assignment `s` extended to the helper atoms of `tseitin(f, n)`: each helper
/// takes the value of the connective it stands for.
pub open spec fn tseitin_extend(f: Formula, n: int, s: spec_fn(int) -> bool) -> spec_fn(int) -> bool
    decreases f,
{
    match f {
        Formula::And(g, h) | Formula::Or(g, h) => {
            let s1 = tseitin_extend(*g, n, s);
            let s2 = tseitin_extend(*h, n + connectives(*g), s1);
            update(s2, n + connectives(f), eval(f, s))
        },
        _ => s,
    }
}

proof fn lemma_cnf_concat(a: Seq<Seq<Atom>>, b: Seq<Seq<Atom>>, s: spec_fn(int) -> bool)
    ensures
        cnf_holds(a + b, s) == (cnf_holds(a, s) && cnf_holds(b, s)),
{
    if cnf_holds(a + b, s) {
        assert forall|j: int| 0 <= j < a.len() implies clause_holds(#[trigger] a[j], s) by {
            assert((a + b)[j] == a[j]);
        }
        assert forall|j: int| 0 <= j < b.len() implies clause_holds(#[trigger] b[j], s) by {
            assert((a + b)[a.len() + j] == b[j]);
        }
    }
    if cnf_holds(a, s) && cnf_holds(b, s) {
        assert forall|j: int| 0 <= j < (a + b).len() implies clause_holds(#[trigger] (a + b)[j], s) by {
            if j < a.len() {
                assert((a + b)[j] == a[j]);
            } else {
                assert((a + b)[j] == b[j - a.len()]);
            }
        }
    }
}

proof fn lemma_lits_concat(a: Seq<Seq<Atom>>, b: Seq<Seq<Atom>>, n: int)
    requires
        lits_at_most(a, n),
        lits_at_most(b, n),
    ensures
        lits_at_most(a + b, n),
{
    assert forall|j: int, i: int| 0 <= j < (a + b).len() && 0 <= i < (a + b)[j].len() implies #[trigger] (a
        + b)[j][i].var <= n by {
        if j < a.len() {
            assert((a + b)[j] == a[j]);
        } else {
            assert((a + b)[j] == b[j - a.len()]);
        }
    }
}

proof fn lemma_clause3(a: Atom, b: Atom, c: Atom, s: spec_fn(int) -> bool)
    ensures
        clause_holds(seq![a, b, c], s) == (a.value(s) || b.value(s) || c.value(s)),
{
    let cl = seq![a, b, c];
    assert(cl[0] == a && cl[1] == b && cl[2] == c);
}

proof fn lemma_clause2(a: Atom, b: Atom, s: spec_fn(int) -> bool)
    ensures
        clause_holds(seq![a, b], s) == (a.value(s) || b.value(s)),
{
    let cl = seq![a, b];
    assert(cl[0] == a && cl[1] == b);
}

proof fn lemma_cnf3(x: Seq<Atom>, y: Seq<Atom>, z: Seq<Atom>, s: spec_fn(int) -> bool)
    ensures
        cnf_holds(seq![x, y, z], s) == (clause_holds(x, s) && clause_holds(y, s) && clause_holds(z, s)),
{
    let m = seq![x, y, z];
    assert(m[0] == x && m[1] == y && m[2] == z);
}

proof fn lemma_agree_cnf(m: Seq<Seq<Atom>>, n: int, s: spec_fn(int) -> bool, t: spec_fn(int) -> bool)
    requires
        lits_at_most(m, n),
        agree_upto(s, t, n),
    ensures
        cnf_holds(m, s) == cnf_holds(m, t),
{
    assert forall|j: int| 0 <= j < m.len() implies clause_holds(#[trigger] m[j], s) == clause_holds(
        m[j],
        t,
    ) by {
        assert forall|i: int| 0 <= i < m[j].len() implies #[trigger] m[j][i].value(s) == m[j][i].value(
            t,
        ) by {
            assert(m[j][i].var <= n);
            assert(s(m[j][i].var as int) == t(m[j][i].var as int));
        }
        if clause_holds(m[j], s) {
            let i = choose|i: int| 0 <= i < m[j].len() && #[trigger] m[j][i].value(s);
            assert(m[j][i].value(t));
        }
        if clause_holds(m[j], t) {
            let i = choose|i: int| 0 <= i < m[j].len() && #[trigger] m[j][i].value(t);
            assert(m[j][i].value(s));
        }
    }
}

proof fn lemma_agree_eval(f: Formula, n: int, s: spec_fn(int) -> bool, t: spec_fn(int) -> bool)
    requires
        is_matrix(f),
        vars_at_most(f, n),
        agree_upto(s, t, n),
    ensures
        eval(f, s) == eval(f, t),
    decreases f,
{
    match f {
        Formula::Atom(a) => {
            assert(s(a.var as int) == t(a.var as int));
        },
        Formula::And(g, h) | Formula::Or(g, h) => {
            lemma_agree_eval(*g, n, s, t);
            lemma_agree_eval(*h, n, s, t);
        },
        _ => {},
    }
}

proof fn lemma_vars_mono(f: Formula, n: int, m: int)
    requires
        vars_at_most(f, n),
        n <= m,
    ensures
        vars_at_most(f, m),
    decreases f,
{
    match f {
        Formula::Atom(_) => {},
        Formula::Not(g) | Formula::Exists(_, g) | Formula::Forall(_, g) => lemma_vars_mono(*g, n, m),
        Formula::And(g, h) | Formula::Or(g, h) => {
            lemma_vars_mono(*g, n, m);
            lemma_vars_mono(*h, n, m);
        },
    }
}

/// The literals of the Tseitin encoding stay at or below the last helper atom.
proof fn lemma_tseitin_bounds(f: Formula, n: int)
    requires
        is_matrix(f),
        vars_at_most(f, n),
        0 <= n,
        n + connectives(f) <= u64::MAX,
    ensures
        tseitin(f, n).0.var <= n + connectives(f),
        lits_at_most(tseitin(f, n).1, n + connectives(f)),
    decreases f,
{
    match f {
        Formula::And(g, h) | Formula::Or(g, h) => {
            let n1 = n + connectives(*g);
            let top = n + connectives(f);
            lemma_tseitin_bounds(*g, n);
            lemma_vars_mono(*h, n, n1);
            lemma_tseitin_bounds(*h, n1);
            let (ga, gc) = tseitin(*g, n);
            let (ha, hc) = tseitin(*h, n1);
            let c = var_atom(top);
            assert(lits_at_most(gc, top));
            assert(lits_at_most(hc, top));
            lemma_lits_concat(gc, hc, top);
            let last = if f is And {
                seq![seq![c, ga.neg(), ha.neg()], seq![ga, c.neg()], seq![ha, c.neg()]]
            } else {
                seq![seq![c.neg(), ga, ha], seq![ga.neg(), c], seq![ha.neg(), c]]
            };
            assert(lits_at_most(last, top)) by {
                assert forall|j: int, i: int| 0 <= j < last.len() && 0 <= i < last[j].len() implies #[trigger] last[j][i].var <= top by {
                    assert(last[0][0].var <= top);
                }
            }
            lemma_lits_concat(gc + hc, last, top);
            assert(tseitin(f, n).1 == gc + hc + last);
        },
        _ => {},
    }
}

/// Under the extended assignment, the root literal of the Tseitin encoding has the
/// value of the formula, every defining clause holds, and nothing changes at or below
/// `n`; any assignment under which the clauses and the root literal hold satisfies
/// the formula.
proof fn lemma_tseitin_extend(f: Formula, n: int, s: spec_fn(int) -> bool)
    requires
        is_matrix(f),
        vars_at_most(f, n),
        0 <= n,
        n + connectives(f) <= u64::MAX,
    ensures
        agree_upto(tseitin_extend(f, n, s), s, n),
        tseitin(f, n).0.value(tseitin_extend(f, n, s)) == eval(f, s),
        cnf_holds(tseitin(f, n).1, tseitin_extend(f, n, s)),
        forall|t: spec_fn(int) -> bool|
            cnf_holds(#[trigger] tseitin(f, n).1, t) && tseitin(f, n).0.value(t) ==> eval(f, t),
    decreases f,
{
    match f {
        Formula::Atom(a) => {
            assert(cnf_holds(tseitin(f, n).1, tseitin_extend(f, n, s)));
        },
        Formula::And(g, h) | Formula::Or(g, h) => {
            let n1 = n + connectives(*g);
            let top = n + connectives(f);
            lemma_tseitin_extend(*g, n, s);
            let s1 = tseitin_extend(*g, n, s);
            lemma_vars_mono(*h, n, n1);
            lemma_tseitin_extend(*h, n1, s1);
            let s2 = tseitin_extend(*h, n1, s1);
            let t = tseitin_extend(f, n, s);
            assert(t == update(s2, top, eval(f, s)));
            lemma_tseitin_bounds(*g, n);
            lemma_tseitin_bounds(*h, n1);
            let (ga, gc) = tseitin(*g, n);
            let (ha, hc) = tseitin(*h, n1);
            let c = var_atom(top);
            assert(agree_upto(t, s2, top - 1));
            assert(agree_upto(t, s1, n1));
            assert(agree_upto(t, s, n));
            lemma_agree_eval(*h, n, s1, s);
            assert(ga.value(t) == ga.value(s1));
            assert(ha.value(t) == ha.value(s2));
            assert(c.value(t) == eval(f, s));
            lemma_agree_cnf(gc, n1, s1, t);
            lemma_agree_cnf(hc, top - 1, s2, t);
            let last = if f is And {
                seq![seq![c, ga.neg(), ha.neg()], seq![ga, c.neg()], seq![ha, c.neg()]]
            } else {
                seq![seq![c.neg(), ga, ha], seq![ga.neg(), c], seq![ha.neg(), c]]
            };
            assert(tseitin(f, n).1 == gc + hc + last);
            lemma_cnf_concat(gc + hc, last, t);
            lemma_cnf_concat(gc, hc, t);
            lemma_cnf3(last[0], last[1], last[2], t);
            lemma_clause3(last[0][0], last[0][1], last[0][2], t);
            lemma_clause2(last[1][0], last[1][1], t);
            lemma_clause2(last[2][0], last[2][1], t);
            assert(last[0] == seq![last[0][0], last[0][1], last[0][2]]);
            assert(last[1] == seq![last[1][0], last[1][1]]);
            assert(last[2] == seq![last[2][0], last[2][1]]);
            assert(last == seq![last[0], last[1], last[2]]);
            assert forall|u: spec_fn(int) -> bool|
                cnf_holds(#[trigger] tseitin(f, n).1, u) && tseitin(f, n).0.value(u) implies eval(
                f,
                u,
            ) by {
                lemma_cnf_concat(gc + hc, last, u);
                lemma_cnf_concat(gc, hc, u);
                lemma_cnf3(last[0], last[1], last[2], u);
                lemma_clause3(last[0][0], last[0][1], last[0][2], u);
                lemma_clause2(last[1][0], last[1][1], u);
                lemma_clause2(last[2][0], last[2][1], u);
                assert(cnf_holds(gc, u) && cnf_holds(hc, u) && cnf_holds(last, u));
                assert(c.value(u));
                if f is And {
                    assert(ga.value(u) && ha.value(u));
                    assert(eval(*g, u) && eval(*h, u));
                } else {
                    assert(ga.value(u) || ha.value(u));
                    assert(eval(*g, u) || eval(*h, u));
                }
            }
        },
        _ => {},
    }
}

proof fn lemma_extend_congruent(f: Formula, n: int, s: spec_fn(int) -> bool, t: spec_fn(int) -> bool)
    requires
        is_matrix(f),
        vars_at_most(f, n),
        0 <= n,
        agree_upto(s, t, n),
    ensures
        agree_upto(tseitin_extend(f, n, s), tseitin_extend(f, n, t), n + connectives(f)),
    decreases f,
{
    match f {
        Formula::And(g, h) | Formula::Or(g, h) => {
            let n1 = n + connectives(*g);
            lemma_extend_congruent(*g, n, s, t);
            lemma_vars_mono(*h, n, n1);
            lemma_extend_congruent(*h, n1, tseitin_extend(*g, n, s), tseitin_extend(*g, n, t));
            lemma_agree_eval(f, n, s, t);
        },
        _ => {},
    }
}

/// Under an assignment that satisfies the defining clauses, every helper atom holds the
/// value of the connective it stands for.
proof fn lemma_tseitin_forced(f: Formula, n: int, t: spec_fn(int) -> bool)
    requires
        is_matrix(f),
        vars_at_most(f, n),
        0 <= n,
        n + connectives(f) <= u64::MAX,
        cnf_holds(tseitin(f, n).1, t),
    ensures
        agree_upto(t, tseitin_extend(f, n, t), n + connectives(f)),
        tseitin(f, n).0.value(t) == eval(f, t),
    decreases f,
{
    match f {
        Formula::And(g, h) | Formula::Or(g, h) => {
            let n1 = n + connectives(*g);
            let top = n + connectives(f);
            let (ga, gc) = tseitin(*g, n);
            let (ha, hc) = tseitin(*h, n1);
            let c = var_atom(top);
            let last = if f is And {
                seq![seq![c, ga.neg(), ha.neg()], seq![ga, c.neg()], seq![ha, c.neg()]]
            } else {
                seq![seq![c.neg(), ga, ha], seq![ga.neg(), c], seq![ha.neg(), c]]
            };
            assert(tseitin(f, n).1 == gc + hc + last);
            lemma_cnf_concat(gc + hc, last, t);
            lemma_cnf_concat(gc, hc, t);
            lemma_tseitin_forced(*g, n, t);
            lemma_vars_mono(*h, n, n1);
            lemma_tseitin_forced(*h, n1, t);
            let s1 = tseitin_extend(*g, n, t);
            lemma_extend_congruent(*h, n1, s1, t);
            lemma_cnf3(last[0], last[1], last[2], t);
            lemma_clause3(last[0][0], last[0][1], last[0][2], t);
            lemma_clause2(last[1][0], last[1][1], t);
            lemma_clause2(last[2][0], last[2][1], t);
            assert(last[0] == seq![last[0][0], last[0][1], last[0][2]]);
            assert(last[1] == seq![last[1][0], last[1][1]]);
            assert(last[2] == seq![last[2][0], last[2][1]]);
            assert(last == seq![last[0], last[1], last[2]]);
            assert(c.value(t) == eval(f, t));
            let s2 = tseitin_extend(*h, n1, s1);
            assert(agree_upto(t, s2, top - 1)) by {
                assert forall|x: int| x <= top - 1 implies #[trigger] t(x) == s2(x) by {
                    assert(t(x) == tseitin_extend(*h, n1, t)(x));
                }
            }
            assert(tseitin_extend(f, n, t) == update(s2, top, eval(f, t)));
        },
        _ => {},
    }
}

/// Tseitin's encoding is equisatisfiable with the matrix it encodes: an assignment of
/// the matrix's atoms, extended with the values that the defining clauses force on
/// the helper atoms, satisfies the clauses and the root unit clause exactly when it
/// satisfies the matrix; every assignment that satisfies them satisfies the matrix;
/// and in every such assignment the helpers hold exactly those forced values.
pub proof fn lemma_tseitin_equisatisfiable(f: Formula, n: int, s: spec_fn(int) -> bool)
    requires
        is_matrix(f),
        vars_at_most(f, n),
        0 <= n,
        n + connectives(f) <= u64::MAX,
    ensures
        agree_upto(tseitin_extend(f, n, s), s, n),
        cnf_holds(tseitin(f, n).1.push(seq![tseitin(f, n).0]), tseitin_extend(f, n, s)) == eval(f, s),
        forall|t: spec_fn(int) -> bool|
            cnf_holds(#[trigger] tseitin(f, n).1.push(seq![tseitin(f, n).0]), t) ==> eval(f, t),
        forall|t: spec_fn(int) -> bool|
            cnf_holds(#[trigger] tseitin(f, n).1.push(seq![tseitin(f, n).0]), t) ==> agree_upto(
                t,
                tseitin_extend(f, n, t),
                n + connectives(f),
            ),
{
    lemma_tseitin_extend(f, n, s);
    let (root, cls) = tseitin(f, n);
    let t = tseitin_extend(f, n, s);
    assert(cls.push(seq![root]) == cls + seq![seq![root]]);
    lemma_cnf_concat(cls, seq![seq![root]], t);
    let unit = seq![seq![root]];
    assert(unit[0] == seq![root]);
    assert(seq![root][0] == root);
    assert forall|u: spec_fn(int) -> bool|
        cnf_holds(#[trigger] tseitin(f, n).1.push(seq![tseitin(f, n).0]), u) implies eval(f, u) by {
        lemma_cnf_concat(cls, unit, u);
        assert(clause_holds(unit[0], u));
    }
    assert forall|u: spec_fn(int) -> bool|
        cnf_holds(#[trigger] tseitin(f, n).1.push(seq![tseitin(f, n).0]), u) implies agree_upto(
        u,
        tseitin_extend(f, n, u),
        n + connectives(f),
    ) by {
        lemma_cnf_concat(cls, unit, u);
        lemma_tseitin_forced(f, n, u);
    }
}


/// `2^k`.
pub open spec fn two_to(k: nat) -> nat
    decreases k,
{
    if k == 0 {
        1
    } else {
        2 * two_to((k - 1) as nat)
    }
}

pub proof fn lemma_two_to_pos(k: nat)
    ensures
        two_to(k) >= 1,
    decreases k,
{
    if k > 0 {
        lemma_two_to_pos((k - 1) as nat);
    }
}

/// Bit `i` of `v`.
pub open spec fn bit_of(v: int, i: nat) -> bool {
    (v / two_to(i) as int) % 2 == 1
}

/// The literal of `a` that is true when the bit is `b`.
pub open spec fn bit_lit(a: Atom, b: bool) -> Formula {
    if b {
        Formula::Atom(a)
    } else {
        Formula::Atom(a.neg())
    }
}

/// The `k` atoms handed out after `n`, in order.
pub open spec fn fresh_atoms(n: int, k: nat) -> Seq<Atom> {
    Seq::new(k, |i: int| var_atom(n + 1 + i))
}

/// The prefix entries that bind each atom of `atoms` with `q`, in order.
pub open spec fn quantified(q: Quantifier, atoms: Seq<Atom>) -> Seq<(Quantifier, Atom)> {
    atoms.map_values(|a: Atom| (q, a))
}

/// The conjunction, bit 0 first, of the literals saying that the first `k` bits equal
/// those of `v`.
pub open spec fn equal_upto(bits: Seq<Atom>, v: int, k: nat) -> Formula
    decreases k,
{
    if k <= 1 {
        bit_lit(bits[0], bit_of(v, 0))
    } else {
        let i = (k - 1) as nat;
        Formula::And(Box::new(equal_upto(bits, v, i)), Box::new(bit_lit(bits[i as int], bit_of(v, i))))
    }
}

/// The comparator saying that the first `k` bits encode a value at most `v mod 2^k`.
pub open spec fn le_upto(bits: Seq<Atom>, v: int, k: nat) -> Formula
    decreases k,
{
    if k <= 1 {
        if bit_of(v, 0) {
            Formula::Or(Box::new(Formula::Atom(bits[0])), Box::new(Formula::Atom(bits[0].neg())))
        } else {
            Formula::Atom(bits[0].neg())
        }
    } else {
        let i = (k - 1) as nat;
        let b = bits[i as int];
        if bit_of(v, i) {
            Formula::Or(
                Box::new(Formula::Atom(b.neg())),
                Box::new(Formula::And(Box::new(Formula::Atom(b)), Box::new(le_upto(bits, v, i)))),
            )
        } else {
            Formula::And(Box::new(Formula::Atom(b.neg())), Box::new(le_upto(bits, v, i)))
        }
    }
}

/// The comparator saying that the first `k` bits encode a value at least `v mod 2^k`.
pub open spec fn ge_upto(bits: Seq<Atom>, v: int, k: nat) -> Formula
    decreases k,
{
    if k <= 1 {
        if bit_of(v, 0) {
            Formula::Atom(bits[0])
        } else {
            Formula::Or(Box::new(Formula::Atom(bits[0])), Box::new(Formula::Atom(bits[0].neg())))
        }
    } else {
        let i = (k - 1) as nat;
        let b = bits[i as int];
        if bit_of(v, i) {
            Formula::And(Box::new(Formula::Atom(b)), Box::new(ge_upto(bits, v, i)))
        } else {
            Formula::Or(
                Box::new(Formula::Atom(b)),
                Box::new(Formula::And(Box::new(Formula::Atom(b.neg())), Box::new(ge_upto(bits, v, i)))),
            )
        }
    }
}

/// The unsigned value that the first `k` bits encode under `s`, bit 0 least significant.
pub open spec fn bits_value(bits: Seq<Atom>, s: spec_fn(int) -> bool, k: nat) -> nat
    decreases k,
{
    if k == 0 {
        0
    } else {
        let i = (k - 1) as nat;
        bits_value(bits, s, i) + if bits[i as int].value(s) {
            two_to(i)
        } else {
            0
        }
    }
}

/// Wraps `f` in the quantifier `q` over each atom of `atoms`, the first outermost.
pub fn wrap_atoms(atoms: &Vec<Atom>, q: Quantifier, f: Formula) -> (r: Formula)
    ensures
        r == wrap_prefix(quantified(q, atoms@), f),
{
    let mut ret = f;
    let mut i: usize = atoms.len();
    let ghost all = quantified(q, atoms@);
    assert(all.subrange(i as int, all.len() as int) =~= seq![]);
    while i > 0
        invariant
            i <= atoms@.len(),
            all == quantified(q, atoms@),
            ret == wrap_prefix(all.subrange(i as int, all.len() as int), f),
        decreases i,
    {
        i = i - 1;
        let a = atoms[i];
        assert(all.subrange(i as int, all.len() as int).drop_first() =~= all.subrange(
            i as int + 1,
            all.len() as int,
        ));
        ret = match q {
            Quantifier::Exists => a.wrap_exists(ret),
            Quantifier::Forall => a.wrap_forall(ret),
        };
    }
    assert(all.subrange(0, all.len() as int) =~= all);
    ret
}

/// A fixed-width vector of atoms standing for an unsigned integer, bit 0 first.
pub struct BitVector {
    pub bits: Vec<Atom>,
}

impl BitVector {
    /// A vector of `size` fresh atoms.
    pub fn new(size: usize, c: &mut AtomCounter) -> (r: BitVector)
        requires
            size > 0,
            old(c).last + size <= u64::MAX,
        ensures
            final(c).last == old(c).last + size,
            r.bits@ == fresh_atoms(old(c).last as int, size as nat),
    {
        let mut bits: Vec<Atom> = Vec::new();
        let mut i: usize = 0;
        while i < size
            invariant
                i <= size,
                c.last == old(c).last + i,
                old(c).last + size <= u64::MAX,
                bits@ == fresh_atoms(old(c).last as int, i as nat),
            decreases size - i,
        {
            let a = atom(c);
            bits.push(a);
            i = i + 1;
            assert(bits@ =~= fresh_atoms(old(c).last as int, i as nat));
        }
        BitVector { bits }
    }

    /// `f` under an existential over every bit, bit 0 outermost.
    pub fn wrap_exists(&self, f: Formula) -> (r: Formula)
        ensures
            r == wrap_prefix(quantified(Quantifier::Exists, self.bits@), f),
    {
        wrap_atoms(&self.bits, Quantifier::Exists, f)
    }

    /// `f` under a universal over every bit, bit 0 outermost.
    pub fn wrap_forall(&self, f: Formula) -> (r: Formula)
        ensures
            r == wrap_prefix(quantified(Quantifier::Forall, self.bits@), f),
    {
        wrap_atoms(&self.bits, Quantifier::Forall, f)
    }

    /// The conjunction saying that the vector holds `val`.
    pub fn equal(&self, val: u64) -> (r: Formula)
        requires
            self.bits@.len() > 0,
            val < two_to(self.bits@.len()),
        ensures
            r == equal_upto(self.bits@, val as int, self.bits@.len()),
    {
        let n = self.bits.len();
        proof {
            lemma_two_to_pos(0);
        }
        let mut rest: u64 = val;
        let mut form = if rest % 2 == 1 {
            self.bits[0].lit()
        } else {
            self.bits[0].not()
        };
        proof {
            lemma_div_denominator(val as int, 1, 2);
        }
        rest = rest / 2;
        let mut i: usize = 1;
        while i < n
            invariant
                1 <= i <= n,
                n == self.bits@.len(),
                rest == val as int / two_to(i as nat) as int,
                form == equal_upto(self.bits@, val as int, i as nat),
            decreases n - i,
        {
            let b = self.bits[i];
            let lit = if rest % 2 == 1 {
                b.lit()
            } else {
                b.not()
            };
            form = form.and(lit);
            proof {
                lemma_two_to_pos(i as nat);
                lemma_div_denominator(val as int, two_to(i as nat) as int, 2);
                assert(two_to(i as nat) * 2 == two_to((i + 1) as nat));
            }
            rest = rest / 2;
            i = i + 1;
        }
        form
    }

    /// The comparator saying that the vector holds a value at most `val`.
    pub fn le(&self, val: u64) -> (r: Formula)
        requires
            self.bits@.len() > 0,
            val < two_to(self.bits@.len()),
        ensures
            r == le_upto(self.bits@, val as int, self.bits@.len()),
    {
        let n = self.bits.len();
        proof {
            lemma_two_to_pos(0);
        }
        let mut rest: u64 = val;
        let b0 = self.bits[0];
        let mut form = if rest % 2 == 1 {
            b0.lit().or(b0.not())
        } else {
            b0.not()
        };
        proof {
            lemma_div_denominator(val as int, 1, 2);
        }
        rest = rest / 2;
        let mut i: usize = 1;
        while i < n
            invariant
                1 <= i <= n,
                n == self.bits@.len(),
                rest == val as int / two_to(i as nat) as int,
                form == le_upto(self.bits@, val as int, i as nat),
            decreases n - i,
        {
            let b = self.bits[i];
            form = if rest % 2 == 1 {
                b.not().or(b.lit().and(form))
            } else {
                b.not().and(form)
            };
            proof {
                lemma_two_to_pos(i as nat);
                lemma_div_denominator(val as int, two_to(i as nat) as int, 2);
                assert(two_to(i as nat) * 2 == two_to((i + 1) as nat));
            }
            rest = rest / 2;
            i = i + 1;
        }
        form
    }

    /// The comparator saying that the vector holds a value at least `val`.
    pub fn ge(&self, val: u64) -> (r: Formula)
        requires
            self.bits@.len() > 0,
            val < two_to(self.bits@.len()),
        ensures
            r == ge_upto(self.bits@, val as int, self.bits@.len()),
    {
        let n = self.bits.len();
        proof {
            lemma_two_to_pos(0);
        }
        let mut rest: u64 = val;
        let b0 = self.bits[0];
        let mut form = if rest % 2 == 1 {
            b0.lit()
        } else {
            b0.lit().or(b0.not())
        };
        proof {
            lemma_div_denominator(val as int, 1, 2);
        }
        rest = rest / 2;
        let mut i: usize = 1;
        while i < n
            invariant
                1 <= i <= n,
                n == self.bits@.len(),
                rest == val as int / two_to(i as nat) as int,
                form == ge_upto(self.bits@, val as int, i as nat),
            decreases n - i,
        {
            let b = self.bits[i];
            form = if rest % 2 == 1 {
                b.lit().and(form)
            } else {
                b.lit().or(b.not().and(form))
            };
            proof {
                lemma_two_to_pos(i as nat);
                lemma_div_denominator(val as int, two_to(i as nat) as int, 2);
                assert(two_to(i as nat) * 2 == two_to((i + 1) as nat));
            }
            rest = rest / 2;
            i = i + 1;
        }
        form
    }
}


proof fn lemma_bits_value_bound(bits: Seq<Atom>, s: spec_fn(int) -> bool, k: nat)
    ensures
        bits_value(bits, s, k) < two_to(k),
    decreases k,
{
    if k > 0 {
        lemma_bits_value_bound(bits, s, (k - 1) as nat);
    }
}

proof fn lemma_mod_step(v: int, k: nat)
    requires
        0 <= v,
    ensures
        v % two_to(k + 1) as int == v % two_to(k) as int + if bit_of(v, k) {
            two_to(k) as int
        } else {
            0
        },
        0 <= v % (two_to(k) as int) < two_to(k),
{
    lemma_two_to_pos(k);
    let p = two_to(k) as int;
    lemma_mod_breakdown(v, p, 2);
    assert(p * 2 == two_to(k + 1));
    assert((v / p) % 2 == 0 || (v / p) % 2 == 1);
    if bit_of(v, k) {
        assert(p * ((v / p) % 2) == p);
    } else {
        assert(p * ((v / p) % 2) == 0);
    }
}

proof fn lemma_equal_upto(bits: Seq<Atom>, v: int, s: spec_fn(int) -> bool, k: nat)
    requires
        1 <= k <= bits.len(),
        0 <= v,
    ensures
        eval(equal_upto(bits, v, k), s) <==> (forall|i: int|
            0 <= i < k ==> #[trigger] bits[i].value(s) == bit_of(v, i as nat)),
        eval(equal_upto(bits, v, k), s) <==> bits_value(bits, s, k) == v % two_to(k) as int,
    decreases k,
{
    reveal_with_fuel(eval, 3);
    lemma_mod_step(v, (k - 1) as nat);
    lemma_bits_value_bound(bits, s, (k - 1) as nat);
    if k == 1 {
        assert(bits_value(bits, s, 0) == 0);
        assert(eval(equal_upto(bits, v, k), s) == (bits[0].value(s) == bit_of(v, 0)));
        assert(two_to(0) == 1);
        assert(v % 1 == 0);
        assert(bits_value(bits, s, 0) == 0);
    } else {
        let i = (k - 1) as nat;
        lemma_equal_upto(bits, v, s, i);
        if eval(equal_upto(bits, v, k), s) {
            assert forall|j: int| 0 <= j < k implies #[trigger] bits[j].value(s) == bit_of(v, j as nat) by {
                if j < i {
                    assert(bits[j].value(s) == bit_of(v, j as nat));
                }
            }
        }
        if forall|j: int| 0 <= j < k ==> #[trigger] bits[j].value(s) == bit_of(v, j as nat) {
            assert(bits[i as int].value(s) == bit_of(v, i));
            assert forall|j: int| 0 <= j < i implies #[trigger] bits[j].value(s) == bit_of(v, j as nat) by {
                assert(bits[j].value(s) == bit_of(v, j as nat));
            }
        }
    }
}

proof fn lemma_le_upto(bits: Seq<Atom>, v: int, s: spec_fn(int) -> bool, k: nat)
    requires
        1 <= k <= bits.len(),
        0 <= v,
    ensures
        eval(le_upto(bits, v, k), s) <==> bits_value(bits, s, k) <= v % two_to(k) as int,
        eval(ge_upto(bits, v, k), s) <==> bits_value(bits, s, k) >= v % two_to(k) as int,
    decreases k,
{
    reveal_with_fuel(eval, 4);
    lemma_mod_step(v, (k - 1) as nat);
    lemma_bits_value_bound(bits, s, (k - 1) as nat);
    if k == 1 {
        assert(two_to(0) == 1);
        assert(v % 1 == 0);
        assert(bits_value(bits, s, 0) == 0);
    } else {
        lemma_le_upto(bits, v, s, (k - 1) as nat);
    }
}

/// A bit vector's equality formula is satisfied exactly by the binary encoding of the
/// value, and its comparators exactly by the encodings of the values at most (at
/// least) the bound.
pub proof fn lemma_bitvector_exact(bits: Seq<Atom>, v: int, s: spec_fn(int) -> bool)
    requires
        bits.len() > 0,
        0 <= v < two_to(bits.len()),
    ensures
        eval(equal_upto(bits, v, bits.len()), s) <==> (forall|i: int|
            0 <= i < bits.len() ==> #[trigger] bits[i].value(s) == bit_of(v, i as nat)),
        eval(equal_upto(bits, v, bits.len()), s) <==> bits_value(bits, s, bits.len()) == v,
        eval(le_upto(bits, v, bits.len()), s) <==> bits_value(bits, s, bits.len()) <= v,
        eval(ge_upto(bits, v, bits.len()), s) <==> bits_value(bits, s, bits.len()) >= v,
{
    lemma_small_mod(v as nat, two_to(bits.len()));
    lemma_equal_upto(bits, v, s, bits.len());
    lemma_le_upto(bits, v, s, bits.len());
}


/// The quantifiers in front of a prenex formula are its prefix, and what stands under
/// them its matrix.
pub proof fn lemma_leading_of_prenex(p: Seq<(Quantifier, Atom)>, m: Formula)
    requires
        is_matrix(m),
    ensures
        leading_prefix(wrap_prefix(p, m)) == p,
        leading_body(wrap_prefix(p, m)) == m,
    decreases p.len(),
{
    if p.len() == 0 {
        assert(leading_prefix(m) =~= p);
    } else {
        lemma_leading_of_prenex(p.drop_first(), m);
        assert(p =~= seq![p[0]] + p.drop_first());
    }
}

impl Formula {
    /// The number of `And` and `Or` nodes under the quantifiers in front, or `u64::MAX`
    /// when there are more.
    pub fn matrix_connectives(&self) -> (r: u64)
        ensures
            r == if connectives(leading_body(*self)) <= u64::MAX {
                connectives(leading_body(*self))
            } else {
                u64::MAX as nat
            },
        decreases self,
    {
        match self {
            Formula::Exists(_, g) | Formula::Forall(_, g) => g.matrix_connectives(),
            _ => {
                assert(leading_body(*self) == *self);
                self.count_connectives()
            },
        }
    }

    fn count_connectives(&self) -> (r: u64)
        ensures
            r == if connectives(*self) <= u64::MAX {
                connectives(*self)
            } else {
                u64::MAX as nat
            },
        decreases self,
    {
        match self {
            Formula::And(g, h) | Formula::Or(g, h) => {
                let a = g.count_connectives();
                let b = h.count_connectives();
                a.saturating_add(b).saturating_add(1)
            },
            _ => 0,
        }
    }
}

} // verus!
