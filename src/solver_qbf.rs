use crate::bddl::{actions_wf, Action, Condition, Domain, E, InitPred, Pred, Problem, Size, SubCondition};
use crate::dimacs::{atoms_of, qdimacs, qdimacs_text};
use crate::qbf::{
    clauses_view, cnf_clauses, cnf_prefix, connectives, leading_body, matrix_of, nnf, prefix_of,
    var_atom, atom, atom_equal, equal_upto, fresh_atoms, ge_upto, if_then_else, implication, le_upto, quantified,
    two_to, wrap_prefix, Atom, AtomCounter, BitVector, Formula, Quantifier, lemma_two_to_pos,
};
use vstd::arithmetic::div_mod::lemma_fundamental_div_mod_converse;
use vstd::prelude::*;

verus! {

/// `true`, as the fixed atom `t`.
pub open spec fn lit_true(t: Atom) -> Formula {
    Formula::Atom(t)
}

/// `false`, as the negation of the fixed atom `t`.
pub open spec fn lit_false(t: Atom) -> Formula {
    Formula::Atom(t.neg())
}

/// The (open, black) flag pair of a cell state, as literals of the true atom `t`.
pub open spec fn pred_atoms(t: Atom, p: Pred) -> (Atom, Atom) {
    match p {
        Pred::Open => (t, t.neg()),
        Pred::White => (t.neg(), t.neg()),
        Pred::Black => (t.neg(), t),
    }
}

/// The number of bits that hold the values below `n`: `ceil(log2 n)`, at least 1.
pub open spec fn width(n: nat) -> nat
    decreases n,
{
    if n <= 2 {
        1
    } else {
        width(((n + 1) / 2) as nat) + 1
    }
}

pub proof fn lemma_width_fits(n: nat)
    ensures
        n <= two_to(width(n)),
        1 <= width(n),
        width(n) <= n || n <= 1,
    decreases n,
{
    if n > 2 {
        lemma_width_fits(((n + 1) / 2) as nat);
        lemma_two_to_pos(width(((n + 1) / 2) as nat));
    } else {
        assert(two_to(1) == 2) by {
            assert(two_to(0) == 1);
        }
    }
}

/// The number of bits for values below `n`.
pub fn width_of(n: u64) -> (r: u64)
    ensures
        r == width(n as nat),
        1 <= r,
        r <= n || n <= 1,
        n <= two_to(r as nat),
    decreases n,
{
    proof {
        lemma_width_fits(n as nat);
    }
    if n <= 2 {
        1
    } else {
        width_of(n / 2 + n % 2) + 1
    }
}

/// Conjunction of `s`, folded from the left; `default` when `s` is empty.
pub open spec fn conj(s: Seq<Formula>, default: Formula) -> Formula
    decreases s.len(),
{
    if s.len() == 0 {
        default
    } else if s.len() == 1 {
        s[0]
    } else {
        Formula::And(Box::new(conj(s.drop_last(), default)), Box::new(s.last()))
    }
}

/// Disjunction of `s`, folded from the left; `default` when `s` is empty.
pub open spec fn disj(s: Seq<Formula>, default: Formula) -> Formula
    decreases s.len(),
{
    if s.len() == 0 {
        default
    } else if s.len() == 1 {
        s[0]
    } else {
        Formula::Or(Box::new(disj(s.drop_last(), default)), Box::new(s.last()))
    }
}

/// What a compilation needs at every step: the true atom and the board extents.
#[derive(Debug, Clone, Copy)]
pub struct Context {
    pub truth: Atom,
    pub sx: u64,
    pub sy: u64,
}

/// The bounds check of a coordinate expression on the symbolic anchor `v`: the anchor
/// is on the board, and so is the coordinate an offset gives.
pub open spec fn bounds_check(t: Atom, e: E, v: Seq<Atom>, max: int) -> Formula {
    let w = v.len();
    let base = Formula::And(Box::new(ge_upto(v, 0, w)), Box::new(le_upto(v, max - 1, w)));
    let extra = match e {
        E::Add(i) => if i >= max {
            lit_false(t)
        } else {
            le_upto(v, max - i - 1, w)
        },
        E::Sub(i) => if i >= max {
            lit_false(t)
        } else {
            ge_upto(v, i as int, w)
        },
        _ => lit_true(t),
    };
    Formula::And(Box::new(base), Box::new(extra))
}

/// The formula saying that `e` applied to the anchor `v` gives `target`.
pub open spec fn e_bv_eq(t: Atom, e: E, v: Seq<Atom>, target: int, max: int) -> Formula {
    let w = v.len();
    match e {
        E::Add(i) => if i > target {
            lit_false(t)
        } else {
            equal_upto(v, target - i, w)
        },
        E::Sub(i) => if i + target >= max {
            lit_false(t)
        } else {
            equal_upto(v, target + i, w)
        },
        E::Int(i) => if i == target {
            lit_true(t)
        } else {
            lit_false(t)
        },
        E::Identity => equal_upto(v, target, w),
        E::Min => if target == 0 {
            lit_true(t)
        } else {
            lit_false(t)
        },
        E::Max => if max == target + 1 {
            lit_true(t)
        } else {
            lit_false(t)
        },
    }
}

/// A vector of atoms is an anchor for extent `max`: wide enough for every coordinate.
pub open spec fn anchor_ok(v: Seq<Atom>, max: int) -> bool {
    v.len() >= 1 && max <= two_to(v.len())
}

impl Context {
    /// The flag pair of a cell state.
    pub fn pred_to_atoms(&self, pred: Pred) -> (r: (Atom, Atom))
        ensures
            r == pred_atoms(self.truth, pred),
    {
        match pred {
            Pred::Open => (self.truth, self.truth.invert()),
            Pred::White => (self.truth.invert(), self.truth.invert()),
            Pred::Black => (self.truth.invert(), self.truth),
        }
    }

    fn yes(&self) -> (r: Formula)
        ensures
            r == lit_true(self.truth),
    {
        self.truth.lit()
    }

    fn no(&self) -> (r: Formula)
        ensures
            r == lit_false(self.truth),
    {
        self.truth.not()
    }

    /// The bounds check of `e` on the anchor `v`, for the extent `max`.
    pub fn gen_bounds_check(&self, e: &E, v: &BitVector, max: u64) -> (r: Formula)
        requires
            e.wf(),
            1 <= max,
            anchor_ok(v.bits@, max as int),
        ensures
            r == bounds_check(self.truth, *e, v.bits@, max as int),
    {
        proof {
            lemma_two_to_pos(v.bits@.len());
        }
        let base = v.ge(0).and(v.le(max - 1));
        let extra = match e {
            E::Add(i) => if *i as u64 >= max {
                self.no()
            } else {
                v.le(max - *i as u64 - 1)
            },
            E::Sub(i) => if *i as u64 >= max {
                self.no()
            } else {
                v.ge(*i as u64)
            },
            _ => self.yes(),
        };
        base.and(extra)
    }

    /// The formula saying that `e` applied to the anchor `v` gives `target`.
    pub fn gen_e_bv_eq(&self, e: &E, v: &BitVector, target: u64, max: u64) -> (r: Formula)
        requires
            e.wf(),
            target < max,
            anchor_ok(v.bits@, max as int),
        ensures
            r == e_bv_eq(self.truth, *e, v.bits@, target as int, max as int),
    {
        match e {
            E::Add(i) => if *i as u64 > target {
                self.no()
            } else {
                v.equal(target - *i as u64)
            },
            E::Sub(i) => if *i as u64 >= max - target {
                self.no()
            } else {
                v.equal(target + *i as u64)
            },
            E::Int(i) => if *i >= 0 && *i as u64 == target {
                self.yes()
            } else {
                self.no()
            },
            E::Identity => v.equal(target),
            E::Min => if target == 0 {
                self.yes()
            } else {
                self.no()
            },
            E::Max => if max == target + 1 {
                self.yes()
            } else {
                self.no()
            },
        }
    }
}


/// The formula saying that the flag pair `cell` encodes the state `p`.
pub open spec fn cell_is(t: Atom, cell: (Atom, Atom), p: Pred) -> Formula {
    let (o, b) = pred_atoms(t, p);
    Formula::And(Box::new(atom_equal(o, cell.0)), Box::new(atom_equal(b, cell.1)))
}

/// The formula saying that two flag pairs are equal.
pub open spec fn pair_eq(a: (Atom, Atom), b: (Atom, Atom)) -> Formula {
    Formula::And(Box::new(atom_equal(a.0, b.0)), Box::new(atom_equal(a.1, b.1)))
}

/// The point query: for every cell of the board, row-major, if the expressions applied
/// to the anchors give that cell, the cell holds `pred`.
pub open spec fn point_query(
    ctx: Context,
    board: Seq<(Atom, Atom)>,
    x: Seq<Atom>,
    x_e: E,
    y: Seq<Atom>,
    y_e: E,
    pred: Pred,
) -> Formula {
    let t = ctx.truth;
    conj(
        Seq::new(
            board.len(),
            |c: int|
                implication(
                    Formula::And(
                        Box::new(e_bv_eq(t, x_e, x, c / ctx.sy as int, ctx.sx as int)),
                        Box::new(e_bv_eq(t, y_e, y, c % ctx.sy as int, ctx.sy as int)),
                    ),
                    cell_is(t, board[c], pred),
                ),
        ),
        lit_true(t),
    )
}

/// A sub-condition at the symbolic anchor `(x, y)`: both bounds checks, and the point
/// query or its negation.
pub open spec fn sub_condition_at(
    ctx: Context,
    board: Seq<(Atom, Atom)>,
    sc: SubCondition,
    x: Seq<Atom>,
    y: Seq<Atom>,
) -> Formula {
    let t = ctx.truth;
    let bounds = Formula::And(
        Box::new(bounds_check(t, sc.x_e(), x, ctx.sx as int)),
        Box::new(bounds_check(t, sc.y_e(), y, ctx.sy as int)),
    );
    let q = point_query(ctx, board, x, sc.x_e(), y, sc.y_e(), sc.pred());
    match sc {
        SubCondition::Id { .. } => Formula::And(Box::new(bounds), Box::new(q)),
        SubCondition::Not { .. } => Formula::And(Box::new(bounds), Box::new(Formula::Not(Box::new(q)))),
    }
}

/// A condition at the symbolic anchor `(x, y)`: the conjunction of its sub-conditions,
/// `true` when it has none.
pub open spec fn condition_at(
    ctx: Context,
    board: Seq<(Atom, Atom)>,
    cond: Seq<SubCondition>,
    x: Seq<Atom>,
    y: Seq<Atom>,
) -> Formula {
    conj(cond.map_values(|sc: SubCondition| sub_condition_at(ctx, board, sc, x, y)), lit_true(ctx.truth))
}

/// The board is as large as the context says, and its extents fit the machine.
pub open spec fn board_ok(ctx: Context, board: Seq<(Atom, Atom)>) -> bool {
    &&& ctx.sx >= 1
    &&& ctx.sy >= 1
    &&& board.len() == ctx.sx * ctx.sy
    &&& 1 <= board.len() <= usize::MAX
}

proof fn lemma_conj_take(s: Seq<Formula>, i: int, d: Formula)
    requires
        1 <= i < s.len(),
    ensures
        conj(s.take(i + 1), d) == Formula::And(Box::new(conj(s.take(i), d)), Box::new(s[i])),
        disj(s.take(i + 1), d) == Formula::Or(Box::new(disj(s.take(i), d)), Box::new(s[i])),
{
    assert(s.take(i + 1).drop_last() =~= s.take(i));
}

proof fn lemma_conj_first(s: Seq<Formula>, d: Formula)
    requires
        1 <= s.len(),
    ensures
        conj(s.take(1), d) == s[0],
        disj(s.take(1), d) == s[0],
        s.take(s.len() as int) == s,
{
    assert(s.take(s.len() as int) =~= s);
}

/// The cells of a board, each a pair of atoms (open flag, black flag), row-major.
pub struct SymbolicBoard {
    pub symbols: Vec<(Atom, Atom)>,
}

impl SymbolicBoard {
    /// The point query of `pred` at the cell that the expressions pick from the anchor.
    pub fn gen_pred(
        &self,
        ctx: &Context,
        x: &BitVector,
        x_e: &E,
        y: &BitVector,
        y_e: &E,
        pred: Pred,
    ) -> (r: Formula)
        requires
            board_ok(*ctx, self.symbols@),
            x_e.wf(),
            y_e.wf(),
            anchor_ok(x.bits@, ctx.sx as int),
            anchor_ok(y.bits@, ctx.sy as int),
        ensures
            r == point_query(*ctx, self.symbols@, x.bits@, *x_e, y.bits@, *y_e, pred),
    {
        let ghost t = ctx.truth;
        let ghost items = Seq::new(
            self.symbols@.len(),
            |c: int|
                implication(
                    Formula::And(
                        Box::new(e_bv_eq(t, *x_e, x.bits@, c / ctx.sy as int, ctx.sx as int)),
                        Box::new(e_bv_eq(t, *y_e, y.bits@, c % ctx.sy as int, ctx.sy as int)),
                    ),
                    cell_is(t, self.symbols@[c], pred),
                ),
        );
        let (o, b) = ctx.pred_to_atoms(pred);
        let mut acc: Option<Formula> = None;
        let n = self.symbols.len();
        let mut c: usize = 0;
        while c < n
            invariant
                c <= n,
                n == self.symbols@.len(),
                board_ok(*ctx, self.symbols@),
                x_e.wf(),
                y_e.wf(),
                anchor_ok(x.bits@, ctx.sx as int),
                anchor_ok(y.bits@, ctx.sy as int),
                items.len() == n,
                (o, b) == pred_atoms(t, pred),
                t == ctx.truth,
                items == Seq::new(
                    self.symbols@.len(),
                    |c: int|
                        implication(
                            Formula::And(
                                Box::new(e_bv_eq(t, *x_e, x.bits@, c / ctx.sy as int, ctx.sx as int)),
                                Box::new(e_bv_eq(t, *y_e, y.bits@, c % ctx.sy as int, ctx.sy as int)),
                            ),
                            cell_is(t, self.symbols@[c], pred),
                        ),
                ),
                c == 0 ==> acc is None,
                c > 0 ==> acc == Some(conj(items.take(c as int), lit_true(t))),
            decreases n - c,
        {
            let xi = (c as u64) / ctx.sy;
            let yi = (c as u64) % ctx.sy;
            proof {
                assert(c < ctx.sx * ctx.sy);
                assert(xi < ctx.sx) by (nonlinear_arith)
                    requires
                        xi == (c as u64) / ctx.sy,
                        c < ctx.sx * ctx.sy,
                        ctx.sy >= 1,
                ;
            }
            let cell = self.symbols[c];
            let here = ctx.gen_e_bv_eq(x_e, x, xi, ctx.sx).and(ctx.gen_e_bv_eq(y_e, y, yi, ctx.sy));
            let f = here.implies(o.equal(cell.0).and(b.equal(cell.1)));
            assert(f == items[c as int]);
            acc = match acc {
                None => Some(f),
                Some(a) => Some(a.and(f)),
            };
            proof {
                if c == 0 {
                    lemma_conj_first(items, lit_true(t));
                } else {
                    lemma_conj_take(items, c as int, lit_true(t));
                }
            }
            c = c + 1;
        }
        proof {
            lemma_conj_first(items, lit_true(t));
        }
        match acc {
            Some(a) => a,
            None => ctx.yes(),
        }
    }
}

impl Context {
    /// A sub-condition at the symbolic anchor `(x, y)`.
    pub fn gen_subcondition(
        &self,
        board: &SymbolicBoard,
        sub_condition: SubCondition,
        x: &BitVector,
        y: &BitVector,
    ) -> (r: Formula)
        requires
            board_ok(*self, board.symbols@),
            sub_condition.wf(),
            anchor_ok(x.bits@, self.sx as int),
            anchor_ok(y.bits@, self.sy as int),
        ensures
            r == sub_condition_at(*self, board.symbols@, sub_condition, x.bits@, y.bits@),
    {
        match sub_condition {
            SubCondition::Id { pred, x_e, y_e } => {
                let x_bound = self.gen_bounds_check(&x_e, x, self.sx);
                let y_bound = self.gen_bounds_check(&y_e, y, self.sy);
                let pred_assert = board.gen_pred(self, x, &x_e, y, &y_e, pred);
                x_bound.and(y_bound).and(pred_assert)
            },
            SubCondition::Not { pred, x_e, y_e } => {
                let x_bound = self.gen_bounds_check(&x_e, x, self.sx);
                let y_bound = self.gen_bounds_check(&y_e, y, self.sy);
                let pred_assert = board.gen_pred(self, x, &x_e, y, &y_e, pred);
                x_bound.and(y_bound).and(pred_assert.not())
            },
        }
    }

    /// A condition at the symbolic anchor `(x, y)`; `true` when it is empty.
    pub fn gen_condition(&self, board: &SymbolicBoard, condition: &Condition, x: &BitVector, y: &BitVector) -> (r:
        Formula)
        requires
            board_ok(*self, board.symbols@),
            condition.wf(),
            anchor_ok(x.bits@, self.sx as int),
            anchor_ok(y.bits@, self.sy as int),
        ensures
            r == condition_at(*self, board.symbols@, condition.sub_cond@, x.bits@, y.bits@),
    {
        let ghost items = condition.sub_cond@.map_values(
            |sc: SubCondition| sub_condition_at(*self, board.symbols@, sc, x.bits@, y.bits@),
        );
        let mut acc: Option<Formula> = None;
        let n = condition.sub_cond.len();
        let mut i: usize = 0;
        while i < n
            invariant
                i <= n,
                n == condition.sub_cond@.len(),
                items.len() == n,
                board_ok(*self, board.symbols@),
                condition.wf(),
                anchor_ok(x.bits@, self.sx as int),
                anchor_ok(y.bits@, self.sy as int),
                items == condition.sub_cond@.map_values(
                    |sc: SubCondition| sub_condition_at(*self, board.symbols@, sc, x.bits@, y.bits@),
                ),
                i == 0 ==> acc is None,
                i > 0 ==> acc == Some(conj(items.take(i as int), lit_true(self.truth))),
            decreases n - i,
        {
            let sc = condition.sub_cond[i];
            assert(condition.sub_cond@[i as int].wf());
            let f = self.gen_subcondition(board, sc, x, y);
            acc = match acc {
                None => Some(f),
                Some(a) => Some(a.and(f)),
            };
            proof {
                if i == 0 {
                    lemma_conj_first(items, lit_true(self.truth));
                } else {
                    lemma_conj_take(items, i as int, lit_true(self.truth));
                }
            }
            i = i + 1;
        }
        if n > 0 {
            proof {
                lemma_conj_first(items, lit_true(self.truth));
            }
        }
        match acc {
            Some(a) => a,
            None => self.yes(),
        }
    }
}


/// The cell coordinate that `e` picks from the concrete anchor `v`, when it is on the
/// board.
pub open spec fn cell_coord(e: E, v: int, max: int) -> Option<int> {
    match e.normalized(v, max) {
        Some(t) => if 0 <= t < max {
            Some(t)
        } else {
            None
        },
        None => None,
    }
}

fn target_cell(e: &E, v: u64, max: u64) -> (r: Option<u64>)
    ensures
        r.is_some() == cell_coord(*e, v as int, max as int).is_some(),
        r.is_some() ==> r.unwrap() as int == cell_coord(*e, v as int, max as int).unwrap(),
{
    let t: Option<i128> = match e {
        E::Add(u) => {
            let s = v as i128 + *u as i128;
            if s < max as i128 {
                Some(s)
            } else {
                None
            }
        },
        E::Sub(u) => {
            let s = v as i128 - *u as i128;
            if s >= 0 {
                Some(s)
            } else {
                None
            }
        },
        E::Int(u) => Some(*u as i128),
        E::Identity => Some(v as i128),
        E::Min => Some(0),
        E::Max => Some(max as i128 - 1),
    };
    match t {
        Some(t) => if 0 <= t && t < max as i128 {
            Some(t as u64)
        } else {
            None
        },
        None => None,
    }
}

/// A sub-condition at the concrete anchor `(xi, yi)`: `false` when a coordinate falls
/// off the board, else the cell's state claim or its negation.
pub open spec fn sub_condition_on(
    ctx: Context,
    board: Seq<(Atom, Atom)>,
    sc: SubCondition,
    xi: int,
    yi: int,
) -> Formula {
    let t = ctx.truth;
    match (cell_coord(sc.x_e(), xi, ctx.sx as int), cell_coord(sc.y_e(), yi, ctx.sy as int)) {
        (Some(tx), Some(ty)) => {
            let q = cell_is(t, board[tx * ctx.sy + ty], sc.pred());
            match sc {
                SubCondition::Id { .. } => q,
                SubCondition::Not { .. } => Formula::Not(Box::new(q)),
            }
        },
        _ => lit_false(t),
    }
}

/// A condition at the concrete anchor `(xi, yi)`; `true` when it is empty.
pub open spec fn condition_on(
    ctx: Context,
    board: Seq<(Atom, Atom)>,
    cond: Seq<SubCondition>,
    xi: int,
    yi: int,
) -> Formula {
    conj(cond.map_values(|sc: SubCondition| sub_condition_on(ctx, board, sc, xi, yi)), lit_true(ctx.truth))
}

/// The disjunction, over every cell (row-major) and every goal condition, of the
/// condition anchored there; `false` when there are no goals.
#[verifier::opaque]
pub open spec fn goals_on(ctx: Context, board: Seq<(Atom, Atom)>, gs: Seq<Condition>) -> Formula {
    let ng = gs.len() as int;
    disj(
        Seq::new(
            (board.len() * ng) as nat,
            |k: int|
                condition_on(
                    ctx,
                    board,
                    gs[k % ng].sub_cond@,
                    (k / ng) / ctx.sy as int,
                    (k / ng) % ctx.sy as int,
                ),
        ),
        lit_false(ctx.truth),
    )
}

impl Context {
    /// A condition at the concrete anchor `(xi, yi)`; `true` when it is empty.
    pub fn gen_condition_on(&self, board: &SymbolicBoard, condition: &Condition, xi: u64, yi: u64) -> (r:
        Formula)
        requires
            board_ok(*self, board.symbols@),
        ensures
            r == condition_on(*self, board.symbols@, condition.sub_cond@, xi as int, yi as int),
    {
        let ghost items = condition.sub_cond@.map_values(
            |sc: SubCondition| sub_condition_on(*self, board.symbols@, sc, xi as int, yi as int),
        );
        let mut acc: Option<Formula> = None;
        let n = condition.sub_cond.len();
        let mut i: usize = 0;
        while i < n
            invariant
                i <= n,
                n == condition.sub_cond@.len(),
                items.len() == n,
                board_ok(*self, board.symbols@),
                items == condition.sub_cond@.map_values(
                    |sc: SubCondition| sub_condition_on(*self, board.symbols@, sc, xi as int, yi as int),
                ),
                i == 0 ==> acc is None,
                i > 0 ==> acc == Some(conj(items.take(i as int), lit_true(self.truth))),
            decreases n - i,
        {
            let sc = condition.sub_cond[i];
            let (pred, x_e, y_e, positive) = match sc {
                SubCondition::Id { pred, x_e, y_e } => (pred, x_e, y_e, true),
                SubCondition::Not { pred, x_e, y_e } => (pred, x_e, y_e, false),
            };
            let f = match (target_cell(&x_e, xi, self.sx), target_cell(&y_e, yi, self.sy)) {
                (Some(tx), Some(ty)) => {
                    proof {
                        assert(tx * self.sy + ty < self.sx * self.sy) by (nonlinear_arith)
                            requires
                                tx < self.sx,
                                ty < self.sy,
                        ;
                    }
                    let cell = board.symbols[(tx * self.sy + ty) as usize];
                    let (o, b) = self.pred_to_atoms(pred);
                    let q = o.equal(cell.0).and(b.equal(cell.1));
                    if positive {
                        q
                    } else {
                        q.not()
                    }
                },
                _ => self.no(),
            };
            assert(f == items[i as int]);
            acc = match acc {
                None => Some(f),
                Some(a) => Some(a.and(f)),
            };
            proof {
                if i == 0 {
                    lemma_conj_first(items, lit_true(self.truth));
                } else {
                    lemma_conj_take(items, i as int, lit_true(self.truth));
                }
            }
            i = i + 1;
        }
        if n > 0 {
            proof {
                lemma_conj_first(items, lit_true(self.truth));
            }
        }
        match acc {
            Some(a) => a,
            None => self.yes(),
        }
    }

    /// Some goal condition holds anchored at some cell of `board`.
    pub fn gen_goals(&self, board: &SymbolicBoard, goals: &Vec<Condition>) -> (r: Formula)
        requires
            board_ok(*self, board.symbols@),
        ensures
            r == goals_on(*self, board.symbols@, goals@),
    {
        reveal(goals_on);
        let ng = goals.len();
        let area = board.symbols.len();
        let ghost ngi = ng as int;
        let ghost items = Seq::new(
            (area * ngi) as nat,
            |k: int|
                condition_on(
                    *self,
                    board.symbols@,
                    goals@[k % ngi].sub_cond@,
                    (k / ngi) / self.sy as int,
                    (k / ngi) % self.sy as int,
                ),
        );
        let mut acc: Option<Formula> = None;
        let mut c: usize = 0;
        while c < area
            invariant
                c <= area,
                area == board.symbols@.len(),
                ng == goals@.len(),
                ngi == ng,
                board_ok(*self, board.symbols@),
                items.len() == area * ng,
                items == Seq::new(
                    (area * ngi) as nat,
                    |k: int|
                        condition_on(
                            *self,
                            board.symbols@,
                            goals@[k % ngi].sub_cond@,
                            (k / ngi) / self.sy as int,
                            (k / ngi) % self.sy as int,
                        ),
                ),
                c * ng <= area * ng,
                c * ng == 0 ==> acc is None,
                c * ng > 0 ==> acc == Some(disj(items.take(c * ng), lit_false(self.truth))),
            decreases area - c,
        {
            let xi = (c as u64) / self.sy;
            let yi = (c as u64) % self.sy;
            proof {
                assert(xi < self.sx) by (nonlinear_arith)
                    requires
                        xi == (c as u64) / self.sy,
                        c < self.sx * self.sy,
                        self.sy >= 1,
                ;
            }
            let mut g: usize = 0;
            while g < ng
                invariant
                    c < area,
                    g <= ng,
                    area == board.symbols@.len(),
                    ng == goals@.len(),
                    ngi == ng,
                    board_ok(*self, board.symbols@),
                    items.len() == area * ng,
                    xi == (c as u64) / self.sy,
                    yi == (c as u64) % self.sy,
                    items == Seq::new(
                        (area * ngi) as nat,
                        |k: int|
                            condition_on(
                                *self,
                                board.symbols@,
                                goals@[k % ngi].sub_cond@,
                                (k / ngi) / self.sy as int,
                                (k / ngi) % self.sy as int,
                            ),
                    ),
                    c * ng + g <= area * ng,
                    c * ng + g == 0 ==> acc is None,
                    c * ng + g > 0 ==> acc == Some(disj(items.take(c * ng + g), lit_false(self.truth))),
                decreases ng - g,
            {
                let ghost k = c * ng + g;
                proof {
                    lemma_fundamental_div_mod_converse(k, ngi, c as int, g as int);
                    assert(k < area * ng) by (nonlinear_arith)
                        requires
                            k == c * ng + g,
                            c < area,
                            g < ng,
                    ;
                }
                let f = self.gen_condition_on(board, &goals[g], xi, yi);
                assert(f == items[k]);
                acc = match acc {
                    None => Some(f),
                    Some(a) => Some(a.or(f)),
                };
                proof {
                    if k == 0 {
                        lemma_conj_first(items, lit_false(self.truth));
                    } else {
                        lemma_conj_take(items, k, lit_false(self.truth));
                    }
                }
                g = g + 1;
            }
            proof {
                assert((c + 1) * ng == c * ng + ng) by (nonlinear_arith);
            }
            c = c + 1;
        }
        proof {
            if area * ng > 0 {
                lemma_conj_first(items, lit_false(self.truth));
            }
        }
        match acc {
            Some(a) => a,
            None => self.no(),
        }
    }
}


/// One write of an effect: the cell two expressions pick, the state written there, and
/// the index of the action it belongs to.
#[derive(Debug, Clone, Copy)]
pub struct Effect {
    pub x: E,
    pub y: E,
    pub pred: Pred,
    pub tpe: u64,
}

/// The write of the effect sub-condition `sc` of action `idx`.
pub open spec fn effect_entry(sc: SubCondition, idx: int) -> Effect {
    Effect { x: sc.x_e(), y: sc.y_e(), pred: sc.pred(), tpe: idx as u64 }
}

/// The writes of all actions' effects, in order of action, then of sub-condition.
pub open spec fn effects_of(acts: Seq<Action>) -> Seq<Effect>
    decreases acts.len(),
{
    if acts.len() == 0 {
        seq![]
    } else {
        effects_of(acts.drop_last()) + acts.last().effect.sub_cond@.map_values(
            |sc: SubCondition| effect_entry(sc, acts.len() - 1),
        )
    }
}

/// Every write has non-negative offsets and the index of one of `n` actions.
pub open spec fn effects_ok(effs: Seq<Effect>, n: nat) -> bool {
    forall|i: int| 0 <= i < effs.len() ==> (#[trigger] effs[i]).x.wf() && effs[i].y.wf() && effs[i].tpe < n
}

proof fn lemma_effects_ok(acts: Seq<Action>)
    requires
        actions_wf(acts),
        acts.len() <= u64::MAX,
    ensures
        effects_ok(effects_of(acts), acts.len()),
    decreases acts.len(),
{
    if acts.len() > 0 {
        let init = acts.drop_last();
        assert(actions_wf(init)) by {
            assert forall|i: int| 0 <= i < init.len() implies (#[trigger] init[i]).wf() by {
                assert(init[i] == acts[i]);
            }
        }
        lemma_effects_ok(init);
        let last = acts.last();
        assert(last.wf());
        let tail = last.effect.sub_cond@.map_values(|sc: SubCondition| effect_entry(sc, acts.len() - 1));
        let all = effects_of(acts);
        assert forall|i: int| 0 <= i < all.len() implies (#[trigger] all[i]).x.wf() && all[i].y.wf()
            && all[i].tpe < acts.len() by {
            if i < effects_of(init).len() {
                assert(all[i] == effects_of(init)[i]);
            } else {
                let j = i - effects_of(init).len();
                assert(all[i] == tail[j]);
                assert(last.effect.sub_cond@[j].wf());
            }
        }
    }
}

/// Gathers the writes of every action's effect.
fn effects_of_actions(actions: &Vec<Action>) -> (r: Vec<Effect>)
    requires
        actions_wf(actions@),
    ensures
        r@ == effects_of(actions@),
{
    let mut effects: Vec<Effect> = Vec::new();
    let mut i: usize = 0;
    while i < actions.len()
        invariant
            i <= actions@.len(),
            actions_wf(actions@),
            effects@ == effects_of(actions@.take(i as int)),
        decreases actions@.len() - i,
    {
        let sub = &actions[i].effect.sub_cond;
        assert(actions@[i as int].wf());
        let ghost start = effects@;
        let mut j: usize = 0;
        while j < sub.len()
            invariant
                j <= sub@.len(),
                i < actions@.len(),
                sub@ == actions@[i as int].effect.sub_cond@,
                actions@[i as int].effect.is_positive(),
                effects@ == start + sub@.take(j as int).map_values(
                    |sc: SubCondition| effect_entry(sc, i as int),
                ),
            decreases sub@.len() - j,
        {
            let e = match sub[j] {
                SubCondition::Id { pred, x_e, y_e } => Effect { x: x_e, y: y_e, pred, tpe: i as u64 },
                SubCondition::Not { .. } => {
                    proof {
                        assert(sub@[j as int] is Id);
                    }
                    Effect { x: E::Identity, y: E::Identity, pred: Pred::Open, tpe: 0 }
                },
            };
            effects.push(e);
            assert(effects@ =~= start + sub@.take(j + 1).map_values(
                |sc: SubCondition| effect_entry(sc, i as int),
            ));
            j = j + 1;
        }
        proof {
            let t = actions@.take(i + 1);
            assert(t.drop_last() =~= actions@.take(i as int));
            assert(sub@.take(j as int) =~= sub@);
            assert(effects@ =~= effects_of(t));
        }
        i = i + 1;
    }
    assert(actions@.take(i as int) =~= actions@);
    effects
}

/// The successor value of one cell: the first write in `effs` that belongs to the chosen
/// action and, bounds-checked, picks this cell sets its state; with none, the cell
/// keeps its value.
pub open spec fn effect_chain(
    ctx: Context,
    cell: (Atom, Atom),
    effs: Seq<Effect>,
    x: Seq<Atom>,
    y: Seq<Atom>,
    tpe: Seq<Atom>,
    next: (Atom, Atom),
    xi: int,
    yi: int,
) -> Formula
    decreases effs.len(),
{
    let t = ctx.truth;
    if effs.len() == 0 {
        pair_eq(cell, next)
    } else {
        let hd = effs[0];
        let cond = Formula::And(
            Box::new(
                Formula::And(
                    Box::new(
                        Formula::And(
                            Box::new(
                                Formula::And(
                                    Box::new(equal_upto(tpe, hd.tpe as int, tpe.len())),
                                    Box::new(bounds_check(t, hd.x, x, ctx.sx as int)),
                                ),
                            ),
                            Box::new(bounds_check(t, hd.y, y, ctx.sy as int)),
                        ),
                    ),
                    Box::new(e_bv_eq(t, hd.x, x, xi, ctx.sx as int)),
                ),
            ),
            Box::new(e_bv_eq(t, hd.y, y, yi, ctx.sy as int)),
        );
        if_then_else(
            cond,
            pair_eq(next, pred_atoms(t, hd.pred)),
            effect_chain(ctx, cell, effs.drop_first(), x, y, tpe, next, xi, yi),
        )
    }
}

/// The cells of a board whose atoms are the `2 * area` atoms handed out after `n`.
pub open spec fn fresh_board(n: int, area: nat) -> Seq<(Atom, Atom)> {
    Seq::new(area, |c: int| (crate::qbf::var_atom(n + 1 + 2 * c), crate::qbf::var_atom(n + 2 + 2 * c)))
}

/// The atoms of a board, cell by cell, the open flag before the black flag.
pub open spec fn board_atoms(board: Seq<(Atom, Atom)>) -> Seq<Atom> {
    Seq::new(
        2 * board.len(),
        |i: int|
            if i % 2 == 0 {
                board[i / 2].0
            } else {
                board[i / 2].1
            },
    )
}

/// The binding of every cell of `next` to its successor value on `board`.
#[verifier::opaque]
pub open spec fn effects_formula(
    ctx: Context,
    board: Seq<(Atom, Atom)>,
    next: Seq<(Atom, Atom)>,
    effs: Seq<Effect>,
    x: Seq<Atom>,
    y: Seq<Atom>,
    tpe: Seq<Atom>,
) -> Formula {
    conj(
        Seq::new(
            board.len(),
            |c: int|
                effect_chain(
                    ctx,
                    board[c],
                    effs,
                    x,
                    y,
                    tpe,
                    next[c],
                    c / ctx.sy as int,
                    c % ctx.sy as int,
                ),
        ),
        lit_true(ctx.truth),
    )
}

/// For each action, choosing it implies its precondition at the anchor; `true` when
/// there are no actions.
#[verifier::opaque]
pub open spec fn valid_moves(
    ctx: Context,
    board: Seq<(Atom, Atom)>,
    acts: Seq<Action>,
    x: Seq<Atom>,
    y: Seq<Atom>,
    tpe: Seq<Atom>,
) -> Formula {
    conj(
        Seq::new(
            acts.len(),
            |i: int|
                implication(
                    equal_upto(tpe, i, tpe.len()),
                    condition_at(ctx, board, acts[i].precondition.sub_cond@, x, y),
                ),
        ),
        lit_true(ctx.truth),
    )
}

impl Context {
    fn effect_cell(
        &self,
        cell: (Atom, Atom),
        effects: &Vec<Effect>,
        x: &BitVector,
        y: &BitVector,
        tpe: &BitVector,
        next: (Atom, Atom),
        xi: u64,
        yi: u64,
    ) -> (r: Formula)
        requires
            effects_ok(effects@, two_to(tpe.bits@.len())),
            tpe.bits@.len() >= 1,
            xi < self.sx,
            yi < self.sy,
            anchor_ok(x.bits@, self.sx as int),
            anchor_ok(y.bits@, self.sy as int),
        ensures
            r == effect_chain(*self, cell, effects@, x.bits@, y.bits@, tpe.bits@, next, xi as int, yi as int),
    {
        let mut acc = cell.0.equal(next.0).and(cell.1.equal(next.1));
        let mut i: usize = effects.len();
        assert(effects@.subrange(i as int, effects@.len() as int) =~= seq![]);
        while i > 0
            invariant
                i <= effects@.len(),
                effects_ok(effects@, two_to(tpe.bits@.len())),
                tpe.bits@.len() >= 1,
                xi < self.sx,
                yi < self.sy,
                anchor_ok(x.bits@, self.sx as int),
                anchor_ok(y.bits@, self.sy as int),
                acc == effect_chain(
                    *self,
                    cell,
                    effects@.subrange(i as int, effects@.len() as int),
                    x.bits@,
                    y.bits@,
                    tpe.bits@,
                    next,
                    xi as int,
                    yi as int,
                ),
            decreases i,
        {
            i = i - 1;
            let hd = effects[i];
            assert(effects@[i as int].x.wf());
            let tpe_eq = tpe.equal(hd.tpe);
            let x_bound = self.gen_bounds_check(&hd.x, x, self.sx);
            let y_bound = self.gen_bounds_check(&hd.y, y, self.sy);
            let x_eq = self.gen_e_bv_eq(&hd.x, x, xi, self.sx);
            let y_eq = self.gen_e_bv_eq(&hd.y, y, yi, self.sy);
            let (o, b) = self.pred_to_atoms(hd.pred);
            let then = next.0.equal(o).and(next.1.equal(b));
            let cond = tpe_eq.and(x_bound).and(y_bound).and(x_eq).and(y_eq);
            let ghost rest = effects@.subrange(i as int, effects@.len() as int);
            assert(rest.drop_first() =~= effects@.subrange(i + 1, effects@.len() as int));
            assert(rest[0] == hd);
            acc = cond.ite(then, acc);
        }
        assert(effects@.subrange(0, effects@.len() as int) =~= effects@);
        acc
    }
}

impl SymbolicBoard {
    /// A new board of fresh atoms, and the formula binding each of its cells to its
    /// successor value under the chosen action and anchor.
    pub fn effect(
        &self,
        ctx: &Context,
        effects: &Vec<Effect>,
        x: &BitVector,
        y: &BitVector,
        tpe: &BitVector,
        c: &mut AtomCounter,
    ) -> (r: (Formula, SymbolicBoard))
        requires
            board_ok(*ctx, self.symbols@),
            effects_ok(effects@, two_to(tpe.bits@.len())),
            tpe.bits@.len() >= 1,
            anchor_ok(x.bits@, ctx.sx as int),
            anchor_ok(y.bits@, ctx.sy as int),
            old(c).last + 2 * self.symbols@.len() <= u64::MAX,
        ensures
            final(c).last == old(c).last + 2 * self.symbols@.len(),
            r.1.symbols@ == fresh_board(old(c).last as int, self.symbols@.len()),
            r.0 == effects_formula(*ctx, self.symbols@, r.1.symbols@, effects@, x.bits@, y.bits@, tpe.bits@),
    {
        reveal(effects_formula);
        let area = self.symbols.len();
        let ghost n = old(c).last as int;
        let mut symbols: Vec<(Atom, Atom)> = Vec::new();
        let mut k: usize = 0;
        while k < area
            invariant
                k <= area,
                area == self.symbols@.len(),
                c.last == n + 2 * k,
                n == old(c).last,
                n + 2 * area <= u64::MAX,
                symbols@ == fresh_board(n, k as nat),
            decreases area - k,
        {
            let a = atom(c);
            let b = atom(c);
            symbols.push((a, b));
            k = k + 1;
            assert(symbols@ =~= fresh_board(n, k as nat));
        }
        let board = SymbolicBoard { symbols };
        let ghost items = Seq::new(
            area as nat,
            |i: int|
                effect_chain(
                    *ctx,
                    self.symbols@[i],
                    effects@,
                    x.bits@,
                    y.bits@,
                    tpe.bits@,
                    board.symbols@[i],
                    i / ctx.sy as int,
                    i % ctx.sy as int,
                ),
        );
        let mut acc: Option<Formula> = None;
        let mut i: usize = 0;
        while i < area
            invariant
                i <= area,
                area == self.symbols@.len(),
                board.symbols@.len() == area,
                board_ok(*ctx, self.symbols@),
                effects_ok(effects@, two_to(tpe.bits@.len())),
                tpe.bits@.len() >= 1,
                anchor_ok(x.bits@, ctx.sx as int),
                anchor_ok(y.bits@, ctx.sy as int),
                items == Seq::new(
                    area as nat,
                    |i: int|
                        effect_chain(
                            *ctx,
                            self.symbols@[i],
                            effects@,
                            x.bits@,
                            y.bits@,
                            tpe.bits@,
                            board.symbols@[i],
                            i / ctx.sy as int,
                            i % ctx.sy as int,
                        ),
                ),
                i == 0 ==> acc is None,
                i > 0 ==> acc == Some(conj(items.take(i as int), lit_true(ctx.truth))),
            decreases area - i,
        {
            let xi = (i as u64) / ctx.sy;
            let yi = (i as u64) % ctx.sy;
            proof {
                assert(xi < ctx.sx) by (nonlinear_arith)
                    requires
                        xi == (i as u64) / ctx.sy,
                        i < ctx.sx * ctx.sy,
                        ctx.sy >= 1,
                ;
            }
            let f = ctx.effect_cell(self.symbols[i], effects, x, y, tpe, board.symbols[i], xi, yi);
            acc = match acc {
                None => Some(f),
                Some(a) => Some(a.and(f)),
            };
            proof {
                if i == 0 {
                    lemma_conj_first(items, lit_true(ctx.truth));
                } else {
                    lemma_conj_take(items, i as int, lit_true(ctx.truth));
                }
            }
            i = i + 1;
        }
        proof {
            lemma_conj_first(items, lit_true(ctx.truth));
        }
        let formula = match acc {
            Some(a) => a,
            None => ctx.yes(),
        };
        (formula, board)
    }

    /// The atoms of the board, cell by cell, the open flag first.
    fn atoms(&self) -> (r: Vec<Atom>)
        requires
            2 * self.symbols@.len() <= usize::MAX,
        ensures
            r@ == board_atoms(self.symbols@),
    {
        let mut out: Vec<Atom> = Vec::new();
        let mut i: usize = 0;
        while i < self.symbols.len()
            invariant
                i <= self.symbols@.len(),
                out@ == board_atoms(self.symbols@).take(2 * i),
                2 * self.symbols@.len() <= usize::MAX,
            decreases self.symbols@.len() - i,
        {
            let (a, b) = self.symbols[i];
            out.push(a);
            out.push(b);
            proof {
                let all = board_atoms(self.symbols@);
                assert(all[2 * i] == a);
                assert(all[2 * i + 1] == b);
                assert(out@ =~= all.take(2 * (i + 1)));
            }
            i = i + 1;
        }
        assert(board_atoms(self.symbols@).take(2 * i) =~= board_atoms(self.symbols@));
        out
    }

    /// `formula` under an existential over every atom of the board.
    pub fn wrap_exists(&self, formula: Formula) -> (r: Formula)
        requires
            2 * self.symbols@.len() <= usize::MAX,
        ensures
            r == wrap_prefix(quantified(Quantifier::Exists, board_atoms(self.symbols@)), formula),
    {
        crate::qbf::wrap_atoms(&self.atoms(), Quantifier::Exists, formula)
    }

    /// `formula` under a universal over every atom of the board.
    pub fn wrap_forall(&self, formula: Formula) -> (r: Formula)
        requires
            2 * self.symbols@.len() <= usize::MAX,
        ensures
            r == wrap_prefix(quantified(Quantifier::Forall, board_atoms(self.symbols@)), formula),
    {
        crate::qbf::wrap_atoms(&self.atoms(), Quantifier::Forall, formula)
    }
}


impl Context {
    /// For each action, choosing it implies its precondition at the anchor; `true` when
    /// there are no actions.
    pub fn gen_valid(
        &self,
        board: &SymbolicBoard,
        actions: &Vec<Action>,
        x: &BitVector,
        y: &BitVector,
        tpe: &BitVector,
    ) -> (r: Formula)
        requires
            board_ok(*self, board.symbols@),
            actions_wf(actions@),
            tpe.bits@.len() >= 1,
            actions@.len() <= two_to(tpe.bits@.len()),
            anchor_ok(x.bits@, self.sx as int),
            anchor_ok(y.bits@, self.sy as int),
        ensures
            r == valid_moves(*self, board.symbols@, actions@, x.bits@, y.bits@, tpe.bits@),
    {
        reveal(valid_moves);
        let ghost items = Seq::new(
            actions@.len(),
            |i: int|
                implication(
                    equal_upto(tpe.bits@, i, tpe.bits@.len()),
                    condition_at(*self, board.symbols@, actions@[i].precondition.sub_cond@, x.bits@, y.bits@),
                ),
        );
        let n = actions.len();
        let mut acc: Option<Formula> = None;
        let mut i: usize = 0;
        while i < n
            invariant
                i <= n,
                n == actions@.len(),
                board_ok(*self, board.symbols@),
                actions_wf(actions@),
                tpe.bits@.len() >= 1,
                actions@.len() <= two_to(tpe.bits@.len()),
                anchor_ok(x.bits@, self.sx as int),
                anchor_ok(y.bits@, self.sy as int),
                items == Seq::new(
                    actions@.len(),
                    |i: int|
                        implication(
                            equal_upto(tpe.bits@, i, tpe.bits@.len()),
                            condition_at(
                                *self,
                                board.symbols@,
                                actions@[i].precondition.sub_cond@,
                                x.bits@,
                                y.bits@,
                            ),
                        ),
                ),
                i == 0 ==> acc is None,
                i > 0 ==> acc == Some(conj(items.take(i as int), lit_true(self.truth))),
            decreases n - i,
        {
            assert(actions@[i as int].wf());
            let f = tpe.equal(i as u64).implies(self.gen_condition(board, &actions[i].precondition, x, y));
            acc = match acc {
                None => Some(f),
                Some(a) => Some(a.and(f)),
            };
            proof {
                if i == 0 {
                    lemma_conj_first(items, lit_true(self.truth));
                } else {
                    lemma_conj_take(items, i as int, lit_true(self.truth));
                }
            }
            i = i + 1;
        }
        if n > 0 {
            proof {
                lemma_conj_first(items, lit_true(self.truth));
            }
        }
        match acc {
            Some(a) => a,
            None => self.yes(),
        }
    }
}

/// The initial board: every cell open, then each initial state written in order.
pub open spec fn init_cells(t: Atom, inits: Seq<InitPred>, sy: int, area: nat) -> Seq<(Atom, Atom)>
    decreases inits.len(),
{
    if inits.len() == 0 {
        Seq::new(area, |c: int| pred_atoms(t, Pred::Open))
    } else {
        let ip = inits.last();
        init_cells(t, inits.drop_last(), sy, area).update(ip.x * sy + ip.y, pred_atoms(t, ip.pred))
    }
}

/// Every initial state names a cell of the board.
pub open spec fn inits_ok(inits: Seq<InitPred>, sx: int, sy: int) -> bool {
    forall|i: int| 0 <= i < inits.len() ==> 0 <= (#[trigger] inits[i]).x < sx && 0 <= inits[i].y < sy
}

impl SymbolicBoard {
    /// The board of the initial position, its cells literals of the true atom.
    pub fn init(ctx: &Context, initpreds: &Vec<InitPred>) -> (r: SymbolicBoard)
        requires
            ctx.sx >= 1,
            ctx.sy >= 1,
            ctx.sx * ctx.sy <= usize::MAX,
            inits_ok(initpreds@, ctx.sx as int, ctx.sy as int),
        ensures
            r.symbols@ == init_cells(ctx.truth, initpreds@, ctx.sy as int, (ctx.sx * ctx.sy) as nat),
            board_ok(*ctx, r.symbols@),
    {
        let area = (ctx.sx * ctx.sy) as usize;
        let open = ctx.pred_to_atoms(Pred::Open);
        let mut symbols: Vec<(Atom, Atom)> = Vec::new();
        let mut k: usize = 0;
        while k < area
            invariant
                k <= area,
                area == ctx.sx * ctx.sy,
                open == pred_atoms(ctx.truth, Pred::Open),
                symbols@ == Seq::new(k as nat, |c: int| pred_atoms(ctx.truth, Pred::Open)),
            decreases area - k,
        {
            symbols.push(open);
            k = k + 1;
            assert(symbols@ =~= Seq::new(k as nat, |c: int| pred_atoms(ctx.truth, Pred::Open)));
        }
        proof {
            assert(area >= 1) by (nonlinear_arith)
                requires
                    area == ctx.sx * ctx.sy,
                    ctx.sx >= 1,
                    ctx.sy >= 1,
            ;
            assert(initpreds@.take(0) =~= seq![]);
        }
        let mut i: usize = 0;
        while i < initpreds.len()
            invariant
                i <= initpreds@.len(),
                area == ctx.sx * ctx.sy,
                inits_ok(initpreds@, ctx.sx as int, ctx.sy as int),
                symbols@ == init_cells(ctx.truth, initpreds@.take(i as int), ctx.sy as int, area as nat),
                symbols@.len() == area,
            decreases initpreds@.len() - i,
        {
            let ip = initpreds[i];
            assert(0 <= initpreds@[i as int].x < ctx.sx);
            let x = ip.x as u64;
            let y = ip.y as u64;
            proof {
                assert(x * ctx.sy + y < ctx.sx * ctx.sy) by (nonlinear_arith)
                    requires
                        x < ctx.sx,
                        y < ctx.sy,
                ;
            }
            let idx = (x * ctx.sy + y) as usize;
            let p = ctx.pred_to_atoms(ip.pred);
            symbols.set(idx, p);
            proof {
                let t = initpreds@.take(i + 1);
                assert(t.drop_last() =~= initpreds@.take(i as int));
                assert(t.last() == ip);
            }
            i = i + 1;
        }
        assert(initpreds@.take(i as int) =~= initpreds@);
        SymbolicBoard { symbols }
    }
}

/// The most atoms one ply hands out: both anchors, the wider action index, a board.
pub open spec fn ply_budget(ctx: Context, d: Domain) -> nat {
    let wb = width(d.black_actions@.len());
    let ww = width(d.white_actions@.len());
    (width(ctx.sx as nat) + width(ctx.sy as nat) + (if wb >= ww {
        wb
    } else {
        ww
    }) + 2 * ctx.sx * ctx.sy) as nat
}

/// The formula of `depth` plies from `board`, Black to move when `black`, and the last
/// atom handed out after it, when the atoms handed out so far end at `n`.
///
/// A ply picks fresh anchors `x`, `y`, a fresh action index and a fresh board, binds the
/// new board to the effect of the chosen move, and asks that the move be valid and
/// that the rest of the game, or Black's goal on the new board, hold. Black's plies
/// quantify existentially; White's universally, over an implication, so that an invalid
/// White move excuses itself. White's plies check Black's goals too.
pub open spec fn ply(
    ctx: Context,
    p: Problem,
    d: Domain,
    board: Seq<(Atom, Atom)>,
    depth: nat,
    n: int,
    black: bool,
) -> (Formula, int)
    decreases depth,
{
    if depth == 0 {
        (lit_false(ctx.truth), n)
    } else {
        let acts = if black {
            d.black_actions@
        } else {
            d.white_actions@
        };
        let wx = width(ctx.sx as nat);
        let wy = width(ctx.sy as nat);
        let wt = width(acts.len());
        let x = fresh_atoms(n, wx);
        let y = fresh_atoms(n + wx, wy);
        let tpe = fresh_atoms(n + wx + wy, wt);
        let n1 = n + wx + wy + wt;
        let nb = fresh_board(n1, board.len());
        let n2 = n1 + 2 * board.len();
        let eff = effects_formula(ctx, board, nb, effects_of(acts), x, y, tpe);
        let valid = valid_moves(ctx, board, acts, x, y, tpe);
        let goal = goals_on(ctx, nb, p.black_goals@);
        let (rest, n3) = ply(ctx, p, d, nb, (depth - 1) as nat, n2, !black);
        let q = if black {
            Quantifier::Exists
        } else {
            Quantifier::Forall
        };
        let moved = Formula::And(Box::new(eff), Box::new(valid));
        let wins = Formula::Or(Box::new(rest), Box::new(goal));
        let body = if black {
            Formula::And(Box::new(moved), Box::new(wins))
        } else {
            implication(moved, wins)
        };
        (
            wrap_prefix(
                quantified(q, board_atoms(nb)),
                wrap_prefix(quantified(q, x), wrap_prefix(quantified(q, y), wrap_prefix(quantified(q, tpe), body))),
            ),
            n3,
        )
    }
}

/// What `solve` and its plies ask of their inputs.
pub open spec fn game_ok(ctx: Context, p: Problem, d: Domain) -> bool {
    &&& p.wf()
    &&& d.wf()
    &&& ctx.sx == p.size.x
    &&& ctx.sy == p.size.y
    &&& 2 * ctx.sx * ctx.sy <= usize::MAX
}

proof fn lemma_ply_cost(ctx: Context, d: Domain, area: nat, black: bool)
    requires
        area == ctx.sx * ctx.sy,
    ensures
        width(ctx.sx as nat) + width(ctx.sy as nat) + width(
            if black {
                d.black_actions@.len()
            } else {
                d.white_actions@.len()
            },
        ) + 2 * area <= ply_budget(ctx, d),
{
    assert(2 * area == 2 * ctx.sx * ctx.sy) by (nonlinear_arith)
        requires
            area == ctx.sx * ctx.sy,
    ;
}

impl Context {
    /// The plies from `board` with Black to move.
    pub fn solve_black(
        &self,
        problem: &Problem,
        domain: &Domain,
        board: &SymbolicBoard,
        depth: u64,
        c: &mut AtomCounter,
    ) -> (r: Formula)
        requires
            game_ok(*self, *problem, *domain),
            board_ok(*self, board.symbols@),
            old(c).last + depth * ply_budget(*self, *domain) <= u64::MAX,
        ensures
            r == ply(*self, *problem, *domain, board.symbols@, depth as nat, old(c).last as int, true).0,
            final(c).last == ply(*self, *problem, *domain, board.symbols@, depth as nat, old(c).last as int, true).1,
        decreases depth, 1int,
    {
        self.solve_ply(problem, domain, board, depth, c, true)
    }

    /// The plies from `board` with White to move.
    pub fn solve_white(
        &self,
        problem: &Problem,
        domain: &Domain,
        board: &SymbolicBoard,
        depth: u64,
        c: &mut AtomCounter,
    ) -> (r: Formula)
        requires
            game_ok(*self, *problem, *domain),
            board_ok(*self, board.symbols@),
            old(c).last + depth * ply_budget(*self, *domain) <= u64::MAX,
        ensures
            r == ply(*self, *problem, *domain, board.symbols@, depth as nat, old(c).last as int, false).0,
            final(c).last == ply(*self, *problem, *domain, board.symbols@, depth as nat, old(c).last as int, false).1,
        decreases depth, 1int,
    {
        self.solve_ply(problem, domain, board, depth, c, false)
    }

    fn solve_ply(
        &self,
        problem: &Problem,
        domain: &Domain,
        board: &SymbolicBoard,
        depth: u64,
        c: &mut AtomCounter,
        black: bool,
    ) -> (r: Formula)
        requires
            game_ok(*self, *problem, *domain),
            board_ok(*self, board.symbols@),
            old(c).last + depth * ply_budget(*self, *domain) <= u64::MAX,
        ensures
            r == ply(*self, *problem, *domain, board.symbols@, depth as nat, old(c).last as int, black).0,
            final(c).last == ply(*self, *problem, *domain, board.symbols@, depth as nat, old(c).last as int, black).1,
        decreases depth, 0int,
    {
        if depth == 0 {
            return self.no();
        }
        let actions = if black {
            &domain.black_actions
        } else {
            &domain.white_actions
        };
        let ghost n = old(c).last as int;
        let area = board.symbols.len();
        let ghost m = ply_budget(*self, *domain);
        proof {
            lemma_ply_cost(*self, *domain, area as nat, black);
            assert(depth * m == m + (depth - 1) * m) by (nonlinear_arith)
                requires
                    depth >= 1,
            ;
            assert((depth - 1) * m >= 0) by (nonlinear_arith)
                requires
                    depth >= 1,
            ;
            assert(2 * area <= usize::MAX) by (nonlinear_arith)
                requires
                    area == self.sx * self.sy,
                    2 * self.sx * self.sy <= usize::MAX,
            ;
            assert(self.sx <= area && self.sy <= area) by (nonlinear_arith)
                requires
                    area == self.sx * self.sy,
                    self.sx >= 1,
                    self.sy >= 1,
            ;
        }
        let x_sz = width_of(self.sx);
        let y_sz = width_of(self.sy);
        let tpe_sz = width_of(actions.len() as u64);
        let x = BitVector::new(x_sz as usize, c);
        let y = BitVector::new(y_sz as usize, c);
        let tpe = BitVector::new(tpe_sz as usize, c);
        proof {
            lemma_effects_ok(actions@);
            let effs = effects_of(actions@);
            assert forall|i: int| 0 <= i < effs.len() implies (#[trigger] effs[i]).x.wf() && effs[i].y.wf()
                && effs[i].tpe < two_to(tpe.bits@.len()) by {
                assert(effs[i].tpe < actions@.len());
            }
        }
        let effects = effects_of_actions(actions);
        let (effect, new_board) = board.effect(self, &effects, &x, &y, &tpe, c);
        let valid = self.gen_valid(board, actions, &x, &y, &tpe);
        let goal = self.gen_goals(&new_board, &problem.black_goals);
        let rest = if black {
            self.solve_white(problem, domain, &new_board, depth - 1, c)
        } else {
            self.solve_black(problem, domain, &new_board, depth - 1, c)
        };
        let body = if black {
            effect.and(valid).and(rest.or(goal))
        } else {
            effect.and(valid).implies(rest.or(goal))
        };
        if black {
            new_board.wrap_exists(x.wrap_exists(y.wrap_exists(tpe.wrap_exists(body))))
        } else {
            new_board.wrap_forall(x.wrap_forall(y.wrap_forall(tpe.wrap_forall(body))))
        }
    }
}

/// The context of a compilation whose true atom is the variable after `n`.
pub open spec fn context_of(p: Problem, n: int) -> Context {
    Context { truth: var_atom(n + 1), sx: p.size.x as u64, sy: p.size.y as u64 }
}

/// The compiled formula of a game when the atoms handed out so far end at `n`: the true
/// atom, and Black's plies from the initial position; with the last atom handed out.
pub open spec fn compile(p: Problem, d: Domain, n: int) -> (Formula, int) {
    let ctx = context_of(p, n);
    let board = init_cells(ctx.truth, p.init@, ctx.sy as int, (ctx.sx * ctx.sy) as nat);
    let (f, end) = ply(ctx, p, d, board, p.depth as nat, n + 1, true);
    (Formula::And(Box::new(Formula::Atom(ctx.truth)), Box::new(f)), end)
}

/// Compiles a game into the formula that holds when Black has a forced win within the
/// ply budget; the atoms come from `c`.
pub fn solve(problem: &Problem, domain: &Domain, c: &mut AtomCounter) -> (r: Formula)
    requires
        problem.wf(),
        domain.wf(),
        2 * problem.size.x * problem.size.y <= usize::MAX,
        old(c).last + 1 + problem.depth * ply_budget(context_of(*problem, old(c).last as int), *domain)
            <= u64::MAX,
    ensures
        r == compile(*problem, *domain, old(c).last as int).0,
        final(c).last == compile(*problem, *domain, old(c).last as int).1,
{
    let truth = atom(c);
    let ctx = Context { truth, sx: problem.size.x as u64, sy: problem.size.y as u64 };
    proof {
        assert(ctx.sx * ctx.sy <= usize::MAX) by (nonlinear_arith)
            requires
                2 * ctx.sx * ctx.sy <= usize::MAX,
        ;
        assert(inits_ok(problem.init@, ctx.sx as int, ctx.sy as int));
    }
    let board = SymbolicBoard::init(&ctx, &problem.init);
    let f = ctx.solve_black(problem, domain, &board, problem.depth, c);
    truth.lit().and(f)
}


/// The board is small enough, and the ply budget leaves room in the atom counter.
pub open spec fn within_limits(p: Problem, d: Domain) -> bool {
    &&& 2 * p.size.x * p.size.y <= usize::MAX
    &&& 1 + p.depth * ply_budget(context_of(p, 0), d) <= u64::MAX
}

/// The prenex formula of a game: compiled with a fresh counter, denegified, prenexed.
pub open spec fn prenex_of(p: Problem, d: Domain) -> Formula {
    let f = nnf(compile(p, d, 0).0);
    wrap_prefix(prefix_of(f), matrix_of(f))
}

/// The prefix and the clauses of the prenex CNF of a game.
pub open spec fn cnf_of(p: Problem, d: Domain) -> (Seq<(Quantifier, Atom)>, Seq<Seq<Atom>>) {
    let h = prenex_of(p, d);
    let n = compile(p, d, 0).1;
    (cnf_prefix(h, n), cnf_clauses(h, n))
}

/// The Tseitin helpers fit the counter and the text has fewer than `u64::MAX` atoms.
pub open spec fn cnf_fits(p: Problem, d: Domain) -> bool {
    &&& compile(p, d, 0).1 + connectives(leading_body(prenex_of(p, d))) <= u64::MAX
    &&& atoms_of(cnf_of(p, d).0, cnf_of(p, d).1).len() < u64::MAX
}

fn ply_budget_of(ctx: &Context, domain: &Domain) -> (r: u128)
    requires
        ctx.sx * ctx.sy <= usize::MAX,
    ensures
        r == ply_budget(*ctx, *domain),
{
    let wb = width_of(domain.black_actions.len() as u64);
    let ww = width_of(domain.white_actions.len() as u64);
    let wt = if wb >= ww {
        wb
    } else {
        ww
    };
    let sx = ctx.sx as u128;
    let sy = ctx.sy as u128;
    proof {
        assert(2 * sx * sy <= 2 * usize::MAX) by (nonlinear_arith)
            requires
                sx * sy <= usize::MAX,
        ;
    }
    width_of(ctx.sx) as u128 + width_of(ctx.sy) as u128 + wt as u128 + 2 * sx * sy
}

/// Compiles a game all the way to QDIMACS text, with a fresh atom counter: `None` when
/// the game is not well formed or the formula outgrows the machine's integers.
pub fn compile_qdimacs(problem: &Problem, domain: &Domain) -> (r: Option<String>)
    ensures
        r.is_some() <==> problem.wf() && domain.wf() && within_limits(*problem, *domain) && cnf_fits(
            *problem,
            *domain,
        ),
        r.is_some() ==> r.unwrap()@ == qdimacs_text(cnf_of(*problem, *domain).0, cnf_of(*problem, *domain).1),
{
    if !problem.is_well_formed() || !domain.is_well_formed() {
        return None;
    }
    let sx = problem.size.x as u128;
    let sy = problem.size.y as u128;
    proof {
        assert(2 * sx * sy <= 2 * (i64::MAX as int) * (i64::MAX as int)) by (nonlinear_arith)
            requires
                1 <= sx <= i64::MAX,
                1 <= sy <= i64::MAX,
        ;
    }
    if 2 * sx * sy > usize::MAX as u128 {
        return None;
    }
    proof {
        assert(sx * sy <= usize::MAX) by (nonlinear_arith)
            requires
                2 * sx * sy <= usize::MAX,
        ;
    }
    let probe = Context { truth: Atom { var: 1, positive: true }, sx: sx as u64, sy: sy as u64 };
    assert(probe == context_of(*problem, 0));
    let budget = ply_budget_of(&probe, domain);
    let depth = problem.depth as u128;
    if depth > 0 && budget > (u64::MAX as u128 - 1) / depth {
        proof {
            assert(depth * budget > u64::MAX - 1) by (nonlinear_arith)
                requires
                    depth > 0,
                    budget > (u64::MAX - 1) as int / depth as int,
            ;
        }
        return None;
    }
    proof {
        assert(depth * budget <= u64::MAX - 1) by (nonlinear_arith)
            requires
                depth == 0 || budget <= (u64::MAX - 1) as int / depth as int,
        ;
    }
    let mut c = AtomCounter::new();
    let f = solve(problem, domain, &mut c);
    proof {
        crate::qbf::lemma_nnf_has_no_not(f);
    }
    let g = f.denegify();
    proof {
        crate::qbf::lemma_prenex_conserves_quantifiers(g);
    }
    let h = g.prenexify();
    let k = h.matrix_connectives();
    proof {
        lemma_ply_grows(
            context_of(*problem, 0),
            *problem,
            *domain,
            init_cells(
                context_of(*problem, 0).truth,
                problem.init@,
                sy as int,
                (sx * sy) as nat,
            ),
            problem.depth as nat,
            1,
            true,
        );
    }
    if k as u128 + c.last as u128 > u64::MAX as u128 {
        return None;
    }
    let (prefix, matrix) = h.prenex_to_prenex_cnf(&mut c);
    let ghost mv = clauses_view(matrix@);
    let ghost pa = prefix@.map_values(|e: (Quantifier, Atom)| e.1);
    assert(prefix@ == cnf_of(*problem, *domain).0);
    assert(mv == cnf_of(*problem, *domain).1);
    assert(atoms_of(prefix@, mv) == pa + mv.flatten_alt());
    let mut total: u64 = prefix.len() as u64;
    if total == u64::MAX {
        return None;
    }
    let mut j: usize = 0;
    while j < matrix.len()
        invariant
            j <= matrix@.len(),
            mv == clauses_view(matrix@),
            mv.len() == matrix@.len(),
            total == pa.len() + mv.take(j as int).flatten_alt().len(),
            total < u64::MAX,
            pa.len() == prefix@.len(),
            prefix@ == cnf_of(*problem, *domain).0,
            mv == cnf_of(*problem, *domain).1,
            atoms_of(prefix@, mv) == pa + mv.flatten_alt(),
        decreases matrix@.len() - j,
    {
        let n = matrix[j].len() as u64;
        proof {
            assert(mv.take(j + 1).drop_last() =~= mv.take(j as int));
        }
        if total >= u64::MAX - n {
            proof {
                assert(mv.take(j + 1).flatten_alt().len() == mv.take(j as int).flatten_alt().len() + n);
                lemma_flatten_prefix_len(mv, j + 1);
                assert(atoms_of(prefix@, mv).len() >= u64::MAX);
            }
            return None;
        }
        total = total + n;
        j = j + 1;
    }
    proof {
        assert(mv.take(j as int) =~= mv);
    }
    Some(qdimacs(&prefix, &matrix))
}

proof fn lemma_ply_grows(
    ctx: Context,
    p: Problem,
    d: Domain,
    board: Seq<(Atom, Atom)>,
    depth: nat,
    n: int,
    black: bool,
)
    ensures
        ply(ctx, p, d, board, depth, n, black).1 >= n,
    decreases depth,
{
    if depth > 0 {
        let acts = if black {
            d.black_actions@
        } else {
            d.white_actions@
        };
        let wx = width(ctx.sx as nat);
        let wy = width(ctx.sy as nat);
        let wt = width(acts.len());
        let n1 = n + wx + wy + wt;
        let nb = fresh_board(n1, board.len());
        let n2 = n1 + 2 * board.len();
        lemma_ply_grows(ctx, p, d, nb, (depth - 1) as nat, n2, !black);
    }
}

proof fn lemma_flatten_prefix_len(m: Seq<Seq<Atom>>, j: int)
    requires
        0 <= j <= m.len(),
    ensures
        m.take(j).flatten_alt().len() <= m.flatten_alt().len(),
    decreases m.len() - j,
{
    if j < m.len() {
        lemma_flatten_prefix_len(m, j + 1);
        assert(m.take(j + 1).drop_last() =~= m.take(j));
    } else {
        assert(m.take(j) =~= m);
    }
}

} // verus!
