use crate::bddl::{Condition, Domain, Pred, Problem, Size, SubCondition, E};
use vstd::prelude::*;

verus! {

/// `(x, y)` is a cell of a board of extents `sx` by `sy`.
pub open spec fn on_board(x: int, y: int, sx: int, sy: int) -> bool {
    0 <= x < sx && 0 <= y < sy
}

/// A sub-condition holds on the concrete board `b`, anchored at `(x, y)`: the cell its
/// expressions pick is on the board, and holds its state (`Id`) or another (`Not`).
pub open spec fn sub_holds(b: Seq<Pred>, sx: int, sy: int, sc: SubCondition, x: int, y: int) -> bool {
    let tx = sc.x_e().target(x, sx);
    let ty = sc.y_e().target(y, sy);
    on_board(tx, ty, sx, sy) && match sc {
        SubCondition::Id { pred, .. } => b[tx * sy + ty] == pred,
        SubCondition::Not { pred, .. } => b[tx * sy + ty] != pred,
    }
}

/// Every sub-condition of `cond` holds at `(x, y)`.
pub open spec fn cond_holds(b: Seq<Pred>, sx: int, sy: int, cond: Seq<SubCondition>, x: int, y: int) -> bool {
    forall|i: int| 0 <= i < cond.len() ==> sub_holds(b, sx, sy, #[trigger] cond[i], x, y)
}

/// The cell index that sub-condition `sc`, anchored at `(x, y)`, writes, when it is on
/// the board.
pub open spec fn write_target(sx: int, sy: int, sc: SubCondition, x: int, y: int) -> Option<int> {
    let tx = sc.x_e().target(x, sx);
    let ty = sc.y_e().target(y, sy);
    if on_board(tx, ty, sx, sy) {
        Some(tx * sy + ty)
    } else {
        None
    }
}

/// `b` after the writes of an effect anchored at `(x, y)`: the writes are applied from
/// the last to the first, so the first-listed write to a cell is the one that stays; a
/// write that falls off the board is skipped.
pub open spec fn apply_effect(b: Seq<Pred>, sx: int, sy: int, eff: Seq<SubCondition>, x: int, y: int) -> Seq<
    Pred,
>
    decreases eff.len(),
{
    if eff.len() == 0 {
        b
    } else {
        let rest = apply_effect(b, sx, sy, eff.drop_first(), x, y);
        match write_target(sx, sy, eff[0], x, y) {
            Some(c) => rest.update(c, eff[0].pred()),
            None => rest,
        }
    }
}

/// The state of cell `c` after an effect: that of the first sub-condition whose
/// on-board target is `c`, else the old state.
pub open spec fn first_write(b: Seq<Pred>, sx: int, sy: int, eff: Seq<SubCondition>, x: int, y: int, c: int) -> Pred
    decreases eff.len(),
{
    if eff.len() == 0 {
        b[c]
    } else if write_target(sx, sy, eff[0], x, y) == Some(c) {
        eff[0].pred()
    } else {
        first_write(b, sx, sy, eff.drop_first(), x, y, c)
    }
}

/// Each cell takes the state of the first sub-condition whose on-board target is that
/// cell, and keeps its old state when there is none.
pub proof fn lemma_first_write_wins(b: Seq<Pred>, sx: int, sy: int, eff: Seq<SubCondition>, x: int, y: int)
    requires
        b.len() == sx * sy,
    ensures
        apply_effect(b, sx, sy, eff, x, y).len() == b.len(),
        forall|c: int|
            0 <= c < b.len() ==> #[trigger] apply_effect(b, sx, sy, eff, x, y)[c] == first_write(
                b,
                sx,
                sy,
                eff,
                x,
                y,
                c,
            ),
    decreases eff.len(),
{
    if eff.len() > 0 {
        lemma_first_write_wins(b, sx, sy, eff.drop_first(), x, y);
        if let Some(t) = write_target(sx, sy, eff[0], x, y) {
            let tx = eff[0].x_e().target(x, sx);
            let ty = eff[0].y_e().target(y, sy);
            assert(0 <= tx * sy + ty < sx * sy) by (nonlinear_arith)
                requires
                    0 <= tx < sx,
                    0 <= ty < sy,
            ;
        }
    }
}

/// Some goal condition holds anchored at some cell.
pub open spec fn goal_reached(b: Seq<Pred>, sx: int, sy: int, goals: Seq<Condition>) -> bool {
    exists|c: int, g: int|
        0 <= c < sx * sy && 0 <= g < goals.len() && #[trigger] cond_holds(
            b,
            sx,
            sy,
            goals[g].sub_cond@,
            c / sy,
            c % sy,
        )
}

/// The number of cells of the board.
pub open spec fn area_of(p: Problem) -> nat {
    (p.size.x * p.size.y) as nat
}

/// Black's move with action `i` at cell `c` (row-major) is valid and wins within `k`
/// plies: it reaches a Black goal, or White cannot hold afterwards.
pub open spec fn black_move_wins(p: Problem, d: Domain, b: Seq<Pred>, k: nat, i: int, c: int) -> bool
    decreases k, 0nat, 0nat,
{
    let sx = p.size.x as int;
    let sy = p.size.y as int;
    let a = d.black_actions@[i];
    if k == 0 {
        false
    } else {
        let b2 = apply_effect(b, sx, sy, a.effect.sub_cond@, c / sy, c % sy);
        cond_holds(b, sx, sy, a.precondition.sub_cond@, c / sy, c % sy) && (goal_reached(
            b2,
            sx,
            sy,
            p.black_goals@,
        ) || white_holds(p, d, b2, (k - 1) as nat))
    }
}

/// One of Black's first `m` moves wins within `k` plies; move `m` is action
/// `m / area` at cell `m % area`.
pub open spec fn black_any(p: Problem, d: Domain, b: Seq<Pred>, k: nat, m: nat) -> bool
    decreases k, 1nat, m,
{
    if m == 0 || area_of(p) == 0 {
        false
    } else {
        let j = m - 1;
        black_any(p, d, b, k, (m - 1) as nat) || black_move_wins(p, d, b, k, j / area_of(p) as int, j % area_of(p) as int)
    }
}

/// Black, to move on `b`, wins within `k` plies.
pub open spec fn black_wins(p: Problem, d: Domain, b: Seq<Pred>, k: nat) -> bool
    decreases k, 2nat, 0nat,
{
    k > 0 && black_any(p, d, b, k, d.black_actions@.len() * area_of(p))
}

/// White's move with action `i` at cell `c`, if valid, neither reaches a White goal nor
/// saves White from a Black win within the remaining plies.
pub open spec fn white_move_loses(p: Problem, d: Domain, b: Seq<Pred>, k: nat, i: int, c: int) -> bool
    decreases k, 0nat, 0nat,
{
    let sx = p.size.x as int;
    let sy = p.size.y as int;
    let a = d.white_actions@[i];
    if k == 0 {
        true
    } else {
        let b2 = apply_effect(b, sx, sy, a.effect.sub_cond@, c / sy, c % sy);
        cond_holds(b, sx, sy, a.precondition.sub_cond@, c / sy, c % sy) ==> (!goal_reached(
            b2,
            sx,
            sy,
            p.white_goals@,
        ) && black_wins(p, d, b2, (k - 1) as nat))
    }
}

/// Each of White's first `m` moves loses.
pub open spec fn white_all(p: Problem, d: Domain, b: Seq<Pred>, k: nat, m: nat) -> bool
    decreases k, 1nat, m,
{
    if m == 0 || area_of(p) == 0 {
        true
    } else {
        let j = m - 1;
        white_all(p, d, b, k, (m - 1) as nat) && white_move_loses(p, d, b, k, j / area_of(p) as int, j % area_of(p) as int)
    }
}

/// White, to move on `b` with `k` plies left, cannot escape a Black win.
pub open spec fn white_holds(p: Problem, d: Domain, b: Seq<Pred>, k: nat) -> bool
    decreases k, 2nat, 0nat,
{
    k > 0 && white_all(p, d, b, k, d.white_actions@.len() * area_of(p))
}

proof fn lemma_black_any_mono(p: Problem, d: Domain, b: Seq<Pred>, k: nat, m: nat, m2: nat)
    requires
        m <= m2,
        black_any(p, d, b, k, m),
    ensures
        black_any(p, d, b, k, m2),
    decreases m2 - m,
{
    if m < m2 {
        lemma_black_any_mono(p, d, b, k, m, (m2 - 1) as nat);
    }
}

proof fn lemma_white_all_mono(p: Problem, d: Domain, b: Seq<Pred>, k: nat, m: nat, m2: nat)
    requires
        m <= m2,
        !white_all(p, d, b, k, m),
    ensures
        !white_all(p, d, b, k, m2),
    decreases m2 - m,
{
    if m < m2 {
        lemma_white_all_mono(p, d, b, k, m, (m2 - 1) as nat);
    }
}

proof fn lemma_move_index(i: int, c: int, area: int)
    requires
        0 <= c < area,
        0 <= i,
    ensures
        (i * area + c) / area == i,
        (i * area + c) % area == c,
        (i + 1) * area == i * area + area,
{
    vstd::arithmetic::div_mod::lemma_fundamental_div_mod_converse(i * area + c, area, i, c);
    assert((i + 1) * area == i * area + area) by (nonlinear_arith);
}

/// The initial board: all open, then each initial state written in order.
pub open spec fn initial_board(p: Problem, k: nat) -> Seq<Pred>
    decreases k,
{
    if k == 0 {
        Seq::new((p.size.x * p.size.y) as nat, |c: int| Pred::Open)
    } else {
        let ip = p.init@[k - 1];
        initial_board(p, (k - 1) as nat).update(ip.x * p.size.y + ip.y, ip.pred)
    }
}

/// A concrete board, row-major.
struct Board {
    preds: Vec<Pred>,
    size: Size,
}

fn target(e: &E, v: i64, max: i64) -> (r: i128)
    ensures
        r == e.target(v as int, max as int),
{
    match e {
        E::Add(u) => v as i128 + *u as i128,
        E::Sub(u) => v as i128 - *u as i128,
        E::Int(u) => *u as i128,
        E::Identity => v as i128,
        E::Min => 0,
        E::Max => max as i128 - 1,
    }
}

impl Board {
    spec fn wf(self) -> bool {
        &&& self.size.x >= 1
        &&& self.size.y >= 1
        &&& self.preds@.len() == self.size.x * self.size.y
        &&& self.preds@.len() <= usize::MAX
    }

    fn new(size: Size) -> (r: Board)
        requires
            size.x >= 1,
            size.y >= 1,
            size.x * size.y <= usize::MAX,
        ensures
            r.wf(),
            r.size == size,
            r.preds@ == Seq::new((size.x * size.y) as nat, |c: int| Pred::Open),
    {
        let area = (size.x as i128 * size.y as i128) as usize;
        let mut preds: Vec<Pred> = Vec::new();
        let mut k: usize = 0;
        while k < area
            invariant
                k <= area,
                preds@ == Seq::new(k as nat, |c: int| Pred::Open),
            decreases area - k,
        {
            preds.push(Pred::Open);
            k = k + 1;
            assert(preds@ =~= Seq::new(k as nat, |c: int| Pred::Open));
        }
        Board { preds, size }
    }

    fn index(&self, x: i128, y: i128) -> (r: usize)
        requires
            self.wf(),
            on_board(x as int, y as int, self.size.x as int, self.size.y as int),
        ensures
            r == x * self.size.y + y,
            r < self.preds@.len(),
    {
        proof {
            assert(x * self.size.y + y < self.size.x * self.size.y) by (nonlinear_arith)
                requires
                    0 <= x < self.size.x,
                    0 <= y < self.size.y,
            ;
            assert(0 <= x * self.size.y) by (nonlinear_arith)
                requires
                    0 <= x,
                    0 <= self.size.y,
            ;
        }
        (x * self.size.y as i128 + y) as usize
    }

    fn cell_of(&self, c: usize) -> (r: (i64, i64))
        requires
            self.wf(),
            c < self.preds@.len(),
        ensures
            r.0 == c as int / self.size.y as int,
            r.1 == c as int % self.size.y as int,
            on_board(r.0 as int, r.1 as int, self.size.x as int, self.size.y as int),
    {
        let x = (c as i128) / (self.size.y as i128);
        let y = (c as i128) % (self.size.y as i128);
        proof {
            assert(x < self.size.x) by (nonlinear_arith)
                requires
                    x == c as int / self.size.y as int,
                    c < self.size.x * self.size.y,
                    self.size.y >= 1,
            ;
        }
        (x as i64, y as i64)
    }

    fn on(&self, x: i128, y: i128) -> (r: bool)
        ensures
            r == on_board(x as int, y as int, self.size.x as int, self.size.y as int),
    {
        0 <= x && x < self.size.x as i128 && 0 <= y && y < self.size.y as i128
    }

    fn assert_sub(&self, sc: &SubCondition, x: i64, y: i64) -> (r: bool)
        requires
            self.wf(),
        ensures
            r == sub_holds(self.preds@, self.size.x as int, self.size.y as int, *sc, x as int, y as int),
    {
        let (pred, x_e, y_e, positive) = match sc {
            SubCondition::Id { pred, x_e, y_e } => (*pred, *x_e, *y_e, true),
            SubCondition::Not { pred, x_e, y_e } => (*pred, *x_e, *y_e, false),
        };
        let tx = target(&x_e, x, self.size.x);
        let ty = target(&y_e, y, self.size.y);
        if !self.on(tx, ty) {
            return false;
        }
        let here = self.preds[self.index(tx, ty)];
        if positive {
            here == pred
        } else {
            here != pred
        }
    }

    fn assert_condition(&self, condition: &Condition, x: i64, y: i64) -> (r: bool)
        requires
            self.wf(),
        ensures
            r == cond_holds(
                self.preds@,
                self.size.x as int,
                self.size.y as int,
                condition.sub_cond@,
                x as int,
                y as int,
            ),
    {
        let mut i: usize = 0;
        while i < condition.sub_cond.len()
            invariant
                self.wf(),
                i <= condition.sub_cond@.len(),
                forall|j: int|
                    0 <= j < i ==> sub_holds(
                        self.preds@,
                        self.size.x as int,
                        self.size.y as int,
                        #[trigger] condition.sub_cond@[j],
                        x as int,
                        y as int,
                    ),
            decreases condition.sub_cond@.len() - i,
        {
            if !self.assert_sub(&condition.sub_cond[i], x, y) {
                return false;
            }
            i = i + 1;
        }
        true
    }

    fn effect(&mut self, x: i128, y: i128, pred: Pred)
        requires
            old(self).wf(),
            on_board(x as int, y as int, old(self).size.x as int, old(self).size.y as int),
        ensures
            final(self).wf(),
            final(self).size == old(self).size,
            final(self).preds@ == old(self).preds@.update(x * old(self).size.y + y, pred),
    {
        let i = self.index(x, y);
        self.preds.set(i, pred);
    }

    /// Writes an effect anchored at `(x, y)`; where two writes pick the same cell, the
    /// first-listed one wins.
    fn effect_conditon(&mut self, condition: &Condition, x: i64, y: i64)
        requires
            old(self).wf(),
        ensures
            final(self).wf(),
            final(self).size == old(self).size,
            final(self).preds@ == apply_effect(
                old(self).preds@,
                old(self).size.x as int,
                old(self).size.y as int,
                condition.sub_cond@,
                x as int,
                y as int,
            ),
            forall|c: int|
                0 <= c < final(self).preds@.len() ==> #[trigger] final(self).preds@[c] == first_write(
                    old(self).preds@,
                    old(self).size.x as int,
                    old(self).size.y as int,
                    condition.sub_cond@,
                    x as int,
                    y as int,
                    c,
                ),
    {
        let ghost sx = self.size.x as int;
        let ghost sy = self.size.y as int;
        let ghost eff = condition.sub_cond@;
        let mut i: usize = condition.sub_cond.len();
        assert(eff.subrange(i as int, eff.len() as int) =~= seq![]);
        while i > 0
            invariant
                self.wf(),
                self.size == old(self).size,
                sx == self.size.x,
                sy == self.size.y,
                eff == condition.sub_cond@,
                i <= eff.len(),
                self.preds@ == apply_effect(
                    old(self).preds@,
                    sx,
                    sy,
                    eff.subrange(i as int, eff.len() as int),
                    x as int,
                    y as int,
                ),
            decreases i,
        {
            i = i - 1;
            let sc = condition.sub_cond[i];
            let (pred, x_e, y_e) = match sc {
                SubCondition::Id { pred, x_e, y_e } => (pred, x_e, y_e),
                SubCondition::Not { pred, x_e, y_e } => (pred, x_e, y_e),
            };
            let tx = target(&x_e, x, self.size.x);
            let ty = target(&y_e, y, self.size.y);
            proof {
                let t = eff.subrange(i as int, eff.len() as int);
                assert(t.drop_first() =~= eff.subrange(i + 1, eff.len() as int));
                assert(t[0] == sc);
            }
            if self.on(tx, ty) {
                self.effect(tx, ty, pred);
            }
        }
        assert(eff.subrange(0, eff.len() as int) =~= eff);
        proof {
            lemma_first_write_wins(old(self).preds@, sx, sy, eff, x as int, y as int);
        }
    }

    fn copy(&self) -> (r: Board)
        requires
            self.wf(),
        ensures
            r.wf(),
            r.size == self.size,
            r.preds@ == self.preds@,
    {
        let mut preds: Vec<Pred> = Vec::new();
        let mut i: usize = 0;
        while i < self.preds.len()
            invariant
                i <= self.preds@.len(),
                preds@ == self.preds@.take(i as int),
            decreases self.preds@.len() - i,
        {
            preds.push(self.preds[i]);
            i = i + 1;
            assert(preds@ =~= self.preds@.take(i as int));
        }
        assert(self.preds@.take(i as int) =~= self.preds@);
        Board { preds, size: self.size }
    }

    fn assert_goals(&self, goals: &Vec<Condition>) -> (r: bool)
        requires
            self.wf(),
        ensures
            r == goal_reached(self.preds@, self.size.x as int, self.size.y as int, goals@),
    {
        let ghost sx = self.size.x as int;
        let ghost sy = self.size.y as int;
        let area = self.preds.len();
        let mut c: usize = 0;
        while c < area
            invariant
                self.wf(),
                area == self.preds@.len(),
                sx == self.size.x,
                sy == self.size.y,
                c <= area,
                forall|c2: int, g: int|
                    0 <= c2 < c && 0 <= g < goals@.len() ==> !#[trigger] cond_holds(
                        self.preds@,
                        sx,
                        sy,
                        goals@[g].sub_cond@,
                        c2 / sy,
                        c2 % sy,
                    ),
            decreases area - c,
        {
            let (x, y) = self.cell_of(c);
            let mut g: usize = 0;
            while g < goals.len()
                invariant
                    self.wf(),
                    area == self.preds@.len(),
                    sx == self.size.x,
                    sy == self.size.y,
                    c < area,
                    x == c as int / sy,
                    y == c as int % sy,
                    g <= goals@.len(),
                    forall|c2: int, g2: int|
                        0 <= c2 < c && 0 <= g2 < goals@.len() ==> !#[trigger] cond_holds(
                            self.preds@,
                            sx,
                            sy,
                            goals@[g2].sub_cond@,
                            c2 / sy,
                            c2 % sy,
                        ),
                    forall|g2: int|
                        0 <= g2 < g ==> !#[trigger] cond_holds(
                            self.preds@,
                            sx,
                            sy,
                            goals@[g2].sub_cond@,
                            c as int / sy,
                            c as int % sy,
                        ),
                decreases goals@.len() - g,
            {
                if self.assert_condition(&goals[g], x, y) {
                    assert(cond_holds(self.preds@, sx, sy, goals@[g as int].sub_cond@, c as int / sy, c as int % sy));
                    return true;
                }
                g = g + 1;
            }
            c = c + 1;
        }
        false
    }
}


/// What the search asks of a game.
pub open spec fn search_ok(p: Problem, d: Domain) -> bool {
    &&& p.wf()
    &&& d.wf()
    &&& p.size.x * p.size.y <= usize::MAX
}

/// Searches every line of play for a Black win within the ply budget: the name and
/// anchor of a winning first move of Black, or `None` when there is none.
pub fn solve(problem: &Problem, domain: &Domain) -> (r: Option<(String, i64, i64)>)
    requires
        search_ok(*problem, *domain),
    ensures
        r.is_some() == black_wins(*problem, *domain, initial_board(*problem, problem.init@.len()), problem.depth as nat),
        r.is_some() ==> ({
            let (name, x, y) = r.unwrap();
            &&& on_board(x as int, y as int, problem.size.x as int, problem.size.y as int)
            &&& exists|i: int|
                0 <= i < domain.black_actions@.len() && (#[trigger] domain.black_actions@[i]).name@ == name@
                    && black_move_wins(
                    *problem,
                    *domain,
                    initial_board(*problem, problem.init@.len()),
                    problem.depth as nat,
                    i,
                    x * problem.size.y + y,
                )
        }),
{
    let mut board = Board::new(problem.size);
    let mut i: usize = 0;
    while i < problem.init.len()
        invariant
            search_ok(*problem, *domain),
            i <= problem.init@.len(),
            board.wf(),
            board.size == problem.size,
            board.preds@ == initial_board(*problem, i as nat),
        decreases problem.init@.len() - i,
    {
        let ip = problem.init[i];
        assert(0 <= problem.init@[i as int].x < problem.size.x);
        board.effect(ip.x as i128, ip.y as i128, ip.pred);
        i = i + 1;
    }
    solve_black(problem, domain, board, problem.depth)
}

fn solve_black(problem: &Problem, domain: &Domain, board: Board, depth: u64) -> (r: Option<(String, i64, i64)>)
    requires
        search_ok(*problem, *domain),
        board.wf(),
        board.size == problem.size,
    ensures
        r.is_some() == black_wins(*problem, *domain, board.preds@, depth as nat),
        r.is_some() ==> ({
            let (name, x, y) = r.unwrap();
            &&& on_board(x as int, y as int, problem.size.x as int, problem.size.y as int)
            &&& exists|i: int|
                0 <= i < domain.black_actions@.len() && (#[trigger] domain.black_actions@[i]).name@ == name@
                    && black_move_wins(*problem, *domain, board.preds@, depth as nat, i, x * problem.size.y + y)
        }),
    decreases depth, 1nat,
{
    if depth == 0 {
        return None;
    }
    let ghost k = depth as nat;
    let area = board.preds.len();
    let ghost ai = area as int;
    let mut i: usize = 0;
    while i < domain.black_actions.len()
        invariant
            search_ok(*problem, *domain),
            board.wf(),
            board.size == problem.size,
            area == board.preds@.len(),
            ai == area,
            area_of(*problem) == area,
            k == depth,
            depth > 0,
            i <= domain.black_actions@.len(),
            !black_any(*problem, *domain, board.preds@, k, (i * ai) as nat),
        decreases domain.black_actions@.len() - i,
    {
        let action = &domain.black_actions[i];
        let mut c: usize = 0;
        while c < area
            invariant
                search_ok(*problem, *domain),
                board.wf(),
                board.size == problem.size,
                area == board.preds@.len(),
                ai == area,
                area_of(*problem) == area,
                k == depth,
                depth > 0,
                i < domain.black_actions@.len(),
                *action == domain.black_actions@[i as int],
                c <= area,
                !black_any(*problem, *domain, board.preds@, k, (i * ai + c) as nat),
            decreases area - c,
        {
            let (x, y) = board.cell_of(c);
            proof {
                lemma_cell_index(c as int, problem.size.y as int);
                lemma_move_index(i as int, c as int, ai);
            }
            let ghost m = (i * ai + c) as nat;
            if board.assert_condition(&action.precondition, x, y) {
                let mut next = board.copy();
                next.effect_conditon(&action.effect, x, y);
                if next.assert_goals(&problem.black_goals) {
                    proof {
                        assert(black_move_wins(*problem, *domain, board.preds@, k, i as int, c as int));
                        assert(black_any(*problem, *domain, board.preds@, k, m + 1));
                        assert(m + 1 <= domain.black_actions@.len() * ai) by (nonlinear_arith)
                            requires
                                m == i * ai + c,
                                c < ai,
                                i < domain.black_actions@.len(),
                        ;
                        lemma_black_any_mono(
                            *problem,
                            *domain,
                            board.preds@,
                            k,
                            m + 1,
                            domain.black_actions@.len() * area_of(*problem),
                        );
                    }
                    return Some((action.name.clone(), x, y));
                }
                if solve_white(problem, domain, next, depth - 1) {
                    proof {
                        assert(black_move_wins(*problem, *domain, board.preds@, k, i as int, c as int));
                        assert(black_any(*problem, *domain, board.preds@, k, m + 1));
                        assert(m + 1 <= domain.black_actions@.len() * ai) by (nonlinear_arith)
                            requires
                                m == i * ai + c,
                                c < ai,
                                i < domain.black_actions@.len(),
                        ;
                        lemma_black_any_mono(
                            *problem,
                            *domain,
                            board.preds@,
                            k,
                            m + 1,
                            domain.black_actions@.len() * area_of(*problem),
                        );
                    }
                    return Some((action.name.clone(), x, y));
                }
            }
            assert(!black_move_wins(*problem, *domain, board.preds@, k, i as int, c as int));
            assert(!black_any(*problem, *domain, board.preds@, k, m + 1));
            c = c + 1;
        }
        proof {
            assert((i + 1) * ai == i * ai + ai) by (nonlinear_arith);
        }
        i = i + 1;
    }
    None
}

fn solve_white(problem: &Problem, domain: &Domain, board: Board, depth: u64) -> (r: bool)
    requires
        search_ok(*problem, *domain),
        board.wf(),
        board.size == problem.size,
    ensures
        r == white_holds(*problem, *domain, board.preds@, depth as nat),
    decreases depth, 1nat,
{
    if depth == 0 {
        return false;
    }
    let ghost k = depth as nat;
    let area = board.preds.len();
    let ghost ai = area as int;
    let mut i: usize = 0;
    while i < domain.white_actions.len()
        invariant
            search_ok(*problem, *domain),
            board.wf(),
            board.size == problem.size,
            area == board.preds@.len(),
            ai == area,
            area_of(*problem) == area,
            k == depth,
            depth > 0,
            i <= domain.white_actions@.len(),
            white_all(*problem, *domain, board.preds@, k, (i * ai) as nat),
        decreases domain.white_actions@.len() - i,
    {
        let action = &domain.white_actions[i];
        let mut c: usize = 0;
        while c < area
            invariant
                search_ok(*problem, *domain),
                board.wf(),
                board.size == problem.size,
                area == board.preds@.len(),
                ai == area,
                area_of(*problem) == area,
                k == depth,
                depth > 0,
                i < domain.white_actions@.len(),
                *action == domain.white_actions@[i as int],
                c <= area,
                white_all(*problem, *domain, board.preds@, k, (i * ai + c) as nat),
            decreases area - c,
        {
            let (x, y) = board.cell_of(c);
            proof {
                lemma_cell_index(c as int, problem.size.y as int);
                lemma_move_index(i as int, c as int, ai);
            }
            let ghost m = (i * ai + c) as nat;
            if board.assert_condition(&action.precondition, x, y) {
                let mut next = board.copy();
                next.effect_conditon(&action.effect, x, y);
                if next.assert_goals(&problem.white_goals) {
                    proof {
                        assert(!white_move_loses(*problem, *domain, board.preds@, k, i as int, c as int));
                        assert(!white_all(*problem, *domain, board.preds@, k, m + 1));
                        assert(m + 1 <= domain.white_actions@.len() * ai) by (nonlinear_arith)
                            requires
                                m == i * ai + c,
                                c < ai,
                                i < domain.white_actions@.len(),
                        ;
                        lemma_white_all_mono(
                            *problem,
                            *domain,
                            board.preds@,
                            k,
                            m + 1,
                            domain.white_actions@.len() * area_of(*problem),
                        );
                    }
                    return false;
                }
                let f = solve_black(problem, domain, next, depth - 1);
                if f.is_none() {
                    proof {
                        assert(!white_move_loses(*problem, *domain, board.preds@, k, i as int, c as int));
                        assert(!white_all(*problem, *domain, board.preds@, k, m + 1));
                        assert(m + 1 <= domain.white_actions@.len() * ai) by (nonlinear_arith)
                            requires
                                m == i * ai + c,
                                c < ai,
                                i < domain.white_actions@.len(),
                        ;
                        lemma_white_all_mono(
                            *problem,
                            *domain,
                            board.preds@,
                            k,
                            m + 1,
                            domain.white_actions@.len() * area_of(*problem),
                        );
                    }
                    return false;
                }
            }
            assert(white_move_loses(*problem, *domain, board.preds@, k, i as int, c as int));
            assert(white_all(*problem, *domain, board.preds@, k, m + 1));
            c = c + 1;
        }
        proof {
            assert((i + 1) * ai == i * ai + ai) by (nonlinear_arith);
        }
        i = i + 1;
    }
    true
}

proof fn lemma_cell_index(c: int, sy: int)
    requires
        0 <= c,
        sy >= 1,
    ensures
        (c / sy) * sy + c % sy == c,
{
    assert((c / sy) * sy + c % sy == c) by (nonlinear_arith)
        requires
            sy >= 1,
    ;
}

} // verus!
