use crate::bddl::{Action, Condition, Domain, InitPred, Pred, Problem, Size, SubCondition, E};
use vstd::prelude::*;

verus! {

/// `pred` at the cell the two expressions pick.
pub open spec fn at(pred: Pred, x_e: E, y_e: E) -> SubCondition {
    SubCondition::Id { pred, x_e, y_e }
}

/// The one action of a player: fill an open cell with `pred`.
pub open spec fn is_fill(a: Action, pred: Pred) -> bool {
    &&& a.name@ == seq!['f', 'i', 'l', 'l']
    &&& a.precondition.sub_cond@ == seq![at(Pred::Open, E::Identity, E::Identity)]
    &&& a.effect.sub_cond@ == seq![at(pred, E::Identity, E::Identity)]
}

fn fill(pred: Pred) -> (r: Action)
    ensures
        is_fill(r, pred),
{
    proof {
        reveal_strlit("fill");
    }
    let name = "fill".to_owned();
    let pre = vec![SubCondition::Id { pred: Pred::Open, x_e: E::Identity, y_e: E::Identity }];
    let eff = vec![SubCondition::Id { pred, x_e: E::Identity, y_e: E::Identity }];
    assert(name@ =~= seq!['f', 'i', 'l', 'l']);
    assert(pre@ =~= seq![at(Pred::Open, E::Identity, E::Identity)]);
    assert(eff@ =~= seq![at(pred, E::Identity, E::Identity)]);
    Action { name, precondition: Condition { sub_cond: pre }, effect: Condition { sub_cond: eff } }
}

/// Tic-tac-toe's moves: each player fills an open cell with its own stone.
pub fn domain() -> (r: Domain)
    ensures
        r.wf(),
        r.black_actions@.len() == 1,
        r.white_actions@.len() == 1,
        is_fill(r.black_actions@[0], Pred::Black),
        is_fill(r.white_actions@[0], Pred::White),
{
    let black_actions = fill(Pred::Black);
    let white_actions = fill(Pred::White);
    let r = Domain { black_actions: vec![black_actions], white_actions: vec![white_actions] };
    assert(r.black_actions@[0].precondition.sub_cond@[0].wf());
    assert(r.white_actions@[0].precondition.sub_cond@[0].wf());
    r
}

/// The four lines of three through a middle cell, in the order horizontal, vertical,
/// diagonal, anti-diagonal.
pub open spec fn lines(pred: Pred) -> Seq<Seq<SubCondition>> {
    seq![
        seq![
            at(pred, E::Sub(1), E::Identity),
            at(pred, E::Identity, E::Identity),
            at(pred, E::Add(1), E::Identity),
        ],
        seq![
            at(pred, E::Identity, E::Sub(1)),
            at(pred, E::Identity, E::Identity),
            at(pred, E::Identity, E::Add(1)),
        ],
        seq![
            at(pred, E::Sub(1), E::Sub(1)),
            at(pred, E::Identity, E::Identity),
            at(pred, E::Add(1), E::Add(1)),
        ],
        seq![
            at(pred, E::Add(1), E::Sub(1)),
            at(pred, E::Identity, E::Identity),
            at(pred, E::Sub(1), E::Add(1)),
        ],
    ]
}

/// The sub-conditions of each goal.
pub open spec fn goal_view(gs: Seq<Condition>) -> Seq<Seq<SubCondition>> {
    gs.map_values(|c: Condition| c.sub_cond@)
}

/// Three in a row of `pred`, in any of the four directions.
pub fn goals(pred: Pred) -> (r: Vec<Condition>)
    ensures
        goal_view(r@) == lines(pred),
        crate::bddl::conditions_wf(r@),
{
    let horizontal = Condition {
        sub_cond: vec![
            SubCondition::Id { pred, x_e: E::Sub(1), y_e: E::Identity },
            SubCondition::Id { pred, x_e: E::Identity, y_e: E::Identity },
            SubCondition::Id { pred, x_e: E::Add(1), y_e: E::Identity },
        ],
    };
    let vertical = Condition {
        sub_cond: vec![
            SubCondition::Id { pred, x_e: E::Identity, y_e: E::Sub(1) },
            SubCondition::Id { pred, x_e: E::Identity, y_e: E::Identity },
            SubCondition::Id { pred, x_e: E::Identity, y_e: E::Add(1) },
        ],
    };
    let diag_1 = Condition {
        sub_cond: vec![
            SubCondition::Id { pred, x_e: E::Sub(1), y_e: E::Sub(1) },
            SubCondition::Id { pred, x_e: E::Identity, y_e: E::Identity },
            SubCondition::Id { pred, x_e: E::Add(1), y_e: E::Add(1) },
        ],
    };
    let diag_2 = Condition {
        sub_cond: vec![
            SubCondition::Id { pred, x_e: E::Add(1), y_e: E::Sub(1) },
            SubCondition::Id { pred, x_e: E::Identity, y_e: E::Identity },
            SubCondition::Id { pred, x_e: E::Sub(1), y_e: E::Add(1) },
        ],
    };
    let r = vec![horizontal, vertical, diag_1, diag_2];
    assert(goal_view(r@) =~= lines(pred));
    assert forall|i: int| 0 <= i < r@.len() implies (#[trigger] r@[i]).wf() by {
        assert(r@[i].sub_cond@ == lines(pred)[i]);
    }
    r
}

/// Tic-tac-toe on an empty 3 by 3 board, five plies deep.
pub fn problem() -> (r: Problem)
    ensures
        r.wf(),
        r.size == (Size { x: 3, y: 3 }),
        r.init@.len() == 0,
        r.depth == 5,
        goal_view(r.white_goals@) == lines(Pred::White),
        goal_view(r.black_goals@) == lines(Pred::Black),
{
    let size = Size { x: 3, y: 3 };
    let init: Vec<InitPred> = Vec::new();
    Problem { size, init, depth: 5, white_goals: goals(Pred::White), black_goals: goals(Pred::Black) }
}

} // verus!
