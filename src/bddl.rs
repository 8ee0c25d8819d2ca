use vstd::prelude::*;

verus! {

/// A conjunction of sub-conditions, all anchored at the same cell.
#[derive(Debug, Clone)]
pub struct Condition {
    pub sub_cond: Vec<SubCondition>,
}

/// A claim about the cell that two coordinate expressions pick from an anchor.
#[derive(Debug, Clone, Copy, PartialEq, Eq, Structural)]
pub enum SubCondition {
    Id { pred: Pred, x_e: E, y_e: E },
    Not { pred: Pred, x_e: E, y_e: E },
}

/// The three states of a cell.
#[derive(Debug, Clone, Copy, PartialEq, Eq, Structural)]
pub enum Pred {
    Open,
    White,
    Black,
}

/// A coordinate expression, applied to an anchor coordinate and a board extent.
#[derive(Debug, Clone, Copy, PartialEq, Eq, Structural)]
pub enum E {
    Add(i64),
    Sub(i64),
    Int(i64),
    Identity,
    Min,
    Max,
}

impl E {
    /// The coordinate this expression gives for anchor `v` on an extent `max`.
    pub open spec fn target(self, v: int, max: int) -> int {
        match self {
            E::Add(u) => v + u,
            E::Sub(u) => v - u,
            E::Int(u) => u as int,
            E::Identity => v,
            E::Min => 0,
            E::Max => max - 1,
        }
    }

    /// The coordinate, or `None` where an offset runs off its side of the board.
    pub open spec fn normalized(self, v: int, max: int) -> Option<int> {
        match self {
            E::Add(u) => if v + u < max {
                Some(v + u)
            } else {
                None
            },
            E::Sub(u) => if v - u >= 0 {
                Some(v - u)
            } else {
                None
            },
            _ => Some(self.target(v, max)),
        }
    }

    /// Offsets are not negative.
    pub open spec fn wf(self) -> bool {
        match self {
            E::Add(u) => u >= 0,
            E::Sub(u) => u >= 0,
            _ => true,
        }
    }

    /// The coordinate for anchor `v`; `None` where `Add` reaches `max` or `Sub` goes
    /// below 0.
    pub fn noramlize(&self, v: i64, max: i64) -> (r: Option<i64>)
        requires
            i64::MIN <= self.target(v as int, max as int) <= i64::MAX,
        ensures
            r.is_some() == self.normalized(v as int, max as int).is_some(),
            r.is_some() ==> r.unwrap() as int == self.normalized(v as int, max as int).unwrap(),
    {
        match self {
            E::Add(u) => if v + *u < max {
                Some(v + *u)
            } else {
                None
            },
            E::Sub(u) => if v - *u >= 0 {
                Some(v - *u)
            } else {
                None
            },
            E::Int(u) => Some(*u),
            E::Identity => Some(v),
            E::Min => Some(0),
            E::Max => Some(max - 1),
        }
    }

    /// The coordinate for anchor `v`, with no bounds check.
    pub fn noramlize_t(&self, v: i64, max: i64) -> (r: i64)
        requires
            i64::MIN <= self.target(v as int, max as int) <= i64::MAX,
        ensures
            r as int == self.target(v as int, max as int),
    {
        match self {
            E::Add(u) => v + *u,
            E::Sub(u) => v - *u,
            E::Int(u) => *u,
            E::Identity => v,
            E::Min => 0,
            E::Max => max - 1,
        }
    }
}

impl SubCondition {
    pub open spec fn pred(self) -> Pred {
        match self {
            SubCondition::Id { pred, .. } => pred,
            SubCondition::Not { pred, .. } => pred,
        }
    }

    pub open spec fn x_e(self) -> E {
        match self {
            SubCondition::Id { x_e, .. } => x_e,
            SubCondition::Not { x_e, .. } => x_e,
        }
    }

    pub open spec fn y_e(self) -> E {
        match self {
            SubCondition::Id { y_e, .. } => y_e,
            SubCondition::Not { y_e, .. } => y_e,
        }
    }

    /// Both coordinate expressions have non-negative offsets.
    pub open spec fn wf(self) -> bool {
        self.x_e().wf() && self.y_e().wf()
    }
}

impl Condition {
    /// Every sub-condition is well formed.
    pub open spec fn wf(self) -> bool {
        forall|i: int| 0 <= i < self.sub_cond@.len() ==> (#[trigger] self.sub_cond@[i]).wf()
    }

    /// Every sub-condition is an `Id`, as an effect's must be.
    pub open spec fn is_positive(self) -> bool {
        forall|i: int| 0 <= i < self.sub_cond@.len() ==> (#[trigger] self.sub_cond@[i]) is Id
    }

    /// Whether every sub-condition is an `Id`.
    pub fn all_positive(&self) -> (r: bool)
        ensures
            r == self.is_positive(),
    {
        let mut i: usize = 0;
        while i < self.sub_cond.len()
            invariant
                i <= self.sub_cond@.len(),
                forall|j: int| 0 <= j < i ==> (#[trigger] self.sub_cond@[j]) is Id,
            decreases self.sub_cond@.len() - i,
        {
            if let SubCondition::Not { .. } = self.sub_cond[i] {
                return false;
            }
            i = i + 1;
        }
        true
    }
}

/// The actions of each player.
#[derive(Debug)]
pub struct Domain {
    pub black_actions: Vec<Action>,
    pub white_actions: Vec<Action>,
}

/// A move: where it may be made, and what it writes.
#[derive(Debug, Clone)]
pub struct Action {
    pub name: String,
    pub precondition: Condition,
    pub effect: Condition,
}

impl Action {
    pub open spec fn wf(self) -> bool {
        self.precondition.wf() && self.effect.wf() && self.effect.is_positive()
    }
}

/// Every action of `acts` is well formed.
pub open spec fn actions_wf(acts: Seq<Action>) -> bool {
    forall|i: int| 0 <= i < acts.len() ==> (#[trigger] acts[i]).wf()
}

impl Domain {
    /// Every effect holds `Id` sub-conditions only, and every offset is non-negative.
    pub open spec fn wf(self) -> bool {
        actions_wf(self.black_actions@) && actions_wf(self.white_actions@)
    }

    /// Whether no effect of either player holds a `Not` sub-condition.
    pub fn effects_are_positive(&self) -> (r: bool)
        ensures
            r == ((forall|i: int|
                0 <= i < self.black_actions@.len() ==> (#[trigger] self.black_actions@[i]).effect.is_positive())
                && (forall|i: int|
                0 <= i < self.white_actions@.len() ==> (#[trigger] self.white_actions@[i]).effect.is_positive())),
    {
        let mut i: usize = 0;
        while i < self.black_actions.len()
            invariant
                i <= self.black_actions@.len(),
                forall|j: int| 0 <= j < i ==> (#[trigger] self.black_actions@[j]).effect.is_positive(),
            decreases self.black_actions@.len() - i,
        {
            if !self.black_actions[i].effect.all_positive() {
                assert(!self.black_actions@[i as int].effect.is_positive());
                return false;
            }
            i = i + 1;
        }
        let mut i: usize = 0;
        while i < self.white_actions.len()
            invariant
                i <= self.white_actions@.len(),
                forall|j: int| 0 <= j < self.black_actions@.len() ==> (#[trigger] self.black_actions@[j]).effect.is_positive(),
                forall|j: int| 0 <= j < i ==> (#[trigger] self.white_actions@[j]).effect.is_positive(),
            decreases self.white_actions@.len() - i,
        {
            if !self.white_actions[i].effect.all_positive() {
                assert(!self.white_actions@[i as int].effect.is_positive());
                return false;
            }
            i = i + 1;
        }
        true
    }
}

/// A game to solve: the board, its initial cells, the ply budget and the goals.
#[derive(Debug)]
pub struct Problem {
    pub size: Size,
    pub init: Vec<InitPred>,
    pub depth: u64,
    pub white_goals: Vec<Condition>,
    pub black_goals: Vec<Condition>,
}

/// The extents of a board.
#[derive(Debug, Clone, Copy, PartialEq, Eq, Structural)]
pub struct Size {
    pub x: i64,
    pub y: i64,
}

/// A cell's initial state.
#[derive(Debug, Clone, Copy, PartialEq, Eq, Structural)]
pub struct InitPred {
    pub pred: Pred,
    pub x: i64,
    pub y: i64,
}

/// Every condition of `cs` is well formed.
pub open spec fn conditions_wf(cs: Seq<Condition>) -> bool {
    forall|i: int| 0 <= i < cs.len() ==> (#[trigger] cs[i]).wf()
}

impl Problem {
    /// Positive extents, initial cells on the board, non-negative goal offsets.
    pub open spec fn wf(self) -> bool {
        &&& self.size.x >= 1
        &&& self.size.y >= 1
        &&& forall|i: int|
            0 <= i < self.init@.len() ==> 0 <= (#[trigger] self.init@[i]).x < self.size.x && 0
                <= self.init@[i].y < self.size.y
        &&& conditions_wf(self.white_goals@)
        &&& conditions_wf(self.black_goals@)
    }
}


impl SubCondition {
    /// Whether both offsets are non-negative.
    pub fn is_well_formed(&self) -> (r: bool)
        ensures
            r == self.wf(),
    {
        let (x_e, y_e) = match self {
            SubCondition::Id { x_e, y_e, .. } => (x_e, y_e),
            SubCondition::Not { x_e, y_e, .. } => (x_e, y_e),
        };
        offset_ok(x_e) && offset_ok(y_e)
    }
}

fn offset_ok(e: &E) -> (r: bool)
    ensures
        r == e.wf(),
{
    match e {
        E::Add(u) => *u >= 0,
        E::Sub(u) => *u >= 0,
        _ => true,
    }
}

impl Condition {
    /// Whether every offset is non-negative.
    pub fn is_well_formed(&self) -> (r: bool)
        ensures
            r == self.wf(),
    {
        let mut i: usize = 0;
        while i < self.sub_cond.len()
            invariant
                i <= self.sub_cond@.len(),
                forall|j: int| 0 <= j < i ==> (#[trigger] self.sub_cond@[j]).wf(),
            decreases self.sub_cond@.len() - i,
        {
            if !self.sub_cond[i].is_well_formed() {
                return false;
            }
            i = i + 1;
        }
        true
    }
}

fn conditions_well_formed(cs: &Vec<Condition>) -> (r: bool)
    ensures
        r == conditions_wf(cs@),
{
    let mut i: usize = 0;
    while i < cs.len()
        invariant
            i <= cs@.len(),
            forall|j: int| 0 <= j < i ==> (#[trigger] cs@[j]).wf(),
        decreases cs@.len() - i,
    {
        if !cs[i].is_well_formed() {
            return false;
        }
        i = i + 1;
    }
    true
}

fn actions_well_formed(acts: &Vec<Action>) -> (r: bool)
    ensures
        r == actions_wf(acts@),
{
    let mut i: usize = 0;
    while i < acts.len()
        invariant
            i <= acts@.len(),
            forall|j: int| 0 <= j < i ==> (#[trigger] acts@[j]).wf(),
        decreases acts@.len() - i,
    {
        let a = &acts[i];
        if !(a.precondition.is_well_formed() && a.effect.is_well_formed() && a.effect.all_positive()) {
            return false;
        }
        i = i + 1;
    }
    true
}

impl Domain {
    /// Whether every effect is positive and every offset non-negative.
    pub fn is_well_formed(&self) -> (r: bool)
        ensures
            r == self.wf(),
    {
        actions_well_formed(&self.black_actions) && actions_well_formed(&self.white_actions)
    }
}

impl Problem {
    /// Whether the extents are positive, the initial cells on the board, and every goal
    /// offset non-negative.
    pub fn is_well_formed(&self) -> (r: bool)
        ensures
            r == self.wf(),
    {
        if self.size.x < 1 || self.size.y < 1 {
            return false;
        }
        let mut i: usize = 0;
        while i < self.init.len()
            invariant
                i <= self.init@.len(),
                forall|j: int|
                    0 <= j < i ==> 0 <= (#[trigger] self.init@[j]).x < self.size.x && 0 <= self.init@[j].y
                        < self.size.y,
            decreases self.init@.len() - i,
        {
            let ip = self.init[i];
            if !(0 <= ip.x && ip.x < self.size.x && 0 <= ip.y && ip.y < self.size.y) {
                return false;
            }
            i = i + 1;
        }
        conditions_well_formed(&self.white_goals) && conditions_well_formed(&self.black_goals)
    }
}

} // verus!
