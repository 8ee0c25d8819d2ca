use bddl::bddl::{Action, Condition, Domain, InitPred, Pred, Problem, Size, SubCondition, E};
use bddl::dimacs::qdimacs;
use bddl::qbf::{Atom, AtomCounter, Formula};
use bddl::solver;
use bddl::solver_qbf;
use bddl::solver_qbf::width_of;
use bddl::tictac;
use std::collections::HashMap;

fn id(pred: Pred) -> SubCondition {
    SubCondition::Id { pred, x_e: E::Identity, y_e: E::Identity }
}

fn one_cell(depth: u64) -> (Problem, Domain) {
    let fill = Action {
        name: "fill".to_string(),
        precondition: Condition { sub_cond: vec![id(Pred::Open)] },
        effect: Condition { sub_cond: vec![id(Pred::Black)] },
    };
    let domain = Domain { black_actions: vec![fill], white_actions: vec![] };
    let problem = Problem {
        size: Size { x: 1, y: 1 },
        init: vec![],
        depth,
        white_goals: vec![],
        black_goals: vec![Condition { sub_cond: vec![id(Pred::Black)] }],
    };
    (problem, domain)
}

fn value(a: &Atom, s: &HashMap<u64, bool>) -> bool {
    let v = *s.get(&a.var).unwrap_or(&false);
    if a.positive {
        v
    } else {
        !v
    }
}

/// Evaluates a closed formula; each quantified variable tries the hinted value first.
fn eval(f: &Formula, s: &mut HashMap<u64, bool>, hint: &HashMap<u64, bool>) -> bool {
    match f {
        Formula::Atom(a) => value(a, s),
        Formula::Not(g) => !eval(g, s, hint),
        Formula::And(g, h) => eval(g, s, hint) && eval(h, s, hint),
        Formula::Or(g, h) => eval(g, s, hint) || eval(h, s, hint),
        Formula::Exists(a, g) | Formula::Forall(a, g) => {
            let exists = matches!(f, Formula::Exists(..));
            let first = *hint.get(&a.var).unwrap_or(&false);
            let mut result = !exists;
            for b in [first, !first] {
                s.insert(a.var, b);
                let r = eval(g, s, hint);
                if r == exists {
                    result = exists;
                    break;
                }
            }
            s.remove(&a.var);
            result
        }
    }
}

fn holds(f: &Formula, truth: u64, hint: &HashMap<u64, bool>) -> bool {
    let mut s = HashMap::from([(truth, true)]);
    eval(f, &mut s, hint)
}

#[test]
fn noramlize_checks_the_side_an_offset_runs_off() {
    assert_eq!(E::Add(1).noramlize(1, 3), Some(2));
    assert_eq!(E::Add(2).noramlize(1, 3), None);
    assert_eq!(E::Sub(1).noramlize(1, 3), Some(0));
    assert_eq!(E::Sub(2).noramlize(1, 3), None);
    assert_eq!(E::Int(7).noramlize(1, 3), Some(7));
    assert_eq!(E::Identity.noramlize(2, 3), Some(2));
    assert_eq!(E::Min.noramlize(2, 3), Some(0));
    assert_eq!(E::Max.noramlize(0, 3), Some(2));
    assert_eq!(E::Add(5).noramlize_t(1, 3), 6);
    assert_eq!(E::Sub(5).noramlize_t(1, 3), -4);
    assert_eq!(E::Max.noramlize_t(1, 3), 2);
}

#[test]
fn widths_are_ceil_log2_at_least_one() {
    assert_eq!(width_of(0), 1);
    assert_eq!(width_of(1), 1);
    assert_eq!(width_of(2), 1);
    assert_eq!(width_of(3), 2);
    assert_eq!(width_of(4), 2);
    assert_eq!(width_of(5), 3);
    assert_eq!(width_of(9), 4);
}

#[test]
fn effects_must_be_positive() {
    let (_, mut domain) = one_cell(1);
    assert!(domain.effects_are_positive());
    domain.black_actions[0].effect.sub_cond.push(SubCondition::Not {
        pred: Pred::White,
        x_e: E::Identity,
        y_e: E::Identity,
    });
    assert!(!domain.effects_are_positive());
}

#[test]
fn depth_zero_compiles_to_false() {
    let (problem, domain) = one_cell(0);
    let mut c = AtomCounter::new();
    let f = solver_qbf::solve(&problem, &domain, &mut c);
    let t = Atom { var: 1, positive: true };
    let want = Formula::And(Box::new(Formula::Atom(t)), Box::new(Formula::Atom(t.invert())));
    assert_eq!(format!("{:?}", f), format!("{:?}", want));
    assert!(!holds(&f, 1, &HashMap::new()));
    assert_eq!(solver::solve(&problem, &domain), None);
}

#[test]
fn one_cell_forced_win() {
    let (problem, domain) = one_cell(1);
    let mut c = AtomCounter::new();
    let f = solver_qbf::solve(&problem, &domain, &mut c);
    // truth 1; x 2; y 3; tpe 4; new board 5 (open), 6 (black)
    assert_eq!(c.last, 6);
    assert!(holds(&f, 1, &HashMap::new()));
    assert_eq!(solver::solve(&problem, &domain), Some(("fill".to_string(), 0, 0)));
    let text = pipeline(f, &mut c);
    assert!(text.starts_with("p cnf "));
    assert!(text.contains("\ne "));
}

fn pipeline(f: Formula, c: &mut AtomCounter) -> String {
    let p = f.denegify().prenexify();
    let (prefix, matrix) = p.prenex_to_prenex_cnf(c);
    qdimacs(&prefix, &matrix)
}

#[test]
fn one_cell_without_budget_has_no_win() {
    let (problem, domain) = one_cell(0);
    let mut c = AtomCounter::new();
    let f = solver_qbf::solve(&problem, &domain, &mut c);
    assert!(!holds(&f, 1, &HashMap::new()));
    let text = pipeline(f, &mut c);
    // the helper of the root comes first (id 1); the true atom is id 2
    assert_eq!(text, "p cnf 2 4\ne 1 0\n1 -2 2 0\n2 -1 0\n-2 -1 0\n1 0\n");
}

#[test]
fn one_cell_already_taken_has_no_win() {
    let (mut problem, domain) = one_cell(3);
    problem.init.push(InitPred { pred: Pred::White, x: 0, y: 0 });
    let mut c = AtomCounter::new();
    let f = solver_qbf::solve(&problem, &domain, &mut c);
    assert!(!holds(&f, 1, &HashMap::new()));
    assert_eq!(solver::solve(&problem, &domain), None);
}

#[test]
fn tictac_empty_board_is_a_draw() {
    let problem = tictac::problem();
    let domain = tictac::domain();
    assert_eq!(problem.depth, 5);
    assert_eq!(problem.black_goals.len(), 4);
    assert_eq!(solver::solve(&problem, &domain), None);
    let mut c = AtomCounter::new();
    let f = solver_qbf::solve(&problem, &domain, &mut c);
    assert!(matches!(f, Formula::And(..)));
    // per ply: 2 + 2 bits of anchor, 1 bit of action, 18 board atoms
    assert_eq!(c.last, 1 + 5 * 23);
}

#[test]
fn tictac_two_in_a_row_wins_in_one() {
    let mut problem = tictac::problem();
    problem.depth = 1;
    problem.init = vec![
        InitPred { pred: Pred::Black, x: 0, y: 0 },
        InitPred { pred: Pred::Black, x: 1, y: 0 },
        InitPred { pred: Pred::White, x: 0, y: 1 },
        InitPred { pred: Pred::White, x: 1, y: 1 },
    ];
    let domain = tictac::domain();
    assert_eq!(solver::solve(&problem, &domain), Some(("fill".to_string(), 2, 0)));
    let mut c = AtomCounter::new();
    let f = solver_qbf::solve(&problem, &domain, &mut c);
    // truth 1; x 2..3; y 4..5; tpe 6; cell (x, y) of the new board: 7 + 2 (3x + y) open, 8 + .. black
    let mut hint = HashMap::from([(2, false), (3, true), (4, false), (5, false), (6, false)]);
    for x in 0..3u64 {
        for y in 0..3u64 {
            let black = (x, y) == (0, 0) || (x, y) == (1, 0) || (x, y) == (2, 0);
            let white = (x, y) == (0, 1) || (x, y) == (1, 1);
            hint.insert(7 + 2 * (3 * x + y), !black && !white);
            hint.insert(8 + 2 * (3 * x + y), black);
        }
    }
    assert!(holds(&f, 1, &hint));
}

#[test]
fn white_turn_checks_black_goals() {
    // White moves last; Black's goal is reached whatever White does, so Black wins.
    let fill_white = Action {
        name: "mark".to_string(),
        precondition: Condition { sub_cond: vec![id(Pred::Open)] },
        effect: Condition { sub_cond: vec![id(Pred::White)] },
    };
    let fill_black = Action {
        name: "fill".to_string(),
        precondition: Condition { sub_cond: vec![id(Pred::Open)] },
        effect: Condition { sub_cond: vec![id(Pred::Black)] },
    };
    let domain = Domain { black_actions: vec![fill_black], white_actions: vec![fill_white] };
    let problem = Problem {
        size: Size { x: 2, y: 1 },
        init: vec![],
        depth: 2,
        white_goals: vec![],
        black_goals: vec![Condition { sub_cond: vec![id(Pred::Black)] }],
    };
    assert_eq!(solver::solve(&problem, &domain), Some(("fill".to_string(), 0, 0)));
}

#[test]
fn compile_qdimacs_runs_the_whole_pipeline() {
    let (problem, domain) = one_cell(0);
    let text = bddl::solver_qbf::compile_qdimacs(&problem, &domain).unwrap();
    assert_eq!(text, "p cnf 2 4\ne 1 0\n1 -2 2 0\n2 -1 0\n-2 -1 0\n1 0\n");
    let (problem, domain) = one_cell(1);
    let text = bddl::solver_qbf::compile_qdimacs(&problem, &domain).unwrap();
    let mut c = AtomCounter::new();
    let f = solver_qbf::solve(&problem, &domain, &mut c);
    assert_eq!(text, pipeline(f, &mut c));
}

#[test]
fn compile_qdimacs_rejects_bad_games() {
    let (mut problem, mut domain) = one_cell(1);
    domain.black_actions[0].effect.sub_cond[0] =
        SubCondition::Not { pred: Pred::Black, x_e: E::Identity, y_e: E::Identity };
    assert!(!domain.is_well_formed());
    assert_eq!(bddl::solver_qbf::compile_qdimacs(&problem, &domain), None);
    let (_, domain) = one_cell(1);
    problem.size = Size { x: 0, y: 1 };
    assert!(!problem.is_well_formed());
    assert_eq!(bddl::solver_qbf::compile_qdimacs(&problem, &domain), None);
    problem.size = Size { x: 1, y: 1 };
    problem.init.push(InitPred { pred: Pred::Black, x: 1, y: 0 });
    assert!(!problem.is_well_formed());
    problem.init.clear();
    problem.black_goals[0].sub_cond[0] = SubCondition::Id { pred: Pred::Black, x_e: E::Add(-1), y_e: E::Identity };
    assert!(!problem.is_well_formed());
}

#[test]
fn compiler_ignores_white_goals() {
    // White's plies consult Black's goal list; White's own goals leave the formula as is.
    let mut problem = tictac::problem();
    problem.depth = 2;
    let domain = tictac::domain();
    let mut c = AtomCounter::new();
    let with_goals = format!("{:?}", solver_qbf::solve(&problem, &domain, &mut c));
    problem.white_goals = vec![];
    let mut c = AtomCounter::new();
    let without_goals = format!("{:?}", solver_qbf::solve(&problem, &domain, &mut c));
    assert_eq!(with_goals, without_goals);
}

#[test]
fn first_listed_effect_takes_precedence() {
    let both = |goal: Pred| {
        let act = Action {
            name: "paint".to_string(),
            precondition: Condition { sub_cond: vec![] },
            effect: Condition { sub_cond: vec![id(Pred::Black), id(Pred::White)] },
        };
        let domain = Domain { black_actions: vec![act], white_actions: vec![] };
        let problem = Problem {
            size: Size { x: 1, y: 1 },
            init: vec![],
            depth: 1,
            white_goals: vec![],
            black_goals: vec![Condition { sub_cond: vec![id(goal)] }],
        };
        let mut c = AtomCounter::new();
        solver_qbf::solve(&problem, &domain, &mut c)
    };
    assert!(holds(&both(Pred::Black), 1, &HashMap::new()));
    assert!(!holds(&both(Pred::White), 1, &HashMap::new()));
}

#[test]
fn search_and_compiler_agree_on_double_writes() {
    // One action writes the same cell twice, Black first: both sides keep Black.
    for (goal, black_wins) in [(Pred::Black, true), (Pred::White, false)] {
        let act = Action {
            name: "paint".to_string(),
            precondition: Condition { sub_cond: vec![id(Pred::Open)] },
            effect: Condition { sub_cond: vec![id(Pred::Black), id(Pred::White)] },
        };
        let domain = Domain { black_actions: vec![act], white_actions: vec![] };
        let problem = Problem {
            size: Size { x: 1, y: 1 },
            init: vec![],
            depth: 1,
            white_goals: vec![],
            black_goals: vec![Condition { sub_cond: vec![id(goal)] }],
        };
        let mut c = AtomCounter::new();
        let f = solver_qbf::solve(&problem, &domain, &mut c);
        assert_eq!(holds(&f, 1, &HashMap::new()), black_wins);
        let found = solver::solve(&problem, &domain);
        assert_eq!(found.is_some(), black_wins);
        if black_wins {
            assert_eq!(found, Some(("paint".to_string(), 0, 0)));
        }
    }
}

#[test]
fn empty_precondition_is_true_and_empty_goal_list_is_false() {
    let act = Action {
        name: "pass".to_string(),
        precondition: Condition { sub_cond: vec![] },
        effect: Condition { sub_cond: vec![] },
    };
    let domain = Domain { black_actions: vec![act], white_actions: vec![] };
    let mut problem = Problem {
        size: Size { x: 1, y: 1 },
        init: vec![],
        depth: 1,
        white_goals: vec![],
        black_goals: vec![],
    };
    let mut c = AtomCounter::new();
    assert!(!holds(&solver_qbf::solve(&problem, &domain, &mut c), 1, &HashMap::new()));
    // an empty goal condition holds anywhere
    problem.black_goals = vec![Condition { sub_cond: vec![] }];
    let mut c = AtomCounter::new();
    assert!(holds(&solver_qbf::solve(&problem, &domain, &mut c), 1, &HashMap::new()));
}

fn fill_game(size: Size, depth: u64, goal: Vec<SubCondition>, init: Vec<InitPred>) -> (Problem, Domain) {
    let fill = |pred: Pred| Action {
        name: "fill".to_string(),
        precondition: Condition { sub_cond: vec![id(Pred::Open)] },
        effect: Condition { sub_cond: vec![id(pred)] },
    };
    let domain = Domain { black_actions: vec![fill(Pred::Black)], white_actions: vec![fill(Pred::White)] };
    let problem = Problem {
        size,
        init,
        depth,
        white_goals: vec![],
        black_goals: vec![Condition { sub_cond: goal }],
    };
    (problem, domain)
}

/// While the board has open cells, every ply has a real move; an action index beyond
/// the action list lets a player pass, so the two may differ on a full board.
#[test]
fn compiled_formula_agrees_with_search_on_small_boards() {
    let pair = vec![
        SubCondition::Id { pred: Pred::Black, x_e: E::Identity, y_e: E::Identity },
        SubCondition::Id { pred: Pred::Black, x_e: E::Add(1), y_e: E::Identity },
    ];
    let column = vec![
        SubCondition::Id { pred: Pred::Black, x_e: E::Identity, y_e: E::Min },
        SubCondition::Id { pred: Pred::Black, x_e: E::Identity, y_e: E::Max },
    ];
    let not_white = vec![
        SubCondition::Id { pred: Pred::Black, x_e: E::Identity, y_e: E::Identity },
        SubCondition::Not { pred: Pred::White, x_e: E::Sub(1), y_e: E::Identity },
    ];
    let mut cases = 0;
    for size in [Size { x: 2, y: 1 }, Size { x: 1, y: 2 }] {
        for goal in [pair.clone(), column.clone(), not_white.clone()] {
            for depth in 0..3u64 {
                for init in [vec![], vec![InitPred { pred: Pred::Black, x: 0, y: 0 }]] {
                    if depth as usize > 2 - init.len() {
                        continue;
                    }
                    let (problem, domain) = fill_game(size, depth, goal.clone(), init);
                    let mut c = AtomCounter::new();
                    let f = solver_qbf::solve(&problem, &domain, &mut c);
                    let by_formula = holds(&f, 1, &HashMap::new());
                    let by_search = solver::solve(&problem, &domain).is_some();
                    assert_eq!(by_formula, by_search, "{:?} {:?} {}", size, goal, depth);
                    cases += 1;
                }
            }
        }
    }
    assert_eq!(cases, 30);
}

#[test]
fn unused_action_index_is_a_pass() {
    // One White action leaves the index value 1 unused: choosing it satisfies every
    // precondition implication and writes nothing, so White may pass on a full board,
    // where the search finds White without a move.
    let pair = vec![
        SubCondition::Id { pred: Pred::Black, x_e: E::Identity, y_e: E::Identity },
        SubCondition::Id { pred: Pred::Black, x_e: E::Add(1), y_e: E::Identity },
    ];
    let init = vec![InitPred { pred: Pred::Black, x: 0, y: 0 }];
    let (problem, domain) = fill_game(Size { x: 1, y: 2 }, 2, pair, init);
    let mut c = AtomCounter::new();
    let f = solver_qbf::solve(&problem, &domain, &mut c);
    assert!(!holds(&f, 1, &HashMap::new()));
    assert_eq!(solver::solve(&problem, &domain), Some(("fill".to_string(), 0, 1)));
}
