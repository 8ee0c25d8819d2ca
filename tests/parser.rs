use bddl::bddl::{Pred, SubCondition, E};
use bddl::parser::condition;

#[test]
fn parses_claims_and_negations() {
    let (rest, c) = condition("black(?x+1, ?y) NOT(open(?x - 2,?y)) ");
    assert_eq!(rest, "");
    assert_eq!(
        c.sub_cond,
        vec![
            SubCondition::Id { pred: Pred::Black, x_e: E::Add(1), y_e: E::Identity },
            SubCondition::Not { pred: Pred::Open, x_e: E::Sub(2), y_e: E::Identity },
        ]
    );
}

#[test]
fn parses_extent_constants_and_leaves_the_rest() {
    let (rest, c) = condition("  white(xmax,ymin)white(?y ,?x) :effect");
    assert_eq!(c.sub_cond, vec![SubCondition::Id { pred: Pred::White, x_e: E::Max, y_e: E::Min }]);
    assert_eq!(rest, "white(?y ,?x) :effect");
}

#[test]
fn empty_and_unreadable_inputs_give_empty_conditions() {
    let (rest, c) = condition("");
    assert_eq!(rest, "");
    assert!(c.sub_cond.is_empty());
    let (rest, c) = condition("open(?x+99999999999999999999,?y)");
    assert_eq!(rest, "open(?x+99999999999999999999,?y)");
    assert!(c.sub_cond.is_empty());
    let (rest, c) = condition("grey(?x,?y)");
    assert_eq!(rest, "grey(?x,?y)");
    assert!(c.sub_cond.is_empty());
}
