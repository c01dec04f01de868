use std::str::FromStr;

use flow::bdd::BinaryDecisionDiagram;
use flow::Evaluate;

const SIMPLE_BDD: &str = "vars 1
nodes 3
0 2 1 0
1 -1 -1 0
2 -1 -1 1";

#[test]
fn false_assignment() {
    let mut bdd = BinaryDecisionDiagram::from_str(SIMPLE_BDD).unwrap();
    let bools = vec![false];
    bdd.assign_vars(&bools).unwrap();
    assert!(!bdd.eval().expect("Could not evaluate"));
}

#[test]
fn truth_table() {
    let bdd = BinaryDecisionDiagram::from_str(SIMPLE_BDD).unwrap();
    assert_eq!(
        vec![false, true],
        bdd.truth_table().expect("Could not complete truth table")
    );
}
