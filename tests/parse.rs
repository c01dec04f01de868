use std::str::FromStr;

use flow::bdd::BinaryNode::{Decision, Terminal};
use flow::bdd::{BinaryDecisionDiagram, DecisionNode};

const FREE_BDD_2: &str = "vars 2
nodes 4
1 4 2 1
2 4 3 2
3 -1 -1 0
4 -1 -1 1";

#[test]
fn from_string() {
    let bdd = BinaryDecisionDiagram::from_str(FREE_BDD_2).unwrap();

    assert_eq!(2, bdd.num_vars());
    assert_eq!(4, bdd.num_nodes());
    assert_eq!(
        &Decision(DecisionNode::new_node(2, 4, 1)),
        bdd.node(1).unwrap()
    );
    assert_eq!(
        &Decision(DecisionNode::new_node(3, 4, 2)),
        bdd.node(2).unwrap()
    );
    assert_eq!(&Terminal(false), bdd.node(3).unwrap());
    assert_eq!(&Terminal(true), bdd.node(4).unwrap());
}

#[test]
fn given_empty_string_then_error() {
    let bdd = BinaryDecisionDiagram::from_str("");
    assert!(bdd.is_err());
}

#[test]
fn given_var_line_only_then_error() {
    let bdd = BinaryDecisionDiagram::from_str("vars 1");
    assert!(bdd.is_err());
}

#[test]
fn given_nodes_line_only_then_error() {
    let bdd = BinaryDecisionDiagram::from_str(
        "vars 1
nodes 1",
    );
    assert!(bdd.is_err());
}

#[test]
fn given_negative_node_id_then_error() {
    let bdd = BinaryDecisionDiagram::from_str(
        "vars 1
nodes 1
-1 0 0 0",
    );
    assert!(bdd.is_err());
}

#[test]
fn given_non_matching_vars_then_error() {
    let bdd = BinaryDecisionDiagram::from_str(
        "vars 2
nodes 1
0 0 0 0",
    );
    assert!(bdd.is_err());
}

#[test]
fn given_non_matching_nodes_then_error() {
    let bdd = BinaryDecisionDiagram::from_str(
        "vars 1
nodes 2
0 0 0 0",
    );
    assert!(bdd.is_err());
}

#[test]
fn given_no_terminal_nodes_then_error() {
    let bdd = BinaryDecisionDiagram::from_str(
        "vars 1
nodes 1
0 0 0 0",
    );
    assert!(bdd.is_err());
}

#[test]
fn given_only_true_terminal_nodes_then_error() {
    let bdd = BinaryDecisionDiagram::from_str(
        "vars 1
nodes 2
0 1 0 0
1 -1 -1 1",
    );
    assert!(bdd.is_err());
}

#[test]
fn given_only_false_terminal_nodes_then_error() {
    let bdd = BinaryDecisionDiagram::from_str(
        "vars 1
nodes 2
0 1 2 0
2 -1 -1 0",
    );
    assert!(bdd.is_err());
}

#[test]
fn given_parseable_then_ok() {
    let bdd = BinaryDecisionDiagram::from_str(
        "vars 1
nodes 3
0 1 2 0
1 -1 -1 0
2 -1 -1 1",
    );
    assert!(bdd.is_ok());
}
