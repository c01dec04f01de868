use flow::bdd::{BinaryDecisionDiagram, BinaryNode, DecisionNode};

#[test]
fn display_decision_node() {
    let node = DecisionNode {
        variable_id: 3,
        decision_map: (2, 1),
    };
    assert_eq!(node.to_text(), "1 2 3");
}

#[test]
fn display_binary_node_decision() {
    let node = DecisionNode {
        variable_id: 3,
        decision_map: (2, 1),
    };
    let binary_node = BinaryNode::Decision(node);
    assert_eq!(binary_node.to_text(), "1 2 3");
}

#[test]
fn display_binary_node_terminal_true() {
    let binary_node = BinaryNode::Terminal(true);
    assert_eq!(binary_node.to_text(), "-1 -1 1");
}

#[test]
fn display_binary_node_terminal_false() {
    let binary_node = BinaryNode::Terminal(false);
    assert_eq!(binary_node.to_text(), "-1 -1 0");
}

const SIMPLE_BDD: &str = "vars 1
nodes 3
0 1 2 0
1 -1 -1 0
2 -1 -1 1";

#[test]
fn display_bdd() {
    let bdd: BinaryDecisionDiagram = SIMPLE_BDD.parse().unwrap();
    let bdd_display = bdd.to_text();

    assert_eq!(SIMPLE_BDD.len(), bdd_display.len());
    let simple_bdd_lines_vec: Vec<&str> = SIMPLE_BDD.lines().collect();
    let bdd_lines = bdd_display.lines();
    for line in bdd_lines {
        assert!(simple_bdd_lines_vec.contains(&line));
    }
}
