use flow::bdd::{BinaryDecisionDiagram, BinaryNode};
use flow::{convert_bits_to_bools, Evaluate, FlowError};

const SIMPLE_BDD: &str = "vars 1
nodes 3
0 2 1 0
1 -1 -1 0
2 -1 -1 1";

const FREE_BDD_2: &str = "vars 2
nodes 4
1 4 2 1
2 4 3 2
3 -1 -1 0
4 -1 -1 1";

// True exactly when variable 5 is true and variable 2 is false; variable 5
// is met first in the text.
const LATE_SMALL_ID: &str = "vars 2
nodes 4
0 1 3 5
1 3 2 2
2 -1 -1 1
3 -1 -1 0";

fn parse(text: &str) -> BinaryDecisionDiagram {
    BinaryDecisionDiagram::from_text(text).unwrap()
}

#[test]
fn simple_assign_then_evaluate() {
    let mut bdd = parse(SIMPLE_BDD);
    bdd.assign_vars(&[true]).unwrap();
    assert_eq!(bdd.eval(), Ok(true));
    bdd.assign_vars(&[false]).unwrap();
    assert_eq!(bdd.eval(), Ok(false));
    assert_eq!(bdd.truth_table(), Ok(vec![false, true]));
}

#[test]
fn free_bdd_structure() {
    let bdd = parse(FREE_BDD_2);
    assert_eq!(bdd.num_vars(), 2);
    assert_eq!(bdd.num_nodes(), 4);
    assert_eq!(bdd.entry_node(), 1);
    match bdd.node(1) {
        Some(BinaryNode::Decision(d)) => {
            assert_eq!(d.decision_map, (2, 4));
            assert_eq!(d.variable_id, 1);
        },
        _ => panic!("node 1 is not a decision"),
    }
    match bdd.node(2) {
        Some(BinaryNode::Decision(d)) => {
            assert_eq!(d.decision_map, (3, 4));
            assert_eq!(d.variable_id, 2);
        },
        _ => panic!("node 2 is not a decision"),
    }
    assert!(bdd.node(7).is_none());
}

#[test]
fn rejected_texts() {
    let texts = [
        "",
        "vars 1",
        "vars 1\nnodes 4\n0 2 1 0\n1 -1 -1 0\n2 -1 -1 1",
        "var 1\nnodes 3\n0 2 1 0\n1 -1 -1 0\n2 -1 -1 1",
        "vars 1\nnodes 3\n0 2 1 0\n0 -1 -1 0\n2 -1 -1 1",
        "vars 1\nnodes 3\n0 2 -1 0\n1 -1 -1 0\n2 -1 -1 1",
        "vars 1\nnodes 3\n0 2 1\n1 -1 -1 0\n2 -1 -1 1",
        "vars 1\nnodes 3\n0 2 x 0\n1 -1 -1 0\n2 -1 -1 1",
        "vars 1\nnodes 3\n0 2 1 0\n\n1 -1 -1 0\n2 -1 -1 1",
        "vars 1\nnodes 3\n0 99999999999999999999 1 0\n1 -1 -1 0\n2 -1 -1 1",
        "vars 0\nnodes 2\n1 -1 -1 0\n2 -1 -1 1",
        "vars 1 extra\nnodes 3\n0 2 1 0\n1 -1 -1 0\n2 -1 -1 1",
        "vars 1\nnodes 3 3\n0 2 1 0\n1 -1 -1 0\n2 -1 -1 1",
        "vars 1\nnodes 3\n0 2 1 0 extra\n1 -1 -1 0\n2 -1 -1 1",
        "vars 1\nnodes 3\n0 2 1 0\n1 -1 -1 0 0\n2 -1 -1 1",
    ];
    for text in texts {
        match BinaryDecisionDiagram::from_text(text) {
            Err(FlowError::ParseError(_)) => {},
            _ => panic!("accepted: {text:?}"),
        }
    }
}

#[test]
fn accepted_layouts() {
    let bdd = parse("vars 1 \r\nnodes\t3\r\n 0 2 1 0 \r\n+1 -1 -1 0\r\n2 -1 -1 1\n");
    assert_eq!(bdd.num_nodes(), 3);
    assert_eq!(bdd.truth_table(), Ok(vec![false, true]));
    assert_eq!(bdd.node(1), Some(&BinaryNode::Terminal(false)));
    let any_flag = parse("vars 1\nnodes 3\n0 2 1 0\n1 -1 -1 7\n2 -1 -1 1");
    assert_eq!(any_flag.node(1), Some(&BinaryNode::Terminal(false)));
}

#[test]
fn round_trip_keeps_the_diagram() {
    for text in [SIMPLE_BDD, FREE_BDD_2, LATE_SMALL_ID] {
        let first = parse(text);
        let written = first.to_text();
        assert_eq!(written, text);
        let second = parse(&written);
        assert_eq!(second.num_vars(), first.num_vars());
        assert_eq!(second.num_nodes(), first.num_nodes());
        assert_eq!(second.entry_node(), first.entry_node());
        assert_eq!(second.truth_table(), first.truth_table());
        assert_eq!(second.to_text(), written);
    }
}

#[test]
fn round_trip_normalises_layout() {
    let first = parse("vars   2\nnodes 4\n1 4 +2 1\n2 4 3 2\n3 -1 -1 0\n4 -5 -1 1\n");
    let written = first.to_text();
    assert_eq!(written, FREE_BDD_2);
    let second = parse(&written);
    assert_eq!(second.truth_table(), first.truth_table());
}

#[test]
fn values_go_to_ascending_ids() {
    let mut bdd = parse(LATE_SMALL_ID);
    // The first value goes to variable 2, the second to variable 5.
    bdd.assign_vars(&[false, true]).unwrap();
    assert_eq!(bdd.eval(), Ok(true));
    bdd.assign_vars(&[true, false]).unwrap();
    assert_eq!(bdd.eval(), Ok(false));
    assert_eq!(bdd.truth_table(), Ok(vec![false, false, true, false]));
}

#[test]
fn truth_table_entries_match_evaluation() {
    for text in [SIMPLE_BDD, FREE_BDD_2, LATE_SMALL_ID] {
        let mut bdd = parse(text);
        let n = bdd.num_vars();
        let table = bdd.truth_table().unwrap();
        assert_eq!(table.len(), 1 << n);
        for (i, expected) in table.iter().enumerate() {
            bdd.assign_vars(&convert_bits_to_bools(i as u64, n)).unwrap();
            assert_eq!(bdd.eval(), Ok(*expected));
        }
    }
}

#[test]
fn free_bdd_truth_table() {
    // Node 1 tests variable 1, node 2 tests variable 2: true unless both are
    // false.
    assert_eq!(parse(FREE_BDD_2).truth_table(), Ok(vec![false, true, true, true]));
}

#[test]
fn fresh_diagram_does_not_evaluate() {
    for text in [SIMPLE_BDD, FREE_BDD_2, LATE_SMALL_ID] {
        assert_eq!(
            parse(text).eval(),
            Err(FlowError::EvaluationError("Variable has not been assigned"))
        );
    }
}

#[test]
fn wrong_number_of_values() {
    let mut bdd = parse(FREE_BDD_2);
    match bdd.assign_vars(&[true]) {
        Err(FlowError::VariableAssignmentError(_)) => {},
        other => panic!("assigned: {other:?}"),
    }
    match bdd.assign_vars(&[true, false, true]) {
        Err(FlowError::VariableAssignmentError(_)) => {},
        other => panic!("assigned: {other:?}"),
    }
    // A refused assignment leaves the variables as they were.
    assert!(bdd.eval().is_err());
}

#[test]
fn missing_branch_target() {
    let mut bdd = parse("vars 1\nnodes 3\n0 9 1 0\n1 -1 -1 0\n2 -1 -1 1");
    bdd.assign_vars(&[false]).unwrap();
    assert_eq!(bdd.eval(), Ok(false));
    bdd.assign_vars(&[true]).unwrap();
    let missing = "Could not traverse to next node";
    assert_eq!(bdd.eval(), Err(FlowError::EvaluationError(missing)));
    // The table fails with the error of its first failing assignment.
    assert_eq!(bdd.truth_table(), Err(FlowError::EvaluationError(missing)));
}

#[test]
fn cycle_is_reported() {
    let mut bdd = parse("vars 1\nnodes 4\n0 1 1 0\n1 0 0 0\n2 -1 -1 1\n3 -1 -1 0");
    bdd.assign_vars(&[true]).unwrap();
    let cycle = "Walk revisited a node";
    assert_eq!(bdd.eval(), Err(FlowError::CycleError(cycle)));
    assert_eq!(bdd.truth_table(), Err(FlowError::CycleError(cycle)));
}

#[test]
fn too_many_variables_for_a_table() {
    let mut text = String::from("vars 64\nnodes 66");
    for i in 0..64 {
        text.push_str(&format!("\n{i} {} {} {i}", i + 1, i + 1));
    }
    text.push_str("\n64 -1 -1 1\n65 -1 -1 0");
    let mut bdd = parse(&text);
    assert_eq!(bdd.num_vars(), 64);
    match bdd.truth_table() {
        Err(e) => assert_eq!(e, FlowError::EvaluationError("Too many variables")),
        Ok(t) => panic!("table of {} entries", t.len()),
    }
    bdd.assign_vars(&vec![false; 64]).unwrap();
    assert_eq!(bdd.eval(), Ok(true));
}

#[test]
fn error_text() {
    assert_eq!(FlowError::ParseError("x").to_text(), "Could not parse: x");
    assert_eq!(FlowError::EvaluationError("y").to_text(), "Could not evaluate: y");
    assert_eq!(
        FlowError::VariableAssignmentError("z").to_text(),
        "Could not assign variable: z"
    );
    assert_eq!(FlowError::CycleError("w").to_text(), "Could not evaluate, cycle: w");
}
