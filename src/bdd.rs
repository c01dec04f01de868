//! The diagram: decision and terminal nodes keyed by id, the variable
//! table, and the mathematical model that the contracts speak of.
use vstd::prelude::*;
use crate::{FlowError, Variable};

pub mod display;
pub mod eval;
pub mod laws;
pub mod parse;

verus! {

/// A node that branches on one variable: `decision_map` holds the node to
/// go to when the variable is false, then the one when it is true.
#[derive(Debug, Clone, Copy, PartialEq, Eq)]
pub struct DecisionNode {
    pub variable_id: usize,
    pub decision_map: (usize, usize),
}

/// A node of a diagram: a decision, or a terminal with a fixed outcome.
#[derive(Debug, Clone, Copy, PartialEq, Eq)]
pub enum BinaryNode {
    Decision(DecisionNode),
    Terminal(bool),
}

impl DecisionNode {
    pub fn new_node(node_if_false: usize, node_if_true: usize, variable_id: usize) -> (r: Self)
        ensures
            r.variable_id == variable_id,
            r.decision_map == (node_if_false, node_if_true),
    {
        DecisionNode { variable_id, decision_map: (node_if_false, node_if_true) }
    }

    /// The node to go to for the value of `variable`; an unassigned
    /// variable is an error.
    pub fn evaluate(&self, variable: &Variable) -> (r: Result<usize, FlowError>)
        ensures
            match variable.value {
                Some(true) => r == Ok::<usize, FlowError>(self.decision_map.1),
                Some(false) => r == Ok::<usize, FlowError>(self.decision_map.0),
                None => r == Err::<usize, FlowError>(fault_error(Fault::Unassigned)),
            },
    {
        match variable.value {
            Some(true) => Ok(self.decision_map.1),
            Some(false) => Ok(self.decision_map.0),
            None => Err(FlowError::EvaluationError("Variable has not been assigned")),
        }
    }
}

/// Why a walk through a diagram did not reach a terminal.
pub enum Fault {
    /// A decision node's variable has no value.
    Unassigned,
    /// A node id that the diagram does not hold.
    MissingNode,
    /// The walk took more steps than there are nodes, so it came back to a
    /// node it had passed.
    Cycle,
    /// Too many variables to enumerate every assignment.
    TooManyVariables,
}

/// The error that reports `f`.
pub open spec fn fault_error(f: Fault) -> FlowError {
    match f {
        Fault::Unassigned => FlowError::EvaluationError("Variable has not been assigned"),
        Fault::MissingNode => FlowError::EvaluationError("Could not traverse to next node"),
        Fault::Cycle => FlowError::CycleError("Walk revisited a node"),
        Fault::TooManyVariables => FlowError::EvaluationError("Too many variables"),
    }
}

/// The mathematical model of a diagram. Variable `var_ids[i]` holds
/// `values[i]`; `nodes` pairs each node id with its node.
pub struct DiagramModel {
    pub var_ids: Seq<usize>,
    pub values: Seq<Option<bool>>,
    pub nodes: Seq<(usize, BinaryNode)>,
    pub entry_node: usize,
}

/// The node that `id` names: the first entry with that id.
pub open spec fn find_node(nodes: Seq<(usize, BinaryNode)>, id: usize) -> Option<BinaryNode>
    decreases nodes.len(),
{
    if nodes.len() == 0 {
        None
    } else if nodes[0].0 == id {
        Some(nodes[0].1)
    } else {
        find_node(nodes.drop_first(), id)
    }
}

pub open spec fn has_node_id(nodes: Seq<(usize, BinaryNode)>, id: usize) -> bool {
    exists|i: int| 0 <= i < nodes.len() && #[trigger] nodes[i].0 == id
}

/// The value of variable `v`: the entry of `values` beside the first
/// occurrence of `v` in `ids`; `None` when unassigned or absent.
pub open spec fn lookup_value(ids: Seq<usize>, values: Seq<Option<bool>>, v: usize) -> Option<
    bool,
>
    decreases ids.len(),
{
    if ids.len() == 0 || values.len() == 0 {
        None
    } else if ids[0] == v {
        values[0]
    } else {
        lookup_value(ids.drop_first(), values.drop_first(), v)
    }
}

pub open spec fn strictly_increasing(s: Seq<usize>) -> bool {
    forall|i: int, j: int| 0 <= i < j < s.len() ==> s[i] < s[j]
}

pub open spec fn distinct_ids(nodes: Seq<(usize, BinaryNode)>) -> bool {
    forall|i: int, j: int| 0 <= i < j < nodes.len() ==> nodes[i].0 != nodes[j].0
}

pub open spec fn has_terminal(nodes: Seq<(usize, BinaryNode)>, b: bool) -> bool {
    exists|i: int| 0 <= i < nodes.len() && #[trigger] nodes[i].1 == BinaryNode::Terminal(b)
}

/// `lookup_value` finds the first position of `v`.
pub proof fn lemma_lookup_at(ids: Seq<usize>, vals: Seq<Option<bool>>, v: usize, i: int)
    requires
        vals.len() == ids.len(),
        0 <= i <= ids.len(),
        forall|j: int| 0 <= j < i ==> ids[j] != v,
        i < ids.len() ==> ids[i] == v,
    ensures
        lookup_value(ids, vals, v) == if i < ids.len() {
            vals[i]
        } else {
            None
        },
    decreases i,
{
    if i > 0 {
        lemma_lookup_at(ids.drop_first(), vals.drop_first(), v, i - 1);
    }
}

impl DiagramModel {
    /// The structural invariants of a diagram: variable ids ascending with
    /// one value each, node ids distinct, every decision's variable in the
    /// table, the entry a decision node, and both terminal outcomes present.
    pub open spec fn wf(self) -> bool {
        &&& self.values.len() == self.var_ids.len()
        &&& strictly_increasing(self.var_ids)
        &&& distinct_ids(self.nodes)
        &&& forall|i: int|
            0 <= i < self.nodes.len() ==> (#[trigger] self.nodes[i].1 matches BinaryNode::Decision(
                d,
            ) ==> self.var_ids.contains(d.variable_id))
        &&& find_node(self.nodes, self.entry_node) matches Some(BinaryNode::Decision(_))
        &&& has_terminal(self.nodes, true)
        &&& has_terminal(self.nodes, false)
    }
}

/// A diagram: its variables in ascending order of id, with their values in
/// `variables` at the same positions, its nodes in the order they were
/// read, and the node where evaluation starts.
pub struct BinaryDecisionDiagram {
    var_ids: Vec<usize>,
    variables: Vec<Variable>,
    nodes: Vec<(usize, BinaryNode)>,
    entry_node: usize,
}

impl View for BinaryDecisionDiagram {
    type V = DiagramModel;

    closed spec fn view(&self) -> DiagramModel {
        DiagramModel {
            var_ids: self.var_ids@,
            values: self.variables@.map_values(|v: Variable| v.value),
            nodes: self.nodes@,
            entry_node: self.entry_node,
        }
    }
}

impl BinaryDecisionDiagram {
    #[verifier::type_invariant]
    closed spec fn well_formed(self) -> bool {
        self@.wf()
    }

    /// The number of variables. Like the other getters, this also states
    /// that the diagram meets the structural invariants.
    pub fn num_vars(&self) -> (r: usize)
        ensures
            r == self@.var_ids.len(),
            self@.wf(),
    {
        proof {
            use_type_invariant(self);
        }
        self.var_ids.len()
    }

    /// The number of nodes.
    pub fn num_nodes(&self) -> (r: usize)
        ensures
            r == self@.nodes.len(),
            self@.wf(),
    {
        proof {
            use_type_invariant(self);
        }
        self.nodes.len()
    }

    /// The node where evaluation starts.
    pub fn entry_node(&self) -> (r: usize)
        ensures
            r == self@.entry_node,
            self@.wf(),
    {
        proof {
            use_type_invariant(self);
        }
        self.entry_node
    }

    /// Position of node `id` in the node list, if the diagram holds it.
    fn node_index(&self, id: usize) -> (r: Option<usize>)
        ensures
            match r {
                Some(i) => i < self@.nodes.len() && find_node(self@.nodes, id) == Some(
                    self@.nodes[i as int].1,
                ),
                None => find_node(self@.nodes, id) is None,
            },
    {
        let mut i: usize = 0;
        assert(self.nodes@.skip(0) =~= self.nodes@);
        while i < self.nodes.len()
            invariant
                i <= self.nodes@.len(),
                find_node(self.nodes@, id) == find_node(self.nodes@.skip(i as int), id),
            decreases self.nodes@.len() - i,
        {
            assert(self.nodes@.skip(i as int).drop_first() =~= self.nodes@.skip(i + 1));
            if self.nodes[i].0 == id {
                return Some(i);
            }
            i = i + 1;
        }
        None
    }

    /// The node with id `id`, if the diagram holds one.
    pub fn node(&self, id: usize) -> (r: Option<&BinaryNode>)
        ensures
            match r {
                Some(n) => find_node(self@.nodes, id) == Some(*n),
                None => find_node(self@.nodes, id) is None,
            },
            self@.wf(),
    {
        proof {
            use_type_invariant(self);
        }
        match self.node_index(id) {
            Some(i) => Some(&self.nodes[i].1),
            None => None,
        }
    }
}

} // verus!
