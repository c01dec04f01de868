//! Evaluation: assigning the variables, walking from the entry node to a
//! terminal, and the truth table over every assignment.
//!
//! A walk takes at most as many steps as the diagram has nodes: a walk that
//! needs more has come back to a node it passed, and would never end, so it
//! stops with a cycle error.
use vstd::prelude::*;
use vstd::arithmetic::power2::pow2;
use vstd::bits::{lemma_u64_pow2_no_overflow, lemma_u64_shl_is_mul};
use crate::{Evaluate, FlowError, Variable, bits_of, convert_bits_to_bools};
use crate::bdd::{
    BinaryDecisionDiagram,
    BinaryNode,
    DiagramModel,
    Fault,
    fault_error,
    find_node,
    lemma_lookup_at,
    lookup_value,
};

verus! {

/// The largest number of variables whose truth table is enumerated.
pub const MAX_TABLE_VARS: usize = 63;

/// The diagram with `values` in place of its variables' values.
pub open spec fn with_values(m: DiagramModel, values: Seq<Option<bool>>) -> DiagramModel {
    DiagramModel { var_ids: m.var_ids, values, nodes: m.nodes, entry_node: m.entry_node }
}

/// The diagram after `assign_vars(bs)`: variable `var_ids[i]` holds `bs[i]`.
pub open spec fn assign_spec(m: DiagramModel, bs: Seq<bool>) -> DiagramModel {
    with_values(m, bs.map_values(|b: bool| Some(b)))
}

/// The walk from node `at`, with `fuel` steps left.
pub open spec fn walk(m: DiagramModel, at: usize, fuel: nat) -> Result<bool, Fault>
    decreases fuel,
{
    match find_node(m.nodes, at) {
        None => Err(Fault::MissingNode),
        Some(BinaryNode::Terminal(b)) => Ok(b),
        Some(BinaryNode::Decision(d)) => match lookup_value(m.var_ids, m.values, d.variable_id) {
            None => Err(Fault::Unassigned),
            Some(b) => if fuel == 0 {
                Err(Fault::Cycle)
            } else {
                walk(
                    m,
                    if b {
                        d.decision_map.1
                    } else {
                        d.decision_map.0
                    },
                    (fuel - 1) as nat,
                )
            },
        },
    }
}

/// The node that the walk goes to from `at`: defined when `at` is a
/// decision node whose variable has a value.
pub open spec fn next_node(m: DiagramModel, at: usize) -> Option<usize> {
    match find_node(m.nodes, at) {
        Some(BinaryNode::Decision(d)) => match lookup_value(m.var_ids, m.values, d.variable_id) {
            Some(b) => Some(
                if b {
                    d.decision_map.1
                } else {
                    d.decision_map.0
                },
            ),
            None => None,
        },
        _ => None,
    }
}

/// The node that the walk from `at` reaches after `k` steps.
pub open spec fn node_after(m: DiagramModel, at: usize, k: nat) -> Option<usize>
    decreases k,
{
    if k == 0 {
        Some(at)
    } else {
        match node_after(m, at, (k - 1) as nat) {
            Some(x) => next_node(m, x),
            None => None,
        }
    }
}

/// What `eval` gives: the walk from the entry node, with as many steps as
/// there are nodes.
pub open spec fn eval_spec(m: DiagramModel) -> Result<bool, Fault> {
    walk(m, m.entry_node, m.nodes.len())
}

/// The results under the assignments `0..k`, or the first failure.
pub open spec fn table_prefix(m: DiagramModel, k: nat) -> Result<Seq<bool>, Fault>
    decreases k,
{
    if k == 0 {
        Ok(seq![])
    } else {
        match table_prefix(m, (k - 1) as nat) {
            Err(f) => Err(f),
            Ok(s) => match eval_spec(assign_spec(m, bits_of((k - 1) as nat, m.var_ids.len()))) {
                Ok(b) => Ok(s.push(b)),
                Err(f) => Err(f),
            },
        }
    }
}

/// What `truth_table` gives.
pub open spec fn table_spec(m: DiagramModel) -> Result<Seq<bool>, Fault> {
    if m.var_ids.len() > MAX_TABLE_VARS {
        Err(Fault::TooManyVariables)
    } else {
        table_prefix(m, pow2(m.var_ids.len()))
    }
}

/// `r` is the result that `s` describes.
pub open spec fn outcome(r: Result<bool, FlowError>, s: Result<bool, Fault>) -> bool {
    match s {
        Ok(b) => r == Ok::<bool, FlowError>(b),
        Err(f) => r == Err::<bool, FlowError>(fault_error(f)),
    }
}

proof fn lemma_table_prefix_fails(m: DiagramModel, k: nat, total: nat)
    requires
        k <= total,
        table_prefix(m, k) is Err,
    ensures
        table_prefix(m, total) == table_prefix(m, k),
    decreases total - k,
{
    if k < total {
        lemma_table_prefix_fails(m, k, (total - 1) as nat);
    }
}

/// Variables holding the values of `bs`, in order.
fn assigned_variables(bs: &[bool]) -> (r: Vec<Variable>)
    ensures
        r@.len() == bs@.len(),
        r@.map_values(|v: Variable| v.value) == bs@.map_values(|b: bool| Some(b)),
{
    let mut vars: Vec<Variable> = Vec::new();
    let mut i: usize = 0;
    while i < bs.len()
        invariant
            i <= bs@.len(),
            vars@.len() == i,
            forall|k: int| 0 <= k < i ==> (#[trigger] vars@[k]).value == Some(bs@[k]),
        decreases bs@.len() - i,
    {
        vars.push(Variable { value: Some(bs[i]) });
        i = i + 1;
    }
    assert(vars@.map_values(|v: Variable| v.value) =~= bs@.map_values(|b: bool| Some(b)));
    vars
}

impl BinaryDecisionDiagram {
    /// Position of variable `v` in the variable table, if it is there.
    fn var_position(&self, v: usize) -> (r: Option<usize>)
        ensures
            match r {
                Some(i) => i < self@.var_ids.len(),
                None => true,
            },
            forall|vals: Seq<Option<bool>>|
                vals.len() == self@.var_ids.len() ==> #[trigger] lookup_value(
                    self@.var_ids,
                    vals,
                    v,
                ) == match r {
                    Some(i) => vals[i as int],
                    None => None,
                },
    {
        let mut i: usize = 0;
        while i < self.var_ids.len()
            invariant
                i <= self.var_ids@.len(),
                forall|j: int| 0 <= j < i ==> self.var_ids@[j] != v,
            decreases self.var_ids@.len() - i,
        {
            if self.var_ids[i] == v {
                proof {
                    assert forall|vals: Seq<Option<bool>>|
                        vals.len() == self@.var_ids.len() implies #[trigger] lookup_value(
                        self@.var_ids,
                        vals,
                        v,
                    ) == vals[i as int] by {
                        lemma_lookup_at(self@.var_ids, vals, v, i as int);
                    }
                }
                return Some(i);
            }
            i = i + 1;
        }
        proof {
            assert forall|vals: Seq<Option<bool>>|
                vals.len() == self@.var_ids.len() implies #[trigger] lookup_value(
                self@.var_ids,
                vals,
                v,
            ) == None::<bool> by {
                lemma_lookup_at(self@.var_ids, vals, v, self@.var_ids.len() as int);
            }
        }
        None
    }

    /// Walks from the entry node with the variables given by `vars`.
    fn walk_with(&self, vars: &Vec<Variable>) -> (r: Result<bool, FlowError>)
        requires
            vars@.len() == self@.var_ids.len(),
        ensures
            outcome(r, eval_spec(with_values(self@, vars@.map_values(|v: Variable| v.value)))),
    {
        let ghost m = with_values(self@, vars@.map_values(|v: Variable| v.value));
        let mut cur = self.entry_node;
        let mut fuel = self.nodes.len();
        loop
            invariant
                vars@.len() == self@.var_ids.len(),
                m == with_values(self@, vars@.map_values(|v: Variable| v.value)),
                eval_spec(m) == walk(m, cur, fuel as nat),
            decreases fuel,
        {
            let i = match self.node_index(cur) {
                None => return Err(FlowError::EvaluationError("Could not traverse to next node")),
                Some(i) => i,
            };
            match self.nodes[i].1 {
                BinaryNode::Terminal(b) => return Ok(b),
                BinaryNode::Decision(d) => {
                    let j = match self.var_position(d.variable_id) {
                        None => {
                            assert(lookup_value(m.var_ids, m.values, d.variable_id) is None);
                            return Err(
                                FlowError::EvaluationError("Variable has not been assigned"),
                            );
                        },
                        Some(j) => j,
                    };
                    assert(lookup_value(m.var_ids, m.values, d.variable_id) == vars@[j as int].value);
                    let next = match d.evaluate(&vars[j]) {
                        Err(e) => return Err(e),
                        Ok(next) => next,
                    };
                    if fuel == 0 {
                        return Err(FlowError::CycleError("Walk revisited a node"));
                    }
                    cur = next;
                    fuel = fuel - 1;
                },
            }
        }
    }
}

impl Evaluate for BinaryDecisionDiagram {
    fn assign_vars(&mut self, values: &[bool]) -> (r: Result<(), FlowError>)
        ensures
            values@.len() == old(self)@.var_ids.len() ==> r is Ok && final(self)@ == assign_spec(
                old(self)@,
                values@,
            ),
            values@.len() != old(self)@.var_ids.len() ==> (r matches Err(
                FlowError::VariableAssignmentError(_),
            )) && final(self)@ == old(self)@,
            final(self)@.wf(),
    {
        proof {
            use_type_invariant(&*self);
        }
        if values.len() != self.var_ids.len() {
            return Err(
                FlowError::VariableAssignmentError(
                    "The number of values does not match the number of variables.",
                ),
            );
        }
        self.variables = assigned_variables(values);
        Ok(())
    }

    fn eval(&self) -> (r: Result<bool, FlowError>)
        ensures
            outcome(r, eval_spec(self@)),
            self@.wf(),
    {
        proof {
            use_type_invariant(self);
        }
        let r = self.walk_with(&self.variables);
        assert(with_values(self@, self.variables@.map_values(|v: Variable| v.value)) == self@);
        r
    }

    fn truth_table(&self) -> (r: Result<Vec<bool>, FlowError>)
        ensures
            match table_spec(self@) {
                Ok(s) => r is Ok && r->Ok_0@ == s,
                Err(f) => r is Err && r->Err_0 == fault_error(f),
            },
            self@.wf(),
    {
        proof {
            use_type_invariant(self);
        }
        let n = self.var_ids.len();
        if n > MAX_TABLE_VARS {
            return Err(FlowError::EvaluationError("Too many variables"));
        }
        proof {
            lemma_u64_pow2_no_overflow(n as nat);
            lemma_u64_shl_is_mul(1, n as u64);
        }
        let combinations: u64 = 1u64 << (n as u64);
        let mut results: Vec<bool> = Vec::new();
        let mut pattern: u64 = 0;
        while pattern < combinations
            invariant
                self@.wf(),
                n == self@.var_ids.len(),
                n <= MAX_TABLE_VARS,
                combinations == pow2(n as nat),
                pattern <= combinations,
                table_prefix(self@, pattern as nat) == Ok::<Seq<bool>, Fault>(results@),
            decreases combinations - pattern,
        {
            let bools = convert_bits_to_bools(pattern, n);
            let vars = assigned_variables(bools.as_slice());
            let ghost m = assign_spec(self@, bits_of(pattern as nat, n as nat));
            assert(with_values(self@, vars@.map_values(|v: Variable| v.value)) == m);
            match self.walk_with(&vars) {
                Ok(b) => {
                    results.push(b);
                },
                Err(e) => {
                    proof {
                        lemma_table_prefix_fails(
                            self@,
                            (pattern + 1) as nat,
                            combinations as nat,
                        );
                    }
                    return Err(e);
                },
            }
            pattern = pattern + 1;
        }
        Ok(results)
    }
}

} // verus!
