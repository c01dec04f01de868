//! Reading a diagram from its text:
//!
//! ```text
//! vars <N>
//! nodes <M>
//! <node_id> <true_branch> <false_branch> <var_id_or_terminal_flag>
//! ```
//!
//! A node line whose two branches are negative is a terminal, true when its
//! last field is 1; one whose branches are both non-negative is a decision
//! on the variable of its last field.
use vstd::prelude::*;
use vstd::string::StringSliceAdditionalSpecFns;
use crate::FlowError;
use crate::Variable;
use crate::bdd::{
    BinaryDecisionDiagram,
    BinaryNode,
    DecisionNode,
    DiagramModel,
    distinct_ids,
    find_node,
    has_node_id,
    has_terminal,
    strictly_increasing,
};
use crate::text::{
    isize_at,
    isize_token,
    line_end,
    line_len,
    lines,
    lemma_line_len_bound,
    next_token,
    tokens,
    usize_at,
    usize_token,
};

verus! {

pub open spec fn vars_keyword() -> Seq<u8> {
    seq![118u8, 97u8, 114u8, 115u8]
}

pub open spec fn nodes_keyword() -> Seq<u8> {
    seq![110u8, 111u8, 100u8, 101u8, 115u8]
}

/// A header line: the keyword, then the declared count, and nothing more.
pub open spec fn header(line: Seq<u8>, keyword: Seq<u8>) -> Option<usize> {
    let t = tokens(line);
    if t.len() == 2 && t[0] == keyword {
        usize_token(t[1])
    } else {
        None
    }
}

/// A node line, of exactly four tokens: its id and its node.
pub open spec fn node_line(line: Seq<u8>) -> Option<(usize, BinaryNode)> {
    let t = tokens(line);
    if t.len() != 4 {
        None
    } else {
        match (usize_token(t[0]), isize_token(t[1]), isize_token(t[2]), usize_token(t[3])) {
            (Some(id), Some(hi), Some(lo), Some(v)) => {
                if hi < 0 && lo < 0 {
                    Some((id, BinaryNode::Terminal(v == 1)))
                } else if hi >= 0 && lo >= 0 {
                    Some(
                        (
                            id,
                            BinaryNode::Decision(
                                DecisionNode {
                                    variable_id: v,
                                    decision_map: (lo as usize, hi as usize),
                                },
                            ),
                        ),
                    )
                } else {
                    None
                }
            },
            _ => None,
        }
    }
}

/// The nodes of the node lines, in order; `None` if a line is malformed or
/// repeats an id.
pub open spec fn parse_nodes(ls: Seq<Seq<u8>>) -> Option<Seq<(usize, BinaryNode)>>
    decreases ls.len(),
{
    if ls.len() == 0 {
        Some(seq![])
    } else {
        match parse_nodes(ls.drop_last()) {
            None => None,
            Some(acc) => match node_line(ls.last()) {
                None => None,
                Some(e) => if has_node_id(acc, e.0) {
                    None
                } else {
                    Some(acc.push(e))
                },
            },
        }
    }
}

/// `v` put into its place in an ascending sequence, unless already there.
pub open spec fn insert_sorted(s: Seq<usize>, v: usize) -> Seq<usize>
    decreases s.len(),
{
    if s.len() == 0 {
        seq![v]
    } else if v < s[0] {
        seq![v] + s
    } else if v == s[0] {
        s
    } else {
        seq![s[0]] + insert_sorted(s.drop_first(), v)
    }
}

/// The ids of the variables that the decision nodes test, ascending.
pub open spec fn collect_vars(nodes: Seq<(usize, BinaryNode)>) -> Seq<usize>
    decreases nodes.len(),
{
    if nodes.len() == 0 {
        seq![]
    } else {
        let prev = collect_vars(nodes.drop_last());
        match nodes.last().1 {
            BinaryNode::Decision(d) => insert_sorted(prev, d.variable_id),
            BinaryNode::Terminal(_) => prev,
        }
    }
}

/// The id of the first decision node.
pub open spec fn first_decision(nodes: Seq<(usize, BinaryNode)>) -> Option<usize>
    decreases nodes.len(),
{
    if nodes.len() == 0 {
        None
    } else {
        match first_decision(nodes.drop_last()) {
            Some(id) => Some(id),
            None => match nodes.last().1 {
                BinaryNode::Decision(_) => Some(nodes.last().0),
                BinaryNode::Terminal(_) => None,
            },
        }
    }
}

/// The diagram that a text describes, with every variable unassigned; `None`
/// when the text is not a well-formed diagram.
pub open spec fn parse_spec(text: Seq<u8>) -> Option<DiagramModel> {
    let ls = lines(text);
    if ls.len() < 2 {
        None
    } else {
        match (header(ls[0], vars_keyword()), header(ls[1], nodes_keyword())) {
            (Some(n), Some(m)) => match parse_nodes(ls.skip(2)) {
                None => None,
                Some(nodes) => {
                    let ids = collect_vars(nodes);
                    if n != ids.len() || m != nodes.len() || !has_terminal(nodes, true)
                        || !has_terminal(nodes, false) || first_decision(nodes) is None {
                        None
                    } else {
                        Some(
                            DiagramModel {
                                var_ids: ids,
                                values: Seq::new(ids.len(), |i: int| None),
                                nodes,
                                entry_node: first_decision(nodes)->0,
                            },
                        )
                    }
                },
            },
            _ => None,
        }
    }
}

/// The lines of `t` from `pos` on: the one that starts there, then the rest.
pub proof fn lemma_lines_step(t: Seq<u8>, pos: int)
    requires
        0 <= pos < t.len(),
    ensures
        ({
            let e = pos + line_len(t.subrange(pos, t.len() as int));
            &&& e <= t.len()
            &&& lines(t.subrange(pos, t.len() as int)) == seq![t.subrange(pos, e)] + if e
                < t.len() {
                lines(t.subrange(e + 1, t.len() as int))
            } else {
                Seq::<Seq<u8>>::empty()
            }
        }),
{
    let rest = t.subrange(pos, t.len() as int);
    let n = line_len(rest);
    lemma_line_len_bound(rest);
    if n < rest.len() {
        assert(rest.take(n as int) =~= t.subrange(pos, pos + n));
        assert(rest.skip(n + 1 as int) =~= t.subrange(pos + n + 1, t.len() as int));
    } else {
        assert(rest =~= t.subrange(pos, pos + n));
        assert(seq![rest] + Seq::<Seq<u8>>::empty() =~= seq![rest]);
    }
}

proof fn lemma_parse_nodes_fails_on(a: Seq<Seq<u8>>, b: Seq<Seq<u8>>)
    requires
        parse_nodes(a) is None,
    ensures
        parse_nodes(a + b) is None,
    decreases b.len(),
{
    if b.len() == 0 {
        assert(a + b =~= a);
    } else {
        lemma_parse_nodes_fails_on(a, b.drop_last());
        assert((a + b).drop_last() =~= a + b.drop_last());
    }
}

/// What a successful node parse gives: one node per line, distinct ids.
pub proof fn lemma_parse_nodes_shape(ls: Seq<Seq<u8>>)
    requires
        parse_nodes(ls) is Some,
    ensures
        parse_nodes(ls)->0.len() == ls.len(),
        distinct_ids(parse_nodes(ls)->0),
    decreases ls.len(),
{
    if ls.len() > 0 {
        lemma_parse_nodes_shape(ls.drop_last());
        let acc = parse_nodes(ls.drop_last())->0;
        let e = node_line(ls.last())->0;
        assert forall|i: int, j: int|
            0 <= i < j < acc.push(e).len() implies acc.push(e)[i].0 != acc.push(e)[j].0 by {
            if j == acc.len() {
                assert(acc.push(e)[i] == acc[i]);
                if acc[i].0 == e.0 {
                    assert(has_node_id(acc, e.0));
                }
            } else {
                assert(acc.push(e)[i] == acc[i]);
                assert(acc.push(e)[j] == acc[j]);
            }
        }
    }
}

pub proof fn lemma_insert_sorted(s: Seq<usize>, v: usize)
    ensures
        strictly_increasing(s) ==> strictly_increasing(insert_sorted(s, v)),
        insert_sorted(s, v).contains(v),
        forall|x: usize| s.contains(x) ==> insert_sorted(s, v).contains(x),
        forall|x: usize| #[trigger] insert_sorted(s, v).contains(x) ==> x == v || s.contains(x),
    decreases s.len(),
{
    let r = insert_sorted(s, v);
    if s.len() == 0 {
        assert(r[0] == v);
    } else if v < s[0] {
        assert(r[0] == v);
        assert forall|x: usize| s.contains(x) implies r.contains(x) by {
            let i = choose|i: int| 0 <= i < s.len() && s[i] == x;
            assert(r[i + 1] == x);
        }
        assert forall|x: usize| #[trigger] r.contains(x) implies x == v || s.contains(x) by {
            let i = choose|i: int| 0 <= i < r.len() && r[i] == x;
            if i > 0 {
                assert(s[i - 1] == x);
            }
        }
    } else if v == s[0] {
        assert(r[0] == v);
    } else {
        let t = s.drop_first();
        lemma_insert_sorted(t, v);
        let rt = insert_sorted(t, v);
        assert(r == seq![s[0]] + rt);
        let k = choose|k: int| 0 <= k < rt.len() && rt[k] == v;
        assert(r[k + 1] == v);
        assert forall|x: usize| s.contains(x) implies r.contains(x) by {
            let i = choose|i: int| 0 <= i < s.len() && s[i] == x;
            if i == 0 {
                assert(r[0] == x);
            } else {
                assert(t[i - 1] == x);
                assert(t.contains(x));
                let j = choose|j: int| 0 <= j < rt.len() && rt[j] == x;
                assert(r[j + 1] == x);
            }
        }
        assert forall|x: usize| #[trigger] r.contains(x) implies x == v || s.contains(x) by {
            let i = choose|i: int| 0 <= i < r.len() && r[i] == x;
            if i == 0 {
                assert(s[0] == x);
            } else {
                assert(rt[i - 1] == x);
                assert(rt.contains(x));
                if x != v {
                    let j = choose|j: int| 0 <= j < t.len() && t[j] == x;
                    assert(s[j + 1] == x);
                }
            }
        }
        if strictly_increasing(s) {
            assert(strictly_increasing(t));
            assert forall|i: int, j: int| 0 <= i < j < r.len() implies r[i] < r[j] by {
                if i == 0 {
                    assert(r[j] == rt[j - 1]);
                    assert(rt.contains(rt[j - 1]));
                    if rt[j - 1] != v {
                        let m = choose|m: int| 0 <= m < t.len() && t[m] == rt[j - 1];
                        assert(s[m + 1] == rt[j - 1]);
                    }
                } else {
                    assert(r[i] == rt[i - 1]);
                    assert(r[j] == rt[j - 1]);
                }
            }
        }
    }
}

/// `insert_sorted` as the executable code does it: skip the ids below `v`,
/// then insert `v` there unless it is already there.
proof fn lemma_insert_sorted_at(s: Seq<usize>, v: usize, k: int)
    requires
        0 <= k <= s.len(),
        forall|j: int| 0 <= j < k ==> s[j] < v,
        k < s.len() ==> s[k] >= v,
    ensures
        insert_sorted(s, v) == if k < s.len() && s[k] == v {
            s
        } else {
            s.insert(k, v)
        },
    decreases k,
{
    if k == 0 {
        if s.len() == 0 {
            assert(s.insert(0, v) =~= seq![v]);
        } else if v < s[0] {
            assert(s.insert(0, v) =~= seq![v] + s);
        }
    } else {
        let t = s.drop_first();
        lemma_insert_sorted_at(t, v, k - 1);
        if k < s.len() && s[k] == v {
            assert(seq![s[0]] + t =~= s);
        } else {
            assert(seq![s[0]] + t.insert(k - 1, v) =~= s.insert(k, v));
        }
    }
}

proof fn lemma_collect_vars(nodes: Seq<(usize, BinaryNode)>)
    ensures
        strictly_increasing(collect_vars(nodes)),
        forall|i: int|
            0 <= i < nodes.len() ==> (#[trigger] nodes[i].1 matches BinaryNode::Decision(d)
                ==> collect_vars(nodes).contains(d.variable_id)),
    decreases nodes.len(),
{
    if nodes.len() > 0 {
        let prev = nodes.drop_last();
        lemma_collect_vars(prev);
        if let BinaryNode::Decision(d) = nodes.last().1 {
            lemma_insert_sorted(collect_vars(prev), d.variable_id);
        }
        assert forall|i: int|
            0 <= i < nodes.len() implies (#[trigger] nodes[i].1 matches BinaryNode::Decision(d)
                ==> collect_vars(nodes).contains(d.variable_id)) by {
            if i < nodes.len() - 1 {
                assert(nodes[i] == prev[i]);
            }
        }
    }
}

/// With distinct ids, the node that an id names is the one at its position.
pub proof fn lemma_find_node_at(nodes: Seq<(usize, BinaryNode)>, i: int)
    requires
        distinct_ids(nodes),
        0 <= i < nodes.len(),
    ensures
        find_node(nodes, nodes[i].0) == Some(nodes[i].1),
    decreases i,
{
    if i > 0 {
        let t = nodes.drop_first();
        assert(t[i - 1] == nodes[i]);
        assert(nodes[0].0 != nodes[i].0);
        lemma_find_node_at(t, i - 1);
    }
}

proof fn lemma_first_decision(nodes: Seq<(usize, BinaryNode)>)
    requires
        first_decision(nodes) is Some,
    ensures
        exists|i: int|
            0 <= i < nodes.len() && nodes[i].0 == first_decision(nodes)->0
                && #[trigger] nodes[i].1 is Decision,
    decreases nodes.len(),
{
    let prev = nodes.drop_last();
    if first_decision(prev) is Some {
        lemma_first_decision(prev);
        let i = choose|i: int|
            0 <= i < prev.len() && prev[i].0 == first_decision(prev)->0
                && #[trigger] prev[i].1 is Decision;
        assert(nodes[i] == prev[i]);
    } else {
        assert(nodes[nodes.len() - 1].1 is Decision);
    }
}

proof fn lemma_has_terminal_push(nodes: Seq<(usize, BinaryNode)>, e: (usize, BinaryNode), b: bool)
    ensures
        has_terminal(nodes.push(e), b) == (has_terminal(nodes, b) || e.1 == BinaryNode::Terminal(
            b,
        )),
{
    let p = nodes.push(e);
    if has_terminal(nodes, b) {
        let i = choose|i: int| 0 <= i < nodes.len() && #[trigger] nodes[i].1 == BinaryNode::Terminal(b);
        assert(p[i] == nodes[i]);
    }
    if e.1 == BinaryNode::Terminal(b) {
        assert(p[nodes.len() as int] == e);
    }
    if has_terminal(p, b) {
        let i = choose|i: int| 0 <= i < p.len() && #[trigger] p[i].1 == BinaryNode::Terminal(b);
        if i < nodes.len() {
            assert(p[i] == nodes[i]);
        }
    }
}

/// Reads a header line `s[a..b]` with the given keyword.
fn header_at(s: &[u8], a: usize, b: usize, keyword: &[u8]) -> (r: Option<usize>)
    requires
        a <= b <= s@.len(),
    ensures
        r == header(s@.subrange(a as int, b as int), keyword@),
{
    let ghost line = s@.subrange(a as int, b as int);
    let (a0, b0) = match next_token(s, a, b) {
        None => return None,
        Some(t) => t,
    };
    let (a1, b1) = match next_token(s, b0, b) {
        None => return None,
        Some(t) => t,
    };
    let ghost t0 = s@.subrange(a0 as int, b0 as int);
    let ghost t1 = s@.subrange(a1 as int, b1 as int);
    assert(tokens(line) == seq![t0, t1] + tokens(s@.subrange(b1 as int, b as int)));
    assert(tokens(line)[0] == t0);
    assert(tokens(line)[1] == t1);
    if next_token(s, b1, b).is_some() {
        assert(tokens(line).len() > 2);
        return None;
    }
    assert(tokens(line).len() == 2);
    if b0 - a0 != keyword.len() {
        assert(t0.len() != keyword@.len());
        return None;
    }
    let mut i: usize = 0;
    while i < keyword.len()
        invariant
            i <= keyword@.len(),
            b0 - a0 == keyword@.len(),
            a0 < b0 <= s@.len(),
            t0 == s@.subrange(a0 as int, b0 as int),
            tokens(s@.subrange(a as int, b as int)).len() >= 2,
            tokens(s@.subrange(a as int, b as int))[0] == t0,
            forall|j: int| 0 <= j < i ==> t0[j] == keyword@[j],
        decreases keyword@.len() - i,
    {
        if s[a0 + i] != keyword[i] {
            assert(t0[i as int] != keyword@[i as int]);
            return None;
        }
        i = i + 1;
    }
    assert(t0 =~= keyword@);
    usize_at(s, a1, b1)
}

/// Reads a node line `s[a..b]`.
fn node_line_at(s: &[u8], a: usize, b: usize) -> (r: Option<(usize, BinaryNode)>)
    requires
        a <= b <= s@.len(),
    ensures
        r == node_line(s@.subrange(a as int, b as int)),
{
    let ghost line = s@.subrange(a as int, b as int);
    let (a0, b0) = match next_token(s, a, b) {
        None => return None,
        Some(t) => t,
    };
    let (a1, b1) = match next_token(s, b0, b) {
        None => {
            assert(tokens(line).len() == 1);
            return None;
        },
        Some(t) => t,
    };
    let (a2, b2) = match next_token(s, b1, b) {
        None => {
            assert(tokens(line).len() == 2);
            return None;
        },
        Some(t) => t,
    };
    let (a3, b3) = match next_token(s, b2, b) {
        None => {
            assert(tokens(line).len() == 3);
            return None;
        },
        Some(t) => t,
    };
    let ghost t = tokens(line);
    assert(t == seq![
        s@.subrange(a0 as int, b0 as int),
        s@.subrange(a1 as int, b1 as int),
        s@.subrange(a2 as int, b2 as int),
        s@.subrange(a3 as int, b3 as int),
    ] + tokens(s@.subrange(b3 as int, b as int)));
    assert(t[0] == s@.subrange(a0 as int, b0 as int));
    assert(t[1] == s@.subrange(a1 as int, b1 as int));
    assert(t[2] == s@.subrange(a2 as int, b2 as int));
    assert(t[3] == s@.subrange(a3 as int, b3 as int));
    if next_token(s, b3, b).is_some() {
        assert(t.len() > 4);
        return None;
    }
    assert(t.len() == 4);
    let id = usize_at(s, a0, b0);
    let hi = isize_at(s, a1, b1);
    let lo = isize_at(s, a2, b2);
    let v = usize_at(s, a3, b3);
    match (id, hi, lo, v) {
        (Some(id), Some(hi), Some(lo), Some(v)) => {
            if hi < 0 && lo < 0 {
                Some((id, BinaryNode::Terminal(v == 1)))
            } else if hi >= 0 && lo >= 0 {
                Some((id, BinaryNode::Decision(DecisionNode::new_node(lo as usize, hi as usize, v))))
            } else {
                None
            }
        },
        _ => None,
    }
}

/// Whether some entry of `nodes` has id `id`.
fn contains_id(nodes: &Vec<(usize, BinaryNode)>, id: usize) -> (r: bool)
    ensures
        r == has_node_id(nodes@, id),
{
    let mut i: usize = 0;
    while i < nodes.len()
        invariant
            i <= nodes@.len(),
            forall|j: int| 0 <= j < i ==> nodes@[j].0 != id,
        decreases nodes@.len() - i,
    {
        if nodes[i].0 == id {
            return true;
        }
        i = i + 1;
    }
    false
}

/// Adds variable `v`, unassigned, at its place in the ascending table.
fn insert_variable(var_ids: &mut Vec<usize>, variables: &mut Vec<Variable>, v: usize)
    requires
        old(variables)@.len() == old(var_ids)@.len(),
    ensures
        final(var_ids)@ == insert_sorted(old(var_ids)@, v),
        final(variables)@.len() == final(var_ids)@.len(),
        (forall|i: int|
            0 <= i < old(variables)@.len() ==> (#[trigger] old(variables)@[i]).value is None)
            ==> (forall|i: int|
            0 <= i < final(variables)@.len() ==> (#[trigger] final(variables)@[i]).value is None),
{
    let mut k: usize = 0;
    while k < var_ids.len() && var_ids[k] < v
        invariant
            k <= var_ids@.len(),
            forall|j: int| 0 <= j < k ==> var_ids@[j] < v,
        decreases var_ids@.len() - k,
    {
        k = k + 1;
    }
    proof {
        lemma_insert_sorted_at(var_ids@, v, k as int);
    }
    if k < var_ids.len() && var_ids[k] == v {
        return;
    }
    var_ids.insert(k, v);
    variables.insert(k, Variable::new());
}

/// A diagram read from text meets the structural invariants.
pub proof fn lemma_parse_spec_wf(text: Seq<u8>)
    requires
        parse_spec(text) is Some,
    ensures
        parse_spec(text)->0.wf(),
{
    let ls = lines(text);
    let ns = parse_nodes(ls.skip(2))->0;
    lemma_parse_nodes_shape(ls.skip(2));
    lemma_collect_vars(ns);
    lemma_first_decision(ns);
    let entry = first_decision(ns)->0;
    let i = choose|i: int| 0 <= i < ns.len() && ns[i].0 == entry && #[trigger] ns[i].1 is Decision;
    lemma_find_node_at(ns, i);
}

/// The node lines read so far, with what the diagram keeps of them.
struct NodeTable {
    var_ids: Vec<usize>,
    variables: Vec<Variable>,
    nodes: Vec<(usize, BinaryNode)>,
    entry_node: Option<usize>,
    has_true: bool,
    has_false: bool,
}

impl NodeTable {
    /// The table holds `nodes` and what is derived from them.
    spec fn holds(&self, nodes: Seq<(usize, BinaryNode)>) -> bool {
        &&& self.nodes@ == nodes
        &&& self.var_ids@ == collect_vars(nodes)
        &&& self.variables@.len() == self.var_ids@.len()
        &&& forall|i: int|
            0 <= i < self.variables@.len() ==> (#[trigger] self.variables@[i]).value is None
        &&& self.entry_node == first_decision(nodes)
        &&& self.has_true == has_terminal(nodes, true)
        &&& self.has_false == has_terminal(nodes, false)
    }

    fn new() -> (r: Self)
        ensures
            r.holds(seq![]),
    {
        NodeTable {
            var_ids: Vec::new(),
            variables: Vec::new(),
            nodes: Vec::new(),
            entry_node: None,
            has_true: false,
            has_false: false,
        }
    }

    fn add(&mut self, id: usize, node: BinaryNode)
        requires
            old(self).holds(old(self).nodes@),
        ensures
            final(self).holds(old(self).nodes@.push((id, node))),
    {
        let ghost before = self.nodes@;
        proof {
            lemma_has_terminal_push(before, (id, node), true);
            lemma_has_terminal_push(before, (id, node), false);
        }
        match node {
            BinaryNode::Decision(d) => {
                if self.entry_node.is_none() {
                    self.entry_node = Some(id);
                }
                insert_variable(&mut self.var_ids, &mut self.variables, d.variable_id);
            },
            BinaryNode::Terminal(b) => {
                if b {
                    self.has_true = true;
                } else {
                    self.has_false = true;
                }
            },
        }
        self.nodes.push((id, node));
        assert(self.nodes@.drop_last() =~= before);
    }
}

/// Reads the node lines of `s` from `start` on.
fn read_nodes(s: &[u8], start: usize) -> (r: Option<NodeTable>)
    requires
        start <= s@.len(),
    ensures
        match parse_nodes(lines(s@.subrange(start as int, s@.len() as int))) {
            None => r is None,
            Some(ns) => r is Some && r->0.holds(ns),
        },
{
    let ghost t = s@;
    let ghost all = lines(t.subrange(start as int, t.len() as int));
    let mut pos = start;
    let mut table = NodeTable::new();
    let ghost mut done: Seq<Seq<u8>> = seq![];
    assert(all =~= done + all);
    while pos < s.len()
        invariant
            start <= pos <= t.len(),
            s@ == t,
            all == lines(t.subrange(start as int, t.len() as int)),
            all == done + lines(t.subrange(pos as int, t.len() as int)),
            parse_nodes(done) == Some(table.nodes@),
            table.holds(table.nodes@),
        decreases t.len() - pos,
    {
        let e = line_end(s, pos);
        proof {
            lemma_lines_step(t, pos as int);
        }
        let ghost line = t.subrange(pos as int, e as int);
        let ghost rest = if e < t.len() {
            lines(t.subrange(e + 1, t.len() as int))
        } else {
            Seq::<Seq<u8>>::empty()
        };
        assert(all =~= done.push(line) + rest);
        assert(done.push(line).drop_last() =~= done);
        let (id, node) = match node_line_at(s, pos, e) {
            None => {
                proof {
                    lemma_parse_nodes_fails_on(done.push(line), rest);
                }
                return None;
            },
            Some(entry) => entry,
        };
        if contains_id(&table.nodes, id) {
            proof {
                lemma_parse_nodes_fails_on(done.push(line), rest);
            }
            return None;
        }
        table.add(id, node);
        proof {
            done = done.push(line);
        }
        pos = if e < s.len() {
            e + 1
        } else {
            s.len()
        };
    }
    assert(t.subrange(pos as int, t.len() as int).len() == 0);
    assert(all =~= done);
    Some(table)
}

impl BinaryDecisionDiagram {
    /// Reads a diagram from its text, with every variable unassigned.
    pub fn from_text(text: &str) -> (r: Result<Self, FlowError>)
        ensures
            match parse_spec(text.spec_bytes()) {
                Some(m) => r is Ok && r->Ok_0@ == m && m.wf(),
                None => r matches Err(FlowError::ParseError(_)),
            },
    {
        let s = text.as_bytes();
        let ghost t = s@;
        assert(t.subrange(0, t.len() as int) =~= t);
        if s.len() == 0 {
            return Err(FlowError::ParseError("Variable line not present"));
        }
        let e1 = line_end(s, 0);
        proof {
            lemma_lines_step(t, 0);
        }
        let ghost l1 = t.subrange(0, e1 as int);
        if e1 == s.len() {
            return Err(FlowError::ParseError("Node line not present"));
        }
        let start2 = e1 + 1;
        if start2 == s.len() {
            assert(t.subrange(start2 as int, t.len() as int).len() == 0);
            return Err(FlowError::ParseError("Node line not present"));
        }
        let e2 = line_end(s, start2);
        proof {
            lemma_lines_step(t, start2 as int);
        }
        let ghost l2 = t.subrange(start2 as int, e2 as int);
        let pos: usize = if e2 < s.len() {
            e2 + 1
        } else {
            s.len()
        };
        assert(lines(t) == seq![l1, l2] + lines(t.subrange(pos as int, t.len() as int)));
        assert(lines(t)[0] == l1);
        assert(lines(t)[1] == l2);
        assert(lines(t).skip(2) =~= lines(t.subrange(pos as int, t.len() as int)));
        let num_vars = match header_at(s, 0, e1, &[118u8, 97u8, 114u8, 115u8]) {
            None => return Err(FlowError::ParseError("Var line does not specify number")),
            Some(n) => n,
        };
        let num_nodes = match header_at(s, start2, e2, &[110u8, 111u8, 100u8, 101u8, 115u8]) {
            None => return Err(FlowError::ParseError("Node line does not specify number")),
            Some(n) => n,
        };
        let table = match read_nodes(s, pos) {
            None => return Err(FlowError::ParseError("Malformed node line or repeated node id")),
            Some(table) => table,
        };
        if num_vars != table.var_ids.len() || num_nodes != table.nodes.len() {
            return Err(FlowError::ParseError("Number of tokens does not match first lines"));
        }
        if !(table.has_true && table.has_false) {
            return Err(FlowError::ParseError("Not both types of terminal nodes."));
        }
        let entry = match table.entry_node {
            None => return Err(FlowError::ParseError("No entry node was set")),
            Some(id) => id,
        };
        let NodeTable { var_ids, variables, nodes, .. } = table;
        proof {
            lemma_parse_spec_wf(t);
        }
        assert(variables@.map_values(|v: Variable| v.value) =~= Seq::new(
            var_ids@.len(),
            |i: int| None::<bool>,
        ));
        let bdd = BinaryDecisionDiagram { var_ids, variables, nodes, entry_node: entry };
        Ok(bdd)
    }
}

/// Reading with `str::parse`, as `from_text` does.
impl std::str::FromStr for BinaryDecisionDiagram {
    type Err = FlowError;

    fn from_str(s: &str) -> (r: Result<Self, FlowError>)
        ensures
            match parse_spec(s.spec_bytes()) {
                Some(m) => r is Ok && r->Ok_0@ == m && m.wf(),
                None => r matches Err(FlowError::ParseError(_)),
            },
    {
        BinaryDecisionDiagram::from_text(s)
    }
}

} // verus!
