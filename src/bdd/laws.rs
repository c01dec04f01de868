//! What holds across the operations of the engine: reading back what was
//! written, the order in which values reach the variables, the shape of the
//! truth table, evaluation before assignment, and the two terminal outcomes.
use vstd::prelude::*;
use vstd::arithmetic::power2::pow2;
use vstd::string::{is_ascii_spec_bytes, StringSliceAdditionalSpecFns};
use vstd::seq_lib::seq_to_set_is_finite;
use vstd::set_lib::lemma_len_subset;
use vstd::assert_by_contradiction;
use crate::bits_of;
use crate::bdd::{
    BinaryNode,
    DiagramModel,
    Fault,
    find_node,
    has_node_id,
    has_terminal,
    lemma_lookup_at,
    lookup_value,
};
use crate::bdd::display::{
    ascii_chars,
    body_text,
    diagram_text,
    entry_text,
    node_text,
    nodes_prefix,
    vars_prefix,
};
use crate::bdd::eval::{
    assign_spec,
    eval_spec,
    next_node,
    node_after,
    table_prefix,
    table_spec,
    walk,
    MAX_TABLE_VARS,
};
use crate::bdd::parse::{
    header,
    lemma_parse_spec_wf,
    node_line,
    nodes_keyword,
    parse_nodes,
    parse_spec,
    vars_keyword,
};
use crate::text::{
    NEWLINE,
    SPACE,
    MINUS,
    ZERO,
    decimal,
    digits_value,
    isize_token,
    lemma_decimal,
    lemma_decimal_token,
    lemma_lines_join,
    lemma_lines_single,
    lemma_tokens_word,
    lines,
    no_newline,
    no_space,
    tokens,
    usize_token,
};

verus! {

proof fn lemma_no_newline_add(a: Seq<u8>, b: Seq<u8>)
    requires
        no_newline(a),
        no_newline(b),
    ensures
        no_newline(a + b),
{
    assert forall|i: int| 0 <= i < (a + b).len() implies #[trigger] (a + b)[i] != NEWLINE by {
        if i >= a.len() {
            assert((a + b)[i] == b[i - a.len()]);
        }
    }
}

/// A node line as written: not empty, without newlines.
proof fn lemma_entry_text_shape(e: (usize, BinaryNode))
    ensures
        entry_text(e).len() > 0,
        no_newline(entry_text(e)),
{
    lemma_decimal(e.0 as nat);
    let sp = seq![SPACE];
    assert(no_newline(sp));
    lemma_no_newline_add(decimal(e.0 as nat), sp);
    match e.1 {
        BinaryNode::Decision(d) => {
            let a = decimal(d.decision_map.1 as nat);
            let b = decimal(d.decision_map.0 as nat);
            let c = decimal(d.variable_id as nat);
            lemma_decimal(d.decision_map.1 as nat);
            lemma_decimal(d.decision_map.0 as nat);
            lemma_decimal(d.variable_id as nat);
            lemma_no_newline_add(a, sp);
            lemma_no_newline_add(a + sp, b);
            lemma_no_newline_add(a + sp + b, sp);
            lemma_no_newline_add(a + sp + b + sp, c);
        },
        BinaryNode::Terminal(_) => {
            assert(no_newline(node_text(e.1)));
        },
    }
    lemma_no_newline_add(decimal(e.0 as nat) + sp, node_text(e.1));
}

proof fn lemma_minus_one()
    ensures
        isize_token(seq![MINUS, 49u8]) == Some(-1isize),
{
    let one = seq![49u8];
    assert(seq![MINUS, 49u8].drop_first() =~= one);
    assert(one.drop_last() =~= Seq::<u8>::empty());
    assert(digits_value(one.drop_last()) == 0);
    assert(digits_value(one) == 1);
}

proof fn lemma_flag(v: bool)
    ensures
        usize_token(seq![if v { 49u8 } else { ZERO }]) == Some(if v { 1usize } else { 0usize }),
{
    let flag = seq![if v { 49u8 } else { ZERO }];
    assert(flag.drop_last() =~= Seq::<u8>::empty());
    assert(digits_value(flag.drop_last()) == 0);
}

proof fn lemma_decision_round_trip(e: (usize, BinaryNode))
    requires
        e.1 matches BinaryNode::Decision(d) && d.decision_map.0 <= isize::MAX
            && d.decision_map.1 <= isize::MAX,
    ensures
        node_line(entry_text(e)) == Some(e),
{
    let d = e.1->Decision_0;
    let id = decimal(e.0 as nat);
    lemma_decimal(e.0 as nat);
    lemma_decimal_token(e.0 as nat);
    let sp = seq![SPACE];
    let hi = d.decision_map.1;
    let lo = d.decision_map.0;
    let a = decimal(hi as nat);
    let b = decimal(lo as nat);
    let c = decimal(d.variable_id as nat);
    lemma_decimal(hi as nat);
    lemma_decimal(lo as nat);
    lemma_decimal(d.variable_id as nat);
    lemma_decimal_token(hi as nat);
    lemma_decimal_token(lo as nat);
    lemma_decimal_token(d.variable_id as nat);
    let text = entry_text(e);
    assert(text =~= id + sp + (a + sp + (b + sp + c)));
    lemma_tokens_word(id, a + sp + (b + sp + c));
    lemma_tokens_word(a, b + sp + c);
    lemma_tokens_word(b, c);
    lemma_tokens_word(c, Seq::<u8>::empty());
    assert(tokens(text) =~= seq![id, a, b, c]);
}

proof fn lemma_terminal_round_trip(e: (usize, BinaryNode))
    requires
        e.1 is Terminal,
    ensures
        node_line(entry_text(e)) == Some(e),
{
    let v = e.1->Terminal_0;
    let id = decimal(e.0 as nat);
    lemma_decimal(e.0 as nat);
    lemma_decimal_token(e.0 as nat);
    let sp = seq![SPACE];
    let neg = seq![MINUS, 49u8];
    let flag = seq![if v { 49u8 } else { ZERO }];
    let text = entry_text(e);
    assert(text =~= id + sp + (neg + sp + (neg + sp + flag)));
    assert(no_space(neg));
    assert(no_space(flag));
    lemma_tokens_word(id, neg + sp + (neg + sp + flag));
    lemma_tokens_word(neg, neg + sp + flag);
    lemma_tokens_word(neg, flag);
    lemma_tokens_word(flag, Seq::<u8>::empty());
    assert(tokens(text) =~= seq![id, neg, neg, flag]);
    lemma_minus_one();
    lemma_flag(v);
}

/// The node that a line describes, written back, is read as the same node.
proof fn lemma_entry_round_trip(l: Seq<u8>)
    requires
        node_line(l) is Some,
    ensures
        node_line(entry_text(node_line(l)->0)) == node_line(l),
{
    let e = node_line(l)->0;
    match e.1 {
        BinaryNode::Decision(d) => lemma_decision_round_trip(e),
        BinaryNode::Terminal(_) => lemma_terminal_round_trip(e),
    }
}

/// The node lines written from what `ls` describes read back as the same
/// nodes.
proof fn lemma_nodes_round_trip(ls: Seq<Seq<u8>>)
    requires
        parse_nodes(ls) is Some,
    ensures
        parse_nodes(parse_nodes(ls)->0.map_values(|e: (usize, BinaryNode)| entry_text(e)))
            == parse_nodes(ls),
    decreases ls.len(),
{
    if ls.len() > 0 {
        let prev = ls.drop_last();
        lemma_nodes_round_trip(prev);
        let acc = parse_nodes(prev)->0;
        let e = node_line(ls.last())->0;
        let ns = acc.push(e);
        let written = ns.map_values(|x: (usize, BinaryNode)| entry_text(x));
        assert(written.drop_last() =~= acc.map_values(|x: (usize, BinaryNode)| entry_text(x)));
        assert(written.last() == entry_text(e));
        lemma_entry_round_trip(ls.last());
    }
}

/// The lines of a written diagram: the two headers, then one per node.
proof fn lemma_text_lines(h1: Seq<u8>, h2: Seq<u8>, ns: Seq<(usize, BinaryNode)>)
    requires
        h1.len() > 0,
        h2.len() > 0,
        no_newline(h1),
        no_newline(h2),
    ensures
        lines(h1 + seq![NEWLINE] + h2 + body_text(ns)) == seq![h1, h2] + ns.map_values(
            |e: (usize, BinaryNode)| entry_text(e),
        ),
    decreases ns.len(),
{
    if ns.len() == 0 {
        assert(h1 + seq![NEWLINE] + h2 + body_text(ns) =~= h1 + seq![NEWLINE] + h2);
        assert(h1.last() != NEWLINE);
        lemma_lines_join(h1, h2);
        lemma_lines_single(h1);
        lemma_lines_single(h2);
        assert(seq![h1] + seq![h2] =~= seq![h1, h2] + ns.map_values(
            |e: (usize, BinaryNode)| entry_text(e),
        ));
    } else {
        let prev = ns.drop_last();
        let e = ns.last();
        lemma_text_lines(h1, h2, prev);
        let a = h1 + seq![NEWLINE] + h2 + body_text(prev);
        assert(h1 + seq![NEWLINE] + h2 + body_text(ns) =~= a + seq![NEWLINE] + entry_text(e));
        if prev.len() == 0 {
            assert(a.last() == h2.last());
        } else {
            lemma_entry_text_shape(prev.last());
            let et = entry_text(prev.last());
            assert(a.last() == et.last());
            assert(et[et.len() - 1] != NEWLINE);
        }
        assert(h2[h2.len() - 1] != NEWLINE);
        lemma_entry_text_shape(e);
        lemma_lines_join(a, entry_text(e));
        lemma_lines_single(entry_text(e));
        assert(ns.map_values(|x: (usize, BinaryNode)| entry_text(x)) =~= prev.map_values(
            |x: (usize, BinaryNode)| entry_text(x),
        ).push(entry_text(e)));
        assert(lines(a + seq![NEWLINE] + entry_text(e)) =~= seq![h1, h2] + ns.map_values(
            |x: (usize, BinaryNode)| entry_text(x),
        ));
    }
}

/// A header as written reads back as its count.
proof fn lemma_header_round_trip(kw: Seq<u8>, n: nat)
    requires
        kw.len() > 0,
        no_space(kw),
        n <= usize::MAX,
    ensures
        header(kw + seq![SPACE] + decimal(n), kw) == Some(n as usize),
        kw + seq![SPACE] + decimal(n) != Seq::<u8>::empty(),
{
    lemma_decimal(n);
    lemma_decimal_token(n);
    lemma_tokens_word(kw, decimal(n));
    lemma_tokens_word(decimal(n), Seq::<u8>::empty());
    assert(tokens(kw + seq![SPACE] + decimal(n)) =~= seq![kw, decimal(n)]);
}

/// Reading back the text of a diagram that was read from text gives the
/// same diagram: the same variables, the same nodes in the same order and
/// the same entry node, so the same count of variables and of nodes and the
/// same result of evaluation under every assignment.
pub proof fn law_round_trip(text: Seq<u8>)
    requires
        parse_spec(text) is Some,
    ensures
        parse_spec(diagram_text(parse_spec(text)->0)) == parse_spec(text),
        forall|bs: Seq<bool>|
            #[trigger] eval_spec(assign_spec(parse_spec(diagram_text(parse_spec(text)->0))->0, bs))
                == eval_spec(assign_spec(parse_spec(text)->0, bs)),
{
    let m = parse_spec(text)->0;
    let ls = lines(text);
    let ns = m.nodes;
    let h1 = vars_prefix() + decimal(m.var_ids.len());
    let h2 = nodes_prefix() + decimal(ns.len());
    assert(vars_prefix() =~= vars_keyword() + seq![SPACE]);
    assert(nodes_prefix() =~= nodes_keyword() + seq![SPACE]);
    assert(no_space(vars_keyword()));
    assert(no_space(nodes_keyword()));
    lemma_header_round_trip(vars_keyword(), m.var_ids.len());
    lemma_header_round_trip(nodes_keyword(), ns.len());
    lemma_decimal(m.var_ids.len());
    lemma_decimal(ns.len());
    assert(no_newline(vars_prefix()));
    assert(no_newline(nodes_prefix()));
    lemma_no_newline_add(vars_prefix(), decimal(m.var_ids.len()));
    lemma_no_newline_add(nodes_prefix(), decimal(ns.len()));
    let written = diagram_text(m);
    assert(written =~= h1 + seq![NEWLINE] + h2 + body_text(ns));
    lemma_text_lines(h1, h2, ns);
    let wl = lines(written);
    assert(wl[0] == h1);
    assert(wl[1] == h2);
    assert(wl.skip(2) =~= ns.map_values(|e: (usize, BinaryNode)| entry_text(e)));
    lemma_nodes_round_trip(ls.skip(2));
}

/// Bytes below 128 that a text shows as characters are the text's bytes.
pub proof fn lemma_ascii_text_bytes(s: &str, b: Seq<u8>)
    requires
        s@ == ascii_chars(b),
        forall|i: int| 0 <= i < b.len() ==> #[trigger] b[i] < 128,
    ensures
        s.spec_bytes() == b,
{
    assert forall|i: int| 0 <= i < s@.len() implies '\0' <= #[trigger] s@[i] <= '\u{7f}' by {
        assert(s@[i] == b[i] as char);
    }
    is_ascii_spec_bytes(s);
    assert(s.spec_bytes() =~= b);
}

pub open spec fn all_ascii(b: Seq<u8>) -> bool {
    forall|i: int| 0 <= i < b.len() ==> #[trigger] b[i] < 128
}

proof fn lemma_all_ascii_add(a: Seq<u8>, b: Seq<u8>)
    requires
        all_ascii(a),
        all_ascii(b),
    ensures
        all_ascii(a + b),
{
    assert forall|i: int| 0 <= i < (a + b).len() implies #[trigger] (a + b)[i] < 128 by {
        if i >= a.len() {
            assert((a + b)[i] == b[i - a.len()]);
        }
    }
}

proof fn lemma_decimal_ascii(n: nat)
    ensures
        all_ascii(decimal(n)),
{
    lemma_decimal(n);
    assert forall|i: int| 0 <= i < decimal(n).len() implies #[trigger] decimal(n)[i] < 128 by {
        assert(crate::text::is_digit(decimal(n)[i]));
    }
}

proof fn lemma_body_ascii(ns: Seq<(usize, BinaryNode)>)
    ensures
        all_ascii(body_text(ns)),
    decreases ns.len(),
{
    if ns.len() > 0 {
        let e = ns.last();
        lemma_body_ascii(ns.drop_last());
        lemma_decimal_ascii(e.0 as nat);
        let sp = seq![SPACE];
        assert(all_ascii(sp));
        assert(all_ascii(seq![NEWLINE]));
        match e.1 {
            BinaryNode::Decision(d) => {
                let a = decimal(d.decision_map.1 as nat);
                let b = decimal(d.decision_map.0 as nat);
                let c = decimal(d.variable_id as nat);
                lemma_decimal_ascii(d.decision_map.1 as nat);
                lemma_decimal_ascii(d.decision_map.0 as nat);
                lemma_decimal_ascii(d.variable_id as nat);
                lemma_all_ascii_add(a, sp);
                lemma_all_ascii_add(a + sp, b);
                lemma_all_ascii_add(a + sp + b, sp);
                lemma_all_ascii_add(a + sp + b + sp, c);
            },
            BinaryNode::Terminal(_) => {
                assert(all_ascii(node_text(e.1)));
            },
        }
        lemma_all_ascii_add(decimal(e.0 as nat), sp);
        lemma_all_ascii_add(decimal(e.0 as nat) + sp, node_text(e.1));
        lemma_all_ascii_add(body_text(ns.drop_last()), seq![NEWLINE]);
        lemma_all_ascii_add(body_text(ns.drop_last()) + seq![NEWLINE], entry_text(e));
    }
}

/// The text of a diagram is plain ASCII.
pub proof fn lemma_diagram_text_ascii(m: DiagramModel)
    ensures
        all_ascii(diagram_text(m)),
{
    let a = vars_prefix();
    let b = decimal(m.var_ids.len());
    let c = seq![NEWLINE];
    let d = nodes_prefix();
    let e = decimal(m.nodes.len());
    assert(all_ascii(a));
    assert(all_ascii(c));
    assert(all_ascii(d));
    lemma_decimal_ascii(m.var_ids.len());
    lemma_decimal_ascii(m.nodes.len());
    lemma_body_ascii(m.nodes);
    lemma_all_ascii_add(a, b);
    lemma_all_ascii_add(a + b, c);
    lemma_all_ascii_add(a + b + c, d);
    lemma_all_ascii_add(a + b + c + d, e);
    lemma_all_ascii_add(a + b + c + d + e, body_text(m.nodes));
}

/// Reading back the string that `to_text` gives for a diagram read from
/// `input` gives the diagram read from `input`.
pub proof fn law_round_trip_text(input: &str, output: &str)
    requires
        parse_spec(input.spec_bytes()) is Some,
        output@ == ascii_chars(diagram_text(parse_spec(input.spec_bytes())->0)),
    ensures
        parse_spec(output.spec_bytes()) == parse_spec(input.spec_bytes()),
{
    let m = parse_spec(input.spec_bytes())->0;
    lemma_diagram_text_ascii(m);
    lemma_ascii_text_bytes(output, diagram_text(m));
    law_round_trip(input.spec_bytes());
}

/// After `assign_vars(bs)` the value `bs[i]` belongs to `var_ids[i]`, the
/// i-th smallest variable id: the ids before position `i` are exactly the
/// ids below it, however the variables came first in the text. The
/// assigned diagram keeps the structural invariants.
pub proof fn law_assign_order(m: DiagramModel, bs: Seq<bool>)
    requires
        m.wf(),
        bs.len() == m.var_ids.len(),
    ensures
        assign_spec(m, bs).wf(),
        forall|i: int, j: int|
            0 <= i < m.var_ids.len() && 0 <= j < m.var_ids.len() ==> (j < i <==> #[trigger] m.var_ids[j]
                < #[trigger] m.var_ids[i]),
        forall|i: int|
            0 <= i < bs.len() ==> lookup_value(
                m.var_ids,
                assign_spec(m, bs).values,
                #[trigger] m.var_ids[i],
            ) == Some(bs[i]),
{
    let ids = m.var_ids;
    assert forall|i: int, j: int|
        0 <= i < ids.len() && 0 <= j < ids.len() implies (j < i <==> #[trigger] ids[j]
            < #[trigger] ids[i]) by {
        if j < i {
            assert(ids[j] < ids[i]);
        } else if i < j {
            assert(ids[i] < ids[j]);
        }
    }
    assert forall|i: int| 0 <= i < bs.len() implies lookup_value(
        ids,
        assign_spec(m, bs).values,
        #[trigger] ids[i],
    ) == Some(bs[i]) by {
        assert forall|j: int| 0 <= j < i implies ids[j] != ids[i] by {
            assert(ids[j] < ids[i]);
        }
        lemma_lookup_at(ids, assign_spec(m, bs).values, ids[i], i);
    }
}

proof fn lemma_table_prefix(m: DiagramModel, k: nat)
    ensures
        table_prefix(m, k) is Ok <==> forall|i: nat|
            i < k ==> #[trigger] eval_spec(assign_spec(m, bits_of(i, m.var_ids.len()))) is Ok,
        table_prefix(m, k) is Ok ==> table_prefix(m, k)->Ok_0.len() == k,
        table_prefix(m, k) is Ok ==> forall|i: int|
            0 <= i < k ==> table_prefix(m, k)->Ok_0[i] == #[trigger] eval_spec(
                assign_spec(m, bits_of(i as nat, m.var_ids.len())),
            )->Ok_0,
    decreases k,
{
    if k > 0 {
        let p = (k - 1) as nat;
        lemma_table_prefix(m, p);
        if table_prefix(m, k) is Ok {
            let s = table_prefix(m, p)->Ok_0;
            assert forall|i: int| 0 <= i < k implies table_prefix(m, k)->Ok_0[i] == #[trigger] eval_spec(
                assign_spec(m, bits_of(i as nat, m.var_ids.len())),
            )->Ok_0 by {
                if i < p {
                    assert(table_prefix(m, k)->Ok_0[i] == s[i]);
                }
            }
        } else {
            if table_prefix(m, p) is Ok {
                assert(eval_spec(assign_spec(m, bits_of(p, m.var_ids.len()))) is Err);
            } else {
                let i = choose|i: nat|
                    i < p && !(#[trigger] eval_spec(
                        assign_spec(m, bits_of(i, m.var_ids.len())),
                    ) is Ok);
            }
        }
    }
}

/// The truth table of a diagram with `n` variables has `2^n` entries, and
/// entry `i` is what `eval` gives after `assign_vars(bits_of(i, n))`, bit 0
/// of `i` going to the first variable; it is made exactly when every one of
/// those evaluations succeeds and `n` is at most 63.
pub proof fn law_truth_table(m: DiagramModel)
    ensures
        table_spec(m) is Ok <==> (m.var_ids.len() <= MAX_TABLE_VARS && forall|i: nat|
            i < pow2(m.var_ids.len()) ==> #[trigger] eval_spec(
                assign_spec(m, bits_of(i, m.var_ids.len())),
            ) is Ok),
        table_spec(m) is Ok ==> table_spec(m)->Ok_0.len() == pow2(m.var_ids.len()),
        table_spec(m) is Ok ==> forall|i: int|
            0 <= i < pow2(m.var_ids.len()) ==> table_spec(m)->Ok_0[i] == #[trigger] eval_spec(
                assign_spec(m, bits_of(i as nat, m.var_ids.len())),
            )->Ok_0,
{
    lemma_table_prefix(m, pow2(m.var_ids.len()));
}

/// Lookups in a table where no variable is assigned find no value.
proof fn lemma_lookup_unassigned(ids: Seq<usize>, vals: Seq<Option<bool>>, v: usize)
    requires
        forall|i: int| 0 <= i < vals.len() ==> #[trigger] vals[i] is None,
    ensures
        lookup_value(ids, vals, v) is None,
    decreases ids.len(),
{
    if ids.len() > 0 && vals.len() > 0 && ids[0] != v {
        let rest = vals.drop_first();
        assert forall|i: int| 0 <= i < rest.len() implies #[trigger] rest[i] is None by {
            assert(rest[i] == vals[i + 1]);
        }
        lemma_lookup_unassigned(ids.drop_first(), rest, v);
    }
}

/// Evaluating a diagram just read, before any assignment, fails: its entry
/// is a decision node, and no variable has a value yet.
pub proof fn law_fresh_eval_fails(text: Seq<u8>)
    requires
        parse_spec(text) is Some,
    ensures
        eval_spec(parse_spec(text)->0) == Err::<bool, Fault>(Fault::Unassigned),
{
    let m = parse_spec(text)->0;
    lemma_parse_spec_wf(text);
    let d = find_node(m.nodes, m.entry_node)->0->Decision_0;
    lemma_lookup_unassigned(m.var_ids, m.values, d.variable_id);
}

/// A diagram is read only when it has both a true and a false terminal: text
/// whose node lines lack either outcome is refused.
pub proof fn law_terminal_polarity(text: Seq<u8>)
    ensures
        parse_spec(text) is Some ==> has_terminal(parse_spec(text)->0.nodes, true)
            && has_terminal(parse_spec(text)->0.nodes, false),
        (parse_nodes(lines(text).skip(2)) matches Some(ns) && (!has_terminal(ns, true)
            || !has_terminal(ns, false))) ==> parse_spec(text) is None,
{
}

proof fn lemma_find_node_has_id(nodes: Seq<(usize, BinaryNode)>, id: usize)
    requires
        find_node(nodes, id) is Some,
    ensures
        has_node_id(nodes, id),
    decreases nodes.len(),
{
    if nodes[0].0 != id {
        let rest = nodes.drop_first();
        lemma_find_node_has_id(rest, id);
        let i = choose|i: int| 0 <= i < rest.len() && #[trigger] rest[i].0 == id;
        assert(nodes[i + 1].0 == id);
    }
}

proof fn lemma_node_after_shift(m: DiagramModel, at: usize, k: nat)
    requires
        next_node(m, at) is Some,
    ensures
        node_after(m, at, k + 1) == node_after(m, next_node(m, at)->0, k),
    decreases k,
{
    let n = next_node(m, at)->0;
    assert(node_after(m, at, k + 1) == match node_after(m, at, k) {
        Some(x) => next_node(m, x),
        None => None,
    });
    if k > 0 {
        lemma_node_after_shift(m, at, (k - 1) as nat);
        assert(node_after(m, n, k) == match node_after(m, n, (k - 1) as nat) {
            Some(x) => next_node(m, x),
            None => None,
        });
    } else {
        assert(node_after(m, at, 0) == Some(at));
        assert(node_after(m, n, 0) == Some(n));
    }
}

/// A walk that ends in a cycle error passes through existing nodes for
/// every one of its steps.
proof fn lemma_cycle_path(m: DiagramModel, at: usize, fuel: nat)
    requires
        walk(m, at, fuel) == Err::<bool, Fault>(Fault::Cycle),
    ensures
        forall|k: nat|
            k <= fuel ==> #[trigger] node_after(m, at, k) is Some && has_node_id(
                m.nodes,
                node_after(m, at, k)->0,
            ),
    decreases fuel,
{
    lemma_find_node_has_id(m.nodes, at);
    if fuel > 0 {
        let n = next_node(m, at)->0;
        lemma_cycle_path(m, n, (fuel - 1) as nat);
        assert forall|k: nat| k <= fuel implies #[trigger] node_after(m, at, k) is Some
            && has_node_id(m.nodes, node_after(m, at, k)->0) by {
            if k > 0 {
                lemma_node_after_shift(m, at, (k - 1) as nat);
                assert(node_after(m, n, (k - 1) as nat) is Some);
            }
        }
    }
}

/// A cycle error is reported only for a walk that comes back to a node it
/// has passed, and so would never reach a terminal.
pub proof fn law_cycle(m: DiagramModel)
    requires
        eval_spec(m) == Err::<bool, Fault>(Fault::Cycle),
    ensures
        exists|i: nat, j: nat|
            i < j <= m.nodes.len() && #[trigger] node_after(m, m.entry_node, i) is Some
                && node_after(m, m.entry_node, i) == #[trigger] node_after(m, m.entry_node, j),
{
    let n = m.nodes.len();
    let at = m.entry_node;
    lemma_cycle_path(m, at, n);
    let p = Seq::new(n + 1, |k: int| node_after(m, at, k as nat)->0);
    let ids = m.nodes.map_values(|e: (usize, BinaryNode)| e.0);
    assert_by_contradiction!(exists|i: nat, j: nat|
            i < j <= n && #[trigger] node_after(m, at, i) is Some
                && node_after(m, at, i) == #[trigger] node_after(m, at, j), {
        assert forall|a: int, b: int| 0 <= a < p.len() && 0 <= b < p.len() && a != b implies p[a]
            != p[b] by {
            assert(node_after(m, at, a as nat) is Some);
            assert(node_after(m, at, b as nat) is Some);
            if a < b {
                if p[a] == p[b] {
                    assert(node_after(m, at, a as nat) == node_after(m, at, b as nat));
                }
            } else {
                if p[a] == p[b] {
                    assert(node_after(m, at, b as nat) == node_after(m, at, a as nat));
                }
            }
        }
        p.unique_seq_to_set();
        ids.lemma_cardinality_of_set();
        assert forall|x: usize| p.to_set().contains(x) implies ids.to_set().contains(x) by {
            let k = choose|k: int| 0 <= k < p.len() && p[k] == x;
            assert(node_after(m, at, k as nat) is Some);
            let i = choose|i: int| 0 <= i < m.nodes.len() && #[trigger] m.nodes[i].0 == x;
            assert(ids[i] == x);
        }
        seq_to_set_is_finite(ids);
        lemma_len_subset(p.to_set(), ids.to_set());
    });
}

} // verus!
