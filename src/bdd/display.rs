//! Writing a diagram back to its text: `vars <N>`, `nodes <M>`, then one
//! line per node in the order the nodes were read, as
//! `<id> <true_branch> <false_branch> <var_id>` for a decision and
//! `<id> -1 -1 1` or `<id> -1 -1 0` for a terminal. No newline ends the text.
use vstd::prelude::*;
use crate::bdd::{BinaryDecisionDiagram, BinaryNode, DecisionNode, DiagramModel};
use crate::text::{decimal, MINUS, NEWLINE, SPACE, ZERO};

verus! {

/// Bytes read as the characters with the same codes.
pub open spec fn ascii_chars(b: Seq<u8>) -> Seq<char> {
    b.map_values(|x: u8| x as char)
}

pub open spec fn vars_prefix() -> Seq<u8> {
    seq![118u8, 97u8, 114u8, 115u8, SPACE]
}

pub open spec fn nodes_prefix() -> Seq<u8> {
    seq![110u8, 111u8, 100u8, 101u8, 115u8, SPACE]
}

/// `<true_branch> <false_branch> <var_id>`.
pub open spec fn decision_text(d: DecisionNode) -> Seq<u8> {
    decimal(d.decision_map.1 as nat) + seq![SPACE] + decimal(d.decision_map.0 as nat) + seq![
        SPACE,
    ] + decimal(d.variable_id as nat)
}

/// A node without its id: a decision, or `-1 -1 1` / `-1 -1 0`.
pub open spec fn node_text(n: BinaryNode) -> Seq<u8> {
    match n {
        BinaryNode::Decision(d) => decision_text(d),
        BinaryNode::Terminal(b) => seq![MINUS, 49u8, SPACE, MINUS, 49u8, SPACE] + seq![
            if b {
                49u8
            } else {
                ZERO
            },
        ],
    }
}

/// A node line: the id, then the node.
pub open spec fn entry_text(e: (usize, BinaryNode)) -> Seq<u8> {
    decimal(e.0 as nat) + seq![SPACE] + node_text(e.1)
}

/// Each node line, after a newline.
pub open spec fn body_text(nodes: Seq<(usize, BinaryNode)>) -> Seq<u8>
    decreases nodes.len(),
{
    if nodes.len() == 0 {
        seq![]
    } else {
        body_text(nodes.drop_last()) + seq![NEWLINE] + entry_text(nodes.last())
    }
}

/// The text of a diagram.
pub open spec fn diagram_text(m: DiagramModel) -> Seq<u8> {
    vars_prefix() + decimal(m.var_ids.len()) + seq![NEWLINE] + nodes_prefix() + decimal(
        m.nodes.len(),
    ) + body_text(m.nodes)
}

proof fn lemma_ascii_chars_add(a: Seq<u8>, b: Seq<u8>)
    ensures
        ascii_chars(a + b) == ascii_chars(a) + ascii_chars(b),
{
    assert(ascii_chars(a + b) =~= ascii_chars(a) + ascii_chars(b));
}

/// Appends `text` to `out`, for a literal whose bytes are `bytes`.
fn append_ascii(out: &mut String, text: &str, Ghost(bytes): Ghost<Seq<u8>>)
    requires
        text@ == ascii_chars(bytes),
    ensures
        final(out)@ == old(out)@ + ascii_chars(bytes),
{
    out.append(text);
}

/// The digit `d` as a one-character text.
fn digit_text(d: usize) -> (r: &'static str)
    requires
        d < 10,
    ensures
        r@ == ascii_chars(seq![(ZERO + d) as u8]),
{
    proof {
        reveal_strlit("0");
        reveal_strlit("1");
        reveal_strlit("2");
        reveal_strlit("3");
        reveal_strlit("4");
        reveal_strlit("5");
        reveal_strlit("6");
        reveal_strlit("7");
        reveal_strlit("8");
        reveal_strlit("9");
    }
    let r = match d {
        0 => "0",
        1 => "1",
        2 => "2",
        3 => "3",
        4 => "4",
        5 => "5",
        6 => "6",
        7 => "7",
        8 => "8",
        _ => "9",
    };
    assert(r@ =~= ascii_chars(seq![(ZERO + d) as u8]));
    r
}

/// Appends the decimal digits of `n`.
fn append_decimal(out: &mut String, n: usize)
    ensures
        final(out)@ == old(out)@ + ascii_chars(decimal(n as nat)),
    decreases n,
{
    if n >= 10 {
        append_decimal(out, n / 10);
    }
    let d = digit_text(n % 10);
    out.append(d);
    proof {
        if n >= 10 {
            lemma_ascii_chars_add(decimal((n / 10) as nat), seq![(ZERO + n % 10) as u8]);
            assert(decimal(n as nat) == decimal((n / 10) as nat) + seq![(ZERO + n % 10) as u8]);
        }
    }
    assert(final(out)@ =~= old(out)@ + ascii_chars(decimal(n as nat)));
}

/// Appends a single byte of text.
fn append_byte(out: &mut String, b: u8)
    requires
        b == SPACE || b == NEWLINE,
    ensures
        final(out)@ == old(out)@ + ascii_chars(seq![b]),
{
    proof {
        reveal_strlit(" ");
        reveal_strlit("\n");
    }
    let text = if b == SPACE {
        " "
    } else {
        "\n"
    };
    assert(text@ =~= ascii_chars(seq![b]));
    out.append(text);
}

fn append_decision(out: &mut String, d: &DecisionNode)
    ensures
        final(out)@ == old(out)@ + ascii_chars(decision_text(*d)),
{
    let ghost start = out@;
    append_decimal(out, d.decision_map.1);
    append_byte(out, SPACE);
    append_decimal(out, d.decision_map.0);
    append_byte(out, SPACE);
    append_decimal(out, d.variable_id);
    proof {
        let a = decimal(d.decision_map.1 as nat);
        let b = decimal(d.decision_map.0 as nat);
        let c = decimal(d.variable_id as nat);
        lemma_ascii_chars_add(a, seq![SPACE]);
        lemma_ascii_chars_add(a + seq![SPACE], b);
        lemma_ascii_chars_add(a + seq![SPACE] + b, seq![SPACE]);
        lemma_ascii_chars_add(a + seq![SPACE] + b + seq![SPACE], c);
    }
    assert(final(out)@ =~= start + ascii_chars(decision_text(*d)));
}

fn append_node(out: &mut String, n: &BinaryNode)
    ensures
        final(out)@ == old(out)@ + ascii_chars(node_text(*n)),
{
    match n {
        BinaryNode::Decision(d) => append_decision(out, d),
        BinaryNode::Terminal(b) => {
            let ghost bytes = node_text(*n);
            proof {
                reveal_strlit("-1 -1 1");
                reveal_strlit("-1 -1 0");
            }
            let text = if *b {
                "-1 -1 1"
            } else {
                "-1 -1 0"
            };
            assert(text@ =~= ascii_chars(bytes));
            append_ascii(out, text, Ghost(bytes));
        },
    }
}

impl DecisionNode {
    /// The node as `<true_branch> <false_branch> <var_id>`.
    pub fn to_text(&self) -> (r: String)
        ensures
            r@ == ascii_chars(decision_text(*self)),
    {
        let mut out = String::new();
        append_decision(&mut out, self);
        assert(out@ =~= ascii_chars(decision_text(*self)));
        out
    }
}

impl BinaryNode {
    /// The node as its line without the id.
    pub fn to_text(&self) -> (r: String)
        ensures
            r@ == ascii_chars(node_text(*self)),
    {
        let mut out = String::new();
        append_node(&mut out, self);
        assert(out@ =~= ascii_chars(node_text(*self)));
        out
    }
}

impl BinaryDecisionDiagram {
    /// The diagram as text, which reads back as the same diagram.
    pub fn to_text(&self) -> (r: String)
        ensures
            r@ == ascii_chars(diagram_text(self@)),
    {
        let mut out = String::new();
        let ghost m = self@;
        proof {
            reveal_strlit("vars ");
            reveal_strlit("nodes ");
        }
        assert("vars "@ =~= ascii_chars(vars_prefix()));
        assert("nodes "@ =~= ascii_chars(nodes_prefix()));
        append_ascii(&mut out, "vars ", Ghost(vars_prefix()));
        append_decimal(&mut out, self.var_ids.len());
        append_byte(&mut out, NEWLINE);
        append_ascii(&mut out, "nodes ", Ghost(nodes_prefix()));
        append_decimal(&mut out, self.nodes.len());
        let ghost head = vars_prefix() + decimal(m.var_ids.len()) + seq![NEWLINE] + nodes_prefix()
            + decimal(m.nodes.len());
        proof {
            lemma_ascii_chars_add(vars_prefix(), decimal(m.var_ids.len()));
            lemma_ascii_chars_add(vars_prefix() + decimal(m.var_ids.len()), seq![NEWLINE]);
            lemma_ascii_chars_add(
                vars_prefix() + decimal(m.var_ids.len()) + seq![NEWLINE],
                nodes_prefix(),
            );
            lemma_ascii_chars_add(
                vars_prefix() + decimal(m.var_ids.len()) + seq![NEWLINE] + nodes_prefix(),
                decimal(m.nodes.len()),
            );
        }
        assert(out@ =~= ascii_chars(head));
        let mut i: usize = 0;
        while i < self.nodes.len()
            invariant
                m == self@,
                i <= m.nodes.len(),
                out@ == ascii_chars(head + body_text(m.nodes.take(i as int))),
            decreases m.nodes.len() - i,
        {
            let ghost before = out@;
            append_byte(&mut out, NEWLINE);
            append_decimal(&mut out, self.nodes[i].0);
            append_byte(&mut out, SPACE);
            append_node(&mut out, &self.nodes[i].1);
            proof {
                let e = m.nodes[i as int];
                let prev = head + body_text(m.nodes.take(i as int));
                assert(m.nodes.take(i + 1).drop_last() =~= m.nodes.take(i as int));
                assert(body_text(m.nodes.take(i + 1)) == body_text(m.nodes.take(i as int)) + seq![
                    NEWLINE,
                ] + entry_text(e));
                lemma_ascii_chars_add(prev, seq![NEWLINE]);
                lemma_ascii_chars_add(prev + seq![NEWLINE], decimal(e.0 as nat));
                lemma_ascii_chars_add(prev + seq![NEWLINE] + decimal(e.0 as nat), seq![SPACE]);
                lemma_ascii_chars_add(
                    prev + seq![NEWLINE] + decimal(e.0 as nat) + seq![SPACE],
                    node_text(e.1),
                );
                assert(head + body_text(m.nodes.take(i + 1)) =~= prev + seq![NEWLINE] + decimal(
                    e.0 as nat,
                ) + seq![SPACE] + node_text(e.1));
            }
            assert(out@ =~= ascii_chars(head + body_text(m.nodes.take(i + 1))));
            i = i + 1;
        }
        assert(m.nodes.take(m.nodes.len() as int) =~= m.nodes);
        out
    }
}

} // verus!
