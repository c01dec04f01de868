//! A binary decision diagram engine: a diagram is read from a small text
//! format, its variables are assigned, and it is evaluated by walking from
//! its entry node to a terminal, one assignment or all of them at once.
use vstd::prelude::*;
use vstd::arithmetic::div_mod::lemma_div_denominator;
use vstd::string::StringSliceAdditionalSpecFns;
use vstd::arithmetic::power2::{pow2, lemma2_to64, lemma_pow2_pos, lemma_pow2_unfold};

pub mod bdd;
pub mod text;

verus! {

/// The errors of the engine, each with a short description.
#[derive(Debug, PartialEq, Eq)]
pub enum FlowError {
    /// The diagram could not be walked to a terminal.
    EvaluationError(&'static str),
    /// The text is not a well-formed diagram.
    ParseError(&'static str),
    /// The number of values does not match the number of variables.
    VariableAssignmentError(&'static str),
    /// The walk came back to a node it had already passed.
    CycleError(&'static str),
}

impl FlowError {
    /// The error as text: what failed, then the description.
    pub open spec fn text_spec(self) -> Seq<char> {
        match self {
            FlowError::EvaluationError(msg) => "Could not evaluate: "@ + msg@,
            FlowError::ParseError(msg) => "Could not parse: "@ + msg@,
            FlowError::VariableAssignmentError(msg) => "Could not assign variable: "@ + msg@,
            FlowError::CycleError(msg) => "Could not evaluate, cycle: "@ + msg@,
        }
    }

    /// The error as a line of text for a user.
    pub fn to_text(&self) -> (r: String)
        ensures
            r@ == self.text_spec(),
    {
        let (mut out, msg) = match self {
            FlowError::EvaluationError(msg) => (String::from_str("Could not evaluate: "), msg),
            FlowError::ParseError(msg) => (String::from_str("Could not parse: "), msg),
            FlowError::VariableAssignmentError(msg) => (
                String::from_str("Could not assign variable: "),
                msg,
            ),
            FlowError::CycleError(msg) => (String::from_str("Could not evaluate, cycle: "), msg),
        };
        out.append(msg);
        out
    }
}

/// A boolean variable: `None` until it is assigned.
pub struct Variable {
    pub value: Option<bool>,
}

impl Variable {
    /// A fresh variable, not yet assigned.
    pub fn new() -> (r: Self)
        ensures
            r.value is None,
    {
        Variable { value: None }
    }
}

/// Something that can be given values for its variables and evaluated.
pub trait Evaluate {
    /// Gives the variables, in ascending order of their ids, the values in
    /// `values`; fails when the lengths differ.
    fn assign_vars(&mut self, values: &[bool]) -> Result<(), FlowError>;

    /// Evaluates with the values currently assigned.
    fn eval(&self) -> Result<bool, FlowError>;

    /// Evaluates under every assignment, indexed by the assignment read as
    /// a binary number whose bit 0 goes to the first variable.
    fn truth_table(&self) -> Result<Vec<bool>, FlowError>;
}

/// The `n` low bits of `x`, least significant first.
pub open spec fn bits_of(x: nat, n: nat) -> Seq<bool> {
    Seq::new(n, |k: int| (x / pow2(k as nat)) % 2 == 1)
}

/// The `num_vars` low bits of `bits`, least significant first.
pub fn convert_bits_to_bools(bits: u64, num_vars: usize) -> (r: Vec<bool>)
    ensures
        r@ == bits_of(bits as nat, num_vars as nat),
{
    let mut bools: Vec<bool> = Vec::new();
    let mut cur_bits = bits;
    let mut i: usize = 0;
    proof {
        lemma2_to64();
    }
    while i < num_vars
        invariant
            i <= num_vars,
            bools@.len() == i,
            forall|k: int| 0 <= k < i ==> bools@[k] == bits_of(bits as nat, num_vars as nat)[k],
            cur_bits as nat == bits as nat / pow2(i as nat),
        decreases num_vars - i,
    {
        let low = cur_bits & 1;
        assert((cur_bits & 1) == cur_bits % 2) by (bit_vector);
        bools.push(low == 1);
        proof {
            lemma_pow2_pos(i as nat);
            lemma_pow2_unfold((i + 1) as nat);
            lemma_div_denominator(bits as int, pow2(i as nat) as int, 2);
            assert(pow2(i as nat) * 2 == pow2((i + 1) as nat));
        }
        assert(cur_bits >> 1 == cur_bits / 2) by (bit_vector);
        cur_bits = cur_bits >> 1;
        i = i + 1;
    }
    assert(bools@ =~= bits_of(bits as nat, num_vars as nat));
    bools
}

/// The eight bits of `byte`, least significant first.
pub fn byte_to_bools(byte: u8) -> (r: Vec<bool>)
    ensures
        r@ == bits_of(byte as nat, 8),
{
    convert_bits_to_bools(byte as u64, 8)
}

/// The value of a hexadecimal digit, in either case.
pub open spec fn hex_digit(b: u8) -> Option<nat> {
    if 48 <= b <= 57 {
        Some((b - 48) as nat)
    } else if 97 <= b <= 102 {
        Some((b - 87) as nat)
    } else if 65 <= b <= 70 {
        Some((b - 55) as nat)
    } else {
        None
    }
}

/// The bits of a hexadecimal text: two digits to a byte, most significant
/// digit first, and each byte's bits least significant first; `None` for
/// an odd length or a character that is not a hexadecimal digit.
pub open spec fn hex_bits(s: Seq<u8>) -> Option<Seq<bool>>
    decreases s.len(),
{
    if s.len() == 0 {
        Some(seq![])
    } else if s.len() == 1 {
        None
    } else {
        match (hex_digit(s[0]), hex_digit(s[1]), hex_bits(s.skip(2))) {
            (Some(h), Some(l), Some(rest)) => Some(bits_of(h * 16 + l, 8) + rest),
            _ => None,
        }
    }
}

fn hex_digit_value(b: u8) -> (r: Option<u8>)
    ensures
        match hex_digit(b) {
            Some(v) => r == Some(v as u8) && v < 16,
            None => r is None,
        },
{
    if 48 <= b && b <= 57 {
        Some(b - 48)
    } else if 97 <= b && b <= 102 {
        Some(b - 87)
    } else if 65 <= b && b <= 70 {
        Some(b - 55)
    } else {
        None
    }
}

/// The values given as a hexadecimal text, eight to a byte.
pub fn hex_to_bools(text: &str) -> (r: Option<Vec<bool>>)
    ensures
        match hex_bits(text.spec_bytes()) {
            Some(bs) => r is Some && r->0@ == bs,
            None => r is None,
        },
{
    let s = text.as_bytes();
    let ghost t = s@;
    let mut out: Vec<bool> = Vec::new();
    let mut i: usize = 0;
    assert(t.skip(0) =~= t);
    while i < s.len()
        invariant
            s@ == t,
            t == text.spec_bytes(),
            i <= t.len(),
            hex_bits(t) == match hex_bits(t.skip(i as int)) {
                Some(rest) => Some(out@ + rest),
                None => None::<Seq<bool>>,
            },
        decreases t.len() - i,
    {
        let ghost rest = t.skip(i as int);
        if i + 1 == s.len() {
            return None;
        }
        assert(rest.skip(2) =~= t.skip(i + 2));
        let h = match hex_digit_value(s[i]) {
            None => return None,
            Some(h) => h,
        };
        let l = match hex_digit_value(s[i + 1]) {
            None => return None,
            Some(l) => l,
        };
        let mut bits = byte_to_bools(h * 16 + l);
        let ghost before = out@;
        out.append(&mut bits);
        proof {
            if hex_bits(t.skip(i + 2)) is Some {
                assert(before + (bits_of((h * 16 + l) as nat, 8) + hex_bits(t.skip(i + 2))->0)
                    =~= out@ + hex_bits(t.skip(i + 2))->0);
            }
        }
        i = i + 2;
    }
    assert(t.skip(i as int) =~= Seq::<u8>::empty());
    assert(out@ + Seq::<bool>::empty() =~= out@);
    Some(out)
}

} // verus!
