//! Byte-level reading of the diagram text: lines, whitespace-separated
//! tokens and decimal integers, each given as a spec function with an
//! executable scanner proved against it.
use vstd::prelude::*;

verus! {

pub const NEWLINE: u8 = 10;

pub const SPACE: u8 = 32;

pub const PLUS: u8 = 43;

pub const MINUS: u8 = 45;

pub const ZERO: u8 = 48;

/// ASCII whitespace: space, tab, line feed, form feed, carriage return.
pub open spec fn is_space(b: u8) -> bool {
    b == 32 || b == 9 || b == 10 || b == 12 || b == 13
}

pub open spec fn is_digit(b: u8) -> bool {
    48 <= b <= 57
}

/// Number of bytes before the first newline (the whole length if none).
pub open spec fn line_len(s: Seq<u8>) -> nat
    decreases s.len(),
{
    if s.len() == 0 || s[0] == NEWLINE {
        0
    } else {
        1 + line_len(s.drop_first())
    }
}

/// The lines of a text, split at each newline; a final newline ends the
/// last line and does not start an empty one.
pub open spec fn lines(s: Seq<u8>) -> Seq<Seq<u8>>
    decreases s.len(),
{
    if s.len() == 0 {
        seq![]
    } else {
        let n = line_len(s);
        if n < s.len() {
            seq![s.take(n as int)] + lines(s.skip(n + 1 as int))
        } else {
            seq![s]
        }
    }
}

/// Number of leading bytes that are not whitespace.
pub open spec fn word_len(s: Seq<u8>) -> nat
    decreases s.len(),
{
    if s.len() == 0 || is_space(s[0]) {
        0
    } else {
        1 + word_len(s.drop_first())
    }
}

/// The maximal runs of non-whitespace bytes, in order.
pub open spec fn tokens(s: Seq<u8>) -> Seq<Seq<u8>>
    decreases s.len(),
{
    if s.len() == 0 {
        seq![]
    } else if is_space(s[0]) {
        tokens(s.drop_first())
    } else {
        let n = word_len(s);
        proof {
            lemma_word_len_bound(s);
        }
        seq![s.take(n as int)] + tokens(s.skip(n as int))
    }
}

pub open spec fn all_digits(s: Seq<u8>) -> bool {
    forall|i: int| 0 <= i < s.len() ==> is_digit(#[trigger] s[i])
}

/// The number written by a run of decimal digits, most significant first.
pub open spec fn digits_value(s: Seq<u8>) -> nat
    decreases s.len(),
{
    if s.len() == 0 {
        0
    } else {
        digits_value(s.drop_last()) * 10 + (s.last() - ZERO) as nat
    }
}

/// A run of one or more decimal digits, and its value.
pub open spec fn digit_run(s: Seq<u8>) -> Option<nat> {
    if s.len() > 0 && all_digits(s) {
        Some(digits_value(s))
    } else {
        None
    }
}

/// An unsigned integer: an optional `+` followed by one or more digits.
pub open spec fn unsigned_text(s: Seq<u8>) -> Option<nat> {
    if s.len() > 0 && s[0] == PLUS {
        digit_run(s.drop_first())
    } else {
        digit_run(s)
    }
}

/// A token read as a `usize`: unsigned text whose value fits.
pub open spec fn usize_token(s: Seq<u8>) -> Option<usize> {
    match unsigned_text(s) {
        Some(v) => if v <= usize::MAX {
            Some(v as usize)
        } else {
            None
        },
        None => None,
    }
}

/// A token read as an `isize`: a `-` followed by digits, or unsigned text,
/// whose value lies in the range of `isize`.
pub open spec fn isize_token(s: Seq<u8>) -> Option<isize> {
    if s.len() > 0 && s[0] == MINUS {
        match digit_run(s.drop_first()) {
            Some(v) => if v <= isize::MAX + 1 {
                Some((-v) as isize)
            } else {
                None
            },
            None => None,
        }
    } else {
        match unsigned_text(s) {
            Some(v) => if v <= isize::MAX {
                Some(v as isize)
            } else {
                None
            },
            None => None,
        }
    }
}

/// The decimal digits of `n`, without sign or leading zeros.
pub open spec fn decimal(n: nat) -> Seq<u8>
    decreases n,
{
    if n < 10 {
        seq![(ZERO + n) as u8]
    } else {
        decimal(n / 10).push((ZERO + n % 10) as u8)
    }
}

pub proof fn lemma_line_len_bound(s: Seq<u8>)
    ensures
        line_len(s) <= s.len(),
        line_len(s) < s.len() ==> s[line_len(s) as int] == NEWLINE,
        forall|i: int| 0 <= i < line_len(s) ==> s[i] != NEWLINE,
    decreases s.len(),
{
    if s.len() > 0 && s[0] != NEWLINE {
        lemma_line_len_bound(s.drop_first());
        assert forall|i: int| 0 <= i < line_len(s) implies s[i] != NEWLINE by {
            if i > 0 {
                assert(s[i] == s.drop_first()[i - 1]);
            }
        }
    }
}

pub proof fn lemma_word_len_bound(s: Seq<u8>)
    ensures
        word_len(s) <= s.len(),
        word_len(s) < s.len() ==> is_space(s[word_len(s) as int]),
        forall|i: int| 0 <= i < word_len(s) ==> !is_space(#[trigger] s[i]),
        s.len() > 0 && !is_space(s[0]) ==> word_len(s) > 0,
    decreases s.len(),
{
    if s.len() > 0 && !is_space(s[0]) {
        lemma_word_len_bound(s.drop_first());
        assert forall|i: int| 0 <= i < word_len(s) implies !is_space(#[trigger] s[i]) by {
            if i > 0 {
                assert(s[i] == s.drop_first()[i - 1]);
            }
        }
    }
}

/// The end of the line that starts at `start`: the index of the next
/// newline, or the end of the text.
pub fn line_end(s: &[u8], start: usize) -> (e: usize)
    requires
        start <= s@.len(),
    ensures
        start <= e <= s@.len(),
        e - start == line_len(s@.subrange(start as int, s@.len() as int)),
{
    let mut e = start;
    while e < s.len() && s[e] != NEWLINE
        invariant
            start <= e <= s@.len(),
            line_len(s@.subrange(start as int, s@.len() as int)) == (e - start) + line_len(
                s@.subrange(e as int, s@.len() as int),
            ),
        decreases s@.len() - e,
    {
        assert(s@.subrange(e as int, s@.len() as int).drop_first() =~= s@.subrange(
            e + 1,
            s@.len() as int,
        ));
        e = e + 1;
    }
    e
}

/// Finds the next token of `s[pos..end]`: its start and end.
pub fn next_token(s: &[u8], pos: usize, end: usize) -> (r: Option<(usize, usize)>)
    requires
        pos <= end <= s@.len(),
    ensures
        match r {
            None => tokens(s@.subrange(pos as int, end as int)) == Seq::<Seq<u8>>::empty(),
            Some((a, b)) => {
                &&& pos <= a < b <= end
                &&& tokens(s@.subrange(pos as int, end as int)) == seq![
                    s@.subrange(a as int, b as int),
                ] + tokens(s@.subrange(b as int, end as int))
            },
        },
{
    let mut a = pos;
    while a < end && (s[a] == 32 || s[a] == 9 || s[a] == 10 || s[a] == 12 || s[a] == 13)
        invariant
            pos <= a <= end <= s@.len(),
            tokens(s@.subrange(pos as int, end as int)) == tokens(
                s@.subrange(a as int, end as int),
            ),
        decreases end - a,
    {
        assert(s@.subrange(a as int, end as int).drop_first() =~= s@.subrange(
            a + 1,
            end as int,
        ));
        a = a + 1;
    }
    if a == end {
        assert(s@.subrange(a as int, end as int).len() == 0);
        return None;
    }
    let ghost w = s@.subrange(a as int, end as int);
    let mut b = a;
    while b < end && !(s[b] == 32 || s[b] == 9 || s[b] == 10 || s[b] == 12 || s[b] == 13)
        invariant
            pos <= a <= b <= end <= s@.len(),
            w == s@.subrange(a as int, end as int),
            word_len(w) == (b - a) + word_len(s@.subrange(b as int, end as int)),
        decreases end - b,
    {
        assert(s@.subrange(b as int, end as int).drop_first() =~= s@.subrange(
            b + 1,
            end as int,
        ));
        b = b + 1;
    }
    proof {
        assert(word_len(s@.subrange(b as int, end as int)) == 0);
        assert(!is_space(w[0]));
        assert(w.take((b - a) as int) =~= s@.subrange(a as int, b as int));
        assert(w.skip((b - a) as int) =~= s@.subrange(b as int, end as int));
    }
    Some((a, b))
}

proof fn lemma_digits_value_step(s: Seq<u8>, i: int)
    requires
        0 <= i < s.len(),
    ensures
        digits_value(s.subrange(0, i + 1)) == digits_value(s.subrange(0, i)) * 10 + (s[i]
            - ZERO) as nat,
{
    assert(s.subrange(0, i + 1).drop_last() =~= s.subrange(0, i));
}

/// Reads `s[a..b]` as a run of decimal digits whose value fits in `usize`.
pub fn digit_run_value(s: &[u8], a: usize, b: usize) -> (r: Option<usize>)
    requires
        a <= b <= s@.len(),
    ensures
        r == (match digit_run(s@.subrange(a as int, b as int)) {
            Some(v) => if v <= usize::MAX {
                Some(v as usize)
            } else {
                None
            },
            None => None,
        }),
{
    let ghost t = s@.subrange(a as int, b as int);
    if a == b {
        return None;
    }
    let mut v: usize = 0;
    let mut i = a;
    while i < b
        invariant
            a <= i <= b <= s@.len(),
            t == s@.subrange(a as int, b as int),
            all_digits(t.subrange(0, i - a)),
            v == digits_value(t.subrange(0, i - a)),
        decreases b - i,
    {
        let c = s[i];
        if c < 48 || c > 57 {
            assert(!is_digit(t[i - a]));
            return None;
        }
        proof {
            lemma_digits_value_step(t, i - a);
            assert(t.subrange(0, i + 1 - a).drop_last() =~= t.subrange(0, i - a));
        }
        let d = (c - 48) as usize;
        match v.checked_mul(10) {
            None => {
                proof {
                    lemma_digits_value_prefix(t, i + 1 - a);
                    lemma_digit_run_cases(t);
                }
                return None;
            },
            Some(v10) => match v10.checked_add(d) {
                None => {
                    proof {
                        lemma_digits_value_prefix(t, i + 1 - a);
                        lemma_digit_run_cases(t);
                    }
                    return None;
                },
                Some(next) => {
                    v = next;
                },
            },
        }
        i = i + 1;
    }
    assert(t.subrange(0, b - a) =~= t);
    Some(v)
}

proof fn lemma_digit_run_cases(t: Seq<u8>)
    ensures
        !all_digits(t) ==> digit_run(t) is None,
{
}

/// For an all-digit text, a prefix never has a larger value than the whole.
proof fn lemma_digits_value_prefix(t: Seq<u8>, k: int)
    requires
        0 <= k <= t.len(),
    ensures
        all_digits(t) ==> digits_value(t.subrange(0, k)) <= digits_value(t),
    decreases t.len() - k,
{
    if k < t.len() && all_digits(t) {
        lemma_digits_value_prefix(t, k + 1);
        lemma_digits_value_step(t, k);
        assert(is_digit(t[k]));
    }
    if k == t.len() {
        assert(t.subrange(0, k) =~= t);
    }
}

/// Reads `s[a..b]` as a `usize` token.
pub fn usize_at(s: &[u8], a: usize, b: usize) -> (r: Option<usize>)
    requires
        a <= b <= s@.len(),
    ensures
        r == usize_token(s@.subrange(a as int, b as int)),
{
    if a < b && s[a] == PLUS {
        assert(s@.subrange(a as int, b as int).drop_first() =~= s@.subrange(a + 1, b as int));
        digit_run_value(s, a + 1, b)
    } else {
        digit_run_value(s, a, b)
    }
}

/// Reads `s[a..b]` as an `isize` token.
pub fn isize_at(s: &[u8], a: usize, b: usize) -> (r: Option<isize>)
    requires
        a <= b <= s@.len(),
    ensures
        r == isize_token(s@.subrange(a as int, b as int)),
{
    if a < b && s[a] == MINUS {
        assert(s@.subrange(a as int, b as int).drop_first() =~= s@.subrange(a + 1, b as int));
        match digit_run_value(s, a + 1, b) {
            None => None,
            Some(m) => {
                if m <= isize::MAX as usize {
                    Some(-(m as isize))
                } else if m == isize::MAX as usize + 1 {
                    Some(isize::MIN)
                } else {
                    None
                }
            },
        }
    } else {
        match usize_at(s, a, b) {
            None => None,
            Some(m) => {
                if m <= isize::MAX as usize {
                    Some(m as isize)
                } else {
                    None
                }
            },
        }
    }
}

pub open spec fn no_newline(s: Seq<u8>) -> bool {
    forall|i: int| 0 <= i < s.len() ==> #[trigger] s[i] != NEWLINE
}

pub open spec fn no_space(s: Seq<u8>) -> bool {
    forall|i: int| 0 <= i < s.len() ==> !is_space(#[trigger] s[i])
}

pub proof fn lemma_line_len_append(a: Seq<u8>, c: Seq<u8>)
    ensures
        line_len(a + c) == if line_len(a) < a.len() {
            line_len(a)
        } else {
            a.len() + line_len(c)
        },
    decreases a.len(),
{
    lemma_line_len_bound(a);
    if a.len() == 0 {
        assert(a + c =~= c);
    } else if a[0] != NEWLINE {
        lemma_line_len_append(a.drop_first(), c);
        assert((a + c).drop_first() =~= a.drop_first() + c);
    }
}

/// A text without newlines is one line, when it is not empty.
pub proof fn lemma_lines_single(a: Seq<u8>)
    requires
        a.len() > 0,
        no_newline(a),
    ensures
        lines(a) == seq![a],
{
    lemma_line_len_bound(a);
    if line_len(a) < a.len() {
        assert(a[line_len(a) as int] == NEWLINE);
    }
}

/// Joining two texts with a newline joins their lines, when the first is
/// not empty and does not end with a newline.
pub proof fn lemma_lines_join(a: Seq<u8>, b: Seq<u8>)
    requires
        a.len() > 0,
        a.last() != NEWLINE,
    ensures
        lines(a + seq![NEWLINE] + b) == lines(a) + lines(b),
    decreases a.len(),
{
    let t = a + seq![NEWLINE] + b;
    lemma_line_len_bound(a);
    lemma_line_len_append(a, seq![NEWLINE] + b);
    assert(t =~= a + (seq![NEWLINE] + b));
    let n = line_len(a);
    if n < a.len() {
        assert(n + 1 < a.len());
        let a2 = a.skip(n + 1 as int);
        assert(a2.last() == a.last());
        lemma_lines_join(a2, b);
        assert(t.take(n as int) =~= a.take(n as int));
        assert(t.skip(n + 1 as int) =~= a2 + seq![NEWLINE] + b);
        assert(lines(t) == seq![a.take(n as int)] + lines(a2 + seq![NEWLINE] + b));
        assert(lines(a) == seq![a.take(n as int)] + lines(a2));
        assert(lines(t) =~= lines(a) + lines(b));
    } else {
        assert((seq![NEWLINE] + b)[0] == NEWLINE);
        assert(line_len(seq![NEWLINE] + b) == 0);
        assert(t.take(n as int) =~= a);
        assert(t.skip(n + 1 as int) =~= b);
        assert(lines(t) =~= lines(a) + lines(b));
    }
}

pub proof fn lemma_word_len_append(a: Seq<u8>, c: Seq<u8>)
    ensures
        word_len(a + c) == if word_len(a) < a.len() {
            word_len(a)
        } else {
            a.len() + word_len(c)
        },
    decreases a.len(),
{
    lemma_word_len_bound(a);
    if a.len() == 0 {
        assert(a + c =~= c);
    } else if !is_space(a[0]) {
        lemma_word_len_append(a.drop_first(), c);
        assert((a + c).drop_first() =~= a.drop_first() + c);
    }
}

/// A word followed by a space, then more text.
pub proof fn lemma_tokens_word(w: Seq<u8>, rest: Seq<u8>)
    requires
        w.len() > 0,
        no_space(w),
    ensures
        tokens(w + seq![SPACE] + rest) == seq![w] + tokens(rest),
        tokens(w) == seq![w],
{
    lemma_word_len_bound(w);
    if word_len(w) < w.len() {
        assert(is_space(w[word_len(w) as int]));
    }
    let t = w + seq![SPACE] + rest;
    assert(t =~= w + (seq![SPACE] + rest));
    lemma_word_len_append(w, seq![SPACE] + rest);
    assert(word_len(seq![SPACE] + rest) == 0);
    assert(t[0] == w[0]);
    assert(t.take(w.len() as int) =~= w);
    let after = t.skip(w.len() as int);
    assert(after =~= seq![SPACE] + rest);
    assert(after.drop_first() =~= rest);
    assert(tokens(after) == tokens(rest));
    assert(word_len(w) == w.len());
    assert(w.skip(w.len() as int) =~= Seq::<u8>::empty());
    assert(w.take(w.len() as int) =~= w);
    assert(tokens(w) == seq![w] + tokens(Seq::<u8>::empty()));
    assert(seq![w] + Seq::<Seq<u8>>::empty() =~= seq![w]);
}

/// What the decimal digits of `n` are: one or more digits, worth `n`.
pub proof fn lemma_decimal(n: nat)
    ensures
        decimal(n).len() > 0,
        all_digits(decimal(n)),
        digits_value(decimal(n)) == n,
        no_newline(decimal(n)),
        no_space(decimal(n)),
    decreases n,
{
    if n >= 10 {
        lemma_decimal(n / 10);
        let d = decimal(n);
        assert(d.drop_last() =~= decimal(n / 10));
        assert((n / 10) * 10 + n % 10 == n) by (nonlinear_arith);
        assert(d.last() == (ZERO + n % 10) as u8);
        assert((d.last() - ZERO) as nat == n % 10);
        assert(digits_value(d) == digits_value(decimal(n / 10)) * 10 + n % 10);
    } else {
        let d = decimal(n);
        assert(d.drop_last() =~= Seq::<u8>::empty());
        assert(digits_value(d) == digits_value(d.drop_last()) * 10 + (d.last() - ZERO) as nat);
        assert forall|i: int| 0 <= i < d.len() implies is_digit(#[trigger] d[i]) by {
            if i < d.len() - 1 {
                assert(d[i] == decimal(n / 10)[i]);
            }
        }
    }
}

/// A number written in decimal reads back as itself.
pub proof fn lemma_decimal_token(n: nat)
    ensures
        n <= usize::MAX ==> usize_token(decimal(n)) == Some(n as usize),
        n <= isize::MAX ==> isize_token(decimal(n)) == Some(n as isize),
{
    lemma_decimal(n);
    assert(is_digit(decimal(n)[0]));
}

} // verus!
