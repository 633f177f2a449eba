//! Character-level helpers shared by the path logic.

use vstd::prelude::*;

verus! {

broadcast use vstd::string::group_string_axioms;

/// Appends one character to a `String` (std's `String::push`).
///
/// Claimed: the string afterwards is the old one followed by `c`.
#[verifier::external_body]
pub(crate) fn push_char(s: &mut String, c: char)
    ensures
        final(s)@ == old(s)@.push(c),
{
    s.push(c);
}

/// The characters of `s`, in order.
pub fn chars_of(s: &str) -> (v: Vec<char>)
    ensures
        v@ == s@,
{
    let mut v: Vec<char> = Vec::new();
    for c in it: s.chars()
        invariant
            v@ == it.seq().take(it.index() as int),
            it.seq() == s@,
    {
        v.push(c);
    }
    v
}

/// Appends `xs[from..to]` to `r`.
pub fn push_range(r: &mut Vec<char>, xs: &Vec<char>, from: usize, to: usize)
    requires
        from <= to <= xs.len(),
    ensures
        final(r)@ == old(r)@ + xs@.subrange(from as int, to as int),
{
    let ghost start = r@;
    let mut i = from;
    while i < to
        invariant
            from <= i <= to <= xs.len(),
            r@ == start + xs@.subrange(from as int, i as int),
        decreases to - i,
    {
        r.push(xs[i]);
        assert(xs@.subrange(from as int, i + 1) == xs@.subrange(from as int, i as int).push(xs@[i as int]));
        i += 1;
    }
}

/// A `String` holding exactly the characters of `cs`.
pub fn string_of(cs: &Vec<char>) -> (s: String)
    ensures
        s@ == cs@,
{
    let mut s = String::new();
    let mut i: usize = 0;
    while i < cs.len()
        invariant
            i <= cs.len(),
            s@ == cs@.take(i as int),
        decreases cs.len() - i,
    {
        push_char(&mut s, cs[i]);
        assert(cs@.take(i + 1) == cs@.take(i as int).push(cs@[i as int]));
        i += 1;
    }
    assert(cs@.take(cs.len() as int) == cs@);
    s
}


/// `c` is one of the ASCII digits `0`..`9`.
pub open spec fn is_digit(c: char) -> bool {
    '0' <= c <= '9'
}

/// The numeric value of the ASCII digit `c`.
pub open spec fn digit_value(c: char) -> nat {
    (c as int - '0' as int) as nat
}

/// The ASCII digit for `d < 10`.
pub open spec fn digit_char(d: nat) -> char {
    ((d + '0' as int) as u32) as char
}

/// The value of a sequence of decimal digits (most significant first).
pub open spec fn digits_value(s: Seq<char>) -> nat
    decreases s.len(),
{
    if s.len() == 0 {
        0
    } else {
        digits_value(s.drop_last()) * 10 + digit_value(s.last())
    }
}

/// The value of `body` if it is a non-empty run of digits whose value fits in `usize`.
pub open spec fn parse_digits_spec(body: Seq<char>) -> Option<nat> {
    if body.len() > 0 && (forall|i: int| 0 <= i < body.len() ==> is_digit(#[trigger] body[i]))
        && digits_value(body) <= usize::MAX {
        Some(digits_value(body))
    } else {
        None
    }
}

/// What std's `usize::from_str` gives for `s`: an optional `+`, then at least
/// one digit, and a value that fits in `usize`.
pub open spec fn parse_usize_spec(s: Seq<char>) -> Option<nat> {
    if s.len() > 0 && s[0] == '+' {
        parse_digits_spec(s.skip(1))
    } else {
        parse_digits_spec(s)
    }
}

/// The decimal representation of `n` without leading zeros.
pub open spec fn decimal_spec(n: nat) -> Seq<char>
    decreases n,
{
    if n < 10 {
        seq![digit_char(n)]
    } else {
        decimal_spec(n / 10).push(digit_char(n % 10))
    }
}

/// Digit characters and their values correspond.
pub proof fn lemma_digit_char(d: nat)
    requires
        d < 10,
    ensures
        is_digit(digit_char(d)),
        digit_value(digit_char(d)) == d,
{
}

/// A decimal representation consists of digits only.
pub proof fn lemma_decimal_digits(n: nat)
    ensures
        decimal_spec(n).len() > 0,
        forall|i: int| 0 <= i < decimal_spec(n).len() ==> is_digit(#[trigger] decimal_spec(n)[i]),
    decreases n,
{
    if n >= 10 {
        lemma_decimal_digits(n / 10);
    }
}

/// Reading back a decimal representation gives the number.
pub proof fn lemma_decimal_value(n: nat)
    ensures
        digits_value(decimal_spec(n)) == n,
    decreases n,
{
    lemma_digit_char(n % 10);
    lemma_decimal_digits(n);
    if n < 10 {
        assert(decimal_spec(n).drop_last() =~= Seq::<char>::empty());
        assert(decimal_spec(n).last() == digit_char(n));
        assert(n % 10 == n);
        assert(digit_value(digit_char(n)) == n);
        assert(digits_value(Seq::<char>::empty()) == 0);
        assert(digits_value(decimal_spec(n)) == digits_value(decimal_spec(n).drop_last()) * 10
            + digit_value(decimal_spec(n).last()));
    } else {
        lemma_decimal_value(n / 10);
        assert(decimal_spec(n).drop_last() == decimal_spec(n / 10));
        assert(decimal_spec(n).last() == digit_char(n % 10));
        assert((n / 10) * 10 + n % 10 == n);
    }
}

/// Appending digits never makes the value smaller.
proof fn lemma_digits_value_prefix(s: Seq<char>, k: int)
    requires
        0 <= k <= s.len(),
    ensures
        digits_value(s.take(k)) <= digits_value(s),
    decreases s.len(),
{
    if k < s.len() {
        lemma_digits_value_prefix(s.drop_last(), k);
        assert(s.drop_last().take(k) == s.take(k));
    } else {
        assert(s.take(k) == s);
    }
}

/// The decimal representation of `n`.
pub fn decimal_chars(n: usize) -> (r: Vec<char>)
    ensures
        r@ == decimal_spec(n as nat),
    decreases n,
{
    let d = n % 10;
    let c = ((d as u8) + 48u8) as char;
    assert(c == digit_char(d as nat));
    if n < 10 {
        let mut r: Vec<char> = Vec::new();
        r.push(c);
        assert(r@ == seq![digit_char(n as nat)]);
        r
    } else {
        let mut r = decimal_chars(n / 10);
        r.push(c);
        r
    }
}

/// Parses `cs[from..to]` the way std's `usize::from_str` does.
pub fn parse_usize(cs: &Vec<char>, from: usize, to: usize) -> (r: Option<usize>)
    requires
        from <= to <= cs.len(),
    ensures
        match r {
            Some(v) => parse_usize_spec(cs@.subrange(from as int, to as int)) == Some(v as nat),
            None => parse_usize_spec(cs@.subrange(from as int, to as int)) is None,
        },
{
    let ghost t = cs@.subrange(from as int, to as int);
    let mut b = from;
    if from < to && cs[from] == '+' {
        b = from + 1;
    }
    let ghost body = cs@.subrange(b as int, to as int);
    assert(body == (if t.len() > 0 && t[0] == '+' { t.skip(1) } else { t }));
    if b == to {
        return None;
    }
    let mut acc: u128 = 0;
    let mut i: usize = b;
    while i < to
        invariant
            b <= i <= to <= cs.len(),
            from <= b,
            t == cs@.subrange(from as int, to as int),
            body == cs@.subrange(b as int, to as int),
            body == (if t.len() > 0 && t[0] == '+' { t.skip(1) } else { t }),
            forall|k: int| 0 <= k < i - b ==> is_digit(#[trigger] body[k]),
            acc as nat == digits_value(body.take(i - b)),
            acc <= usize::MAX,
        decreases to - i,
    {
        let c = cs[i];
        if !('0' <= c && c <= '9') {
            assert(!is_digit(body[i - b]));
            assert(parse_usize_spec(t) is None);
            return None;
        }
        assert(body.take(i - b + 1).drop_last() == body.take(i - b));
        assert(body.take(i - b + 1).last() == c);
        let ghost prev = acc;
        acc = acc * 10 + ((c as u32) - ('0' as u32)) as u128;
        assert(acc as nat == digits_value(body.take(i - b + 1)));
        if acc > usize::MAX as u128 {
            assert(forall|k: int| 0 <= k < i - b + 1 ==> is_digit(#[trigger] body[k]));
            proof {
                lemma_digits_value_prefix(body, i - b + 1);
            }
            assert(digits_value(body) > usize::MAX);
            assert(parse_usize_spec(t) is None);
            return None;
        }
        i += 1;
    }
    assert(body.take(i - b) == body);
    Some(acc as usize)
}

} // verus!
