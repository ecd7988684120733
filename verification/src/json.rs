//! The JSON text of transactions and blocks, which their ids and proofs of work
//! hash: compact (no spaces), fields in declaration order, strings escaped as
//! serde_json escapes them, maps as objects in key order, pairs as two-element
//! arrays, and `None` as `null`.
use vstd::prelude::*;
use crate::text::{chars_of, push_str};
use crate::utils::hex_digits;

verus! {

/// How one character of a string is written inside JSON quotes.
pub open spec fn json_escape_char(c: char) -> Seq<char> {
    if c == '"' {
        seq!['\\', '"']
    } else if c == '\\' {
        seq!['\\', '\\']
    } else if c == '\u{8}' {
        seq!['\\', 'b']
    } else if c == '\t' {
        seq!['\\', 't']
    } else if c == '\n' {
        seq!['\\', 'n']
    } else if c == '\u{c}' {
        seq!['\\', 'f']
    } else if c == '\r' {
        seq!['\\', 'r']
    } else if (c as int) < 0x20 {
        seq!['\\', 'u', '0', '0', hex_digits()[(c as int) / 16], hex_digits()[(c as int) % 16]]
    } else {
        seq![c]
    }
}

/// The escaped characters of `s`, without the quotes.
pub open spec fn json_str_body(s: Seq<char>) -> Seq<char>
    decreases s.len(),
{
    if s.len() == 0 {
        Seq::empty()
    } else {
        json_str_body(s.drop_last()) + json_escape_char(s.last())
    }
}

/// A JSON string.
pub open spec fn json_str(s: Seq<char>) -> Seq<char> {
    seq!['"'] + json_str_body(s) + seq!['"']
}

/// A JSON string, or `null`.
pub open spec fn json_opt_str(o: Option<Seq<char>>) -> Seq<char> {
    match o {
        Some(s) => json_str(s),
        None => seq!['n', 'u', 'l', 'l'],
    }
}

/// The decimal digits of `n`.
pub open spec fn dec_nat(n: nat) -> Seq<char>
    decreases n,
{
    if n < 10 {
        seq![hex_digits()[n as int]]
    } else {
        dec_nat(n / 10).push(hex_digits()[(n % 10) as int])
    }
}

/// The decimal text of `i`, with a leading `-` when it is negative.
pub open spec fn dec_int(i: int) -> Seq<char> {
    if i < 0 {
        seq!['-'] + dec_nat((-i) as nat)
    } else {
        dec_nat(i as nat)
    }
}

/// The texts `items`, separated by commas.
pub open spec fn json_join(items: Seq<Seq<char>>) -> Seq<char>
    decreases items.len(),
{
    if items.len() == 0 {
        Seq::empty()
    } else if items.len() == 1 {
        items[0]
    } else {
        json_join(items.drop_last()) + seq![','] + items.last()
    }
}

/// The character of a digit below 16.
pub(crate) fn digit_char(d: u64) -> (c: char)
    requires
        d < 16,
    ensures
        c == hex_digits()[d as int],
{
    match d {
        0 => '0',
        1 => '1',
        2 => '2',
        3 => '3',
        4 => '4',
        5 => '5',
        6 => '6',
        7 => '7',
        8 => '8',
        9 => '9',
        10 => 'a',
        11 => 'b',
        12 => 'c',
        13 => 'd',
        14 => 'e',
        _ => 'f',
    }
}

/// Appends the escaped form of `c`.
fn push_escaped(out: &mut Vec<char>, c: char)
    ensures
        final(out)@ == old(out)@ + json_escape_char(c),
{
    let v = c as u32;
    if c == '"' {
        out.push('\\');
        out.push('"');
    } else if c == '\\' {
        out.push('\\');
        out.push('\\');
    } else if c == '\u{8}' {
        out.push('\\');
        out.push('b');
    } else if c == '\t' {
        out.push('\\');
        out.push('t');
    } else if c == '\n' {
        out.push('\\');
        out.push('n');
    } else if c == '\u{c}' {
        out.push('\\');
        out.push('f');
    } else if c == '\r' {
        out.push('\\');
        out.push('r');
    } else if v < 0x20 {
        out.push('\\');
        out.push('u');
        out.push('0');
        out.push('0');
        out.push(digit_char((v / 16) as u64));
        out.push(digit_char((v % 16) as u64));
    } else {
        out.push(c);
    }
    assert(final(out)@ =~= old(out)@ + json_escape_char(c));
}

/// Appends `s` as a JSON string.
pub(crate) fn push_json_str(out: &mut Vec<char>, s: &str)
    ensures
        final(out)@ == old(out)@ + json_str(s@),
{
    let cs = chars_of(s);
    let n = cs.len();
    let ghost start = out@;
    out.push('"');
    for i in 0..n
        invariant
            n == cs@.len(),
            cs@ == s@,
            out@ == start + seq!['"'] + json_str_body(cs@.take(i as int)),
    {
        let ghost before = out@;
        push_escaped(out, cs[i]);
        assert(cs@.take(i + 1).drop_last() =~= cs@.take(i as int));
        assert(out@ =~= start + seq!['"'] + json_str_body(cs@.take(i + 1)));
    }
    out.push('"');
    assert(cs@.take(n as int) =~= cs@);
    assert(out@ =~= start + json_str(s@));
}

/// Appends `o` as a JSON string or `null`.
pub(crate) fn push_json_opt_str(out: &mut Vec<char>, o: &Option<String>)
    ensures
        final(out)@ == old(out)@ + json_opt_str(opt_view(*o)),
{
    match o {
        Some(s) => push_json_str(out, s.as_str()),
        None => {
            out.push('n');
            out.push('u');
            out.push('l');
            out.push('l');
            assert(final(out)@ =~= old(out)@ + json_opt_str(opt_view(*o)));
        },
    }
}

/// The characters of an optional string.
pub open spec fn opt_view(o: Option<String>) -> Option<Seq<char>> {
    match o {
        Some(s) => Some(s@),
        None => None,
    }
}

/// Appends the decimal digits of `n`.
pub(crate) fn push_u64(out: &mut Vec<char>, n: u64)
    ensures
        final(out)@ == old(out)@ + dec_nat(n as nat),
{
    let mut m: u64 = n;
    let mut digits: Vec<char> = Vec::new();
    while m >= 10
        invariant
            dec_nat(n as nat) == dec_nat(m as nat) + Seq::new(
                digits@.len(),
                |i: int| digits@[digits@.len() - 1 - i],
            ),
        decreases m,
    {
        let ghost d0 = digits@;
        let d = digit_char(m % 10);
        digits.push(d);
        assert(Seq::new(digits@.len(), |i: int| digits@[digits@.len() - 1 - i]) =~= seq![d]
            + Seq::new(d0.len(), |i: int| d0[d0.len() - 1 - i]));
        m = m / 10;
    }
    let ghost d0 = digits@;
    let d = digit_char(m);
    digits.push(d);
    assert(Seq::new(digits@.len(), |i: int| digits@[digits@.len() - 1 - i]) =~= seq![d]
        + Seq::new(d0.len(), |i: int| d0[d0.len() - 1 - i]));
    let ghost rev = Seq::new(digits@.len(), |i: int| digits@[digits@.len() - 1 - i]);
    assert(dec_nat(n as nat) == rev);
    let k = digits.len();
    let ghost start = out@;
    for i in 0..k
        invariant
            k == digits@.len(),
            rev == Seq::new(digits@.len(), |i: int| digits@[digits@.len() - 1 - i]),
            out@ == start + rev.take(i as int),
    {
        out.push(digits[k - 1 - i]);
        assert(rev.take(i + 1) =~= rev.take(i as int).push(rev[i as int]));
    }
    assert(rev.take(k as int) =~= rev);
}

/// Appends the decimal text of `n`.
pub(crate) fn push_i64(out: &mut Vec<char>, n: i64)
    ensures
        final(out)@ == old(out)@ + dec_int(n as int),
{
    if n < 0 {
        out.push('-');
        let m: u64 = if n == i64::MIN {
            9223372036854775808u64
        } else {
            (-n) as u64
        };
        push_u64(out, m);
        assert(final(out)@ =~= old(out)@ + dec_int(n as int));
    } else {
        push_u64(out, n as u64);
    }
}

} // verus!
