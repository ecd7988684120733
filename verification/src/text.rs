//! Conversions between strings and character vectors, the form in which the
//! library builds and inspects text.
use vstd::prelude::*;

verus! {

/// The characters of `s`, in order.
pub(crate) fn chars_of(s: &str) -> (res: Vec<char>)
    ensures
        res@ == s@,
{
    broadcast use vstd::string::axiom_spec_iter;
    let mut res: Vec<char> = Vec::new();
    for c in it: s.chars()
        invariant
            it.seq() == s@,
            res@ == it.seq().take(it.index() as int),
        ensures
            res@ == s@,
    {
        res.push(c);
        assert(it.seq().take(it.index() + 1) =~= it.seq().take(it.index() as int).push(c));
    }
    res
}

/// The string made of the characters `cs`, in order: std's
/// `FromIterator<&char>` for `String`, which pushes each character in turn.
#[verifier::external_body]
pub(crate) fn string_from_chars(cs: &[char]) -> (res: String)
    ensures
        res@ == cs@,
{
    String::from_iter(cs)
}

/// Appends the characters of `s` to `out`.
pub(crate) fn push_str(out: &mut Vec<char>, s: &str)
    ensures
        final(out)@ == old(out)@ + s@,
{
    let cs = chars_of(s);
    let n = cs.len();
    let ghost start = out@;
    for i in 0..n
        invariant
            n == cs@.len(),
            cs@ == s@,
            out@ == start + cs@.subrange(0, i as int),
    {
        out.push(cs[i]);
        assert(cs@.subrange(0, i + 1) == cs@.subrange(0, i as int).push(cs@[i as int]));
    }
    assert(cs@.subrange(0, n as int) == cs@);
}

} // verus!
