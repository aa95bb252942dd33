//! Wide strings: text held one `char` per element, so that every index is a character index.

use vstd::prelude::*;
use vstd::slice::{slice_subrange, slice_to_vec};

verus! {

/// An owned wide string. A borrowed one is a `&[char]`.
pub type WString = Vec<char>;

/// The wide string with the characters of `s`.
pub fn wide(s: &str) -> (w: WString)
    ensures
        w@ == s@,
{
    let mut w: WString = Vec::new();
    push_str(&mut w, s);
    w
}

/// Append the characters of `s` to `out`.
pub fn push_str(out: &mut WString, s: &str)
    ensures
        final(out)@ == old(out)@ + s@,
{
    let ghost before = out@;
    for c in it: s.chars()
        invariant
            it.seq() == s@,
            out@ == before + s@.take(it.index() as int),
    {
        out.push(c);
        assert(s@.take(it.index() + 1) == s@.take(it.index() as int).push(c));
    }
    assert(s@.take(s@.len() as int) == s@);
}

/// Append the wide string `s` to `out`.
pub fn push_wide(out: &mut WString, s: &[char])
    ensures
        final(out)@ == old(out)@ + s@,
{
    out.extend_from_slice(s);
}

/// An owned copy of `s`.
pub fn to_wide(s: &[char]) -> (w: WString)
    ensures
        w@ == s@,
{
    slice_to_vec(s)
}

/// Whether `s` begins with `prefix`.
pub fn has_prefix(s: &[char], prefix: &[char]) -> (r: bool)
    ensures
        r == prefix@.is_prefix_of(s@),
{
    if s.len() < prefix.len() {
        return false;
    }
    for i in 0..prefix.len()
        invariant
            prefix@.len() <= s@.len(),
            prefix@.take(i as int) == s@.take(i as int),
    {
        if s[i] != prefix[i] {
            assert(prefix@[i as int] != s@.subrange(0, prefix@.len() as int)[i as int]);
            return false;
        }
        assert(prefix@.take(i + 1) == prefix@.take(i as int).push(prefix@[i as int]));
        assert(s@.take(i + 1) == s@.take(i as int).push(s@[i as int]));
    }
    assert(prefix@.take(prefix@.len() as int) == prefix@);
    true
}

/// Whether `a` and `b` are the same text.
pub fn same_text(a: &[char], b: &[char]) -> (r: bool)
    ensures
        r == (a@ == b@),
{
    if a.len() != b.len() {
        return false;
    }
    let r = has_prefix(a, b);
    assert(a@.subrange(0, b@.len() as int) == a@);
    r
}

/// The text of `s` from character `n` on.
pub fn skip(s: &[char], n: usize) -> (r: &[char])
    requires
        n <= s@.len(),
    ensures
        r@ == s@.skip(n as int),
{
    slice_subrange(s, n, s.len())
}

} // verus!
