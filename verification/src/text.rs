//! Small text utilities: characters of a string, building strings, and the
//! std calls that vstd gives no contract.

use vstd::prelude::*;

verus! {

broadcast use vstd::string::group_string_axioms;

/// Equality of two string slices.
///
/// Trusted: calls `<str as PartialEq>::eq`, which std documents as comparing
/// the two texts; the contract claims the result is the equality of their
/// characters.
#[verifier::external_body]
pub(crate) fn str_eq(a: &str, b: &str) -> (r: bool)
    ensures
        r == (a@ == b@),
{
    a == b
}

/// Append one character.
///
/// Trusted: calls `String::push`, which std documents as appending the
/// character to the end of the string; the contract claims exactly that.
#[verifier::external_body]
pub(crate) fn string_push(s: &mut String, c: char)
    ensures
        final(s)@ == old(s)@.push(c),
{
    s.push(c);
}

/// The characters of `input`, in order.
pub fn chars_of(input: &str) -> (v: Vec<char>)
    ensures
        v@ == input@,
{
    let mut v: Vec<char> = Vec::new();
    for c in it: input.chars()
        invariant
            v@ == it.seq().take(it.index() as int),
            it.seq() == input@,
    {
        v.push(c);
    }
    v
}

/// A string holding `chars[from..to]`.
pub fn string_of(chars: &Vec<char>, from: usize, to: usize) -> (s: String)
    requires
        from <= to <= chars@.len(),
    ensures
        s@ == chars@.subrange(from as int, to as int),
{
    let mut s = String::new();
    let mut i = from;
    while i < to
        invariant
            from <= i <= to <= chars@.len(),
            s@ == chars@.subrange(from as int, i as int),
        decreases to - i,
    {
        string_push(&mut s, chars[i]);
        i = i + 1;
        proof {
            assert(s@ =~= chars@.subrange(from as int, i as int));
        }
    }
    s
}

} // verus!
