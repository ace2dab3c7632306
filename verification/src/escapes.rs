//! How an escaped string reads back: the reader undoes exactly what the
//! writer's escaping does.

use vstd::prelude::*;

use crate::grammar::{escape, hex4, hex_value, string_at, string_rest, unicode_escape, Fault};
use crate::written::{lemma_text_at_index, lemma_text_at_split, text_at};
use crate::render::{escape_char, escaped, hex_char, quoted};

verus! {

/// The hex digits read back as their values.
pub proof fn lemma_hex_char_value(k: nat)
    requires
        k < 16,
    ensures
        hex_value(hex_char(k)) == Some(k as u32),
{
    if k < 10 {
        assert((hex_char(k) as u32) == k + 48) by {
            assert(((k + 48) as u32 as char) as u32 == k + 48);
        }
    } else {
        assert((hex_char(k) as u32) == k - 10 + 97) by {
            assert(((k - 10 + 97) as u32 as char) as u32 == k - 10 + 97);
        }
    }
}

/// Escaping a concatenation escapes each part.
pub proof fn lemma_escaped_append(a: Seq<char>, b: Seq<char>)
    ensures
        escaped(a + b) == escaped(a) + escaped(b),
    decreases b.len(),
{
    if b.len() == 0 {
        assert(a + b =~= a);
        assert(escaped(a) + escaped(b) =~= escaped(a));
    } else {
        lemma_escaped_append(a, b.drop_last());
        assert((a + b).drop_last() =~= a + b.drop_last());
        assert((a + b).last() == b.last());
        assert(escaped(a + b) =~= escaped(a) + escaped(b));
    }
}

/// A `\uXXXX` escape of a control character reads back as it.
proof fn lemma_escape_control(s: Seq<char>, q: int, c: char, acc: Seq<char>)
    requires
        (c as u32) < 0x20,
        q + 6 < s.len(),
        0 <= q,
        s[q] == '\\',
        s[q + 1] == 'u',
        s[q + 2] == '0',
        s[q + 3] == '0',
        s[q + 4] == hex_char((c as u32 / 16) as nat),
        s[q + 5] == hex_char((c as u32 % 16) as nat),
    ensures
        string_rest(s, q, acc) == string_rest(s, q + 6, acc.push(c)),
{
    let v = c as u32;
    lemma_hex_char_value(0);
    lemma_hex_char_value((v / 16) as nat);
    lemma_hex_char_value((v % 16) as nat);
    assert(hex_char(0) == '0');
    assert(hex4(s, q + 2, q) == Ok::<(u32, int), Fault>((v, q + 6)));
    vstd::utf8::char_u32_cast(c, v);
    assert(unicode_escape(s, q + 2, q) == Ok::<(char, int), Fault>((c, q + 6)));
    assert(escape(s, q + 1) == Ok::<(char, int), Fault>((c, q + 6)));
}

/// A two-character escape reads back as its character.
proof fn lemma_escape_short(s: Seq<char>, q: int, c: char, acc: Seq<char>)
    requires
        c == '"' || c == '\\' || c == '\u{8}' || c == '\u{c}' || c == '\n' || c == '\r' || c == '\t',
        0 <= q,
        q + 2 < s.len(),
        s[q] == '\\',
        s[q + 1] == escape_char(c)[1],
    ensures
        string_rest(s, q, acc) == string_rest(s, q + 2, acc.push(c)),
{
    assert(escape(s, q + 1) == Ok::<(char, int), Fault>((c, q + 2)));
}

/// One escaped character reads back as itself.
#[verifier::rlimit(100)]
#[verifier::spinoff_prover]
pub proof fn lemma_escape_step(s: Seq<char>, q: int, c: char, acc: Seq<char>)
    requires
        text_at(s, q, escape_char(c)),
        q + escape_char(c).len() < s.len(),
    ensures
        string_rest(s, q, acc) == string_rest(s, q + escape_char(c).len(), acc.push(c)),
{
    let e = escape_char(c);
    if c == '"' || c == '\\' || c == '\u{8}' || c == '\u{c}' || c == '\n' || c == '\r' || c
        == '\t' {
        lemma_text_at_index(s, q, e, 0);
        lemma_text_at_index(s, q, e, 1);
        lemma_escape_short(s, q, c, acc);
    } else if (c as u32) < 0x20 {
        lemma_text_at_index(s, q, e, 0);
        lemma_text_at_index(s, q, e, 1);
        lemma_text_at_index(s, q, e, 2);
        lemma_text_at_index(s, q, e, 3);
        lemma_text_at_index(s, q, e, 4);
        lemma_text_at_index(s, q, e, 5);
        lemma_escape_control(s, q, c, acc);
    } else {
        assert(e == seq![c]);
        lemma_text_at_index(s, q, e, 0);
        assert(s[q] == c);
    }
}

/// Whether reading a string's rest from `p` with `acc` read gives what
/// reading from `q` with `acc2` read gives.
#[verifier::opaque]
pub open spec fn reads_as(s: Seq<char>, p: int, acc: Seq<char>, q: int, acc2: Seq<char>) -> bool {
    string_rest(s, p, acc) == string_rest(s, q, acc2)
}

/// Reading the same is transitive.
proof fn lemma_reads_as_trans(
    s: Seq<char>,
    p: int,
    a: Seq<char>,
    q: int,
    b: Seq<char>,
    r: int,
    c: Seq<char>,
)
    requires
        reads_as(s, p, a, q, b),
        reads_as(s, q, b, r, c),
    ensures
        reads_as(s, p, a, r, c),
{
    reveal(reads_as);
}

/// The escaped text of a prefix of `t` reads back as that prefix.
pub proof fn lemma_string_prefix(s: Seq<char>, p: int, t: Seq<char>, i: int)
    requires
        text_at(s, p + 1, escaped(t)),
        p + 1 + escaped(t).len() < s.len(),
        0 <= i <= t.len(),
    ensures
        reads_as(s, p + 1, Seq::empty(), p + 1 + escaped(t.take(i)).len(), t.take(i)),
    decreases i,
{
    if i == 0 {
        assert(t.take(0) =~= Seq::<char>::empty());
        assert(escaped(Seq::<char>::empty()) =~= Seq::<char>::empty());
        reveal(reads_as);
    } else {
        lemma_string_prefix(s, p, t, i - 1);
        let c = t[i - 1];
        let pre = escaped(t.take(i - 1));
        assert(t.take(i).drop_last() =~= t.take(i - 1));
        assert(escaped(t.take(i)) == pre + escape_char(c));
        lemma_escaped_append(t.take(i), t.skip(i));
        assert(t.take(i) + t.skip(i) =~= t);
        lemma_text_at_split(s, p + 1, escaped(t.take(i)), escaped(t.skip(i)));
        lemma_text_at_split(s, p + 1, pre, escape_char(c));
        assert(t.take(i - 1).push(c) =~= t.take(i));
        let q = p + 1 + pre.len();
        assert(reads_as(s, q, t.take(i - 1), q + escape_char(c).len(), t.take(i))) by {
            reveal(reads_as);
            lemma_escape_step(s, q, c, t.take(i - 1));
        }
        lemma_reads_as_trans(
            s,
            p + 1,
            Seq::empty(),
            q,
            t.take(i - 1),
            q + escape_char(c).len(),
            t.take(i),
        );
    }
}

/// A quoted string reads back as itself.
pub proof fn lemma_string_round_trip(s: Seq<char>, p: int, t: Seq<char>)
    requires
        text_at(s, p, quoted(t)),
    ensures
        string_at(s, p) == Ok::<(Seq<char>, int), Fault>((t, p + quoted(t).len())),
{
    lemma_text_at_split(s, p, seq!['"'] + escaped(t), seq!['"']);
    lemma_text_at_split(s, p, seq!['"'], escaped(t));
    lemma_string_prefix(s, p, t, t.len() as int);
    assert(t.take(t.len() as int) =~= t);
    reveal(reads_as);
    let e = p + 1 + escaped(t).len();
    lemma_text_at_index(s, e, seq!['"'], 0);
}

} // verus!
