//! What the reader accepts, stated declaratively: an RFC 8259 JSON text, a
//! value between runs of the four whitespace characters, given by a
//! derivation that says which span of the text each piece of the value
//! occupies. No comments, trailing commas, bare keys, single quotes,
//! `NaN`, `Infinity`, leading `+` or zeros, raw control characters in
//! strings, lone surrogate escapes or trailing data fit it; the reader
//! accepts nothing that does not. (The converse, that it accepts every such
//! text it can represent, stands in [`crate::complete`].)

use vstd::prelude::*;

use crate::grammar::{
    char_at, digits_end, document, escape, fraction_end, hex4, hex_value, is_ws, items_at,
    members_at, number_scan, skip_ws, string_at, string_rest, value_at, Context, Read,
};
use crate::options::step_value;
use crate::parse::{step_matches, ParseOptions, ParseStep};
use crate::value::{is_digit, JsonValue};

verus! {

/// A derivation of a JSON value over a span of the text.
pub enum Tree {
    /// `null`, `true` or `false`.
    Literal,
    /// A number whose sign ends at the first position, its integer part at
    /// the second and its fraction at the third.
    Number(int, int, int),
    /// A string.
    Str,
    /// An array, with the span and derivation of each element.
    Array(Seq<(int, int, Tree)>),
    /// An object, with the span of each key, the span of its value and the
    /// value's derivation.
    Object(Seq<(int, int, int, int, Tree)>),
}

/// Whether `s[a..b]` is whitespace only.
pub open spec fn ws_span(s: Seq<char>, a: int, b: int) -> bool {
    &&& 0 <= a <= b <= s.len()
    &&& forall|i: int| a <= i < b ==> is_ws(#[trigger] s[i])
}

/// Whether `s[a..b]` is one or more decimal digits.
pub open spec fn digits_span(s: Seq<char>, a: int, b: int) -> bool {
    &&& 0 <= a < b <= s.len()
    &&& forall|i: int| a <= i < b ==> is_digit(#[trigger] s[i])
}

/// An integer part: `0`, or a non-zero digit and more digits.
pub open spec fn int_span(s: Seq<char>, a: int, b: int) -> bool {
    ||| (b == a + 1 && char_at(s, a, '0'))
    ||| (digits_span(s, a, b) && s[a] != '0')
}

/// A fraction: nothing, or a point and one or more digits.
pub open spec fn frac_span(s: Seq<char>, a: int, b: int) -> bool {
    ||| b == a
    ||| (char_at(s, a, '.') && digits_span(s, a + 1, b))
}

/// An exponent: nothing, or `e` or `E`, an optional sign, and digits.
pub open spec fn exp_span(s: Seq<char>, a: int, b: int) -> bool {
    ||| b == a
    ||| ((char_at(s, a, 'e') || char_at(s, a, 'E')) && (digits_span(s, a + 1, b) || ((char_at(
        s,
        a + 1,
        '+',
    ) || char_at(s, a + 1, '-')) && digits_span(s, a + 2, b))))
}

/// The value of the four hex digits at `p`, when there are four.
pub open spec fn quad(s: Seq<char>, p: int) -> Option<u32> {
    if 0 <= p && p + 4 <= s.len() {
        match (hex_value(s[p]), hex_value(s[p + 1]), hex_value(s[p + 2]), hex_value(s[p + 3])) {
            (Some(a), Some(b), Some(c), Some(d)) => Some(((((a * 16 + b) * 16 + c) * 16 + d) as u32)),
            _ => None,
        }
    } else {
        None
    }
}

/// The characters JSON allows after a backslash, but for `u`.
pub open spec fn simple_escape(c: char) -> bool {
    c == '"' || c == '\\' || c == '/' || c == 'b' || c == 'f' || c == 'n' || c == 'r' || c == 't'
}

/// `\uXXXX` at `a` naming a character that is not a surrogate.
pub open spec fn scalar_escape(s: Seq<char>, a: int) -> bool {
    &&& char_at(s, a + 1, 'u')
    &&& quad(s, a + 2) matches Some(v)
    &&& !(0xD800 <= v && v <= 0xDFFF)
}

/// `\uXXXX\uXXXX` at `a`: a high surrogate, then a low one.
pub open spec fn pair_escape(s: Seq<char>, a: int) -> bool {
    &&& char_at(s, a + 1, 'u')
    &&& quad(s, a + 2) matches Some(h)
    &&& 0xD800 <= h && h <= 0xDBFF
    &&& char_at(s, a + 6, '\\')
    &&& char_at(s, a + 7, 'u')
    &&& quad(s, a + 8) matches Some(l)
    &&& 0xDC00 <= l && l <= 0xDFFF
}

/// Whether `s[a..b]` is the body of a string: characters other than a
/// quote, a backslash or a control character, and escapes.
pub open spec fn str_body(s: Seq<char>, a: int, b: int) -> bool
    decreases b - a,
{
    if a < 0 || b > s.len() || a > b {
        false
    } else if a == b {
        true
    } else if s[a] == '\\' {
        ||| (a + 2 <= b && simple_escape(s[a + 1]) && str_body(s, a + 2, b))
        ||| (a + 6 <= b && scalar_escape(s, a) && str_body(s, a + 6, b))
        ||| (a + 12 <= b && pair_escape(s, a) && str_body(s, a + 12, b))
    } else {
        s[a] != '"' && (s[a] as u32) >= 0x20 && str_body(s, a + 1, b)
    }
}

/// Whether `s[a..b]` is a string literal.
pub open spec fn string_span(s: Seq<char>, a: int, b: int) -> bool {
    &&& char_at(s, a, '"')
    &&& a + 2 <= b
    &&& char_at(s, b - 1, '"')
    &&& str_body(s, a + 1, b - 1)
}

/// Whitespace, `sep`, whitespace from `x` to `y`.
pub open spec fn sep_gap(s: Seq<char>, x: int, y: int, sep: char) -> bool {
    exists|m: int| #[trigger] char_at(s, m, sep) && ws_span(s, x, m) && ws_span(s, m + 1, y)
}

/// The elements of an array in `s[a..b]`, between its brackets: the first
/// after whitespace, each after a comma, the last before whitespace.
pub open spec fn elements_frame(s: Seq<char>, es: Seq<(int, int, Tree)>, a: int, b: int) -> bool {
    &&& es.len() > 0
    &&& ws_span(s, a, es[0].0)
    &&& forall|k: int| 0 <= k < es.len() - 1 ==> sep_gap(s, #[trigger] es[k].1, es[k + 1].0, ',')
    &&& ws_span(s, es[es.len() - 1].1, b)
}

/// The members of an object in `s[a..b]`, between its braces.
pub open spec fn members_frame(
    s: Seq<char>,
    ms: Seq<(int, int, int, int, Tree)>,
    a: int,
    b: int,
) -> bool {
    &&& ms.len() > 0
    &&& ws_span(s, a, ms[0].0)
    &&& forall|k: int| 0 <= k < ms.len() - 1 ==> sep_gap(s, #[trigger] ms[k].3, ms[k + 1].0, ',')
    &&& forall|k: int|
        0 <= k < ms.len() ==> string_span(s, #[trigger] ms[k].0, ms[k].1) && sep_gap(
            s,
            ms[k].1,
            ms[k].2,
            ':',
        )
    &&& ws_span(s, ms[ms.len() - 1].3, b)
}

/// Whether `t` derives a JSON value over `s[a..b]`.
pub open spec fn derives(s: Seq<char>, t: Tree, a: int, b: int) -> bool
    decreases t, 0nat,
{
    match t {
        Tree::Literal => 0 <= a <= b <= s.len() && (s.subrange(a, b) == "null"@ || s.subrange(a, b)
            == "true"@ || s.subrange(a, b) == "false"@),
        Tree::Number(i, j, k) => {
            &&& (i == a || (i == a + 1 && char_at(s, a, '-')))
            &&& int_span(s, i, j)
            &&& frac_span(s, j, k)
            &&& exp_span(s, k, b)
        },
        Tree::Str => string_span(s, a, b),
        Tree::Array(es) => {
            &&& char_at(s, a, '[')
            &&& a + 2 <= b
            &&& char_at(s, b - 1, ']')
            &&& (if es.len() == 0 {
                ws_span(s, a + 1, b - 1)
            } else {
                elements_frame(s, es, a + 1, b - 1)
            })
            &&& elements_derive(s, es, 0)
        },
        Tree::Object(ms) => {
            &&& char_at(s, a, '{')
            &&& a + 2 <= b
            &&& char_at(s, b - 1, '}')
            &&& (if ms.len() == 0 {
                ws_span(s, a + 1, b - 1)
            } else {
                members_frame(s, ms, a + 1, b - 1)
            })
            &&& members_derive(s, ms, 0)
        },
    }
}

/// Whether each element's derivation, from the `k`-th on, holds over its
/// span.
pub open spec fn elements_derive(s: Seq<char>, es: Seq<(int, int, Tree)>, k: int) -> bool
    decreases es, es.len() - k,
{
    if k < 0 || k >= es.len() {
        true
    } else {
        derives(s, es[k].2, es[k].0, es[k].1) && elements_derive(s, es, k + 1)
    }
}

/// Whether each member value's derivation, from the `k`-th on, holds over
/// its span.
pub open spec fn members_derive(s: Seq<char>, ms: Seq<(int, int, int, int, Tree)>, k: int) -> bool
    decreases ms, ms.len() - k,
{
    if k < 0 || k >= ms.len() {
        true
    } else {
        derives(s, ms[k].4, ms[k].2, ms[k].3) && members_derive(s, ms, k + 1)
    }
}

/// Whether `s` is a JSON text: one value, optionally surrounded by
/// whitespace.
pub open spec fn is_json_text(s: Seq<char>) -> bool {
    exists|t: Tree, a: int, b: int|
        #[trigger] derives(s, t, a, b) && ws_span(s, 0, a) && ws_span(s, b, s.len() as int)
}

// ---------------------------------------------------------------------------
// Runs and lists
// ---------------------------------------------------------------------------

/// Skipping whitespace passes over whitespace only.
proof fn lemma_skip_ws_span(s: Seq<char>, p: int)
    requires
        0 <= p <= s.len(),
    ensures
        ws_span(s, p, skip_ws(s, p)),
    decreases s.len() - p,
{
    if p < s.len() && is_ws(s[p]) {
        lemma_skip_ws_span(s, p + 1);
    }
}

/// Two whitespace runs, one after the other, are one run.
proof fn lemma_ws_join(s: Seq<char>, a: int, b: int, c: int)
    requires
        ws_span(s, a, b),
        ws_span(s, b, c),
    ensures
        ws_span(s, a, c),
{
}

/// A digit run stops at the first non-digit.
proof fn lemma_digits_end(s: Seq<char>, p: int)
    requires
        0 <= p <= s.len(),
    ensures
        p <= digits_end(s, p) <= s.len(),
        forall|i: int| p <= i < digits_end(s, p) ==> is_digit(#[trigger] s[i]),
        p < s.len() && is_digit(s[p]) ==> p < digits_end(s, p),
    decreases s.len() - p,
{
    if p < s.len() && is_digit(s[p]) {
        lemma_digits_end(s, p + 1);
    }
}

/// `elements_derive`, element by element.
proof fn lemma_elements_derive(s: Seq<char>, es: Seq<(int, int, Tree)>, k: int)
    requires
        0 <= k <= es.len(),
        forall|j: int| k <= j < es.len() ==> derives(s, #[trigger] es[j].2, es[j].0, es[j].1),
    ensures
        elements_derive(s, es, k),
    decreases es.len() - k,
{
    if k < es.len() {
        lemma_elements_derive(s, es, k + 1);
    }
}

/// `members_derive`, member by member.
proof fn lemma_members_derive(s: Seq<char>, ms: Seq<(int, int, int, int, Tree)>, k: int)
    requires
        0 <= k <= ms.len(),
        forall|j: int| k <= j < ms.len() ==> derives(s, #[trigger] ms[j].4, ms[j].2, ms[j].3),
    ensures
        members_derive(s, ms, k),
    decreases ms.len() - k,
{
    if k < ms.len() {
        lemma_members_derive(s, ms, k + 1);
    }
}

// ---------------------------------------------------------------------------
// Numbers and strings
// ---------------------------------------------------------------------------

/// A number the reader scans is derived.
proof fn lemma_number_sound(s: Seq<char>, p: int) -> (t: Tree)
    requires
        0 <= p < s.len(),
    ensures
        number_scan(s, p) matches Some((ds, ie, end)) ==> p < end && derives(s, t, p, end),
{
    let ds = if char_at(s, p, '-') {
        p + 1
    } else {
        p
    };
    match number_scan(s, p) {
        Some((ds2, ie, end)) => {
            let fe = fraction_end(s, ie)->Some_0;
            if char_at(s, ds, '0') {
            } else {
                lemma_digits_end(s, ds);
            }
            if char_at(s, ie, '.') {
                lemma_digits_end(s, ie + 1);
            }
            if char_at(s, fe, 'e') || char_at(s, fe, 'E') {
                lemma_digits_end(s, fe + 1);
                lemma_digits_end(s, fe + 2);
            }
            Tree::Number(ds, ie, fe)
        },
        None => Tree::Literal,
    }
}

/// Four hex digits the reader reads are a quad.
proof fn lemma_hex4_quad(s: Seq<char>, p: int, start: int)
    requires
        0 <= p,
    ensures
        hex4(s, p, start) matches Ok((v, q)) ==> quad(s, p) == Some(v) && q == p + 4,
{
}

/// A string body the reader reads is derived, up to its closing quote.
proof fn lemma_string_rest_sound(s: Seq<char>, p: int, acc: Seq<char>)
    requires
        0 <= p,
    ensures
        string_rest(s, p, acc) matches Ok((_, q)) ==> p < q && char_at(s, q - 1, '"') && str_body(
            s,
            p,
            q - 1,
        ),
    decreases s.len() - p,
{
    if 0 <= p < s.len() && s[p] != '"' {
        if s[p] == '\\' {
            match escape(s, p + 1) {
                Ok((c, q1)) => {
                    if q1 > p {
                        lemma_string_rest_sound(s, q1, acc.push(c));
                        let c1 = s[p + 1];
                        if c1 == 'u' {
                            lemma_hex4_quad(s, p + 2, p);
                            match hex4(s, p + 2, p) {
                                Ok((first, r1)) => {
                                    lemma_hex4_quad(s, r1 + 2, p);
                                },
                                Err(_) => {},
                            }
                        }
                        match string_rest(s, q1, acc.push(c)) {
                            Ok((_, q)) => {
                                assert(str_body(s, q1, q - 1));
                                if c1 == 'u' {
                                    let first = quad(s, p + 2)->Some_0;
                                    if !(0xD800 <= first && first <= 0xDFFF) {
                                        assert(q1 == p + 6);
                                        assert(scalar_escape(s, p));
                                    } else {
                                        assert(q1 == p + 12);
                                        assert(pair_escape(s, p));
                                    }
                                } else {
                                    assert(q1 == p + 2);
                                    assert(simple_escape(s[p + 1]));
                                }
                            },
                            Err(_) => {},
                        }
                    }
                },
                Err(_) => {},
            }
        } else if (s[p] as u32) >= 0x20 {
            lemma_string_rest_sound(s, p + 1, acc.push(s[p]));
        }
    }
}

/// A string the reader reads is derived.
proof fn lemma_string_sound(s: Seq<char>, p: int)
    requires
        0 <= p < s.len(),
        s[p] == '"',
    ensures
        string_at(s, p) matches Ok((_, q)) ==> string_span(s, p, q),
{
    lemma_string_rest_sound(s, p + 1, Seq::empty());
}

// ---------------------------------------------------------------------------
// Values
// ---------------------------------------------------------------------------

/// A value the reader reads is derived over the span it read.
#[verifier::rlimit(60)]
#[verifier::spinoff_prover]
pub proof fn lemma_value_sound(ctx: Context, p: int, depth: nat, lits: Seq<Seq<char>>) -> (t: Tree)
    ensures
        value_at(ctx, p, depth, lits) matches Read::Done(_, q, _) ==> p < q && derives(ctx.s, t, p, q),
    decreases ctx.s.len() - p, 2nat,
{
    let s = ctx.s;
    if p < 0 || p >= s.len() {
        return Tree::Literal;
    }
    let c = s[p];
    if c == 'n' || c == 't' || c == 'f' {
        lemma_literal_sound(ctx, p, depth, lits);
        Tree::Literal
    } else if c == '"' {
        lemma_string_sound(s, p);
        Tree::Str
    } else if c == '[' || c == '{' {
        lemma_container_sound(ctx, p, depth, lits)
    } else if c == '-' || is_digit(c) {
        lemma_number_sound(s, p)
    } else {
        Tree::Literal
    }
}

/// A literal the reader reads is derived.
proof fn lemma_literal_sound(ctx: Context, p: int, depth: nat, lits: Seq<Seq<char>>)
    requires
        0 <= p < ctx.s.len(),
        ctx.s[p] == 'n' || ctx.s[p] == 't' || ctx.s[p] == 'f',
    ensures
        value_at(ctx, p, depth, lits) matches Read::Done(_, q, _) ==> p < q && derives(
            ctx.s,
            Tree::Literal,
            p,
            q,
        ),
{
    reveal_strlit("null");
    reveal_strlit("true");
    reveal_strlit("false");
}

/// An array or object the reader reads is derived.
proof fn lemma_container_sound(ctx: Context, p: int, depth: nat, lits: Seq<Seq<char>>) -> (t: Tree)
    requires
        0 <= p < ctx.s.len(),
        ctx.s[p] == '[' || ctx.s[p] == '{',
    ensures
        value_at(ctx, p, depth, lits) matches Read::Done(_, q, _) ==> p < q && derives(ctx.s, t, p, q),
    decreases ctx.s.len() - p, 1nat,
{
    if depth + 1 > ctx.max_depth {
        Tree::Literal
    } else if ctx.s[p] == '[' {
        lemma_array_sound(ctx, p, depth, lits)
    } else {
        lemma_object_sound(ctx, p, depth, lits)
    }
}

/// An array the reader reads is derived.
#[verifier::rlimit(60)]
#[verifier::spinoff_prover]
proof fn lemma_array_sound(ctx: Context, p: int, depth: nat, lits: Seq<Seq<char>>) -> (t: Tree)
    requires
        0 <= p < ctx.s.len(),
        ctx.s[p] == '[',
        depth + 1 <= ctx.max_depth,
    ensures
        value_at(ctx, p, depth, lits) matches Read::Done(_, q, _) ==> p < q && derives(ctx.s, t, p, q),
    decreases ctx.s.len() - p, 0nat,
{
    let s = ctx.s;
    lemma_skip_ws_span(s, p + 1);
    let q = skip_ws(s, p + 1);
    if char_at(s, q, ']') {
        let es = Seq::<(int, int, Tree)>::empty();
        assert(value_at(ctx, p, depth, lits) == Read::Done(JsonValue::Array(Seq::empty()), q + 1, lits));
        assert(elements_derive(s, es, 0));
        Tree::Array(es)
    } else {
        let es = lemma_items_sound(ctx, q, depth + 1, lits, Seq::empty(), p + 1, Seq::empty());
        assert(value_at(ctx, p, depth, lits) == items_at(ctx, q, depth + 1, lits, Seq::empty()));
        if items_at(ctx, q, depth + 1, lits, Seq::empty()) is Done {
            lemma_elements_derive(s, es, 0);
        }
        Tree::Array(es)
    }
}

/// An object the reader reads is derived.
#[verifier::rlimit(60)]
#[verifier::spinoff_prover]
proof fn lemma_object_sound(ctx: Context, p: int, depth: nat, lits: Seq<Seq<char>>) -> (t: Tree)
    requires
        0 <= p < ctx.s.len(),
        ctx.s[p] == '{',
        depth + 1 <= ctx.max_depth,
    ensures
        value_at(ctx, p, depth, lits) matches Read::Done(_, q, _) ==> p < q && derives(ctx.s, t, p, q),
    decreases ctx.s.len() - p, 0nat,
{
    let s = ctx.s;
    lemma_skip_ws_span(s, p + 1);
    let q = skip_ws(s, p + 1);
    if char_at(s, q, '}') {
        let ms = Seq::<(int, int, int, int, Tree)>::empty();
        assert(value_at(ctx, p, depth, lits) == Read::Done(JsonValue::Object(Seq::empty()), q + 1, lits));
        assert(members_derive(s, ms, 0));
        Tree::Object(ms)
    } else {
        let ms = lemma_members_sound(ctx, q, depth + 1, lits, Seq::empty(), p + 1, Seq::empty());
        assert(value_at(ctx, p, depth, lits) == members_at(ctx, q, depth + 1, lits, Seq::empty()));
        if members_at(ctx, q, depth + 1, lits, Seq::empty()) is Done {
            lemma_members_derive(s, ms, 0);
        }
        Tree::Object(ms)
    }
}

/// The elements read so far, from `a0`: a list whose frame holds up to a
/// trailing comma and whitespace ending at `p`.
pub open spec fn items_prefix(s: Seq<char>, es: Seq<(int, int, Tree)>, a0: int, p: int) -> bool {
    &&& (es.len() == 0 ==> ws_span(s, a0, p))
    &&& (es.len() > 0 ==> {
        &&& ws_span(s, a0, es[0].0)
        &&& forall|k: int| 0 <= k < es.len() - 1 ==> sep_gap(s, #[trigger] es[k].1, es[k + 1].0, ',')
        &&& sep_gap(s, es[es.len() - 1].1, p, ',')
    })
    &&& forall|j: int| 0 <= j < es.len() ==> derives(s, #[trigger] es[j].2, es[j].0, es[j].1)
}

/// The rest of an array the reader reads, after the elements `es` read
/// from `a0`, completes a derived list of elements up to its bracket.
#[verifier::rlimit(60)]
#[verifier::spinoff_prover]
pub proof fn lemma_items_sound(
    ctx: Context,
    p: int,
    depth: nat,
    lits: Seq<Seq<char>>,
    acc: Seq<JsonValue>,
    a0: int,
    es: Seq<(int, int, Tree)>,
) -> (all: Seq<(int, int, Tree)>)
    requires
        0 <= a0 <= p <= ctx.s.len(),
        items_prefix(ctx.s, es, a0, p),
    ensures
        items_at(ctx, p, depth, lits, acc) matches Read::Done(_, q, _) ==> {
            &&& p < q
            &&& elements_frame(ctx.s, all, a0, q - 1)
            &&& char_at(ctx.s, q - 1, ']')
            &&& forall|j: int|
                0 <= j < all.len() ==> derives(ctx.s, #[trigger] all[j].2, all[j].0, all[j].1)
        },
    decreases ctx.s.len() - p, 3nat,
{
    let s = ctx.s;
    lemma_skip_ws_span(s, p);
    let q = skip_ws(s, p);
    if q < p || q > s.len() {
        return es;
    }
    let tv = lemma_value_sound(ctx, q, depth, lits);
    match value_at(ctx, q, depth, lits) {
        Read::Done(v, r, l) => {
            let x = (q, r, tv);
            let es2 = es.push(x);
            if !(0 <= r <= s.len()) {
                return es2;
            }
            lemma_skip_ws_span(s, r);
            let t = skip_ws(s, r);
            assert(es2[es2.len() - 1] == x);
            assert forall|j: int| 0 <= j < es2.len() implies derives(
                s,
                #[trigger] es2[j].2,
                es2[j].0,
                es2[j].1,
            ) by {
                if j < es.len() {
                    assert(es2[j] == es[j]);
                }
            }
            if es.len() == 0 {
                lemma_ws_join(s, a0, p, q);
                assert(es2[0] == x);
            } else {
                assert(es2[0] == es[0]);
                let m = choose|m: int|
                    #[trigger] char_at(s, m, ',') && ws_span(s, es[es.len() - 1].1, m) && ws_span(
                        s,
                        m + 1,
                        p,
                    );
                lemma_ws_join(s, m + 1, p, q);
                assert(char_at(s, m, ','));
            }
            assert forall|k: int| 0 <= k < es2.len() - 1 implies sep_gap(
                s,
                #[trigger] es2[k].1,
                es2[k + 1].0,
                ',',
            ) by {
                if k < es.len() - 1 {
                    assert(es2[k] == es[k]);
                    assert(es2[k + 1] == es[k + 1]);
                } else {
                    assert(es2[k] == es[k]);
                    assert(es2[k + 1] == x);
                    let m = choose|m: int|
                        #[trigger] char_at(s, m, ',') && ws_span(s, es[es.len() - 1].1, m)
                            && ws_span(s, m + 1, p);
                    lemma_ws_join(s, m + 1, p, q);
                    assert(char_at(s, m, ','));
                }
            }
            if 0 <= t < s.len() && s[t] == ',' && t + 1 > p {
                assert(char_at(s, t, ','));
                assert(ws_span(s, t + 1, t + 1));
                assert(sep_gap(s, es2[es2.len() - 1].1, t + 1, ','));
                lemma_items_sound(ctx, t + 1, depth, l, acc.push(v), a0, es2)
            } else {
                es2
            }
        },
        _ => es,
    }
}

/// The members read so far, from `a0`: a list whose frame holds up to a
/// trailing comma and whitespace ending at `p`.
pub open spec fn members_prefix(
    s: Seq<char>,
    ms: Seq<(int, int, int, int, Tree)>,
    a0: int,
    p: int,
) -> bool {
    &&& (ms.len() == 0 ==> ws_span(s, a0, p))
    &&& (ms.len() > 0 ==> {
        &&& ws_span(s, a0, ms[0].0)
        &&& forall|k: int| 0 <= k < ms.len() - 1 ==> sep_gap(s, #[trigger] ms[k].3, ms[k + 1].0, ',')
        &&& sep_gap(s, ms[ms.len() - 1].3, p, ',')
    })
    &&& forall|k: int|
        0 <= k < ms.len() ==> string_span(s, #[trigger] ms[k].0, ms[k].1) && sep_gap(
            s,
            ms[k].1,
            ms[k].2,
            ':',
        )
    &&& forall|j: int| 0 <= j < ms.len() ==> derives(s, #[trigger] ms[j].4, ms[j].2, ms[j].3)
}

/// The rest of an object the reader reads, after the members `ms` read
/// from `a0`, completes a derived list of members up to its brace.
#[verifier::rlimit(60)]
#[verifier::spinoff_prover]
pub proof fn lemma_members_sound(
    ctx: Context,
    p: int,
    depth: nat,
    lits: Seq<Seq<char>>,
    acc: Seq<(Seq<char>, JsonValue)>,
    a0: int,
    ms: Seq<(int, int, int, int, Tree)>,
) -> (all: Seq<(int, int, int, int, Tree)>)
    requires
        0 <= a0 <= p <= ctx.s.len(),
        members_prefix(ctx.s, ms, a0, p),
    ensures
        members_at(ctx, p, depth, lits, acc) matches Read::Done(_, q, _) ==> {
            &&& p < q
            &&& members_frame(ctx.s, all, a0, q - 1)
            &&& char_at(ctx.s, q - 1, '}')
            &&& forall|j: int|
                0 <= j < all.len() ==> derives(ctx.s, #[trigger] all[j].4, all[j].2, all[j].3)
        },
    decreases ctx.s.len() - p, 3nat,
{
    let s = ctx.s;
    lemma_skip_ws_span(s, p);
    let q = skip_ws(s, p);
    if !(!(q < p) && q < s.len() && s[q] == '"') {
        return ms;
    }
    lemma_string_sound(s, q);
    match string_at(s, q) {
        Ok((key, r)) => {
            if !(0 <= r <= s.len()) {
                return ms;
            }
            lemma_skip_ws_span(s, r);
            let t = skip_ws(s, r);
            if !(0 <= t < s.len() && s[t] == ':') {
                return ms;
            }
            lemma_skip_ws_span(s, t + 1);
            let u = skip_ws(s, t + 1);
            if u < p || u > s.len() {
                return ms;
            }
            let tv = lemma_value_sound(ctx, u, depth, lits);
            match value_at(ctx, u, depth, lits) {
                Read::Done(v, w, l) => {
                    let x = (q, r, u, w, tv);
                    let ms2 = ms.push(x);
                    if !(0 <= w <= s.len()) {
                        return ms2;
                    }
                    lemma_skip_ws_span(s, w);
                    let y = skip_ws(s, w);
                    assert(ms2[ms2.len() - 1] == x);
                    assert(char_at(s, t, ':'));
                    assert(sep_gap(s, r, u, ':'));
                    assert forall|k: int| 0 <= k < ms2.len() implies string_span(
                        s,
                        #[trigger] ms2[k].0,
                        ms2[k].1,
                    ) && sep_gap(s, ms2[k].1, ms2[k].2, ':') by {
                        if k < ms.len() {
                            assert(ms2[k] == ms[k]);
                        }
                    }
                    assert forall|j: int| 0 <= j < ms2.len() implies derives(
                        s,
                        #[trigger] ms2[j].4,
                        ms2[j].2,
                        ms2[j].3,
                    ) by {
                        if j < ms.len() {
                            assert(ms2[j] == ms[j]);
                        }
                    }
                    if ms.len() == 0 {
                        lemma_ws_join(s, a0, p, q);
                        assert(ms2[0] == x);
                    } else {
                        assert(ms2[0] == ms[0]);
                    }
                    assert forall|k: int| 0 <= k < ms2.len() - 1 implies sep_gap(
                        s,
                        #[trigger] ms2[k].3,
                        ms2[k + 1].0,
                        ',',
                    ) by {
                        if k < ms.len() - 1 {
                            assert(ms2[k] == ms[k]);
                            assert(ms2[k + 1] == ms[k + 1]);
                        } else {
                            assert(ms2[k] == ms[k]);
                            assert(ms2[k + 1] == x);
                            let m = choose|m: int|
                                #[trigger] char_at(s, m, ',') && ws_span(s, ms[ms.len() - 1].3, m)
                                    && ws_span(s, m + 1, p);
                            lemma_ws_join(s, m + 1, p, q);
                            assert(char_at(s, m, ','));
                        }
                    }
                    if 0 <= y < s.len() && s[y] == ',' && y + 1 > p {
                        assert(char_at(s, y, ','));
                        assert(ws_span(s, y + 1, y + 1));
                        assert(sep_gap(s, ms2[ms2.len() - 1].3, y + 1, ','));
                        lemma_members_sound(
                            ctx,
                            y + 1,
                            depth,
                            l,
                            crate::value::inserted(acc, key, v),
                            a0,
                            ms2,
                        )
                    } else {
                        ms2
                    }
                },
                _ => ms,
            }
        },
        Err(_) => ms,
    }
}

// ---------------------------------------------------------------------------
// The law
// ---------------------------------------------------------------------------

/// The reader is strict: every document it accepts is a JSON text.
pub proof fn lemma_document_strict(ctx: Context)
    ensures
        document(ctx).0 is Ok ==> is_json_text(ctx.s),
{
    reveal(document);
    let s = ctx.s;
    lemma_skip_ws_span(s, 0);
    let p = skip_ws(s, 0);
    let t = lemma_value_sound(ctx, p, 0, Seq::empty());
    match value_at(ctx, p, 0, Seq::empty()) {
        Read::Done(v, q, l) => {
            if 0 <= q <= s.len() {
                lemma_skip_ws_span(s, q);
                if skip_ws(s, q) >= s.len() {
                    assert(derives(s, t, p, q));
                }
            }
        },
        _ => {},
    }
}

/// Strict means strict: whatever [`parse_step`](crate::parse_step) reads to
/// a value is a JSON text, one RFC 8259 value surrounded by whitespace
/// only, whatever the options and the float table.
pub proof fn law_accepted_is_json_text(
    input: Seq<char>,
    options: ParseOptions,
    floats: Seq<Option<crate::value::FloatText>>,
    r: ParseStep,
)
    requires
        step_matches(r, input, options, floats),
        step_value(r) is Some,
    ensures
        is_json_text(input),
{
    lemma_document_strict(crate::parse::context_of(input, options, floats));
}

} // verus!
