//! The reader accepts every JSON text it can represent: one whose integer
//! literals fit (or are read lossily), whose float literals are finite, and
//! which is nested no deeper than the cap.

use vstd::prelude::*;

use crate::grammar::{
    char_at, decimal_value, document, escape, exact_integer, hex4, is_ws, items_at, members_at,
    number_at, number_scan, skip_ws, string_at, string_rest, unicode_escape, value_at, Context,
    Read,
};
use crate::options::{lemma_document_keeps, step_value};
use crate::parse::{context_of, step_matches, ParseOptions, ParseStep};
use crate::strict::{
    derives, elements_derive, members_derive, pair_escape, quad, scalar_escape, sep_gap,
    simple_escape, str_body, string_span, ws_span, Tree,
};
use crate::value::{is_digit, FloatText};
use crate::written::lemma_digits_run;

verus! {

// ---------------------------------------------------------------------------
// What a derivation asks of the reader
// ---------------------------------------------------------------------------

/// How deeply a derivation nests containers: 0 for a scalar.
pub open spec fn tree_depth(t: Tree) -> nat
    decreases t, 0nat,
{
    match t {
        Tree::Array(es) => 1 + elements_depth(es, 0),
        Tree::Object(ms) => 1 + members_depth(ms, 0),
        _ => 0,
    }
}

/// The deepest element derivation from the `k`-th on.
pub open spec fn elements_depth(es: Seq<(int, int, Tree)>, k: int) -> nat
    decreases es, es.len() - k,
{
    if k < 0 || k >= es.len() {
        0
    } else {
        let a = tree_depth(es[k].2);
        let b = elements_depth(es, k + 1);
        if a >= b {
            a
        } else {
            b
        }
    }
}

/// The deepest member value derivation from the `k`-th on.
pub open spec fn members_depth(ms: Seq<(int, int, int, int, Tree)>, k: int) -> nat
    decreases ms, ms.len() - k,
{
    if k < 0 || k >= ms.len() {
        0
    } else {
        let a = tree_depth(ms[k].4);
        let b = members_depth(ms, k + 1);
        if a >= b {
            a
        } else {
            b
        }
    }
}

/// Whether every integer literal the derivation `t` of `s[a..b]` holds fits
/// `u64` (non-negative) or `i64` (negative), unless big integers are read
/// `lossy`.
pub open spec fn fits(s: Seq<char>, t: Tree, a: int, b: int, lossy: bool) -> bool
    decreases t, 0nat,
{
    match t {
        Tree::Number(i, j, k) => b == j ==> (lossy || exact_integer(
            i != a,
            decimal_value(s.subrange(i, j)),
        ) is Some),
        Tree::Array(es) => elements_fit(s, es, 0, lossy),
        Tree::Object(ms) => members_fit(s, ms, 0, lossy),
        _ => true,
    }
}

/// Whether the integers of the elements from the `k`-th on fit.
pub open spec fn elements_fit(s: Seq<char>, es: Seq<(int, int, Tree)>, k: int, lossy: bool) -> bool
    decreases es, es.len() - k,
{
    if k < 0 || k >= es.len() {
        true
    } else {
        fits(s, es[k].2, es[k].0, es[k].1, lossy) && elements_fit(s, es, k + 1, lossy)
    }
}

/// Whether the integers of the member values from the `k`-th on fit.
pub open spec fn members_fit(
    s: Seq<char>,
    ms: Seq<(int, int, int, int, Tree)>,
    k: int,
    lossy: bool,
) -> bool
    decreases ms, ms.len() - k,
{
    if k < 0 || k >= ms.len() {
        true
    } else {
        fits(s, ms[k].4, ms[k].2, ms[k].3, lossy) && members_fit(s, ms, k + 1, lossy)
    }
}

/// Whether every entry of the float table is finite.
pub open spec fn floats_finite(ctx: Context) -> bool {
    forall|k: int| 0 <= k < ctx.floats.len() ==> #[trigger] ctx.floats[k] is Some
}

/// Whether a token may end before position `b`: at the end, or before
/// whitespace, a comma or a closing bracket or brace.
pub open spec fn token_end(s: Seq<char>, b: int) -> bool {
    b == s.len() || (0 <= b < s.len() && (is_ws(s[b]) || s[b] == ',' || s[b] == ']' || s[b]
        == '}'))
}

// ---------------------------------------------------------------------------
// Lists
// ---------------------------------------------------------------------------

proof fn lemma_elements_at(s: Seq<char>, es: Seq<(int, int, Tree)>, i: int, k: int, lossy: bool)
    requires
        0 <= i <= k < es.len(),
        elements_derive(s, es, i),
        elements_fit(s, es, i, lossy),
    ensures
        derives(s, es[k].2, es[k].0, es[k].1),
        fits(s, es[k].2, es[k].0, es[k].1, lossy),
        elements_depth(es, i) >= tree_depth(es[k].2),
    decreases k - i,
{
    if i < k {
        lemma_elements_at(s, es, i + 1, k, lossy);
    }
}

proof fn lemma_members_at(
    s: Seq<char>,
    ms: Seq<(int, int, int, int, Tree)>,
    i: int,
    k: int,
    lossy: bool,
)
    requires
        0 <= i <= k < ms.len(),
        members_derive(s, ms, i),
        members_fit(s, ms, i, lossy),
    ensures
        derives(s, ms[k].4, ms[k].2, ms[k].3),
        fits(s, ms[k].4, ms[k].2, ms[k].3, lossy),
        members_depth(ms, i) >= tree_depth(ms[k].4),
    decreases k - i,
{
    if i < k {
        lemma_members_at(s, ms, i + 1, k, lossy);
    }
}

// ---------------------------------------------------------------------------
// Runs, starts and ends
// ---------------------------------------------------------------------------

/// Skipping whitespace from `x` stops at `y`, where the run ends.
proof fn lemma_skip_to(s: Seq<char>, x: int, y: int)
    requires
        ws_span(s, x, y),
        y < s.len() ==> !is_ws(s[y]),
    ensures
        skip_ws(s, x) == y,
    decreases y - x,
{
    if x < y {
        lemma_skip_to(s, x + 1, y);
    }
}

/// Whether a value may start with `c`.
pub open spec fn value_start(c: char) -> bool {
    c == 'n' || c == 't' || c == 'f' || c == '"' || c == '[' || c == '{' || c == '-' || is_digit(c)
}

/// A derived value starts with a character that may start one, and is not
/// empty.
proof fn lemma_derived_start(s: Seq<char>, t: Tree, a: int, b: int)
    requires
        derives(s, t, a, b),
    ensures
        0 <= a < b <= s.len(),
        value_start(s[a]),
{
    match t {
        Tree::Literal => {
            reveal_strlit("null");
            reveal_strlit("true");
            reveal_strlit("false");
            assert("null"@.len() == 4 && "true"@.len() == 4 && "false"@.len() == 5);
            assert(s.subrange(a, b).len() == b - a);
            assert(s.subrange(a, b)[0] == s[a]);
        },
        _ => {},
    }
}

/// Whitespace, a separator, whitespace: skipping from `x` stops at the
/// separator, and from past it at `y`.
proof fn lemma_gap(s: Seq<char>, x: int, y: int, sep: char) -> (m: int)
    requires
        sep_gap(s, x, y, sep),
        !is_ws(sep),
        y < s.len() ==> !is_ws(s[y]),
    ensures
        x <= m < y || (m + 1 == y && x <= m),
        char_at(s, m, sep),
        skip_ws(s, x) == m,
        skip_ws(s, m + 1) == y,
        token_end(s, x) || (x < s.len() && s[x] == sep),
{
    let m = choose|m: int| #[trigger] char_at(s, m, sep) && ws_span(s, x, m) && ws_span(s, m + 1, y);
    lemma_skip_to(s, x, m);
    lemma_skip_to(s, m + 1, y);
    m
}

// ---------------------------------------------------------------------------
// Numbers and strings
// ---------------------------------------------------------------------------

/// A derived number, ending where a token may end, is scanned whole.
proof fn lemma_number_complete(s: Seq<char>, a: int, b: int, i: int, j: int, k: int)
    requires
        derives(s, Tree::Number(i, j, k), a, b),
        token_end(s, b),
    ensures
        number_scan(s, a) == Some((i, j, b)),
{
    if i == a {
        assert(!char_at(s, a, '-'));
    }
    // The integer part.
    if !char_at(s, i, '0') {
        lemma_digits_run(s, i, j);
    }
    // The fraction.
    if char_at(s, j, '.') {
        assert(k != j);
        lemma_digits_run(s, j + 1, k);
    } else {
        assert(k == j);
    }
    // The exponent.
    if char_at(s, k, 'e') || char_at(s, k, 'E') {
        assert(b != k);
        if char_at(s, k + 1, '+') || char_at(s, k + 1, '-') {
            lemma_digits_run(s, k + 2, b);
        } else {
            lemma_digits_run(s, k + 1, b);
        }
    } else {
        assert(b == k);
    }
}

/// The four hex digits of a quad read as it.
proof fn lemma_quad_hex4(s: Seq<char>, p: int, start: int)
    requires
        0 <= p,
        quad(s, p) is Some,
    ensures
        hex4(s, p, start) == Ok::<(u32, int), crate::grammar::Fault>((quad(s, p)->Some_0, p + 4)),
{
}

/// A string body, up to its closing quote, is read whole.
proof fn lemma_string_rest_complete(s: Seq<char>, p: int, e: int, acc: Seq<char>)
    requires
        str_body(s, p, e),
        char_at(s, e, '"'),
    ensures
        string_rest(s, p, acc) matches Ok((_, q)) && q == e + 1,
    decreases e - p,
{
    if p < e {
        if s[p] == '\\' {
            if p + 2 <= e && simple_escape(s[p + 1]) && str_body(s, p + 2, e) {
                let c = escape(s, p + 1)->Ok_0.0;
                lemma_string_rest_complete(s, p + 2, e, acc.push(c));
            } else if p + 6 <= e && scalar_escape(s, p) && str_body(s, p + 6, e) {
                lemma_quad_hex4(s, p + 2, p);
                let c = escape(s, p + 1)->Ok_0.0;
                assert(unicode_escape(s, p + 2, p) matches Ok((_, q)) && q == p + 6);
                lemma_string_rest_complete(s, p + 6, e, acc.push(c));
            } else {
                assert(p + 12 <= e && pair_escape(s, p) && str_body(s, p + 12, e));
                lemma_quad_hex4(s, p + 2, p);
                lemma_quad_hex4(s, p + 8, p);
                let c = escape(s, p + 1)->Ok_0.0;
                assert(unicode_escape(s, p + 2, p) matches Ok((_, q)) && q == p + 12);
                lemma_string_rest_complete(s, p + 12, e, acc.push(c));
            }
        } else {
            lemma_string_rest_complete(s, p + 1, e, acc.push(s[p]));
        }
    }
}

// ---------------------------------------------------------------------------
// Values
// ---------------------------------------------------------------------------

/// What the completeness of a value at `a` asks.
pub open spec fn readable(ctx: Context, t: Tree, a: int, b: int, depth: nat) -> bool {
    &&& derives(ctx.s, t, a, b)
    &&& token_end(ctx.s, b)
    &&& fits(ctx.s, t, a, b, ctx.lossy)
    &&& depth + tree_depth(t) <= ctx.max_depth
    &&& floats_finite(ctx)
}

/// A derived value the reader can represent is read whole.
#[verifier::rlimit(60)]
#[verifier::spinoff_prover]
pub proof fn lemma_value_complete(
    ctx: Context,
    t: Tree,
    a: int,
    b: int,
    depth: nat,
    lits: Seq<Seq<char>>,
)
    requires
        readable(ctx, t, a, b, depth),
    ensures
        value_at(ctx, a, depth, lits) matches Read::Done(_, q, _) && q == b,
    decreases t, 3nat, 0int,
{
    let s = ctx.s;
    lemma_derived_start(s, t, a, b);
    match t {
        Tree::Literal => {
            reveal_strlit("null");
            reveal_strlit("true");
            reveal_strlit("false");
            let w = s.subrange(a, b);
            assert(w[0] == s[a]);
            if w == "null"@ {
                assert(crate::grammar::word_at(s, a, "null"@));
            } else if w == "true"@ {
                assert(crate::grammar::word_at(s, a, "true"@));
            } else {
                assert(crate::grammar::word_at(s, a, "false"@));
            }
        },
        Tree::Number(i, j, k) => {
            lemma_number_complete(s, a, b, i, j, k);
            assert(number_at(ctx, a, lits) matches Read::Done(_, q, _) && q == b);
            assert(value_at(ctx, a, depth, lits) == number_at(ctx, a, lits));
        },
        Tree::Str => {
            lemma_string_rest_complete(s, a + 1, b - 1, Seq::empty());
            assert(string_at(s, a) matches Ok((_, q)) && q == b);
            assert(s[a] == '"');
        },
        Tree::Array(es) => {
            lemma_array_complete(ctx, es, a, b, depth, lits);
        },
        Tree::Object(ms) => {
            lemma_object_complete(ctx, ms, a, b, depth, lits);
        },
    }
}

/// A derived array the reader can represent is read whole.
#[verifier::rlimit(60)]
#[verifier::spinoff_prover]
proof fn lemma_array_complete(
    ctx: Context,
    es: Seq<(int, int, Tree)>,
    a: int,
    b: int,
    depth: nat,
    lits: Seq<Seq<char>>,
)
    requires
        readable(ctx, Tree::Array(es), a, b, depth),
    ensures
        value_at(ctx, a, depth, lits) matches Read::Done(_, q, _) && q == b,
    decreases es, 2nat, 0int,
{
    let s = ctx.s;
    if es.len() == 0 {
        lemma_skip_to(s, a + 1, b - 1);
        assert(value_at(ctx, a, depth, lits) == Read::Done(
            crate::value::JsonValue::Array(Seq::empty()),
            b,
            lits,
        ));
    } else {
        lemma_elements_at(s, es, 0, 0, ctx.lossy);
        lemma_derived_start(s, es[0].2, es[0].0, es[0].1);
        lemma_skip_to(s, a + 1, es[0].0);
        let q = es[0].0;
        assert(!char_at(s, q, ']'));
        lemma_items_complete(ctx, es, 0, q, b, depth + 1, lits, Seq::empty());
        assert(value_at(ctx, a, depth, lits) == items_at(ctx, q, depth + 1, lits, Seq::empty()));
    }
}

/// The elements of a derived array, from the `k`-th on, read from `p`,
/// before which the reader stands, are read to the end of the array.
#[verifier::rlimit(60)]
#[verifier::spinoff_prover]
proof fn lemma_items_complete(
    ctx: Context,
    es: Seq<(int, int, Tree)>,
    k: int,
    p: int,
    b: int,
    depth: nat,
    lits: Seq<Seq<char>>,
    acc: Seq<crate::value::JsonValue>,
)
    requires
        0 <= k < es.len(),
        es.len() > 0,
        forall|x: int| 0 <= x < es.len() - 1 ==> sep_gap(ctx.s, #[trigger] es[x].1, es[x + 1].0, ','),
        ws_span(ctx.s, es[es.len() - 1].1, b - 1),
        char_at(ctx.s, b - 1, ']'),
        ws_span(ctx.s, p, es[k].0),
        elements_derive(ctx.s, es, 0),
        elements_fit(ctx.s, es, 0, ctx.lossy),
        depth + elements_depth(es, 0) <= ctx.max_depth,
        floats_finite(ctx),
    ensures
        items_at(ctx, p, depth, lits, acc) matches Read::Done(_, q, _) && q == b,
    decreases es, 1nat, es.len() - k,
{
    let s = ctx.s;
    let (c, d, t) = es[k];
    lemma_elements_at(s, es, 0, k, ctx.lossy);
    lemma_derived_start(s, t, c, d);
    lemma_skip_to(s, p, c);
    let m: int;
    if k + 1 < es.len() {
        assert(sep_gap(s, es[k].1, es[k + 1].0, ','));
        lemma_elements_at(s, es, 0, k + 1, ctx.lossy);
        lemma_derived_start(s, es[k + 1].2, es[k + 1].0, es[k + 1].1);
        m = lemma_gap(s, d, es[k + 1].0, ',');
    } else {
        lemma_skip_to(s, d, b - 1);
        m = b - 1;
    }
    assert(token_end(s, d));
    lemma_value_complete(ctx, t, c, d, depth, lits);
    match value_at(ctx, c, depth, lits) {
        Read::Done(v, r, l) => {
            assert(r == d);
            if k + 1 < es.len() {
                lemma_items_complete(ctx, es, k + 1, m + 1, b, depth, l, acc.push(v));
            }
        },
        _ => {},
    }
}

/// A derived object the reader can represent is read whole.
#[verifier::rlimit(60)]
#[verifier::spinoff_prover]
proof fn lemma_object_complete(
    ctx: Context,
    ms: Seq<(int, int, int, int, Tree)>,
    a: int,
    b: int,
    depth: nat,
    lits: Seq<Seq<char>>,
)
    requires
        readable(ctx, Tree::Object(ms), a, b, depth),
    ensures
        value_at(ctx, a, depth, lits) matches Read::Done(_, q, _) && q == b,
    decreases ms, 2nat, 0int,
{
    let s = ctx.s;
    if ms.len() == 0 {
        lemma_skip_to(s, a + 1, b - 1);
        assert(value_at(ctx, a, depth, lits) == Read::Done(
            crate::value::JsonValue::Object(Seq::empty()),
            b,
            lits,
        ));
    } else {
        let q = ms[0].0;
        assert(string_span(s, ms[0].0, ms[0].1));
        lemma_skip_to(s, a + 1, q);
        assert(!char_at(s, q, '}'));
        lemma_members_complete(ctx, ms, 0, q, b, depth + 1, lits, Seq::empty());
        assert(value_at(ctx, a, depth, lits) == members_at(ctx, q, depth + 1, lits, Seq::empty()));
    }
}

/// The members of a derived object, from the `k`-th on, read from `p`, are
/// read to the end of the object.
#[verifier::rlimit(60)]
#[verifier::spinoff_prover]
proof fn lemma_members_complete(
    ctx: Context,
    ms: Seq<(int, int, int, int, Tree)>,
    k: int,
    p: int,
    b: int,
    depth: nat,
    lits: Seq<Seq<char>>,
    acc: Seq<(Seq<char>, crate::value::JsonValue)>,
)
    requires
        0 <= k < ms.len(),
        forall|x: int| 0 <= x < ms.len() - 1 ==> sep_gap(ctx.s, #[trigger] ms[x].3, ms[x + 1].0, ','),
        forall|x: int|
            0 <= x < ms.len() ==> string_span(ctx.s, #[trigger] ms[x].0, ms[x].1) && sep_gap(
                ctx.s,
                ms[x].1,
                ms[x].2,
                ':',
            ),
        ws_span(ctx.s, ms[ms.len() - 1].3, b - 1),
        char_at(ctx.s, b - 1, '}'),
        ws_span(ctx.s, p, ms[k].0),
        members_derive(ctx.s, ms, 0),
        members_fit(ctx.s, ms, 0, ctx.lossy),
        depth + members_depth(ms, 0) <= ctx.max_depth,
        floats_finite(ctx),
    ensures
        members_at(ctx, p, depth, lits, acc) matches Read::Done(_, q, _) && q == b,
    decreases ms, 1nat, ms.len() - k,
{
    let s = ctx.s;
    let (c, d, e, f, t) = ms[k];
    assert(string_span(s, c, d) && sep_gap(s, d, e, ':'));
    lemma_members_at(s, ms, 0, k, ctx.lossy);
    lemma_derived_start(s, t, e, f);
    lemma_skip_to(s, p, c);
    lemma_string_rest_complete(s, c + 1, d - 1, Seq::empty());
    let colon = lemma_gap(s, d, e, ':');
    let m: int;
    if k + 1 < ms.len() {
        assert(sep_gap(s, ms[k].3, ms[k + 1].0, ','));
        assert(string_span(s, ms[k + 1].0, ms[k + 1].1));
        m = lemma_gap(s, f, ms[k + 1].0, ',');
    } else {
        lemma_skip_to(s, f, b - 1);
        m = b - 1;
    }
    assert(token_end(s, f));
    lemma_value_complete(ctx, t, e, f, depth, lits);
    match string_at(s, c) {
        Ok((key, r)) => {
            assert(r == d);
            match value_at(ctx, e, depth, lits) {
                Read::Done(v, w, l) => {
                    assert(w == f);
                    if k + 1 < ms.len() {
                        lemma_members_complete(
                            ctx,
                            ms,
                            k + 1,
                            m + 1,
                            b,
                            depth,
                            l,
                            crate::value::inserted(acc, key, v),
                        );
                    }
                },
                _ => {},
            }
        },
        _ => {},
    }
}

// ---------------------------------------------------------------------------
// The laws
// ---------------------------------------------------------------------------

/// A JSON text whose integers fit, whose floats are finite and which is
/// nested no deeper than the cap is accepted.
pub proof fn lemma_document_complete(ctx: Context, t: Tree, a: int, b: int)
    requires
        ws_span(ctx.s, 0, a),
        derives(ctx.s, t, a, b),
        ws_span(ctx.s, b, ctx.s.len() as int),
        fits(ctx.s, t, a, b, ctx.lossy),
        tree_depth(t) <= ctx.max_depth,
        floats_finite(ctx),
    ensures
        document(ctx).0 is Ok,
{
    reveal(document);
    let s = ctx.s;
    lemma_derived_start(s, t, a, b);
    lemma_skip_to(s, 0, a);
    lemma_skip_to(s, b, s.len() as int);
    lemma_value_complete(ctx, t, a, b, 0, Seq::empty());
}

/// Whether the entries of a float table are all finite.
pub open spec fn table_finite(floats: Seq<Option<FloatText>>) -> bool {
    forall|k: int| 0 <= k < floats.len() ==> #[trigger] floats[k] is Some
}

/// Every JSON text the reader can represent is accepted: given a
/// derivation of the text (one value between whitespace) whose integer
/// literals fit `u64`/`i64` or are read lossily, which is nested no deeper
/// than the cap, and a float table of finite floats,
/// [`parse_step`](crate::parse_step) gives a value, or asks for more
/// floats; it refuses nothing.
pub proof fn law_representable_text_is_accepted(
    input: Seq<char>,
    options: ParseOptions,
    floats: Seq<Option<FloatText>>,
    r: ParseStep,
    t: Tree,
    a: int,
    b: int,
)
    requires
        ws_span(input, 0, a),
        derives(input, t, a, b),
        ws_span(input, b, input.len() as int),
        fits(input, t, a, b, options.spec_lossy()),
        tree_depth(t) <= options.spec_max_depth(),
        table_finite(floats),
        step_matches(r, input, options, floats),
    ensures
        r is NeedFloats || step_value(r) is Some,
{
    let ctx = context_of(input, options, floats);
    assert(floats_finite(ctx)) by {
        assert forall|k: int| 0 <= k < ctx.floats.len() implies #[trigger] ctx.floats[k] is Some by {
            assert(floats[k] is Some);
        }
    }
    lemma_document_complete(ctx, t, a, b);
}

/// A cap at least the document's nesting accepts it: a document accepted
/// under one cap, with a derivation nested no deeper than another cap,
/// whose integers fit and against a table of finite floats, is read to the
/// same value under the other cap.
pub proof fn law_cap_at_nesting_accepts(
    input: Seq<char>,
    floats: Seq<Option<FloatText>>,
    options: ParseOptions,
    accepted: ParseStep,
    other: ParseOptions,
    r: ParseStep,
    t: Tree,
    a: int,
    b: int,
)
    requires
        step_matches(accepted, input, options, floats),
        step_value(accepted) is Some,
        other.spec_lossy() == options.spec_lossy(),
        step_matches(r, input, other, floats),
        ws_span(input, 0, a),
        derives(input, t, a, b),
        ws_span(input, b, input.len() as int),
        fits(input, t, a, b, options.spec_lossy()),
        tree_depth(t) <= other.spec_max_depth(),
        table_finite(floats),
    ensures
        step_value(r) == step_value(accepted),
{
    let ctx = context_of(input, options, floats);
    let ctx2 = context_of(input, other, floats);
    assert(floats_finite(ctx2)) by {
        assert forall|k: int| 0 <= k < ctx2.floats.len() implies #[trigger] ctx2.floats[k] is Some by {
            assert(floats[k] is Some);
        }
    }
    lemma_document_complete(ctx2, t, a, b);
    lemma_document_keeps(ctx, ctx2);
}

} // verus!
