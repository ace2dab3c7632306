//! What a writer's text is made of, piece by piece, and what each piece
//! reads back as: the well-formed values, the value as written, whitespace,
//! numbers and the floats a text holds.

use vstd::prelude::*;

use crate::grammar::{
    char_at, decimal_value, digit_value, digits_end, exponent_end, fraction_end, exact_integer,
    float_literal, int_part_end, is_ws, number_at, number_scan, skip_ws, Context, Read,
};
use crate::render::{
    decimal, hex_char, line_break, member_order, number_text, render, spaces, Layout,
};

use crate::value::{
    is_digit, is_float_rendering, is_int_digits, is_trimmed_fraction, keys_distinct, unsigned_part,
    JsonNumber, JsonValue,
};

verus! {

// ---------------------------------------------------------------------------
// What the laws speak of
// ---------------------------------------------------------------------------

/// Whether a value is one the library can build: every object's keys are
/// distinct, a negative integer is negative, and a float is a rendering.
pub open spec fn json_wf(v: JsonValue) -> bool
    decreases v, 0nat,
{
    match v {
        JsonValue::Number(JsonNumber::NegInt(x)) => x < 0,
        JsonValue::Number(JsonNumber::Float(t)) => is_float_rendering(t),
        JsonValue::Array(items) => items_wf(items, 0),
        JsonValue::Object(entries) => keys_distinct(entries) && entries_wf(entries, 0),
        _ => true,
    }
}

/// Whether the elements of an array from the `i`-th on are well formed.
pub open spec fn items_wf(items: Seq<JsonValue>, i: int) -> bool
    decreases items, items.len() - i,
{
    if i < 0 || i >= items.len() {
        true
    } else {
        json_wf(items[i]) && items_wf(items, i + 1)
    }
}

/// Whether the values of an object from the `i`-th entry on are well formed.
pub open spec fn entries_wf(entries: Seq<(Seq<char>, JsonValue)>, i: int) -> bool
    decreases entries, entries.len() - i,
{
    if i < 0 || i >= entries.len() {
        true
    } else {
        json_wf(entries[i].1) && entries_wf(entries, i + 1)
    }
}

/// Each element of a well-formed array is well formed.
pub proof fn lemma_items_wf(items: Seq<JsonValue>, i: int, k: int)
    requires
        items_wf(items, i),
        0 <= i <= k < items.len(),
    ensures
        json_wf(items[k]),
    decreases k - i,
{
    if i < k {
        lemma_items_wf(items, i + 1, k);
    }
}

/// Each value of a well-formed object is well formed.
pub proof fn lemma_entries_wf(entries: Seq<(Seq<char>, JsonValue)>, i: int, k: int)
    requires
        entries_wf(entries, i),
        0 <= i <= k < entries.len(),
    ensures
        json_wf(entries[k].1),
    decreases k - i,
{
    if i < k {
        lemma_entries_wf(entries, i + 1, k);
    }
}

/// The value a writer's output reads back as: the value itself, with each
/// object's entries in the order the layout writes them.
pub open spec fn as_written(v: JsonValue, layout: Layout) -> JsonValue
    decreases v,
{
    match v {
        JsonValue::Array(items) => JsonValue::Array(
            Seq::new(
                items.len(),
                |i: int|
                    if 0 <= i < items.len() {
                        as_written(items[i], layout)
                    } else {
                        JsonValue::Null
                    },
            ),
        ),
        JsonValue::Object(entries) => {
            let order = member_order(layout, entries);
            JsonValue::Object(
                Seq::new(
                    order.len(),
                    |j: int|
                        if 0 <= j < order.len() && 0 <= order[j] < entries.len() {
                            (entries[order[j]].0, as_written(entries[order[j]].1, layout))
                        } else {
                            (Seq::empty(), JsonValue::Null)
                        },
                ),
            )
        },
        _ => v,
    }
}

/// Whether `t` stands at position `p` of `s`.
pub open spec fn text_at(s: Seq<char>, p: int, t: Seq<char>) -> bool {
    0 <= p && p + t.len() <= s.len() && s.subrange(p, p + t.len()) == t
}

/// Whether a number literal would end at `e`: the end, or a character that
/// cannot continue one.
pub open spec fn ends_number(s: Seq<char>, e: int) -> bool {
    e >= s.len() || !(is_digit(s[e]) || s[e] == '.' || s[e] == 'e' || s[e] == 'E')
}

// ---------------------------------------------------------------------------
// Text positions
// ---------------------------------------------------------------------------

/// A text at `p` gives its characters.
pub proof fn lemma_text_at_index(s: Seq<char>, p: int, t: Seq<char>, i: int)
    requires
        text_at(s, p, t),
        0 <= i < t.len(),
    ensures
        s[p + i] == t[i],
{
    assert(s.subrange(p, p + t.len())[i] == s[p + i]);
}

/// A concatenation at `p` is its parts, one after the other.
pub proof fn lemma_text_at_split(s: Seq<char>, p: int, a: Seq<char>, b: Seq<char>)
    requires
        text_at(s, p, a + b),
    ensures
        text_at(s, p, a),
        text_at(s, p + a.len(), b),
{
    assert forall|i: int| 0 <= i < a.len() implies #[trigger] s.subrange(p, p + a.len())[i] == a[i] by {
        lemma_text_at_index(s, p, a + b, i);
    }
    assert(s.subrange(p, p + a.len()) =~= a);
    assert forall|i: int| 0 <= i < b.len() implies #[trigger] s.subrange(
        p + a.len(),
        p + a.len() + b.len(),
    )[i] == b[i] by {
        lemma_text_at_index(s, p, a + b, a.len() + i);
    }
    assert(s.subrange(p + a.len(), p + a.len() + b.len()) =~= b);
}

/// Every character of `spaces(n)` is a space.
pub proof fn lemma_spaces(n: nat)
    ensures
        spaces(n).len() == n,
        forall|i: int| 0 <= i < n ==> #[trigger] spaces(n)[i] == ' ',
    decreases n,
{
    if n > 0 {
        lemma_spaces((n - 1) as nat);
    }
}

/// A line break is whitespace only.
pub proof fn lemma_break_ws(layout: Layout, d: nat)
    ensures
        forall|i: int| 0 <= i < line_break(layout, d).len() ==> is_ws(#[trigger] line_break(layout, d)[i]),
{
    match layout.indent {
        None => {},
        Some(w) => {
            lemma_spaces(d * w);
            assert forall|i: int| 0 <= i < line_break(layout, d).len() implies is_ws(
                #[trigger] line_break(layout, d)[i],
            ) by {
                if i > 0 {
                    assert(line_break(layout, d)[i] == spaces(d * w)[i - 1]);
                }
            }
        },
    }
}

/// Whitespace at `[a, b)` followed by something else is skipped from any
/// position in between.
pub proof fn lemma_skip_run(s: Seq<char>, a: int, b: int, pos: int)
    requires
        0 <= a <= pos <= b <= s.len(),
        forall|i: int| a <= i < b ==> is_ws(#[trigger] s[i]),
        b < s.len() ==> !is_ws(s[b]),
    ensures
        skip_ws(s, pos) == b,
    decreases b - pos,
{
    if pos < b {
        lemma_skip_run(s, a, b, pos + 1);
    }
}

/// A line break at `a`, followed by something other than whitespace, is
/// skipped from any position within it.
pub proof fn lemma_skip_break(s: Seq<char>, a: int, layout: Layout, d: nat, pos: int)
    requires
        text_at(s, a, line_break(layout, d)),
        a <= pos <= a + line_break(layout, d).len(),
        a + line_break(layout, d).len() < s.len() ==> !is_ws(s[a + line_break(layout, d).len()]),
    ensures
        skip_ws(s, pos) == a + line_break(layout, d).len(),
{
    let b = line_break(layout, d);
    lemma_break_ws(layout, d);
    assert forall|i: int| a <= i < a + b.len() implies is_ws(#[trigger] s[i]) by {
        lemma_text_at_index(s, a, b, i - a);
    }
    lemma_skip_run(s, a, a + b.len(), pos);
}

// ---------------------------------------------------------------------------
// Numbers
// ---------------------------------------------------------------------------

/// The digit characters.
pub proof fn lemma_hex_char_digit(k: nat)
    requires
        k < 10,
    ensures
        is_digit(hex_char(k)),
        digit_value(hex_char(k)) == k,
        (hex_char(k) == '0') == (k == 0),
{
    assert(((k + '0' as u32) as u32) as char == hex_char(k));
    assert((hex_char(k) as u32) == k + 48) by {
        assert(((k + 48) as u32 as char) as u32 == k + 48);
    }
}

/// `decimal(n)` is the digits of `n`, with no leading zero.
pub proof fn lemma_decimal(n: nat)
    ensures
        decimal(n).len() > 0,
        forall|i: int| 0 <= i < decimal(n).len() ==> is_digit(#[trigger] decimal(n)[i]),
        decimal(n)[0] == '0' ==> n == 0 && decimal(n).len() == 1,
        decimal_value(decimal(n)) == n,
    decreases n,
{
    if n < 10 {
        lemma_hex_char_digit(n);
        assert(decimal(n).drop_last() =~= Seq::<char>::empty());
        assert(decimal(n).last() == hex_char(n));
        assert(decimal_value(Seq::<char>::empty()) == 0);
        assert(decimal_value(decimal(n)) == decimal_value(decimal(n).drop_last()) * 10 + digit_value(
            decimal(n).last(),
        ));
    } else {
        lemma_decimal(n / 10);
        lemma_hex_char_digit(n % 10);
        let d = decimal(n);
        assert(d.drop_last() == decimal(n / 10));
        assert(d[0] == decimal(n / 10)[0]);
        assert(n == (n / 10) * 10 + n % 10);
        assert(d.last() == hex_char(n % 10));
        assert(decimal_value(d) == decimal_value(d.drop_last()) * 10 + digit_value(d.last()));
    }
}


// ---------------------------------------------------------------------------
// Strings
// ---------------------------------------------------------------------------

/// A run of digits from `a` to `b`, then something else, is one number
/// part.
pub proof fn lemma_digits_run(s: Seq<char>, a: int, b: int)
    requires
        0 <= a <= b <= s.len(),
        forall|i: int| a <= i < b ==> is_digit(#[trigger] s[i]),
        b < s.len() ==> !is_digit(s[b]),
    ensures
        digits_end(s, a) == b,
    decreases b - a,
{
    if a < b {
        lemma_digits_run(s, a + 1, b);
    }
}

/// Whether a number's text has a sign of `sign` characters, an integer part
/// of `k` digits, a point, and one or more digits to its end.
pub open spec fn float_shape(text: Seq<char>, sign: int, k: int) -> bool {
    &&& sign == 0 || sign == 1
    &&& (sign == 1) == (text.len() > 0 && text[0] == '-')
    &&& 0 < k
    &&& sign + k + 1 < text.len()
    &&& is_int_digits(text.subrange(sign, sign + k))
    &&& text[sign + k] == '.'
    &&& forall|i: int| sign + k + 1 <= i < text.len() ==> is_digit(#[trigger] text[i])
}

/// A float's text has that shape.
pub proof fn lemma_float_text_shape(t: Seq<char>) -> (r: (int, int))
    requires
        is_float_rendering(t),
    ensures
        float_shape(number_text(JsonNumber::Float(t)), r.0, r.1),
{
    let sign: int = if t.len() > 0 && t[0] == '-' {
        1
    } else {
        0
    };
    let body = unsigned_part(t);
    assert(body =~= t.skip(sign));
    if is_int_digits(body) {
        assert forall|i: int| 0 <= i < t.len() implies t[i] != '.' && t[i] != 'e' && t[i] != 'E' by {
            if i >= sign {
                assert(t[i] == body[i - sign]);
            }
        }
        assert(!t.contains('.'));
        assert(!t.contains('e'));
        assert(!t.contains('E'));
        let text = t + seq!['.', '0'];
        assert(number_text(JsonNumber::Float(t)) == text);
        let k = body.len() as int;
        assert(text.subrange(sign, sign + k) =~= body);
        assert(text[sign + k] == '.');
        assert forall|i: int| sign + k + 1 <= i < text.len() implies is_digit(#[trigger] text[i]) by {
            assert(text[i] == '0');
        }
        if sign == 1 {
            assert(text[0] == t[0]);
        } else if text.len() > 0 {
            assert(text[0] == body[0]);
        }
        (sign, k)
    } else {
        let k = choose|k: int|
            0 < k < body.len() && body[k] == '.' && is_int_digits(#[trigger] body.take(k))
                && is_trimmed_fraction(body.skip(k + 1));
        assert(t[sign + k] == '.');
        assert(t.contains('.'));
        assert(number_text(JsonNumber::Float(t)) == t);
        assert(t.subrange(sign, sign + k) =~= body.take(k));
        assert forall|i: int| sign + k + 1 <= i < t.len() implies is_digit(#[trigger] t[i]) by {
            assert(t[i] == body.skip(k + 1)[i - sign - k - 1]);
        }
        if sign == 0 && t.len() > 0 {
            assert(t[0] == body.take(k)[0]);
        }
        (sign, k)
    }
}

/// The reading context with the table `floats`.
pub open spec fn floats_at(ctx: Context, k: int, floats: Seq<Seq<char>>) -> bool {
    &&& 0 <= k
    &&& k + floats.len() <= ctx.floats.len()
    &&& forall|i: int| 0 <= i < floats.len() ==> ctx.floats[k + i] == Some(#[trigger] floats[i])
}

/// A number's text reads back as the number.
pub proof fn lemma_number_round_trip(ctx: Context, p: int, n: JsonNumber, lits: Seq<Seq<char>>)
    requires
        json_wf(JsonValue::Number(n)),
        text_at(ctx.s, p, number_text(n)),
        ends_number(ctx.s, p + number_text(n).len()),
        n is Float ==> floats_at(ctx, lits.len() as int, seq![n->Float_0]),
    ensures
        number_at(ctx, p, lits) == Read::Done(
            JsonValue::Number(n),
            p + number_text(n).len(),
            if n is Float {
                lits.push(number_text(n))
            } else {
                lits
            },
        ),
{
    let s = ctx.s;
    let text = number_text(n);
    let end = p + text.len();
    match n {
        JsonNumber::PosInt(v) => {
            lemma_integer_round_trip(s, p, false, v as nat);
            assert(exact_integer(false, v as nat) == Some(JsonNumber::PosInt(v)));
        },
        JsonNumber::NegInt(v) => {
            assert(text == seq!['-'] + decimal((0 - v) as nat));
            lemma_integer_round_trip(s, p, true, (0 - v) as nat);
            assert(((0 - (0 - v)) as i64) == v);
            assert(exact_integer(true, (0 - v) as nat) == Some(JsonNumber::NegInt(v)));
        },
        JsonNumber::Float(t) => {
            let (sign, k) = lemma_float_text_shape(t);
            assert forall|i: int| 0 <= i < text.len() implies s[p + i] == #[trigger] text[i] by {
                lemma_text_at_index(s, p, text, i);
            }
            let ds = p + sign;
            let ie = ds + k;
            assert(char_at(s, p, '-') == (sign == 1));
            assert forall|i: int| ds <= i < ie implies is_digit(#[trigger] s[i]) by {
                assert(s[i] == text.subrange(sign, sign + k)[i - ds]);
            }
            assert(s[ie] == '.');
            if s[ds] == '0' {
                assert(text.subrange(sign, sign + k)[0] == '0');
                assert(k == 1);
            } else {
                assert(text.subrange(sign, sign + k)[0] == s[ds]);
                lemma_digits_run(s, ds, ie);
            }
            assert(int_part_end(s, ds) == Some(ie));
            assert forall|i: int| ie + 1 <= i < end implies is_digit(#[trigger] s[i]) by {
                assert(s[i] == text[i - p]);
            }
            assert(is_digit(s[ie + 1]));
            lemma_digits_run(s, ie + 1, end);
            assert(fraction_end(s, ie) == Some(end));
            assert(exponent_end(s, end) == Some(end));
            assert(number_scan(s, p) == Some((ds, ie, end)));
            assert(s.subrange(p, end) == text);
            assert(ctx.floats[lits.len() as int + 0] == Some(seq![t][0]));
            assert(float_literal(ctx, p, end, lits) == Read::Done(
                JsonValue::Number(n),
                end,
                lits.push(text),
            ));
        },
    }
}

/// An integer's digits, after a minus sign when `negative`, read back as
/// the integer.
proof fn lemma_integer_round_trip(s: Seq<char>, p: int, negative: bool, m: nat)
    requires
        text_at(
            s,
            p,
            if negative {
                seq!['-'] + decimal(m)
            } else {
                decimal(m)
            },
        ),
        ends_number(
            s,
            p + (if negative {
                seq!['-'] + decimal(m)
            } else {
                decimal(m)
            }).len(),
        ),
    ensures
        ({
            let ds = if negative {
                p + 1
            } else {
                p
            };
            let e = ds + decimal(m).len();
            &&& number_scan(s, p) == Some((ds, e, e))
            &&& decimal_value(s.subrange(ds, e)) == m
        }),
{
    let text = if negative {
        seq!['-'] + decimal(m)
    } else {
        decimal(m)
    };
    let ds = if negative {
        p + 1
    } else {
        p
    };
    let e = ds + decimal(m).len();
    lemma_decimal(m);
    if negative {
        lemma_text_at_split(s, p, seq!['-'], decimal(m));
        lemma_text_at_index(s, p, text, 0);
    }
    assert forall|i: int| ds <= i < e implies s[i] == decimal(m)[i - ds] by {
        lemma_text_at_index(s, ds, decimal(m), i - ds);
    }
    assert(!char_at(s, p, '-') || negative);
    if !negative {
        assert(s[p] == decimal(m)[0]);
        assert(s[p] != '-');
    }
    if decimal(m)[0] == '0' {
    } else {
        lemma_digits_run(s, ds, e);
    }
    assert(int_part_end(s, ds) == Some(e));
    assert(fraction_end(s, e) == Some(e));
    assert(exponent_end(s, e) == Some(e));
    assert(s.subrange(ds, e) =~= decimal(m));
}


// ---------------------------------------------------------------------------
// Values
// ---------------------------------------------------------------------------

/// The floats of a value, in the order the layout writes them.
pub open spec fn float_list(v: JsonValue, layout: Layout) -> Seq<Seq<char>>
    decreases v, 0nat,
{
    match v {
        JsonValue::Number(JsonNumber::Float(t)) => seq![t],
        JsonValue::Array(items) => items_floats(items, layout, 0),
        JsonValue::Object(entries) => members_floats(
            entries,
            member_order(layout, entries),
            layout,
            0,
        ),
        _ => Seq::empty(),
    }
}

/// The floats of an array's elements from the `i`-th on.
pub open spec fn items_floats(items: Seq<JsonValue>, layout: Layout, i: int) -> Seq<Seq<char>>
    decreases items, items.len() - i,
{
    if i < 0 || i >= items.len() {
        Seq::empty()
    } else {
        float_list(items[i], layout) + items_floats(items, layout, i + 1)
    }
}

/// The floats of an object's members in `order` from the `i`-th on.
pub open spec fn members_floats(
    entries: Seq<(Seq<char>, JsonValue)>,
    order: Seq<int>,
    layout: Layout,
    i: int,
) -> Seq<Seq<char>>
    decreases entries, order.len() - i,
{
    if i < 0 || i >= order.len() || order[i] < 0 || order[i] >= entries.len() {
        Seq::empty()
    } else {
        float_list(entries[order[i]].1, layout) + members_floats(entries, order, layout, i + 1)
    }
}

/// The literal a writer writes for each float.
pub open spec fn literals(floats: Seq<Seq<char>>) -> Seq<Seq<char>> {
    floats.map_values(|t: Seq<char>| number_text(JsonNumber::Float(t)))
}

/// The float table that reads a writer's output back: each float, in order.
pub open spec fn table(floats: Seq<Seq<char>>) -> Seq<Option<Seq<char>>> {
    floats.map_values(|t: Seq<char>| Some(t))
}

/// `literals` distributes over concatenation.
pub proof fn lemma_literals_append(a: Seq<Seq<char>>, b: Seq<Seq<char>>)
    ensures
        literals(a + b) == literals(a) + literals(b),
{
    assert(literals(a + b) =~= literals(a) + literals(b));
}

/// The table for a concatenation covers each part at its offset.
pub proof fn lemma_floats_at_split(ctx: Context, k: int, a: Seq<Seq<char>>, b: Seq<Seq<char>>)
    requires
        floats_at(ctx, k, a + b),
    ensures
        floats_at(ctx, k, a),
        floats_at(ctx, k + a.len(), b),
{
    assert forall|i: int| 0 <= i < a.len() implies ctx.floats[k + i] == Some(#[trigger] a[i]) by {
        assert((a + b)[i] == a[i]);
    }
    assert forall|i: int| 0 <= i < b.len() implies ctx.floats[k + a.len() + i] == Some(#[trigger] b[i]) by {
        assert((a + b)[a.len() + i] == b[i]);
    }
}

/// The first character a value is written with.
pub open spec fn opens_value(c: char) -> bool {
    c == 'n' || c == 't' || c == 'f' || c == '"' || c == '[' || c == '{' || c == '-' || is_digit(c)
}

/// A value's text is not empty, and opens with the character that tells
/// its kind.
pub proof fn lemma_render_opens(v: JsonValue, layout: Layout, d: nat)
    requires
        json_wf(v),
    ensures
        render(v, layout, d).len() > 0,
        opens_value(render(v, layout, d)[0]),
        match v {
            JsonValue::Null => render(v, layout, d)[0] == 'n',
            JsonValue::Bool(b) => render(v, layout, d)[0] == if b { 't' } else { 'f' },
            JsonValue::Number(_) => render(v, layout, d)[0] == '-' || is_digit(render(v, layout, d)[0]),
            JsonValue::String(_) => render(v, layout, d)[0] == '"',
            JsonValue::Array(_) => render(v, layout, d)[0] == '[',
            JsonValue::Object(_) => render(v, layout, d)[0] == '{',
        },
{
    reveal_strlit("null");
    reveal_strlit("true");
    reveal_strlit("false");
    match v {
        JsonValue::Number(n) => {
            match n {
                JsonNumber::PosInt(x) => {
                    lemma_decimal(x as nat);
                },
                JsonNumber::NegInt(x) => {},
                JsonNumber::Float(t) => {
                    let (sign, k) = lemma_float_text_shape(t);
                    let text = number_text(n);
                    if sign == 0 {
                        assert(text[0] == text.subrange(sign, sign + k)[0]);
                    }
                },
            }
        },
        _ => {},
    }
}

/// Whether the object entries `acc` are the first `i` members as written.
pub open spec fn written_members(
    entries: Seq<(Seq<char>, JsonValue)>,
    order: Seq<int>,
    layout: Layout,
    from: int,
    to: int,
) -> Seq<(Seq<char>, JsonValue)> {
    Seq::new(
        (to - from) as nat,
        |j: int|
            if 0 <= from + j < order.len() && 0 <= order[from + j] < entries.len() {
                (entries[order[from + j]].0, as_written(entries[order[from + j]].1, layout))
            } else {
                (Seq::empty(), JsonValue::Null)
            },
    )
}

/// The elements of an array from `from` to `to`, as written.
pub open spec fn written_items(items: Seq<JsonValue>, layout: Layout, from: int, to: int) -> Seq<
    JsonValue,
> {
    Seq::new(
        (to - from) as nat,
        |j: int|
            if 0 <= from + j < items.len() {
                as_written(items[from + j], layout)
            } else {
                JsonValue::Null
            },
    )
}



} // verus!
