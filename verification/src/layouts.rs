//! The indented writer and the compact one write the same text but for
//! whitespace outside strings.

use vstd::prelude::*;

use crate::render::{
    escape_char, escaped, hex_char, items_text, key_text, line_break, member_order, members_text,
    number_text, quoted, render, separator, spaces,
};
use crate::value::{is_digit, is_float_rendering, JsonNumber, JsonValue};
use crate::write::{compact, pretty};
use crate::written::{lemma_decimal, lemma_float_text_shape, lemma_spaces};

verus! {

/// Whether every float in `v` is a rendering, as every `FloatText` is.
pub open spec fn floats_rendered(v: JsonValue) -> bool
    decreases v, 0nat,
{
    match v {
        JsonValue::Number(JsonNumber::Float(t)) => is_float_rendering(t),
        JsonValue::Array(items) => items_rendered(items, 0),
        JsonValue::Object(entries) => entries_rendered(entries, 0),
        _ => true,
    }
}

/// Whether every float in the elements of an array from the `i`-th on is a
/// rendering.
pub open spec fn items_rendered(items: Seq<JsonValue>, i: int) -> bool
    decreases items, items.len() - i,
{
    if i < 0 || i >= items.len() {
        true
    } else {
        floats_rendered(items[i]) && items_rendered(items, i + 1)
    }
}

/// Whether every float in the values of an object from the `i`-th on is a
/// rendering.
pub open spec fn entries_rendered(entries: Seq<(Seq<char>, JsonValue)>, i: int) -> bool
    decreases entries, entries.len() - i,
{
    if i < 0 || i >= entries.len() {
        true
    } else {
        floats_rendered(entries[i].1) && entries_rendered(entries, i + 1)
    }
}

proof fn lemma_items_rendered(items: Seq<JsonValue>, i: int, k: int)
    requires
        items_rendered(items, i),
        0 <= i <= k < items.len(),
    ensures
        floats_rendered(items[k]),
    decreases k - i,
{
    if i < k {
        lemma_items_rendered(items, i + 1, k);
    }
}

proof fn lemma_entries_rendered(entries: Seq<(Seq<char>, JsonValue)>, i: int, k: int)
    requires
        entries_rendered(entries, i),
        0 <= i <= k < entries.len(),
    ensures
        floats_rendered(entries[k].1),
    decreases k - i,
{
    if i < k {
        lemma_entries_rendered(entries, i + 1, k);
    }
}

/// Where a left-to-right scan of JSON text stands: outside any string,
/// inside one, or inside one just after a backslash.
pub enum Scan {
    Outside,
    Inside,
    Escaped,
}

/// The scan after one more character.
pub open spec fn scan_step(st: Scan, c: char) -> Scan {
    match st {
        Scan::Outside => if c == '"' {
            Scan::Inside
        } else {
            Scan::Outside
        },
        Scan::Inside => if c == '"' {
            Scan::Outside
        } else if c == '\\' {
            Scan::Escaped
        } else {
            Scan::Inside
        },
        Scan::Escaped => Scan::Inside,
    }
}

/// Whether a character is kept: all but a space or a line feed outside
/// strings.
pub open spec fn kept(st: Scan, c: char) -> bool {
    !(st is Outside && (c == ' ' || c == '\n'))
}

/// `s`, scanned from `st`, with every space and line feed outside strings
/// removed.
pub open spec fn strip_from(s: Seq<char>, st: Scan) -> Seq<char>
    decreases s.len(),
{
    if s.len() == 0 {
        Seq::empty()
    } else {
        (if kept(st, s[0]) {
            seq![s[0]]
        } else {
            Seq::empty()
        }) + strip_from(s.drop_first(), scan_step(st, s[0]))
    }
}

/// Where the scan of `s` from `st` ends.
pub open spec fn scan_end(s: Seq<char>, st: Scan) -> Scan
    decreases s.len(),
{
    if s.len() == 0 {
        st
    } else {
        scan_end(s.drop_first(), scan_step(st, s[0]))
    }
}

/// JSON text with every space and line feed outside strings removed.
pub open spec fn without_layout(s: Seq<char>) -> Seq<char> {
    strip_from(s, Scan::Outside)
}

/// Scanning a concatenation scans one part, then the other.
pub proof fn lemma_strip_append(a: Seq<char>, b: Seq<char>, st: Scan)
    ensures
        strip_from(a + b, st) == strip_from(a, st) + strip_from(b, scan_end(a, st)),
        scan_end(a + b, st) == scan_end(b, scan_end(a, st)),
    decreases a.len(),
{
    if a.len() == 0 {
        assert(a + b =~= b);
    } else {
        lemma_strip_append(a.drop_first(), b, scan_step(st, a[0]));
        assert((a + b).drop_first() =~= a.drop_first() + b);
        assert((a + b)[0] == a[0]);
    }
}

/// Two pieces of text scanned from outside strings, the first ending there.
proof fn lemma_join(a: Seq<char>, b: Seq<char>)
    requires
        scan_end(a, Scan::Outside) == Scan::Outside,
    ensures
        strip_from(a + b, Scan::Outside) == strip_from(a, Scan::Outside) + strip_from(
            b,
            Scan::Outside,
        ),
        scan_end(a + b, Scan::Outside) == scan_end(b, Scan::Outside),
{
    lemma_strip_append(a, b, Scan::Outside);
}

/// Text with no quote, space or line feed is kept whole and stays outside
/// strings.
proof fn lemma_plain(t: Seq<char>)
    requires
        forall|i: int| 0 <= i < t.len() ==> #[trigger] t[i] != '"' && t[i] != ' ' && t[i] != '\n',
    ensures
        strip_from(t, Scan::Outside) == t,
        scan_end(t, Scan::Outside) == Scan::Outside,
    decreases t.len(),
{
    if t.len() > 0 {
        assert forall|i: int| 0 <= i < t.drop_first().len() implies #[trigger] t.drop_first()[i]
            != '"' && t.drop_first()[i] != ' ' && t.drop_first()[i] != '\n' by {
            assert(t.drop_first()[i] == t[i + 1]);
        }
        lemma_plain(t.drop_first());
        assert(seq![t[0]] + t.drop_first() =~= t);
    }
}

/// Spaces and line feeds alone are removed whole.
proof fn lemma_blank(t: Seq<char>)
    requires
        forall|i: int| 0 <= i < t.len() ==> #[trigger] t[i] == ' ' || t[i] == '\n',
    ensures
        strip_from(t, Scan::Outside) == Seq::<char>::empty(),
        scan_end(t, Scan::Outside) == Scan::Outside,
    decreases t.len(),
{
    if t.len() > 0 {
        assert forall|i: int| 0 <= i < t.drop_first().len() implies #[trigger] t.drop_first()[i]
            == ' ' || t.drop_first()[i] == '\n' by {
            assert(t.drop_first()[i] == t[i + 1]);
        }
        lemma_blank(t.drop_first());
    }
}

/// An indented line break is removed whole.
proof fn lemma_break(w: nat, d: nat)
    ensures
        strip_from(line_break(pretty(w), d), Scan::Outside) == line_break(compact(), d),
        scan_end(line_break(pretty(w), d), Scan::Outside) == Scan::Outside,
{
    let t = line_break(pretty(w), d);
    lemma_spaces(d * w);
    assert forall|i: int| 0 <= i < t.len() implies #[trigger] t[i] == ' ' || t[i] == '\n' by {
        if i > 0 {
            assert(t[i] == spaces(d * w)[i - 1]);
        }
    }
    lemma_blank(t);
}

/// A hex digit is neither a quote nor a backslash.
proof fn lemma_hex_char_plain(d: nat)
    requires
        d < 16,
    ensures
        hex_char(d) != '"',
        hex_char(d) != '\\',
{
}

/// One escaped character, scanned inside a string, is kept whole and
/// leaves the scan inside the string.
proof fn lemma_escape_char_inside(c: char)
    ensures
        strip_from(escape_char(c), Scan::Inside) == escape_char(c),
        scan_end(escape_char(c), Scan::Inside) == Scan::Inside,
{
    let e = escape_char(c);
    if (c as u32) < 0x20 && c != '\u{8}' && c != '\u{c}' && c != '\n' && c != '\r' && c != '\t' {
        lemma_hex_char_plain((c as u32 / 16) as nat);
        lemma_hex_char_plain((c as u32 % 16) as nat);
    }
    reveal_with_fuel(strip_from, 7);
    reveal_with_fuel(scan_end, 7);
    if e.len() == 6 {
        assert(e.drop_first().drop_first().drop_first().drop_first().drop_first().drop_first()
            =~= Seq::<char>::empty());
    } else if e.len() == 2 {
        assert(e.drop_first().drop_first() =~= Seq::<char>::empty());
    } else {
        assert(e.drop_first() =~= Seq::<char>::empty());
    }
    assert(strip_from(e, Scan::Inside) =~= e);
}

/// The escaped body of a string, scanned inside it, is kept whole and
/// leaves the scan inside the string.
proof fn lemma_escaped_inside(s: Seq<char>)
    ensures
        strip_from(escaped(s), Scan::Inside) == escaped(s),
        scan_end(escaped(s), Scan::Inside) == Scan::Inside,
    decreases s.len(),
{
    if s.len() > 0 {
        lemma_escaped_inside(s.drop_last());
        lemma_escape_char_inside(s.last());
        lemma_strip_append(escaped(s.drop_last()), escape_char(s.last()), Scan::Inside);
    }
}

/// A string literal is kept whole and the scan ends outside it.
proof fn lemma_quoted(k: Seq<char>)
    ensures
        strip_from(quoted(k), Scan::Outside) == quoted(k),
        scan_end(quoted(k), Scan::Outside) == Scan::Outside,
{
    let open = seq!['"'];
    let body = escaped(k);
    lemma_escaped_inside(k);
    reveal_with_fuel(strip_from, 2);
    reveal_with_fuel(scan_end, 2);
    assert(open.drop_first() =~= Seq::<char>::empty());
    lemma_strip_append(open, body, Scan::Outside);
    lemma_strip_append(open + body, open, Scan::Outside);
    assert(quoted(k) == open + body + open);
}

/// A number's text is kept whole.
proof fn lemma_number_plain(n: JsonNumber)
    requires
        floats_rendered(JsonValue::Number(n)),
    ensures
        strip_from(number_text(n), Scan::Outside) == number_text(n),
        scan_end(number_text(n), Scan::Outside) == Scan::Outside,
{
    let t = number_text(n);
    match n {
        JsonNumber::PosInt(v) => {
            lemma_decimal(v as nat);
        },
        JsonNumber::NegInt(v) => {
            if v < 0 {
                lemma_decimal((0 - v) as nat);
                assert forall|i: int| 0 <= i < t.len() implies #[trigger] t[i] != '"' && t[i] != ' '
                    && t[i] != '\n' by {
                    if i > 0 {
                        assert(t[i] == decimal_of_neg(v)[i - 1]);
                    }
                }
            } else {
                lemma_decimal(v as nat);
            }
        },
        JsonNumber::Float(f) => {
            let (sign, k) = lemma_float_text_shape(f);
            assert forall|i: int| 0 <= i < t.len() implies #[trigger] t[i] != '"' && t[i] != ' '
                && t[i] != '\n' by {
                if sign <= i < sign + k {
                    assert(t[i] == t.subrange(sign, sign + k)[i - sign]);
                }
            }
        },
    }
    lemma_plain(t);
}

spec fn decimal_of_neg(v: i64) -> Seq<char> {
    crate::render::decimal((0 - v) as nat)
}

/// Without its layout, an indented value's text is its compact text.
pub proof fn lemma_value_without_layout(v: JsonValue, w: nat, d: nat)
    requires
        floats_rendered(v),
    ensures
        strip_from(render(v, pretty(w), d), Scan::Outside) == render(v, compact(), d),
        scan_end(render(v, pretty(w), d), Scan::Outside) == Scan::Outside,
    decreases v, 1nat, 0int,
{
    let t = render(v, pretty(w), d);
    match v {
        JsonValue::Null => {
            reveal_strlit("null");
            lemma_plain(t);
        },
        JsonValue::Bool(b) => {
            reveal_strlit("true");
            reveal_strlit("false");
            lemma_plain(t);
        },
        JsonValue::Number(n) => {
            lemma_number_plain(n);
        },
        JsonValue::String(k) => {
            lemma_quoted(k);
        },
        JsonValue::Array(items) => {
            if items.len() == 0 {
                lemma_plain(t);
            } else {
                let open = seq!['['];
                let close = seq![']'];
                let body = items_text(items, pretty(w), d, 0);
                lemma_plain(open);
                lemma_plain(close);
                lemma_items_without_layout(items, w, d, 0);
                lemma_break(w, d);
                lemma_join(open, body);
                lemma_join(open + body, line_break(pretty(w), d));
                lemma_join(open + body + line_break(pretty(w), d), close);
                assert(line_break(compact(), d) =~= Seq::<char>::empty());
                assert(render(v, compact(), d) =~= open + items_text(items, compact(), d, 0)
                    + line_break(compact(), d) + close);
            }
        },
        JsonValue::Object(entries) => {
            if entries.len() == 0 {
                lemma_plain(t);
            } else {
                let open = seq!['{'];
                let close = seq!['}'];
                let body = members_text(entries, member_order(pretty(w), entries), pretty(w), d, 0);
                lemma_plain(open);
                lemma_plain(close);
                lemma_members_without_layout(entries, w, d, 0);
                lemma_break(w, d);
                lemma_join(open, body);
                lemma_join(open + body, line_break(pretty(w), d));
                lemma_join(open + body + line_break(pretty(w), d), close);
                assert(line_break(compact(), d) =~= Seq::<char>::empty());
                assert(member_order(pretty(w), entries) == member_order(compact(), entries));
                assert(render(v, compact(), d) =~= open + members_text(
                    entries,
                    member_order(compact(), entries),
                    compact(),
                    d,
                    0,
                ) + line_break(compact(), d) + close);
            }
        },
    }
}

/// The separator before an element or member is kept.
proof fn lemma_separator(i: int)
    ensures
        strip_from(separator(i), Scan::Outside) == separator(i),
        scan_end(separator(i), Scan::Outside) == Scan::Outside,
{
    lemma_plain(separator(i));
}

/// The elements of an array from the `i`-th on, without their layout.
proof fn lemma_items_without_layout(items: Seq<JsonValue>, w: nat, d: nat, i: int)
    requires
        floats_rendered(JsonValue::Array(items)),
        0 <= i <= items.len(),
    ensures
        strip_from(items_text(items, pretty(w), d, i), Scan::Outside) == items_text(
            items,
            compact(),
            d,
            i,
        ),
        scan_end(items_text(items, pretty(w), d, i), Scan::Outside) == Scan::Outside,
    decreases items, 0nat, items.len() - i,
{
    if i < items.len() {
        let sep = separator(i);
        let lb = line_break(pretty(w), d + 1);
        let r = render(items[i], pretty(w), d + 1);
        let rest = items_text(items, pretty(w), d, i + 1);
        lemma_items_rendered(items, 0, i);
        lemma_separator(i);
        lemma_break(w, d + 1);
        lemma_value_without_layout(items[i], w, d + 1);
        lemma_items_without_layout(items, w, d, i + 1);
        lemma_join(sep, lb);
        lemma_join(sep + lb, r);
        lemma_join(sep + lb + r, rest);
        assert(line_break(compact(), d + 1) =~= Seq::<char>::empty());
        assert(items_text(items, compact(), d, i) =~= sep + render(items[i], compact(), d + 1)
            + items_text(items, compact(), d, i + 1));
    } else {
        assert(strip_from(Seq::<char>::empty(), Scan::Outside) == Seq::<char>::empty());
    }
}

/// An indented key is its compact key once its space is removed.
proof fn lemma_key(k: Seq<char>, w: nat)
    ensures
        strip_from(key_text(pretty(w), k), Scan::Outside) == key_text(compact(), k),
        scan_end(key_text(pretty(w), k), Scan::Outside) == Scan::Outside,
{
    let colon = seq![':'];
    let space = seq![' '];
    lemma_quoted(k);
    lemma_plain(colon);
    lemma_blank(space);
    lemma_join(quoted(k), colon);
    lemma_join(quoted(k) + colon, space);
    assert(key_text(compact(), k) =~= quoted(k) + colon);
}

/// The members of an object from the `i`-th on, without their layout.
proof fn lemma_members_without_layout(
    entries: Seq<(Seq<char>, JsonValue)>,
    w: nat,
    d: nat,
    i: int,
)
    requires
        floats_rendered(JsonValue::Object(entries)),
        0 <= i <= entries.len(),
    ensures
        strip_from(
            members_text(entries, member_order(pretty(w), entries), pretty(w), d, i),
            Scan::Outside,
        ) == members_text(entries, member_order(compact(), entries), compact(), d, i),
        scan_end(
            members_text(entries, member_order(pretty(w), entries), pretty(w), d, i),
            Scan::Outside,
        ) == Scan::Outside,
    decreases entries, 0nat, entries.len() - i,
{
    let order = member_order(pretty(w), entries);
    assert(order == member_order(compact(), entries));
    if i < entries.len() {
        assert(order[i] == i);
        let sep = separator(i);
        let lb = line_break(pretty(w), d + 1);
        let kt = key_text(pretty(w), entries[i].0);
        let r = render(entries[i].1, pretty(w), d + 1);
        let rest = members_text(entries, order, pretty(w), d, i + 1);
        lemma_entries_rendered(entries, 0, i);
        lemma_separator(i);
        lemma_break(w, d + 1);
        lemma_key(entries[i].0, w);
        lemma_value_without_layout(entries[i].1, w, d + 1);
        lemma_members_without_layout(entries, w, d, i + 1);
        lemma_join(sep, lb);
        lemma_join(sep + lb, kt);
        lemma_join(sep + lb + kt, r);
        lemma_join(sep + lb + kt + r, rest);
        assert(line_break(compact(), d + 1) =~= Seq::<char>::empty());
        assert(members_text(entries, order, compact(), d, i) =~= sep + key_text(
            compact(),
            entries[i].0,
        ) + render(entries[i].1, compact(), d + 1) + members_text(
            entries,
            order,
            compact(),
            d,
            i + 1,
        ));
    } else {
        assert(strip_from(Seq::<char>::empty(), Scan::Outside) == Seq::<char>::empty());
    }
}

/// The indented writer writes the compact text and whitespace: removing
/// every space and line feed outside strings from `to_string_pretty`'s
/// output gives `to_string`'s. This holds of every value whose floats are
/// renderings, which is every [`Value`](crate::Value)'s model: a
/// `FloatText` always holds one.
pub proof fn law_pretty_is_compact_with_whitespace(v: JsonValue, w: nat)
    requires
        floats_rendered(v),
    ensures
        without_layout(render(v, pretty(w), 0)) == render(v, compact(), 0),
{
    lemma_value_without_layout(v, w, 0);
}

} // verus!
