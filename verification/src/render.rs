//! The writers' output as spec functions: what each value renders to.

use vstd::prelude::*;

use crate::value::{JsonNumber, JsonValue};

verus! {

/// How a value is laid out.
pub struct Layout {
    /// `None` for compact output; `Some(n)` for `n` spaces per level.
    pub indent: Option<nat>,
    /// Whether object keys are sorted.
    pub sorted: bool,
}

/// The lowercase hex digit for `d < 16`.
pub open spec fn hex_char(d: nat) -> char {
    if d < 10 {
        ((d + '0' as u32) as u32) as char
    } else {
        ((d - 10 + 'a' as u32) as u32) as char
    }
}

/// How one character of a string is written between the quotes: exactly
/// what the grammar requires escaped is escaped.
pub open spec fn escape_char(c: char) -> Seq<char> {
    if c == '"' {
        seq!['\\', '"']
    } else if c == '\\' {
        seq!['\\', '\\']
    } else if c == '\u{8}' {
        seq!['\\', 'b']
    } else if c == '\u{c}' {
        seq!['\\', 'f']
    } else if c == '\n' {
        seq!['\\', 'n']
    } else if c == '\r' {
        seq!['\\', 'r']
    } else if c == '\t' {
        seq!['\\', 't']
    } else if (c as u32) < 0x20 {
        seq!['\\', 'u', '0', '0', hex_char((c as u32 / 16) as nat), hex_char((c as u32 % 16) as nat)]
    } else {
        seq![c]
    }
}

/// The escaped body of a string.
pub open spec fn escaped(s: Seq<char>) -> Seq<char>
    decreases s.len(),
{
    if s.len() == 0 {
        Seq::empty()
    } else {
        escaped(s.drop_last()) + escape_char(s.last())
    }
}

/// A string literal.
pub open spec fn quoted(s: Seq<char>) -> Seq<char> {
    seq!['"'] + escaped(s) + seq!['"']
}

/// The decimal digits of `n`.
pub open spec fn decimal(n: nat) -> Seq<char>
    decreases n,
{
    if n < 10 {
        seq![hex_char(n)]
    } else {
        decimal(n / 10).push(hex_char(n % 10))
    }
}

/// Whether a float's text already reads as a float.
pub open spec fn reads_as_float(t: Seq<char>) -> bool {
    t.contains('.') || t.contains('e') || t.contains('E')
}

/// A number's text. A float keeps a decimal point, so that it reads back
/// as a float.
pub open spec fn number_text(n: JsonNumber) -> Seq<char> {
    match n {
        JsonNumber::PosInt(v) => decimal(v as nat),
        JsonNumber::NegInt(v) => if v < 0 {
            seq!['-'] + decimal((0 - v) as nat)
        } else {
            decimal(v as nat)
        },
        JsonNumber::Float(t) => if reads_as_float(t) {
            t
        } else {
            t + seq!['.', '0']
        },
    }
}

/// `n` spaces.
pub open spec fn spaces(n: nat) -> Seq<char>
    decreases n,
{
    if n == 0 {
        Seq::empty()
    } else {
        spaces((n - 1) as nat).push(' ')
    }
}

/// A line break before something at `depth`: nothing when compact.
pub open spec fn line_break(layout: Layout, depth: nat) -> Seq<char> {
    match layout.indent {
        None => Seq::empty(),
        Some(width) => seq!['\n'] + spaces(depth * width),
    }
}

/// The comma before the `i`-th element.
pub open spec fn separator(i: int) -> Seq<char> {
    if i > 0 {
        seq![',']
    } else {
        Seq::empty()
    }
}

/// An object key and its colon.
pub open spec fn key_text(layout: Layout, k: Seq<char>) -> Seq<char> {
    quoted(k) + seq![':'] + if layout.indent is Some {
        seq![' ']
    } else {
        Seq::empty()
    }
}

/// Whether `a` sorts strictly before `b`, by Unicode scalar value — the same
/// order as UTF-8 byte order.
pub open spec fn key_lt(a: Seq<char>, b: Seq<char>) -> bool
    decreases a.len(),
{
    if a.len() == 0 {
        b.len() > 0
    } else if b.len() == 0 {
        false
    } else if a[0] != b[0] {
        (a[0] as u32) < (b[0] as u32)
    } else {
        key_lt(a.drop_first(), b.drop_first())
    }
}

/// Where index `i` goes in `order`: before the first entry whose key sorts
/// after its key.
pub open spec fn insert_position(
    entries: Seq<(Seq<char>, JsonValue)>,
    order: Seq<int>,
    i: int,
) -> int
    decreases order.len(),
{
    if order.len() == 0 {
        0
    } else if key_lt(entries[i].0, entries[order[0]].0) {
        0
    } else {
        1 + insert_position(entries, order.drop_first(), i)
    }
}

/// The first `n` indices of `entries`, sorted by key.
pub open spec fn sorted_order(entries: Seq<(Seq<char>, JsonValue)>, n: nat) -> Seq<int>
    decreases n,
{
    if n == 0 {
        Seq::empty()
    } else {
        let order = sorted_order(entries, (n - 1) as nat);
        order.insert(insert_position(entries, order, n - 1), n - 1)
    }
}

/// The order in which an object's entries are written.
pub open spec fn member_order(layout: Layout, entries: Seq<(Seq<char>, JsonValue)>) -> Seq<int> {
    if layout.sorted {
        sorted_order(entries, entries.len())
    } else {
        Seq::new(entries.len(), |i: int| i)
    }
}

/// A value's text, at nesting `depth`.
pub open spec fn render(v: JsonValue, layout: Layout, depth: nat) -> Seq<char>
    decreases v, 0nat,
{
    match v {
        JsonValue::Null => "null"@,
        JsonValue::Bool(b) => if b {
            "true"@
        } else {
            "false"@
        },
        JsonValue::Number(n) => number_text(n),
        JsonValue::String(s) => quoted(s),
        JsonValue::Array(items) => if items.len() == 0 {
            seq!['[', ']']
        } else {
            seq!['['] + items_text(items, layout, depth, 0) + line_break(layout, depth) + seq![']']
        },
        JsonValue::Object(entries) => if entries.len() == 0 {
            seq!['{', '}']
        } else {
            seq!['{'] + members_text(entries, member_order(layout, entries), layout, depth, 0)
                + line_break(layout, depth) + seq!['}']
        },
    }
}

/// The elements of an array from the `i`-th on.
pub open spec fn items_text(items: Seq<JsonValue>, layout: Layout, depth: nat, i: int) -> Seq<char>
    decreases items, items.len() - i,
{
    if i < 0 || i >= items.len() {
        Seq::empty()
    } else {
        separator(i) + line_break(layout, depth + 1) + render(items[i], layout, depth + 1)
            + items_text(items, layout, depth, i + 1)
    }
}

/// The members of an object, taken in `order`, from the `i`-th on.
pub open spec fn members_text(
    entries: Seq<(Seq<char>, JsonValue)>,
    order: Seq<int>,
    layout: Layout,
    depth: nat,
    i: int,
) -> Seq<char>
    decreases entries, order.len() - i,
{
    if i < 0 || i >= order.len() || order[i] < 0 || order[i] >= entries.len() {
        Seq::empty()
    } else {
        let (k, v) = entries[order[i]];
        separator(i) + line_break(layout, depth + 1) + key_text(layout, k) + render(
            v,
            layout,
            depth + 1,
        ) + members_text(entries, order, layout, depth, i + 1)
    }
}


/// The work a writer does for a value: every node, every separator and
/// every line break, counted over the order the members are written in.
pub open spec fn render_size(v: JsonValue, layout: Layout) -> nat
    decreases v, 0nat,
{
    match v {
        JsonValue::Array(items) => 3 + items_size(items, layout, 0),
        JsonValue::Object(entries) => 3 + members_size(
            entries,
            member_order(layout, entries),
            layout,
            0,
        ),
        _ => 1,
    }
}

/// The work for the elements of an array from the `i`-th on.
pub open spec fn items_size(items: Seq<JsonValue>, layout: Layout, i: int) -> nat
    decreases items, items.len() - i,
{
    if i < 0 || i >= items.len() {
        0
    } else {
        render_size(items[i], layout) + 2 + items_size(items, layout, i + 1)
    }
}

/// The work for the members of an object in `order` from the `i`-th on.
pub open spec fn members_size(
    entries: Seq<(Seq<char>, JsonValue)>,
    order: Seq<int>,
    layout: Layout,
    i: int,
) -> nat
    decreases entries, order.len() - i,
{
    if i < 0 || i >= order.len() || order[i] < 0 || order[i] >= entries.len() {
        0
    } else {
        render_size(entries[order[i]].1, layout) + 3 + members_size(entries, order, layout, i + 1)
    }
}

/// How deeply containers nest in a value: 0 for a scalar.
pub open spec fn json_depth(v: JsonValue) -> nat
    decreases v, 0nat,
{
    match v {
        JsonValue::Array(items) => 1 + items_depth(items, 0),
        JsonValue::Object(entries) => 1 + entries_depth(entries, 0),
        _ => 0,
    }
}

/// The deepest element of an array from the `i`-th on.
pub open spec fn items_depth(items: Seq<JsonValue>, i: int) -> nat
    decreases items, items.len() - i,
{
    if i < 0 || i >= items.len() {
        0
    } else {
        let a = json_depth(items[i]);
        let b = items_depth(items, i + 1);
        if a >= b {
            a
        } else {
            b
        }
    }
}

/// The deepest value of an object from the `i`-th entry on.
pub open spec fn entries_depth(entries: Seq<(Seq<char>, JsonValue)>, i: int) -> nat
    decreases entries, entries.len() - i,
{
    if i < 0 || i >= entries.len() {
        0
    } else {
        let a = json_depth(entries[i].1);
        let b = entries_depth(entries, i + 1);
        if a >= b {
            a
        } else {
            b
        }
    }
}

/// An element is no deeper than the deepest from an earlier index.
pub proof fn lemma_items_depth(items: Seq<JsonValue>, i: int, k: int)
    requires
        0 <= i <= k < items.len(),
    ensures
        json_depth(items[k]) <= items_depth(items, i),
    decreases k - i,
{
    if i < k {
        lemma_items_depth(items, i + 1, k);
    }
}

/// A member is no deeper than the deepest from an earlier index.
pub proof fn lemma_entries_depth(entries: Seq<(Seq<char>, JsonValue)>, i: int, k: int)
    requires
        0 <= i <= k < entries.len(),
    ensures
        json_depth(entries[k].1) <= entries_depth(entries, i),
    decreases k - i,
{
    if i < k {
        lemma_entries_depth(entries, i + 1, k);
    }
}

/// Compact output does not depend on the depth it is written at.
pub proof fn lemma_render_depth_free(v: JsonValue, layout: Layout, d1: nat, d2: nat)
    requires
        layout.indent is None,
    ensures
        render(v, layout, d1) == render(v, layout, d2),
    decreases v, 0nat,
{
    match v {
        JsonValue::Array(items) => {
            lemma_items_depth_free(items, layout, d1, d2, 0);
        },
        JsonValue::Object(entries) => {
            lemma_members_depth_free(entries, member_order(layout, entries), layout, d1, d2, 0);
        },
        _ => {},
    }
}

/// Compact elements do not depend on the depth they are written at.
pub proof fn lemma_items_depth_free(items: Seq<JsonValue>, layout: Layout, d1: nat, d2: nat, i: int)
    requires
        layout.indent is None,
    ensures
        items_text(items, layout, d1, i) == items_text(items, layout, d2, i),
    decreases items, items.len() - i,
{
    if 0 <= i < items.len() {
        lemma_render_depth_free(items[i], layout, d1 + 1, d2 + 1);
        lemma_items_depth_free(items, layout, d1, d2, i + 1);
    }
}

/// Compact members do not depend on the depth they are written at.
pub proof fn lemma_members_depth_free(
    entries: Seq<(Seq<char>, JsonValue)>,
    order: Seq<int>,
    layout: Layout,
    d1: nat,
    d2: nat,
    i: int,
)
    requires
        layout.indent is None,
    ensures
        members_text(entries, order, layout, d1, i) == members_text(entries, order, layout, d2, i),
    decreases entries, order.len() - i,
{
    if 0 <= i < order.len() && 0 <= order[i] < entries.len() {
        lemma_render_depth_free(entries[order[i]].1, layout, d1 + 1, d2 + 1);
        lemma_members_depth_free(entries, order, layout, d1, d2, i + 1);
    }
}

// ---------------------------------------------------------------------------
// The order members are written in
// ---------------------------------------------------------------------------

/// Whether `order` lists each of `0..n` exactly once.
pub open spec fn is_permutation(order: Seq<int>, n: nat) -> bool {
    &&& order.len() == n
    &&& forall|j: int| 0 <= j < n ==> 0 <= #[trigger] order[j] < n
    &&& forall|a: int, b: int| 0 <= a < b < n ==> #[trigger] order[a] != #[trigger] order[b]
}

/// Where an index is inserted lies within the order.
proof fn lemma_insert_position_bounds(
    entries: Seq<(Seq<char>, JsonValue)>,
    order: Seq<int>,
    i: int,
)
    ensures
        0 <= insert_position(entries, order, i) <= order.len(),
    decreases order.len(),
{
    if order.len() > 0 {
        lemma_insert_position_bounds(entries, order.drop_first(), i);
    }
}

/// Sorting the first `n` indices permutes them.
pub proof fn lemma_sorted_order_permutation(entries: Seq<(Seq<char>, JsonValue)>, n: nat)
    ensures
        is_permutation(sorted_order(entries, n), n),
    decreases n,
{
    if n > 0 {
        let order = sorted_order(entries, (n - 1) as nat);
        lemma_sorted_order_permutation(entries, (n - 1) as nat);
        let pos = insert_position(entries, order, n - 1);
        lemma_insert_position_bounds(entries, order, n - 1);
        let o2 = order.insert(pos, n - 1);
        assert(sorted_order(entries, n) == o2);
        assert forall|j: int| 0 <= j < n implies 0 <= #[trigger] o2[j] < n by {
            if j < pos {
                assert(o2[j] == order[j]);
            } else if j > pos {
                assert(o2[j] == order[j - 1]);
            }
        }
        assert forall|a: int, b: int| 0 <= a < b < n implies #[trigger] o2[a] != #[trigger] o2[b] by {
            if b < pos {
                assert(o2[a] == order[a] && o2[b] == order[b]);
            } else if b == pos {
                assert(o2[a] == order[a]);
            } else if a < pos {
                assert(o2[a] == order[a] && o2[b] == order[b - 1]);
            } else if a == pos {
                assert(o2[b] == order[b - 1]);
            } else {
                assert(o2[a] == order[a - 1] && o2[b] == order[b - 1]);
            }
        }
    }
}

/// Every layout writes each member exactly once.
pub proof fn lemma_member_order(layout: Layout, entries: Seq<(Seq<char>, JsonValue)>)
    ensures
        is_permutation(member_order(layout, entries), entries.len()),
{
    if layout.sorted {
        lemma_sorted_order_permutation(entries, entries.len());
    }
}

} // verus!
