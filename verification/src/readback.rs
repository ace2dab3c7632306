//! What a writer's output reads back as: the reader, run over the text a
//! writer produces, gives back the value, with each object's members in the
//! order they were written.

use vstd::prelude::*;

use crate::grammar::{
    document, is_ws, items_at, lemma_items_step, lemma_members_step, lemma_value_empty,
    lemma_value_open, members_at, skip_ws, string_at, value_at, Context, Fault, Read,
};
use crate::written::{
    as_written, ends_number, float_list, floats_at, items_floats, json_wf, lemma_entries_wf,
    lemma_floats_at_split, lemma_items_wf, lemma_literals_append, lemma_number_round_trip,
    lemma_render_opens, lemma_skip_break, lemma_skip_run, lemma_text_at_index, lemma_text_at_split,
    literals, members_floats, table, text_at, written_items, written_members,
};
use crate::escapes::lemma_string_round_trip;
use crate::render::{
    entries_depth, is_permutation, items_depth, items_text, json_depth, key_text,
    lemma_entries_depth, lemma_items_depth, lemma_member_order, line_break, member_order,
    members_text, quoted, render, separator, Layout,
};
use crate::parse::{context_of, floats_view, step_matches, ParseOptions, ParseStep};
use crate::value::{find_key, inserted, lemma_find_key_none, FloatText, JsonValue};

verus! {

/// The text after the `i`-th element of an array: the remaining elements,
/// the closing line break and the bracket.
pub open spec fn items_tail(items: Seq<JsonValue>, layout: Layout, d: nat, i: int) -> Seq<char> {
    items_text(items, layout, d, i) + line_break(layout, d) + seq![']']
}

/// The text after the `i`-th member of an object.
pub open spec fn members_tail(
    entries: Seq<(Seq<char>, JsonValue)>,
    order: Seq<int>,
    layout: Layout,
    d: nat,
    i: int,
) -> Seq<char> {
    members_text(entries, order, layout, d, i) + line_break(layout, d) + seq!['}']
}

// ---------------------------------------------------------------------------
// The shape of a writer's text
// ---------------------------------------------------------------------------

/// A closing line break and bracket: skipped to the bracket, and no number
/// continues into it.
proof fn lemma_tail_closes(s: Seq<char>, b: int, layout: Layout, d: nat, c: char)
    requires
        c == ']' || c == '}',
        text_at(s, b, line_break(layout, d) + seq![c]),
    ensures
        skip_ws(s, b) == b + line_break(layout, d).len(),
        s[b + line_break(layout, d).len()] == c,
        ends_number(s, b),
{
    let lb = line_break(layout, d);
    lemma_text_at_split(s, b, lb, seq![c]);
    lemma_text_at_index(s, b + lb.len(), seq![c], 0);
    lemma_skip_break(s, b, layout, d, b);
    if lb.len() > 0 {
        lemma_text_at_index(s, b, lb, 0);
    }
}

/// A non-empty array's text: its bracket, its first element and the rest.
proof fn lemma_array_text(s: Seq<char>, p: int, items: Seq<JsonValue>, layout: Layout, d: nat)
    requires
        items.len() > 0,
        text_at(s, p, render(JsonValue::Array(items), layout, d)),
    ensures
        s[p] == '[',
        text_at(s, p + 1, line_break(layout, d + 1)),
        text_at(s, p + 1 + line_break(layout, d + 1).len(), render(items[0], layout, d + 1)),
        text_at(
            s,
            p + 1 + line_break(layout, d + 1).len() + render(items[0], layout, d + 1).len(),
            items_tail(items, layout, d, 1),
        ),
        render(JsonValue::Array(items), layout, d).len() == 1 + line_break(layout, d + 1).len()
            + render(items[0], layout, d + 1).len() + items_tail(items, layout, d, 1).len(),
{
    let lb1 = line_break(layout, d + 1);
    let r0 = render(items[0], layout, d + 1);
    let tail = items_tail(items, layout, d, 1);
    let text = render(JsonValue::Array(items), layout, d);
    assert(items_text(items, layout, d, 0) == separator(0) + lb1 + r0 + items_text(
        items,
        layout,
        d,
        1,
    ));
    assert(separator(0) =~= Seq::<char>::empty());
    let later = items_text(items, layout, d, 1);
    let close = line_break(layout, d) + seq![']'];
    assert(text == seq!['['] + items_text(items, layout, d, 0) + close);
    assert(items_text(items, layout, d, 0) =~= lb1 + r0 + later);
    assert(tail =~= later + close);
    assert(text =~= seq!['['] + (lb1 + (r0 + tail)));
    lemma_text_at_split(s, p, seq!['['], lb1 + (r0 + tail));
    lemma_text_at_split(s, p + 1, lb1, r0 + tail);
    lemma_text_at_split(s, p + 1 + lb1.len(), r0, tail);
    lemma_text_at_index(s, p, seq!['['], 0);
}

/// The text after an element that is not the last: a comma, the next
/// element and the rest.
proof fn lemma_items_next(s: Seq<char>, items: Seq<JsonValue>, layout: Layout, d: nat, i: int, b: int)
    requires
        0 <= i,
        i + 1 < items.len(),
        text_at(s, b, items_tail(items, layout, d, i + 1)),
    ensures
        s[b] == ',',
        ends_number(s, b),
        text_at(s, b + 1, line_break(layout, d + 1)),
        text_at(s, b + 1 + line_break(layout, d + 1).len(), render(items[i + 1], layout, d + 1)),
        text_at(
            s,
            b + 1 + line_break(layout, d + 1).len() + render(items[i + 1], layout, d + 1).len(),
            items_tail(items, layout, d, i + 2),
        ),
        items_tail(items, layout, d, i + 1).len() == 1 + line_break(layout, d + 1).len()
            + render(items[i + 1], layout, d + 1).len() + items_tail(items, layout, d, i + 2).len(),
{
    let lb1 = line_break(layout, d + 1);
    let r1 = render(items[i + 1], layout, d + 1);
    let tail = items_tail(items, layout, d, i + 1);
    let tail2 = items_tail(items, layout, d, i + 2);
    assert(items_text(items, layout, d, i + 1) == separator(i + 1) + lb1 + r1 + items_text(
        items,
        layout,
        d,
        i + 2,
    ));
    assert(tail =~= seq![','] + (lb1 + (r1 + tail2)));
    lemma_text_at_split(s, b, seq![','], lb1 + (r1 + tail2));
    lemma_text_at_split(s, b + 1, lb1, r1 + tail2);
    lemma_text_at_split(s, b + 1 + lb1.len(), r1, tail2);
    lemma_text_at_index(s, b, seq![','], 0);
}

/// The text after the last element.
proof fn lemma_items_last(s: Seq<char>, items: Seq<JsonValue>, layout: Layout, d: nat, b: int)
    requires
        text_at(s, b, items_tail(items, layout, d, items.len() as int)),
    ensures
        skip_ws(s, b) == b + line_break(layout, d).len(),
        s[b + line_break(layout, d).len()] == ']',
        ends_number(s, b),
        items_tail(items, layout, d, items.len() as int).len() == line_break(layout, d).len() + 1,
{
    assert(items_text(items, layout, d, items.len() as int) =~= Seq::<char>::empty());
    assert(items_tail(items, layout, d, items.len() as int) =~= line_break(layout, d) + seq![']']);
    lemma_tail_closes(s, b, layout, d, ']');
}

/// A non-empty object's text: its brace, its first member and the rest.
proof fn lemma_object_text(
    s: Seq<char>,
    p: int,
    entries: Seq<(Seq<char>, JsonValue)>,
    layout: Layout,
    d: nat,
)
    requires
        entries.len() > 0,
        text_at(s, p, render(JsonValue::Object(entries), layout, d)),
    ensures
        ({
            let order = member_order(layout, entries);
            let lb1 = line_break(layout, d + 1);
            let kt = key_text(layout, entries[order[0]].0);
            let r0 = render(entries[order[0]].1, layout, d + 1);
            let tail = members_tail(entries, order, layout, d, 1);
            &&& s[p] == '{'
            &&& text_at(s, p + 1, lb1)
            &&& text_at(s, p + 1 + lb1.len(), kt)
            &&& text_at(s, p + 1 + lb1.len() + kt.len(), r0)
            &&& text_at(s, p + 1 + lb1.len() + kt.len() + r0.len(), tail)
            &&& render(JsonValue::Object(entries), layout, d).len() == 1 + lb1.len() + kt.len()
                + r0.len() + tail.len()
        }),
{
    let order = member_order(layout, entries);
    lemma_member_order(layout, entries);
    let lb1 = line_break(layout, d + 1);
    let kt = key_text(layout, entries[order[0]].0);
    let r0 = render(entries[order[0]].1, layout, d + 1);
    let tail = members_tail(entries, order, layout, d, 1);
    let text = render(JsonValue::Object(entries), layout, d);
    assert(0 <= order[0] < entries.len());
    assert(members_text(entries, order, layout, d, 0) == separator(0) + lb1 + kt + r0
        + members_text(entries, order, layout, d, 1));
    assert(separator(0) =~= Seq::<char>::empty());
    let later = members_text(entries, order, layout, d, 1);
    let close = line_break(layout, d) + seq!['}'];
    assert(text == seq!['{'] + members_text(entries, order, layout, d, 0) + close);
    assert(members_text(entries, order, layout, d, 0) =~= lb1 + kt + r0 + later);
    assert(tail =~= later + close);
    assert(text =~= seq!['{'] + (lb1 + (kt + (r0 + tail))));
    lemma_text_at_split(s, p, seq!['{'], lb1 + (kt + (r0 + tail)));
    lemma_text_at_split(s, p + 1, lb1, kt + (r0 + tail));
    lemma_text_at_split(s, p + 1 + lb1.len(), kt, r0 + tail);
    lemma_text_at_split(s, p + 1 + lb1.len() + kt.len(), r0, tail);
    lemma_text_at_index(s, p, seq!['{'], 0);
}

/// The text after a member that is not the last: a comma, the next member
/// and the rest.
proof fn lemma_members_next(
    s: Seq<char>,
    entries: Seq<(Seq<char>, JsonValue)>,
    order: Seq<int>,
    layout: Layout,
    d: nat,
    i: int,
    b: int,
)
    requires
        is_permutation(order, entries.len()),
        0 <= i,
        i + 1 < entries.len(),
        text_at(s, b, members_tail(entries, order, layout, d, i + 1)),
    ensures
        ({
            let lb1 = line_break(layout, d + 1);
            let kt = key_text(layout, entries[order[i + 1]].0);
            let r1 = render(entries[order[i + 1]].1, layout, d + 1);
            let tail2 = members_tail(entries, order, layout, d, i + 2);
            &&& s[b] == ','
            &&& ends_number(s, b)
            &&& text_at(s, b + 1, lb1)
            &&& text_at(s, b + 1 + lb1.len(), kt)
            &&& text_at(s, b + 1 + lb1.len() + kt.len(), r1)
            &&& text_at(s, b + 1 + lb1.len() + kt.len() + r1.len(), tail2)
            &&& members_tail(entries, order, layout, d, i + 1).len() == 1 + lb1.len() + kt.len()
                + r1.len() + tail2.len()
        }),
{
    let lb1 = line_break(layout, d + 1);
    let kt = key_text(layout, entries[order[i + 1]].0);
    let r1 = render(entries[order[i + 1]].1, layout, d + 1);
    let tail = members_tail(entries, order, layout, d, i + 1);
    let tail2 = members_tail(entries, order, layout, d, i + 2);
    assert(0 <= order[i + 1] < entries.len());
    assert(members_text(entries, order, layout, d, i + 1) == separator(i + 1) + lb1 + kt + r1
        + members_text(entries, order, layout, d, i + 2));
    assert(tail =~= seq![','] + (lb1 + (kt + (r1 + tail2))));
    lemma_text_at_split(s, b, seq![','], lb1 + (kt + (r1 + tail2)));
    lemma_text_at_split(s, b + 1, lb1, kt + (r1 + tail2));
    lemma_text_at_split(s, b + 1 + lb1.len(), kt, r1 + tail2);
    lemma_text_at_split(s, b + 1 + lb1.len() + kt.len(), r1, tail2);
    lemma_text_at_index(s, b, seq![','], 0);
}

/// The text after the last member.
proof fn lemma_members_last(
    s: Seq<char>,
    entries: Seq<(Seq<char>, JsonValue)>,
    order: Seq<int>,
    layout: Layout,
    d: nat,
    b: int,
)
    requires
        order.len() == entries.len(),
        text_at(s, b, members_tail(entries, order, layout, d, entries.len() as int)),
    ensures
        skip_ws(s, b) == b + line_break(layout, d).len(),
        s[b + line_break(layout, d).len()] == '}',
        ends_number(s, b),
        members_tail(entries, order, layout, d, entries.len() as int).len() == line_break(
            layout,
            d,
        ).len() + 1,
{
    let n = entries.len() as int;
    assert(members_text(entries, order, layout, d, n) =~= Seq::<char>::empty());
    assert(members_tail(entries, order, layout, d, n) =~= line_break(layout, d) + seq!['}']);
    lemma_tail_closes(s, b, layout, d, '}');
}

/// A key and its colon read back as the key, up to the value after them.
proof fn lemma_key_reads(s: Seq<char>, q: int, layout: Layout, k: Seq<char>)
    requires
        text_at(s, q, key_text(layout, k)),
        q + key_text(layout, k).len() < s.len(),
        !is_ws(s[q + key_text(layout, k).len()]),
    ensures
        s[q] == '"',
        string_at(s, q) == Ok::<(Seq<char>, int), Fault>((k, q + quoted(k).len())),
        q < q + quoted(k).len() < s.len(),
        s[q + quoted(k).len()] == ':',
        skip_ws(s, q + quoted(k).len()) == q + quoted(k).len(),
        skip_ws(s, q + quoted(k).len() + 1) == q + key_text(layout, k).len(),
{
    let sp: Seq<char> = if layout.indent is Some {
        seq![' ']
    } else {
        Seq::empty()
    };
    let kt = key_text(layout, k);
    let r = q + quoted(k).len();
    assert(kt == quoted(k) + seq![':'] + sp);
    lemma_text_at_split(s, q, quoted(k) + seq![':'], sp);
    lemma_text_at_split(s, q, quoted(k), seq![':']);
    lemma_text_at_index(s, r, seq![':'], 0);
    lemma_text_at_index(s, q, quoted(k), 0);
    lemma_string_round_trip(s, q, k);
    assert forall|j: int| r + 1 <= j < r + 1 + sp.len() implies is_ws(#[trigger] s[j]) by {
        lemma_text_at_index(s, r + 1, sp, j - r - 1);
    }
    lemma_skip_run(s, r + 1, r + 1 + sp.len(), r + 1);
}

/// The elements of a well-formed array are well formed.
proof fn lemma_wf_item(items: Seq<JsonValue>, i: int)
    requires
        json_wf(JsonValue::Array(items)),
        0 <= i < items.len(),
    ensures
        json_wf(items[i]),
{
    lemma_items_wf(items, 0, i);
}

// ---------------------------------------------------------------------------
// Reading it back
// ---------------------------------------------------------------------------

/// A value's text reads back as the value as written.
pub proof fn lemma_value_round_trip(
    ctx: Context,
    p: int,
    v: JsonValue,
    layout: Layout,
    d: nat,
    depth: nat,
    lits: Seq<Seq<char>>,
)
    requires
        json_wf(v),
        text_at(ctx.s, p, render(v, layout, d)),
        ends_number(ctx.s, p + render(v, layout, d).len()),
        depth + json_depth(v) <= ctx.max_depth,
        floats_at(ctx, lits.len() as int, float_list(v, layout)),
    ensures
        value_at(ctx, p, depth, lits) == Read::Done(
            as_written(v, layout),
            p + render(v, layout, d).len(),
            lits + literals(float_list(v, layout)),
        ),
    decreases v, 0nat, 0int,
{
    let s = ctx.s;
    let text = render(v, layout, d);
    lemma_render_opens(v, layout, d);
    lemma_text_at_index(s, p, text, 0);
    assert(literals(Seq::<Seq<char>>::empty()) =~= Seq::<Seq<char>>::empty());
    assert(lits + Seq::<Seq<char>>::empty() =~= lits);
    match v {
        JsonValue::Null => {
            reveal_strlit("null");
        },
        JsonValue::Bool(b) => {
            reveal_strlit("true");
            reveal_strlit("false");
        },
        JsonValue::Number(n) => {
            lemma_number_round_trip(ctx, p, n, lits);
            if n is Float {
                assert(literals(seq![n->Float_0]) =~= seq![text]);
                assert(lits.push(text) =~= lits + seq![text]);
            }
        },
        JsonValue::String(t) => {
            lemma_string_round_trip(s, p, t);
        },
        JsonValue::Array(items) => {
            lemma_array_round_trip(ctx, p, items, layout, d, depth, lits);
        },
        JsonValue::Object(entries) => {
            lemma_object_round_trip(ctx, p, entries, layout, d, depth, lits);
        },
    }
}

/// An array's text reads back as the array as written.
#[verifier::rlimit(100)]
#[verifier::spinoff_prover]
proof fn lemma_array_round_trip(
    ctx: Context,
    p: int,
    items: Seq<JsonValue>,
    layout: Layout,
    d: nat,
    depth: nat,
    lits: Seq<Seq<char>>,
)
    requires
        json_wf(JsonValue::Array(items)),
        text_at(ctx.s, p, render(JsonValue::Array(items), layout, d)),
        depth + json_depth(JsonValue::Array(items)) <= ctx.max_depth,
        floats_at(ctx, lits.len() as int, float_list(JsonValue::Array(items), layout)),
    ensures
        value_at(ctx, p, depth, lits) == Read::Done(
            as_written(JsonValue::Array(items), layout),
            p + render(JsonValue::Array(items), layout, d).len(),
            lits + literals(float_list(JsonValue::Array(items), layout)),
        ),
    decreases items, 2nat, 0int,
{
    let s = ctx.s;
    let v = JsonValue::Array(items);
    let n = items.len() as int;
    assert(depth + 1 <= ctx.max_depth);
    assert(float_list(v, layout) == items_floats(items, layout, 0));
    if n == 0 {
        let text = render(v, layout, d);
        assert(text == seq!['[', ']']);
        lemma_text_at_index(s, p, text, 0);
        lemma_text_at_index(s, p, text, 1);
        lemma_value_empty(ctx, p, depth, lits);
        assert(as_written(v, layout)->Array_0 =~= Seq::<JsonValue>::empty());
        assert(items_floats(items, layout, 0) =~= Seq::<Seq<char>>::empty());
        assert(literals(Seq::<Seq<char>>::empty()) =~= Seq::<Seq<char>>::empty());
        assert(lits + Seq::<Seq<char>>::empty() =~= lits);
    } else {
        let lb1 = line_break(layout, d + 1);
        let r0 = render(items[0], layout, d + 1);
        lemma_array_text(s, p, items, layout, d);
        let q = p + 1 + lb1.len();
        lemma_wf_item(items, 0);
        lemma_render_opens(items[0], layout, d + 1);
        lemma_text_at_index(s, q, r0, 0);
        lemma_skip_break(s, p + 1, layout, d + 1, p + 1);
        lemma_value_open(ctx, p, depth, lits);
        assert(written_items(items, layout, 0, 0) =~= Seq::<JsonValue>::empty());
        lemma_items_round_trip(ctx, items, layout, d, depth + 1, 0, p + 1, q, lits);
        assert(written_items(items, layout, 0, n) =~= as_written(v, layout)->Array_0);
    }
}

/// An object's text reads back as the object as written.
#[verifier::rlimit(100)]
#[verifier::spinoff_prover]
proof fn lemma_object_round_trip(
    ctx: Context,
    p: int,
    entries: Seq<(Seq<char>, JsonValue)>,
    layout: Layout,
    d: nat,
    depth: nat,
    lits: Seq<Seq<char>>,
)
    requires
        json_wf(JsonValue::Object(entries)),
        text_at(ctx.s, p, render(JsonValue::Object(entries), layout, d)),
        depth + json_depth(JsonValue::Object(entries)) <= ctx.max_depth,
        floats_at(ctx, lits.len() as int, float_list(JsonValue::Object(entries), layout)),
    ensures
        value_at(ctx, p, depth, lits) == Read::Done(
            as_written(JsonValue::Object(entries), layout),
            p + render(JsonValue::Object(entries), layout, d).len(),
            lits + literals(float_list(JsonValue::Object(entries), layout)),
        ),
    decreases entries, 2nat, 0int,
{
    let s = ctx.s;
    let v = JsonValue::Object(entries);
    let order = member_order(layout, entries);
    lemma_member_order(layout, entries);
    let n = entries.len() as int;
    assert(depth + 1 <= ctx.max_depth);
    assert(float_list(v, layout) == members_floats(entries, order, layout, 0));
    if n == 0 {
        let text = render(v, layout, d);
        assert(text == seq!['{', '}']);
        lemma_text_at_index(s, p, text, 0);
        lemma_text_at_index(s, p, text, 1);
        lemma_value_empty(ctx, p, depth, lits);
        assert(as_written(v, layout)->Object_0 =~= Seq::<(Seq<char>, JsonValue)>::empty());
        assert(members_floats(entries, order, layout, 0) =~= Seq::<Seq<char>>::empty());
        assert(literals(Seq::<Seq<char>>::empty()) =~= Seq::<Seq<char>>::empty());
        assert(lits + Seq::<Seq<char>>::empty() =~= lits);
    } else {
        let lb1 = line_break(layout, d + 1);
        let kt = key_text(layout, entries[order[0]].0);
        lemma_object_text(s, p, entries, layout, d);
        let q = p + 1 + lb1.len();
        lemma_text_at_index(s, q, kt, 0);
        assert(kt[0] == '"');
        lemma_skip_break(s, p + 1, layout, d + 1, p + 1);
        lemma_value_open(ctx, p, depth, lits);
        assert(written_members(entries, order, layout, 0, 0) =~= Seq::<
            (Seq<char>, JsonValue),
        >::empty());
        lemma_members_round_trip(ctx, entries, order, layout, d, depth + 1, 0, p + 1, q, lits);
        assert(written_members(entries, order, layout, 0, n) =~= as_written(v, layout)->Object_0);
    }
}

/// The requirements for reading the elements of an array from the `i`-th
/// on, whose text starts at `a`, from `pos`.
pub open spec fn items_ready(
    ctx: Context,
    items: Seq<JsonValue>,
    layout: Layout,
    d: nat,
    depth: nat,
    i: int,
    a: int,
    pos: int,
    lits: Seq<Seq<char>>,
) -> bool {
    &&& json_wf(JsonValue::Array(items))
    &&& 0 <= i < items.len()
    &&& text_at(ctx.s, a, line_break(layout, d + 1))
    &&& text_at(ctx.s, a + line_break(layout, d + 1).len(), render(items[i], layout, d + 1))
    &&& text_at(
        ctx.s,
        a + line_break(layout, d + 1).len() + render(items[i], layout, d + 1).len(),
        items_tail(items, layout, d, i + 1),
    )
    &&& a <= pos <= a + line_break(layout, d + 1).len()
    &&& depth + items_depth(items, i) <= ctx.max_depth
    &&& floats_at(ctx, lits.len() as int, items_floats(items, layout, i))
}

/// The text of one element, from any position within the line break before
/// it: where its value stands, and what follows it.
#[verifier::spinoff_prover]
proof fn lemma_item_text(
    ctx: Context,
    items: Seq<JsonValue>,
    layout: Layout,
    d: nat,
    depth: nat,
    i: int,
    a: int,
    pos: int,
    lits: Seq<Seq<char>>,
)
    requires
        items_ready(ctx, items, layout, d, depth, i, a, pos, lits),
    ensures
        ({
            let s = ctx.s;
            let q = a + line_break(layout, d + 1).len();
            let b = q + render(items[i], layout, d + 1).len();
            &&& skip_ws(s, pos) == q
            &&& ends_number(s, b)
            &&& i + 1 < items.len() ==> {
                &&& s[b] == ','
                &&& text_at(s, b + 1, line_break(layout, d + 1))
                &&& text_at(
                    s,
                    b + 1 + line_break(layout, d + 1).len(),
                    render(items[i + 1], layout, d + 1),
                )
                &&& text_at(
                    s,
                    b + 1 + line_break(layout, d + 1).len() + render(
                        items[i + 1],
                        layout,
                        d + 1,
                    ).len(),
                    items_tail(items, layout, d, i + 2),
                )
                &&& items_tail(items, layout, d, i + 1).len() == 1 + line_break(layout, d + 1).len()
                    + render(items[i + 1], layout, d + 1).len() + items_tail(
                    items,
                    layout,
                    d,
                    i + 2,
                ).len()
            }
            &&& i + 1 == items.len() ==> {
                &&& skip_ws(s, b) == b + line_break(layout, d).len()
                &&& s[b + line_break(layout, d).len()] == ']'
                &&& items_tail(items, layout, d, i + 1).len() == line_break(layout, d).len() + 1
            }
        }),
{
    let s = ctx.s;
    let q = a + line_break(layout, d + 1).len();
    let ri = render(items[i], layout, d + 1);
    let b = q + ri.len();
    lemma_wf_item(items, i);
    lemma_render_opens(items[i], layout, d + 1);
    lemma_text_at_index(s, q, ri, 0);
    lemma_skip_break(s, a, layout, d + 1, pos);
    if i + 1 < items.len() {
        lemma_items_next(s, items, layout, d, i, b);
    } else {
        lemma_items_last(s, items, layout, d, b);
    }
}

/// How the floats of the elements from the `i`-th on split between the
/// `i`-th element and those after it.
proof fn lemma_item_floats(
    ctx: Context,
    items: Seq<JsonValue>,
    layout: Layout,
    i: int,
    lits: Seq<Seq<char>>,
)
    requires
        0 <= i < items.len(),
        floats_at(ctx, lits.len() as int, items_floats(items, layout, i)),
    ensures
        ({
            let fl = float_list(items[i], layout);
            let rest = items_floats(items, layout, i + 1);
            let l = lits + literals(fl);
            &&& floats_at(ctx, lits.len() as int, fl)
            &&& floats_at(ctx, l.len() as int, rest)
            &&& l + literals(rest) == lits + literals(items_floats(items, layout, i))
        }),
{
    let fl = float_list(items[i], layout);
    let rest = items_floats(items, layout, i + 1);
    assert(items_floats(items, layout, i) == fl + rest);
    lemma_floats_at_split(ctx, lits.len() as int, fl, rest);
    lemma_literals_append(fl, rest);
    assert((lits + literals(fl)) + literals(rest) =~= lits + literals(fl + rest));
}

/// After the `i`-th element, the reader stands ready for the next one.
proof fn lemma_items_next_ready(
    ctx: Context,
    items: Seq<JsonValue>,
    layout: Layout,
    d: nat,
    depth: nat,
    i: int,
    a: int,
    pos: int,
    lits: Seq<Seq<char>>,
)
    requires
        items_ready(ctx, items, layout, d, depth, i, a, pos, lits),
        i + 1 < items.len(),
    ensures
        ({
            let b = a + line_break(layout, d + 1).len() + render(items[i], layout, d + 1).len();
            let l = lits + literals(float_list(items[i], layout));
            &&& skip_ws(ctx.s, b) == b
            &&& items_ready(ctx, items, layout, d, depth, i + 1, b + 1, b + 1, l)
        }),
{
    let b = a + line_break(layout, d + 1).len() + render(items[i], layout, d + 1).len();
    lemma_item_text(ctx, items, layout, d, depth, i, a, pos, lits);
    lemma_item_floats(ctx, items, layout, i, lits);
    assert(items_depth(items, i + 1) <= items_depth(items, i));
    assert(skip_ws(ctx.s, b) == b);
}

/// One element of an array read back: what the reader goes on with.
#[verifier::rlimit(50)]
#[verifier::spinoff_prover]
proof fn lemma_items_element(
    ctx: Context,
    items: Seq<JsonValue>,
    layout: Layout,
    d: nat,
    depth: nat,
    i: int,
    a: int,
    pos: int,
    lits: Seq<Seq<char>>,
)
    requires
        items_ready(ctx, items, layout, d, depth, i, a, pos, lits),
    ensures
        ({
            let b = a + line_break(layout, d + 1).len() + render(items[i], layout, d + 1).len();
            let l = lits + literals(float_list(items[i], layout));
            let acc2 = written_items(items, layout, 0, i + 1);
            &&& l + literals(items_floats(items, layout, i + 1)) == lits + literals(
                items_floats(items, layout, i),
            )
            &&& i + 1 < items.len() ==> {
                &&& items_at(ctx, pos, depth, lits, written_items(items, layout, 0, i))
                    == items_at(ctx, b + 1, depth, l, acc2)
                &&& items_ready(ctx, items, layout, d, depth, i + 1, b + 1, b + 1, l)
                &&& items_tail(items, layout, d, i + 1).len() == 1 + line_break(layout, d + 1).len()
                    + render(items[i + 1], layout, d + 1).len() + items_tail(
                    items,
                    layout,
                    d,
                    i + 2,
                ).len()
            }
            &&& i + 1 == items.len() ==> items_at(
                ctx,
                pos,
                depth,
                lits,
                written_items(items, layout, 0, i),
            ) == Read::Done(
                JsonValue::Array(acc2),
                b + items_tail(items, layout, d, i + 1).len(),
                l,
            )
        }),
    decreases items, 1nat, items.len() - i,
{
    let n = items.len() as int;
    let q = a + line_break(layout, d + 1).len();
    let acc = written_items(items, layout, 0, i);
    lemma_wf_item(items, i);
    lemma_item_text(ctx, items, layout, d, depth, i, a, pos, lits);
    lemma_item_floats(ctx, items, layout, i, lits);
    assert(depth + json_depth(items[i]) <= ctx.max_depth) by {
        lemma_items_depth(items, i, i);
    }
    lemma_value_round_trip(ctx, q, items[i], layout, d + 1, depth, lits);
    lemma_items_step(ctx, pos, depth, lits, acc);
    assert(acc.push(as_written(items[i], layout)) =~= written_items(items, layout, 0, i + 1));
    if i + 1 < n {
        lemma_items_next_ready(ctx, items, layout, d, depth, i, a, pos, lits);
    }
}

/// The elements of an array from the `i`-th on, whose text starts at `a`,
/// read back as written, from any position within the line break before
/// the `i`-th.
pub proof fn lemma_items_round_trip(
    ctx: Context,
    items: Seq<JsonValue>,
    layout: Layout,
    d: nat,
    depth: nat,
    i: int,
    a: int,
    pos: int,
    lits: Seq<Seq<char>>,
)
    requires
        items_ready(ctx, items, layout, d, depth, i, a, pos, lits),
    ensures
        items_at(ctx, pos, depth, lits, written_items(items, layout, 0, i)) == Read::Done(
            JsonValue::Array(written_items(items, layout, 0, items.len() as int)),
            a + line_break(layout, d + 1).len() + render(items[i], layout, d + 1).len()
                + items_tail(items, layout, d, i + 1).len(),
            lits + literals(items_floats(items, layout, i)),
        ),
    decreases items, 1nat, items.len() - i + 1,
{
    lemma_items_element(ctx, items, layout, d, depth, i, a, pos, lits);
    if i + 1 < items.len() {
        let b = a + line_break(layout, d + 1).len() + render(items[i], layout, d + 1).len();
        let l = lits + literals(float_list(items[i], layout));
        lemma_items_round_trip(ctx, items, layout, d, depth, i + 1, b + 1, b + 1, l);
    }
}

/// The requirements for reading the members of an object from the `i`-th
/// on, in `order`, whose text starts at `a`, from `pos`.
pub open spec fn members_ready(
    ctx: Context,
    entries: Seq<(Seq<char>, JsonValue)>,
    order: Seq<int>,
    layout: Layout,
    d: nat,
    depth: nat,
    i: int,
    a: int,
    pos: int,
    lits: Seq<Seq<char>>,
) -> bool {
    &&& json_wf(JsonValue::Object(entries))
    &&& order == member_order(layout, entries)
    &&& is_permutation(order, entries.len())
    &&& 0 <= i < entries.len()
    &&& text_at(ctx.s, a, line_break(layout, d + 1))
    &&& text_at(ctx.s, a + line_break(layout, d + 1).len(), key_text(layout, entries[order[i]].0))
    &&& text_at(
        ctx.s,
        a + line_break(layout, d + 1).len() + key_text(layout, entries[order[i]].0).len(),
        render(entries[order[i]].1, layout, d + 1),
    )
    &&& text_at(
        ctx.s,
        a + line_break(layout, d + 1).len() + key_text(layout, entries[order[i]].0).len()
            + render(entries[order[i]].1, layout, d + 1).len(),
        members_tail(entries, order, layout, d, i + 1),
    )
    &&& a <= pos <= a + line_break(layout, d + 1).len()
    &&& depth + entries_depth(entries, 0) <= ctx.max_depth
    &&& floats_at(ctx, lits.len() as int, members_floats(entries, order, layout, i))
}

/// Where the text of the `i`-th member, starting at `a`, ends.
pub open spec fn member_end(
    entries: Seq<(Seq<char>, JsonValue)>,
    order: Seq<int>,
    layout: Layout,
    d: nat,
    i: int,
    a: int,
) -> int {
    a + line_break(layout, d + 1).len() + key_text(layout, entries[order[i]].0).len() + render(
        entries[order[i]].1,
        layout,
        d + 1,
    ).len()
}

/// The text of one member, from any position within the line break before
/// it: where its key, colon and value stand, and what follows it.
#[verifier::rlimit(60)]
#[verifier::spinoff_prover]
proof fn lemma_member_text(
    ctx: Context,
    entries: Seq<(Seq<char>, JsonValue)>,
    order: Seq<int>,
    layout: Layout,
    d: nat,
    depth: nat,
    i: int,
    a: int,
    pos: int,
    lits: Seq<Seq<char>>,
)
    requires
        members_ready(ctx, entries, order, layout, d, depth, i, a, pos, lits),
    ensures
        ({
            let s = ctx.s;
            let k = entries[order[i]].0;
            let q = a + line_break(layout, d + 1).len();
            let r = q + quoted(k).len();
            let u = q + key_text(layout, k).len();
            let b = member_end(entries, order, layout, d, i, a);
            &&& 0 <= order[i] < entries.len()
            &&& 0 <= pos <= s.len()
            &&& skip_ws(s, pos) == q
            &&& q < s.len()
            &&& s[q] == '"'
            &&& string_at(s, q) == Ok::<(Seq<char>, int), Fault>((k, r))
            &&& q < r <= s.len()
            &&& skip_ws(s, r) == r
            &&& r < s.len()
            &&& s[r] == ':'
            &&& skip_ws(s, r + 1) == u
            &&& text_at(s, u, render(entries[order[i]].1, layout, d + 1))
            &&& b == u + render(entries[order[i]].1, layout, d + 1).len()
            &&& ends_number(s, b)
            &&& i + 1 < entries.len() ==> {
                &&& s[b] == ','
                &&& b < s.len()
                &&& skip_ws(s, b) == b
                &&& text_at(s, b + 1, line_break(layout, d + 1))
                &&& text_at(
                    s,
                    b + 1 + line_break(layout, d + 1).len(),
                    key_text(layout, entries[order[i + 1]].0),
                )
                &&& text_at(
                    s,
                    b + 1 + line_break(layout, d + 1).len() + key_text(
                        layout,
                        entries[order[i + 1]].0,
                    ).len(),
                    render(entries[order[i + 1]].1, layout, d + 1),
                )
                &&& text_at(
                    s,
                    member_end(entries, order, layout, d, i + 1, b + 1),
                    members_tail(entries, order, layout, d, i + 2),
                )
                &&& members_tail(entries, order, layout, d, i + 1).len() == member_end(
                    entries,
                    order,
                    layout,
                    d,
                    i + 1,
                    b + 1,
                ) - b + members_tail(entries, order, layout, d, i + 2).len()
            }
            &&& i + 1 == entries.len() ==> {
                &&& skip_ws(s, b) == b + line_break(layout, d).len()
                &&& b + line_break(layout, d).len() < s.len()
                &&& s[b + line_break(layout, d).len()] == '}'
                &&& members_tail(entries, order, layout, d, i + 1).len() == line_break(
                    layout,
                    d,
                ).len() + 1
            }
        }),
{
    let s = ctx.s;
    let n = entries.len() as int;
    let lb1 = line_break(layout, d + 1);
    let k = entries[order[i]].0;
    let vi = entries[order[i]].1;
    let kt = key_text(layout, k);
    let ri = render(vi, layout, d + 1);
    let q = a + lb1.len();
    let u = q + kt.len();
    let b = u + ri.len();
    assert(0 <= order[i] < n);
    lemma_entries_wf(entries, 0, order[i]);
    lemma_render_opens(vi, layout, d + 1);
    lemma_text_at_index(s, u, ri, 0);
    lemma_text_at_index(s, q, kt, 0);
    assert(kt[0] == '"');
    lemma_skip_break(s, a, layout, d + 1, pos);
    lemma_key_reads(s, q, layout, k);
    if i + 1 < n {
        lemma_members_next(s, entries, order, layout, d, i, b);
    } else {
        lemma_members_last(s, entries, order, layout, d, b);
    }
}

/// One member of an object read back: what the reader goes on with.
#[verifier::rlimit(100)]
#[verifier::spinoff_prover]
proof fn lemma_members_element(
    ctx: Context,
    entries: Seq<(Seq<char>, JsonValue)>,
    order: Seq<int>,
    layout: Layout,
    d: nat,
    depth: nat,
    i: int,
    a: int,
    pos: int,
    lits: Seq<Seq<char>>,
)
    requires
        members_ready(ctx, entries, order, layout, d, depth, i, a, pos, lits),
    ensures
        ({
            let b = member_end(entries, order, layout, d, i, a);
            let l = lits + literals(float_list(entries[order[i]].1, layout));
            let acc2 = written_members(entries, order, layout, 0, i + 1);
            &&& l + literals(members_floats(entries, order, layout, i + 1)) == lits + literals(
                members_floats(entries, order, layout, i),
            )
            &&& i + 1 < entries.len() ==> {
                &&& members_at(ctx, pos, depth, lits, written_members(entries, order, layout, 0, i))
                    == members_at(ctx, b + 1, depth, l, acc2)
                &&& members_ready(ctx, entries, order, layout, d, depth, i + 1, b + 1, b + 1, l)
                &&& members_tail(entries, order, layout, d, i + 1).len() == member_end(
                    entries,
                    order,
                    layout,
                    d,
                    i + 1,
                    b + 1,
                ) - b + members_tail(entries, order, layout, d, i + 2).len()
            }
            &&& i + 1 == entries.len() ==> members_at(
                ctx,
                pos,
                depth,
                lits,
                written_members(entries, order, layout, 0, i),
            ) == Read::Done(
                JsonValue::Object(acc2),
                b + members_tail(entries, order, layout, d, i + 1).len(),
                l,
            )
        }),
    decreases entries, 1nat, entries.len() - i,
{
    let s = ctx.s;
    let n = entries.len() as int;
    let lb1 = line_break(layout, d + 1);
    let k = entries[order[i]].0;
    let vi = entries[order[i]].1;
    let q = a + lb1.len();
    let u = q + key_text(layout, k).len();
    let b = member_end(entries, order, layout, d, i, a);
    let r = q + quoted(k).len();
    let acc = written_members(entries, order, layout, 0, i);
    let fl = float_list(vi, layout);
    let rest = members_floats(entries, order, layout, i + 1);
    lemma_member_text(ctx, entries, order, layout, d, depth, i, a, pos, lits);
    assert(floats_at(ctx, lits.len() as int, fl) && floats_at(
        ctx,
        lits.len() + fl.len() as int,
        rest,
    )) by {
        assert(members_floats(entries, order, layout, i) == fl + rest);
        lemma_floats_at_split(ctx, lits.len() as int, fl, rest);
    }
    assert(depth + json_depth(vi) <= ctx.max_depth) by {
        lemma_entries_depth(entries, 0, order[i]);
    }
    assert(json_wf(vi)) by {
        lemma_entries_wf(entries, 0, order[i]);
    }
    lemma_value_round_trip(ctx, u, vi, layout, d + 1, depth, lits);
    lemma_members_step(ctx, pos, depth, lits, acc, k, r);
    let v2 = as_written(vi, layout);
    assert(find_key(acc, k) is None) by {
        assert forall|j: int| 0 <= j < acc.len() implies #[trigger] acc[j].0 != k by {
            assert(order[j] != order[i]);
            assert(entries[order[j]].0 != entries[order[i]].0);
        }
        lemma_find_key_none(acc, k);
    }
    assert(inserted(acc, k, v2) =~= written_members(entries, order, layout, 0, i + 1));
    assert(lits + literals(fl) + literals(rest) =~= lits + literals(
        members_floats(entries, order, layout, i),
    )) by {
        assert(members_floats(entries, order, layout, i) == fl + rest);
        lemma_literals_append(fl, rest);
    }
}

/// The members of an object from the `i`-th on, in `order`, whose text
/// starts at `a`, read back as written, from any position within the line
/// break before the `i`-th.
pub proof fn lemma_members_round_trip(
    ctx: Context,
    entries: Seq<(Seq<char>, JsonValue)>,
    order: Seq<int>,
    layout: Layout,
    d: nat,
    depth: nat,
    i: int,
    a: int,
    pos: int,
    lits: Seq<Seq<char>>,
)
    requires
        members_ready(ctx, entries, order, layout, d, depth, i, a, pos, lits),
    ensures
        members_at(ctx, pos, depth, lits, written_members(entries, order, layout, 0, i))
            == Read::Done(
            JsonValue::Object(written_members(entries, order, layout, 0, entries.len() as int)),
            member_end(entries, order, layout, d, i, a) + members_tail(
                entries,
                order,
                layout,
                d,
                i + 1,
            ).len(),
            lits + literals(members_floats(entries, order, layout, i)),
        ),
    decreases entries, 1nat, entries.len() - i + 1,
{
    lemma_members_element(ctx, entries, order, layout, d, depth, i, a, pos, lits);
    if i + 1 < entries.len() {
        let b = member_end(entries, order, layout, d, i, a);
        let l = lits + literals(float_list(entries[order[i]].1, layout));
        lemma_members_round_trip(ctx, entries, order, layout, d, depth, i + 1, b + 1, b + 1, l);
    }
}

// ---------------------------------------------------------------------------
// The laws
// ---------------------------------------------------------------------------

/// A writer's output, read back against the float table that holds the
/// value's floats in the order they were written, gives back the value as
/// written, and the float literals it met are exactly the ones written.
pub proof fn law_written_text_reads_back(v: JsonValue, layout: Layout, max_depth: nat, lossy: bool)
    requires
        json_wf(v),
        json_depth(v) <= max_depth,
    ensures
        document(
            Context {
                s: render(v, layout, 0),
                max_depth,
                lossy,
                floats: table(float_list(v, layout)),
            },
        ) == (Ok::<JsonValue, Fault>(as_written(v, layout)), literals(float_list(v, layout))),
{
    reveal(document);
    let s = render(v, layout, 0);
    let fl = float_list(v, layout);
    let ctx = Context { s, max_depth, lossy, floats: table(fl) };
    lemma_render_opens(v, layout, 0);
    assert(s.subrange(0, s.len() as int) =~= s);
    assert(skip_ws(s, 0) == 0);
    assert(floats_at(ctx, 0, fl));
    lemma_value_round_trip(ctx, 0, v, layout, 0, 0, Seq::empty());
    assert(Seq::<Seq<char>>::empty() + literals(fl) =~= literals(fl));
    assert(skip_ws(s, s.len() as int) == s.len());
}

/// Writing without sorting keeps every object's members where they were
/// inserted: the value as written is the value itself.
pub proof fn law_insertion_order_kept(v: JsonValue, layout: Layout)
    requires
        !layout.sorted,
    ensures
        as_written(v, layout) == v,
    decreases v, 0nat,
{
    match v {
        JsonValue::Array(items) => {
            lemma_items_kept(items, layout, 0);
            assert(as_written(v, layout)->Array_0 =~= items);
        },
        JsonValue::Object(entries) => {
            lemma_entries_kept(entries, layout, 0);
            assert(as_written(v, layout)->Object_0 =~= entries);
        },
        _ => {},
    }
}

/// Unsorted writing keeps the elements of an array from the `i`-th on.
proof fn lemma_items_kept(items: Seq<JsonValue>, layout: Layout, i: int)
    requires
        !layout.sorted,
        0 <= i <= items.len(),
    ensures
        forall|j: int| i <= j < items.len() ==> as_written(#[trigger] items[j], layout) == items[j],
    decreases items, items.len() - i,
{
    if i < items.len() {
        law_insertion_order_kept(items[i], layout);
        lemma_items_kept(items, layout, i + 1);
    }
}

/// Unsorted writing keeps the values of an object from the `i`-th entry on.
proof fn lemma_entries_kept(entries: Seq<(Seq<char>, JsonValue)>, layout: Layout, i: int)
    requires
        !layout.sorted,
        0 <= i <= entries.len(),
    ensures
        forall|j: int|
            i <= j < entries.len() ==> as_written(#[trigger] entries[j].1, layout) == entries[j].1,
    decreases entries, entries.len() - i,
{
    if i < entries.len() {
        law_insertion_order_kept(entries[i].1, layout);
        lemma_entries_kept(entries, layout, i + 1);
    }
}

/// What a writer writes, [`parse_step`](crate::parse_step) reads back, given
/// the float table that holds the value's floats in the order written: it
/// gives the value, with each object's members in the order they were
/// written (for `to_string` and `to_string_pretty`, the value itself).
pub proof fn law_parse_reads_written_text(
    v: JsonValue,
    layout: Layout,
    options: ParseOptions,
    floats: Seq<Option<FloatText>>,
    r: ParseStep,
)
    requires
        json_wf(v),
        json_depth(v) <= options.spec_max_depth(),
        floats_view(floats) == table(float_list(v, layout)),
        step_matches(r, render(v, layout, 0), options, floats),
    ensures
        r matches ParseStep::Done(Ok(v2)) && v2@ == as_written(v, layout),
        !layout.sorted ==> as_written(v, layout) == v,
{
    let s = render(v, layout, 0);
    let fl = float_list(v, layout);
    law_written_text_reads_back(
        v,
        layout,
        options.spec_max_depth() as nat,
        options.spec_lossy(),
    );
    assert(context_of(s, options, floats) == Context {
        s,
        max_depth: options.spec_max_depth() as nat,
        lossy: options.spec_lossy(),
        floats: table(fl),
    });
    assert(floats_view(floats).len() == floats.len());
    assert(literals(fl).len() == fl.len());
    if !layout.sorted {
        law_insertion_order_kept(v, layout);
    }
}

} // verus!
