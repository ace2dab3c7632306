//! The laws of canonical output: it is a function of the value alone, and
//! a canonical document reads back to the same bytes through both writers.

use vstd::prelude::*;

use crate::written::{
    as_written, float_list, items_floats, literals, members_floats, table, json_wf,
    lemma_entries_wf, lemma_items_wf,
};
use crate::grammar::{document, skip_ws, Context};
use crate::readings::{blank, lemma_follows_value};
use crate::readback::law_written_text_reads_back;
use crate::render::{
    is_permutation, json_depth, key_lt, items_text, lemma_member_order, member_order, members_text,
    render, sorted_order, lemma_sorted_order_permutation, Layout,
};
use crate::sorting::{
    lemma_key_lt_asymmetric, lemma_key_lt_irreflexive, lemma_sorted_order_covers,
    lemma_sorted_order_ascending, lemma_sorted_order_identity, ascending,
};
use crate::parse::{floats_view, step_matches, ParseOptions, ParseStep};
use crate::readback::law_parse_reads_written_text;
use crate::value::{
    find_key, is_float_rendering, is_int_digits, is_trimmed_fraction, keys_distinct,
    lemma_find_key, lemma_find_key_at, unsigned_part, FloatText, JsonNumber, JsonValue,
};
use crate::render::{number_text, reads_as_float};
use crate::write::{canonical, compact};

verus! {

/// The layout that writes each object's members in the order they are
/// held, indented as `layout` is.
pub open spec fn as_held(layout: Layout) -> Layout {
    Layout { indent: layout.indent, sorted: false }
}

// ---------------------------------------------------------------------------
// Writing a value as written
// ---------------------------------------------------------------------------

/// Writing the value as a layout wrote it, in the order its members are
/// held, gives the layout's text again.
pub proof fn lemma_render_as_written(v: JsonValue, layout: Layout, d: nat)
    ensures
        render(as_written(v, layout), as_held(layout), d) == render(v, layout, d),
    decreases v, 1nat, 0int,
{
    match v {
        JsonValue::Array(items) => {
            let w = as_written(v, layout)->Array_0;
            assert(w.len() == items.len());
            if items.len() > 0 {
                lemma_items_as_written(items, layout, d, 0);
            }
        },
        JsonValue::Object(entries) => {
            let order = member_order(layout, entries);
            lemma_member_order(layout, entries);
            let w = as_written(v, layout)->Object_0;
            assert(w.len() == entries.len());
            if entries.len() > 0 {
                assert(member_order(as_held(layout), w) =~= Seq::new(w.len(), |j: int| j));
                lemma_members_as_written(entries, layout, d, 0);
            }
        },
        _ => {},
    }
}

/// The elements of an array as written, from the `i`-th on.
proof fn lemma_items_as_written(items: Seq<JsonValue>, layout: Layout, d: nat, i: int)
    requires
        0 <= i <= items.len(),
    ensures
        items_text(
            as_written(JsonValue::Array(items), layout)->Array_0,
            as_held(layout),
            d,
            i,
        ) == items_text(items, layout, d, i),
    decreases items, 0nat, items.len() - i,
{
    let w = as_written(JsonValue::Array(items), layout)->Array_0;
    if i < items.len() {
        assert(w[i] == as_written(items[i], layout));
        lemma_render_as_written(items[i], layout, d + 1);
        lemma_items_as_written(items, layout, d, i + 1);
    }
}

/// The members of an object as written, from the `j`-th on.
proof fn lemma_members_as_written(
    entries: Seq<(Seq<char>, JsonValue)>,
    layout: Layout,
    d: nat,
    j: int,
)
    requires
        0 <= j <= entries.len(),
    ensures
        ({
            let w = as_written(JsonValue::Object(entries), layout)->Object_0;
            members_text(w, Seq::new(w.len(), |t: int| t), as_held(layout), d, j)
                == members_text(entries, member_order(layout, entries), layout, d, j)
        }),
    decreases entries, 0nat, entries.len() - j,
{
    let order = member_order(layout, entries);
    lemma_member_order(layout, entries);
    let w = as_written(JsonValue::Object(entries), layout)->Object_0;
    let id = Seq::new(w.len(), |t: int| t);
    if j < entries.len() {
        assert(0 <= order[j] < entries.len());
        assert(id[j] == j);
        assert(w[j] == (entries[order[j]].0, as_written(entries[order[j]].1, layout)));
        lemma_render_as_written(entries[order[j]].1, layout, d + 1);
        lemma_members_as_written(entries, layout, d, j + 1);
    }
}

// ---------------------------------------------------------------------------
// Values already in canonical order
// ---------------------------------------------------------------------------

/// Whether every object in a value holds its members in ascending key
/// order.
pub open spec fn sorted_everywhere(v: JsonValue) -> bool
    decreases v, 0nat,
{
    match v {
        JsonValue::Array(items) => items_sorted(items, 0),
        JsonValue::Object(entries) => {
            &&& ascending(entries, Seq::new(entries.len(), |j: int| j))
            &&& entries_sorted(entries, 0)
        },
        _ => true,
    }
}

/// Whether the elements of an array from the `i`-th on are sorted
/// everywhere.
pub open spec fn items_sorted(items: Seq<JsonValue>, i: int) -> bool
    decreases items, items.len() - i,
{
    if i < 0 || i >= items.len() {
        true
    } else {
        sorted_everywhere(items[i]) && items_sorted(items, i + 1)
    }
}

/// Whether the values of an object from the `i`-th entry on are sorted
/// everywhere.
pub open spec fn entries_sorted(entries: Seq<(Seq<char>, JsonValue)>, i: int) -> bool
    decreases entries, entries.len() - i,
{
    if i < 0 || i >= entries.len() {
        true
    } else {
        sorted_everywhere(entries[i].1) && entries_sorted(entries, i + 1)
    }
}

/// A sorting layout writes a well-formed value with every object in
/// ascending key order.
pub proof fn lemma_written_sorted(v: JsonValue, layout: Layout)
    requires
        json_wf(v),
        layout.sorted,
    ensures
        sorted_everywhere(as_written(v, layout)),
    decreases v, 1nat, 0int,
{
    match v {
        JsonValue::Array(items) => {
            lemma_items_written_sorted(items, layout, 0);
        },
        JsonValue::Object(entries) => {
            let n = entries.len();
            let order = member_order(layout, entries);
            lemma_member_order(layout, entries);
            lemma_sorted_order_ascending(entries, n);
            let w = as_written(v, layout)->Object_0;
            let id = Seq::new(w.len(), |j: int| j);
            assert forall|a: int, b: int| 0 <= a < b < id.len() implies key_lt(
                #[trigger] w[id[a]].0,
                #[trigger] w[id[b]].0,
            ) by {
                assert(w[a].0 == entries[order[a]].0);
                assert(w[b].0 == entries[order[b]].0);
                assert(key_lt(entries[order[a]].0, entries[order[b]].0));
            }
            lemma_entries_written_sorted(entries, layout, 0);
        },
        _ => {},
    }
}

/// The elements of an array, as a sorting layout writes them, from the
/// `i`-th on.
proof fn lemma_items_written_sorted(items: Seq<JsonValue>, layout: Layout, i: int)
    requires
        json_wf(JsonValue::Array(items)),
        layout.sorted,
        0 <= i <= items.len(),
    ensures
        items_sorted(as_written(JsonValue::Array(items), layout)->Array_0, i),
    decreases items, 0nat, items.len() - i,
{
    let w = as_written(JsonValue::Array(items), layout)->Array_0;
    if i < items.len() {
        lemma_items_wf(items, 0, i);
        assert(w[i] == as_written(items[i], layout));
        lemma_written_sorted(items[i], layout);
        lemma_items_written_sorted(items, layout, i + 1);
    }
}

/// The values of an object, as a sorting layout writes them, from the
/// `j`-th on.
proof fn lemma_entries_written_sorted(
    entries: Seq<(Seq<char>, JsonValue)>,
    layout: Layout,
    j: int,
)
    requires
        json_wf(JsonValue::Object(entries)),
        layout.sorted,
        0 <= j <= entries.len(),
    ensures
        entries_sorted(as_written(JsonValue::Object(entries), layout)->Object_0, j),
    decreases entries, 0nat, entries.len() - j,
{
    let order = member_order(layout, entries);
    lemma_member_order(layout, entries);
    let w = as_written(JsonValue::Object(entries), layout)->Object_0;
    if j < entries.len() {
        assert(0 <= order[j] < entries.len());
        lemma_entries_wf(entries, 0, order[j]);
        assert(w[j].1 == as_written(entries[order[j]].1, layout));
        lemma_written_sorted(entries[order[j]].1, layout);
        lemma_entries_written_sorted(entries, layout, j + 1);
    }
}

/// A value sorted everywhere is written the same whether or not the layout
/// sorts.
pub proof fn lemma_sorted_render(v: JsonValue, layout: Layout, d: nat)
    requires
        sorted_everywhere(v),
    ensures
        render(v, layout, d) == render(v, as_held(layout), d),
    decreases v, 1nat, 0int,
{
    match v {
        JsonValue::Array(items) => {
            lemma_items_sorted_render(items, layout, d, 0);
        },
        JsonValue::Object(entries) => {
            let n = entries.len();
            let id = Seq::new(n, |j: int| j);
            assert forall|a: int, b: int| 0 <= a < b < n implies key_lt(
                #[trigger] entries[a].0,
                #[trigger] entries[b].0,
            ) by {
                assert(id[a] == a && id[b] == b);
                assert(key_lt(entries[id[a]].0, entries[id[b]].0));
            }
            lemma_sorted_order_identity(entries, n);
            assert(member_order(layout, entries) == id);
            assert(member_order(as_held(layout), entries) == id);
            lemma_members_sorted_render(entries, layout, d, 0);
        },
        _ => {},
    }
}

/// The elements of an array sorted everywhere, from the `i`-th on.
proof fn lemma_items_sorted_render(items: Seq<JsonValue>, layout: Layout, d: nat, i: int)
    requires
        items_sorted(items, i),
        0 <= i <= items.len(),
    ensures
        items_text(items, layout, d, i) == items_text(items, as_held(layout), d, i),
    decreases items, 0nat, items.len() - i,
{
    if i < items.len() {
        lemma_sorted_render(items[i], layout, d + 1);
        lemma_items_sorted_render(items, layout, d, i + 1);
    }
}

/// The members of an object sorted everywhere, in the order held, from the
/// `j`-th on.
proof fn lemma_members_sorted_render(
    entries: Seq<(Seq<char>, JsonValue)>,
    layout: Layout,
    d: nat,
    j: int,
)
    requires
        entries_sorted(entries, j),
        0 <= j <= entries.len(),
    ensures
        members_text(entries, Seq::new(entries.len(), |t: int| t), layout, d, j) == members_text(
            entries,
            Seq::new(entries.len(), |t: int| t),
            as_held(layout),
            d,
            j,
        ),
    decreases entries, 0nat, entries.len() - j,
{
    if j < entries.len() {
        lemma_sorted_render(entries[j].1, layout, d + 1);
        lemma_members_sorted_render(entries, layout, d, j + 1);
    }
}

// ---------------------------------------------------------------------------
// The laws
// ---------------------------------------------------------------------------

/// The plain writer, given what the canonical text reads back as, writes
/// the canonical text again.
pub proof fn law_plain_writer_keeps_canonical_text(v: JsonValue)
    ensures
        render(as_written(v, canonical()), compact(), 0) == render(v, canonical(), 0),
{
    lemma_render_as_written(v, canonical(), 0);
    assert(as_held(canonical()) == compact());
}

/// Canonical output is a fixed point: what the canonical text reads back as
/// is written canonically to the same text.
pub proof fn law_canonical_fixed_point(v: JsonValue)
    requires
        json_wf(v),
    ensures
        render(as_written(v, canonical()), canonical(), 0) == render(v, canonical(), 0),
{
    lemma_written_sorted(v, canonical());
    lemma_sorted_render(as_written(v, canonical()), canonical(), 0);
    law_plain_writer_keeps_canonical_text(v);
    assert(as_held(canonical()) == compact());
}

/// A canonical document round-trips byte for byte: read back by
/// [`parse_step`](crate::parse_step) against the float table holding its
/// floats in order, it is written to the same text by both
/// `to_string_canonical` and `to_string`.
pub proof fn law_canonical_document_round_trips(
    v: JsonValue,
    options: ParseOptions,
    floats: Seq<Option<FloatText>>,
    r: ParseStep,
)
    requires
        json_wf(v),
        json_depth(v) <= options.spec_max_depth(),
        floats_view(floats) == table(float_list(v, canonical())),
        step_matches(r, render(v, canonical(), 0), options, floats),
    ensures
        r matches ParseStep::Done(Ok(w)) && render(w@, canonical(), 0) == render(
            v,
            canonical(),
            0,
        ) && render(w@, compact(), 0) == render(v, canonical(), 0),
{
    law_parse_reads_written_text(v, canonical(), options, floats, r);
    law_canonical_fixed_point(v);
    law_plain_writer_keeps_canonical_text(v);
}

// ---------------------------------------------------------------------------
// Canonical output depends on the value alone
// ---------------------------------------------------------------------------

/// Value equality as [`json_eq`](crate::value::json_eq) has it, except that
/// floats are compared by their renderings, so that `0.0` and `-0.0` are
/// told apart: the same elements in the same order, and the same keys with
/// equal values in any order.
pub open spec fn exact_eq(a: JsonValue, b: JsonValue) -> bool
    decreases a, 0nat,
{
    match (a, b) {
        (JsonValue::Array(xs), JsonValue::Array(ys)) => xs.len() == ys.len() && items_exact(
            xs,
            ys,
            0,
        ),
        (JsonValue::Object(xs), JsonValue::Object(ys)) => xs.len() == ys.len() && members_exact(
            xs,
            ys,
            0,
        ),
        _ => a == b,
    }
}

/// Whether the elements of `xs` from the `i`-th on are exactly equal to
/// those of `ys` at the same places.
pub open spec fn items_exact(xs: Seq<JsonValue>, ys: Seq<JsonValue>, i: int) -> bool
    decreases xs, xs.len() - i,
{
    if i < 0 || i >= xs.len() {
        true
    } else {
        i < ys.len() && exact_eq(xs[i], ys[i]) && items_exact(xs, ys, i + 1)
    }
}

/// Whether the entry `x` has its key in `ys`, with an exactly equal value.
pub open spec fn member_exact(x: (Seq<char>, JsonValue), ys: Seq<(Seq<char>, JsonValue)>) -> bool {
    match find_key(ys, x.0) {
        Some(j) => exact_eq(x.1, ys[j].1),
        None => false,
    }
}

/// Whether each entry of `xs` from the `i`-th on has its key in `ys`, with
/// an exactly equal value.
pub open spec fn members_exact(
    xs: Seq<(Seq<char>, JsonValue)>,
    ys: Seq<(Seq<char>, JsonValue)>,
    i: int,
) -> bool
    decreases xs, xs.len() - i,
{
    if i < 0 || i >= xs.len() {
        true
    } else {
        let here = match find_key(ys, xs[i].0) {
            Some(j) => exact_eq(xs[i].1, ys[j].1),
            None => false,
        };
        here && members_exact(xs, ys, i + 1)
    }
}

/// `members_exact`, stated entry by entry.
proof fn lemma_members_exact(
    xs: Seq<(Seq<char>, JsonValue)>,
    ys: Seq<(Seq<char>, JsonValue)>,
    i: int,
)
    requires
        0 <= i <= xs.len(),
        members_exact(xs, ys, i),
    ensures
        forall|j: int| i <= j < xs.len() ==> member_exact(#[trigger] xs[j], ys),
    decreases xs.len() - i,
{
    if i < xs.len() {
        lemma_members_exact(xs, ys, i + 1);
    }
}

/// Whether a run of keys is strictly ascending.
pub open spec fn keys_ascending(k: Seq<Seq<char>>) -> bool {
    forall|a: int, b: int| 0 <= a < b < k.len() ==> key_lt(#[trigger] k[a], #[trigger] k[b])
}

/// Whether `f` finds each key of `x` in `y`.
pub open spec fn finds_keys(x: Seq<Seq<char>>, y: Seq<Seq<char>>, f: spec_fn(int) -> int) -> bool {
    forall|i: int| 0 <= i < x.len() ==> 0 <= #[trigger] f(i) < y.len() && x[i] == y[f(i)]
}

/// Two ascending runs of the same keys agree at place `j`, given that they
/// agree before it.
#[verifier::spinoff_prover]
proof fn lemma_ascending_step(
    kx: Seq<Seq<char>>,
    ky: Seq<Seq<char>>,
    fx: spec_fn(int) -> int,
    fy: spec_fn(int) -> int,
    j: int,
)
    requires
        kx.len() == ky.len(),
        keys_ascending(kx),
        keys_ascending(ky),
        finds_keys(kx, ky, fx),
        finds_keys(ky, kx, fy),
        0 <= j < kx.len(),
        forall|t: int| 0 <= t < j ==> #[trigger] kx[t] == ky[t],
    ensures
        kx[j] == ky[j],
{
    let m = fx(j);
    let m2 = fy(j);
    assert(0 <= m < ky.len() && kx[j] == ky[m]);
    assert(0 <= m2 < kx.len() && ky[j] == kx[m2]);
    if m < j {
        assert(ky[m] == kx[m]);
        assert(key_lt(kx[m], kx[j]));
        lemma_key_lt_irreflexive(kx[j]);
    } else if m2 < j {
        assert(kx[m2] == ky[m2]);
        assert(key_lt(ky[m2], ky[j]));
        lemma_key_lt_irreflexive(ky[j]);
    } else if m != j && m2 != j {
        assert(key_lt(ky[j], ky[m]));
        assert(key_lt(kx[j], kx[m2]));
        lemma_key_lt_asymmetric(kx[j], ky[j]);
    }
}

/// Two ascending runs of the same keys agree on their first `k` places.
proof fn lemma_ascending_prefix(
    kx: Seq<Seq<char>>,
    ky: Seq<Seq<char>>,
    fx: spec_fn(int) -> int,
    fy: spec_fn(int) -> int,
    k: int,
)
    requires
        kx.len() == ky.len(),
        keys_ascending(kx),
        keys_ascending(ky),
        finds_keys(kx, ky, fx),
        finds_keys(ky, kx, fy),
        0 <= k <= kx.len(),
    ensures
        forall|t: int| 0 <= t < k ==> #[trigger] kx[t] == ky[t],
    decreases k,
{
    if k > 0 {
        lemma_ascending_prefix(kx, ky, fx, fy, k - 1);
        lemma_ascending_step(kx, ky, fx, fy, k - 1);
    }
}

/// An object's keys, in the order the canonical writer writes them.
pub open spec fn sorted_keys(entries: Seq<(Seq<char>, JsonValue)>) -> Seq<Seq<char>> {
    Seq::new(entries.len(), |j: int| entries[sorted_order(entries, entries.len())[j]].0)
}

/// Two objects whose keys occur in each other are written in the same key
/// order.
proof fn lemma_same_sorted_keys(xs: Seq<(Seq<char>, JsonValue)>, ys: Seq<(Seq<char>, JsonValue)>)
    requires
        xs.len() == ys.len(),
        keys_distinct(xs),
        keys_distinct(ys),
        forall|i: int| 0 <= i < xs.len() ==> #[trigger] find_key(ys, xs[i].0) is Some,
    ensures
        sorted_keys(xs) == sorted_keys(ys),
{
    broadcast use vstd::set::group_set_axioms, vstd::seq_lib::seq_to_set_is_finite;

    let n = xs.len();
    let ox = sorted_order(xs, n);
    let oy = sorted_order(ys, n);
    lemma_sorted_order_permutation(xs, n);
    lemma_sorted_order_permutation(ys, n);
    lemma_sorted_order_ascending(xs, n);
    lemma_sorted_order_ascending(ys, n);
    let kx = sorted_keys(xs);
    let ky = sorted_keys(ys);
    // The keys of each, as sets: those of `xs` lie within those of `ys`, and
    // both have `n` of them, so they are the same set.
    let px = xs.map_values(|e: (Seq<char>, JsonValue)| e.0);
    let py = ys.map_values(|e: (Seq<char>, JsonValue)| e.0);
    assert(px.no_duplicates()) by {
        assert forall|a: int, b: int| 0 <= a < px.len() && 0 <= b < px.len() && a != b implies px[a]
            != px[b] by {
            if a < b {
                assert(xs[a].0 != xs[b].0);
            } else {
                assert(xs[b].0 != xs[a].0);
            }
        }
    }
    assert(py.no_duplicates()) by {
        assert forall|a: int, b: int| 0 <= a < py.len() && 0 <= b < py.len() && a != b implies py[a]
            != py[b] by {
            if a < b {
                assert(ys[a].0 != ys[b].0);
            } else {
                assert(ys[b].0 != ys[a].0);
            }
        }
    }
    px.unique_seq_to_set();
    py.unique_seq_to_set();
    assert(px.to_set().subset_of(py.to_set())) by {
        assert forall|k: Seq<char>| px.to_set().contains(k) implies py.to_set().contains(k) by {
            let i = choose|i: int| 0 <= i < px.len() && px[i] == k;
            lemma_find_key(ys, xs[i].0);
            let u = find_key(ys, xs[i].0)->Some_0;
            assert(py[u] == k);
        }
    }
    vstd::set_lib::lemma_subset_equality(px.to_set(), py.to_set());
    let fx = |i: int| choose|m: int| 0 <= m < n && kx[i] == ky[m];
    let fy = |j: int| choose|m: int| 0 <= m < n && ky[j] == kx[m];
    assert forall|i: int| 0 <= i < kx.len() implies 0 <= #[trigger] fx(i) < ky.len() && kx[i] == ky[fx(i)] by {
        lemma_find_key(ys, xs[ox[i]].0);
        let u = find_key(ys, xs[ox[i]].0)->Some_0;
        lemma_sorted_order_covers(ys, n, u);
        let m = choose|m: int| 0 <= m < n && #[trigger] oy[m] == u;
        assert(kx[i] == ky[m]);
    }
    assert forall|j: int| 0 <= j < ky.len() implies 0 <= #[trigger] fy(j) < kx.len() && ky[j] == kx[fy(j)] by {
        let k = ys[oy[j]].0;
        assert(py[oy[j]] == k);
        assert(py.to_set().contains(k));
        assert(px.to_set().contains(k));
        let t = choose|t: int| 0 <= t < px.len() && px[t] == k;
        lemma_sorted_order_covers(xs, n, t);
        let m = choose|m: int| 0 <= m < n && #[trigger] ox[m] == t;
        assert(ky[j] == kx[m]);
    }
    assert(keys_ascending(kx)) by {
        assert forall|a: int, b: int| 0 <= a < b < kx.len() implies key_lt(#[trigger] kx[a], #[trigger] kx[b]) by {
            assert(key_lt(xs[ox[a]].0, xs[ox[b]].0));
        }
    }
    assert(keys_ascending(ky)) by {
        assert forall|a: int, b: int| 0 <= a < b < ky.len() implies key_lt(#[trigger] ky[a], #[trigger] ky[b]) by {
            assert(key_lt(ys[oy[a]].0, ys[oy[b]].0));
        }
    }
    lemma_ascending_prefix(kx, ky, fx, fy, n as int);
    assert(kx =~= ky);
}

/// Exactly equal well-formed values are written canonically to the same
/// text.
pub proof fn lemma_canonical_same(a: JsonValue, b: JsonValue, d: nat)
    requires
        json_wf(a),
        json_wf(b),
        exact_eq(a, b),
    ensures
        render(a, canonical(), d) == render(b, canonical(), d),
    decreases a, 1nat, 0int,
{
    match (a, b) {
        (JsonValue::Array(xs), JsonValue::Array(ys)) => {
            lemma_items_same(xs, ys, d, 0);
        },
        (JsonValue::Object(xs), JsonValue::Object(ys)) => {
            let n = xs.len();
            let ox = sorted_order(xs, n);
            let oy = sorted_order(ys, n);
            lemma_sorted_order_permutation(xs, n);
            lemma_sorted_order_permutation(ys, n);
            lemma_members_exact(xs, ys, 0);
            assert forall|i: int| 0 <= i < xs.len() implies #[trigger] find_key(ys, xs[i].0) is Some by {
                assert(member_exact(xs[i], ys));
            }
            lemma_same_sorted_keys(xs, ys);
            assert forall|t: int| 0 <= t < n implies #[trigger] xs[ox[t]].0 == ys[oy[t]].0
                && exact_eq(xs[ox[t]].1, ys[oy[t]].1) by {
                assert(sorted_keys(xs)[t] == sorted_keys(ys)[t]);
                assert(member_exact(xs[ox[t]], ys));
                lemma_find_key(ys, xs[ox[t]].0);
                let u = find_key(ys, xs[ox[t]].0)->Some_0;
                if u != oy[t] {
                    if u < oy[t] {
                        assert(ys[u].0 != ys[oy[t]].0);
                    } else {
                        assert(ys[oy[t]].0 != ys[u].0);
                    }
                }
            }
            lemma_members_same(xs, ys, ox, oy, d, 0);
        },
        _ => {},
    }
}

/// The elements of exactly equal arrays, from the `i`-th on.
proof fn lemma_items_same(xs: Seq<JsonValue>, ys: Seq<JsonValue>, d: nat, i: int)
    requires
        json_wf(JsonValue::Array(xs)),
        json_wf(JsonValue::Array(ys)),
        xs.len() == ys.len(),
        items_exact(xs, ys, i),
        0 <= i <= xs.len(),
    ensures
        items_text(xs, canonical(), d, i) == items_text(ys, canonical(), d, i),
    decreases xs, 0nat, xs.len() - i,
{
    if i < xs.len() {
        lemma_items_wf(xs, 0, i);
        lemma_items_wf(ys, 0, i);
        lemma_canonical_same(xs[i], ys[i], d + 1);
        lemma_items_same(xs, ys, d, i + 1);
    }
}

/// The members of exactly equal objects, each in canonical order, from the
/// `j`-th on.
proof fn lemma_members_same(
    xs: Seq<(Seq<char>, JsonValue)>,
    ys: Seq<(Seq<char>, JsonValue)>,
    ox: Seq<int>,
    oy: Seq<int>,
    d: nat,
    j: int,
)
    requires
        json_wf(JsonValue::Object(xs)),
        json_wf(JsonValue::Object(ys)),
        is_permutation(ox, xs.len()),
        is_permutation(oy, ys.len()),
        xs.len() == ys.len(),
        forall|t: int| 0 <= t < xs.len() ==> #[trigger] xs[ox[t]].0 == ys[oy[t]].0 && exact_eq(
            xs[ox[t]].1,
            ys[oy[t]].1,
        ),
        0 <= j <= xs.len(),
    ensures
        members_text(xs, ox, canonical(), d, j) == members_text(ys, oy, canonical(), d, j),
    decreases xs, 0nat, xs.len() - j,
{
    if j < xs.len() {
        assert(0 <= ox[j] < xs.len() && 0 <= oy[j] < ys.len());
        lemma_entries_wf(xs, 0, ox[j]);
        lemma_entries_wf(ys, 0, oy[j]);
        assert(xs[ox[j]].0 == ys[oy[j]].0);
        lemma_canonical_same(xs[ox[j]].1, ys[oy[j]].1, d + 1);
        lemma_members_same(xs, ys, ox, oy, d, j + 1);
    }
}

/// Canonical output is a function of the value alone: two well-formed
/// values that are equal, floats compared by their renderings, are written
/// canonically to the same text, whatever the order of their members.
pub proof fn law_canonical_depends_on_value_alone(a: JsonValue, b: JsonValue)
    requires
        json_wf(a),
        json_wf(b),
        exact_eq(a, b),
    ensures
        render(a, canonical(), 0) == render(b, canonical(), 0),
{
    lemma_canonical_same(a, b, 0);
}


// ---------------------------------------------------------------------------
// Canonical text determines the value
// ---------------------------------------------------------------------------

/// Whether each text of `ts` is a float rendering.
pub open spec fn all_renderings(ts: Seq<Seq<char>>) -> bool {
    forall|i: int| 0 <= i < ts.len() ==> is_float_rendering(#[trigger] ts[i])
}

proof fn lemma_renderings_append(a: Seq<Seq<char>>, b: Seq<Seq<char>>)
    requires
        all_renderings(a),
        all_renderings(b),
    ensures
        all_renderings(a + b),
{
    assert forall|i: int| 0 <= i < (a + b).len() implies is_float_rendering(#[trigger] (a + b)[i]) by {
        if i < a.len() {
            assert((a + b)[i] == a[i]);
        } else {
            assert((a + b)[i] == b[i - a.len()]);
        }
    }
}

/// The floats of a well-formed value are renderings.
pub proof fn lemma_float_list_renderings(v: JsonValue, layout: Layout)
    requires
        json_wf(v),
    ensures
        all_renderings(float_list(v, layout)),
    decreases v, 1nat, 0int,
{
    match v {
        JsonValue::Array(items) => {
            lemma_items_float_renderings(items, layout, 0);
        },
        JsonValue::Object(entries) => {
            lemma_members_float_renderings(entries, layout, 0);
        },
        _ => {},
    }
}

proof fn lemma_items_float_renderings(items: Seq<JsonValue>, layout: Layout, i: int)
    requires
        json_wf(JsonValue::Array(items)),
        0 <= i <= items.len(),
    ensures
        all_renderings(items_floats(items, layout, i)),
    decreases items, 0nat, items.len() - i,
{
    if i < items.len() {
        lemma_items_wf(items, 0, i);
        lemma_float_list_renderings(items[i], layout);
        lemma_items_float_renderings(items, layout, i + 1);
        lemma_renderings_append(float_list(items[i], layout), items_floats(items, layout, i + 1));
    }
}

proof fn lemma_members_float_renderings(
    entries: Seq<(Seq<char>, JsonValue)>,
    layout: Layout,
    j: int,
)
    requires
        json_wf(JsonValue::Object(entries)),
        0 <= j <= entries.len(),
    ensures
        all_renderings(members_floats(entries, member_order(layout, entries), layout, j)),
    decreases entries, 0nat, entries.len() - j,
{
    let order = member_order(layout, entries);
    lemma_member_order(layout, entries);
    if j < entries.len() {
        assert(0 <= order[j] < entries.len());
        lemma_entries_wf(entries, 0, order[j]);
        lemma_float_list_renderings(entries[order[j]].1, layout);
        lemma_members_float_renderings(entries, layout, j + 1);
        lemma_renderings_append(
            float_list(entries[order[j]].1, layout),
            members_floats(entries, order, layout, j + 1),
        );
    }
}

/// A rendering with a point ends in a non-zero digit.
proof fn lemma_rendering_end(t: Seq<char>)
    requires
        is_float_rendering(t),
    ensures
        reads_as_float(t) ==> t.len() > 0 && t[t.len() - 1] != '0',
{
    let sign: int = if t.len() > 0 && t[0] == '-' {
        1
    } else {
        0
    };
    let body = unsigned_part(t);
    assert(body =~= t.skip(sign));
    if is_int_digits(body) {
        assert forall|i: int| 0 <= i < t.len() implies t[i] != '.' && t[i] != 'e' && t[i] != 'E' by {
            if i >= sign {
                assert(t[i] == body[i - sign]);
            }
        }
        assert(!t.contains('.'));
        assert(!t.contains('e'));
        assert(!t.contains('E'));
    } else {
        let k = choose|k: int|
            0 < k < body.len() && body[k] == '.' && is_int_digits(#[trigger] body.take(k))
                && is_trimmed_fraction(body.skip(k + 1));
        let f = body.skip(k + 1);
        assert(t[t.len() - 1] == f[f.len() - 1]);
    }
}

/// Two renderings with the same number text are the same rendering.
proof fn lemma_float_text_injective(t: Seq<char>, u: Seq<char>)
    requires
        is_float_rendering(t),
        is_float_rendering(u),
        number_text(JsonNumber::Float(t)) == number_text(JsonNumber::Float(u)),
    ensures
        t == u,
{
    lemma_rendering_end(t);
    lemma_rendering_end(u);
    let tail = seq!['.', '0'];
    if reads_as_float(t) && !reads_as_float(u) {
        assert(t == u + tail);
        assert(t[t.len() - 1] == '0');
    } else if !reads_as_float(t) && reads_as_float(u) {
        assert(u == t + tail);
        assert(u[u.len() - 1] == '0');
    } else if !reads_as_float(t) {
        assert(t + tail == u + tail);
        assert(t =~= (t + tail).take(t.len() as int));
        assert(u =~= (u + tail).take(u.len() as int));
    }
}


/// Whether each element of `xs` from the `i`-th on is exactly equal to the
/// element of `ys` at the same place.
pub open spec fn each_exact(xs: Seq<JsonValue>, ys: Seq<JsonValue>, i: int) -> bool {
    forall|k: int| i <= k < xs.len() ==> exact_eq(#[trigger] xs[k], ys[k])
}

/// `items_exact`, stated element by element, for runs of one length.
proof fn lemma_items_exact_each(xs: Seq<JsonValue>, ys: Seq<JsonValue>, i: int)
    requires
        0 <= i <= xs.len(),
        xs.len() == ys.len(),
    ensures
        items_exact(xs, ys, i) == each_exact(xs, ys, i),
    decreases xs.len() - i,
{
    if i < xs.len() {
        lemma_items_exact_each(xs, ys, i + 1);
        if each_exact(xs, ys, i) {
            assert(exact_eq(xs[i], ys[i]));
            assert(each_exact(xs, ys, i + 1));
        }
        if items_exact(xs, ys, i) {
            assert forall|k: int| i <= k < xs.len() implies exact_eq(#[trigger] xs[k], ys[k]) by {
                if k > i {
                    assert(each_exact(xs, ys, i + 1));
                }
            }
        }
    }
}

/// `members_exact`, from each entry.
proof fn lemma_members_exact_from(
    xs: Seq<(Seq<char>, JsonValue)>,
    ys: Seq<(Seq<char>, JsonValue)>,
    i: int,
)
    requires
        0 <= i <= xs.len(),
        forall|j: int| i <= j < xs.len() ==> member_exact(#[trigger] xs[j], ys),
    ensures
        members_exact(xs, ys, i),
    decreases xs.len() - i,
{
    if i < xs.len() {
        assert(member_exact(xs[i], ys));
        lemma_members_exact_from(xs, ys, i + 1);
    }
}

/// Exact equality is transitive.
pub proof fn lemma_exact_trans(a: JsonValue, b: JsonValue, c: JsonValue)
    requires
        exact_eq(a, b),
        exact_eq(b, c),
    ensures
        exact_eq(a, c),
    decreases a,
{
    match (a, b, c) {
        (JsonValue::Array(xs), JsonValue::Array(ys), JsonValue::Array(zs)) => {
            lemma_items_exact_each(xs, ys, 0);
            lemma_items_exact_each(ys, zs, 0);
            lemma_items_exact_each(xs, zs, 0);
            assert forall|k: int| 0 <= k < xs.len() implies exact_eq(#[trigger] xs[k], zs[k]) by {
                assert(each_exact(xs, ys, 0));
                assert(each_exact(ys, zs, 0));
                assert(exact_eq(xs[k], ys[k]));
                assert(exact_eq(ys[k], zs[k]));
                lemma_exact_trans(xs[k], ys[k], zs[k]);
            }
        },
        (JsonValue::Object(xs), JsonValue::Object(ys), JsonValue::Object(zs)) => {
            lemma_members_exact(xs, ys, 0);
            lemma_members_exact(ys, zs, 0);
            assert forall|i: int| 0 <= i < xs.len() implies member_exact(#[trigger] xs[i], zs) by {
                assert(member_exact(xs[i], ys));
                lemma_find_key(ys, xs[i].0);
                let j = find_key(ys, xs[i].0)->Some_0;
                assert(member_exact(ys[j], zs));
                let m = find_key(zs, ys[j].0)->Some_0;
                lemma_exact_trans(xs[i].1, ys[j].1, zs[m].1);
            }
            lemma_members_exact_from(xs, zs, 0);
        },
        _ => {},
    }
}

/// A well-formed value and its canonical form (each object's members
/// sorted by key) are exactly equal, both ways round.
pub proof fn lemma_exact_canonical_form(v: JsonValue)
    requires
        json_wf(v),
    ensures
        exact_eq(v, as_written(v, canonical())),
        exact_eq(as_written(v, canonical()), v),
    decreases v,
{
    let w = as_written(v, canonical());
    match v {
        JsonValue::Array(items) => {
            let ws = w->Array_0;
            lemma_items_exact_each(items, ws, 0);
            lemma_items_exact_each(ws, items, 0);
            assert forall|k: int| 0 <= k < items.len() implies exact_eq(#[trigger] items[k], ws[k])
                && exact_eq(ws[k], items[k]) by {
                lemma_items_wf(items, 0, k);
                lemma_exact_canonical_form(items[k]);
            }
        },
        JsonValue::Object(entries) => {
            let n = entries.len();
            let order = member_order(canonical(), entries);
            lemma_member_order(canonical(), entries);
            let ws = w->Object_0;
            assert(keys_distinct(entries));
            assert forall|j: int| 0 <= j < n implies #[trigger] ws[j] == (
                entries[order[j]].0,
                as_written(entries[order[j]].1, canonical()),
            ) by {
                assert(0 <= order[j] < n);
            }
            assert forall|i: int| 0 <= i < n implies member_exact(#[trigger] entries[i], ws) by {
                lemma_sorted_order_covers(entries, n, i);
                let m = choose|m: int| 0 <= m < n && #[trigger] sorted_order(entries, n)[m] == i;
                assert(order[m] == i);
                assert forall|j: int| 0 <= j < m implies #[trigger] ws[j].0 != entries[i].0 by {
                    assert(order[j] != order[m]);
                    assert(0 <= order[j] < n);
                }
                lemma_find_key_at(ws, entries[i].0, m);
                lemma_entries_wf(entries, 0, i);
                lemma_exact_canonical_form(entries[i].1);
            }
            lemma_members_exact_from(entries, ws, 0);
            assert forall|j: int| 0 <= j < n implies member_exact(#[trigger] ws[j], entries) by {
                let t = order[j];
                assert(0 <= t < n);
                assert forall|x: int| 0 <= x < t implies #[trigger] entries[x].0 != entries[t].0 by {}
                lemma_find_key_at(entries, entries[t].0, t);
                lemma_entries_wf(entries, 0, t);
                lemma_exact_canonical_form(entries[t].1);
            }
            lemma_members_exact_from(ws, entries, 0);
        },
        _ => {},
    }
}

/// Canonical text determines the value: two well-formed values written to
/// the same canonical text are exactly equal (arrays element by element,
/// objects key by key whatever their order, floats by their renderings),
/// and are the same value once each object's members are sorted by key.
/// Together with [`law_canonical_depends_on_value_alone`], equal canonical
/// text and exactly equal values go together.
pub proof fn law_canonical_text_determines_value(a: JsonValue, b: JsonValue)
    requires
        json_wf(a),
        json_wf(b),
        render(a, canonical(), 0) == render(b, canonical(), 0),
    ensures
        as_written(a, canonical()) == as_written(b, canonical()),
        exact_eq(a, b),
{
    let s = render(a, canonical(), 0);
    let m: nat = if json_depth(a) >= json_depth(b) {
        json_depth(a)
    } else {
        json_depth(b)
    };
    let fa = float_list(a, canonical());
    let fb = float_list(b, canonical());
    law_written_text_reads_back(a, canonical(), m, false);
    law_written_text_reads_back(b, canonical(), m, false);
    let ca = Context { s, max_depth: m, lossy: false, floats: table(fa) };
    let cb = Context { s, max_depth: m, lossy: false, floats: table(fb) };
    assert(blank(ca) == blank(cb));
    reveal(document);
    let p = skip_ws(s, 0);
    lemma_follows_value(ca, p, 0, Seq::empty());
    lemma_follows_value(cb, p, 0, Seq::empty());
    assert(literals(fa) == literals(fb));
    lemma_float_list_renderings(a, canonical());
    lemma_float_list_renderings(b, canonical());
    assert(fa.len() == literals(fa).len());
    assert(fb.len() == literals(fb).len());
    assert forall|i: int| 0 <= i < fa.len() implies fa[i] == fb[i] by {
        assert(literals(fa)[i] == literals(fb)[i]);
        lemma_float_text_injective(fa[i], fb[i]);
    }
    assert(fa =~= fb);
    lemma_exact_canonical_form(a);
    lemma_exact_canonical_form(b);
    lemma_exact_trans(a, as_written(a, canonical()), b);
}

} // verus!
