//! What the reading options change. A reading under options that admit
//! more (lossy big integers on, or a higher cap) gives back every document
//! the other one accepted, unchanged; a lower cap gives it back unchanged or
//! refuses it for its depth, and always refuses a value nested deeper than
//! the cap.

use vstd::prelude::*;

use crate::error::ErrorKind;
use crate::grammar::{document, items_at, members_at, skip_ws, string_at, value_at, Context, Read};
use crate::parse::{context_of, step_matches, ParseOptions, ParseStep};
use crate::render::{entries_depth, items_depth, json_depth};
use crate::value::{inserted, lemma_find_key, JsonValue};

verus! {

/// Whether `ctx2` reads the same document against the same float table as
/// `ctx`, reading big integers lossily whenever `ctx` does. Its cap may
/// differ.
pub open spec fn admits_more(ctx: Context, ctx2: Context) -> bool {
    &&& ctx2.s == ctx.s
    &&& ctx2.floats == ctx.floats
    &&& ctx.lossy ==> ctx2.lossy
}

/// The float literals a reading met.
pub open spec fn read_lits(r: Read<JsonValue>) -> Seq<Seq<char>> {
    match r {
        Read::Done(_, _, l) => l,
        Read::Failed(_, l) => l,
    }
}

/// Whether reading `b` keeps what reading `a` read: when `a` succeeded,
/// `b` is the same reading, or, under a `lowered` cap, a refusal for depth
/// that met no more float literals.
pub open spec fn keeps(a: Read<JsonValue>, b: Read<JsonValue>, lowered: bool) -> bool {
    a is Done ==> (b == a || (lowered && (b matches Read::Failed(f, l2) && f.kind
        == ErrorKind::DepthLimitExceeded && l2.len() <= read_lits(a).len())))
}

/// A value read meets at least the literals met before it.
proof fn lemma_value_lits_grow(ctx: Context, p: int, depth: nat, lits: Seq<Seq<char>>)
    ensures
        value_at(ctx, p, depth, lits) is Done ==> read_lits(value_at(ctx, p, depth, lits)).len()
            >= lits.len(),
    decreases ctx.s.len() - p, 0nat,
{
    let s = ctx.s;
    if 0 <= p < s.len() {
        let c = s[p];
        if (c == '[' || c == '{') && depth + 1 <= ctx.max_depth {
            let q = skip_ws(s, p + 1);
            if p + 1 <= q && q <= s.len() {
                if c == '[' {
                    lemma_items_lits_grow(ctx, q, depth + 1, lits, Seq::empty());
                } else {
                    lemma_members_lits_grow(ctx, q, depth + 1, lits, Seq::empty());
                }
            }
        }
    }
}

/// The rest of an array read meets at least the literals met before it.
proof fn lemma_items_lits_grow(
    ctx: Context,
    p: int,
    depth: nat,
    lits: Seq<Seq<char>>,
    acc: Seq<JsonValue>,
)
    ensures
        items_at(ctx, p, depth, lits, acc) is Done ==> read_lits(
            items_at(ctx, p, depth, lits, acc),
        ).len() >= lits.len(),
    decreases ctx.s.len() - p, 1nat,
{
    let s = ctx.s;
    let q = skip_ws(s, p);
    if !(q < p || q > s.len()) {
        lemma_value_lits_grow(ctx, q, depth, lits);
        match value_at(ctx, q, depth, lits) {
            Read::Done(v, r, l) => {
                let t = skip_ws(s, r);
                if 0 <= t < s.len() && s[t] == ',' && t + 1 > p {
                    lemma_items_lits_grow(ctx, t + 1, depth, l, acc.push(v));
                }
            },
            _ => {},
        }
    }
}

/// The rest of an object read meets at least the literals met before it.
proof fn lemma_members_lits_grow(
    ctx: Context,
    p: int,
    depth: nat,
    lits: Seq<Seq<char>>,
    acc: Seq<(Seq<char>, JsonValue)>,
)
    ensures
        members_at(ctx, p, depth, lits, acc) is Done ==> read_lits(
            members_at(ctx, p, depth, lits, acc),
        ).len() >= lits.len(),
    decreases ctx.s.len() - p, 1nat,
{
    let s = ctx.s;
    let q = skip_ws(s, p);
    if !(q < p) && q < s.len() && s[q] == '"' {
        match string_at(s, q) {
            Ok((key, r)) => {
                let t = skip_ws(s, r);
                if 0 <= t < s.len() && s[t] == ':' {
                    let u = skip_ws(s, t + 1);
                    if !(u < p || u > s.len()) {
                        lemma_value_lits_grow(ctx, u, depth, lits);
                        match value_at(ctx, u, depth, lits) {
                            Read::Done(v, w, l) => {
                                let x = skip_ws(s, w);
                                if 0 <= x < s.len() && s[x] == ',' && x + 1 > p {
                                    lemma_members_lits_grow(
                                        ctx,
                                        x + 1,
                                        depth,
                                        l,
                                        inserted(acc, key, v),
                                    );
                                }
                            },
                            _ => {},
                        }
                    }
                }
            },
            Err(_) => {},
        }
    }
}

/// A value read under `ctx` is kept by a reading under `ctx2`.
#[verifier::rlimit(60)]
#[verifier::spinoff_prover]
pub proof fn lemma_value_keeps(
    ctx: Context,
    ctx2: Context,
    p: int,
    depth: nat,
    lits: Seq<Seq<char>>,
)
    requires
        admits_more(ctx, ctx2),
    ensures
        keeps(
            value_at(ctx, p, depth, lits),
            value_at(ctx2, p, depth, lits),
            ctx2.max_depth < ctx.max_depth,
        ),
    decreases ctx.s.len() - p, 0nat,
{
    let s = ctx.s;
    lemma_value_lits_grow(ctx, p, depth, lits);
    if 0 <= p < s.len() {
        let c = s[p];
        if (c == '[' || c == '{') && depth + 1 <= ctx.max_depth {
            let q = skip_ws(s, p + 1);
            if p + 1 <= q && q <= s.len() {
                if c == '[' {
                    lemma_items_keeps(ctx, ctx2, q, depth + 1, lits, Seq::empty());
                } else {
                    lemma_members_keeps(ctx, ctx2, q, depth + 1, lits, Seq::empty());
                }
            }
        }
    }
}

/// The rest of an array read under `ctx` is kept by a reading under `ctx2`.
#[verifier::rlimit(60)]
#[verifier::spinoff_prover]
pub proof fn lemma_items_keeps(
    ctx: Context,
    ctx2: Context,
    p: int,
    depth: nat,
    lits: Seq<Seq<char>>,
    acc: Seq<JsonValue>,
)
    requires
        admits_more(ctx, ctx2),
    ensures
        keeps(
            items_at(ctx, p, depth, lits, acc),
            items_at(ctx2, p, depth, lits, acc),
            ctx2.max_depth < ctx.max_depth,
        ),
    decreases ctx.s.len() - p, 1nat,
{
    let s = ctx.s;
    let q = skip_ws(s, p);
    if !(q < p || q > s.len()) {
        lemma_value_keeps(ctx, ctx2, q, depth, lits);
        match value_at(ctx, q, depth, lits) {
            Read::Done(v, r, l) => {
                let t = skip_ws(s, r);
                if 0 <= t < s.len() && s[t] == ',' && t + 1 > p {
                    lemma_items_keeps(ctx, ctx2, t + 1, depth, l, acc.push(v));
                    lemma_items_lits_grow(ctx, t + 1, depth, l, acc.push(v));
                }
            },
            _ => {},
        }
    }
}

/// The rest of an object read under `ctx` is kept by a reading under `ctx2`.
#[verifier::rlimit(60)]
#[verifier::spinoff_prover]
pub proof fn lemma_members_keeps(
    ctx: Context,
    ctx2: Context,
    p: int,
    depth: nat,
    lits: Seq<Seq<char>>,
    acc: Seq<(Seq<char>, JsonValue)>,
)
    requires
        admits_more(ctx, ctx2),
    ensures
        keeps(
            members_at(ctx, p, depth, lits, acc),
            members_at(ctx2, p, depth, lits, acc),
            ctx2.max_depth < ctx.max_depth,
        ),
    decreases ctx.s.len() - p, 1nat,
{
    let s = ctx.s;
    let q = skip_ws(s, p);
    if !(q < p) && q < s.len() && s[q] == '"' {
        match string_at(s, q) {
            Ok((key, r)) => {
                let t = skip_ws(s, r);
                if 0 <= t < s.len() && s[t] == ':' {
                    let u = skip_ws(s, t + 1);
                    if !(u < p || u > s.len()) {
                        lemma_value_keeps(ctx, ctx2, u, depth, lits);
                        match value_at(ctx, u, depth, lits) {
                            Read::Done(v, w, l) => {
                                let x = skip_ws(s, w);
                                if 0 <= x < s.len() && s[x] == ',' && x + 1 > p {
                                    lemma_members_keeps(
                                        ctx,
                                        ctx2,
                                        x + 1,
                                        depth,
                                        l,
                                        inserted(acc, key, v),
                                    );
                                    lemma_members_lits_grow(
                                        ctx,
                                        x + 1,
                                        depth,
                                        l,
                                        inserted(acc, key, v),
                                    );
                                }
                            },
                            _ => {},
                        }
                    }
                }
            },
            Err(_) => {},
        }
    }
}

/// A document accepted under `ctx` is read the same under `ctx2`, or,
/// under a lower cap, refused for its depth having met no more literals.
pub proof fn lemma_document_keeps(ctx: Context, ctx2: Context)
    requires
        admits_more(ctx, ctx2),
        document(ctx).0 is Ok,
    ensures
        document(ctx2) == document(ctx) || (ctx2.max_depth < ctx.max_depth && (document(
            ctx2,
        ).0 matches Err(f) && f.kind == ErrorKind::DepthLimitExceeded && document(ctx2).1.len()
            <= document(ctx).1.len())),
{
    reveal(document);
    lemma_value_keeps(ctx, ctx2, skip_ws(ctx.s, 0), 0, Seq::empty());
}

// ---------------------------------------------------------------------------
// Nothing read is nested deeper than the cap
// ---------------------------------------------------------------------------

/// An array whose elements are each no deeper than `b` is no deeper than
/// `b` inside.
proof fn lemma_items_depth_bound(s: Seq<JsonValue>, i: int, b: int)
    requires
        0 <= i <= s.len(),
        0 <= b,
        forall|k: int| i <= k < s.len() ==> json_depth(#[trigger] s[k]) <= b,
    ensures
        items_depth(s, i) <= b,
    decreases s.len() - i,
{
    if i < s.len() {
        lemma_items_depth_bound(s, i + 1, b);
    }
}

/// An object whose values are each no deeper than `b` is no deeper than
/// `b` inside.
proof fn lemma_entries_depth_bound(s: Seq<(Seq<char>, JsonValue)>, i: int, b: int)
    requires
        0 <= i <= s.len(),
        0 <= b,
        forall|k: int| i <= k < s.len() ==> json_depth(#[trigger] s[k].1) <= b,
    ensures
        entries_depth(s, i) <= b,
    decreases s.len() - i,
{
    if i < s.len() {
        lemma_entries_depth_bound(s, i + 1, b);
    }
}

/// A value read `depth` containers deep nests no further than the cap.
#[verifier::rlimit(60)]
#[verifier::spinoff_prover]
pub proof fn lemma_value_within_cap(ctx: Context, p: int, depth: nat, lits: Seq<Seq<char>>)
    requires
        depth <= ctx.max_depth,
    ensures
        value_at(ctx, p, depth, lits) matches Read::Done(v, _, _) ==> depth + json_depth(v)
            <= ctx.max_depth,
    decreases ctx.s.len() - p, 0nat,
{
    let s = ctx.s;
    if 0 <= p < s.len() {
        let c = s[p];
        if (c == '[' || c == '{') && depth + 1 <= ctx.max_depth {
            let q = skip_ws(s, p + 1);
            let b = ctx.max_depth - (depth + 1);
            if c == '[' {
                if p + 1 <= q && q <= s.len() {
                    lemma_items_within_cap(ctx, q, depth + 1, lits, Seq::empty());
                    match items_at(ctx, q, depth + 1, lits, Seq::empty()) {
                        Read::Done(JsonValue::Array(all), _, _) => {
                            lemma_items_depth_bound(all, 0, b);
                        },
                        _ => {},
                    }
                }
            } else {
                if p + 1 <= q && q <= s.len() {
                    lemma_members_within_cap(ctx, q, depth + 1, lits, Seq::empty());
                    match members_at(ctx, q, depth + 1, lits, Seq::empty()) {
                        Read::Done(JsonValue::Object(all), _, _) => {
                            lemma_entries_depth_bound(all, 0, b);
                        },
                        _ => {},
                    }
                }
            }
        }
    }
}

/// The elements of an array read `depth` containers deep nest no further
/// than the cap, given that those read so far do not.
#[verifier::rlimit(60)]
#[verifier::spinoff_prover]
proof fn lemma_items_within_cap(
    ctx: Context,
    p: int,
    depth: nat,
    lits: Seq<Seq<char>>,
    acc: Seq<JsonValue>,
)
    requires
        depth <= ctx.max_depth,
        forall|k: int| 0 <= k < acc.len() ==> depth + json_depth(#[trigger] acc[k]) <= ctx.max_depth,
    ensures
        items_at(ctx, p, depth, lits, acc) matches Read::Done(r, _, _) ==> (r matches JsonValue::Array(
            all,
        ) && forall|k: int| 0 <= k < all.len() ==> depth + json_depth(#[trigger] all[k]) <= ctx.max_depth),
    decreases ctx.s.len() - p, 1nat,
{
    let s = ctx.s;
    let q = skip_ws(s, p);
    if !(q < p || q > s.len()) {
        lemma_value_within_cap(ctx, q, depth, lits);
        match value_at(ctx, q, depth, lits) {
            Read::Done(v, r, l) => {
                let acc2 = acc.push(v);
                assert forall|k: int| 0 <= k < acc2.len() implies depth + json_depth(
                    #[trigger] acc2[k],
                ) <= ctx.max_depth by {
                    if k < acc.len() {
                        assert(acc2[k] == acc[k]);
                    }
                }
                let t = skip_ws(s, r);
                if 0 <= t < s.len() && s[t] == ',' && t + 1 > p {
                    lemma_items_within_cap(ctx, t + 1, depth, l, acc2);
                }
            },
            _ => {},
        }
    }
}

/// The values of an object read `depth` containers deep nest no further
/// than the cap, given that those read so far do not.
#[verifier::rlimit(60)]
#[verifier::spinoff_prover]
proof fn lemma_members_within_cap(
    ctx: Context,
    p: int,
    depth: nat,
    lits: Seq<Seq<char>>,
    acc: Seq<(Seq<char>, JsonValue)>,
)
    requires
        depth <= ctx.max_depth,
        forall|k: int|
            0 <= k < acc.len() ==> depth + json_depth(#[trigger] acc[k].1) <= ctx.max_depth,
    ensures
        members_at(ctx, p, depth, lits, acc) matches Read::Done(r, _, _) ==> (r matches JsonValue::Object(
            all,
        ) && forall|k: int|
            0 <= k < all.len() ==> depth + json_depth(#[trigger] all[k].1) <= ctx.max_depth),
    decreases ctx.s.len() - p, 1nat,
{
    let s = ctx.s;
    let q = skip_ws(s, p);
    if !(q < p) && q < s.len() && s[q] == '"' {
        match string_at(s, q) {
            Ok((key, r)) => {
                let t = skip_ws(s, r);
                if 0 <= t < s.len() && s[t] == ':' {
                    let u = skip_ws(s, t + 1);
                    if !(u < p || u > s.len()) {
                        lemma_value_within_cap(ctx, u, depth, lits);
                        match value_at(ctx, u, depth, lits) {
                            Read::Done(v, w, l) => {
                                let acc2 = inserted(acc, key, v);
                                lemma_find_key(acc, key);
                                assert forall|k: int| 0 <= k < acc2.len() implies depth + json_depth(
                                    #[trigger] acc2[k].1,
                                ) <= ctx.max_depth by {
                                    if k < acc.len() && acc2[k] != (key, v) {
                                        assert(acc2[k] == acc[k]);
                                    }
                                }
                                let x = skip_ws(s, w);
                                if 0 <= x < s.len() && s[x] == ',' && x + 1 > p {
                                    lemma_members_within_cap(ctx, x + 1, depth, l, acc2);
                                }
                            },
                            _ => {},
                        }
                    }
                }
            },
            Err(_) => {},
        }
    }
}

/// A document accepted is nested no deeper than the cap.
pub proof fn lemma_document_within_cap(ctx: Context)
    ensures
        document(ctx).0 matches Ok(v) ==> json_depth(v) <= ctx.max_depth,
{
    reveal(document);
    lemma_value_within_cap(ctx, skip_ws(ctx.s, 0), 0, Seq::empty());
}

// ---------------------------------------------------------------------------
// The laws
// ---------------------------------------------------------------------------

/// The value a reading step gave, when it gave one.
pub open spec fn step_value(r: ParseStep) -> Option<JsonValue> {
    match r {
        ParseStep::Done(Ok(v)) => Some(v@),
        _ => None,
    }
}

/// The kind of the refusal a reading step gave, when it gave one.
pub open spec fn step_refusal(r: ParseStep) -> Option<ErrorKind> {
    match r {
        ParseStep::Done(Err(e)) => Some(e.kind),
        _ => None,
    }
}

/// The nesting cap: a document accepted under one cap is, under another
/// (reading big integers lossily at least as often), read to the same value
/// or refused for its depth; refused only when the other cap is lower, and
/// always when its value nests deeper than the other cap.
pub proof fn law_depth_cap(
    input: Seq<char>,
    floats: Seq<Option<crate::value::FloatText>>,
    options: ParseOptions,
    accepted: ParseStep,
    other: ParseOptions,
    r: ParseStep,
)
    requires
        step_matches(accepted, input, options, floats),
        step_value(accepted) is Some,
        options.spec_lossy() ==> other.spec_lossy(),
        step_matches(r, input, other, floats),
    ensures
        r is Done,
        step_value(r) is Some ==> step_value(r) == step_value(accepted),
        step_value(r) is None ==> step_refusal(r) == Some(ErrorKind::DepthLimitExceeded),
        other.spec_max_depth() >= options.spec_max_depth() ==> step_value(r) == step_value(
            accepted,
        ),
        json_depth(step_value(accepted)->Some_0) > other.spec_max_depth() ==> step_refusal(r)
            == Some(ErrorKind::DepthLimitExceeded),
{
    let ctx = context_of(input, options, floats);
    let ctx2 = context_of(input, other, floats);
    lemma_document_keeps(ctx, ctx2);
    lemma_document_within_cap(ctx2);
}

/// Reading big integers lossily never changes a document already accepted
/// without it.
pub proof fn law_lossy_reading_keeps_accepted(
    input: Seq<char>,
    floats: Seq<Option<crate::value::FloatText>>,
    options: ParseOptions,
    accepted: ParseStep,
    lossy: ParseOptions,
    r: ParseStep,
)
    requires
        step_matches(accepted, input, options, floats),
        step_value(accepted) is Some,
        lossy.spec_lossy(),
        lossy.spec_max_depth() == options.spec_max_depth(),
        step_matches(r, input, lossy, floats),
    ensures
        step_value(r) == step_value(accepted),
{
    let ctx = context_of(input, options, floats);
    let ctx2 = context_of(input, lossy, floats);
    lemma_document_keeps(ctx, ctx2);
}

} // verus!
