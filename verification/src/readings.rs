//! Two readings suffice: the float literals a reading meets do not depend
//! on the float table, except that a literal the table holds as infinite
//! ends the reading there. So a second reading, against a table with an
//! entry for each literal the first one named, always comes to an end.

use vstd::prelude::*;

use crate::grammar::{
    document, float_literal, items_at, members_at, number_at, skip_ws, value_at, Context, Read,
};
use crate::parse::{floats_view, step_matches, texts_view, ParseOptions, ParseStep};
use crate::value::{FloatText, JsonValue};

verus! {

/// The reading context with an empty float table.
pub open spec fn blank(ctx: Context) -> Context {
    Context { s: ctx.s, max_depth: ctx.max_depth, lossy: ctx.lossy, floats: Seq::empty() }
}

/// Whether two readings took the same course: both ended at the same
/// place, or both failed, having met the same float literals.
pub open spec fn same_course(a: Read<JsonValue>, b: Read<JsonValue>) -> bool {
    match (a, b) {
        (Read::Done(_, q1, l1), Read::Done(_, q2, l2)) => q1 == q2 && l1 == l2,
        (Read::Failed(_, l1), Read::Failed(_, l2)) => l1 == l2,
        _ => false,
    }
}

/// Whether reading `b`, against a table of `n` entries, followed reading
/// `a`: it took the same course, or it failed having met no more literals
/// than the table has entries.
pub open spec fn follows(a: Read<JsonValue>, b: Read<JsonValue>, n: nat) -> bool {
    same_course(a, b) || (b matches Read::Failed(_, l) && l.len() <= n)
}

/// A float literal, read against any table, follows its reading against an
/// empty one.
proof fn lemma_follows_float(ctx: Context, p: int, end: int, lits: Seq<Seq<char>>)
    ensures
        follows(
            float_literal(blank(ctx), p, end, lits),
            float_literal(ctx, p, end, lits),
            ctx.floats.len(),
        ),
{
}

/// A number follows its reading against an empty table.
proof fn lemma_follows_number(ctx: Context, p: int, lits: Seq<Seq<char>>)
    ensures
        follows(number_at(blank(ctx), p, lits), number_at(ctx, p, lits), ctx.floats.len()),
{
    lemma_follows_float(ctx, p, 0, lits);
    let s = ctx.s;
    match crate::grammar::number_scan(s, p) {
        Some((ds, ie, end)) => {
            lemma_follows_float(ctx, p, end, lits);
        },
        None => {},
    }
}

/// A value follows its reading against an empty table.
#[verifier::rlimit(60)]
#[verifier::spinoff_prover]
pub proof fn lemma_follows_value(ctx: Context, p: int, depth: nat, lits: Seq<Seq<char>>)
    ensures
        follows(
            value_at(blank(ctx), p, depth, lits),
            value_at(ctx, p, depth, lits),
            ctx.floats.len(),
        ),
    decreases ctx.s.len() - p, 0nat,
{
    let s = ctx.s;
    if 0 <= p < s.len() {
        let c = s[p];
        if c == '-' || crate::value::is_digit(c) {
            lemma_follows_number(ctx, p, lits);
        } else if (c == '[' || c == '{') && depth + 1 <= ctx.max_depth {
            let q = skip_ws(s, p + 1);
            if p + 1 <= q && q <= s.len() {
                if c == '[' {
                    lemma_follows_items(ctx, q, depth + 1, lits, Seq::empty(), Seq::empty());
                } else {
                    lemma_follows_members(ctx, q, depth + 1, lits, Seq::empty(), Seq::empty());
                }
            }
        }
    }
}

/// The rest of an array follows its reading against an empty table.
#[verifier::rlimit(60)]
#[verifier::spinoff_prover]
pub proof fn lemma_follows_items(
    ctx: Context,
    p: int,
    depth: nat,
    lits: Seq<Seq<char>>,
    acc_blank: Seq<JsonValue>,
    acc: Seq<JsonValue>,
)
    ensures
        follows(
            items_at(blank(ctx), p, depth, lits, acc_blank),
            items_at(ctx, p, depth, lits, acc),
            ctx.floats.len(),
        ),
    decreases ctx.s.len() - p, 1nat,
{
    let s = ctx.s;
    let q = skip_ws(s, p);
    if !(q < p || q > s.len()) {
        lemma_follows_value(ctx, q, depth, lits);
        match (value_at(blank(ctx), q, depth, lits), value_at(ctx, q, depth, lits)) {
            (Read::Done(vb, r, l), Read::Done(v, r2, l2)) => {
                if r == r2 && l == l2 {
                    let t = skip_ws(s, r);
                    if 0 <= t < s.len() && s[t] == ',' && t + 1 > p {
                        lemma_follows_items(ctx, t + 1, depth, l, acc_blank.push(vb), acc.push(v));
                    }
                }
            },
            _ => {},
        }
    }
}

/// The rest of an object follows its reading against an empty table.
#[verifier::rlimit(60)]
#[verifier::spinoff_prover]
pub proof fn lemma_follows_members(
    ctx: Context,
    p: int,
    depth: nat,
    lits: Seq<Seq<char>>,
    acc_blank: Seq<(Seq<char>, JsonValue)>,
    acc: Seq<(Seq<char>, JsonValue)>,
)
    ensures
        follows(
            members_at(blank(ctx), p, depth, lits, acc_blank),
            members_at(ctx, p, depth, lits, acc),
            ctx.floats.len(),
        ),
    decreases ctx.s.len() - p, 1nat,
{
    let s = ctx.s;
    let q = skip_ws(s, p);
    if !(q < p) && q < s.len() && s[q] == '"' {
        match crate::grammar::string_at(s, q) {
            Ok((key, r)) => {
                let t = skip_ws(s, r);
                if 0 <= t < s.len() && s[t] == ':' {
                    let u = skip_ws(s, t + 1);
                    if !(u < p || u > s.len()) {
                        lemma_follows_value(ctx, u, depth, lits);
                        match (value_at(blank(ctx), u, depth, lits), value_at(ctx, u, depth, lits)) {
                            (Read::Done(vb, w, l), Read::Done(v, w2, l2)) => {
                                if w == w2 && l == l2 {
                                    let x = skip_ws(s, w);
                                    if 0 <= x < s.len() && s[x] == ',' && x + 1 > p {
                                        lemma_follows_members(
                                            ctx,
                                            x + 1,
                                            depth,
                                            l,
                                            crate::value::inserted(acc_blank, key, vb),
                                            crate::value::inserted(acc, key, v),
                                        );
                                    }
                                }
                            },
                            _ => {},
                        }
                    }
                }
            },
            Err(_) => {},
        }
    }
}

/// A document read against a table with at least as many entries as the
/// float literals its reading against an empty table met, meets no more
/// literals than the table has entries.
pub proof fn law_two_readings_suffice(ctx: Context)
    requires
        document(blank(ctx)).1.len() <= ctx.floats.len(),
    ensures
        document(ctx).1.len() <= ctx.floats.len(),
{
    reveal(document);
    lemma_follows_value(ctx, skip_ws(ctx.s, 0), 0, Seq::empty());
}

/// After a first [`parse_step`](crate::parse_step) against an empty table
/// names its float literals, a second one against a table with an entry
/// for each of them is done: reading a document takes at most two steps.
pub proof fn law_second_step_is_done(
    input: Seq<char>,
    options: ParseOptions,
    first: ParseStep,
    floats: Seq<Option<FloatText>>,
    second: ParseStep,
)
    requires
        step_matches(first, input, options, Seq::empty()),
        first matches ParseStep::NeedFloats(named) ==> named@.len() <= floats.len(),
        step_matches(second, input, options, floats),
    ensures
        second is Done,
{
    let ctx = crate::parse::context_of(input, options, floats);
    assert(floats_view(Seq::<Option<FloatText>>::empty()) =~= Seq::<Option<Seq<char>>>::empty());
    assert(crate::parse::context_of(input, options, Seq::empty()) == blank(ctx));
    let lits = document(blank(ctx)).1;
    if lits.len() > 0 {
        let named = first->NeedFloats_0;
        assert(texts_view(named@).len() == named@.len());
        assert(lits.skip(0) =~= lits);
    }
    law_two_readings_suffice(ctx);
}

} // verus!
