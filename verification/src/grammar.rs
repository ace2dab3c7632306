//! The reader's grammar as spec functions: strict RFC 8259 with a depth cap,
//! over the document's characters.
//!
//! Positions are character indices. Each function returns what it read and
//! where it stopped, or the fault and where it happened. The float literals
//! met on the way are collected in order: the `k`-th one takes the `k`-th
//! entry of the float table the caller supplies, and a literal past the end
//! of the table is recorded and read as a placeholder, so that one pass
//! learns every literal the document needs.

use vstd::prelude::*;

use crate::error::ErrorKind;
use crate::value::{inserted, is_digit, JsonNumber, JsonValue};

verus! {

/// A parse failure in the model: its kind, the character position it is
/// reported at, and the extra context it carries.
pub struct Fault {
    pub kind: ErrorKind,
    pub at: int,
    pub detail: Option<Seq<char>>,
}

/// What one reading step gives: a result and where it stopped, or a fault;
/// with the float literals collected so far.
pub enum Read<T> {
    Done(T, int, Seq<Seq<char>>),
    Failed(Fault, Seq<Seq<char>>),
}

/// A fault with no extra context.
pub open spec fn fault(kind: ErrorKind, at: int) -> Fault {
    Fault { kind, at, detail: None }
}

/// The context carried when nesting passes the cap.
pub open spec fn depth_detail() -> Seq<char> {
    "raise ParseOptions::with_max_depth only for a document you trust"@
}

/// The context carried when an integer literal does not fit.
pub open spec fn big_integer_detail() -> Seq<char> {
    "an integer literal outside u64/i64 would lose precision as a float; set ParseOptions::with_lossy_big_integers to accept that"@
}

/// The context carried when a float literal is not finite.
pub open spec fn infinite_detail() -> Seq<char> {
    "the literal overflows to infinity, which JSON cannot represent"@
}

/// What a reader of this grammar needs besides the position.
pub struct Context {
    /// The document's characters.
    pub s: Seq<char>,
    /// The nesting cap.
    pub max_depth: nat,
    /// Whether an out-of-range integer is read as a float.
    pub lossy: bool,
    /// The float table: for the `k`-th float literal, its rendering, or
    /// `None` when it is not finite.
    pub floats: Seq<Option<Seq<char>>>,
}

/// The four characters JSON calls whitespace.
pub open spec fn is_ws(c: char) -> bool {
    c == ' ' || c == '\t' || c == '\n' || c == '\r'
}

/// The first position at or after `p` that is not whitespace.
pub open spec fn skip_ws(s: Seq<char>, p: int) -> int
    decreases s.len() - p,
{
    if 0 <= p < s.len() && is_ws(s[p]) {
        skip_ws(s, p + 1)
    } else {
        p
    }
}

/// The first position at or after `p` that is not a digit.
pub open spec fn digits_end(s: Seq<char>, p: int) -> int
    decreases s.len() - p,
{
    if 0 <= p < s.len() && is_digit(s[p]) {
        digits_end(s, p + 1)
    } else {
        p
    }
}

/// Whether `s[p]` exists and is a digit.
pub open spec fn digit_at(s: Seq<char>, p: int) -> bool {
    0 <= p < s.len() && is_digit(s[p])
}

/// Whether `s[p]` exists and is `c`.
pub open spec fn char_at(s: Seq<char>, p: int, c: char) -> bool {
    0 <= p < s.len() && s[p] == c
}

/// The value of a digit.
pub open spec fn digit_value(c: char) -> nat {
    (c as u32 - '0' as u32) as nat
}

/// The value of a run of decimal digits.
pub open spec fn decimal_value(d: Seq<char>) -> nat
    decreases d.len(),
{
    if d.len() == 0 {
        0
    } else {
        decimal_value(d.drop_last()) * 10 + digit_value(d.last())
    }
}

/// The value of a hex digit, when `c` is one.
pub open spec fn hex_value(c: char) -> Option<u32> {
    if '0' <= c && c <= '9' {
        Some((c as u32 - '0' as u32) as u32)
    } else if 'a' <= c && c <= 'f' {
        Some((c as u32 - 'a' as u32 + 10) as u32)
    } else if 'A' <= c && c <= 'F' {
        Some((c as u32 - 'A' as u32 + 10) as u32)
    } else {
        None
    }
}

/// Four hex digits at `p`; a fault is reported at `start`, the backslash.
pub open spec fn hex4(s: Seq<char>, p: int, start: int) -> Result<(u32, int), Fault> {
    if p + 4 > s.len() {
        Err(fault(ErrorKind::InvalidEscape, start))
    } else {
        match (hex_value(s[p]), hex_value(s[p + 1]), hex_value(s[p + 2]), hex_value(s[p + 3])) {
            (Some(a), Some(b), Some(c), Some(d)) => Ok(
                ((((a * 16 + b) * 16 + c) * 16 + d) as u32, p + 4),
            ),
            _ => Err(fault(ErrorKind::InvalidEscape, start)),
        }
    }
}

/// What follows `\u` at `p`; `start` is the backslash.
pub open spec fn unicode_escape(s: Seq<char>, p: int, start: int) -> Result<(char, int), Fault> {
    match hex4(s, p, start) {
        Err(f) => Err(f),
        Ok((first, q)) => if !(0xD800 <= first && first <= 0xDFFF) {
            Ok((first as char, q))
        } else if first >= 0xDC00 {
            Err(fault(ErrorKind::LoneSurrogate, start))
        } else if !(char_at(s, q, '\\') && char_at(s, q + 1, 'u')) {
            Err(fault(ErrorKind::LoneSurrogate, start))
        } else {
            match hex4(s, q + 2, start) {
                Err(f) => Err(f),
                Ok((second, r)) => if !(0xDC00 <= second && second <= 0xDFFF) {
                    Err(fault(ErrorKind::LoneSurrogate, start))
                } else {
                    Ok(
                        (
                            (0x10000 + (first - 0xD800) * 0x400 + (second - 0xDC00)) as u32 as char,
                            r,
                        ),
                    )
                },
            }
        },
    }
}

/// The escape after the backslash at `p - 1`.
pub open spec fn escape(s: Seq<char>, p: int) -> Result<(char, int), Fault> {
    let start = p - 1;
    if p >= s.len() {
        Err(fault(ErrorKind::UnexpectedEof, p))
    } else {
        let c = s[p];
        if c == '"' {
            Ok(('"', p + 1))
        } else if c == '\\' {
            Ok(('\\', p + 1))
        } else if c == '/' {
            Ok(('/', p + 1))
        } else if c == 'b' {
            Ok(('\u{8}', p + 1))
        } else if c == 'f' {
            Ok(('\u{c}', p + 1))
        } else if c == 'n' {
            Ok(('\n', p + 1))
        } else if c == 'r' {
            Ok(('\r', p + 1))
        } else if c == 't' {
            Ok(('\t', p + 1))
        } else if c == 'u' {
            unicode_escape(s, p + 1, start)
        } else {
            Err(fault(ErrorKind::InvalidEscape, start))
        }
    }
}

/// The rest of a string from `p`, after its opening quote, with `acc` read
/// so far.
pub open spec fn string_rest(s: Seq<char>, p: int, acc: Seq<char>) -> Result<(Seq<char>, int), Fault>
    decreases s.len() - p,
{
    if p < 0 || p >= s.len() {
        Err(fault(ErrorKind::UnexpectedEof, p))
    } else if s[p] == '"' {
        Ok((acc, p + 1))
    } else if s[p] == '\\' {
        match escape(s, p + 1) {
            Err(f) => Err(f),
            Ok((c, q)) => if q > p {
                string_rest(s, q, acc.push(c))
            } else {
                Err(fault(ErrorKind::UnexpectedEof, p))
            },
        }
    } else if (s[p] as u32) < 0x20 {
        Err(fault(ErrorKind::ControlCharacterInString, p))
    } else {
        string_rest(s, p + 1, acc.push(s[p]))
    }
}

/// A string whose opening quote is at `p`.
pub open spec fn string_at(s: Seq<char>, p: int) -> Result<(Seq<char>, int), Fault> {
    string_rest(s, p + 1, Seq::empty())
}

/// Where a number's integer part ends, from `p` after an optional minus
/// sign; `None` when there is no integer part.
pub open spec fn int_part_end(s: Seq<char>, p: int) -> Option<int> {
    if char_at(s, p, '0') {
        Some(p + 1)
    } else if 0 <= p < s.len() && '1' <= s[p] && s[p] <= '9' {
        Some(digits_end(s, p))
    } else {
        None
    }
}

/// Where a number's fraction ends, from `p` after the integer part:
/// `Some(p)` when there is none, `None` when it is malformed.
pub open spec fn fraction_end(s: Seq<char>, p: int) -> Option<int> {
    if char_at(s, p, '.') {
        if digit_at(s, p + 1) {
            Some(digits_end(s, p + 1))
        } else {
            None
        }
    } else {
        Some(p)
    }
}

/// Where a number's exponent ends, from `p` after the fraction.
pub open spec fn exponent_end(s: Seq<char>, p: int) -> Option<int> {
    if char_at(s, p, 'e') || char_at(s, p, 'E') {
        let q = if char_at(s, p + 1, '+') || char_at(s, p + 1, '-') {
            p + 2
        } else {
            p + 1
        };
        if digit_at(s, q) {
            Some(digits_end(s, q))
        } else {
            None
        }
    } else {
        Some(p)
    }
}

/// The scan of a number literal starting at `p`: where its integer part
/// starts and ends and where the whole literal ends.
pub open spec fn number_scan(s: Seq<char>, p: int) -> Option<(int, int, int)> {
    let digits_start = if char_at(s, p, '-') {
        p + 1
    } else {
        p
    };
    match int_part_end(s, digits_start) {
        None => None,
        Some(ie) => match fraction_end(s, ie) {
            None => None,
            Some(fe) => match exponent_end(s, fe) {
                None => None,
                Some(end) => Some((digits_start, ie, end)),
            },
        },
    }
}

/// The exact integer an integer literal stands for, when it fits.
pub open spec fn exact_integer(negative: bool, magnitude: nat) -> Option<JsonNumber> {
    if !negative {
        if magnitude <= u64::MAX {
            Some(JsonNumber::PosInt(magnitude as u64))
        } else {
            None
        }
    } else if magnitude == 0 {
        Some(JsonNumber::PosInt(0))
    } else if magnitude <= 0x8000_0000_0000_0000 {
        Some(JsonNumber::NegInt((0 - magnitude) as i64))
    } else {
        None
    }
}

/// The rendering read for a float literal that is past the table.
pub open spec fn placeholder() -> Seq<char> {
    seq!['0']
}

/// A float literal `text` starting at `p` and ending at `end`: the next
/// entry of the float table.
pub open spec fn float_literal(
    ctx: Context,
    p: int,
    end: int,
    lits: Seq<Seq<char>>,
) -> Read<JsonValue> {
    let text = ctx.s.subrange(p, end);
    let k = lits.len();
    let lits2 = lits.push(text);
    if k < ctx.floats.len() {
        match ctx.floats[k as int] {
            Some(r) => Read::Done(JsonValue::Number(JsonNumber::Float(r)), end, lits2),
            None => Read::Failed(
                Fault { kind: ErrorKind::NumberOutOfRange, at: p, detail: Some(infinite_detail()) },
                lits2,
            ),
        }
    } else {
        Read::Done(JsonValue::Number(JsonNumber::Float(placeholder())), end, lits2)
    }
}

/// A number starting at `p`.
pub open spec fn number_at(ctx: Context, p: int, lits: Seq<Seq<char>>) -> Read<JsonValue> {
    let s = ctx.s;
    match number_scan(s, p) {
        None => Read::Failed(fault(ErrorKind::InvalidNumber, p), lits),
        Some((ds, ie, end)) => {
            let is_float = end != ie;
            if is_float {
                float_literal(ctx, p, end, lits)
            } else {
                match exact_integer(ds != p, decimal_value(s.subrange(ds, ie))) {
                    Some(n) => Read::Done(JsonValue::Number(n), end, lits),
                    None => if ctx.lossy {
                        float_literal(ctx, p, end, lits)
                    } else {
                        Read::Failed(
                            Fault {
                                kind: ErrorKind::NumberOutOfRange,
                                at: p,
                                detail: Some(big_integer_detail()),
                            },
                            lits,
                        )
                    },
                }
            }
        },
    }
}

/// Whether `word` stands at `p`.
pub open spec fn word_at(s: Seq<char>, p: int, word: Seq<char>) -> bool {
    0 <= p && p + word.len() <= s.len() && s.subrange(p, p + word.len()) == word
}

/// A value at `p`, nested `depth` containers deep.
pub open spec fn value_at(ctx: Context, p: int, depth: nat, lits: Seq<Seq<char>>) -> Read<
    JsonValue,
>
    decreases ctx.s.len() - p, 0nat,
{
    let s = ctx.s;
    if p < 0 || p >= s.len() {
        Read::Failed(fault(ErrorKind::UnexpectedEof, p), lits)
    } else {
        let c = s[p];
        if c == 'n' {
            if word_at(s, p, "null"@) {
                Read::Done(JsonValue::Null, p + 4, lits)
            } else {
                Read::Failed(fault(ErrorKind::UnexpectedChar, p), lits)
            }
        } else if c == 't' {
            if word_at(s, p, "true"@) {
                Read::Done(JsonValue::Bool(true), p + 4, lits)
            } else {
                Read::Failed(fault(ErrorKind::UnexpectedChar, p), lits)
            }
        } else if c == 'f' {
            if word_at(s, p, "false"@) {
                Read::Done(JsonValue::Bool(false), p + 5, lits)
            } else {
                Read::Failed(fault(ErrorKind::UnexpectedChar, p), lits)
            }
        } else if c == '"' {
            match string_at(s, p) {
                Ok((text, q)) => Read::Done(JsonValue::String(text), q, lits),
                Err(f) => Read::Failed(f, lits),
            }
        } else if c == '[' || c == '{' {
            if depth + 1 > ctx.max_depth {
                Read::Failed(
                    Fault {
                        kind: ErrorKind::DepthLimitExceeded,
                        at: p,
                        detail: Some(depth_detail()),
                    },
                    lits,
                )
            } else {
                let q = skip_ws(s, p + 1);
                if c == '[' {
                    if char_at(s, q, ']') {
                        Read::Done(JsonValue::Array(Seq::empty()), q + 1, lits)
                    } else if p + 1 <= q && q <= s.len() {
                        items_at(ctx, q, depth + 1, lits, Seq::empty())
                    } else {
                        Read::Failed(fault(ErrorKind::UnexpectedEof, p), lits)
                    }
                } else {
                    if char_at(s, q, '}') {
                        Read::Done(JsonValue::Object(Seq::empty()), q + 1, lits)
                    } else if p + 1 <= q && q <= s.len() {
                        members_at(ctx, q, depth + 1, lits, Seq::empty())
                    } else {
                        Read::Failed(fault(ErrorKind::UnexpectedEof, p), lits)
                    }
                }
            }
        } else if c == '-' || is_digit(c) {
            number_at(ctx, p, lits)
        } else {
            Read::Failed(fault(ErrorKind::UnexpectedChar, p), lits)
        }
    }
}

/// The rest of an array from `p`, with `acc` read so far.
pub open spec fn items_at(
    ctx: Context,
    p: int,
    depth: nat,
    lits: Seq<Seq<char>>,
    acc: Seq<JsonValue>,
) -> Read<JsonValue>
    decreases ctx.s.len() - p, 1nat,
{
    let s = ctx.s;
    let q = skip_ws(s, p);
    if q < p || q > s.len() {
        Read::Failed(fault(ErrorKind::UnexpectedEof, p), lits)
    } else {
        match value_at(ctx, q, depth, lits) {
            Read::Failed(f, l) => Read::Failed(f, l),
            Read::Done(v, r, l) => {
                let t = skip_ws(s, r);
                if t < 0 || t >= s.len() {
                    Read::Failed(fault(ErrorKind::UnexpectedEof, t), l)
                } else if s[t] == ',' {
                    if t + 1 > p {
                        items_at(ctx, t + 1, depth, l, acc.push(v))
                    } else {
                        Read::Failed(fault(ErrorKind::UnexpectedEof, p), l)
                    }
                } else if s[t] == ']' {
                    Read::Done(JsonValue::Array(acc.push(v)), t + 1, l)
                } else {
                    Read::Failed(fault(ErrorKind::UnexpectedChar, t), l)
                }
            },
        }
    }
}

/// The rest of an object from `p`, with `acc` read so far.
pub open spec fn members_at(
    ctx: Context,
    p: int,
    depth: nat,
    lits: Seq<Seq<char>>,
    acc: Seq<(Seq<char>, JsonValue)>,
) -> Read<JsonValue>
    decreases ctx.s.len() - p, 1nat,
{
    let s = ctx.s;
    let q = skip_ws(s, p);
    if q < p {
        Read::Failed(fault(ErrorKind::UnexpectedEof, p), lits)
    } else if q >= s.len() {
        Read::Failed(fault(ErrorKind::UnexpectedEof, q), lits)
    } else if s[q] != '"' {
        Read::Failed(fault(ErrorKind::UnexpectedChar, q), lits)
    } else {
        match string_at(s, q) {
            Err(f) => Read::Failed(f, lits),
            Ok((key, r)) => {
                let t = skip_ws(s, r);
                if t < 0 || t >= s.len() {
                    Read::Failed(fault(ErrorKind::UnexpectedEof, t), lits)
                } else if s[t] != ':' {
                    Read::Failed(fault(ErrorKind::UnexpectedChar, t), lits)
                } else {
                    let u = skip_ws(s, t + 1);
                    if u < p || u > s.len() {
                        Read::Failed(fault(ErrorKind::UnexpectedEof, p), lits)
                    } else {
                        match value_at(ctx, u, depth, lits) {
                            Read::Failed(f, l) => Read::Failed(f, l),
                            Read::Done(v, w, l) => {
                                let acc2 = inserted(acc, key, v);
                                let x = skip_ws(s, w);
                                if x < 0 || x >= s.len() {
                                    Read::Failed(fault(ErrorKind::UnexpectedEof, x), l)
                                } else if s[x] == ',' {
                                    if x + 1 > p {
                                        members_at(ctx, x + 1, depth, l, acc2)
                                    } else {
                                        Read::Failed(fault(ErrorKind::UnexpectedEof, p), l)
                                    }
                                } else if s[x] == '}' {
                                    Read::Done(JsonValue::Object(acc2), x + 1, l)
                                } else {
                                    Read::Failed(fault(ErrorKind::UnexpectedChar, x), l)
                                }
                            },
                        }
                    }
                }
            },
        }
    }
}

/// A whole document: exactly one value, optionally surrounded by whitespace.
/// Gives the value or the fault, and every float literal met.
#[verifier::opaque]
pub open spec fn document(ctx: Context) -> (Result<JsonValue, Fault>, Seq<Seq<char>>) {
    let s = ctx.s;
    let p = skip_ws(s, 0);
    match value_at(ctx, p, 0, Seq::empty()) {
        Read::Failed(f, l) => (Err(f), l),
        Read::Done(v, q, l) => {
            let r = skip_ws(s, q);
            if r < s.len() {
                (Err(fault(ErrorKind::TrailingData, r)), l)
            } else {
                (Ok(v), l)
            }
        },
    }
}


/// `skip_ws` stays within the document.
pub proof fn lemma_skip_ws_bounds(s: Seq<char>, p: int)
    requires
        0 <= p <= s.len(),
    ensures
        p <= skip_ws(s, p) <= s.len(),
    decreases s.len() - p,
{
    if p < s.len() && is_ws(s[p]) {
        lemma_skip_ws_bounds(s, p + 1);
    }
}

/// One element of an array, unfolded.
#[verifier::rlimit(40)]
pub proof fn lemma_items_step(
    ctx: Context,
    p: int,
    depth: nat,
    lits: Seq<Seq<char>>,
    acc: Seq<JsonValue>,
)
    requires
        0 <= p <= ctx.s.len(),
        value_at(ctx, skip_ws(ctx.s, p), depth, lits) matches Read::Done(_, r, _) ==> skip_ws(
            ctx.s,
            p,
        ) < r <= ctx.s.len(),
    ensures
        ({
            let s = ctx.s;
            let q = skip_ws(s, p);
            match value_at(ctx, q, depth, lits) {
                Read::Failed(f, l) => items_at(ctx, p, depth, lits, acc) == Read::<JsonValue>::Failed(f, l),
                Read::Done(v, r, l) => {
                    let t = skip_ws(s, r);
                    &&& t >= s.len() ==> items_at(ctx, p, depth, lits, acc) == Read::<JsonValue>::Failed(
                        fault(ErrorKind::UnexpectedEof, t),
                        l,
                    )
                    &&& (t < s.len() && s[t] == ',') ==> items_at(ctx, p, depth, lits, acc)
                        == items_at(ctx, t + 1, depth, l, acc.push(v))
                    &&& (t < s.len() && s[t] == ']') ==> items_at(ctx, p, depth, lits, acc)
                        == Read::Done(JsonValue::Array(acc.push(v)), t + 1, l)
                    &&& (t < s.len() && s[t] != ',' && s[t] != ']') ==> items_at(
                        ctx,
                        p,
                        depth,
                        lits,
                        acc,
                    ) == Read::<JsonValue>::Failed(fault(ErrorKind::UnexpectedChar, t), l)
                    &&& t <= s.len()
                },
            }
        }),
{
    lemma_skip_ws_bounds(ctx.s, p);
    let q = skip_ws(ctx.s, p);
    assert(!(q < p || q > ctx.s.len()));
    match value_at(ctx, q, depth, lits) {
        Read::Done(v, r, l) => {
            lemma_skip_ws_bounds(ctx.s, r);
        },
        _ => {},
    }
}

/// One member of an object, unfolded.
pub proof fn lemma_members_step(
    ctx: Context,
    p: int,
    depth: nat,
    lits: Seq<Seq<char>>,
    acc: Seq<(Seq<char>, JsonValue)>,
    key: Seq<char>,
    r: int,
)
    requires
        0 <= p <= ctx.s.len(),
        skip_ws(ctx.s, p) < ctx.s.len(),
        ctx.s[skip_ws(ctx.s, p)] == '"',
        string_at(ctx.s, skip_ws(ctx.s, p)) == Ok::<(Seq<char>, int), Fault>((key, r)),
        skip_ws(ctx.s, p) < r <= ctx.s.len(),
        skip_ws(ctx.s, r) < ctx.s.len(),
        ctx.s[skip_ws(ctx.s, r)] == ':',
        value_at(ctx, skip_ws(ctx.s, skip_ws(ctx.s, r) + 1), depth, lits) matches Read::Done(
            _,
            w,
            _,
        ) ==> skip_ws(ctx.s, skip_ws(ctx.s, r) + 1) < w <= ctx.s.len(),
    ensures
        ({
            let s = ctx.s;
            let u = skip_ws(s, skip_ws(s, r) + 1);
            match value_at(ctx, u, depth, lits) {
                Read::Failed(f, l) => members_at(ctx, p, depth, lits, acc) == Read::<JsonValue>::Failed(f, l),
                Read::Done(v, w, l) => {
                    let acc2 = inserted(acc, key, v);
                    let x = skip_ws(s, w);
                    &&& x >= s.len() ==> members_at(ctx, p, depth, lits, acc) == Read::<JsonValue>::Failed(
                        fault(ErrorKind::UnexpectedEof, x),
                        l,
                    )
                    &&& (x < s.len() && s[x] == ',') ==> members_at(ctx, p, depth, lits, acc)
                        == members_at(ctx, x + 1, depth, l, acc2)
                    &&& (x < s.len() && s[x] == '}') ==> members_at(ctx, p, depth, lits, acc)
                        == Read::Done(JsonValue::Object(acc2), x + 1, l)
                    &&& (x < s.len() && s[x] != ',' && s[x] != '}') ==> members_at(
                        ctx,
                        p,
                        depth,
                        lits,
                        acc,
                    ) == Read::<JsonValue>::Failed(fault(ErrorKind::UnexpectedChar, x), l)
                    &&& x <= s.len()
                },
            }
        }),
{
    lemma_skip_ws_bounds(ctx.s, p);
    lemma_skip_ws_bounds(ctx.s, r);
    lemma_skip_ws_bounds(ctx.s, skip_ws(ctx.s, r) + 1);
    let u = skip_ws(ctx.s, skip_ws(ctx.s, r) + 1);
    match value_at(ctx, u, depth, lits) {
        Read::Done(v, w, l) => {
            lemma_skip_ws_bounds(ctx.s, w);
        },
        _ => {},
    }
}

/// A value that opens a container, unfolded.
pub proof fn lemma_value_open(ctx: Context, p: int, depth: nat, lits: Seq<Seq<char>>)
    requires
        0 <= p < ctx.s.len(),
        ctx.s[p] == '[' || ctx.s[p] == '{',
        depth + 1 <= ctx.max_depth,
        p + 1 <= skip_ws(ctx.s, p + 1) < ctx.s.len(),
        ctx.s[skip_ws(ctx.s, p + 1)] != ']',
        ctx.s[skip_ws(ctx.s, p + 1)] != '}',
    ensures
        ctx.s[p] == '[' ==> value_at(ctx, p, depth, lits) == items_at(
            ctx,
            skip_ws(ctx.s, p + 1),
            depth + 1,
            lits,
            Seq::empty(),
        ),
        ctx.s[p] == '{' ==> value_at(ctx, p, depth, lits) == members_at(
            ctx,
            skip_ws(ctx.s, p + 1),
            depth + 1,
            lits,
            Seq::empty(),
        ),
{
}

/// An empty container, unfolded.
pub proof fn lemma_value_empty(ctx: Context, p: int, depth: nat, lits: Seq<Seq<char>>)
    requires
        0 <= p,
        p + 1 < ctx.s.len(),
        (ctx.s[p] == '[' && ctx.s[p + 1] == ']') || (ctx.s[p] == '{' && ctx.s[p + 1] == '}'),
        depth + 1 <= ctx.max_depth,
    ensures
        ctx.s[p] == '[' ==> value_at(ctx, p, depth, lits) == Read::Done(
            JsonValue::Array(Seq::empty()),
            p + 2,
            lits,
        ),
        ctx.s[p] == '{' ==> value_at(ctx, p, depth, lits) == Read::Done(
            JsonValue::Object(Seq::empty()),
            p + 2,
            lits,
        ),
{
    assert(skip_ws(ctx.s, p + 1) == p + 1);
}

// ---------------------------------------------------------------------------
// The grammar as the reader's functions state it
// ---------------------------------------------------------------------------

/// A value at `p`: `value_at`, kept folded where a reader function only
/// passes it on.
#[verifier::opaque]
pub open spec fn read_value(ctx: Context, p: int, depth: nat, lits: Seq<Seq<char>>) -> Read<
    JsonValue,
> {
    value_at(ctx, p, depth, lits)
}

/// The rest of an array: `items_at`, kept folded.
#[verifier::opaque]
pub open spec fn read_items(
    ctx: Context,
    p: int,
    depth: nat,
    lits: Seq<Seq<char>>,
    acc: Seq<JsonValue>,
) -> Read<JsonValue> {
    items_at(ctx, p, depth, lits, acc)
}

/// The rest of an object: `members_at`, kept folded.
#[verifier::opaque]
pub open spec fn read_members(
    ctx: Context,
    p: int,
    depth: nat,
    lits: Seq<Seq<char>>,
    acc: Seq<(Seq<char>, JsonValue)>,
) -> Read<JsonValue> {
    members_at(ctx, p, depth, lits, acc)
}

/// One element of an array, in the reader's terms.
pub proof fn lemma_read_items_step(
    ctx: Context,
    p: int,
    depth: nat,
    lits: Seq<Seq<char>>,
    acc: Seq<JsonValue>,
)
    requires
        0 <= p <= ctx.s.len(),
    ensures
        ({
            let s = ctx.s;
            let q = skip_ws(s, p);
            &&& p <= q <= s.len()
            &&& match read_value(ctx, q, depth, lits) {
                Read::Failed(f, l) => read_items(ctx, p, depth, lits, acc) == Read::<JsonValue>::Failed(f, l),
                Read::Done(v, r, l) => q < r <= s.len() ==> {
                    let t = skip_ws(s, r);
                    &&& r <= t <= s.len()
                    &&& t >= s.len() ==> read_items(ctx, p, depth, lits, acc) == Read::<
                        JsonValue,
                    >::Failed(fault(ErrorKind::UnexpectedEof, t), l)
                    &&& (t < s.len() && s[t] == ',') ==> read_items(ctx, p, depth, lits, acc)
                        == read_items(ctx, t + 1, depth, l, acc.push(v))
                    &&& (t < s.len() && s[t] == ']') ==> read_items(ctx, p, depth, lits, acc)
                        == Read::Done(JsonValue::Array(acc.push(v)), t + 1, l)
                    &&& (t < s.len() && s[t] != ',' && s[t] != ']') ==> read_items(
                        ctx,
                        p,
                        depth,
                        lits,
                        acc,
                    ) == Read::<JsonValue>::Failed(fault(ErrorKind::UnexpectedChar, t), l)
                },
            }
        }),
{
    reveal(read_value);
    reveal(read_items);
    lemma_skip_ws_bounds(ctx.s, p);
    let q = skip_ws(ctx.s, p);
    match value_at(ctx, q, depth, lits) {
        Read::Done(v, r, l) => {
            if q < r <= ctx.s.len() {
                lemma_skip_ws_bounds(ctx.s, r);
                lemma_items_step(ctx, p, depth, lits, acc);
            }
        },
        Read::Failed(f, l) => {
            assert(!(q < p || q > ctx.s.len()));
        },
    }
}

/// One member of an object, in the reader's terms.
#[verifier::rlimit(60)]
#[verifier::spinoff_prover]
pub proof fn lemma_read_members_step(
    ctx: Context,
    p: int,
    depth: nat,
    lits: Seq<Seq<char>>,
    acc: Seq<(Seq<char>, JsonValue)>,
)
    requires
        0 <= p <= ctx.s.len(),
    ensures
        ({
            let s = ctx.s;
            let q = skip_ws(s, p);
            &&& p <= q <= s.len()
            &&& q >= s.len() ==> read_members(ctx, p, depth, lits, acc) == Read::<JsonValue>::Failed(
                fault(ErrorKind::UnexpectedEof, q),
                lits,
            )
            &&& (q < s.len() && s[q] != '"') ==> read_members(ctx, p, depth, lits, acc)
                == Read::<JsonValue>::Failed(fault(ErrorKind::UnexpectedChar, q), lits)
            &&& (q < s.len() && s[q] == '"') ==> match string_at(s, q) {
                Err(f) => read_members(ctx, p, depth, lits, acc) == Read::<JsonValue>::Failed(f, lits),
                Ok((key, r)) => q < r <= s.len() ==> {
                    let t = skip_ws(s, r);
                    &&& r <= t <= s.len()
                    &&& t >= s.len() ==> read_members(ctx, p, depth, lits, acc) == Read::<
                        JsonValue,
                    >::Failed(fault(ErrorKind::UnexpectedEof, t), lits)
                    &&& (t < s.len() && s[t] != ':') ==> read_members(ctx, p, depth, lits, acc)
                        == Read::<JsonValue>::Failed(fault(ErrorKind::UnexpectedChar, t), lits)
                    &&& (t < s.len() && s[t] == ':') ==> {
                        let u = skip_ws(s, t + 1);
                        &&& t + 1 <= u <= s.len()
                        &&& match read_value(ctx, u, depth, lits) {
                            Read::Failed(f, l) => read_members(ctx, p, depth, lits, acc)
                                == Read::<JsonValue>::Failed(f, l),
                            Read::Done(v, w, l) => u < w <= s.len() ==> {
                                let acc2 = inserted(acc, key, v);
                                let x = skip_ws(s, w);
                                &&& w <= x <= s.len()
                                &&& x >= s.len() ==> read_members(ctx, p, depth, lits, acc)
                                    == Read::<JsonValue>::Failed(
                                    fault(ErrorKind::UnexpectedEof, x),
                                    l,
                                )
                                &&& (x < s.len() && s[x] == ',') ==> read_members(
                                    ctx,
                                    p,
                                    depth,
                                    lits,
                                    acc,
                                ) == read_members(ctx, x + 1, depth, l, acc2)
                                &&& (x < s.len() && s[x] == '}') ==> read_members(
                                    ctx,
                                    p,
                                    depth,
                                    lits,
                                    acc,
                                ) == Read::Done(JsonValue::Object(acc2), x + 1, l)
                                &&& (x < s.len() && s[x] != ',' && s[x] != '}') ==> read_members(
                                    ctx,
                                    p,
                                    depth,
                                    lits,
                                    acc,
                                ) == Read::<JsonValue>::Failed(
                                    fault(ErrorKind::UnexpectedChar, x),
                                    l,
                                )
                            },
                        }
                    }
                },
            }
        }),
{
    reveal(read_value);
    reveal(read_members);
    let s = ctx.s;
    lemma_skip_ws_bounds(s, p);
    let q = skip_ws(s, p);
    if q < s.len() && s[q] == '"' {
        match string_at(s, q) {
            Ok((key, r)) => {
                if q < r <= s.len() {
                    lemma_skip_ws_bounds(s, r);
                    let t = skip_ws(s, r);
                    if t < s.len() && s[t] == ':' {
                        lemma_skip_ws_bounds(s, t + 1);
                        let u = skip_ws(s, t + 1);
                        match value_at(ctx, u, depth, lits) {
                            Read::Done(v, w, l) => {
                                if u < w <= s.len() {
                                    lemma_skip_ws_bounds(s, w);
                                }
                            },
                            _ => {},
                        }
                    }
                }
            },
            _ => {},
        }
    }
}


// ---------------------------------------------------------------------------
// Hex digits
// ---------------------------------------------------------------------------

/// `c` with an ASCII capital letter made small.
pub open spec fn ascii_lower(c: char) -> char {
    if 'A' <= c && c <= 'Z' {
        ((c as u32 + 32) as u32) as char
    } else {
        c
    }
}

/// Hex digits are read in either case: every value below 16 is read back
/// from the digit the writer writes for it, and from that digit's capital
/// form; and whatever reads as a hex digit is, but for case, the digit the
/// writer writes for the value read.
pub proof fn law_hex_digits(k: nat, c: char)
    requires
        k < 16,
    ensures
        hex_value(crate::render::hex_char(k)) == Some(k as u32),
        k >= 10 ==> hex_value(((k - 10 + 'A' as u32) as u32) as char) == Some(k as u32),
        hex_value(ascii_lower(c)) == hex_value(c),
        hex_value(c) matches Some(v) ==> v < 16 && crate::render::hex_char(v as nat) == ascii_lower(c),
{
    vstd::utf8::char_is_scalar(c);
}

} // verus!
