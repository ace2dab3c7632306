//! The reader: strict RFC 8259, with a depth cap.
//!
//! No comments, no trailing commas, no unquoted keys, no single quotes, no
//! `NaN`, no `Infinity`, no leading `+`, no leading zeros, no unescaped
//! control characters, no lone surrogates, and no trailing data.
//!
//! A float literal's value is float arithmetic, which this crate does not
//! perform: [`parse_step`] reads a document against a table of float
//! renderings the caller supplies, and when the document holds float
//! literals the table does not cover yet, it says which.

use vstd::prelude::*;

use crate::error::{byte_offset, reports, Error, ErrorKind};
use crate::grammar::{
    big_integer_detail, char_at, document, fault, lemma_read_items_step, lemma_read_members_step, read_items, read_members, read_value,
    word_at, decimal_value, depth_detail, digit_value, digits_end, escape, exact_integer,
    float_literal, hex4, hex_value, infinite_detail, is_ws, number_at, number_scan, skip_ws,
    string_at, string_rest, unicode_escape, Context, Read,
};
use crate::text::{chars_of, string_of, string_push};
use crate::value::{
    is_digit, lemma_values_view, values_view, FloatText, JsonValue, Number, Object, Value,
};

verus! {

/// The nesting depth accepted unless a caller says otherwise.
pub const DEFAULT_MAX_DEPTH: usize = 128;

/// Knobs for [`parse_step`].
#[derive(Debug, Clone, Copy)]
pub struct ParseOptions {
    max_depth: usize,
    lossy_big_integers: bool,
}

impl ParseOptions {
    /// The configured maximum nesting depth, as contracts see it.
    pub closed spec fn spec_max_depth(self) -> usize {
        self.max_depth
    }

    /// Whether out-of-range integers are read lossily, as contracts see it.
    pub closed spec fn spec_lossy(self) -> bool {
        self.lossy_big_integers
    }

    /// The defaults: [`DEFAULT_MAX_DEPTH`], and exact integers only.
    pub fn new() -> (o: ParseOptions)
        ensures
            o.spec_max_depth() == DEFAULT_MAX_DEPTH,
            !o.spec_lossy(),
    {
        ParseOptions { max_depth: DEFAULT_MAX_DEPTH, lossy_big_integers: false }
    }

    /// Set the maximum nesting depth.
    pub fn with_max_depth(self, depth: usize) -> (o: ParseOptions)
        ensures
            o.spec_max_depth() == depth,
            o.spec_lossy() == self.spec_lossy(),
    {
        ParseOptions { max_depth: depth, lossy_big_integers: self.lossy_big_integers }
    }

    /// The configured maximum nesting depth.
    pub fn max_depth(self) -> (d: usize)
        ensures
            d == self.spec_max_depth(),
    {
        self.max_depth
    }

    /// Read an out-of-range integer as a float instead of refusing it.
    pub fn with_lossy_big_integers(self, lossy: bool) -> (o: ParseOptions)
        ensures
            o.spec_max_depth() == self.spec_max_depth(),
            o.spec_lossy() == lossy,
    {
        ParseOptions { max_depth: self.max_depth, lossy_big_integers: lossy }
    }

    /// Whether out-of-range integers are read lossily.
    pub fn lossy_big_integers(self) -> (b: bool)
        ensures
            b == self.spec_lossy(),
    {
        self.lossy_big_integers
    }
}

impl Default for ParseOptions {
    fn default() -> (o: ParseOptions)
        ensures
            o.spec_max_depth() == DEFAULT_MAX_DEPTH,
            !o.spec_lossy(),
    {
        ParseOptions::new()
    }
}

/// The model of a float table.
pub open spec fn floats_view(f: Seq<Option<FloatText>>) -> Seq<Option<Seq<char>>> {
    f.map_values(
        |o: Option<FloatText>|
            match o {
                Some(t) => Some(t@),
                None => None,
            },
    )
}

/// The model of a list of literals.
pub open spec fn texts_view(l: Seq<String>) -> Seq<Seq<char>> {
    l.map_values(|t: String| t@)
}

/// The reading context of a document.
pub open spec fn context_of(
    s: Seq<char>,
    options: ParseOptions,
    floats: Seq<Option<FloatText>>,
) -> Context {
    Context {
        s,
        max_depth: options.spec_max_depth() as nat,
        lossy: options.spec_lossy(),
        floats: floats_view(floats),
    }
}

/// `skip_ws` stays within the document and only passes whitespace.
pub proof fn lemma_skip_ws(s: Seq<char>, p: int)
    requires
        0 <= p <= s.len(),
    ensures
        p <= skip_ws(s, p) <= s.len(),
        skip_ws(s, p) < s.len() ==> !is_ws(s[skip_ws(s, p)]),
    decreases s.len() - p,
{
    if p < s.len() && is_ws(s[p]) {
        lemma_skip_ws(s, p + 1);
    }
}

/// `digits_end` stays within the document and only passes digits.
pub proof fn lemma_digits_end(s: Seq<char>, p: int)
    requires
        0 <= p <= s.len(),
    ensures
        p <= digits_end(s, p) <= s.len(),
        digits_end(s, p) < s.len() ==> !is_digit(s[digits_end(s, p)]),
        forall|i: int| p <= i < digits_end(s, p) ==> is_digit(#[trigger] s[i]),
    decreases s.len() - p,
{
    if p < s.len() && is_digit(s[p]) {
        lemma_digits_end(s, p + 1);
    }
}

/// Whether an executable result `r` is the model's `read`, with the literals
/// collected being `lits`.
pub open spec fn read_matches(
    read: Read<JsonValue>,
    r: Result<(Value, usize), Error>,
    s: Seq<char>,
    lits: Seq<Seq<char>>,
) -> bool {
    match read {
        Read::Done(v, q, l) => r matches Ok((v2, q2)) && v2@ == v && q2 == q && lits == l,
        Read::Failed(f, l) => r matches Err(e) && reports(e, s, f.kind, f.at, f.detail) && lits == l,
    }
}

/// The state of a read: the document and the table, fixed.
struct Reader<'a> {
    chars: Vec<char>,
    bytes_len: usize,
    options: ParseOptions,
    floats: &'a [Option<FloatText>],
}

impl<'a> Reader<'a> {
    spec fn ctx(&self) -> Context {
        context_of(self.chars@, self.options, self.floats@)
    }

    spec fn wf(&self) -> bool {
        &&& self.chars@.len() < usize::MAX
        &&& byte_offset(self.chars@, self.chars@.len() as int) == self.bytes_len
    }

    /// The error for a fault of the model.
    fn fail(&self, kind: ErrorKind, at: usize) -> (e: Error)
        requires
            self.wf(),
            at <= self.chars@.len(),
        ensures
            reports(e, self.chars@, kind, at as int, None),
    {
        Error::at_char(kind, &self.chars, at, self.bytes_len)
    }

    fn skip_ws(&self, p: usize) -> (q: usize)
        requires
            p <= self.chars@.len(),
        ensures
            q == skip_ws(self.chars@, p as int),
            p <= q <= self.chars@.len(),
    {
        proof {
            lemma_skip_ws(self.chars@, p as int);
        }
        let mut q = p;
        while q < self.chars.len() && (self.chars[q] == ' ' || self.chars[q] == '\t'
            || self.chars[q] == '\n' || self.chars[q] == '\r')
            invariant
                p <= q <= self.chars@.len(),
                skip_ws(self.chars@, q as int) == skip_ws(self.chars@, p as int),
            decreases self.chars@.len() - q,
        {
            q = q + 1;
        }
        q
    }

    /// Whether the character at `p` exists and is `c`.
    fn is_at(&self, p: usize, c: char) -> (b: bool)
        ensures
            b == char_at(self.chars@, p as int, c),
    {
        p < self.chars.len() && self.chars[p] == c
    }

    fn hex4(&self, p: usize, start: usize) -> (r: Result<(u32, usize), Error>)
        requires
            self.wf(),
            p <= self.chars@.len(),
            start <= self.chars@.len(),
        ensures
            match hex4(self.chars@, p as int, start as int) {
                Ok((v, q)) => r matches Ok((v2, q2)) && v2 == v && q2 == q,
                Err(f) => r matches Err(e) && reports(e, self.chars@, f.kind, f.at, f.detail),
            },
    {
        if p > self.chars.len() || self.chars.len() - p < 4 {
            return Err(self.fail(ErrorKind::InvalidEscape, start));
        }
        let a = hex_digit(self.chars[p]);
        let b = hex_digit(self.chars[p + 1]);
        let c = hex_digit(self.chars[p + 2]);
        let d = hex_digit(self.chars[p + 3]);
        match (a, b, c, d) {
            (Some(a), Some(b), Some(c), Some(d)) => Ok(((((a * 16 + b) * 16 + c) * 16 + d), p + 4)),
            _ => Err(self.fail(ErrorKind::InvalidEscape, start)),
        }
    }

    #[verifier::rlimit(60)]
    fn unicode_escape(&self, p: usize, start: usize) -> (r: Result<(char, usize), Error>)
        requires
            self.wf(),
            p <= self.chars@.len(),
            start <= self.chars@.len(),
        ensures
            match unicode_escape(self.chars@, p as int, start as int) {
                Ok((c, q)) => r matches Ok((c2, q2)) && c2 == c && q2 == q,
                Err(f) => r matches Err(e) && reports(e, self.chars@, f.kind, f.at, f.detail),
            },
    {
        let (first, q) = match self.hex4(p, start) {
            Ok(x) => x,
            Err(e) => return Err(e),
        };
        if !(0xD800 <= first && first <= 0xDFFF) {
            let c = char_from_u32(first);
            proof {
                assert(vstd::utf8::is_scalar(first));
            }
            return Ok((c.unwrap(), q));
        }
        if first >= 0xDC00 {
            return Err(self.fail(ErrorKind::LoneSurrogate, start));
        }
        if !(self.is_at(q, '\\') && self.is_at(q + 1, 'u')) {
            return Err(self.fail(ErrorKind::LoneSurrogate, start));
        }
        let (second, r) = match self.hex4(q + 2, start) {
            Ok(x) => x,
            Err(e) => return Err(e),
        };
        if !(0xDC00 <= second && second <= 0xDFFF) {
            return Err(self.fail(ErrorKind::LoneSurrogate, start));
        }
        let combined: u32 = 0x10000 + (first - 0xD800) * 0x400 + (second - 0xDC00);
        let c = char_from_u32(combined);
        proof {
            assert(vstd::utf8::is_scalar(combined));
        }
        Ok((c.unwrap(), r))
    }

    /// The escape after the backslash at `p - 1`.
    #[verifier::rlimit(60)]
    fn escape(&self, p: usize) -> (r: Result<(char, usize), Error>)
        requires
            self.wf(),
            1 <= p <= self.chars@.len(),
        ensures
            match escape(self.chars@, p as int) {
                Ok((c, q)) => r matches Ok((c2, q2)) && c2 == c && q2 == q,
                Err(f) => r matches Err(e) && reports(e, self.chars@, f.kind, f.at, f.detail),
            },
    {
        let start = p - 1;
        if p >= self.chars.len() {
            return Err(self.fail(ErrorKind::UnexpectedEof, p));
        }
        let c = self.chars[p];
        if c == '"' {
            Ok(('"', p + 1))
        } else if c == '\\' {
            Ok(('\\', p + 1))
        } else if c == '/' {
            Ok(('/', p + 1))
        } else if c == 'b' {
            Ok(('\u{8}', p + 1))
        } else if c == 'f' {
            Ok(('\u{c}', p + 1))
        } else if c == 'n' {
            Ok(('\n', p + 1))
        } else if c == 'r' {
            Ok(('\r', p + 1))
        } else if c == 't' {
            Ok(('\t', p + 1))
        } else if c == 'u' {
            self.unicode_escape(p + 1, start)
        } else {
            Err(self.fail(ErrorKind::InvalidEscape, start))
        }
    }

    /// A string whose opening quote is at `p`.
    #[verifier::rlimit(60)]
    fn string(&self, p: usize) -> (r: Result<(String, usize), Error>)
        requires
            self.wf(),
            p < self.chars@.len(),
        ensures
            match string_at(self.chars@, p as int) {
                Ok((text, q)) => r matches Ok((t2, q2)) && t2@ == text && q2 == q,
                Err(f) => r matches Err(e) && reports(e, self.chars@, f.kind, f.at, f.detail),
            },
            r matches Ok((_, q)) ==> p < q <= self.chars@.len(),
    {
        let ghost s = self.chars@;
        let mut out = String::new();
        let mut q = p + 1;
        while q < self.chars.len()
            invariant
                self.wf(),
                s == self.chars@,
                p + 1 <= q <= s.len(),
                string_at(s, p as int) == string_rest(s, q as int, out@),
            decreases s.len() - q,
        {
            let c = self.chars[q];
            if c == '"' {
                return Ok((out, q + 1));
            } else if c == '\\' {
                match self.escape(q + 1) {
                    Ok((e, next)) => {
                        string_push(&mut out, e);
                        q = next;
                    },
                    Err(e) => return Err(e),
                }
            } else if (c as u32) < 0x20 {
                return Err(self.fail(ErrorKind::ControlCharacterInString, q));
            } else {
                string_push(&mut out, c);
                q = q + 1;
            }
        }
        Err(self.fail(ErrorKind::UnexpectedEof, q))
    }
}

impl<'a> Reader<'a> {
    /// The float literal `chars[p..end]`: the next entry of the table.
    fn float_literal(&self, p: usize, end: usize, lits: &mut Vec<String>) -> (r: Result<
        (Value, usize),
        Error,
    >)
        requires
            self.wf(),
            p < end <= self.chars@.len(),
        ensures
            read_matches(float_literal(self.ctx(), p as int, end as int, texts_view(old(lits)@)), r, self.chars@, texts_view(final(lits)@)),
            r matches Ok((_, q)) ==> q == end,
    {
        let text = string_of(&self.chars, p, end);
        let k = lits.len();
        lits.push(text);
        proof {
            assert(texts_view(lits@) =~= texts_view(old(lits)@).push(
                self.chars@.subrange(p as int, end as int),
            ));
        }
        if k < self.floats.len() {
            match &self.floats[k] {
                Some(f) => Ok((Value::Number(Number::Float(f.clone())), end)),
                None => Err(
                    self.fail(ErrorKind::NumberOutOfRange, p).with_detail(infinite_message()),
                ),
            }
        } else {
            Ok((Value::Number(Number::Float(FloatText::zero())), end))
        }
    }

    /// A number starting at `p`.
    #[verifier::rlimit(60)]
    fn number(&self, p: usize, lits: &mut Vec<String>) -> (r: Result<(Value, usize), Error>)
        requires
            self.wf(),
            p < self.chars@.len(),
        ensures
            read_matches(number_at(self.ctx(), p as int, texts_view(old(lits)@)), r, self.chars@, texts_view(final(lits)@)),
            r matches Ok((_, q)) ==> p < q <= self.chars@.len(),
    {
        let ghost s = self.chars@;
        let negative = self.chars[p] == '-';
        let ds = if negative { p + 1 } else { p };
        let ie = if self.is_at(ds, '0') {
            ds + 1
        } else if ds < self.chars.len() && '1' <= self.chars[ds] && self.chars[ds] <= '9' {
            self.skip_digits(ds)
        } else {
            return Err(self.fail(ErrorKind::InvalidNumber, p));
        };
        let fe = if self.is_at(ie, '.') {
            if ie + 1 < self.chars.len() && is_digit_char(self.chars[ie + 1]) {
                self.skip_digits(ie + 1)
            } else {
                return Err(self.fail(ErrorKind::InvalidNumber, p));
            }
        } else {
            ie
        };
        let end = if self.is_at(fe, 'e') || self.is_at(fe, 'E') {
            let q = if self.is_at(fe + 1, '+') || self.is_at(fe + 1, '-') {
                fe + 2
            } else {
                fe + 1
            };
            if q < self.chars.len() && is_digit_char(self.chars[q]) {
                self.skip_digits(q)
            } else {
                return Err(self.fail(ErrorKind::InvalidNumber, p));
            }
        } else {
            fe
        };
        assert(number_scan(s, p as int) == Some((ds as int, ie as int, end as int)));
        if end != ie {
            return self.float_literal(p, end, lits);
        }
        proof {
            lemma_digits_end(s, ds as int);
            assert forall|i: int| ds <= i < ie implies is_digit(#[trigger] s[i]) by {
                if s[ds as int] == '0' {
                    assert(i == ds);
                }
            }
        }
        let exact = exact_integer_of(&self.chars, ds, ie, negative);
        match exact {
            Some(n) => Ok((Value::Number(n), end)),
            None => {
                if self.options.lossy_big_integers {
                    self.float_literal(p, end, lits)
                } else {
                    Err(
                        self.fail(ErrorKind::NumberOutOfRange, p).with_detail(big_integer_message()),
                    )
                }
            },
        }
    }

    /// The first position at or after `p` that is not a digit.
    fn skip_digits(&self, p: usize) -> (q: usize)
        requires
            p <= self.chars@.len(),
        ensures
            q == digits_end(self.chars@, p as int),
            p <= q <= self.chars@.len(),
    {
        proof {
            lemma_digits_end(self.chars@, p as int);
        }
        let mut q = p;
        while q < self.chars.len() && is_digit_char(self.chars[q])
            invariant
                p <= q <= self.chars@.len(),
                digits_end(self.chars@, q as int) == digits_end(self.chars@, p as int),
            decreases self.chars@.len() - q,
        {
            q = q + 1;
        }
        q
    }
}

impl<'a> Reader<'a> {
    /// A value at `p`, nested `depth` containers deep.
    #[verifier::rlimit(60)]
    fn value(&self, p: usize, depth: usize, lits: &mut Vec<String>) -> (r: Result<
        (Value, usize),
        Error,
    >)
        requires
            self.wf(),
            p <= self.chars@.len(),
            depth <= self.options.spec_max_depth(),
        ensures
            read_matches(read_value(self.ctx(), p as int, depth as nat, texts_view(old(lits)@)), r, self.chars@, texts_view(final(lits)@)),
            r matches Ok((_, q)) ==> p < q <= self.chars@.len(),
        decreases self.chars@.len() - p, 0nat,
    {
        let ghost s = self.chars@;
        proof {
            reveal(read_value);
            reveal(read_items);
            reveal(read_members);
        }
        if p >= self.chars.len() {
            return Err(self.fail(ErrorKind::UnexpectedEof, p));
        }
        let c = self.chars[p];
        proof {
            reveal_strlit("null");
            reveal_strlit("true");
            reveal_strlit("false");
        }
        if c == 'n' {
            if self.word_at(p, "null") {
                Ok((Value::Null, p + 4))
            } else {
                Err(self.fail(ErrorKind::UnexpectedChar, p))
            }
        } else if c == 't' {
            if self.word_at(p, "true") {
                Ok((Value::Bool(true), p + 4))
            } else {
                Err(self.fail(ErrorKind::UnexpectedChar, p))
            }
        } else if c == 'f' {
            if self.word_at(p, "false") {
                Ok((Value::Bool(false), p + 5))
            } else {
                Err(self.fail(ErrorKind::UnexpectedChar, p))
            }
        } else if c == '"' {
            match self.string(p) {
                Ok((text, q)) => Ok((Value::String(text), q)),
                Err(e) => Err(e),
            }
        } else if c == '[' || c == '{' {
            if depth >= self.options.max_depth {
                return Err(
                    self.fail(ErrorKind::DepthLimitExceeded, p).with_detail(depth_message()),
                );
            }
            let q = self.skip_ws(p + 1);
            if c == '[' {
                if self.is_at(q, ']') {
                    proof {
                        lemma_values_view(Seq::<Value>::empty());
                    }
                    Ok((Value::Array(Vec::new()), q + 1))
                } else {
                    self.items(q, depth + 1, lits)
                }
            } else {
                if self.is_at(q, '}') {
                    let m = Object::new();
                    Ok((Value::Object(m), q + 1))
                } else {
                    self.members(q, depth + 1, lits)
                }
            }
        } else if c == '-' || is_digit_char(c) {
            self.number(p, lits)
        } else {
            Err(self.fail(ErrorKind::UnexpectedChar, p))
        }
    }

    /// Whether `word` stands at `p`.
    fn word_at(&self, p: usize, word: &str) -> (b: bool)
        requires
            self.wf(),
            p <= self.chars@.len(),
        ensures
            b == word_at(self.chars@, p as int, word@),
    {
        let w = chars_of(word);
        if self.chars.len() - p < w.len() {
            return false;
        }
        let mut i: usize = 0;
        while i < w.len()
            invariant
                self.chars@.len() < usize::MAX,
                p + w@.len() <= self.chars@.len(),
                i <= w@.len(),
                w@ == word@,
                forall|j: int| 0 <= j < i ==> self.chars@[p + j] == #[trigger] w@[j],
            decreases w@.len() - i,
        {
            assert(p + i < self.chars@.len());
            if self.chars[p + i] != w[i] {
                proof {
                    assert(self.chars@.subrange(p as int, p + w@.len())[i as int] != w@[i as int]);
                }
                return false;
            }
            i = i + 1;
        }
        proof {
            assert(self.chars@.subrange(p as int, p + w@.len()) =~= w@);
        }
        true
    }

    /// The rest of an array from `p`.
    #[verifier::rlimit(60)]
    fn items(&self, p: usize, depth: usize, lits: &mut Vec<String>) -> (r: Result<
        (Value, usize),
        Error,
    >)
        requires
            self.wf(),
            p <= self.chars@.len(),
            depth <= self.options.spec_max_depth(),
        ensures
            read_matches(read_items(self.ctx(), p as int, depth as nat, texts_view(old(lits)@), Seq::empty()), r, self.chars@, texts_view(final(lits)@)),
            r matches Ok((_, q)) ==> p < q <= self.chars@.len(),
        decreases self.chars@.len() - p, 1nat,
    {
        let ghost s = self.chars@;
        let ghost l0 = texts_view(lits@);
        let mut acc: Vec<Value> = Vec::new();
        let mut at = p;
        proof {
            lemma_values_view(acc@);
            assert(values_view(acc@) =~= Seq::<JsonValue>::empty());
        }
        loop
            invariant
                self.wf(),
                s == self.chars@,
                l0 == texts_view(old(lits)@),
                p <= at <= s.len(),
                depth <= self.options.spec_max_depth(),
                read_items(self.ctx(), p as int, depth as nat, l0, Seq::empty()) == read_items(
                    self.ctx(),
                    at as int,
                    depth as nat,
                    texts_view(lits@),
                    values_view(acc@),
                ),
            decreases s.len() - at,
        {
            let q = self.skip_ws(at);
            let ghost lq = texts_view(lits@);
            let ghost accv = values_view(acc@);
            let ghost goal = read_items(self.ctx(), p as int, depth as nat, l0, Seq::empty());
            let res = self.value(q, depth, lits);
            let ghost g = read_value(self.ctx(), q as int, depth as nat, lq);
            proof {
                lemma_read_items_step(self.ctx(), at as int, depth as nat, lq, accv);
            }
            match res {
                Err(e) => {
                    proof {
                        assert(goal == g);
                        assert(read_matches(g, Err(e), self.chars@, texts_view(lits@)));
                        assert(read_matches(goal, Err(e), self.chars@, texts_view(lits@)));
                    }
                    return Err(e);
                },
                Ok((v, r)) => {
                    let t = self.skip_ws(r);
                    let ghost l = texts_view(lits@);
                    if t >= self.chars.len() {
                        proof {
                            assert(goal == Read::<JsonValue>::Failed(
                                fault(ErrorKind::UnexpectedEof, t as int),
                                l,
                            ));
                        }
                        return Err(self.fail(ErrorKind::UnexpectedEof, t));
                    }
                    let ghost before = acc@;
                    let ghost vm = v@;
                    if self.chars[t] == ',' {
                        acc.push(v);
                        proof {
                            assert(acc@.subrange(0, acc@.len() - 1) =~= before);
                            assert(values_view(acc@) == accv.push(vm));
                        }
                        at = t + 1;
                    } else if self.chars[t] == ']' {
                        acc.push(v);
                        proof {
                            assert(acc@.subrange(0, acc@.len() - 1) =~= before);
                            assert(values_view(acc@) == accv.push(vm));
                            assert(goal == Read::Done(JsonValue::Array(accv.push(vm)), t + 1, l));
                        }
                        return Ok((Value::Array(acc), t + 1));
                    } else {
                        proof {
                            assert(goal == Read::<JsonValue>::Failed(
                                fault(ErrorKind::UnexpectedChar, t as int),
                                l,
                            ));
                        }
                        return Err(self.fail(ErrorKind::UnexpectedChar, t));
                    }
                },
            }
        }
    }

    /// The rest of an object from `p`.
    #[verifier::rlimit(60)]
    fn members(&self, p: usize, depth: usize, lits: &mut Vec<String>) -> (r: Result<
        (Value, usize),
        Error,
    >)
        requires
            self.wf(),
            p <= self.chars@.len(),
            depth <= self.options.spec_max_depth(),
        ensures
            read_matches(read_members(self.ctx(), p as int, depth as nat, texts_view(old(lits)@), Seq::empty()), r, self.chars@, texts_view(final(lits)@)),
            r matches Ok((_, q)) ==> p < q <= self.chars@.len(),
        decreases self.chars@.len() - p, 1nat,
    {
        let ghost s = self.chars@;
        let ghost l0 = texts_view(lits@);
        let mut acc = Object::new();
        let mut at = p;
        loop
            invariant
                self.wf(),
                s == self.chars@,
                l0 == texts_view(old(lits)@),
                p <= at <= s.len(),
                depth <= self.options.spec_max_depth(),
                read_members(self.ctx(), p as int, depth as nat, l0, Seq::empty()) == read_members(
                    self.ctx(),
                    at as int,
                    depth as nat,
                    texts_view(lits@),
                    acc@,
                ),
            decreases s.len() - at,
        {
            proof {
                lemma_read_members_step(self.ctx(), at as int, depth as nat, texts_view(lits@), acc@);
            }
            let q = self.skip_ws(at);
            if q >= self.chars.len() {
                return Err(self.fail(ErrorKind::UnexpectedEof, q));
            }
            if self.chars[q] != '"' {
                return Err(self.fail(ErrorKind::UnexpectedChar, q));
            }
            let (key, r) = match self.string(q) {
                Ok(x) => x,
                Err(e) => return Err(e),
            };
            let t = self.skip_ws(r);
            if t >= self.chars.len() {
                return Err(self.fail(ErrorKind::UnexpectedEof, t));
            }
            if self.chars[t] != ':' {
                return Err(self.fail(ErrorKind::UnexpectedChar, t));
            }
            let u = self.skip_ws(t + 1);
            match self.value(u, depth, lits) {
                Err(e) => return Err(e),
                Ok((v, w)) => {
                    acc.insert(key.as_str(), v);
                    let x = self.skip_ws(w);
                    if x >= self.chars.len() {
                        return Err(self.fail(ErrorKind::UnexpectedEof, x));
                    }
                    if self.chars[x] == ',' {
                        at = x + 1;
                    } else if self.chars[x] == '}' {
                        return Ok((Value::Object(acc), x + 1));
                    } else {
                        return Err(self.fail(ErrorKind::UnexpectedChar, x));
                    }
                },
            }
        }
    }
}

/// What one reading of a document gives.
#[derive(Debug)]
pub enum ParseStep {
    /// The table covered every float literal the reading met: the document's
    /// value, or the first fault in it.
    Done(Result<Value, Error>),
    /// The document holds float literals past the end of the table: these,
    /// in the order they stand. Extend the table with an entry for each and
    /// read again.
    NeedFloats(Vec<String>),
}

/// Whether `step` is what the model gives for the document `s` read with
/// `options` against the table `floats`.
pub open spec fn step_matches(
    step: ParseStep,
    s: Seq<char>,
    options: ParseOptions,
    floats: Seq<Option<FloatText>>,
) -> bool {
    let (res, lits) = document(context_of(s, options, floats));
    if lits.len() > floats.len() {
        step matches ParseStep::NeedFloats(missing) && texts_view(missing@) == lits.skip(
            floats.len() as int,
        )
    } else {
        step matches ParseStep::Done(r) && match res {
            Ok(v) => r matches Ok(v2) && v2@ == v,
            Err(f) => r matches Err(e) && reports(e, s, f.kind, f.at, f.detail),
        }
    }
}

/// Read a JSON document against a table of float renderings.
///
/// The `k`-th float literal the document holds (a literal with a fraction
/// or an exponent, or, with lossy big integers, an integer literal that
/// does not fit) is read as `floats[k]`: its rendering, or `None` when it
/// is not finite, which refuses the document with
/// [`ErrorKind::NumberOutOfRange`]. When the document holds more float
/// literals than the table covers, the result names them.
///
/// Anything other than exactly one well-formed value, optionally surrounded
/// by whitespace, is a fault, reported at the first place it occurs.
#[verifier::rlimit(60)]
pub fn parse_step(input: &str, options: ParseOptions, floats: &[Option<FloatText>]) -> (r: ParseStep)
    requires
        input@.len() < usize::MAX,
    ensures
        step_matches(r, input@, options, floats@),
{
    proof {
        reveal(document);
        reveal(read_value);
    }
    let chars = chars_of(input);
    let bytes_len = input.as_bytes().len();
    proof {
        assert(chars@.take(chars@.len() as int) =~= chars@);
    }
    let reader = Reader { chars, bytes_len, options, floats };
    let mut lits: Vec<String> = Vec::new();
    proof {
        assert(texts_view(lits@) =~= Seq::<Seq<char>>::empty());
        lemma_skip_ws(reader.chars@, 0);
    }
    let p = reader.skip_ws(0);
    let res = reader.value(p, 0, &mut lits);
    let ghost ctx = reader.ctx();
    let outcome: Result<Value, Error> = match res {
        Err(e) => Err(e),
        Ok((v, q)) => {
            let t = reader.skip_ws(q);
            if t < reader.chars.len() {
                Err(reader.fail(ErrorKind::TrailingData, t))
            } else {
                Ok(v)
            }
        },
    };
    if lits.len() > floats.len() {
        let mut missing: Vec<String> = Vec::new();
        let mut i = floats.len();
        while i < lits.len()
            invariant
                floats@.len() <= i <= lits@.len(),
                texts_view(missing@) == texts_view(lits@).subrange(floats@.len() as int, i as int),
            decreases lits@.len() - i,
        {
            let ghost before = missing@;
            missing.push(lits[i].clone());
            proof {
                assert(missing@ =~= before.push(lits@[i as int]));
                assert(texts_view(missing@) =~= texts_view(before).push(lits@[i as int]@));
                assert(texts_view(missing@) =~= texts_view(lits@).subrange(
                    floats@.len() as int,
                    i + 1,
                ));
            }
            i = i + 1;
        }
        proof {
            assert(texts_view(lits@).subrange(floats@.len() as int, lits@.len() as int) =~= texts_view(lits@).skip(floats@.len() as int));
        }
        ParseStep::NeedFloats(missing)
    } else {
        ParseStep::Done(outcome)
    }
}

/// Whether `c` is a decimal digit.
fn is_digit_char(c: char) -> (b: bool)
    ensures
        b == is_digit(c),
{
    '0' <= c && c <= '9'
}

/// `decimal_value` grows by one digit at a time.
proof fn lemma_decimal_value_step(s: Seq<char>, a: int, b: int)
    requires
        0 <= a <= b < s.len(),
    ensures
        decimal_value(s.subrange(a, b + 1)) == decimal_value(s.subrange(a, b)) * 10 + digit_value(
            s[b],
        ),
{
    assert(s.subrange(a, b + 1).drop_last() =~= s.subrange(a, b));
}

/// The exact integer the digits `chars[from..to]` stand for, negated when
/// `negative`, when it fits.
fn exact_integer_of(chars: &Vec<char>, from: usize, to: usize, negative: bool) -> (r: Option<Number>)
    requires
        from <= to <= chars@.len(),
        forall|i: int| from <= i < to ==> is_digit(#[trigger] chars@[i]),
    ensures
        match exact_integer(negative, decimal_value(chars@.subrange(from as int, to as int))) {
            Some(n) => r matches Some(m) && m@ == n,
            None => r is None,
        },
{
    let ghost s = chars@;
    let mut magnitude: u64 = 0;
    let mut overflow = false;
    let mut i = from;
    proof {
        assert(s.subrange(from as int, from as int) =~= Seq::<char>::empty());
    }
    while i < to
        invariant
            from <= i <= to <= s.len(),
            s == chars@,
            forall|j: int| from <= j < to ==> is_digit(#[trigger] s[j]),
            overflow ==> decimal_value(s.subrange(from as int, i as int)) > u64::MAX,
            !overflow ==> magnitude == decimal_value(s.subrange(from as int, i as int)),
        decreases to - i,
    {
        proof {
            lemma_decimal_value_step(s, from as int, i as int);
            assert(is_digit(s[i as int]));
        }
        let d = (chars[i] as u32 - '0' as u32) as u64;
        if !overflow {
            match magnitude.checked_mul(10) {
                Some(m) => match m.checked_add(d) {
                    Some(v) => {
                        magnitude = v;
                    },
                    None => {
                        overflow = true;
                    },
                },
                None => {
                    overflow = true;
                },
            }
        }
        i = i + 1;
    }
    if !negative {
        if overflow {
            None
        } else {
            Some(Number::PosInt(magnitude))
        }
    } else if overflow {
        None
    } else if magnitude == 0 {
        Some(Number::PosInt(0))
    } else if magnitude < 0x8000_0000_0000_0000 {
        Some(Number::NegInt(-(magnitude as i64)))
    } else if magnitude == 0x8000_0000_0000_0000 {
        Some(Number::NegInt(i64::MIN))
    } else {
        None
    }
}

/// The context of a depth refusal.
fn depth_message() -> (t: String)
    ensures
        t@ == depth_detail(),
{
    proof {
        reveal_strlit("raise ParseOptions::with_max_depth only for a document you trust");
    }
    "raise ParseOptions::with_max_depth only for a document you trust".to_owned()
}

/// The context of an integer literal that does not fit.
fn big_integer_message() -> (t: String)
    ensures
        t@ == big_integer_detail(),
{
    "an integer literal outside u64/i64 would lose precision as a float; set ParseOptions::with_lossy_big_integers to accept that".to_owned()
}

/// The context of a float literal that is not finite.
fn infinite_message() -> (t: String)
    ensures
        t@ == infinite_detail(),
{
    "the literal overflows to infinity, which JSON cannot represent".to_owned()
}

/// The value of a hex digit.
fn hex_digit(c: char) -> (r: Option<u32>)
    ensures
        r == hex_value(c),
{
    if '0' <= c && c <= '9' {
        Some(c as u32 - '0' as u32)
    } else if 'a' <= c && c <= 'f' {
        Some(c as u32 - 'a' as u32 + 10)
    } else if 'A' <= c && c <= 'F' {
        Some(c as u32 - 'A' as u32 + 10)
    } else {
        None
    }
}

/// The character with scalar value `v`, when there is one.
///
/// Trusted: calls `char::from_u32`, which std documents as returning
/// `Some` exactly for Unicode scalar values (at most `0x10FFFF` and not a
/// surrogate); the contract claims that, and that the character is `v`.
#[verifier::external_body]
fn char_from_u32(v: u32) -> (r: Option<char>)
    ensures
        vstd::utf8::is_scalar(v) ==> r == Some(v as char),
        !vstd::utf8::is_scalar(v) ==> r is None,
{
    char::from_u32(v)
}

} // verus!
