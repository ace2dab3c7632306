//! What went wrong, and where.

use vstd::prelude::*;

use crate::render::decimal;
use crate::text::chars_of;
use crate::write::{decimal_chars, push_chars};

verus! {

/// The category of a parse failure.
#[derive(Debug, Clone, Copy, PartialEq, Eq, Structural, Hash)]
#[non_exhaustive]
pub enum ErrorKind {
    /// The document ended while a value was still open.
    UnexpectedEof,
    /// A character appeared where the grammar does not allow one.
    UnexpectedChar,
    /// A complete value was read, then more non-whitespace followed it.
    TrailingData,
    /// A number that does not match JSON's grammar.
    InvalidNumber,
    /// A number JSON allows but this crate will not represent inexactly.
    NumberOutOfRange,
    /// A raw `U+0000`..=`U+001F` inside a string.
    ControlCharacterInString,
    /// A backslash escape JSON does not define, or a malformed `\uXXXX`.
    InvalidEscape,
    /// A `\uXXXX` surrogate with no matching partner.
    LoneSurrogate,
    /// Nesting exceeded the configured cap.
    DepthLimitExceeded,
}

/// The description of each kind, as characters.
pub open spec fn kind_text(kind: ErrorKind) -> Seq<char> {
    match kind {
        ErrorKind::UnexpectedEof => "unexpected end of input"@,
        ErrorKind::UnexpectedChar => "unexpected character"@,
        ErrorKind::TrailingData => "trailing data after the top-level value"@,
        ErrorKind::InvalidNumber => "invalid number"@,
        ErrorKind::NumberOutOfRange => "number out of range"@,
        ErrorKind::ControlCharacterInString => "unescaped control character in string"@,
        ErrorKind::InvalidEscape => "invalid escape sequence"@,
        ErrorKind::LoneSurrogate => "lone surrogate in \\u escape"@,
        ErrorKind::DepthLimitExceeded => "nesting is deeper than the configured limit"@,
    }
}

impl ErrorKind {
    /// A short, stable description of the kind.
    pub fn as_str(self) -> (text: &'static str)
        ensures
            text@ == kind_text(self),
    {
        match self {
            ErrorKind::UnexpectedEof => "unexpected end of input",
            ErrorKind::UnexpectedChar => "unexpected character",
            ErrorKind::TrailingData => "trailing data after the top-level value",
            ErrorKind::InvalidNumber => "invalid number",
            ErrorKind::NumberOutOfRange => "number out of range",
            ErrorKind::ControlCharacterInString => "unescaped control character in string",
            ErrorKind::InvalidEscape => "invalid escape sequence",
            ErrorKind::LoneSurrogate => "lone surrogate in \\u escape",
            ErrorKind::DepthLimitExceeded => "nesting is deeper than the configured limit",
        }
    }
}


/// A parse failure, located in the source text.
///
/// `line` and `column` are 1-based and count characters, not bytes.
#[derive(Debug, Clone, PartialEq, Eq)]
pub struct Error {
    /// What went wrong.
    pub kind: ErrorKind,
    /// 1-based line.
    pub line: usize,
    /// 1-based column, in characters.
    pub column: usize,
    /// Byte offset from the start of the input.
    pub offset: usize,
    /// Extra context, when there is any worth carrying.
    pub detail: Option<String>,
}

/// The 1-based line and column, in characters, of character position `p`.
pub open spec fn line_column(s: Seq<char>, p: int) -> (int, int)
    decreases p,
{
    if p <= 0 {
        (1, 1)
    } else {
        let (line, column) = line_column(s, p - 1);
        if s[p - 1] == '\n' {
            (line + 1, 1)
        } else {
            (line, column + 1)
        }
    }
}

/// The byte offset of character position `p`: the length of the UTF-8
/// encoding of the characters before it.
pub open spec fn byte_offset(s: Seq<char>, p: int) -> int {
    vstd::utf8::encode_utf8(s.take(p)).len() as int
}

/// The model of an optional detail.
pub open spec fn detail_view(d: Option<String>) -> Option<Seq<char>> {
    match d {
        Some(t) => Some(t@),
        None => None,
    }
}

/// Whether `e` reports `kind` at character position `p` of `s`, with `detail`.
pub open spec fn reports(e: Error, s: Seq<char>, kind: ErrorKind, p: int, detail: Option<Seq<char>>) -> bool {
    &&& e.kind == kind
    &&& e.line == line_column(s, p).0
    &&& e.column == line_column(s, p).1
    &&& e.offset == byte_offset(s, p)
    &&& detail_view(e.detail) == detail
}

/// The number of bytes UTF-8 uses for `c`.
pub open spec fn utf8_width(c: char) -> nat {
    vstd::utf8::encode_scalar(c as u32).len()
}

/// The encoding of a concatenation is the concatenation of the encodings.
pub proof fn lemma_encode_utf8_append(a: Seq<char>, b: Seq<char>)
    ensures
        vstd::utf8::encode_utf8(a + b) == vstd::utf8::encode_utf8(a) + vstd::utf8::encode_utf8(b),
    decreases a.len(),
{
    if a.len() == 0 {
        assert(a + b =~= b);
    } else {
        lemma_encode_utf8_append(a.drop_first(), b);
        assert((a + b).drop_first() =~= a.drop_first() + b);
        assert((a + b)[0] == a[0]);
    }
}

/// Extending a prefix by one character adds that character's width.
pub proof fn lemma_byte_offset_step(s: Seq<char>, p: int)
    requires
        0 <= p < s.len(),
    ensures
        byte_offset(s, p + 1) == byte_offset(s, p) + utf8_width(s[p]),
{
    lemma_encode_utf8_append(s.take(p), seq![s[p]]);
    assert(s.take(p + 1) =~= s.take(p) + seq![s[p]]);
    assert(seq![s[p]].drop_first() =~= Seq::<char>::empty());
    assert(vstd::utf8::encode_utf8(Seq::<char>::empty()) =~= Seq::<u8>::empty());
    assert(vstd::utf8::encode_utf8(seq![s[p]]) =~= vstd::utf8::encode_scalar(s[p] as u32));
}

/// The byte width of a character, as `char::len_utf8` gives it.
pub fn char_width(c: char) -> (w: usize)
    ensures
        w == utf8_width(c),
        1 <= w <= 4,
{
    let v = c as u32;
    proof {
        vstd::utf8::char_is_scalar(c);
    }
    if v < 0x80 {
        1
    } else if v < 0x800 {
        2
    } else if v < 0x10000 {
        3
    } else {
        4
    }
}

/// How many characters of `s`, from the `i`-th on, start before byte `b`,
/// counted from the start of `s`: the position `i` at which the walk stops.
pub open spec fn chars_before_from(s: Seq<char>, b: int, i: int) -> int
    decreases s.len() - i,
{
    if i < 0 || i >= s.len() || byte_offset(s, i) >= b {
        i
    } else {
        chars_before_from(s, b, i + 1)
    }
}

/// The number of characters of `s` whose UTF-8 encoding starts before byte
/// `b`: the character position of byte offset `b`, clamped to the end.
pub open spec fn chars_before(s: Seq<char>, b: int) -> int {
    chars_before_from(s, b, 0)
}

/// The 1-based line and column, in characters, of byte offset `b` of `s`,
/// an offset past the end standing for the end.
pub open spec fn located(s: Seq<char>, b: int) -> (int, int) {
    line_column(s, chars_before(s, b))
}

/// The byte offset of a character position is where its character starts.
pub proof fn lemma_chars_before_offset(s: Seq<char>, p: int)
    requires
        0 <= p <= s.len(),
    ensures
        chars_before(s, byte_offset(s, p)) == p,
{
    lemma_chars_before_from_offset(s, p, 0);
}

proof fn lemma_chars_before_from_offset(s: Seq<char>, p: int, i: int)
    requires
        0 <= i <= p <= s.len(),
    ensures
        chars_before_from(s, byte_offset(s, p), i) == p,
    decreases p - i,
{
    if i < p {
        lemma_byte_offset_increases(s, i, p);
        lemma_chars_before_from_offset(s, p, i + 1);
    }
}

/// A character that starts earlier starts at a smaller byte offset.
proof fn lemma_byte_offset_increases(s: Seq<char>, i: int, p: int)
    requires
        0 <= i < p <= s.len(),
    ensures
        byte_offset(s, i) < byte_offset(s, p),
    decreases p - i,
{
    lemma_byte_offset_step(s, i);
    vstd::utf8::char_is_scalar(s[i]);
    assert(utf8_width(s[i]) >= 1) by {
        reveal(vstd::utf8::encode_scalar);
    }
    if i + 1 < p {
        lemma_byte_offset_increases(s, i + 1, p);
    }
}

/// The byte offset of character position `at` of `s`.
fn byte_position(s: &Vec<char>, at: usize, bytes_len: usize) -> (b: usize)
    requires
        at <= s@.len(),
        byte_offset(s@, s@.len() as int) == bytes_len,
    ensures
        b == byte_offset(s@, at as int),
{
    let mut offset: usize = 0;
    let mut i: usize = 0;
    proof {
        assert(s@.take(0) =~= Seq::<char>::empty());
    }
    while i < at
        invariant
            i <= at <= s@.len(),
            byte_offset(s@, s@.len() as int) == bytes_len,
            offset == byte_offset(s@, i as int),
        decreases at - i,
    {
        proof {
            lemma_byte_offset_step(s@, i as int);
            lemma_byte_offset_bounded(s@, i as int + 1);
        }
        let w = char_width(s[i]);
        offset = offset + w;
        i = i + 1;
    }
    offset
}

/// The 1-based line and column, in characters, of byte offset `offset` of
/// `s`, whose UTF-8 encoding is `bytes_len` bytes long. An offset past the
/// end stands for the end.
fn locate(s: &Vec<char>, offset: usize, bytes_len: usize) -> (r: (usize, usize))
    requires
        s@.len() < usize::MAX,
        byte_offset(s@, s@.len() as int) == bytes_len,
    ensures
        (r.0 as int, r.1 as int) == located(s@, offset as int),
{
    let mut line: usize = 1;
    let mut column: usize = 1;
    let mut start: usize = 0;
    let mut i: usize = 0;
    proof {
        assert(s@.take(0) =~= Seq::<char>::empty());
    }
    while i < s.len() && start < offset
        invariant
            i <= s@.len(),
            s@.len() < usize::MAX,
            byte_offset(s@, s@.len() as int) == bytes_len,
            (line as int, column as int) == line_column(s@, i as int),
            start == byte_offset(s@, i as int),
            chars_before(s@, offset as int) == chars_before_from(s@, offset as int, i as int),
            line <= i + 1,
            column <= i + 1,
        decreases s@.len() - i,
    {
        proof {
            lemma_byte_offset_step(s@, i as int);
            lemma_byte_offset_bounded(s@, i as int + 1);
        }
        let w = char_width(s[i]);
        if s[i] == '\n' {
            line = line + 1;
            column = 1;
        } else {
            column = column + 1;
        }
        start = start + w;
        i = i + 1;
    }
    (line, column)
}

impl Error {
    /// The error `kind` at byte offset `offset` of `s`, whose UTF-8 encoding
    /// is `bytes_len` bytes long. The offset is kept as given; the line and
    /// column are those of the character it falls in, or of the end when it
    /// lies past it.
    pub(crate) fn new(kind: ErrorKind, s: &Vec<char>, offset: usize, bytes_len: usize) -> (e: Error)
        requires
            s@.len() < usize::MAX,
            byte_offset(s@, s@.len() as int) == bytes_len,
        ensures
            e.kind == kind,
            (e.line as int, e.column as int) == located(s@, offset as int),
            e.offset == offset,
            e.detail is None,
    {
        let (line, column) = locate(s, offset, bytes_len);
        Error { kind, line, column, offset, detail: None }
    }

    /// The error `kind` at character position `at` of `s`.
    pub(crate) fn at_char(kind: ErrorKind, s: &Vec<char>, at: usize, bytes_len: usize) -> (e: Error)
        requires
            at <= s@.len(),
            s@.len() < usize::MAX,
            byte_offset(s@, s@.len() as int) == bytes_len,
        ensures
            reports(e, s@, kind, at as int, None),
    {
        let b = byte_position(s, at, bytes_len);
        proof {
            lemma_chars_before_offset(s@, at as int);
        }
        Error::new(kind, s, b, bytes_len)
    }

    /// The same error, carrying `detail`.
    pub(crate) fn with_detail(self, detail: String) -> (e: Error)
        ensures
            e.kind == self.kind,
            e.line == self.line,
            e.column == self.column,
            e.offset == self.offset,
            detail_view(e.detail) == Some(detail@),
    {
        Error { detail: Some(detail), ..self }
    }

    /// What went wrong and where, for a person to read: the kind's
    /// description, the line and column, and the detail when there is one.
    pub fn message(&self) -> (text: String)
        ensures
            text@ == message_text(*self),
    {
        let mut out = String::new();
        push_chars(&mut out, &chars_of(self.kind.as_str()));
        push_chars(&mut out, &chars_of(" at line "));
        push_chars(&mut out, &decimal_chars(self.line as u64));
        push_chars(&mut out, &chars_of(", column "));
        push_chars(&mut out, &decimal_chars(self.column as u64));
        match &self.detail {
            Some(d) => {
                push_chars(&mut out, &chars_of(": "));
                push_chars(&mut out, &chars_of(d.as_str()));
            },
            None => {},
        }
        proof {
            match &self.detail {
                Some(d) => {
                    assert(out@ =~= message_text(*self));
                },
                None => {
                    assert(out@ =~= message_text(*self));
                },
            }
        }
        out
    }
}

/// The text of [`Error::message`].
pub open spec fn message_text(e: Error) -> Seq<char> {
    kind_text(e.kind) + " at line "@ + decimal(e.line as nat) + ", column "@ + decimal(
        e.column as nat,
    ) + match e.detail {
        Some(d) => ": "@ + d@,
        None => Seq::<char>::empty(),
    }
}

/// A prefix's encoding is no longer than the whole.
pub proof fn lemma_byte_offset_bounded(s: Seq<char>, p: int)
    requires
        0 <= p <= s.len(),
    ensures
        0 <= byte_offset(s, p) <= byte_offset(s, s.len() as int),
{
    lemma_encode_utf8_append(s.take(p), s.skip(p));
    assert(s.take(p) + s.skip(p) =~= s);
    assert(s.take(s.len() as int) =~= s);
}


/// The line feeds of `s`.
pub open spec fn line_feeds(s: Seq<char>) -> Seq<char> {
    s.filter(|c: char| c == '\n')
}

/// Lines and columns count characters, and only a line feed ends a line:
/// the line of position `p` is one more than the line feeds before it, and
/// its column is one more than the characters between it and the last of
/// them (or the start).
pub proof fn law_line_column(s: Seq<char>, p: int)
    requires
        0 <= p <= s.len(),
    ensures
        ({
            let (line, column) = line_column(s, p);
            let start = p - (column - 1);
            &&& line == 1 + line_feeds(s.take(p)).len()
            &&& 1 <= column
            &&& 0 <= start <= p
            &&& (start == 0 || s[start - 1] == '\n')
            &&& forall|j: int| start <= j < p ==> #[trigger] s[j] != '\n'
        }),
    decreases p,
{
    reveal(Seq::filter);
    if p > 0 {
        law_line_column(s, p - 1);
        assert(s.take(p).drop_last() =~= s.take(p - 1));
        assert(s.take(p).last() == s[p - 1]);
    } else {
        assert(s.take(0) =~= Seq::<char>::empty());
    }
}

} // verus!
