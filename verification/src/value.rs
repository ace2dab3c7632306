//! The value tree: [`Value`], [`Number`], [`FloatText`] and [`Object`], with the
//! mathematical model they are specified against.

use vstd::prelude::*;

use crate::render::{insert_position, key_lt, sorted_order};
use crate::text::{chars_of, str_eq, string_push};

verus! {

// ---------------------------------------------------------------------------
// The model
// ---------------------------------------------------------------------------

/// A JSON number, as contracts see it.
pub enum JsonNumber {
    /// A non-negative integer literal.
    PosInt(u64),
    /// A negative integer literal.
    NegInt(i64),
    /// A float, by its shortest decimal rendering.
    Float(Seq<char>),
}

/// A JSON value, as contracts see it. Objects are their entries in order.
pub enum JsonValue {
    Null,
    Bool(bool),
    Number(JsonNumber),
    String(Seq<char>),
    Array(Seq<JsonValue>),
    Object(Seq<(Seq<char>, JsonValue)>),
}

/// Whether `c` is an ASCII decimal digit.
pub open spec fn is_digit(c: char) -> bool {
    '0' <= c && c <= '9'
}

/// Whether every character of `s` is a decimal digit.
pub open spec fn all_digits(s: Seq<char>) -> bool {
    forall|i: int| 0 <= i < s.len() ==> is_digit(#[trigger] s[i])
}

/// The digits of an integer part: `0`, or a non-zero digit and more digits.
pub open spec fn is_int_digits(s: Seq<char>) -> bool {
    &&& s.len() > 0
    &&& all_digits(s)
    &&& (s[0] == '0' ==> s.len() == 1)
}

/// The digits of a fraction that ends in a non-zero digit.
pub open spec fn is_trimmed_fraction(s: Seq<char>) -> bool {
    &&& s.len() > 0
    &&& all_digits(s)
    &&& s[s.len() - 1] != '0'
}

/// A rendering without its sign.
pub open spec fn unsigned_part(t: Seq<char>) -> Seq<char> {
    if t.len() > 0 && t[0] == '-' {
        t.drop_first()
    } else {
        t
    }
}

/// An unsigned decimal without exponent or redundant zeros:
/// `(0|[1-9][0-9]*)(\.[0-9]*[1-9])?`.
pub open spec fn is_unsigned_rendering(body: Seq<char>) -> bool {
    ||| is_int_digits(body)
    ||| exists|k: int|
        0 < k < body.len() && body[k] == '.' && is_int_digits(#[trigger] body.take(k))
            && is_trimmed_fraction(body.skip(k + 1))
}

/// A decimal without exponent, without redundant zeros:
/// `-?(0|[1-9][0-9]*)(\.[0-9]*[1-9])?`.
///
/// This is the shape of Rust's shortest round-trip `Display` of a finite
/// `f64`, which never writes an exponent.
pub open spec fn is_float_rendering(t: Seq<char>) -> bool {
    is_unsigned_rendering(unsigned_part(t))
}

/// Whether a rendering denotes zero (`0` or `-0`).
pub open spec fn is_zero_rendering(t: Seq<char>) -> bool {
    t == seq!['0'] || t == seq!['-', '0']
}

/// Float equality over renderings: the same number, where `0` and `-0` are
/// equal, as they are for `f64`.
pub open spec fn float_eq(a: Seq<char>, b: Seq<char>) -> bool {
    a == b || (is_zero_rendering(a) && is_zero_rendering(b))
}

/// Number equality.
pub open spec fn number_eq(a: JsonNumber, b: JsonNumber) -> bool {
    match (a, b) {
        (JsonNumber::PosInt(x), JsonNumber::PosInt(y)) => x == y,
        (JsonNumber::NegInt(x), JsonNumber::NegInt(y)) => x == y,
        (JsonNumber::Float(x), JsonNumber::Float(y)) => float_eq(x, y),
        _ => false,
    }
}

/// The index of the first entry with key `k`, or `None`.
pub open spec fn find_key<V>(entries: Seq<(Seq<char>, V)>, k: Seq<char>) -> Option<int>
    decreases entries.len(),
{
    if entries.len() == 0 {
        None
    } else if entries[0].0 == k {
        Some(0)
    } else {
        match find_key(entries.drop_first(), k) {
            Some(i) => Some(i + 1),
            None => None,
        }
    }
}

/// The entries after inserting `k` with `v`: a key already present keeps
/// its first position and takes the new value; a new key goes last.
pub open spec fn inserted(
    entries: Seq<(Seq<char>, JsonValue)>,
    k: Seq<char>,
    v: JsonValue,
) -> Seq<(Seq<char>, JsonValue)> {
    match find_key(entries, k) {
        Some(i) => entries.update(i, (k, v)),
        None => entries.push((k, v)),
    }
}

/// The entries after inserting each of `pairs` in turn into an empty
/// object.
pub open spec fn inserted_all(pairs: Seq<(Seq<char>, JsonValue)>) -> Seq<(Seq<char>, JsonValue)>
    decreases pairs.len(),
{
    if pairs.len() == 0 {
        Seq::empty()
    } else {
        inserted(inserted_all(pairs.drop_last()), pairs.last().0, pairs.last().1)
    }
}

/// The model of a list of key-value pairs.
pub open spec fn pairs_view(pairs: Seq<(String, Value)>) -> Seq<(Seq<char>, JsonValue)> {
    pairs.map_values(|e: (String, Value)| (e.0@, e.1@))
}

/// Whether no key occurs twice.
pub open spec fn keys_distinct<V>(entries: Seq<(Seq<char>, V)>) -> bool {
    forall|i: int, j: int|
        0 <= i < j < entries.len() ==> #[trigger] entries[i].0 != #[trigger] entries[j].0
}

/// Value equality: objects are equal when they hold the same keys with
/// equal values, whatever their order; arrays when they hold equal elements
/// in the same order.
pub open spec fn json_eq(a: JsonValue, b: JsonValue) -> bool
    decreases a, 0nat,
{
    match (a, b) {
        (JsonValue::Null, JsonValue::Null) => true,
        (JsonValue::Bool(x), JsonValue::Bool(y)) => x == y,
        (JsonValue::Number(x), JsonValue::Number(y)) => number_eq(x, y),
        (JsonValue::String(x), JsonValue::String(y)) => x == y,
        (JsonValue::Array(xs), JsonValue::Array(ys)) => xs.len() == ys.len() && items_eq(xs, ys, 0),
        (JsonValue::Object(xs), JsonValue::Object(ys)) => xs.len() == ys.len() && members_eq(
            xs,
            ys,
            0,
        ),
        _ => false,
    }
}

/// Whether the elements of `xs` from the `i`-th on equal those of `ys` at
/// the same places.
pub open spec fn items_eq(xs: Seq<JsonValue>, ys: Seq<JsonValue>, i: int) -> bool
    decreases xs, xs.len() - i,
{
    if i < 0 || i >= xs.len() {
        true
    } else {
        i < ys.len() && json_eq(xs[i], ys[i]) && items_eq(xs, ys, i + 1)
    }
}

/// Whether each entry of `xs` from the `i`-th on has its key in `ys`, with
/// an equal value.
pub open spec fn members_eq(
    xs: Seq<(Seq<char>, JsonValue)>,
    ys: Seq<(Seq<char>, JsonValue)>,
    i: int,
) -> bool
    decreases xs, xs.len() - i,
{
    if i < 0 || i >= xs.len() {
        true
    } else {
        let here = match find_key(ys, xs[i].0) {
            Some(j) => json_eq(xs[i].1, ys[j].1),
            None => false,
        };
        here && members_eq(xs, ys, i + 1)
    }
}


// ---------------------------------------------------------------------------
// The executable types
// ---------------------------------------------------------------------------

/// A finite float, held as its shortest round-trip decimal rendering.
///
/// Rust's `Display` for a finite `f64` writes exactly one such text for each
/// value, so the text stands for the float: two renderings are the same float
/// when they are equal, or when both are a zero (`0`, `-0`). Turning an `f64`
/// into its text, and a literal into an `f64`, is float arithmetic, which
/// this crate does not perform; the caller does it and hands the text over.
#[derive(Debug)]
pub struct FloatText {
    text: String,
}

impl View for FloatText {
    type V = Seq<char>;

    closed spec fn view(&self) -> Seq<char> {
        self.text@
    }
}

impl FloatText {
    #[verifier::type_invariant]
    spec fn well_formed(self) -> bool {
        is_float_rendering(self.text@)
    }

    /// The float zero.
    pub(crate) fn zero() -> (f: FloatText)
        ensures
            f@ == seq!['0'],
    {
        let mut text = String::new();
        string_push(&mut text, '0');
        proof {
            assert(is_int_digits(text@));
        }
        FloatText { text }
    }

    /// A float rendering, when `text` has the shape of one:
    /// `-?(0|[1-9][0-9]*)(\.[0-9]*[1-9])?`.
    ///
    /// Only the shape is checked. For the result to stand for an `f64`, the
    /// caller passes that float's `Display` text, which is its shortest
    /// round-trip rendering. Any other text of this shape, such as
    /// `0.10000000000000001`, is kept as given: it is a different value from
    /// `0.1` here, and the writers write it as given.
    pub fn new(text: &str) -> (f: Option<FloatText>)
        ensures
            match f {
                Some(f) => is_float_rendering(text@) && f@ == text@,
                None => !is_float_rendering(text@),
            },
    {
        let chars = chars_of(text);
        if is_rendering(&chars) {
            Some(FloatText { text: text.to_owned() })
        } else {
            None
        }
    }

    /// The rendering.
    pub fn as_str(&self) -> (text: &str)
        ensures
            text@ == self@,
            is_float_rendering(text@),
    {
        proof {
            use_type_invariant(self);
        }
        self.text.as_str()
    }
}

/// A JSON number.
///
/// The literal's shape decides the variant: an integer literal is an exact
/// integer, a literal with a fraction or an exponent is a float.
#[derive(Debug)]
pub enum Number {
    /// A non-negative integer literal.
    PosInt(u64),
    /// A negative integer literal.
    NegInt(i64),
    /// A literal carrying a fraction or an exponent. Always finite.
    Float(FloatText),
}

impl View for Number {
    type V = JsonNumber;

    open spec fn view(&self) -> JsonNumber {
        match self {
            Number::PosInt(v) => JsonNumber::PosInt(*v),
            Number::NegInt(v) => JsonNumber::NegInt(*v),
            Number::Float(f) => JsonNumber::Float(f@),
        }
    }
}

/// A JSON value.
///
/// Dropping a value is Rust's ordinary drop, which recurses once per level
/// of nesting: a value nested hundreds of thousands of levels deep, which
/// only code can build (the reader's cap refuses such a document), can
/// overflow the stack when it is dropped. Release such a value with
/// [`Value::dispose`], which takes it apart with a worklist.
#[derive(Debug)]
pub enum Value {
    /// `null`.
    Null,
    /// `true` or `false`.
    Bool(bool),
    /// A number.
    Number(Number),
    /// A string.
    String(String),
    /// An array.
    Array(Vec<Value>),
    /// An object.
    Object(Object),
}

/// A JSON object: string keys to values, in insertion order.
///
/// Keys and values are held side by side: the `i`-th key goes with the
/// `i`-th value.
#[derive(Debug)]
pub struct Object {
    keys: Vec<String>,
    values: Vec<Value>,
}

/// The models of a run of values.
pub open spec fn values_view(s: Seq<Value>) -> Seq<JsonValue>
    decreases s,
{
    if s.len() == 0 {
        Seq::empty()
    } else {
        values_view(s.subrange(0, s.len() - 1)).push(s[s.len() - 1].view())
    }
}

/// The model of an object held as keys beside the models of its values.
pub open spec fn keyed_view(keys: Seq<String>, values: Seq<JsonValue>) -> Seq<(Seq<char>, JsonValue)> {
    Seq::new(values.len(), |i: int| (keys[i]@, values[i]))
}

impl View for Value {
    type V = JsonValue;

    open spec fn view(&self) -> JsonValue
        decreases self,
    {
        match self {
            Value::Null => JsonValue::Null,
            Value::Bool(b) => JsonValue::Bool(*b),
            Value::Number(n) => JsonValue::Number(n@),
            Value::String(s) => JsonValue::String(s@),
            Value::Array(items) => JsonValue::Array(values_view(items@)),
            Value::Object(m) => JsonValue::Object(m@),
        }
    }
}

impl View for Object {
    type V = Seq<(Seq<char>, JsonValue)>;

    closed spec fn view(&self) -> Seq<(Seq<char>, JsonValue)>
        decreases self,
    {
        keyed_view(self.keys@, values_view(self.values@))
    }
}


/// `values_view` is the pointwise model.
pub proof fn lemma_values_view(s: Seq<Value>)
    ensures
        values_view(s).len() == s.len(),
        forall|i: int| 0 <= i < s.len() ==> #[trigger] values_view(s)[i] == s[i]@,
    decreases s.len(),
{
    if s.len() > 0 {
        let pre = s.subrange(0, s.len() - 1);
        lemma_values_view(pre);
        assert(values_view(s) == values_view(pre).push(s[s.len() - 1]@));
        assert forall|i: int| 0 <= i < s.len() implies #[trigger] values_view(s)[i] == s[i]@ by {
            if i < s.len() - 1 {
                assert(pre[i] == s[i]);
            }
        }
    }
}

/// Replacing one value replaces its model.
pub broadcast proof fn lemma_values_view_update(s: Seq<Value>, i: int, x: Value)
    requires
        0 <= i < s.len(),
    ensures
        #[trigger] values_view(s.update(i, x)) == values_view(s).update(i, x@),
{
    lemma_values_view(s);
    lemma_values_view(s.update(i, x));
    assert(values_view(s.update(i, x)) =~= values_view(s).update(i, x@));
}

/// `find_key` finds the first entry with the key.
pub proof fn lemma_find_key<V>(entries: Seq<(Seq<char>, V)>, k: Seq<char>)
    ensures
        match find_key(entries, k) {
            Some(i) => 0 <= i < entries.len() && entries[i].0 == k && forall|j: int|
                0 <= j < i ==> #[trigger] entries[j].0 != k,
            None => forall|j: int| 0 <= j < entries.len() ==> #[trigger] entries[j].0 != k,
        },
    decreases entries.len(),
{
    if entries.len() > 0 {
        lemma_find_key(entries.drop_first(), k);
        if entries[0].0 != k {
            match find_key(entries.drop_first(), k) {
                Some(i) => {
                    assert forall|j: int| 0 <= j < i + 1 implies #[trigger] entries[j].0 != k by {
                        if j > 0 {
                            assert(entries[j] == entries.drop_first()[j - 1]);
                        }
                    }
                },
                None => {
                    assert forall|j: int| 0 <= j < entries.len() implies #[trigger] entries[j].0
                        != k by {
                        if j > 0 {
                            assert(entries[j] == entries.drop_first()[j - 1]);
                        }
                    }
                },
            }
        }
    }
}

/// Characterises `find_key` by the first index holding the key.
pub proof fn lemma_find_key_at<V>(entries: Seq<(Seq<char>, V)>, k: Seq<char>, i: int)
    requires
        0 <= i < entries.len(),
        entries[i].0 == k,
        forall|j: int| 0 <= j < i ==> #[trigger] entries[j].0 != k,
    ensures
        find_key(entries, k) == Some(i),
{
    lemma_find_key(entries, k);
    match find_key(entries, k) {
        Some(x) => {
            if x < i {
            } else if x > i {
            }
        },
        None => {
            assert(entries[i].0 != k);
        },
    }
}

/// Characterises `find_key` returning `None`.
pub proof fn lemma_find_key_none<V>(entries: Seq<(Seq<char>, V)>, k: Seq<char>)
    requires
        forall|j: int| 0 <= j < entries.len() ==> #[trigger] entries[j].0 != k,
    ensures
        find_key(entries, k) is None,
{
    lemma_find_key(entries, k);
    match find_key(entries, k) {
        Some(x) => {
            assert(entries[x].0 == k);
        },
        None => {},
    }
}


/// After an insert, a lookup of the key finds the value inserted, and a
/// lookup of any other key finds what it found before; the keys stay
/// distinct, and the object grows by one entry exactly when the key was new.
pub proof fn law_lookup_after_insert(
    entries: Seq<(Seq<char>, JsonValue)>,
    k: Seq<char>,
    v: JsonValue,
    other: Seq<char>,
)
    requires
        keys_distinct(entries),
        other != k,
    ensures
        find_key(inserted(entries, k, v), k) matches Some(i) && inserted(entries, k, v)[i] == (k, v),
        find_key(inserted(entries, k, v), other) == find_key(entries, other),
        find_key(entries, other) matches Some(j) ==> inserted(entries, k, v)[j] == entries[j],
        keys_distinct(inserted(entries, k, v)),
        inserted(entries, k, v).len() == entries.len() + if find_key(entries, k) is None {
            1int
        } else {
            0int
        },
{
    let m2 = inserted(entries, k, v);
    lemma_find_key(entries, k);
    lemma_find_key(entries, other);
    match find_key(entries, k) {
        Some(i) => {
            lemma_find_key_at(m2, k, i);
            match find_key(entries, other) {
                Some(j) => {
                    lemma_find_key_at(m2, other, j);
                },
                None => {
                    lemma_find_key_none(m2, other);
                },
            }
        },
        None => {
            let n = entries.len() as int;
            assert forall|j: int| 0 <= j < n implies #[trigger] m2[j].0 != k by {
                assert(m2[j] == entries[j]);
            }
            lemma_find_key_at(m2, k, n);
            match find_key(entries, other) {
                Some(j) => {
                    lemma_find_key_at(m2, other, j);
                },
                None => {
                    lemma_find_key_none(m2, other);
                },
            }
        },
    }
}

/// After a key is removed, a lookup of it finds nothing, and a lookup of
/// any other key finds the value it found before.
pub proof fn law_lookup_after_remove(
    entries: Seq<(Seq<char>, JsonValue)>,
    k: Seq<char>,
    other: Seq<char>,
)
    requires
        keys_distinct(entries),
        find_key(entries, k) is Some,
        other != k,
    ensures
        ({
            let m2 = entries.remove(find_key(entries, k)->Some_0);
            &&& find_key(m2, k) is None
            &&& match find_key(entries, other) {
                Some(j) => find_key(m2, other) matches Some(j2) && m2[j2] == entries[j],
                None => find_key(m2, other) is None,
            }
            &&& keys_distinct(m2)
        }),
{
    let i = find_key(entries, k)->Some_0;
    let m2 = entries.remove(i);
    lemma_find_key(entries, k);
    lemma_find_key(entries, other);
    assert forall|j: int| 0 <= j < m2.len() implies #[trigger] m2[j].0 != k by {
        if j < i {
            assert(m2[j] == entries[j]);
        } else {
            assert(m2[j] == entries[j + 1]);
        }
    }
    lemma_find_key_none(m2, k);
    match find_key(entries, other) {
        Some(j) => {
            let j2 = if j < i { j } else { j - 1 };
            assert(j != i);
            assert(m2[j2] == entries[j]);
            assert forall|t: int| 0 <= t < j2 implies #[trigger] m2[t].0 != other by {
                if t < i {
                    assert(m2[t] == entries[t]);
                } else {
                    assert(m2[t] == entries[t + 1]);
                }
            }
            lemma_find_key_at(m2, other, j2);
        },
        None => {
            assert forall|t: int| 0 <= t < m2.len() implies #[trigger] m2[t].0 != other by {
                if t < i {
                    assert(m2[t] == entries[t]);
                } else {
                    assert(m2[t] == entries[t + 1]);
                }
            }
            lemma_find_key_none(m2, other);
        },
    }
    assert forall|a: int, b: int| 0 <= a < b < m2.len() implies #[trigger] m2[a].0 != #[trigger] m2[b].0 by {
        let a2 = if a < i { a } else { a + 1 };
        let b2 = if b < i { b } else { b + 1 };
        assert(m2[a] == entries[a2]);
        assert(m2[b] == entries[b2]);
    }
}

impl Clone for FloatText {
    fn clone(&self) -> (f: Self)
        ensures
            f@ == self@,
    {
        proof {
            use_type_invariant(self);
        }
        FloatText { text: self.text.clone() }
    }
}

/// The model of a list of indices.
pub open spec fn indices_view(v: Seq<usize>) -> Seq<int> {
    v.map_values(|x: usize| x as int)
}

/// Decides `key_lt`.
pub(crate) fn chars_lt(a: &Vec<char>, b: &Vec<char>) -> (r: bool)
    ensures
        r == key_lt(a@, b@),
{
    let mut i: usize = 0;
    proof {
        assert(a@.skip(0) =~= a@);
        assert(b@.skip(0) =~= b@);
    }
    while i < a.len() && i < b.len() && a[i] == b[i]
        invariant
            i <= a@.len(),
            i <= b@.len(),
            key_lt(a@, b@) == key_lt(a@.skip(i as int), b@.skip(i as int)),
        decreases a@.len() - i,
    {
        proof {
            assert(a@.skip(i as int).drop_first() =~= a@.skip(i + 1));
            assert(b@.skip(i as int).drop_first() =~= b@.skip(i + 1));
        }
        i = i + 1;
    }
    proof {
        if i < a@.len() {
            assert(a@.skip(i as int)[0] == a@[i as int]);
        }
        if i < b@.len() {
            assert(b@.skip(i as int)[0] == b@[i as int]);
        }
    }
    if i == a.len() {
        i < b.len()
    } else if i == b.len() {
        false
    } else {
        (a[i] as u32) < (b[i] as u32)
    }
}

/// The first position at or after `p` that does not hold a digit.
fn skip_digits(t: &Vec<char>, p: usize) -> (q: usize)
    requires
        p <= t@.len(),
    ensures
        p <= q <= t@.len(),
        forall|i: int| p <= i < q ==> is_digit(#[trigger] t@[i]),
        q < t@.len() ==> !is_digit(t@[q as int]),
{
    let mut q = p;
    while q < t.len() && '0' <= t[q] && t[q] <= '9'
        invariant
            p <= q <= t@.len(),
            forall|i: int| p <= i < q ==> is_digit(#[trigger] t@[i]),
        decreases t@.len() - q,
    {
        q = q + 1;
    }
    q
}

/// Decides `is_float_rendering`.
fn is_rendering(t: &Vec<char>) -> (b: bool)
    ensures
        b == is_float_rendering(t@),
{
    let ghost s = t@;
    let start: usize = if t.len() > 0 && t[0] == '-' { 1 } else { 0 };
    let ghost body = unsigned_part(s);
    assert(body =~= s.skip(start as int));
    let k = skip_digits(t, start);
    let ghost kb = k - start;
    assert(all_digits(body.take(kb))) by {
        assert forall|i: int| 0 <= i < body.take(kb).len() implies is_digit(#[trigger] body.take(kb)[i]) by {
            assert(body.take(kb)[i] == s[i + start]);
        }
    }
    let int_ok = k > start && (t[start] != '0' || k == start + 1);
    assert(int_ok == is_int_digits(body.take(kb))) by {
        if k > start {
            assert(body.take(kb)[0] == s[start as int]);
        }
    }
    if k == t.len() {
        proof {
            assert(body.take(kb) =~= body);
            if !int_ok {
                assert forall|j: int| 0 < j < body.len() && body[j] == '.' implies !(is_int_digits(#[trigger] body.take(j))
                    && is_trimmed_fraction(body.skip(j + 1))) by {
                    assert(body[j] == s[j + start]);
                }
            }
        }
        return int_ok;
    }
    if !(int_ok && t[k] == '.') {
        proof {
            assert(!is_int_digits(body)) by {
                assert(body[kb] == s[k as int]);
            }
            assert forall|j: int| 0 < j < body.len() && body[j] == '.' implies !(is_int_digits(#[trigger] body.take(j))
                && is_trimmed_fraction(body.skip(j + 1))) by {
                assert(body[j] == s[j + start]);
                if j < kb {
                    assert(is_digit(s[j + start]));
                } else if j > kb {
                    assert(body.take(j)[kb] == s[k as int]);
                } else {
                    assert(body.take(j) =~= body.take(kb));
                }
            }
        }
        return false;
    }
    let e = skip_digits(t, k + 1);
    let ok = e == t.len() && e > k + 1 && t[e - 1] != '0';
    proof {
        let frac = body.skip(kb + 1);
        assert(frac =~= s.subrange(k + 1, s.len() as int));
        assert(!is_int_digits(body)) by {
            assert(body[kb] == s[k as int]);
        }
        if ok {
            assert(all_digits(frac)) by {
                assert forall|i: int| 0 <= i < frac.len() implies is_digit(#[trigger] frac[i]) by {
                    assert(frac[i] == s[i + k + 1]);
                }
            }
            assert(body[kb] == '.');
            assert(frac[frac.len() - 1] == s[e - 1]);
            assert(is_trimmed_fraction(frac));
            assert(0 < kb < body.len() && body[kb] == '.' && is_int_digits(body.take(kb))
                && is_trimmed_fraction(body.skip(kb + 1)));
            assert(exists|j: int|
                0 < j < body.len() && body[j] == '.' && is_int_digits(#[trigger] body.take(j))
                    && is_trimmed_fraction(body.skip(j + 1)));
            assert(is_float_rendering(s));
            assert(is_int_digits(body.take(kb)) && is_trimmed_fraction(body.skip(kb + 1)));
        } else {
            assert forall|j: int| 0 < j < body.len() && body[j] == '.' implies !(is_int_digits(#[trigger] body.take(j))
                && is_trimmed_fraction(body.skip(j + 1))) by {
                assert(body[j] == s[j + start]);
                if j < kb {
                    assert(is_digit(s[j + start]));
                } else if j > kb {
                    assert(body.take(j)[kb] == s[k as int]);
                } else {
                    assert(body.skip(j + 1) =~= frac);
                    if e < t.len() {
                        assert(frac[e - k - 1] == s[e as int]);
                    } else if e == k + 1 {
                    } else {
                        assert(frac[frac.len() - 1] == s[e - 1]);
                    }
                }
            }
            assert(!is_float_rendering(s));
        }
    }
    ok
}

impl Object {
    #[verifier::type_invariant]
    spec fn well_formed(self) -> bool {
        &&& self.keys@.len() == self.values@.len()
        &&& forall|i: int, j: int|
            0 <= i < j < self.keys@.len() ==> #[trigger] self.keys@[i]@ != #[trigger] self.keys@[j]@
    }

    /// The model, entry by entry.
    proof fn lemma_view(self)
        requires
            self.keys@.len() == self.values@.len(),
        ensures
            self@.len() == self.keys@.len(),
            forall|i: int|
                0 <= i < self.keys@.len() ==> #[trigger] self@[i] == (
                    self.keys@[i]@,
                    self.values@[i]@,
                ),
    {
        lemma_values_view(self.values@);
    }

    /// The invariant, stated over the model.
    proof fn lemma_model_distinct(self)
        requires
            self.well_formed(),
        ensures
            keys_distinct(self@),
    {
        self.lemma_view();
        assert forall|i: int, j: int| 0 <= i < j < self@.len() implies #[trigger] self@[i].0
            != #[trigger] self@[j].0 by {
            assert(self@[i].0 == self.keys@[i]@);
            assert(self@[j].0 == self.keys@[j]@);
        }
    }

    /// Keys and values, taken out, leaving the object empty.
    fn take_parts(&mut self) -> (parts: (Vec<String>, Vec<Value>))
        ensures
            parts.0 == old(self).keys,
            parts.1 == old(self).values,
            parts.0@.len() == parts.1@.len(),
            forall|i: int, j: int|
                0 <= i < j < parts.0@.len() ==> #[trigger] parts.0@[i]@ != #[trigger] parts.0@[j]@,
            final(self)@ == Seq::<(Seq<char>, JsonValue)>::empty(),
    {
        proof {
            use_type_invariant(&*self);
        }
        let mut taken = Object::new();
        std::mem::swap(self, &mut taken);
        proof {
            use_type_invariant(&taken);
        }
        let Object { keys, values } = taken;
        (keys, values)
    }

    /// An empty object.
    pub fn new() -> (m: Object)
        ensures
            m@ == Seq::<(Seq<char>, JsonValue)>::empty(),
    {
        let m = Object { keys: Vec::new(), values: Vec::new() };
        proof {
            m.lemma_view();
        }
        m
    }

    /// An empty object with room for `capacity` entries.
    pub fn with_capacity(capacity: usize) -> (m: Object)
        ensures
            m@ == Seq::<(Seq<char>, JsonValue)>::empty(),
    {
        let m = Object { keys: Vec::with_capacity(capacity), values: Vec::with_capacity(capacity) };
        proof {
            m.lemma_view();
        }
        m
    }

    /// How many keys the object has.
    pub fn len(&self) -> (n: usize)
        ensures
            n == self@.len(),
            keys_distinct(self@),
    {
        proof {
            use_type_invariant(self);
            self.lemma_view();
            self.lemma_model_distinct();
        }
        self.keys.len()
    }

    /// Whether the object has no keys.
    pub fn is_empty(&self) -> (b: bool)
        ensures
            b == (self@.len() == 0),
    {
        proof {
            use_type_invariant(self);
            self.lemma_view();
        }
        self.keys.len() == 0
    }

    /// Where `key` stands, if it is present.
    fn position(&self, key: &str) -> (r: Option<usize>)
        ensures
            match r {
                Some(i) => find_key(self@, key@) == Some(i as int) && i < self.keys@.len(),
                None => find_key(self@, key@) is None,
            },
    {
        proof {
            use_type_invariant(self);
            self.lemma_view();
        }
        let mut i: usize = 0;
        while i < self.keys.len()
            invariant
                0 <= i <= self.keys@.len(),
                self.keys@.len() == self.values@.len(),
                self@.len() == self.keys@.len(),
                forall|j: int| 0 <= j < i ==> #[trigger] self@[j].0 != key@,
                forall|j: int|
                    0 <= j < self.keys@.len() ==> #[trigger] self@[j] == (
                        self.keys@[j]@,
                        self.values@[j]@,
                    ),
            decreases self.keys@.len() - i,
        {
            if str_eq(self.keys[i].as_str(), key) {
                proof {
                    lemma_find_key_at(self@, key@, i as int);
                }
                return Some(i);
            }
            i = i + 1;
        }
        proof {
            lemma_find_key_none(self@, key@);
        }
        None
    }

    /// Look up a key.
    pub fn get(&self, key: &str) -> (r: Option<&Value>)
        ensures
            match find_key(self@, key@) {
                Some(i) => r is Some && r.unwrap()@ == self@[i].1,
                None => r is None,
            },
    {
        proof {
            use_type_invariant(self);
            self.lemma_view();
        }
        match self.position(key) {
            Some(i) => Some(&self.values[i]),
            None => None,
        }
    }

    /// Look up a key, mutably.
    pub fn get_mut(&mut self, key: &str) -> (r: Option<&mut Value>)
        ensures
            match find_key(old(self)@, key@) {
                Some(i) => r matches Some(v) && v@ == old(self)@[i].1 && final(self)@
                    == old(self)@.update(i, (key@, final(v)@)),
                None => r is None && final(self)@ == old(self)@,
            },
    {
        proof {
            use_type_invariant(&*self);
            self.lemma_view();
            lemma_find_key(self@, key@);
        }
        match self.position(key) {
            Some(i) => {
                let ghost keys = self.keys@;
                let ghost values = self.values@;
                let ghost model = self@;
                proof {
                    assert(model[i as int] == (keys[i as int]@, values[i as int]@));
                }
                let r = &mut self.values[i];
                proof {
                    lemma_values_view_update(values, i as int, *final(r));
                    assert(keyed_view(keys, values_view(values.update(i as int, *final(r))))
                        =~= model.update(i as int, (key@, final(r)@)));
                }
                Some(r)
            },
            None => None,
        }
    }

    /// Whether a key is present.
    pub fn contains_key(&self, key: &str) -> (b: bool)
        ensures
            b == find_key(self@, key@) is Some,
    {
        self.position(key).is_some()
    }

    /// Insert or replace a key.
    ///
    /// A repeated key keeps its first position and takes the last value.
    /// Returns the value that was displaced.
    pub fn insert(&mut self, key: &str, value: Value) -> (r: Option<Value>)
        ensures
            final(self)@ == inserted(old(self)@, key@, value@),
            match find_key(old(self)@, key@) {
                Some(i) => r is Some && r.unwrap()@ == old(self)@[i].1,
                None => r is None,
            },
            keys_distinct(final(self)@),
    {
        proof {
            use_type_invariant(&*self);
            self.lemma_view();
            lemma_find_key(self@, key@);
        }
        let ghost before = *self;
        let found = self.position(key);
        let (mut keys, mut values) = self.take_parts();
        let displaced = match found {
            Some(i) => {
                let mut displaced = value;
                std::mem::swap(&mut values[i], &mut displaced);
                Some(displaced)
            },
            None => {
                proof {
                    assert forall|j: int| 0 <= j < keys@.len() implies #[trigger] keys@[j]@ != key@ by {
                        assert(before@[j].0 == keys@[j]@);
                    }
                }
                keys.push(key.to_owned());
                values.push(value);
                None
            },
        };
        *self = Object { keys, values };
        proof {
            self.lemma_view();
            self.lemma_model_distinct();
            match found {
                Some(i) => {
                    assert(self@ =~= before@.update(i as int, (key@, value@)));
                },
                None => {
                    assert(self@ =~= before@.push((key@, value@)));
                },
            }
        }
        displaced
    }

    /// Remove a key, returning its value.
    pub fn remove(&mut self, key: &str) -> (r: Option<Value>)
        ensures
            match find_key(old(self)@, key@) {
                Some(i) => {
                    &&& final(self)@ == old(self)@.remove(i)
                    &&& r is Some
                    &&& r.unwrap()@ == old(self)@[i].1
                },
                None => {
                    &&& final(self)@ == old(self)@
                    &&& r is None
                },
            },
            keys_distinct(final(self)@),
    {
        proof {
            use_type_invariant(&*self);
            self.lemma_view();
            self.lemma_model_distinct();
        }
        let ghost before = *self;
        match self.position(key) {
            Some(i) => {
                let (mut keys, mut values) = self.take_parts();
                let ghost old_keys = keys@;
                keys.remove(i);
                let removed = values.remove(i);
                proof {
                    assert forall|a: int, b: int| 0 <= a < b < keys@.len() implies #[trigger] keys@[a]@
                        != #[trigger] keys@[b]@ by {
                        let a2 = if a < i { a } else { a + 1 };
                        let b2 = if b < i { b } else { b + 1 };
                        assert(keys@[a] == old_keys[a2]);
                        assert(keys@[b] == old_keys[b2]);
                    }
                }
                *self = Object { keys, values };
                proof {
                    self.lemma_view();
                    self.lemma_model_distinct();
                    assert(self@ =~= before@.remove(i as int));
                }
                Some(removed)
            },
            None => None,
        }
    }

    /// The keys, in insertion order.
    pub fn keys(&self) -> (r: Vec<&str>)
        ensures
            r@.len() == self@.len(),
            forall|i: int| 0 <= i < r@.len() ==> #[trigger] r@[i]@ == self@[i].0,
    {
        proof {
            use_type_invariant(self);
            self.lemma_view();
        }
        let mut r: Vec<&str> = Vec::new();
        let mut i: usize = 0;
        while i < self.keys.len()
            invariant
                i <= self.keys@.len(),
                self.keys@.len() == self.values@.len() == self@.len(),
                forall|j: int| 0 <= j < self.keys@.len() ==> #[trigger] self@[j] == (
                    self.keys@[j]@,
                    self.values@[j]@,
                ),
                r@.len() == i,
                forall|j: int| 0 <= j < i ==> #[trigger] r@[j]@ == self@[j].0,
            decreases self.keys@.len() - i,
        {
            r.push(self.keys[i].as_str());
            i = i + 1;
        }
        r
    }

    /// The values, in insertion order.
    pub fn values(&self) -> (r: Vec<&Value>)
        ensures
            r@.len() == self@.len(),
            forall|i: int| 0 <= i < r@.len() ==> #[trigger] r@[i]@ == self@[i].1,
    {
        proof {
            use_type_invariant(self);
            self.lemma_view();
        }
        let mut r: Vec<&Value> = Vec::new();
        let mut i: usize = 0;
        while i < self.values.len()
            invariant
                i <= self.values@.len(),
                self.keys@.len() == self.values@.len() == self@.len(),
                forall|j: int| 0 <= j < self.keys@.len() ==> #[trigger] self@[j] == (
                    self.keys@[j]@,
                    self.values@[j]@,
                ),
                r@.len() == i,
                forall|j: int| 0 <= j < i ==> #[trigger] r@[j]@ == self@[j].1,
            decreases self.values@.len() - i,
        {
            r.push(&self.values[i]);
            i = i + 1;
        }
        r
    }

    /// The entries, in insertion order.
    pub fn iter(&self) -> (r: Vec<(&str, &Value)>)
        ensures
            r@.len() == self@.len(),
            forall|i: int| 0 <= i < r@.len() ==> (#[trigger] r@[i].0@, r@[i].1@) == self@[i],
    {
        proof {
            use_type_invariant(self);
            self.lemma_view();
        }
        let mut r: Vec<(&str, &Value)> = Vec::new();
        let mut i: usize = 0;
        while i < self.keys.len()
            invariant
                i <= self.keys@.len(),
                self.keys@.len() == self.values@.len() == self@.len(),
                forall|j: int| 0 <= j < self.keys@.len() ==> #[trigger] self@[j] == (
                    self.keys@[j]@,
                    self.values@[j]@,
                ),
                r@.len() == i,
                forall|j: int| 0 <= j < i ==> (#[trigger] r@[j].0@, r@[j].1@) == self@[j],
            decreases self.keys@.len() - i,
        {
            r.push((self.keys[i].as_str(), &self.values[i]));
            i = i + 1;
        }
        r
    }

    /// The values, as they are held, in insertion order.
    pub closed spec fn spec_values(self) -> Seq<Value> {
        self.values@
    }

    /// Move every value out onto the end of `sink`, leaving the object empty.
    pub(crate) fn drain_values_into(&mut self, sink: &mut Vec<Value>)
        ensures
            final(sink)@ == old(sink)@ + old(self).spec_values(),
            final(self)@ == Seq::<(Seq<char>, JsonValue)>::empty(),
            values_view(old(self).spec_values()) == old(self)@.map_values(|e: (Seq<char>, JsonValue)| e.1),
    {
        proof {
            use_type_invariant(&*self);
            self.lemma_view();
            lemma_values_view(self.values@);
            assert(values_view(self.values@) =~= self@.map_values(|e: (Seq<char>, JsonValue)| e.1));
        }
        let (_keys, mut values) = self.take_parts();
        sink.append(&mut values);
    }
}

impl Object {
    /// The entries, sorted by key (by Unicode scalar value).
    pub fn sorted_entries(&self) -> (r: Vec<(&str, &Value)>)
        ensures
            r@.len() == self@.len(),
            sorted_order(self@, self@.len()).len() == self@.len(),
            forall|j: int|
                0 <= j < r@.len() ==> {
                    let k = #[trigger] sorted_order(self@, self@.len())[j];
                    &&& 0 <= k < self@.len()
                    &&& (r@[j].0@, r@[j].1@) == self@[k]
                },
    {
        let refs = self.iter();
        let n = refs.len();
        let mut keys: Vec<Vec<char>> = Vec::new();
        let mut i: usize = 0;
        while i < n
            invariant
                n == refs@.len(),
                i <= n,
                keys@.len() == i,
                forall|j: int| 0 <= j < i ==> #[trigger] keys@[j]@ == refs@[j].0@,
            decreases n - i,
        {
            keys.push(chars_of(refs[i].0));
            i = i + 1;
        }
        let ghost entries = self@;
        let mut order: Vec<usize> = Vec::new();
        let mut i: usize = 0;
        proof {
            assert(indices_view(order@) =~= sorted_order(entries, 0));
        }
        while i < n
            invariant
                n == refs@.len() == entries.len() == keys@.len(),
                i <= n,
                forall|j: int| 0 <= j < n ==> #[trigger] keys@[j]@ == entries[j].0,
                indices_view(order@) == sorted_order(entries, i as nat),
                order@.len() == i,
                forall|j: int| 0 <= j < i ==> #[trigger] order@[j] < i,
            decreases n - i,
        {
            let ghost ov = indices_view(order@);
            let mut pos: usize = 0;
            proof {
                assert(ov.skip(0) =~= ov);
            }
            while pos < order.len() && !chars_lt(&keys[i], &keys[order[pos]])
                invariant
                    pos <= order@.len(),
                    order@.len() == i < n,
                    n == keys@.len() == entries.len(),
                    forall|j: int| 0 <= j < n ==> #[trigger] keys@[j]@ == entries[j].0,
                    forall|j: int| 0 <= j < i ==> #[trigger] order@[j] < i,
                    ov == indices_view(order@),
                    insert_position(entries, ov, i as int) == pos + insert_position(
                        entries,
                        ov.skip(pos as int),
                        i as int,
                    ),
                decreases order@.len() - pos,
            {
                proof {
                    assert(ov.skip(pos as int).drop_first() =~= ov.skip(pos + 1));
                    assert(ov.skip(pos as int)[0] == order@[pos as int] as int);
                }
                pos = pos + 1;
            }
            proof {
                if pos < order@.len() {
                    assert(ov.skip(pos as int)[0] == order@[pos as int] as int);
                } else {
                    assert(ov.skip(pos as int).len() == 0);
                }
            }
            let ghost before = order@;
            order.insert(pos, i);
            proof {
                assert(indices_view(order@) =~= ov.insert(pos as int, i as int));
                assert forall|j: int| 0 <= j < i + 1 implies #[trigger] order@[j] < i + 1 by {
                    if j < pos {
                        assert(order@[j] == before[j]);
                    } else if j > pos {
                        assert(order@[j] == before[j - 1]);
                    }
                }
            }
            i = i + 1;
        }
        let mut r: Vec<(&str, &Value)> = Vec::new();
        let mut j: usize = 0;
        while j < n
            invariant
                n == refs@.len() == entries.len() == order@.len(),
                entries == self@,
                forall|t: int| 0 <= t < refs@.len() ==> (#[trigger] refs@[t].0@, refs@[t].1@) == self@[t],
                forall|t: int| 0 <= t < n ==> #[trigger] order@[t] < n,
                indices_view(order@) == sorted_order(entries, n as nat),
                j <= n,
                r@.len() == j,
                forall|t: int|
                    0 <= t < j ==> {
                        let k = #[trigger] sorted_order(self@, self@.len())[t];
                        &&& 0 <= k < self@.len()
                        &&& (r@[t].0@, r@[t].1@) == self@[k]
                    },
            decreases n - j,
        {
            r.push(refs[order[j]]);
            proof {
                assert(sorted_order(self@, self@.len())[j as int] == order@[j as int] as int);
            }
            j = j + 1;
        }
        r
    }
}

// ---------------------------------------------------------------------------
// Copies and comparisons
// ---------------------------------------------------------------------------

/// `items_eq`, stated element by element.
pub proof fn lemma_items_eq(xs: Seq<JsonValue>, ys: Seq<JsonValue>, i: int)
    requires
        0 <= i <= xs.len(),
        xs.len() == ys.len(),
    ensures
        items_eq(xs, ys, i) == forall|j: int| i <= j < xs.len() ==> json_eq(#[trigger] xs[j], ys[j]),
    decreases xs.len() - i,
{
    if i < xs.len() {
        lemma_items_eq(xs, ys, i + 1);
    }
}

/// Whether the entry `x` has its key in `ys`, with an equal value.
pub open spec fn member_matches(x: (Seq<char>, JsonValue), ys: Seq<(Seq<char>, JsonValue)>) -> bool {
    match find_key(ys, x.0) {
        Some(j) => json_eq(x.1, ys[j].1),
        None => false,
    }
}

/// `members_eq`, stated entry by entry.
pub proof fn lemma_members_eq(xs: Seq<(Seq<char>, JsonValue)>, ys: Seq<(Seq<char>, JsonValue)>, i: int)
    requires
        0 <= i <= xs.len(),
    ensures
        members_eq(xs, ys, i) == forall|j: int| i <= j < xs.len() ==> member_matches(#[trigger] xs[j], ys),
    decreases xs.len() - i,
{
    if i < xs.len() {
        lemma_members_eq(xs, ys, i + 1);
    }
}


/// Whether no object in `v`, at any depth, repeats a key, as no
/// [`Object`] does.
pub open spec fn keys_unique(v: JsonValue) -> bool
    decreases v, 0nat,
{
    match v {
        JsonValue::Array(items) => items_keys_unique(items, 0),
        JsonValue::Object(entries) => keys_distinct(entries) && entries_keys_unique(entries, 0),
        _ => true,
    }
}

/// Whether no object in the elements from the `i`-th on repeats a key.
pub open spec fn items_keys_unique(items: Seq<JsonValue>, i: int) -> bool
    decreases items, items.len() - i,
{
    if i < 0 || i >= items.len() {
        true
    } else {
        keys_unique(items[i]) && items_keys_unique(items, i + 1)
    }
}

/// Whether no object in the values from the `i`-th on repeats a key.
pub open spec fn entries_keys_unique(entries: Seq<(Seq<char>, JsonValue)>, i: int) -> bool
    decreases entries, entries.len() - i,
{
    if i < 0 || i >= entries.len() {
        true
    } else {
        keys_unique(entries[i].1) && entries_keys_unique(entries, i + 1)
    }
}

proof fn lemma_items_keys_unique(items: Seq<JsonValue>, i: int, k: int)
    requires
        items_keys_unique(items, i),
        0 <= i <= k < items.len(),
    ensures
        keys_unique(items[k]),
    decreases k - i,
{
    if i < k {
        lemma_items_keys_unique(items, i + 1, k);
    }
}

proof fn lemma_entries_keys_unique(entries: Seq<(Seq<char>, JsonValue)>, i: int, k: int)
    requires
        entries_keys_unique(entries, i),
        0 <= i <= k < entries.len(),
    ensures
        keys_unique(entries[k].1),
    decreases k - i,
{
    if i < k {
        lemma_entries_keys_unique(entries, i + 1, k);
    }
}

/// Equal values have the same shape: the same kind; equal arrays have the
/// same length and equal elements place by place; equal objects the same
/// number of members, each found by key in the other with an equal value;
/// equal strings, booleans and integers are the same; equal floats have the
/// same rendering, or are both zero (`0` and `-0`, as for `f64`).
pub proof fn law_equal_values_same_shape(a: JsonValue, b: JsonValue)
    requires
        json_eq(a, b),
    ensures
        (a is Null) == (b is Null),
        (a is Bool) == (b is Bool),
        (a is Number) == (b is Number),
        (a is String) == (b is String),
        (a is Array) == (b is Array),
        (a is Object) == (b is Object),
        a is Bool ==> a == b,
        a is String ==> a == b,
        (a matches JsonValue::Number(JsonNumber::PosInt(_))) ==> a == b,
        (a matches JsonValue::Number(JsonNumber::NegInt(_))) ==> a == b,
        a matches JsonValue::Number(JsonNumber::Float(t)) ==> (b matches JsonValue::Number(
            JsonNumber::Float(u),
        ) && (t == u || (is_zero_rendering(t) && is_zero_rendering(u)))),
        a is Array ==> a->Array_0.len() == b->Array_0.len() && forall|i: int|
            0 <= i < a->Array_0.len() ==> json_eq(#[trigger] a->Array_0[i], b->Array_0[i]),
        a is Object ==> a->Object_0.len() == b->Object_0.len() && forall|i: int|
            0 <= i < a->Object_0.len() ==> (find_key(b->Object_0, #[trigger] a->Object_0[i].0) matches Some(
                j,
            ) && json_eq(a->Object_0[i].1, b->Object_0[j].1)),
{
    match (a, b) {
        (JsonValue::Array(xs), JsonValue::Array(ys)) => {
            lemma_items_eq(xs, ys, 0);
        },
        (JsonValue::Object(xs), JsonValue::Object(ys)) => {
            lemma_members_eq(xs, ys, 0);
            assert forall|i: int| 0 <= i < xs.len() implies (find_key(ys, #[trigger] xs[i].0) matches Some(
                j,
            ) && json_eq(xs[i].1, ys[j].1)) by {
                assert(member_matches(xs[i], ys));
            }
        },
        _ => {},
    }
}

/// Equality is symmetric, for values in which no object repeats a key (as
/// none does in a [`Value`]).
pub proof fn law_equality_symmetric(a: JsonValue, b: JsonValue)
    requires
        keys_unique(a),
        json_eq(a, b),
    ensures
        json_eq(b, a),
    decreases a,
{
    match (a, b) {
        (JsonValue::Array(xs), JsonValue::Array(ys)) => {
            lemma_items_eq(xs, ys, 0);
            lemma_items_eq(ys, xs, 0);
            assert forall|j: int| 0 <= j < ys.len() implies json_eq(#[trigger] ys[j], xs[j]) by {
                assert(json_eq(xs[j], ys[j]));
                lemma_items_keys_unique(xs, 0, j);
                law_equality_symmetric(xs[j], ys[j]);
            }
        },
        (JsonValue::Object(xs), JsonValue::Object(ys)) => {
            let n = xs.len() as int;
            lemma_members_eq(xs, ys, 0);
            lemma_members_eq(ys, xs, 0);
            let f = |i: int| find_key(ys, xs[i].0)->Some_0;
            let r = vstd::set_lib::set_int_range(0, n);
            vstd::set_lib::lemma_int_range(0, n);
            assert forall|i: int| 0 <= i < n implies 0 <= #[trigger] f(i) < n && ys[f(i)].0 == xs[i].0
                && json_eq(xs[i].1, ys[f(i)].1) by {
                assert(member_matches(xs[i], ys));
                lemma_find_key(ys, xs[i].0);
            }
            assert(vstd::relations::injective_on(f, r)) by {
                assert forall|i1: int, i2: int|
                    r.contains(i1) && r.contains(i2) && #[trigger] f(i1) == #[trigger] f(i2) implies i1
                    == i2 by {
                    if i1 != i2 {
                        assert(xs[i1].0 == xs[i2].0);
                        if i1 < i2 {
                            assert(xs[i1].0 != xs[i2].0);
                        } else {
                            assert(xs[i2].0 != xs[i1].0);
                        }
                    }
                }
            }
            let image = r.map(f);
            vstd::set_lib::lemma_map_size(r, image, f);
            assert(image.subset_of(r)) by {
                assert forall|j: int| image.contains(j) implies r.contains(j) by {
                    let i = choose|i: int| r.contains(i) && f(i) == j;
                }
            }
            vstd::set_lib::lemma_subset_equality(image, r);
            assert forall|j: int| 0 <= j < n implies member_matches(#[trigger] ys[j], xs) by {
                assert(r.contains(j));
                assert(image.contains(j));
                let i = choose|i: int| r.contains(i) && f(i) == j;
                assert forall|x: int| 0 <= x < i implies #[trigger] xs[x].0 != xs[i].0 by {}
                lemma_find_key_at(xs, xs[i].0, i);
                lemma_entries_keys_unique(xs, 0, i);
                law_equality_symmetric(xs[i].1, ys[j].1);
            }
        },
        _ => {},
    }
}

impl FloatText {
    /// Whether the rendering is a zero, `0` or `-0`.
    fn is_zero(&self) -> (b: bool)
        ensures
            b == is_zero_rendering(self@),
    {
        let t = chars_of(self.text.as_str());
        let r = (t.len() == 1 && t[0] == '0') || (t.len() == 2 && t[0] == '-' && t[1] == '0');
        proof {
            if t@.len() == 1 && t@[0] == '0' {
                assert(t@ =~= seq!['0']);
            }
            if t@.len() == 2 && t@[0] == '-' && t@[1] == '0' {
                assert(t@ =~= seq!['-', '0']);
            }
        }
        r
    }

    /// Whether two renderings are the same float.
    fn same_float(&self, other: &FloatText) -> (b: bool)
        ensures
            b == float_eq(self@, other@),
    {
        str_eq(self.text.as_str(), other.text.as_str()) || (self.is_zero() && other.is_zero())
    }
}

impl Number {
    /// The value as `u64`, only when it is exactly that.
    pub fn as_u64(&self) -> (r: Option<u64>)
        ensures
            r == match self@ {
                JsonNumber::PosInt(v) => Some(v),
                _ => None,
            },
    {
        match self {
            Number::PosInt(v) => Some(*v),
            _ => None,
        }
    }

    /// The value as `i64`, only when it is exactly that.
    pub fn as_i64(&self) -> (r: Option<i64>)
        ensures
            r == match self@ {
                JsonNumber::PosInt(v) => if v <= i64::MAX {
                    Some(v as i64)
                } else {
                    None
                },
                JsonNumber::NegInt(v) => Some(v),
                JsonNumber::Float(_) => None,
            },
    {
        match self {
            Number::PosInt(v) => if *v <= 0x7fff_ffff_ffff_ffff {
                Some(*v as i64)
            } else {
                None
            },
            Number::NegInt(v) => Some(*v),
            Number::Float(_) => None,
        }
    }

    /// Whether this number came from an integer literal.
    pub fn is_integer(&self) -> (b: bool)
        ensures
            b == !(self@ is Float),
    {
        match self {
            Number::Float(_) => false,
            _ => true,
        }
    }

    /// A copy.
    pub fn copied(&self) -> (r: Number)
        ensures
            r@ == self@,
    {
        match self {
            Number::PosInt(v) => Number::PosInt(*v),
            Number::NegInt(v) => Number::NegInt(*v),
            Number::Float(f) => Number::Float(f.clone()),
        }
    }

    /// Whether two numbers are equal.
    pub fn equals(&self, other: &Number) -> (b: bool)
        ensures
            b == number_eq(self@, other@),
    {
        match (self, other) {
            (Number::PosInt(x), Number::PosInt(y)) => *x == *y,
            (Number::NegInt(x), Number::NegInt(y)) => *x == *y,
            (Number::Float(x), Number::Float(y)) => x.same_float(y),
            _ => false,
        }
    }
}

/// A deep copy.
pub(crate) fn clone_value(v: &Value) -> (r: Value)
    ensures
        r@ == v@,
    decreases v,
{
    match v {
        Value::Null => Value::Null,
        Value::Bool(b) => Value::Bool(*b),
        Value::Number(n) => Value::Number(n.copied()),
        Value::String(t) => Value::String(t.clone()),
        Value::Array(items) => {
            let mut out: Vec<Value> = Vec::new();
            let mut i: usize = 0;
            while i < items.len()
                invariant
                    *v == Value::Array(*items),
                    i <= items@.len(),
                    out@.len() == i,
                    forall|j: int| 0 <= j < i ==> #[trigger] out@[j]@ == items@[j]@,
                decreases items@.len() - i,
            {
                proof {
                    assert(decreases_to!(*v => (*v)->Array_0));
                    assert(decreases_to!((*v)->Array_0 => (*v)->Array_0@));
                    assert(decreases_to!((*v)->Array_0@ => (*v)->Array_0@[i as int]));
                }
                out.push(clone_value(&items[i]));
                i = i + 1;
            }
            proof {
                lemma_values_view(out@);
                lemma_values_view(items@);
                assert(values_view(out@) =~= values_view(items@));
            }
            Value::Array(out)
        },
        Value::Object(m) => Value::Object(m.clone_entries()),
    }
}

/// Whether two values are equal, as [`json_eq`] says.
pub(crate) fn values_equal(a: &Value, b: &Value) -> (r: bool)
    ensures
        r == json_eq(a@, b@),
    decreases a,
{
    match (a, b) {
        (Value::Null, Value::Null) => true,
        (Value::Bool(x), Value::Bool(y)) => *x == *y,
        (Value::Number(x), Value::Number(y)) => x.equals(y),
        (Value::String(x), Value::String(y)) => str_eq(x.as_str(), y.as_str()),
        (Value::Array(xs), Value::Array(ys)) => {
            proof {
                lemma_values_view(xs@);
                lemma_values_view(ys@);
            }
            if xs.len() != ys.len() {
                return false;
            }
            proof {
                lemma_items_eq(values_view(xs@), values_view(ys@), 0);
            }
            let mut i: usize = 0;
            while i < xs.len()
                invariant
                    *a == Value::Array(*xs),
                    *b == Value::Array(*ys),
                    i <= xs@.len() == ys@.len(),
                    values_view(xs@).len() == xs@.len(),
                    values_view(ys@).len() == ys@.len(),
                    forall|j: int| 0 <= j < xs@.len() ==> #[trigger] values_view(xs@)[j] == xs@[j]@,
                    forall|j: int| 0 <= j < ys@.len() ==> #[trigger] values_view(ys@)[j] == ys@[j]@,
                    forall|j: int| 0 <= j < i ==> json_eq(#[trigger] xs@[j]@, ys@[j]@),
                decreases xs@.len() - i,
            {
                proof {
                    assert(decreases_to!(a => xs@[i as int]));
                }
                if !values_equal(&xs[i], &ys[i]) {
                    proof {
                        assert(a@ == JsonValue::Array(values_view(xs@)));
                        assert(b@ == JsonValue::Array(values_view(ys@)));
                        assert(values_view(xs@)[i as int] == xs@[i as int]@);
                        assert(values_view(ys@)[i as int] == ys@[i as int]@);
                        assert(!json_eq(values_view(xs@)[i as int], values_view(ys@)[i as int]));
                        lemma_items_eq(values_view(xs@), values_view(ys@), 0);
                    }
                    return false;
                }
                i = i + 1;
            }
            proof {
                assert forall|j: int| 0 <= j < xs@.len() implies json_eq(
                    #[trigger] values_view(xs@)[j],
                    values_view(ys@)[j],
                ) by {
                    assert(json_eq(xs@[j]@, ys@[j]@));
                }
            }
            true
        },
        (Value::Object(xs), Value::Object(ys)) => xs.equals(ys),
        _ => false,
    }
}

impl Object {
    /// A deep copy.
    pub(crate) fn clone_entries(&self) -> (r: Object)
        ensures
            r@ == self@,
        decreases self,
    {
        proof {
            use_type_invariant(self);
            self.lemma_view();
        }
        let mut keys: Vec<String> = Vec::new();
        let mut values: Vec<Value> = Vec::new();
        let mut i: usize = 0;
        while i < self.keys.len()
            invariant
                i <= self.keys@.len() == self.values@.len(),
                keys@.len() == i,
                values@.len() == i,
                forall|j: int| 0 <= j < i ==> #[trigger] keys@[j]@ == self.keys@[j]@,
                forall|j: int| 0 <= j < i ==> #[trigger] values@[j]@ == self.values@[j]@,
            decreases self.keys@.len() - i,
        {
            keys.push(self.keys[i].clone());
            values.push(clone_value(&self.values[i]));
            i = i + 1;
        }
        proof {
            use_type_invariant(self);
            assert forall|a: int, b: int| 0 <= a < b < keys@.len() implies #[trigger] keys@[a]@
                != #[trigger] keys@[b]@ by {
                assert(keys@[a]@ == self.keys@[a]@);
                assert(keys@[b]@ == self.keys@[b]@);
            }
        }
        let r = Object { keys, values };
        proof {
            r.lemma_view();
            assert(r@ =~= self@);
        }
        r
    }

    /// Whether two objects hold the same keys with equal values, in any
    /// order.
    pub fn equals(&self, other: &Object) -> (b: bool)
        ensures
            b == json_eq(JsonValue::Object(self@), JsonValue::Object(other@)),
        decreases self,
    {
        proof {
            use_type_invariant(self);
            use_type_invariant(other);
            self.lemma_view();
            other.lemma_view();
            lemma_members_eq(self@, other@, 0);
        }
        if self.keys.len() != other.keys.len() {
            return false;
        }
        let mut i: usize = 0;
        while i < self.keys.len()
            invariant
                i <= self.keys@.len() == self.values@.len() == self@.len(),
                other.keys@.len() == other.values@.len() == other@.len(),
                forall|j: int| 0 <= j < self.keys@.len() ==> #[trigger] self@[j] == (
                    self.keys@[j]@,
                    self.values@[j]@,
                ),
                forall|j: int| 0 <= j < other.keys@.len() ==> #[trigger] other@[j] == (
                    other.keys@[j]@,
                    other.values@[j]@,
                ),
                forall|j: int| 0 <= j < i ==> member_matches(#[trigger] self@[j], other@),
            decreases self.keys@.len() - i,
        {
            match other.position(self.keys[i].as_str()) {
                Some(k) => {
                    if !values_equal(&self.values[i], &other.values[k]) {
                        proof {
                            assert(!member_matches(self@[i as int], other@));
                            lemma_members_eq(self@, other@, 0);
                        }
                        return false;
                    }
                },
                None => {
                    proof {
                        assert(!member_matches(self@[i as int], other@));
                        lemma_members_eq(self@, other@, 0);
                    }
                    return false;
                },
            }
            i = i + 1;
        }
        true
    }
}

impl Clone for Number {
    fn clone(&self) -> (r: Self)
        ensures
            r@ == self@,
    {
        self.copied()
    }
}

impl PartialEq for Number {
    fn eq(&self, other: &Self) -> (r: bool) {
        self.equals(other)
    }
}

impl vstd::std_specs::cmp::PartialEqSpecImpl for Number {
    open spec fn obeys_eq_spec() -> bool {
        true
    }

    open spec fn eq_spec(&self, other: &Self) -> bool {
        number_eq(self@, other@)
    }
}

impl Clone for Object {
    fn clone(&self) -> (r: Self)
        ensures
            r@ == self@,
    {
        self.clone_entries()
    }
}

impl PartialEq for Object {
    fn eq(&self, other: &Self) -> (r: bool) {
        self.equals(other)
    }
}

impl vstd::std_specs::cmp::PartialEqSpecImpl for Object {
    open spec fn obeys_eq_spec() -> bool {
        true
    }

    open spec fn eq_spec(&self, other: &Self) -> bool {
        json_eq(JsonValue::Object(self@), JsonValue::Object(other@))
    }
}

impl Clone for Value {
    fn clone(&self) -> (r: Self)
        ensures
            r@ == self@,
    {
        clone_value(self)
    }
}

impl PartialEq for Value {
    fn eq(&self, other: &Self) -> (r: bool) {
        values_equal(self, other)
    }
}

impl vstd::std_specs::cmp::PartialEqSpecImpl for Value {
    open spec fn obeys_eq_spec() -> bool {
        true
    }

    open spec fn eq_spec(&self, other: &Self) -> bool {
        json_eq(self@, other@)
    }
}

// ---------------------------------------------------------------------------
// Laws of equality
// ---------------------------------------------------------------------------

/// Every well-formed value equals itself.
pub proof fn law_equality_reflexive(v: JsonValue)
    requires
        crate::written::json_wf(v),
    ensures
        json_eq(v, v),
    decreases v, 1nat, 0int,
{
    match v {
        JsonValue::Array(items) => {
            lemma_items_eq_refl(items, 0);
        },
        JsonValue::Object(entries) => {
            lemma_members_eq_refl(entries, 0);
        },
        _ => {},
    }
}

/// The elements of a well-formed array equal themselves, from the `i`-th on.
proof fn lemma_items_eq_refl(items: Seq<JsonValue>, i: int)
    requires
        crate::written::json_wf(JsonValue::Array(items)),
        0 <= i <= items.len(),
    ensures
        items_eq(items, items, i),
    decreases items, 0nat, items.len() - i,
{
    if i < items.len() {
        crate::written::lemma_items_wf(items, 0, i);
        law_equality_reflexive(items[i]);
        lemma_items_eq_refl(items, i + 1);
    }
}

/// The members of a well-formed object equal themselves, from the `i`-th on.
proof fn lemma_members_eq_refl(entries: Seq<(Seq<char>, JsonValue)>, i: int)
    requires
        crate::written::json_wf(JsonValue::Object(entries)),
        0 <= i <= entries.len(),
    ensures
        members_eq(entries, entries, i),
    decreases entries, 0nat, entries.len() - i,
{
    if i < entries.len() {
        crate::written::lemma_entries_wf(entries, 0, i);
        law_equality_reflexive(entries[i].1);
        assert forall|j: int| 0 <= j < i implies #[trigger] entries[j].0 != entries[i].0 by {}
        lemma_find_key_at(entries, entries[i].0, i);
        lemma_members_eq_refl(entries, i + 1);
    }
}

/// A reordering of an object equals it, both ways: the order of an
/// object's members does not affect equality.
pub proof fn law_equality_ignores_member_order(
    entries: Seq<(Seq<char>, JsonValue)>,
    order: Seq<int>,
)
    requires
        crate::written::json_wf(JsonValue::Object(entries)),
        crate::render::is_permutation(order, entries.len()),
    ensures
        ({
            let reordered = Seq::new(entries.len(), |j: int| entries[order[j]]);
            &&& json_eq(JsonValue::Object(entries), JsonValue::Object(reordered))
            &&& json_eq(JsonValue::Object(reordered), JsonValue::Object(entries))
        }),
{
    broadcast use vstd::set::group_set_axioms, vstd::seq_lib::seq_to_set_is_finite;

    let n = entries.len();
    let reordered = Seq::new(n, |j: int| entries[order[j]]);
    // Every index is listed: `order` lists `n` distinct indices below `n`.
    assert(order.no_duplicates()) by {
        assert forall|a: int, b: int| 0 <= a < order.len() && 0 <= b < order.len() && a != b implies order[a]
            != order[b] by {
            if a < b {
                assert(order[a] != order[b]);
            } else {
                assert(order[b] != order[a]);
            }
        }
    }
    order.unique_seq_to_set();
    vstd::set_lib::lemma_int_range(0, n as int);
    assert(order.to_set().subset_of(vstd::set_lib::set_int_range(0, n as int)));
    vstd::set_lib::lemma_subset_equality(order.to_set(), vstd::set_lib::set_int_range(0, n as int));
    assert(keys_distinct(reordered)) by {
        assert forall|a: int, b: int| 0 <= a < b < n implies #[trigger] reordered[a].0
            != #[trigger] reordered[b].0 by {
            let (x, y) = (order[a], order[b]);
            if x < y {
                assert(entries[x].0 != entries[y].0);
            } else {
                assert(entries[y].0 != entries[x].0);
            }
        }
    }
    // Each member of `entries` is found in `reordered`, with itself.
    assert forall|i: int| 0 <= i < n implies #[trigger] member_matches(entries[i], reordered) by {
        assert(vstd::set_lib::set_int_range(0, n as int).contains(i));
        let j = choose|j: int| 0 <= j < order.len() && order[j] == i;
        assert(reordered[j] == entries[i]);
        assert forall|t: int| 0 <= t < j implies #[trigger] reordered[t].0 != entries[i].0 by {
            assert(reordered[t].0 != reordered[j].0);
        }
        lemma_find_key_at(reordered, entries[i].0, j);
        crate::written::lemma_entries_wf(entries, 0, i);
        law_equality_reflexive(entries[i].1);
    }
    lemma_members_eq(entries, reordered, 0);
    // Each member of `reordered` is found in `entries`, with itself.
    assert forall|j: int| 0 <= j < n implies #[trigger] member_matches(reordered[j], entries) by {
        let i = order[j];
        assert forall|t: int| 0 <= t < i implies #[trigger] entries[t].0 != entries[i].0 by {}
        lemma_find_key_at(entries, entries[i].0, i);
        crate::written::lemma_entries_wf(entries, 0, i);
        law_equality_reflexive(entries[i].1);
    }
    lemma_members_eq(reordered, entries, 0);
}

impl Object {
    /// An object built by inserting each pair in turn: a repeated key keeps
    /// its first position and takes its last value.
    pub fn from_entries(pairs: Vec<(String, Value)>) -> (m: Object)
        ensures
            m@ == inserted_all(pairs_view(pairs@)),
    {
        let ghost all = pairs_view(pairs@);
        let mut m = Object::new();
        proof {
            assert(all.take(0) =~= Seq::<(Seq<char>, JsonValue)>::empty());
        }
        for pair in it: pairs
            invariant
                all == pairs_view(it.seq()),
                m@ == inserted_all(all.take(it.index() as int)),
        {
            let ghost before = all.take(it.index() as int);
            let (k, v) = pair;
            m.insert(k.as_str(), v);
            proof {
                let next = all.take(it.index() + 1);
                assert(next.drop_last() =~= before);
                assert(next.last() == all[it.index() as int]);
            }
        }
        proof {
            assert(all.take(all.len() as int) =~= all);
        }
        m
    }
}

impl Default for Object {
    fn default() -> (m: Object)
        ensures
            m@ == Seq::<(Seq<char>, JsonValue)>::empty(),
    {
        Object::new()
    }
}

} // verus!
