//! Reading a [`Value`] by kind, building one from Rust values, and taking
//! one apart without recursion.

use vstd::prelude::*;

use crate::render::{items_size, member_order, members_size, render_size, Layout};
use crate::value::{
    find_key, lemma_values_view, values_view, JsonNumber, JsonValue, Number, Object, Value,
};
use crate::written::{entries_wf, items_wf, json_wf};

verus! {

impl Value {
    /// `true` when this is `null`.
    pub fn is_null(&self) -> (b: bool)
        ensures
            b == (self@ is Null),
    {
        match self {
            Value::Null => true,
            _ => false,
        }
    }

    /// The boolean, when this is one.
    pub fn as_bool(&self) -> (r: Option<bool>)
        ensures
            r == match self@ {
                JsonValue::Bool(b) => Some(b),
                _ => None::<bool>,
            },
    {
        match self {
            Value::Bool(b) => Some(*b),
            _ => None,
        }
    }

    /// The string, when this is one.
    pub fn as_str(&self) -> (r: Option<&str>)
        ensures
            match self@ {
                JsonValue::String(t) => r matches Some(x) && x@ == t,
                _ => r is None,
            },
    {
        match self {
            Value::String(t) => Some(t.as_str()),
            _ => None,
        }
    }

    /// The number, when this is one.
    pub fn as_number(&self) -> (r: Option<Number>)
        ensures
            match self@ {
                JsonValue::Number(n) => r matches Some(m) && m@ == n,
                _ => r is None,
            },
    {
        match self {
            Value::Number(n) => Some(n.copied()),
            _ => None,
        }
    }

    /// An exact `u64`, when this is an integer that fits.
    pub fn as_u64(&self) -> (r: Option<u64>)
        ensures
            r == match self@ {
                JsonValue::Number(JsonNumber::PosInt(v)) => Some(v),
                _ => None::<u64>,
            },
    {
        match self {
            Value::Number(n) => n.as_u64(),
            _ => None,
        }
    }

    /// An exact `i64`, when this is an integer that fits.
    pub fn as_i64(&self) -> (r: Option<i64>)
        ensures
            r == match self@ {
                JsonValue::Number(JsonNumber::PosInt(v)) => if v <= i64::MAX {
                    Some(v as i64)
                } else {
                    None
                },
                JsonValue::Number(JsonNumber::NegInt(v)) => Some(v),
                _ => None::<i64>,
            },
    {
        match self {
            Value::Number(n) => n.as_i64(),
            _ => None,
        }
    }

    /// The array, when this is one.
    pub fn as_array(&self) -> (r: Option<&Vec<Value>>)
        ensures
            match self@ {
                JsonValue::Array(items) => r matches Some(v) && values_view(v@) == items,
                _ => r is None,
            },
    {
        match self {
            Value::Array(items) => Some(items),
            _ => None,
        }
    }

    /// The array, mutably.
    pub fn as_array_mut(&mut self) -> (r: Option<&mut Vec<Value>>)
        ensures
            match *old(self) {
                Value::Array(items) => r matches Some(v) && *v == items && *final(self) == Value::Array(
                    *final(v),
                ),
                _ => r is None && *final(self) == *old(self),
            },
    {
        match self {
            Value::Array(items) => Some(items),
            _ => None,
        }
    }

    /// The object, when this is one.
    pub fn as_object(&self) -> (r: Option<&Object>)
        ensures
            match self@ {
                JsonValue::Object(entries) => r matches Some(m) && m@ == entries,
                _ => r is None,
            },
    {
        match self {
            Value::Object(m) => Some(m),
            _ => None,
        }
    }

    /// The object, mutably.
    pub fn as_object_mut(&mut self) -> (r: Option<&mut Object>)
        ensures
            match *old(self) {
                Value::Object(m) => r matches Some(v) && *v == m && *final(self) == Value::Object(
                    *final(v),
                ),
                _ => r is None && *final(self) == *old(self),
            },
    {
        match self {
            Value::Object(m) => Some(m),
            _ => None,
        }
    }

    /// Take the array out.
    pub fn into_array(self) -> (r: Option<Vec<Value>>)
        ensures
            match self@ {
                JsonValue::Array(items) => r matches Some(v) && values_view(v@) == items,
                _ => r is None,
            },
    {
        match self {
            Value::Array(items) => Some(items),
            _ => None,
        }
    }

    /// Take the object out.
    pub fn into_object(self) -> (r: Option<Object>)
        ensures
            match self@ {
                JsonValue::Object(entries) => r matches Some(m) && m@ == entries,
                _ => r is None,
            },
    {
        match self {
            Value::Object(m) => Some(m),
            _ => None,
        }
    }

    /// Take the string out.
    pub fn into_string(self) -> (r: Option<String>)
        ensures
            match self@ {
                JsonValue::String(t) => r matches Some(x) && x@ == t,
                _ => r is None,
            },
    {
        match self {
            Value::String(t) => Some(t),
            _ => None,
        }
    }

    /// Replace this value with `null`, returning what was here.
    pub fn take(&mut self) -> (r: Value)
        ensures
            r == *old(self),
            *final(self) == Value::Null,
    {
        let mut out = Value::Null;
        std::mem::swap(self, &mut out);
        out
    }

    /// One key of an object. `None` for any other kind of value.
    pub fn get(&self, key: &str) -> (r: Option<&Value>)
        ensures
            match self@ {
                JsonValue::Object(entries) => match find_key(entries, key@) {
                    Some(i) => r matches Some(v) && v@ == entries[i].1,
                    None => r is None,
                },
                _ => r is None,
            },
    {
        match self {
            Value::Object(m) => m.get(key),
            _ => None,
        }
    }

    /// One element of an array. `None` for any other kind of value.
    pub fn at(&self, index: usize) -> (r: Option<&Value>)
        ensures
            match self@ {
                JsonValue::Array(items) => if index < items.len() {
                    r matches Some(v) && v@ == items[index as int]
                } else {
                    r is None
                },
                _ => r is None,
            },
    {
        match self {
            Value::Array(items) => {
                proof {
                    lemma_values_view(items@);
                }
                if index < items.len() {
                    Some(&items[index])
                } else {
                    None
                }
            },
            _ => None,
        }
    }
}

impl Default for Value {
    fn default() -> (v: Value)
        ensures
            v == Value::Null,
    {
        Value::Null
    }
}

impl From<bool> for Value {
    fn from(value: bool) -> (v: Value) {
        Value::Bool(value)
    }
}

impl vstd::std_specs::convert::FromSpecImpl<bool> for Value {
    open spec fn obeys_from_spec() -> bool {
        true
    }

    open spec fn from_spec(value: bool) -> Value {
        Value::Bool(value)
    }
}

impl From<String> for Value {
    fn from(value: String) -> (v: Value) {
        Value::String(value)
    }
}

impl vstd::std_specs::convert::FromSpecImpl<String> for Value {
    open spec fn obeys_from_spec() -> bool {
        true
    }

    open spec fn from_spec(value: String) -> Value {
        Value::String(value)
    }
}

impl From<&str> for Value {
    fn from(value: &str) -> (v: Value)
        ensures
            v@ == JsonValue::String(value@),
    {
        Value::String(value.to_owned())
    }
}

/// The contract of `from` above states its result; a `String` cannot be
/// built in a specification, so `from_spec` is not the one to state it.
impl vstd::std_specs::convert::FromSpecImpl<&str> for Value {
    open spec fn obeys_from_spec() -> bool {
        false
    }

    open spec fn from_spec(value: &str) -> Value {
        Value::Null
    }
}

impl From<Number> for Value {
    fn from(value: Number) -> (v: Value) {
        Value::Number(value)
    }
}

impl vstd::std_specs::convert::FromSpecImpl<Number> for Value {
    open spec fn obeys_from_spec() -> bool {
        true
    }

    open spec fn from_spec(value: Number) -> Value {
        Value::Number(value)
    }
}

impl From<u8> for Value {
    fn from(value: u8) -> (v: Value) {
        Value::Number(Number::PosInt(value as u64))
    }
}

impl vstd::std_specs::convert::FromSpecImpl<u8> for Value {
    open spec fn obeys_from_spec() -> bool {
        true
    }

    open spec fn from_spec(value: u8) -> Value {
        Value::Number(Number::PosInt(value as u64))
    }
}

impl From<u16> for Value {
    fn from(value: u16) -> (v: Value) {
        Value::Number(Number::PosInt(value as u64))
    }
}

impl vstd::std_specs::convert::FromSpecImpl<u16> for Value {
    open spec fn obeys_from_spec() -> bool {
        true
    }

    open spec fn from_spec(value: u16) -> Value {
        Value::Number(Number::PosInt(value as u64))
    }
}

impl From<u32> for Value {
    fn from(value: u32) -> (v: Value) {
        Value::Number(Number::PosInt(value as u64))
    }
}

impl vstd::std_specs::convert::FromSpecImpl<u32> for Value {
    open spec fn obeys_from_spec() -> bool {
        true
    }

    open spec fn from_spec(value: u32) -> Value {
        Value::Number(Number::PosInt(value as u64))
    }
}

impl From<u64> for Value {
    fn from(value: u64) -> (v: Value) {
        Value::Number(Number::PosInt(value))
    }
}

impl vstd::std_specs::convert::FromSpecImpl<u64> for Value {
    open spec fn obeys_from_spec() -> bool {
        true
    }

    open spec fn from_spec(value: u64) -> Value {
        Value::Number(Number::PosInt(value))
    }
}

/// The number a signed integer stands for: a non-negative one is `PosInt`,
/// so that `Value::from(0)` and a parsed `0` are the same value.
pub open spec fn signed_number(value: i64) -> Number {
    if value < 0 {
        Number::NegInt(value)
    } else {
        Number::PosInt(value as u64)
    }
}

/// Builds [`signed_number`].
fn signed(value: i64) -> (n: Number)
    ensures
        n == signed_number(value),
{
    if value < 0 {
        Number::NegInt(value)
    } else {
        Number::PosInt(value as u64)
    }
}

impl From<i8> for Value {
    fn from(value: i8) -> (v: Value) {
        Value::Number(signed(value as i64))
    }
}

impl vstd::std_specs::convert::FromSpecImpl<i8> for Value {
    open spec fn obeys_from_spec() -> bool {
        true
    }

    open spec fn from_spec(value: i8) -> Value {
        Value::Number(signed_number(value as i64))
    }
}

impl From<i16> for Value {
    fn from(value: i16) -> (v: Value) {
        Value::Number(signed(value as i64))
    }
}

impl vstd::std_specs::convert::FromSpecImpl<i16> for Value {
    open spec fn obeys_from_spec() -> bool {
        true
    }

    open spec fn from_spec(value: i16) -> Value {
        Value::Number(signed_number(value as i64))
    }
}

impl From<i32> for Value {
    fn from(value: i32) -> (v: Value) {
        Value::Number(signed(value as i64))
    }
}

impl vstd::std_specs::convert::FromSpecImpl<i32> for Value {
    open spec fn obeys_from_spec() -> bool {
        true
    }

    open spec fn from_spec(value: i32) -> Value {
        Value::Number(signed_number(value as i64))
    }
}

impl From<i64> for Value {
    fn from(value: i64) -> (v: Value) {
        Value::Number(signed(value))
    }
}

impl vstd::std_specs::convert::FromSpecImpl<i64> for Value {
    open spec fn obeys_from_spec() -> bool {
        true
    }

    open spec fn from_spec(value: i64) -> Value {
        Value::Number(signed_number(value))
    }
}

// ---------------------------------------------------------------------------
// Taking a value apart
// ---------------------------------------------------------------------------

/// The layout the sizes below are counted in.
pub open spec fn flat() -> Layout {
    Layout { indent: None, sorted: false }
}

/// The work left in a stack of values: the size of each, added up.
pub open spec fn stack_size(s: Seq<Value>) -> nat
    decreases s.len(),
{
    if s.len() == 0 {
        0
    } else {
        stack_size(s.drop_last()) + render_size(s.last()@, flat())
    }
}

/// The work in two stacks, one on top of the other.
proof fn lemma_stack_size_append(a: Seq<Value>, b: Seq<Value>)
    ensures
        stack_size(a + b) == stack_size(a) + stack_size(b),
    decreases b.len(),
{
    if b.len() == 0 {
        assert(a + b =~= a);
    } else {
        lemma_stack_size_append(a, b.drop_last());
        assert((a + b).drop_last() =~= a + b.drop_last());
        assert((a + b).last() == b.last());
    }
}

/// The elements of an array weigh less than the array.
proof fn lemma_items_lighter(s: Seq<Value>, k: int)
    requires
        0 <= k <= s.len(),
    ensures
        stack_size(s.take(k)) + 2 * k + items_size(values_view(s), flat(), k) == items_size(
            values_view(s),
            flat(),
            0,
        ),
    decreases k,
{
    lemma_values_view(s);
    if k == 0 {
        assert(s.take(0) =~= Seq::<Value>::empty());
    } else {
        lemma_items_lighter(s, k - 1);
        assert(s.take(k).drop_last() =~= s.take(k - 1));
        assert(s.take(k).last() == s[k - 1]);
    }
}

/// The values of an object weigh less than the object.
proof fn lemma_members_lighter(s: Seq<Value>, entries: Seq<(Seq<char>, JsonValue)>, k: int)
    requires
        0 <= k <= s.len(),
        s.len() == entries.len(),
        forall|j: int| 0 <= j < s.len() ==> #[trigger] entries[j].1 == s[j]@,
    ensures
        stack_size(s.take(k)) + 3 * k + members_size(
            entries,
            member_order(flat(), entries),
            flat(),
            k,
        ) == members_size(entries, member_order(flat(), entries), flat(), 0),
    decreases k,
{
    let order = member_order(flat(), entries);
    if k == 0 {
        assert(s.take(0) =~= Seq::<Value>::empty());
    } else {
        lemma_members_lighter(s, entries, k - 1);
        assert(s.take(k).drop_last() =~= s.take(k - 1));
        assert(s.take(k).last() == s[k - 1]);
        assert(order[k - 1] == k - 1);
    }
}

impl Value {
    /// Take this value apart with an explicit worklist instead of by
    /// recursion, so that a value nested however deep is released without
    /// deep recursion. Dropping a value the ordinary way recurses once per
    /// level; call this for a value that may be nested very deep.
    pub fn dispose(self) {
        let mut stack: Vec<Value> = Vec::new();
        stack.push(self);
        while stack.len() > 0
            decreases stack_size(stack@),
        {
            let ghost before = stack@;
            let top = stack.pop().unwrap();
            let ghost rest = stack@;
            let ghost t = top@;
            proof {
                assert(before.drop_last() =~= rest);
                assert(stack_size(before) == stack_size(rest) + render_size(t, flat()));
            }
            match top {
                Value::Array(mut items) => {
                    let ghost children = items@;
                    proof {
                        lemma_items_lighter(children, children.len() as int);
                        assert(children.take(children.len() as int) =~= children);
                    }
                    stack.append(&mut items);
                    proof {
                        lemma_stack_size_append(rest, children);
                    }
                },
                Value::Object(mut m) => {
                    let ghost entries = m@;
                    let ghost children = m.spec_values();
                    m.drain_values_into(&mut stack);
                    proof {
                        lemma_values_view(children);
                        assert forall|j: int| 0 <= j < children.len() implies #[trigger] entries[j].1
                            == children[j]@ by {
                            assert(values_view(children)[j] == children[j]@);
                        }
                        lemma_members_lighter(children, entries, children.len() as int);
                        assert(children.take(children.len() as int) =~= children);
                        lemma_stack_size_append(rest, children);
                    }
                },
                _ => {},
            }
        }
    }
}


/// The work left in a list of values: the size of each, added up.
pub open spec fn views_size(s: Seq<JsonValue>) -> nat
    decreases s.len(),
{
    if s.len() == 0 {
        0
    } else {
        views_size(s.drop_last()) + render_size(s.last(), flat())
    }
}

/// The work in two lists, one after the other.
proof fn lemma_views_size_append(a: Seq<JsonValue>, b: Seq<JsonValue>)
    ensures
        views_size(a + b) == views_size(a) + views_size(b),
    decreases b.len(),
{
    if b.len() == 0 {
        assert(a + b =~= a);
    } else {
        lemma_views_size_append(a, b.drop_last());
        assert((a + b).drop_last() =~= a + b.drop_last());
        assert((a + b).last() == b.last());
    }
}

/// The elements of an array weigh less than the array.
proof fn lemma_items_views_lighter(items: Seq<JsonValue>, k: int)
    requires
        0 <= k <= items.len(),
    ensures
        views_size(items.take(k)) + 2 * k + items_size(items, flat(), k) == items_size(
            items,
            flat(),
            0,
        ),
    decreases k,
{
    if k == 0 {
        assert(items.take(0) =~= Seq::<JsonValue>::empty());
    } else {
        lemma_items_views_lighter(items, k - 1);
        assert(items.take(k).drop_last() =~= items.take(k - 1));
    }
}

/// The values of an object, in order.
pub open spec fn entry_values(entries: Seq<(Seq<char>, JsonValue)>) -> Seq<JsonValue> {
    Seq::new(entries.len(), |j: int| entries[j].1)
}

/// The values of an object weigh less than the object.
proof fn lemma_members_views_lighter(entries: Seq<(Seq<char>, JsonValue)>, k: int)
    requires
        0 <= k <= entries.len(),
    ensures
        views_size(entry_values(entries).take(k)) + 3 * k + members_size(
            entries,
            member_order(flat(), entries),
            flat(),
            k,
        ) == members_size(entries, member_order(flat(), entries), flat(), 0),
    decreases k,
{
    let order = member_order(flat(), entries);
    if k == 0 {
        assert(entry_values(entries).take(0) =~= Seq::<JsonValue>::empty());
    } else {
        lemma_members_views_lighter(entries, k - 1);
        assert(entry_values(entries).take(k).drop_last() =~= entry_values(entries).take(k - 1));
        assert(order[k - 1] == k - 1);
    }
}

/// An array's elements, from the `i`-th on, are well formed exactly when
/// each of them is.
proof fn lemma_items_wf_each(items: Seq<JsonValue>, i: int)
    requires
        0 <= i <= items.len(),
    ensures
        items_wf(items, i) <==> forall|k: int| i <= k < items.len() ==> json_wf(#[trigger] items[k]),
    decreases items.len() - i,
{
    if i < items.len() {
        lemma_items_wf_each(items, i + 1);
    }
}

/// An object's values, from the `i`-th on, are well formed exactly when
/// each of them is.
proof fn lemma_entries_wf_each(entries: Seq<(Seq<char>, JsonValue)>, i: int)
    requires
        0 <= i <= entries.len(),
    ensures
        entries_wf(entries, i) <==> forall|k: int|
            i <= k < entries.len() ==> json_wf(#[trigger] entries[k].1),
    decreases entries.len() - i,
{
    if i < entries.len() {
        lemma_entries_wf_each(entries, i + 1);
    }
}

impl Value {
    /// Whether this value is well formed: no negative-integer variant holds
    /// a number that is not negative, at any depth. (Every float is a
    /// rendering, and no object repeats a key, by construction.)
    ///
    /// Walks the value with an explicit worklist, not by recursion.
    pub fn is_well_formed(&self) -> (b: bool)
        ensures
            b == json_wf(self@),
    {
        let mut stack: Vec<&Value> = Vec::new();
        stack.push(self);
        let ghost mut vs: Seq<JsonValue> = seq![self@];
        assert(vs[0] == self@);
        while stack.len() > 0
            invariant
                vs.len() == stack@.len(),
                forall|j: int| 0 <= j < vs.len() ==> #[trigger] vs[j] == stack@[j]@,
                json_wf(self@) <==> (forall|j: int| 0 <= j < vs.len() ==> json_wf(#[trigger] vs[j])),
            decreases views_size(vs),
        {
            let ghost before = vs;
            let top = stack.pop().unwrap();
            let ghost t = before.last();
            let ghost rest = before.drop_last();
            proof {
                vs = rest;
                assert(t == top@);
                assert(json_wf(self@) <==> json_wf(t) && (forall|j: int|
                    0 <= j < rest.len() ==> json_wf(#[trigger] rest[j]))) by {
                    if json_wf(t) && (forall|j: int| 0 <= j < rest.len() ==> json_wf(#[trigger] rest[j])) {
                        assert forall|j: int| 0 <= j < before.len() implies json_wf(#[trigger] before[j]) by {
                            if j < rest.len() {
                                assert(before[j] == rest[j]);
                            }
                        }
                    }
                    if forall|j: int| 0 <= j < before.len() ==> json_wf(#[trigger] before[j]) {
                        assert(json_wf(before[before.len() - 1]));
                        assert forall|j: int| 0 <= j < rest.len() implies json_wf(#[trigger] rest[j]) by {
                            assert(before[j] == rest[j]);
                        }
                    }
                }
            }
            match top {
                Value::Number(Number::NegInt(x)) => {
                    if *x >= 0 {
                        return false;
                    }
                },
                Value::Number(Number::Float(f)) => {
                    let _ = f.as_str();
                },
                Value::Array(items) => {
                    let ghost children = values_view(items@);
                    proof {
                        lemma_values_view(items@);
                        lemma_items_wf_each(children, 0);
                        lemma_items_views_lighter(children, children.len() as int);
                        assert(children.take(children.len() as int) =~= children);
                        lemma_views_size_append(rest, children);
                    }
                    let mut j: usize = 0;
                    while j < items.len()
                        invariant
                            j <= items@.len(),
                            children == values_view(items@),
                            children.len() == items@.len(),
                            vs == rest + children.take(j as int),
                            vs.len() == stack@.len(),
                            forall|i: int| 0 <= i < vs.len() ==> #[trigger] vs[i] == stack@[i]@,
                        decreases items@.len() - j,
                    {
                        proof {
                            lemma_values_view(items@);
                        }
                        stack.push(&items[j]);
                        proof {
                            assert(children.take(j as int + 1) =~= children.take(j as int).push(
                                children[j as int],
                            ));
                            vs = vs.push(children[j as int]);
                        }
                        j = j + 1;
                    }
                    proof {
                        assert(children.take(children.len() as int) =~= children);
                        assert(json_wf(self@) <==> (forall|i: int|
                            0 <= i < vs.len() ==> json_wf(#[trigger] vs[i]))) by {
                            if forall|i: int| 0 <= i < vs.len() ==> json_wf(#[trigger] vs[i]) {
                                assert forall|i: int| 0 <= i < rest.len() implies json_wf(#[trigger] rest[i]) by {
                                    assert(vs[i] == rest[i]);
                                }
                                assert forall|k: int| 0 <= k < children.len() implies json_wf(#[trigger] children[k]) by {
                                    assert(vs[rest.len() + k] == children[k]);
                                }
                            }
                        }
                    }
                },
                Value::Object(m) => {
                    let n = m.len();
                    let vals = m.values();
                    let ghost entries = m@;
                    let ghost children = entry_values(entries);
                    proof {
                        lemma_entries_wf_each(entries, 0);
                        lemma_members_views_lighter(entries, entries.len() as int);
                        assert(children.take(children.len() as int) =~= children);
                        lemma_views_size_append(rest, children);
                    }
                    let mut j: usize = 0;
                    while j < vals.len()
                        invariant
                            j <= vals@.len(),
                            vals@.len() == entries.len(),
                            forall|i: int| 0 <= i < vals@.len() ==> #[trigger] vals@[i]@ == entries[i].1,
                            children == entry_values(entries),
                            vs == rest + children.take(j as int),
                            vs.len() == stack@.len(),
                            forall|i: int| 0 <= i < vs.len() ==> #[trigger] vs[i] == stack@[i]@,
                        decreases vals@.len() - j,
                    {
                        stack.push(vals[j]);
                        proof {
                            assert(children.take(j as int + 1) =~= children.take(j as int).push(
                                children[j as int],
                            ));
                            vs = vs.push(children[j as int]);
                        }
                        j = j + 1;
                    }
                    proof {
                        assert(children.take(children.len() as int) =~= children);
                        assert(json_wf(self@) <==> (forall|i: int|
                            0 <= i < vs.len() ==> json_wf(#[trigger] vs[i]))) by {
                            if forall|i: int| 0 <= i < vs.len() ==> json_wf(#[trigger] vs[i]) {
                                assert forall|i: int| 0 <= i < rest.len() implies json_wf(#[trigger] rest[i]) by {
                                    assert(vs[i] == rest[i]);
                                }
                                assert forall|k: int| 0 <= k < entries.len() implies json_wf(#[trigger] entries[k].1) by {
                                    assert(vs[rest.len() + k] == children[k]);
                                }
                            }
                        }
                    }
                },
                _ => {},
            }
        }
        true
    }
}

} // verus!
