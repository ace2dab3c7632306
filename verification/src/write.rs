//! The writers: compact, pretty, and canonical.
//!
//! All three are iterative: a value built in code is not capped in depth,
//! so writing one must not recurse.

use vstd::prelude::*;

use crate::render::{
    decimal, escape_char, escaped, hex_char, items_size, items_text, json_depth, key_text,
    lemma_entries_depth, lemma_items_depth, lemma_render_depth_free, member_order, members_size,
    members_text, separator, line_break, number_text, quoted, render, render_size, spaces, Layout,
};
use crate::text::{chars_of, string_push};
use crate::value::{lemma_values_view, values_view, JsonValue, Number, Object, Value};

verus! {

/// The compact layout: no spaces, keys in insertion order.
pub open spec fn compact() -> Layout {
    Layout { indent: None, sorted: false }
}

/// The indented layout: `width` spaces per level, keys in insertion order.
pub open spec fn pretty(width: nat) -> Layout {
    Layout { indent: Some(width), sorted: false }
}

/// The canonical layout: compact, keys sorted at every depth.
pub open spec fn canonical() -> Layout {
    Layout { indent: None, sorted: true }
}

/// Serialize to compact JSON: no spaces, keys in insertion order.
pub fn to_string(value: &Value) -> (text: String)
    ensures
        text@ == render(value@, compact(), 0),
{
    write_value(value, None, false)
}

/// Serialize to indented JSON with `indent` spaces per level.
///
/// Requires the nesting to be shallower than `usize::MAX`, which every
/// value that fits in memory is.
pub fn to_string_pretty(value: &Value, indent: usize) -> (text: String)
    requires
        json_depth(value@) < usize::MAX,
    ensures
        text@ == render(value@, pretty(indent as nat), 0),
{
    write_value(value, Some(indent), false)
}

/// Serialize to compact JSON with object keys sorted at every depth.
///
/// The form to hash, sign or compare. Keys sort by Unicode scalar value;
/// arrays are not sorted.
pub fn to_string_canonical(value: &Value) -> (text: String)
    ensures
        text@ == render(value@, canonical(), 0),
{
    write_value(value, None, true)
}

/// The decimal digits of `n`.
pub(crate) fn decimal_chars(n: u64) -> (d: Vec<char>)
    ensures
        d@ == decimal(n as nat),
{
    let mut rev: Vec<char> = Vec::new();
    let mut m = n;
    loop
        invariant_except_break
            decimal(n as nat) == decimal(m as nat) + rev@.reverse(),
        ensures
            decimal(n as nat) == rev@.reverse(),
        decreases m,
    {
        let digit = hex_digit_char((m % 10) as u32);
        let ghost before = rev@;
        if m < 10 {
            rev.push(digit);
            proof {
                assert(rev@.reverse() =~= seq![digit] + before.reverse());
                assert(decimal(m as nat) == seq![digit]);
            }
            break;
        }
        proof {
            assert(decimal(m as nat) == decimal((m / 10) as nat).push(hex_char((m % 10) as nat)));
        }
        rev.push(digit);
        m = m / 10;
        proof {
            assert(rev@.reverse() =~= seq![digit] + before.reverse());
        }
    }
    let mut out: Vec<char> = Vec::new();
    let mut i = rev.len();
    while i > 0
        invariant
            i <= rev@.len(),
            out@ == rev@.reverse().subrange(0, rev@.len() - i),
        decreases i,
    {
        i = i - 1;
        out.push(rev[i]);
        proof {
            assert(out@ =~= rev@.reverse().subrange(0, rev@.len() - i));
        }
    }
    proof {
        assert(decimal(n as nat) =~= rev@.reverse());
        assert(out@ =~= rev@.reverse());
    }
    out
}

/// The hex digit for `d < 16`, lowercase.
fn hex_digit_char(d: u32) -> (c: char)
    requires
        d < 16,
    ensures
        c == hex_char(d as nat),
{
    if d < 10 {
        char_of_ascii((d + 48) as u8)
    } else {
        char_of_ascii((d - 10 + 97) as u8)
    }
}

/// The ASCII character with code `b`.
fn char_of_ascii(b: u8) -> (c: char)
    requires
        b < 128,
    ensures
        c == (b as u32) as char,
{
    b as char
}

/// Append every character of `t`.
pub(crate) fn push_chars(out: &mut String, t: &Vec<char>)
    ensures
        final(out)@ == old(out)@ + t@,
{
    let mut i: usize = 0;
    while i < t.len()
        invariant
            i <= t@.len(),
            out@ == old(out)@ + t@.subrange(0, i as int),
        decreases t@.len() - i,
    {
        string_push(out, t[i]);
        i = i + 1;
        proof {
            assert(out@ =~= old(out)@ + t@.subrange(0, i as int));
        }
    }
    proof {
        assert(t@.subrange(0, t@.len() as int) =~= t@);
    }
}


/// Append what `escape_char` gives for `c`.
fn push_escape(out: &mut String, c: char)
    ensures
        final(out)@ == old(out)@ + escape_char(c),
{
    let ghost o = out@;
    if c == '"' {
        string_push(out, '\\');
        string_push(out, '"');
    } else if c == '\\' {
        string_push(out, '\\');
        string_push(out, '\\');
    } else if c == '\u{8}' {
        string_push(out, '\\');
        string_push(out, 'b');
    } else if c == '\u{c}' {
        string_push(out, '\\');
        string_push(out, 'f');
    } else if c == '\n' {
        string_push(out, '\\');
        string_push(out, 'n');
    } else if c == '\r' {
        string_push(out, '\\');
        string_push(out, 'r');
    } else if c == '\t' {
        string_push(out, '\\');
        string_push(out, 't');
    } else if (c as u32) < 0x20 {
        let v = c as u32;
        string_push(out, '\\');
        string_push(out, 'u');
        string_push(out, '0');
        string_push(out, '0');
        string_push(out, hex_digit_char(v / 16));
        string_push(out, hex_digit_char(v % 16));
    } else {
        string_push(out, c);
    }
    proof {
        assert(out@ =~= o + escape_char(c));
    }
}

/// Append `text` as a JSON string literal, escaping exactly what the
/// grammar requires.
///
/// `/` is not escaped, and neither is non-ASCII: the output is UTF-8.
fn write_escaped(out: &mut String, text: &str)
    ensures
        final(out)@ == old(out)@ + quoted(text@),
{
    let chars = chars_of(text);
    string_push(out, '"');
    let ghost start = out@;
    let mut i: usize = 0;
    proof {
        assert(chars@.take(0) =~= Seq::<char>::empty());
        assert(escaped(Seq::<char>::empty()) =~= Seq::<char>::empty());
    }
    while i < chars.len()
        invariant
            i <= chars@.len(),
            out@ == start + escaped(chars@.take(i as int)),
        decreases chars@.len() - i,
    {
        push_escape(out, chars[i]);
        proof {
            assert(chars@.take(i + 1).drop_last() =~= chars@.take(i as int));
            assert(chars@.take(i + 1).last() == chars@[i as int]);
        }
        i = i + 1;
    }
    string_push(out, '"');
    proof {
        assert(chars@.take(chars@.len() as int) =~= chars@);
        assert(out@ =~= old(out)@ + quoted(text@));
    }
}

/// Append a number's text.
fn write_number(out: &mut String, number: &Number)
    ensures
        final(out)@ == old(out)@ + number_text(number@),
{
    match number {
        Number::PosInt(v) => {
            let d = decimal_chars(*v);
            push_chars(out, &d);
        },
        Number::NegInt(v) => {
            let v = *v;
            if v < 0 {
                let magnitude: u64 = ((-(v + 1)) as u64) + 1;
                let d = decimal_chars(magnitude);
                let ghost o = out@;
                string_push(out, '-');
                push_chars(out, &d);
                proof {
                    assert(out@ =~= o + (seq!['-'] + decimal((0 - v) as nat)));
                }
            } else {
                let d = decimal_chars(v as u64);
                push_chars(out, &d);
            }
        },
        Number::Float(f) => {
            let t = chars_of(f.as_str());
            let mut has_point = false;
            let mut i: usize = 0;
            while i < t.len()
                invariant
                    i <= t@.len(),
                    has_point == exists|j: int|
                        0 <= j < i && (t@[j] == '.' || t@[j] == 'e' || t@[j] == 'E'),
                decreases t@.len() - i,
            {
                if t[i] == '.' || t[i] == 'e' || t[i] == 'E' {
                    has_point = true;
                }
                i = i + 1;
            }
            proof {
                if has_point {
                    let j = choose|j: int|
                        0 <= j < t@.len() && (t@[j] == '.' || t@[j] == 'e' || t@[j] == 'E');
                    if t@[j] == '.' {
                        assert(t@.contains('.'));
                    } else if t@[j] == 'e' {
                        assert(t@.contains('e'));
                    } else {
                        assert(t@.contains('E'));
                    }
                }
            }
            let ghost o = out@;
            push_chars(out, &t);
            if !has_point {
                string_push(out, '.');
                string_push(out, '0');
                proof {
                    assert(out@ =~= o + (t@ + seq!['.', '0']));
                }
            }
        },
    }
}

/// Append `n` spaces.
fn push_spaces(out: &mut String, n: usize)
    ensures
        final(out)@ == old(out)@ + spaces(n as nat),
{
    let mut i: usize = 0;
    proof {
        assert(old(out)@ + spaces(0) =~= old(out)@);
    }
    while i < n
        invariant
            i <= n,
            out@ == old(out)@ + spaces(i as nat),
        decreases n - i,
    {
        string_push(out, ' ');
        i = i + 1;
        proof {
            assert(spaces(i as nat) == spaces((i - 1) as nat).push(' '));
            assert(out@ =~= old(out)@ + spaces(i as nat));
        }
    }
}

/// `spaces` of a sum is the concatenation.
proof fn lemma_spaces_add(a: nat, b: nat)
    ensures
        spaces(a + b) == spaces(a) + spaces(b),
    decreases b,
{
    if b == 0 {
        assert(spaces(a) + spaces(0) =~= spaces(a));
    } else {
        lemma_spaces_add(a, (b - 1) as nat);
        assert(spaces(a + b) == spaces((a + b - 1) as nat).push(' '));
        assert(spaces(b) == spaces((b - 1) as nat).push(' '));
        assert(spaces(a + b) =~= spaces(a) + spaces(b));
    }
}

/// Append a line break before something at `depth`.
fn write_break(out: &mut String, indent: Option<usize>, depth: usize)
    ensures
        final(out)@ == old(out)@ + line_break(
            Layout { indent: indent_view(indent), sorted: false },
            depth as nat,
        ),
{
    match indent {
        None => {
            proof {
                assert(old(out)@ + Seq::<char>::empty() =~= old(out)@);
            }
        },
        Some(width) => {
            string_push(out, '\n');
            let ghost start = out@;
            let mut level: usize = 0;
            proof {
                assert(start + spaces(0) =~= start);
            }
            while level < depth
                invariant
                    level <= depth,
                    out@ == start + spaces((level * width) as nat),
                decreases depth - level,
            {
                push_spaces(out, width);
                proof {
                    lemma_spaces_add((level * width) as nat, width as nat);
                    assert((level + 1) * width == level * width + width) by (nonlinear_arith);
                    assert(out@ =~= start + spaces(((level + 1) * width) as nat));
                }
                level = level + 1;
            }
            proof {
                assert(out@ =~= old(out)@ + (seq!['\n'] + spaces(depth as nat * width as nat)));
            }
        },
    }
}

/// The model of an indent.
pub open spec fn indent_view(indent: Option<usize>) -> Option<nat> {
    match indent {
        Some(w) => Some(w as nat),
        None => None,
    }
}


/// Work left for the writer, on a stack: the top is written next.
enum Task<'a> {
    /// Render a value at a nesting depth.
    Val(&'a Value, usize),
    /// Literal punctuation.
    Punct(char),
    /// An object key and its colon.
    Key(&'a str),
    /// A line break plus indentation; nothing at all when compact.
    Break(usize),
}

/// The layout a writer's arguments stand for.
pub open spec fn layout_of(indent: Option<usize>, sorted: bool) -> Layout {
    Layout { indent: indent_view(indent), sorted }
}

spec fn task_text(t: Task, layout: Layout) -> Seq<char> {
    match t {
        Task::Val(v, d) => render(v@, layout, d as nat),
        Task::Punct(c) => seq![c],
        Task::Key(k) => key_text(layout, k@),
        Task::Break(d) => line_break(layout, d as nat),
    }
}

spec fn task_size(t: Task, layout: Layout) -> nat {
    match t {
        Task::Val(v, _) => render_size(v@, layout),
        _ => 1,
    }
}

spec fn task_ok(t: Task, layout: Layout, top: nat) -> bool {
    match t {
        Task::Val(v, d) => layout.indent is Some ==> d + json_depth(v@) <= top,
        Task::Break(d) => layout.indent is Some ==> d <= top,
        _ => true,
    }
}

/// What the tasks on a stack still write, top first.
spec fn pending_text(ts: Seq<Task>, layout: Layout) -> Seq<char>
    decreases ts.len(),
{
    if ts.len() == 0 {
        Seq::empty()
    } else {
        task_text(ts.last(), layout) + pending_text(ts.drop_last(), layout)
    }
}

/// The work the tasks on a stack still do.
spec fn pending_size(ts: Seq<Task>, layout: Layout) -> nat
    decreases ts.len(),
{
    if ts.len() == 0 {
        0
    } else {
        task_size(ts.last(), layout) + pending_size(ts.drop_last(), layout)
    }
}

/// Pushing a task puts its text first.
proof fn lemma_push_task(ts: Seq<Task>, t: Task, layout: Layout)
    ensures
        pending_text(ts.push(t), layout) == task_text(t, layout) + pending_text(ts, layout),
        pending_size(ts.push(t), layout) == task_size(t, layout) + pending_size(ts, layout),
{
    assert(ts.push(t).drop_last() =~= ts);
}

/// The child depth: `d + 1`, saturating, which only compact output can
/// reach and where depth is not written.
fn child_depth(d: usize) -> (c: usize)
    ensures
        d < usize::MAX ==> c == d + 1,
{
    if d < usize::MAX {
        d + 1
    } else {
        d
    }
}

/// A child's text at the writer's depth is its text in the model.
proof fn lemma_child_text(v: JsonValue, layout: Layout, d: usize, c: usize)
    requires
        d < usize::MAX ==> c == d + 1,
        layout.indent is Some ==> d < usize::MAX,
    ensures
        render(v, layout, c as nat) == render(v, layout, d as nat + 1),
        line_break(layout, c as nat) == line_break(layout, d as nat + 1),
{
    if layout.indent is None {
        lemma_render_depth_free(v, layout, c as nat, d as nat + 1);
    }
}

/// An object's entries in the order the layout writes them.
fn member_refs(map: &Object, sorted: bool) -> (r: Vec<(&str, &Value)>)
    ensures
        r@.len() == member_order(layout_of(None, sorted), map@).len(),
        forall|k: int|
            0 <= k < r@.len() ==> {
                let e = #[trigger] member_order(layout_of(None, sorted), map@)[k];
                &&& 0 <= e < map@.len()
                &&& (r@[k].0@, r@[k].1@) == map@[e]
            },
{
    if sorted {
        map.sorted_entries()
    } else {
        map.iter()
    }
}

/// Serialize `root` with the given layout.
#[verifier::rlimit(60)]
fn write_value(root: &Value, indent: Option<usize>, sorted: bool) -> (out: String)
    requires
        indent is Some ==> json_depth(root@) < usize::MAX,
    ensures
        out@ == render(root@, layout_of(indent, sorted), 0),
{
    let ghost layout = layout_of(indent, sorted);
    let ghost top = json_depth(root@);
    let mut out = String::new();
    let mut stack: Vec<Task> = Vec::new();
    stack.push(Task::Val(root, 0));
    proof {
        lemma_push_task(Seq::empty(), Task::Val(root, 0), layout);
        assert(stack@ =~= Seq::<Task>::empty().push(Task::Val(root, 0)));
        assert(out@ + pending_text(stack@, layout) =~= render(root@, layout, 0));
    }
    while stack.len() > 0
        invariant
            layout == layout_of(indent, sorted),
            top == json_depth(root@),
            indent is Some ==> top < usize::MAX,
            out@ + pending_text(stack@, layout) == render(root@, layout, 0),
            forall|i: int| 0 <= i < stack@.len() ==> task_ok(#[trigger] stack@[i], layout, top),
        decreases pending_size(stack@, layout),
    {
        let ghost before = stack@;
        let task = stack.pop().unwrap();
        let ghost rest = stack@;
        proof {
            assert(before =~= rest.push(task));
            lemma_push_task(rest, task, layout);
            assert(task_ok(before[before.len() - 1], layout, top));
        }
        let ghost out0 = out@;
        match task {
            Task::Punct(c) => {
                string_push(&mut out, c);
                proof {
                    assert(out@ + pending_text(rest, layout) =~= out0 + (task_text(task, layout)
                        + pending_text(rest, layout)));
                }
            },
            Task::Key(k) => {
                write_escaped(&mut out, k);
                string_push(&mut out, ':');
                if indent.is_some() {
                    string_push(&mut out, ' ');
                }
                proof {
                    assert(out@ =~= out0 + key_text(layout, k@));
                    assert(out@ + pending_text(rest, layout) =~= out0 + (task_text(task, layout)
                        + pending_text(rest, layout)));
                }
            },
            Task::Break(d) => {
                write_break(&mut out, indent, d);
                proof {
                    assert(out@ + pending_text(rest, layout) =~= out0 + (task_text(task, layout)
                        + pending_text(rest, layout)));
                }
            },
            Task::Val(v, d) => {
                write_node(&mut out, &mut stack, v, d, indent, sorted, Ghost(top));
            },
        }
    }
    out
}

/// Write one value task: a scalar in full, a container's opening and the
/// tasks for the rest of it.
#[verifier::rlimit(60)]
fn write_node<'a>(
    out: &mut String,
    stack: &mut Vec<Task<'a>>,
    v: &'a Value,
    d: usize,
    indent: Option<usize>,
    sorted: bool,
    top: Ghost<nat>,
)
    requires
        indent is Some ==> top@ < usize::MAX,
        indent is Some ==> d + json_depth(v@) <= top@,
        forall|i: int| 0 <= i < old(stack)@.len() ==> task_ok(#[trigger] old(stack)@[i], layout_of(indent, sorted), top@),
    ensures
        final(out)@ + pending_text(final(stack)@, layout_of(indent, sorted)) == old(out)@ + render(
            v@,
            layout_of(indent, sorted),
            d as nat,
        ) + pending_text(old(stack)@, layout_of(indent, sorted)),
        pending_size(final(stack)@, layout_of(indent, sorted)) < render_size(v@, layout_of(indent, sorted))
            + pending_size(old(stack)@, layout_of(indent, sorted)),
        forall|i: int| 0 <= i < final(stack)@.len() ==> task_ok(#[trigger] final(stack)@[i], layout_of(indent, sorted), top@),
{
    let ghost layout = layout_of(indent, sorted);
    let ghost rest = stack@;
    let ghost out0 = out@;
    match v {
        Value::Null => {
            push_chars(out, &chars_of("null"));
            proof {
                reveal_strlit("null");
            }
        },
        Value::Bool(b) => {
            if *b {
                push_chars(out, &chars_of("true"));
                proof {
                    reveal_strlit("true");
                }
            } else {
                push_chars(out, &chars_of("false"));
                proof {
                    reveal_strlit("false");
                }
            }
        },
        Value::Number(n) => {
            write_number(out, n);
        },
        Value::String(text) => {
            write_escaped(out, text.as_str());
        },
        Value::Array(_) => {
            write_array(out, stack, v, d, indent, sorted, top);
        },
        Value::Object(_) => {
            write_object(out, stack, v, d, indent, sorted, top);
        },
    }
}

/// The text still to write after the tasks for the `i`-th element are
/// pushed: the elements from the `i`-th on, then the closing.
proof fn lemma_items_step_text(
    iv: Seq<JsonValue>,
    layout: Layout,
    d: nat,
    i: int,
    pushed: Seq<char>,
    before: Seq<char>,
    rest: Seq<char>,
)
    requires
        0 <= i < iv.len(),
        before == items_text(iv, layout, d, i + 1) + line_break(layout, d) + seq![']'] + rest,
        i > 0 ==> pushed == seq![','] + (line_break(layout, d + 1) + (render(iv[i], layout, d + 1)
            + before)),
        i == 0 ==> pushed == line_break(layout, d + 1) + (render(iv[i], layout, d + 1) + before),
    ensures
        pushed == items_text(iv, layout, d, i) + line_break(layout, d) + seq![']'] + rest,
{
    let brk = line_break(layout, d + 1);
    let elem = render(iv[i], layout, d + 1);
    let later = items_text(iv, layout, d, i + 1);
    let tail = line_break(layout, d) + seq![']'] + rest;
    assert(items_text(iv, layout, d, i) == separator(i) + brk + elem + later);
    assert(before =~= later + tail);
    assert(pushed =~= separator(i) + brk + elem + later + tail);
    assert(items_text(iv, layout, d, i) + line_break(layout, d) + seq![']'] + rest
        =~= separator(i) + brk + elem + later + tail);
}

/// The text still to write after the tasks for the `i`-th member are
/// pushed: the members from the `i`-th on, then the closing.
proof fn lemma_members_step_text(
    ev: Seq<(Seq<char>, JsonValue)>,
    order: Seq<int>,
    layout: Layout,
    d: nat,
    i: int,
    pushed: Seq<char>,
    before: Seq<char>,
    rest: Seq<char>,
)
    requires
        0 <= i < order.len(),
        0 <= order[i] < ev.len(),
        before == members_text(ev, order, layout, d, i + 1) + line_break(layout, d) + seq!['}']
            + rest,
        pushed == separator(if i > 0 {
            1int
        } else {
            0int
        }) + line_break(layout, d + 1) + key_text(layout, ev[order[i]].0) + render(
            ev[order[i]].1,
            layout,
            d + 1,
        ) + before,
    ensures
        pushed == members_text(ev, order, layout, d, i) + line_break(layout, d) + seq!['}'] + rest,
{
    assert(separator(if i > 0 {
        1int
    } else {
        0int
    }) == separator(i));
    assert(members_text(ev, order, layout, d, i) == separator(i) + line_break(layout, d + 1)
        + key_text(layout, ev[order[i]].0) + render(ev[order[i]].1, layout, d + 1) + members_text(
        ev,
        order,
        layout,
        d,
        i + 1,
    ));
    assert(pushed =~= members_text(ev, order, layout, d, i) + line_break(layout, d) + seq!['}']
        + rest);
}

/// Write an array task: its opening, and tasks for the rest.
#[verifier::rlimit(60)]
fn write_array<'a>(
    out: &mut String,
    stack: &mut Vec<Task<'a>>,
    v: &'a Value,
    d: usize,
    indent: Option<usize>,
    sorted: bool,
    top: Ghost<nat>,
)
    requires
        v is Array,
        indent is Some ==> top@ < usize::MAX,
        indent is Some ==> d + json_depth(v@) <= top@,
        forall|i: int| 0 <= i < old(stack)@.len() ==> task_ok(#[trigger] old(stack)@[i], layout_of(indent, sorted), top@),
    ensures
        final(out)@ + pending_text(final(stack)@, layout_of(indent, sorted)) == old(out)@ + render(
            v@,
            layout_of(indent, sorted),
            d as nat,
        ) + pending_text(old(stack)@, layout_of(indent, sorted)),
        pending_size(final(stack)@, layout_of(indent, sorted)) < render_size(v@, layout_of(indent, sorted))
            + pending_size(old(stack)@, layout_of(indent, sorted)),
        forall|i: int| 0 <= i < final(stack)@.len() ==> task_ok(#[trigger] final(stack)@[i], layout_of(indent, sorted), top@),
{
    let ghost layout = layout_of(indent, sorted);
    let ghost rest = stack@;
    let ghost out0 = out@;
    match v {
        Value::Array(items) => {
            proof {
                lemma_values_view(items@);
            }
            let ghost iv = values_view(items@);
            if items.len() == 0 {
                string_push(out, '[');
                string_push(out, ']');
                proof {
                    assert(out@ =~= out0 + seq!['[', ']']);
                }
            } else {
                string_push(out, '[');
                stack.push(Task::Punct(']'));
                stack.push(Task::Break(d));
                let c = child_depth(d);
                proof {
                    lemma_push_task(rest, Task::Punct(']'), layout);
                    lemma_push_task(rest.push(Task::Punct(']')), Task::Break(d), layout);
                    assert(stack@ =~= rest.push(Task::Punct(']')).push(Task::Break(d)));
                }
                let mut i = items.len();
                while i > 0
                    invariant
                        layout == layout_of(indent, sorted),
                        v@ == JsonValue::Array(iv),
                        iv.len() == items@.len(),
                        forall|k: int| 0 <= k < items@.len() ==> #[trigger] iv[k] == items@[k]@,
                        i <= items@.len(),
                        d < usize::MAX ==> c == d + 1,
                        indent is Some ==> top@ < usize::MAX,
                        indent is Some ==> d + json_depth(v@) <= top@,
                        pending_text(stack@, layout) == items_text(iv, layout, d as nat, i as int)
                            + line_break(layout, d as nat) + seq![']'] + pending_text(rest, layout),
                        pending_size(stack@, layout) <= 2 + items_size(iv, layout, i as int)
                            + pending_size(rest, layout),
                        forall|k: int| 0 <= k < stack@.len() ==> task_ok(#[trigger] stack@[k], layout, top@),
                    decreases i,
                {
                    i = i - 1;
                    let ghost s0 = stack@;
                    proof {
                        if indent is Some {
                            lemma_items_depth(iv, 0, i as int);
                        }
                        lemma_child_text(iv[i as int], layout, d, c);
                    }
                    stack.push(Task::Val(&items[i], c));
                    stack.push(Task::Break(c));
                    proof {
                        lemma_push_task(s0, Task::Val(&items[i as int], c), layout);
                        lemma_push_task(s0.push(Task::Val(&items[i as int], c)), Task::Break(c), layout);
                    }
                    if i > 0 {
                        let ghost s1 = stack@;
                        stack.push(Task::Punct(','));
                        proof {
                            lemma_push_task(s1, Task::Punct(','), layout);
                        }
                    }
                    proof {
                        lemma_items_step_text(
                            iv,
                            layout,
                            d as nat,
                            i as int,
                            pending_text(stack@, layout),
                            pending_text(s0, layout),
                            pending_text(rest, layout),
                        );
                    }
                }
                proof {
                    assert(out@ + pending_text(stack@, layout) =~= out0 + render(v@, layout, d as nat)
                        + pending_text(rest, layout));
                }
            }
        },

        _ => {},
    }
}

/// Push the tasks for one member: comma, break, key and value, the comma
/// on top.
fn push_member<'a>(
    stack: &mut Vec<Task<'a>>,
    key: &'a str,
    item: &'a Value,
    c: usize,
    comma: bool,
    layout: Ghost<Layout>,
    top: Ghost<nat>,
)
    requires
        forall|k: int| 0 <= k < old(stack)@.len() ==> task_ok(#[trigger] old(stack)@[k], layout@, top@),
        task_ok(Task::Val(item, c), layout@, top@),
        task_ok(Task::Break(c), layout@, top@),
    ensures
        pending_text(final(stack)@, layout@) == separator(if comma { 1 } else { 0 }) + line_break(layout@, c as nat)
            + key_text(layout@, key@) + render(item@, layout@, c as nat) + pending_text(old(stack)@, layout@),
        pending_size(final(stack)@, layout@) <= render_size(item@, layout@) + 3 + pending_size(
            old(stack)@,
            layout@,
        ),
        forall|k: int| 0 <= k < final(stack)@.len() ==> task_ok(#[trigger] final(stack)@[k], layout@, top@),
{
    let ghost s0 = stack@;
    stack.push(Task::Val(item, c));
    proof {
        lemma_push_task(s0, Task::Val(item, c), layout@);
    }
    let ghost s1 = stack@;
    stack.push(Task::Key(key));
    proof {
        lemma_push_task(s1, Task::Key(key), layout@);
    }
    let ghost s2 = stack@;
    stack.push(Task::Break(c));
    proof {
        lemma_push_task(s2, Task::Break(c), layout@);
    }
    if comma {
        let ghost s3 = stack@;
        stack.push(Task::Punct(','));
        proof {
            lemma_push_task(s3, Task::Punct(','), layout@);
        }
    }
    proof {
        assert(pending_text(stack@, layout@) =~= separator(if comma { 1 } else { 0 }) + line_break(layout@, c as nat)
            + key_text(layout@, key@) + render(item@, layout@, c as nat) + pending_text(s0, layout@));
    }
}

/// Write an object task: its opening, and tasks for the rest.
#[verifier::rlimit(60)]
fn write_object<'a>(
    out: &mut String,
    stack: &mut Vec<Task<'a>>,
    v: &'a Value,
    d: usize,
    indent: Option<usize>,
    sorted: bool,
    top: Ghost<nat>,
)
    requires
        v is Object,
        indent is Some ==> top@ < usize::MAX,
        indent is Some ==> d + json_depth(v@) <= top@,
        forall|i: int| 0 <= i < old(stack)@.len() ==> task_ok(#[trigger] old(stack)@[i], layout_of(indent, sorted), top@),
    ensures
        final(out)@ + pending_text(final(stack)@, layout_of(indent, sorted)) == old(out)@ + render(
            v@,
            layout_of(indent, sorted),
            d as nat,
        ) + pending_text(old(stack)@, layout_of(indent, sorted)),
        pending_size(final(stack)@, layout_of(indent, sorted)) < render_size(v@, layout_of(indent, sorted))
            + pending_size(old(stack)@, layout_of(indent, sorted)),
        forall|i: int| 0 <= i < final(stack)@.len() ==> task_ok(#[trigger] final(stack)@[i], layout_of(indent, sorted), top@),
{
    let ghost layout = layout_of(indent, sorted);
    let ghost rest = stack@;
    let ghost out0 = out@;
    match v {
        Value::Object(map) => {
            let ghost ev = map@;
            if map.is_empty() {
                string_push(out, '{');
                string_push(out, '}');
                proof {
                    assert(out@ =~= out0 + seq!['{', '}']);
                }
            } else {
                let refs = member_refs(map, sorted);
                let ghost order = member_order(layout, ev);
                string_push(out, '{');
                stack.push(Task::Punct('}'));
                stack.push(Task::Break(d));
                let c = child_depth(d);
                proof {
                    lemma_push_task(rest, Task::Punct('}'), layout);
                    lemma_push_task(rest.push(Task::Punct('}')), Task::Break(d), layout);
                    assert(stack@ =~= rest.push(Task::Punct('}')).push(Task::Break(d)));
                }
                let mut i = refs.len();
                while i > 0
                    invariant
                        layout == layout_of(indent, sorted),
                        v@ == JsonValue::Object(ev),
                        order == member_order(layout, ev),
                        refs@.len() == order.len(),
                        forall|k: int|
                            0 <= k < refs@.len() ==> {
                                let e = #[trigger] order[k];
                                &&& 0 <= e < ev.len()
                                &&& (refs@[k].0@, refs@[k].1@) == ev[e]
                            },
                        i <= refs@.len(),
                        d < usize::MAX ==> c == d + 1,
                        indent is Some ==> top@ < usize::MAX,
                        indent is Some ==> d + json_depth(v@) <= top@,
                        pending_text(stack@, layout) == members_text(ev, order, layout, d as nat, i as int)
                            + line_break(layout, d as nat) + seq!['}'] + pending_text(rest, layout),
                        pending_size(stack@, layout) <= 2 + members_size(ev, order, layout, i as int)
                            + pending_size(rest, layout),
                        forall|k: int| 0 <= k < stack@.len() ==> task_ok(#[trigger] stack@[k], layout, top@),
                    decreases i,
                {
                    i = i - 1;
                    let ghost s0 = stack@;
                    let ghost e = order[i as int];
                    let (key, item) = refs[i];
                    proof {
                        if indent is Some {
                            lemma_entries_depth(ev, 0, e);
                        }
                        lemma_child_text(ev[e].1, layout, d, c);
                    }
                    push_member(stack, key, item, c, i > 0, Ghost(layout), top);
                    proof {
                        lemma_members_step_text(
                            ev,
                            order,
                            layout,
                            d as nat,
                            i as int,
                            pending_text(stack@, layout),
                            pending_text(s0, layout),
                            pending_text(rest, layout),
                        );
                    }
                }
                proof {
                    assert(out@ + pending_text(stack@, layout) =~= out0 + render(v@, layout, d as nat)
                        + pending_text(rest, layout));
                }
            }
        },
        _ => {},
    }
}

} // verus!
