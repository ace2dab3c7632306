//! The key order and the sort the canonical writer applies: `key_lt` is a
//! strict total order, and `sorted_order` lists an object's members by it.

use vstd::prelude::*;

use crate::render::{insert_position, key_lt, lemma_sorted_order_permutation, sorted_order};
use crate::value::{keys_distinct, JsonValue};

verus! {

/// No key sorts before itself.
pub proof fn lemma_key_lt_irreflexive(a: Seq<char>)
    ensures
        !key_lt(a, a),
    decreases a.len(),
{
    if a.len() > 0 {
        lemma_key_lt_irreflexive(a.drop_first());
    }
}

/// Of two keys, at most one sorts before the other.
pub proof fn lemma_key_lt_asymmetric(a: Seq<char>, b: Seq<char>)
    ensures
        !(key_lt(a, b) && key_lt(b, a)),
    decreases a.len(),
{
    if a.len() > 0 && b.len() > 0 && a[0] == b[0] {
        lemma_key_lt_asymmetric(a.drop_first(), b.drop_first());
    }
}

/// The key order is transitive.
pub proof fn lemma_key_lt_transitive(a: Seq<char>, b: Seq<char>, c: Seq<char>)
    requires
        key_lt(a, b),
        key_lt(b, c),
    ensures
        key_lt(a, c),
    decreases a.len(),
{
    if a.len() > 0 && b.len() > 0 && c.len() > 0 && a[0] == b[0] && b[0] == c[0] {
        lemma_key_lt_transitive(a.drop_first(), b.drop_first(), c.drop_first());
    }
}

/// Of two different keys, one sorts before the other.
pub proof fn lemma_key_lt_total(a: Seq<char>, b: Seq<char>)
    requires
        a != b,
    ensures
        key_lt(a, b) || key_lt(b, a),
    decreases a.len(),
{
    if a.len() > 0 && b.len() > 0 {
        if a[0] == b[0] {
            if a.drop_first() == b.drop_first() {
                assert(a =~= seq![a[0]] + a.drop_first());
                assert(b =~= seq![b[0]] + b.drop_first());
            }
            lemma_key_lt_total(a.drop_first(), b.drop_first());
        } else {
            vstd::utf8::char_u32_cast(a[0], a[0] as u32);
            vstd::utf8::char_u32_cast(b[0], b[0] as u32);
        }
    } else if a.len() == 0 && b.len() == 0 {
        assert(a =~= b);
    }
}

/// Whether the members `order` lists have strictly ascending keys.
pub open spec fn ascending(entries: Seq<(Seq<char>, JsonValue)>, order: Seq<int>) -> bool {
    forall|a: int, b: int|
        0 <= a < b < order.len() ==> key_lt(
            #[trigger] entries[order[a]].0,
            #[trigger] entries[order[b]].0,
        )
}

/// Where a member is inserted: after every key that does not sort after its
/// own, before the first that does.
pub proof fn lemma_insert_position(
    entries: Seq<(Seq<char>, JsonValue)>,
    order: Seq<int>,
    i: int,
)
    ensures
        0 <= insert_position(entries, order, i) <= order.len(),
        forall|j: int|
            0 <= j < insert_position(entries, order, i) ==> !key_lt(
                entries[i].0,
                #[trigger] entries[order[j]].0,
            ),
        insert_position(entries, order, i) < order.len() ==> key_lt(
            entries[i].0,
            entries[order[insert_position(entries, order, i)]].0,
        ),
    decreases order.len(),
{
    if order.len() > 0 && !key_lt(entries[i].0, entries[order[0]].0) {
        let rest = order.drop_first();
        lemma_insert_position(entries, rest, i);
        assert forall|j: int| 0 <= j < insert_position(entries, order, i) implies !key_lt(
            entries[i].0,
            #[trigger] entries[order[j]].0,
        ) by {
            if j > 0 {
                assert(order[j] == rest[j - 1]);
            }
        }
        if insert_position(entries, order, i) < order.len() {
            assert(order[insert_position(entries, order, i)] == rest[insert_position(
                entries,
                rest,
                i,
            )]);
        }
    }
}

/// The sort lists the members with strictly ascending keys.
pub proof fn lemma_sorted_order_ascending(entries: Seq<(Seq<char>, JsonValue)>, n: nat)
    requires
        keys_distinct(entries),
        n <= entries.len(),
    ensures
        ascending(entries, sorted_order(entries, n)),
    decreases n,
{
    if n > 0 {
        let i = n - 1;
        let order = sorted_order(entries, i as nat);
        lemma_sorted_order_ascending(entries, i as nat);
        lemma_sorted_order_permutation(entries, i as nat);
        lemma_insert_position(entries, order, i);
        let pos = insert_position(entries, order, i);
        let o2 = order.insert(pos, i);
        assert(sorted_order(entries, n) == o2);
        let ki = entries[i].0;
        assert forall|j: int| 0 <= j < order.len() implies #[trigger] entries[order[j]].0 != ki by {
            assert(order[j] < i);
        }
        assert forall|a: int, b: int| 0 <= a < b < o2.len() implies key_lt(
            #[trigger] entries[o2[a]].0,
            #[trigger] entries[o2[b]].0,
        ) by {
            if b < pos {
                assert(o2[a] == order[a] && o2[b] == order[b]);
            } else if b == pos {
                assert(o2[a] == order[a]);
                assert(!key_lt(ki, entries[order[a]].0));
                lemma_key_lt_total(ki, entries[order[a]].0);
            } else if a < pos {
                assert(o2[a] == order[a] && o2[b] == order[b - 1]);
            } else if a == pos {
                assert(o2[b] == order[b - 1]);
                assert(key_lt(ki, entries[order[pos]].0));
                if b - 1 > pos {
                    assert(key_lt(entries[order[pos]].0, entries[order[b - 1]].0));
                    lemma_key_lt_transitive(
                        ki,
                        entries[order[pos]].0,
                        entries[order[b - 1]].0,
                    );
                }
            } else {
                assert(o2[a] == order[a - 1] && o2[b] == order[b - 1]);
            }
        }
    }
}

/// The sort lists every member.
pub proof fn lemma_sorted_order_covers(entries: Seq<(Seq<char>, JsonValue)>, n: nat, t: int)
    requires
        0 <= t < n,
    ensures
        exists|m: int| 0 <= m < n && #[trigger] sorted_order(entries, n)[m] == t,
    decreases n,
{
    let i = n - 1;
    let order = sorted_order(entries, i as nat);
    lemma_sorted_order_permutation(entries, i as nat);
    lemma_insert_position(entries, order, i);
    let pos = insert_position(entries, order, i);
    let o2 = order.insert(pos, i);
    assert(sorted_order(entries, n) == o2);
    if t == i {
        assert(o2[pos] == t);
    } else {
        lemma_sorted_order_covers(entries, i as nat, t);
        let m = choose|m: int| 0 <= m < i && #[trigger] order[m] == t;
        if m < pos {
            assert(o2[m] == t);
        } else {
            assert(o2[m + 1] == t);
        }
    }
}

/// Members already in ascending key order stay where they are.
pub proof fn lemma_sorted_order_identity(entries: Seq<(Seq<char>, JsonValue)>, n: nat)
    requires
        n <= entries.len(),
        forall|a: int, b: int|
            0 <= a < b < n ==> key_lt(#[trigger] entries[a].0, #[trigger] entries[b].0),
    ensures
        sorted_order(entries, n) == Seq::new(n, |j: int| j),
    decreases n,
{
    if n > 0 {
        let i = n - 1;
        lemma_sorted_order_identity(entries, i as nat);
        let order = sorted_order(entries, i as nat);
        assert(order == Seq::new(i as nat, |j: int| j));
        lemma_insert_position(entries, order, i);
        let pos = insert_position(entries, order, i);
        if pos < i {
            assert(order[pos] == pos);
            assert(key_lt(entries[pos].0, entries[i].0));
            lemma_key_lt_asymmetric(entries[pos].0, entries[i].0);
        }
        assert(sorted_order(entries, n) =~= Seq::new(n, |j: int| j));
    }
}

} // verus!
