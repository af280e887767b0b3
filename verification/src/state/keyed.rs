//! Lists of `(key, item)` pairs: how objects, stores and streams hold their
//! children.

use vstd::prelude::*;

use crate::state::text;
use crate::state::text::Chars;

verus! {

/// Where `key` first occurs, or the length when it does not.
pub open spec fn key_index<T>(list: Seq<(Chars, T)>, key: Chars) -> nat
    decreases list.len(),
{
    if list.len() == 0 {
        0
    } else if list[0].0 == key {
        0
    } else {
        1 + key_index(list.drop_first(), key)
    }
}

/// Whether `key` occurs.
pub open spec fn has_key<T>(list: Seq<(Chars, T)>, key: Chars) -> bool {
    key_index(list, key) < list.len()
}

/// The item filed under `key`.
pub open spec fn lookup<T>(list: Seq<(Chars, T)>, key: Chars) -> Option<T> {
    if has_key(list, key) {
        Some(list[key_index(list, key) as int].1)
    } else {
        None
    }
}

/// Where a new `key` goes: after every leading key that is less than it.
pub open spec fn key_slot<T>(list: Seq<(Chars, T)>, key: Chars) -> nat
    decreases list.len(),
{
    if list.len() == 0 {
        0
    } else if text::text_less(list[0].0, key) {
        1 + key_slot(list.drop_first(), key)
    } else {
        0
    }
}

/// The list with `key` filed under `item`: overwritten in place, or inserted at
/// its slot.
pub open spec fn put<T>(list: Seq<(Chars, T)>, key: Chars, item: T) -> Seq<(Chars, T)> {
    if has_key(list, key) {
        list.update(key_index(list, key) as int, (key, item))
    } else {
        list.insert(key_slot(list, key) as int, (key, item))
    }
}

/// The list without `key`.
pub open spec fn without<T>(list: Seq<(Chars, T)>, key: Chars) -> Seq<(Chars, T)> {
    if has_key(list, key) {
        list.remove(key_index(list, key) as int)
    } else {
        list
    }
}

/// Keys strictly increase: each occurs once, and in order.
pub open spec fn sorted<T>(list: Seq<(Chars, T)>) -> bool {
    forall|i: int, j: int|
        0 <= i < j < list.len() ==> text::text_less(#[trigger] list[i].0, #[trigger] list[j].0)
}

/// The items of a list, in order.
pub open spec fn items_of<T>(list: Seq<(Chars, T)>) -> Seq<T> {
    Seq::new(list.len(), |i: int| list[i].1)
}

/// What `key_index` means.
pub proof fn key_index_meaning<T>(list: Seq<(Chars, T)>, key: Chars)
    ensures
        key_index(list, key) <= list.len(),
        key_index(list, key) < list.len() ==> list[key_index(list, key) as int].0 == key,
        forall|j: int| 0 <= j < key_index(list, key) ==> (#[trigger] list[j]).0 != key,
    decreases list.len(),
{
    if list.len() > 0 && list[0].0 != key {
        let rest = list.drop_first();
        key_index_meaning(rest, key);
        assert forall|j: int| 0 <= j < key_index(list, key) implies (#[trigger] list[j]).0 != key by {
            if j > 0 {
                assert(list[j] == rest[j - 1]);
            }
        }
    }
}

/// `key_index` is the only position with that meaning.
pub proof fn key_index_is<T>(list: Seq<(Chars, T)>, key: Chars, at: int)
    requires
        0 <= at <= list.len(),
        at < list.len() ==> list[at].0 == key,
        forall|j: int| 0 <= j < at ==> (#[trigger] list[j]).0 != key,
    ensures
        key_index(list, key) == at,
{
    key_index_meaning(list, key);
    let found = key_index(list, key) as int;
    if found < at {
        assert(list[found].0 != key);
    }
    if at < found {
        assert(list[at].0 != key);
    }
}

/// What `key_slot` means.
pub proof fn key_slot_meaning<T>(list: Seq<(Chars, T)>, key: Chars)
    ensures
        key_slot(list, key) <= list.len(),
        key_slot(list, key) < list.len() ==> !text::text_less(list[key_slot(list, key) as int].0, key),
        forall|j: int| 0 <= j < key_slot(list, key) ==> text::text_less((#[trigger] list[j]).0, key),
    decreases list.len(),
{
    if list.len() > 0 && text::text_less(list[0].0, key) {
        let rest = list.drop_first();
        key_slot_meaning(rest, key);
        assert forall|j: int| 0 <= j < key_slot(list, key) implies text::text_less((#[trigger] list[j]).0, key) by {
            if j > 0 {
                assert(list[j] == rest[j - 1]);
            }
        }
    }
}

/// `key_slot` is the only position with that meaning.
pub proof fn key_slot_is<T>(list: Seq<(Chars, T)>, key: Chars, at: int)
    requires
        0 <= at <= list.len(),
        at < list.len() ==> !text::text_less(list[at].0, key),
        forall|j: int| 0 <= j < at ==> text::text_less((#[trigger] list[j]).0, key),
    ensures
        key_slot(list, key) == at,
{
    key_slot_meaning(list, key);
    let found = key_slot(list, key) as int;
    if found < at {
        assert(text::text_less(list[found].0, key));
    }
    if at < found {
        assert(text::text_less(list[at].0, key));
    }
}

/// In a sorted list every key has one position.
pub proof fn sorted_key_index<T>(list: Seq<(Chars, T)>, at: int)
    requires
        sorted(list),
        0 <= at < list.len(),
    ensures
        key_index(list, list[at].0) == at,
        lookup(list, list[at].0) == Some(list[at].1),
{
    assert forall|j: int| 0 <= j < at implies (#[trigger] list[j]).0 != list[at].0 by {
        text::text_less_irreflexive(list[at].0);
    }
    key_index_is(list, list[at].0, at);
}

/// Filing a key keeps a sorted list sorted.
pub proof fn put_sorted<T>(list: Seq<(Chars, T)>, key: Chars, item: T)
    requires
        sorted(list),
    ensures
        sorted(put(list, key, item)),
{
    key_index_meaning(list, key);
    key_slot_meaning(list, key);
    let new = put(list, key, item);
    if has_key(list, key) {
        assert forall|i: int, j: int| 0 <= i < j < new.len() implies text::text_less(
            #[trigger] new[i].0,
            #[trigger] new[j].0,
        ) by {
            assert(new[i].0 == list[i].0);
            assert(new[j].0 == list[j].0);
        }
    } else {
        let at = key_slot(list, key) as int;
        assert forall|i: int, j: int| 0 <= i < j < new.len() implies text::text_less(
            #[trigger] new[i].0,
            #[trigger] new[j].0,
        ) by {
            let a = if i < at { i } else { i - 1 };
            let b = if j < at { j } else { j - 1 };
            if i == at {
                assert(new[j] == list[j - 1]);
                assert(list[at].0 != key) by {
                    assert(key_index(list, key) == list.len());
                }
                text::text_less_total(list[at].0, key);
                if j - 1 > at {
                    text::text_less_transitive(key, list[at].0, list[j - 1].0);
                }
            } else if j == at {
                assert(new[i] == list[i]);
            } else {
                assert(new[i] == list[a]);
                assert(new[j] == list[b]);
            }
        }
    }
}

/// A key that was taken out of a list of ordered keys is not in it.
pub proof fn without_gone<T>(list: Seq<(Chars, T)>, key: Chars)
    requires
        sorted(list),
    ensures
        lookup(without(list, key), key) is None,
{
    let new = without(list, key);
    key_index_meaning(list, key);
    key_index_meaning(new, key);
    if has_key(list, key) && has_key(new, key) {
        let at = key_index(list, key) as int;
        let j = key_index(new, key) as int;
        let k = if j < at { j } else { j + 1 };
        assert(list[k].0 == key);
        text::text_less_irreflexive(key);
        assert(at != k);
        if at < k {
            assert(text::text_less(list[at].0, list[k].0));
        } else {
            assert(text::text_less(list[k].0, list[at].0));
        }
    }
}

/// Dropping a key keeps a sorted list sorted.
pub proof fn without_sorted<T>(list: Seq<(Chars, T)>, key: Chars)
    requires
        sorted(list),
    ensures
        sorted(without(list, key)),
{
    key_index_meaning(list, key);
    let new = without(list, key);
    if has_key(list, key) {
        let at = key_index(list, key) as int;
        assert forall|i: int, j: int| 0 <= i < j < new.len() implies text::text_less(
            #[trigger] new[i].0,
            #[trigger] new[j].0,
        ) by {
            let a = if i < at { i } else { i + 1 };
            let b = if j < at { j } else { j + 1 };
            assert(new[i] == list[a]);
            assert(new[j] == list[b]);
        }
    }
}

/// What was filed last under a key is what a lookup finds.
pub proof fn put_lookup<T>(list: Seq<(Chars, T)>, key: Chars, item: T)
    requires
        sorted(list),
    ensures
        lookup(put(list, key, item), key) == Some(item),
        has_key(put(list, key, item), key),
{
    put_sorted(list, key, item);
    key_index_meaning(list, key);
    key_slot_meaning(list, key);
    let at = if has_key(list, key) { key_index(list, key) as int } else { key_slot(list, key) as int };
    assert(put(list, key, item)[at] == (key, item));
    sorted_key_index(put(list, key, item), at);
}

/// Putting an item under one key leaves what is under another.
pub proof fn put_others<T>(list: Seq<(Chars, T)>, key: Chars, item: T, other: Chars)
    requires
        sorted(list),
        other != key,
    ensures
        lookup(put(list, key, item), other) == lookup(list, other),
{
    let new = put(list, key, item);
    key_index_meaning(list, key);
    key_slot_meaning(list, key);
    key_index_meaning(list, other);
    let found = key_index(list, other) as int;
    if has_key(list, key) {
        let at = key_index(list, key) as int;
        assert forall|j: int| 0 <= j < new.len() implies (#[trigger] new[j]).0 == list[j].0 by {
            if j != at {
                assert(new[j] == list[j]);
            }
        }
        assert forall|j: int| 0 <= j < found implies (#[trigger] new[j]).0 != other by {
            assert(list[j].0 != other);
        }
        key_index_is(new, other, found);
    } else {
        let at = key_slot(list, key) as int;
        let moved = if found < at {
            found
        } else {
            found + 1
        };
        assert forall|j: int| 0 <= j < moved implies (#[trigger] new[j]).0 != other by {
            if j < at {
                assert(new[j] == list[j]);
            } else if j > at {
                assert(new[j] == list[j - 1]);
            }
        }
        if found < list.len() {
            assert(new[moved] == list[found]);
        }
        key_index_is(new, other, moved);
    }
}

/// A list of ordered keys is what its lookups find.
pub proof fn sorted_same<T>(a: Seq<(Chars, T)>, b: Seq<(Chars, T)>)
    requires
        sorted(a),
        sorted(b),
        forall|key: Chars| #[trigger] lookup(a, key) == lookup(b, key),
    ensures
        a == b,
    decreases a.len(),
{
    if a.len() == 0 || b.len() == 0 {
        if a.len() > 0 {
            sorted_key_index(a, 0);
            assert(lookup(a, a[0].0) == lookup(b, a[0].0));
        }
        if b.len() > 0 {
            sorted_key_index(b, 0);
            assert(lookup(a, b[0].0) == lookup(b, b[0].0));
        }
        assert(a =~= b);
    } else {
        let x = a.last();
        let y = b.last();
        sorted_key_index(a, a.len() - 1);
        sorted_key_index(b, b.len() - 1);
        assert(lookup(a, x.0) == lookup(b, x.0));
        assert(lookup(a, y.0) == lookup(b, y.0));
        key_index_meaning(a, y.0);
        key_index_meaning(b, x.0);
        let i = key_index(a, y.0) as int;
        let j = key_index(b, x.0) as int;
        text::text_less_irreflexive(x.0);
        if i < a.len() - 1 {
            assert(text::text_less(a[i].0, x.0));
            if j < b.len() - 1 {
                assert(text::text_less(b[j].0, y.0));
                text::text_less_transitive(x.0, y.0, x.0);
            }
        }
        assert(x == y);
        let c = a.drop_last();
        let d = b.drop_last();
        assert forall|key: Chars| #[trigger] lookup(c, key) == lookup(d, key) by {
            front_lookup(a, key);
            front_lookup(b, key);
            assert(lookup(a, key) == lookup(b, key));
        }
        sorted_same(c, d);
        assert(a =~= c.push(x));
        assert(b =~= d.push(y));
    }
}

/// What a list of ordered keys without its last holds under a key.
proof fn front_lookup<T>(list: Seq<(Chars, T)>, key: Chars)
    requires
        sorted(list),
        list.len() > 0,
    ensures
        lookup(list.drop_last(), key) == (if key == list.last().0 {
            None
        } else {
            lookup(list, key)
        }),
{
    let front = list.drop_last();
    key_index_meaning(list, key);
    key_index_meaning(front, key);
    let at = key_index(front, key) as int;
    if at < front.len() {
        assert(front[at] == list[at]);
        sorted_key_index(list, at);
        text::text_less_irreflexive(key);
        assert(text::text_less(list[at].0, list[list.len() - 1].0));
    } else {
        let found = key_index(list, key) as int;
        if found < front.len() {
            assert(front[found].0 == key);
        }
    }
}

} // verus!
