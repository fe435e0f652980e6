//! The mathematical model of the storage table and of each operation on it.
//!
//! A table maps an origin key to its bucket; a bucket maps a key to a value.
//! An origin without a bucket reads as an empty bucket.
use vstd::prelude::*;
use crate::order::{key_lt, lemma_key_lt_irreflexive, lemma_key_lt_asymmetric};
use crate::assoc::strictly_ascending;

verus! {

/// The contents of one bucket.
pub type BucketModel = Map<Seq<char>, Seq<char>>;

/// The whole table: origin key to bucket.
pub type TableModel = Map<Seq<char>, BucketModel>;

/// The contents of an optional string.
pub open spec fn opt_view(o: Option<String>) -> Option<Seq<char>> {
    match o {
        Some(s) => Some(s@),
        None => None,
    }
}

/// The bucket of `origin`, empty where none was created.
pub open spec fn bucket_of(t: TableModel, origin: Seq<char>) -> BucketModel {
    if t.contains_key(origin) {
        t[origin]
    } else {
        Map::empty()
    }
}

/// The number of keys stored under `origin`.
pub open spec fn length_of(t: TableModel, origin: Seq<char>) -> nat {
    bucket_of(t, origin).len()
}

/// The value stored under `origin` and `name`, if any.
pub open spec fn value_of(t: TableModel, origin: Seq<char>, name: Seq<char>) -> Option<Seq<char>> {
    if bucket_of(t, origin).contains_key(name) {
        Some(bucket_of(t, origin)[name])
    } else {
        None
    }
}

/// How many keys of `keys` order before `k`.
pub open spec fn rank(keys: Set<Seq<char>>, k: Seq<char>) -> nat {
    keys.filter(|x: Seq<char>| key_lt(x, k)).len()
}

/// The key at position `i` when `keys` is listed in ascending order: the one
/// with exactly `i` keys before it.
pub open spec fn nth_key(keys: Set<Seq<char>>, i: int) -> Option<Seq<char>> {
    if 0 <= i < keys.len() {
        Some(choose|k: Seq<char>| keys.contains(k) && rank(keys, k) == i)
    } else {
        None
    }
}

/// The key at position `i` of the bucket of `origin`, in ascending order.
pub open spec fn key_of(t: TableModel, origin: Seq<char>, i: int) -> Option<Seq<char>> {
    nth_key(bucket_of(t, origin).dom(), i)
}

/// What a write of `value` under `origin` and `name` replies: whether the
/// stored value changed, and the value it replaced when there was a different one.
pub open spec fn set_reply(t: TableModel, origin: Seq<char>, name: Seq<char>, value: Seq<char>) -> (
    bool,
    Option<Seq<char>>,
) {
    match value_of(t, origin, name) {
        None => (true, None),
        Some(prev) => if prev == value {
            (false, None)
        } else {
            (true, Some(prev))
        },
    }
}

/// The table after a write of `value` under `origin` and `name`; a write of the
/// value already stored leaves it as it was.
pub open spec fn after_set(t: TableModel, origin: Seq<char>, name: Seq<char>, value: Seq<char>) -> TableModel {
    if value_of(t, origin, name) == Some(value) {
        t
    } else {
        t.insert(origin, bucket_of(t, origin).insert(name, value))
    }
}

/// What a removal under `origin` and `name` replies: whether an entry went, and
/// its value.
pub open spec fn remove_reply(t: TableModel, origin: Seq<char>, name: Seq<char>) -> (
    bool,
    Option<Seq<char>>,
) {
    match value_of(t, origin, name) {
        None => (false, None),
        Some(prev) => (true, Some(prev)),
    }
}

/// The table after a removal under `origin` and `name`.
pub open spec fn after_remove(t: TableModel, origin: Seq<char>, name: Seq<char>) -> TableModel {
    if value_of(t, origin, name) is Some {
        t.insert(origin, t[origin].remove(name))
    } else {
        t
    }
}

/// What clearing `origin` replies: whether its bucket held anything.
pub open spec fn clear_reply(t: TableModel, origin: Seq<char>) -> bool {
    length_of(t, origin) > 0
}

/// The table after clearing `origin`: a non-empty bucket is emptied and kept.
pub open spec fn after_clear(t: TableModel, origin: Seq<char>) -> TableModel {
    if clear_reply(t, origin) {
        t.insert(origin, Map::empty())
    } else {
        t
    }
}

/// In a strictly ascending list of keys, the key at `j` has exactly `j` keys
/// of the list before it.
pub proof fn lemma_rank(ks: Seq<Seq<char>>, j: int)
    requires
        strictly_ascending(ks),
        0 <= j < ks.len(),
    ensures
        ks.to_set().contains(ks[j]),
        rank(ks.to_set(), ks[j]) == j,
{
    let before = ks.take(j);
    assert(ks.to_set().contains(ks[j])) by {
        assert(ks[j] == ks[j]);
    }
    let smaller = ks.to_set().filter(|x: Seq<char>| key_lt(x, ks[j]));
    assert(smaller =~= before.to_set()) by {
        assert forall|x: Seq<char>| #[trigger] smaller.contains(x) <==> before.to_set().contains(x) by {
            if smaller.contains(x) {
                let m = ks.index_of(x);
                if m >= j {
                    if m > j {
                        assert(key_lt(ks[j], ks[m]));
                        lemma_key_lt_asymmetric(ks[j], ks[m]);
                    } else {
                        lemma_key_lt_irreflexive(x);
                    }
                }
                assert(before[m] == x);
            }
            if before.to_set().contains(x) {
                let m = before.index_of(x);
                assert(ks[m] == x);
                assert(key_lt(ks[m], ks[j]));
            }
        }
    }
    assert(before.no_duplicates()) by {
        assert forall|a: int, b: int| 0 <= a < before.len() && 0 <= b < before.len() && a != b
            implies before[a] != before[b] by {
            if a < b {
                assert(key_lt(ks[a], ks[b]));
            } else {
                assert(key_lt(ks[b], ks[a]));
            }
            lemma_key_lt_irreflexive(ks[a]);
        }
    }
    before.unique_seq_to_set();
}

/// Listing a strictly ascending list's keys in ascending order gives the list back.
pub proof fn lemma_nth_key(ks: Seq<Seq<char>>, i: int)
    requires
        strictly_ascending(ks),
        0 <= i < ks.len(),
        ks.to_set().len() == ks.len(),
    ensures
        nth_key(ks.to_set(), i) == Some(ks[i]),
{
    lemma_rank(ks, i);
    let k = choose|k: Seq<char>| ks.to_set().contains(k) && rank(ks.to_set(), k) == i;
    let m = ks.index_of(k);
    lemma_rank(ks, m);
}

} // verus!
