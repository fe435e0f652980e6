//! Association lists kept in ascending key order: a `Vec` of `(key, value)`
//! pairs whose keys strictly ascend, read as a finite map.
use vstd::prelude::*;
use crate::order::{compare_keys, key_lt, lemma_key_lt_irreflexive, lemma_key_lt_transitive, KeyOrder};

verus! {

/// The keys of an association list, in list order.
pub open spec fn keys_of<V>(s: Seq<(String, V)>) -> Seq<Seq<char>> {
    s.map_values(|e: (String, V)| e.0@)
}

/// Each key orders strictly before every key after it.
pub open spec fn strictly_ascending(ks: Seq<Seq<char>>) -> bool {
    forall|i: int, j: int| 0 <= i < j < ks.len() ==> key_lt(#[trigger] ks[i], #[trigger] ks[j])
}

/// The map that an association list stands for.
pub open spec fn assoc_view<V: View>(s: Seq<(String, V)>) -> Map<Seq<char>, V::V> {
    Map::new(
        |k: Seq<char>| keys_of(s).contains(k),
        |k: Seq<char>| s[keys_of(s).index_of(k)].1@,
    )
}

/// In an ascending list, the entry at `i` is what the map holds under its key.
pub proof fn lemma_entry<V: View>(s: Seq<(String, V)>, i: int)
    requires
        strictly_ascending(keys_of(s)),
        0 <= i < s.len(),
    ensures
        assoc_view(s).contains_key(s[i].0@),
        assoc_view(s)[s[i].0@] == s[i].1@,
{
    let ks = keys_of(s);
    let k = s[i].0@;
    assert(ks[i] == k);
    assert(ks.contains(k));
    let j = ks.index_of(k);
    if j < i {
        assert(key_lt(ks[j], ks[i]));
        lemma_key_lt_irreflexive(k);
    } else if i < j {
        assert(key_lt(ks[i], ks[j]));
        lemma_key_lt_irreflexive(k);
    }
}

/// An ascending list stands for `m` when each entry is in `m` and each key of
/// `m` is in the list.
pub proof fn lemma_view_is<V: View>(s: Seq<(String, V)>, m: Map<Seq<char>, V::V>)
    requires
        strictly_ascending(keys_of(s)),
        forall|i: int|
            0 <= i < s.len() ==> #[trigger] m.contains_key(s[i].0@) && m[s[i].0@] == s[i].1@,
        forall|k: Seq<char>| #[trigger] m.contains_key(k) ==> keys_of(s).contains(k),
    ensures
        assoc_view(s) == m,
{
    let v = assoc_view(s);
    assert forall|k: Seq<char>| #[trigger] v.contains_key(k) implies m.contains_key(k) && v[k] == m[k] by {
        let i = keys_of(s).index_of(k);
        assert(keys_of(s)[i] == k);
        lemma_entry(s, i);
        assert(m.contains_key(s[i].0@));
    }
    assert(v =~= m);
}

/// An ascending list has no repeated key and stands for a finite map with one
/// key per entry.
pub proof fn lemma_view_len<V: View>(s: Seq<(String, V)>)
    requires
        strictly_ascending(keys_of(s)),
    ensures
        keys_of(s).no_duplicates(),
        assoc_view(s).dom() == keys_of(s).to_set(),
        assoc_view(s).dom().finite(),
        assoc_view(s).len() == s.len(),
{
    let ks = keys_of(s);
    assert forall|i: int, j: int| 0 <= i < ks.len() && 0 <= j < ks.len() && i != j implies ks[i]
        != ks[j] by {
        if i < j {
            assert(key_lt(ks[i], ks[j]));
        } else {
            assert(key_lt(ks[j], ks[i]));
        }
        lemma_key_lt_irreflexive(ks[i]);
    }
    assert(assoc_view(s).dom() =~= ks.to_set());
    ks.unique_seq_to_set();
    vstd::seq_lib::seq_to_set_is_finite(ks);
}

/// Looks `name` up by binary search: `Ok` with its position, or `Err` with the
/// position where it would be inserted to keep the keys ascending.
pub fn search<V>(entries: &Vec<(String, V)>, name: &str) -> (r: Result<usize, usize>)
    requires
        strictly_ascending(keys_of(entries@)),
    ensures
        match r {
            Ok(i) => i < entries.len() && entries@[i as int].0@ == name@,
            Err(p) => {
                &&& p <= entries.len()
                &&& forall|j: int| 0 <= j < p ==> key_lt(#[trigger] keys_of(entries@)[j], name@)
                &&& forall|j: int|
                    p <= j < entries.len() ==> key_lt(name@, #[trigger] keys_of(entries@)[j])
            },
        },
{
    let ghost ks = keys_of(entries@);
    let mut lo: usize = 0;
    let mut hi: usize = entries.len();
    while lo < hi
        invariant
            ks == keys_of(entries@),
            strictly_ascending(ks),
            lo <= hi <= entries.len(),
            forall|j: int| 0 <= j < lo ==> key_lt(#[trigger] ks[j], name@),
            forall|j: int| hi <= j < entries.len() ==> key_lt(name@, #[trigger] ks[j]),
        decreases hi - lo,
    {
        let mid = lo + (hi - lo) / 2;
        assert(ks[mid as int] == entries@[mid as int].0@);
        match compare_keys(entries[mid].0.as_str(), name) {
            KeyOrder::Equal => {
                return Ok(mid);
            },
            KeyOrder::Less => {
                assert forall|j: int| 0 <= j <= mid implies key_lt(#[trigger] ks[j], name@) by {
                    if j < mid {
                        lemma_key_lt_transitive(ks[j], ks[mid as int], name@);
                    }
                }
                lo = mid + 1;
            },
            KeyOrder::Greater => {
                assert forall|j: int| mid <= j < entries.len() implies key_lt(
                    name@,
                    #[trigger] ks[j],
                ) by {
                    if mid < j {
                        lemma_key_lt_transitive(name@, ks[mid as int], ks[j]);
                    }
                }
                hi = mid;
            },
        }
    }
    Err(lo)
}

/// Inserting a new key at the position that `search` gave keeps the list
/// ascending and adds the entry to the map.
pub proof fn lemma_insert<V: View>(s: Seq<(String, V)>, p: int, e: (String, V))
    requires
        strictly_ascending(keys_of(s)),
        0 <= p <= s.len(),
        forall|j: int| 0 <= j < p ==> key_lt(#[trigger] keys_of(s)[j], e.0@),
        forall|j: int| p <= j < s.len() ==> key_lt(e.0@, #[trigger] keys_of(s)[j]),
    ensures
        strictly_ascending(keys_of(s.insert(p, e))),
        assoc_view(s.insert(p, e)) == assoc_view(s).insert(e.0@, e.1@),
{
    let t = s.insert(p, e);
    let ks = keys_of(s);
    let kt = keys_of(t);
    assert forall|i: int, j: int| 0 <= i < j < kt.len() implies key_lt(
        #[trigger] kt[i],
        #[trigger] kt[j],
    ) by {
        if j < p {
            assert(key_lt(ks[i], ks[j]));
        } else if j == p {
            assert(key_lt(ks[i], e.0@));
        } else if i < p {
            assert(key_lt(ks[i], e.0@));
            assert(key_lt(e.0@, ks[j - 1]));
            lemma_key_lt_transitive(ks[i], e.0@, ks[j - 1]);
        } else if i == p {
            assert(key_lt(e.0@, ks[j - 1]));
        } else {
            assert(key_lt(ks[i - 1], ks[j - 1]));
        }
    }
    let m = assoc_view(s).insert(e.0@, e.1@);
    assert forall|i: int| 0 <= i < t.len() implies #[trigger] m.contains_key(t[i].0@) && m[t[i].0@]
        == t[i].1@ by {
        if i < p {
            lemma_entry(s, i);
            assert(key_lt(ks[i], e.0@));
            lemma_key_lt_irreflexive(e.0@);
        } else if i > p {
            lemma_entry(s, i - 1);
            assert(key_lt(e.0@, ks[i - 1]));
            lemma_key_lt_irreflexive(e.0@);
        }
    }
    assert forall|k: Seq<char>| #[trigger] m.contains_key(k) implies kt.contains(k) by {
        if k == e.0@ {
            assert(kt[p] == k);
        } else {
            let i = ks.index_of(k);
            if i < p {
                assert(kt[i] == k);
            } else {
                assert(kt[i + 1] == k);
            }
        }
    }
    lemma_view_is(t, m);
}

/// Replacing the value of the entry at `i` keeps the list ascending and
/// replaces the value under its key.
pub proof fn lemma_update<V: View>(s: Seq<(String, V)>, i: int, e: (String, V))
    requires
        strictly_ascending(keys_of(s)),
        0 <= i < s.len(),
        e.0@ == s[i].0@,
    ensures
        strictly_ascending(keys_of(s.update(i, e))),
        assoc_view(s.update(i, e)) == assoc_view(s).insert(e.0@, e.1@),
{
    let t = s.update(i, e);
    let ks = keys_of(s);
    assert(keys_of(t) =~= ks);
    let m = assoc_view(s).insert(e.0@, e.1@);
    assert forall|j: int| 0 <= j < t.len() implies #[trigger] m.contains_key(t[j].0@) && m[t[j].0@]
        == t[j].1@ by {
        if j != i {
            lemma_entry(s, j);
            if j < i {
                assert(key_lt(ks[j], ks[i]));
            } else {
                assert(key_lt(ks[i], ks[j]));
            }
            lemma_key_lt_irreflexive(ks[j]);
        }
    }
    assert forall|k: Seq<char>| #[trigger] m.contains_key(k) implies keys_of(t).contains(k) by {
        if k == e.0@ {
            assert(keys_of(t)[i] == k);
        } else {
            let j = ks.index_of(k);
            assert(keys_of(t)[j] == k);
        }
    }
    lemma_view_is(t, m);
}

/// Removing the entry at `i` keeps the list ascending and removes its key from
/// the map.
pub proof fn lemma_remove<V: View>(s: Seq<(String, V)>, i: int)
    requires
        strictly_ascending(keys_of(s)),
        0 <= i < s.len(),
    ensures
        strictly_ascending(keys_of(s.remove(i))),
        assoc_view(s.remove(i)) == assoc_view(s).remove(s[i].0@),
{
    let t = s.remove(i);
    let ks = keys_of(s);
    let kt = keys_of(t);
    assert forall|a: int, b: int| 0 <= a < b < kt.len() implies key_lt(
        #[trigger] kt[a],
        #[trigger] kt[b],
    ) by {
        let a2 = if a < i { a } else { a + 1 };
        let b2 = if b < i { b } else { b + 1 };
        assert(key_lt(ks[a2], ks[b2]));
    }
    let m = assoc_view(s).remove(s[i].0@);
    assert forall|j: int| 0 <= j < t.len() implies #[trigger] m.contains_key(t[j].0@) && m[t[j].0@]
        == t[j].1@ by {
        let j2 = if j < i { j } else { j + 1 };
        lemma_entry(s, j2);
        if j2 < i {
            assert(key_lt(ks[j2], ks[i]));
        } else {
            assert(key_lt(ks[i], ks[j2]));
        }
        lemma_key_lt_irreflexive(ks[i]);
    }
    assert forall|k: Seq<char>| #[trigger] m.contains_key(k) implies kt.contains(k) by {
        let j = ks.index_of(k);
        if j < i {
            assert(kt[j] == k);
        } else {
            assert(j != i);
            assert(kt[j - 1] == k);
        }
    }
    lemma_view_is(t, m);
}

} // verus!
