//! Properties that hold of every table and every sequence of requests.
use vstd::prelude::*;
use crate::model::{
    after_clear, after_remove, after_set, bucket_of, clear_reply, length_of, remove_reply,
    set_reply, value_of, TableModel,
};

verus! {

/// Writes under one origin are never seen under another: storing, removing or
/// clearing under `a` leaves the bucket of every other origin `b`, and so every
/// value, length and key read there, as it was.
pub proof fn lemma_origins_isolated(
    t: TableModel,
    a: Seq<char>,
    b: Seq<char>,
    name: Seq<char>,
    value: Seq<char>,
    other: Seq<char>,
)
    requires
        a != b,
    ensures
        bucket_of(after_set(t, a, name, value), b) == bucket_of(t, b),
        bucket_of(after_remove(t, a, name), b) == bucket_of(t, b),
        bucket_of(after_clear(t, a), b) == bucket_of(t, b),
        value_of(after_set(t, a, name, value), b, other) == value_of(t, b, other),
{
}

/// Storing the same value twice: the second write changes nothing and replies
/// `(false, None)`, and the value stored afterwards is `value`. Where nothing
/// was stored under the name before, the first write replies `(true, None)`.
pub proof fn lemma_set_idempotent(t: TableModel, origin: Seq<char>, name: Seq<char>, value: Seq<char>)
    ensures
        value_of(t, origin, name) is None ==> set_reply(t, origin, name, value) == (
            true,
            None::<Seq<char>>,
        ),
        set_reply(after_set(t, origin, name, value), origin, name, value) == (
            false,
            None::<Seq<char>>,
        ),
        after_set(after_set(t, origin, name, value), origin, name, value) == after_set(
            t,
            origin,
            name,
            value,
        ),
        value_of(after_set(after_set(t, origin, name, value), origin, name, value), origin, name)
            == Some(value),
{
    lemma_set_then_get(t, origin, name, value);
}

/// After storing `value` under `origin` and `name`, reading it back gives `value`.
pub proof fn lemma_set_then_get(t: TableModel, origin: Seq<char>, name: Seq<char>, value: Seq<char>)
    ensures
        value_of(after_set(t, origin, name, value), origin, name) == Some(value),
{
}

/// Removing a name that holds no value replies `(false, None)` and leaves the
/// table, and so the set of origins with a bucket, as it was.
pub proof fn lemma_remove_absent(t: TableModel, origin: Seq<char>, name: Seq<char>)
    requires
        value_of(t, origin, name) is None,
    ensures
        remove_reply(t, origin, name) == (false, None::<Seq<char>>),
        after_remove(t, origin, name) == t,
{
}

/// Clearing an origin that was never written replies `false` and creates no
/// bucket; clearing a non-empty bucket replies `true` and leaves it with no keys.
pub proof fn lemma_clear(t: TableModel, origin: Seq<char>)
    ensures
        !t.contains_key(origin) ==> !clear_reply(t, origin) && after_clear(t, origin) == t,
        length_of(t, origin) > 0 ==> clear_reply(t, origin) && length_of(after_clear(t, origin), origin)
            == 0,
{
    assert(Map::<Seq<char>, Seq<char>>::empty().dom() =~= Set::<Seq<char>>::empty());
}

} // verus!
