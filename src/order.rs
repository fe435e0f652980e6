//! The order in which a bucket lists its keys.
use vstd::prelude::*;
use vstd::std_specs::iter::IteratorSpec;

verus! {

broadcast use {vstd::string::axiom_spec_iter, vstd::string::next_postcondition};

/// `a` orders strictly before `b`: at the first position where they differ
/// `a` holds the smaller Unicode scalar value, or `a` is a proper prefix of `b`.
/// This is the order of `str`'s `Ord`, which compares UTF-8 encodings.
pub open spec fn key_lt(a: Seq<char>, b: Seq<char>) -> bool
    decreases a.len(),
{
    if a.len() == 0 {
        b.len() > 0
    } else if b.len() == 0 {
        false
    } else if a[0] == b[0] {
        key_lt(a.drop_first(), b.drop_first())
    } else {
        (a[0] as int) < (b[0] as int)
    }
}

/// Outcome of comparing two keys.
pub enum KeyOrder {
    Less,
    Equal,
    Greater,
}

proof fn lemma_first_equal(a: Seq<char>, b: Seq<char>)
    requires
        a.len() > 0,
        b.len() > 0,
        a[0] == b[0],
    ensures
        (a == b) == (a.drop_first() == b.drop_first()),
{
    if a.drop_first() == b.drop_first() {
        assert(a =~= seq![a[0]] + a.drop_first());
        assert(b =~= seq![b[0]] + b.drop_first());
    }
}

/// Compares two keys in the order `key_lt`.
pub fn compare_keys(a: &str, b: &str) -> (r: KeyOrder)
    ensures
        (r is Less) == key_lt(a@, b@),
        (r is Equal) == (a@ == b@),
        (r is Greater) == key_lt(b@, a@),
{
    proof {
        lemma_key_lt_asymmetric(a@, b@);
        lemma_key_lt_total(a@, b@);
        lemma_key_lt_irreflexive(a@);
    }
    let mut x = a.chars();
    let mut y = b.chars();
    let ghost mut i: int = 0;
    loop
        invariant
            0 <= i <= a@.len(),
            i <= b@.len(),
            x.remaining() == a@.skip(i),
            y.remaining() == b@.skip(i),
            key_lt(a@, b@) == key_lt(a@.skip(i), b@.skip(i)),
            key_lt(b@, a@) == key_lt(b@.skip(i), a@.skip(i)),
            (a@ == b@) == (a@.skip(i) == b@.skip(i)),
        decreases a@.len() - i,
    {
        let ghost s = a@.skip(i);
        let ghost t = b@.skip(i);
        match x.next() {
            None => {
                match y.next() {
                    None => {
                        assert(s =~= t);
                        return KeyOrder::Equal;
                    },
                    Some(_) => {
                        return KeyOrder::Less;
                    },
                }
            },
            Some(c) => {
                match y.next() {
                    None => {
                        return KeyOrder::Greater;
                    },
                    Some(d) => {
                        if c < d {
                            return KeyOrder::Less;
                        } else if d < c {
                            return KeyOrder::Greater;
                        }
                        proof {
                            assert(c == d);
                            lemma_first_equal(s, t);
                            assert(s.drop_first() =~= a@.skip(i + 1));
                            assert(t.drop_first() =~= b@.skip(i + 1));
                            i = i + 1;
                        }
                    },
                }
            },
        }
    }
}

/// No key orders before itself.
pub proof fn lemma_key_lt_irreflexive(a: Seq<char>)
    ensures
        !key_lt(a, a),
    decreases a.len(),
{
    if a.len() > 0 {
        lemma_key_lt_irreflexive(a.drop_first());
    }
}

/// Of two keys, at most one orders before the other.
pub proof fn lemma_key_lt_asymmetric(a: Seq<char>, b: Seq<char>)
    ensures
        key_lt(a, b) ==> !key_lt(b, a),
    decreases a.len(),
{
    if a.len() > 0 && b.len() > 0 && a[0] == b[0] {
        lemma_key_lt_asymmetric(a.drop_first(), b.drop_first());
    }
}

/// Two distinct keys are ordered one way or the other.
pub proof fn lemma_key_lt_total(a: Seq<char>, b: Seq<char>)
    ensures
        a != b ==> key_lt(a, b) || key_lt(b, a),
    decreases a.len(),
{
    if a.len() == 0 {
        if b.len() == 0 {
            assert(a =~= b);
        }
    } else if b.len() > 0 && a[0] == b[0] {
        lemma_key_lt_total(a.drop_first(), b.drop_first());
        lemma_first_equal(a, b);
    }
}

/// The order is transitive.
pub proof fn lemma_key_lt_transitive(a: Seq<char>, b: Seq<char>, c: Seq<char>)
    requires
        key_lt(a, b),
        key_lt(b, c),
    ensures
        key_lt(a, c),
    decreases a.len(),
{
    if a.len() > 0 && b.len() > 0 && c.len() > 0 && a[0] == b[0] && b[0] == c[0] {
        lemma_key_lt_transitive(a.drop_first(), b.drop_first(), c.drop_first());
    }
}

} // verus!
