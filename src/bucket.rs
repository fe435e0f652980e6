//! One origin's bucket: its keys and values, kept in ascending key order.
use vstd::prelude::*;
use crate::assoc::{assoc_view, keys_of, lemma_entry, lemma_insert, lemma_remove, lemma_update,
    lemma_view_len, search, strictly_ascending};
use crate::order::{key_lt, lemma_key_lt_irreflexive};
use crate::model::{nth_key, opt_view, lemma_nth_key, BucketModel};

verus! {

/// The entries stored for one origin.
pub struct Bucket {
    entries: Vec<(String, String)>,
}

impl View for Bucket {
    type V = BucketModel;

    closed spec fn view(&self) -> BucketModel {
        assoc_view(self.entries@)
    }
}

impl Bucket {
    /// The entries ascend strictly by key.
    pub closed spec fn wf(&self) -> bool {
        strictly_ascending(keys_of(self.entries@))
    }

    /// An empty bucket.
    pub fn new() -> (r: Bucket)
        ensures
            r.wf(),
            r@ == Map::<Seq<char>, Seq<char>>::empty(),
    {
        let r = Bucket { entries: Vec::new() };
        assert(r@ =~= Map::<Seq<char>, Seq<char>>::empty());
        r
    }

    /// The number of keys.
    pub fn len(&self) -> (r: usize)
        requires
            self.wf(),
        ensures
            r == self@.len(),
    {
        proof {
            lemma_view_len(self.entries@);
        }
        self.entries.len()
    }

    /// Whether the bucket holds no key.
    pub fn is_empty(&self) -> (r: bool)
        requires
            self.wf(),
        ensures
            r == (self@.len() == 0),
    {
        proof {
            lemma_view_len(self.entries@);
        }
        self.entries.len() == 0
    }

    /// The key at position `index` in ascending order, if there is one.
    pub fn key(&self, index: usize) -> (r: Option<String>)
        requires
            self.wf(),
        ensures
            opt_view(r) == nth_key(self@.dom(), index as int),
    {
        let ghost ks = keys_of(self.entries@);
        proof {
            lemma_view_len(self.entries@);
        }
        if index < self.entries.len() {
            proof {
                lemma_nth_key(ks, index as int);
                assert(ks[index as int] == self.entries@[index as int].0@);
            }
            Some(self.entries[index].0.clone())
        } else {
            None
        }
    }

    /// The value stored under `name`, if any.
    pub fn get(&self, name: &str) -> (r: Option<String>)
        requires
            self.wf(),
        ensures
            opt_view(r) == (if self@.contains_key(name@) {
                Some(self@[name@])
            } else {
                None::<Seq<char>>
            }),
    {
        match search(&self.entries, name) {
            Ok(i) => {
                proof {
                    lemma_entry(self.entries@, i as int);
                }
                Some(self.entries[i].1.clone())
            },
            Err(p) => {
                proof {
                    self.lemma_absent(name@, p as int);
                }
                None
            },
        }
    }

    proof fn lemma_absent(&self, name: Seq<char>, p: int)
        requires
            self.wf(),
            0 <= p <= self.entries.len(),
            forall|j: int| 0 <= j < p ==> key_lt(#[trigger] keys_of(self.entries@)[j], name),
            forall|j: int|
                p <= j < self.entries.len() ==> key_lt(name, #[trigger] keys_of(self.entries@)[j]),
        ensures
            !self@.contains_key(name),
    {
        let ks = keys_of(self.entries@);
        if ks.contains(name) {
            let j = ks.index_of(name);
            lemma_key_lt_irreflexive(name);
            if j < p {
                assert(key_lt(ks[j], name));
            } else {
                assert(key_lt(name, ks[j]));
            }
        }
    }

    /// Stores `value` under `name`, replacing what was there.
    pub fn insert(&mut self, name: String, value: String)
        requires
            old(self).wf(),
        ensures
            final(self).wf(),
            final(self)@ == old(self)@.insert(name@, value@),
    {
        match search(&self.entries, name.as_str()) {
            Ok(i) => {
                proof {
                    lemma_update(self.entries@, i as int, (name, value));
                }
                self.entries.set(i, (name, value));
            },
            Err(p) => {
                proof {
                    lemma_insert(self.entries@, p as int, (name, value));
                }
                self.entries.insert(p, (name, value));
            },
        }
    }

    /// Removes the entry under `name`, returning its value if there was one.
    pub fn remove(&mut self, name: &str) -> (r: Option<String>)
        requires
            old(self).wf(),
        ensures
            final(self).wf(),
            final(self)@ == old(self)@.remove(name@),
            opt_view(r) == (if old(self)@.contains_key(name@) {
                Some(old(self)@[name@])
            } else {
                None::<Seq<char>>
            }),
    {
        match search(&self.entries, name) {
            Ok(i) => {
                proof {
                    lemma_entry(self.entries@, i as int);
                    lemma_remove(self.entries@, i as int);
                }
                let (_, value) = self.entries.remove(i);
                Some(value)
            },
            Err(p) => {
                proof {
                    self.lemma_absent(name@, p as int);
                    assert(self@.remove(name@) =~= self@);
                }
                None
            },
        }
    }

    /// Removes every entry.
    pub fn clear(&mut self)
        requires
            old(self).wf(),
        ensures
            final(self).wf(),
            final(self)@ == Map::<Seq<char>, Seq<char>>::empty(),
    {
        self.entries.clear();
        assert(self@ =~= Map::<Seq<char>, Seq<char>>::empty());
    }

    /// Listed by position, the keys ascend strictly.
    pub proof fn lemma_key_order(&self, i: int, j: int)
        requires
            self.wf(),
            0 <= i < j < self@.len(),
        ensures
            nth_key(self@.dom(), i) is Some,
            nth_key(self@.dom(), j) is Some,
            key_lt(nth_key(self@.dom(), i)->0, nth_key(self@.dom(), j)->0),
    {
        let ks = keys_of(self.entries@);
        lemma_view_len(self.entries@);
        lemma_nth_key(ks, i);
        lemma_nth_key(ks, j);
    }
}

} // verus!
