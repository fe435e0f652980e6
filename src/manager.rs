//! The storage manager: sole owner of the table of buckets, answering one
//! request at a time.
use vstd::prelude::*;
use crate::assoc::{assoc_view, keys_of, lemma_entry, lemma_insert, lemma_update, search,
    strictly_ascending};
use crate::bucket::Bucket;
use crate::model::{
    after_clear, after_remove, after_set, bucket_of, clear_reply, key_of, length_of, opt_view,
    remove_reply, set_reply, value_of, TableModel,
};
use crate::order::{key_lt, lemma_key_lt_irreflexive};

verus! {

/// A request to the manager. Every request but `Exit` names the origin key
/// whose bucket it reads or changes.
pub enum StorageRequest {
    /// The number of keys.
    Length(String),
    /// The key at a position in ascending order.
    Key(String, usize),
    /// The value under a key.
    GetItem(String, String),
    /// Store a value under a key.
    SetItem(String, String, String),
    /// Remove the entry under a key.
    RemoveItem(String, String),
    /// Remove every entry.
    Clear(String),
    /// Stop serving requests.
    Exit,
}

/// The answer to a request, in the variant of the request's name.
pub enum StorageReply {
    Length(usize),
    Key(Option<String>),
    GetItem(Option<String>),
    /// Whether the stored value changed, and the different value it replaced.
    SetItem(bool, Option<String>),
    /// Whether an entry was removed, and its value.
    RemoveItem(bool, Option<String>),
    /// Whether the bucket held anything.
    Clear(bool),
}

/// `r` is the answer that `req` gets from a running manager holding `t`.
pub open spec fn answers(t: TableModel, req: StorageRequest, r: Option<StorageReply>) -> bool {
    match (req, r) {
        (StorageRequest::Length(o), Some(StorageReply::Length(n))) => n == length_of(t, o@),
        (StorageRequest::Key(o, i), Some(StorageReply::Key(k))) => opt_view(k) == key_of(t, o@, i as int),
        (StorageRequest::GetItem(o, k), Some(StorageReply::GetItem(v))) => opt_view(v) == value_of(t, o@, k@),
        (StorageRequest::SetItem(o, k, v), Some(StorageReply::SetItem(c, p))) => (c, opt_view(p))
            == set_reply(t, o@, k@, v@),
        (StorageRequest::RemoveItem(o, k), Some(StorageReply::RemoveItem(c, p))) => (c, opt_view(p))
            == remove_reply(t, o@, k@),
        (StorageRequest::Clear(o), Some(StorageReply::Clear(c))) => c == clear_reply(t, o@),
        (StorageRequest::Exit, None) => true,
        _ => false,
    }
}

/// The table after a running manager holding `t` serves `req`.
pub open spec fn after_request(t: TableModel, req: StorageRequest) -> TableModel {
    match req {
        StorageRequest::SetItem(o, k, v) => after_set(t, o@, k@, v@),
        StorageRequest::RemoveItem(o, k) => after_remove(t, o@, k@),
        StorageRequest::Clear(o) => after_clear(t, o@),
        _ => t,
    }
}

/// All storage state: a bucket per origin key that has been written, kept in
/// ascending order of origin key, and whether requests are still served.
pub struct StorageManager {
    data: Vec<(String, Bucket)>,
    running: bool,
}

impl View for StorageManager {
    type V = TableModel;

    closed spec fn view(&self) -> TableModel {
        assoc_view(self.data@)
    }
}

impl StorageManager {
    /// Origins ascend strictly and every bucket is well formed.
    pub closed spec fn wf(&self) -> bool {
        &&& strictly_ascending(keys_of(self.data@))
        &&& forall|i: int| 0 <= i < self.data@.len() ==> (#[trigger] self.data@[i]).1.wf()
    }

    /// Whether the manager is in its running state.
    pub closed spec fn running(&self) -> bool {
        self.running
    }

    /// A running manager with no buckets.
    pub fn new() -> (r: StorageManager)
        ensures
            r.wf(),
            r.running(),
            r@ == TableModel::empty(),
    {
        let r = StorageManager { data: Vec::new(), running: true };
        assert(r@ =~= TableModel::empty());
        r
    }

    /// Whether the manager still serves requests.
    pub fn is_running(&self) -> (r: bool)
        ensures
            r == self.running(),
    {
        self.running
    }

    /// Where `origin`'s bucket is (`Ok`), or where one would go (`Err`).
    fn locate(&self, origin: &str) -> (r: Result<usize, usize>)
        requires
            self.wf(),
        ensures
            match r {
                Ok(i) => {
                    &&& i < self.data.len()
                    &&& self.data@[i as int].0@ == origin@
                    &&& self@.contains_key(origin@)
                    &&& self@[origin@] == self.data@[i as int].1@
                },
                Err(p) => {
                    &&& !self@.contains_key(origin@)
                    &&& p <= self.data.len()
                    &&& forall|j: int| 0 <= j < p ==> key_lt(#[trigger] keys_of(self.data@)[j], origin@)
                    &&& forall|j: int|
                        p <= j < self.data.len() ==> key_lt(origin@, #[trigger] keys_of(self.data@)[j])
                },
            },
    {
        let r = search(&self.data, origin);
        proof {
            match r {
                Ok(i) => {
                    lemma_entry(self.data@, i as int);
                },
                Err(p) => {
                    let ks = keys_of(self.data@);
                    if ks.contains(origin@) {
                        let j = ks.index_of(origin@);
                        lemma_key_lt_irreflexive(origin@);
                        if j < p {
                            assert(key_lt(ks[j], origin@));
                        } else {
                            assert(key_lt(origin@, ks[j]));
                        }
                    }
                },
            }
        }
        r
    }

    /// Stores `value` under `name` in the bucket at position `i`.
    fn insert_at(&mut self, i: usize, name: String, value: String)
        requires
            old(self).wf(),
            i < old(self).data.len(),
        ensures
            final(self).wf(),
            final(self).running == old(self).running,
            final(self)@ == old(self)@.insert(
                old(self).data@[i as int].0@,
                old(self).data@[i as int].1@.insert(name@, value@),
            ),
    {
        let ghost s = self.data@;
        assert(s[i as int].1.wf());
        self.data[i].1.insert(name, value);
        proof {
            assert(self.data@ == s.update(i as int, (s[i as int].0, self.data@[i as int].1)));
            lemma_update(s, i as int, (s[i as int].0, self.data@[i as int].1));
            assert forall|j: int| 0 <= j < self.data@.len() implies (#[trigger] self.data@[j]).1.wf() by {
                if j != i {
                    assert(self.data@[j] == s[j]);
                }
            }
        }
    }

    /// The number of keys stored for `origin`; 0 where it has no bucket.
    pub fn length(&self, origin: &str) -> (r: usize)
        requires
            self.wf(),
        ensures
            r == length_of(self@, origin@),
    {
        match self.locate(origin) {
            Ok(i) => self.data[i].1.len(),
            Err(_) => 0,
        }
    }

    /// The key at position `index` of `origin`'s keys in ascending order; `None`
    /// where the index is out of range or the origin has no bucket.
    pub fn key(&self, origin: &str, index: usize) -> (r: Option<String>)
        requires
            self.wf(),
        ensures
            opt_view(r) == key_of(self@, origin@, index as int),
    {
        match self.locate(origin) {
            Ok(i) => self.data[i].1.key(index),
            Err(_) => {
                assert(bucket_of(self@, origin@).dom() =~= Set::<Seq<char>>::empty());
                None
            },
        }
    }

    /// The value stored for `origin` under `name`, if any.
    pub fn get_item(&self, origin: &str, name: &str) -> (r: Option<String>)
        requires
            self.wf(),
        ensures
            opt_view(r) == value_of(self@, origin@, name@),
    {
        match self.locate(origin) {
            Ok(i) => self.data[i].1.get(name),
            Err(_) => None,
        }
    }

    /// Stores `value` for `origin` under `name`, creating the origin's bucket
    /// where it has none. Replies whether the stored value changed and, when a
    /// different value was replaced, that value. Storing the value already
    /// there changes nothing and replies `(false, None)`.
    pub fn set_item(&mut self, origin: &str, name: String, value: String) -> (r: (bool, Option<String>))
        requires
            old(self).wf(),
        ensures
            final(self).wf(),
            final(self).running() == old(self).running(),
            (r.0, opt_view(r.1)) == set_reply(old(self)@, origin@, name@, value@),
            final(self)@ == after_set(old(self)@, origin@, name@, value@),
    {
        match self.locate(origin) {
            Ok(i) => {
                let prev = self.data[i].1.get(name.as_str());
                match prev {
                    Some(p) => {
                        if p == value {
                            (false, None)
                        } else {
                            self.insert_at(i, name, value);
                            (true, Some(p))
                        }
                    },
                    None => {
                        self.insert_at(i, name, value);
                        (true, None)
                    },
                }
            },
            Err(p) => {
                let ghost s = self.data@;
                let mut b = Bucket::new();
                b.insert(name, value);
                let key = origin.to_owned();
                proof {
                    lemma_insert(s, p as int, (key, b));
                }
                self.data.insert(p, (key, b));
                proof {
                    assert forall|j: int| 0 <= j < self.data@.len() implies (#[trigger] self.data@[j]).1.wf() by {
                        if j < p {
                            assert(self.data@[j] == s[j]);
                        } else if j > p {
                            assert(self.data@[j] == s[j - 1]);
                        }
                    }
                }
                (true, None)
            },
        }
    }

    /// Removes the entry under `name` for `origin`. Replies whether there was
    /// one and its value; an origin without a bucket gets none.
    pub fn remove_item(&mut self, origin: &str, name: &str) -> (r: (bool, Option<String>))
        requires
            old(self).wf(),
        ensures
            final(self).wf(),
            final(self).running() == old(self).running(),
            (r.0, opt_view(r.1)) == remove_reply(old(self)@, origin@, name@),
            final(self)@ == after_remove(old(self)@, origin@, name@),
    {
        match self.locate(origin) {
            Ok(i) => {
                let ghost s = self.data@;
                assert(s[i as int].1.wf());
                let prev = self.data[i].1.remove(name);
                proof {
                    assert(self.data@ == s.update(i as int, (s[i as int].0, self.data@[i as int].1)));
                    lemma_update(s, i as int, (s[i as int].0, self.data@[i as int].1));
                    assert forall|j: int| 0 <= j < self.data@.len() implies (#[trigger] self.data@[j]).1.wf() by {
                        if j != i {
                            assert(self.data@[j] == s[j]);
                        }
                    }
                    if prev is None {
                        assert(self.data@[i as int].1@ =~= s[i as int].1@);
                        lemma_entry(s, i as int);
                        assert(self@ =~= assoc_view(s));
                    }
                }
                match prev {
                    Some(v) => (true, Some(v)),
                    None => (false, None),
                }
            },
            Err(_) => (false, None),
        }
    }

    /// Empties `origin`'s bucket, keeping the bucket itself. Replies whether it
    /// held anything; an empty or missing bucket is left as it is.
    pub fn clear(&mut self, origin: &str) -> (r: bool)
        requires
            old(self).wf(),
        ensures
            final(self).wf(),
            final(self).running() == old(self).running(),
            r == clear_reply(old(self)@, origin@),
            final(self)@ == after_clear(old(self)@, origin@),
    {
        match self.locate(origin) {
            Ok(i) => {
                if self.data[i].1.is_empty() {
                    false
                } else {
                    let ghost s = self.data@;
                    assert(s[i as int].1.wf());
                    self.data[i].1.clear();
                    proof {
                        assert(self.data@ == s.update(i as int, (s[i as int].0, self.data@[i as int].1)));
                        lemma_update(s, i as int, (s[i as int].0, self.data@[i as int].1));
                        assert forall|j: int| 0 <= j < self.data@.len() implies (#[trigger] self.data@[j]).1.wf() by {
                            if j != i {
                                assert(self.data@[j] == s[j]);
                            }
                        }
                    }
                    true
                }
            },
            Err(_) => {
                assert(bucket_of(self@, origin@) =~= Map::<Seq<char>, Seq<char>>::empty());
                false
            },
        }
    }

    /// Serves one request. A running manager answers it as the operation of
    /// the same name does and moves to the stopped state on `Exit`, which gets
    /// no reply; a stopped manager answers nothing and changes nothing.
    pub fn handle(&mut self, req: StorageRequest) -> (r: Option<StorageReply>)
        requires
            old(self).wf(),
        ensures
            final(self).wf(),
            old(self).running() ==> {
                &&& answers(old(self)@, req, r)
                &&& final(self)@ == after_request(old(self)@, req)
                &&& final(self).running() == !(req is Exit)
            },
            !old(self).running() ==> r is None && final(self)@ == old(self)@ && !final(self).running(),
    {
        if !self.running {
            return None;
        }
        match req {
            StorageRequest::Length(origin) => Some(StorageReply::Length(self.length(origin.as_str()))),
            StorageRequest::Key(origin, index) => Some(StorageReply::Key(self.key(origin.as_str(), index))),
            StorageRequest::GetItem(origin, name) => Some(
                StorageReply::GetItem(self.get_item(origin.as_str(), name.as_str())),
            ),
            StorageRequest::SetItem(origin, name, value) => {
                let (changed, prev) = self.set_item(origin.as_str(), name, value);
                Some(StorageReply::SetItem(changed, prev))
            },
            StorageRequest::RemoveItem(origin, name) => {
                let (removed, prev) = self.remove_item(origin.as_str(), name.as_str());
                Some(StorageReply::RemoveItem(removed, prev))
            },
            StorageRequest::Clear(origin) => Some(StorageReply::Clear(self.clear(origin.as_str()))),
            StorageRequest::Exit => {
                self.running = false;
                None
            },
        }
    }

    /// However its keys were inserted, an origin's keys listed by position
    /// ascend strictly.
    pub proof fn lemma_keys_ascending(&self, origin: Seq<char>, i: int, j: int)
        requires
            self.wf(),
            0 <= i < j < length_of(self@, origin),
        ensures
            key_of(self@, origin, i) is Some,
            key_of(self@, origin, j) is Some,
            key_lt(key_of(self@, origin, i)->0, key_of(self@, origin, j)->0),
    {
        let ks = keys_of(self.data@);
        let k = ks.index_of(origin);
        assert(ks[k] == origin);
        lemma_entry(self.data@, k);
        self.data@[k].1.lemma_key_order(i, j);
    }

    /// The key at the position equal to an origin's length is `None`.
    pub proof fn lemma_key_past_end(&self, origin: Seq<char>)
        ensures
            key_of(self@, origin, length_of(self@, origin) as int) is None,
    {
    }
}

} // verus!
