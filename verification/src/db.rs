//! The key-value store that commands read and change.
use crate::buffers::{bytes_as_slice, bytes_seq};
use crate::text::slice_eq;
use bytes::Bytes;
use std::collections::VecDeque;
use vstd::prelude::*;

verus! {

/// A stored value.
#[derive(Debug)]
pub enum Value {
    String(Bytes),
    List(VecDeque<Bytes>),
    Members(Vec<Bytes>),
    Hash(Vec<(Bytes, Bytes)>),
}

/// A stored value as a mathematical value.
pub enum SpecValue {
    Str(Seq<u8>),
    List(Seq<Seq<u8>>),
    Members(Set<Seq<u8>>),
    Fields(Map<Seq<u8>, Seq<u8>>),
}

/// The contents of a sequence of `Bytes`.
pub open spec fn bytes_seqs(s: Seq<Bytes>) -> Seq<Seq<u8>> {
    Seq::new(s.len(), |i: int| bytes_seq(s[i]))
}

/// The keys of a sequence of pairs.
pub open spec fn pair_keys<V>(s: Seq<(Bytes, V)>) -> Seq<Seq<u8>> {
    Seq::new(s.len(), |i: int| bytes_seq(s[i].0))
}

impl View for Value {
    type V = SpecValue;

    open spec fn view(&self) -> SpecValue {
        match self {
            Value::String(b) => SpecValue::Str(bytes_seq(*b)),
            Value::List(items) => SpecValue::List(bytes_seqs(items@)),
            Value::Members(members) => SpecValue::Members(bytes_seqs(members@).to_set()),
            Value::Hash(fields) => SpecValue::Fields(
                Map::new(
                    |k: Seq<u8>| pair_keys(fields@).contains(k),
                    |k: Seq<u8>| bytes_seq(fields@[pair_keys(fields@).index_of(k)].1),
                ),
            ),
        }
    }
}

impl Value {
    /// Internal consistency: a set holds each member once, a hash each field once.
    pub open spec fn wf(&self) -> bool {
        match self {
            Value::String(_) => true,
            Value::List(_) => true,
            Value::Members(members) => bytes_seqs(members@).no_duplicates(),
            Value::Hash(fields) => pair_keys(fields@).no_duplicates(),
        }
    }
}

/// The store: each key at most once, with its value.
pub struct Db {
    data: Vec<(Bytes, Value)>,
}

impl Default for Db {
    /// An empty store.
    fn default() -> (db: Db)
        ensures
            db@ == Map::<Seq<u8>, SpecValue>::empty(),
            db@.dom().finite(),
    {
        Db::new()
    }
}

impl View for Db {
    /// The map from keys to values.
    type V = Map<Seq<u8>, SpecValue>;

    closed spec fn view(&self) -> Map<Seq<u8>, SpecValue> {
        Map::new(
            |k: Seq<u8>| pair_keys(self.data@).contains(k),
            |k: Seq<u8>| self.data@[pair_keys(self.data@).index_of(k)].1@,
        )
    }
}

impl Db {
    /// Internal consistency: no key occurs twice, and every value is consistent.
    #[verifier::type_invariant]
    closed spec fn wf(&self) -> bool {
        &&& pair_keys(self.data@).no_duplicates()
        &&& forall|i: int| 0 <= i < self.data@.len() ==> (#[trigger] self.data@[i]).1.wf()
    }

    /// A store holds finitely many keys.
    pub proof fn lemma_view_finite(&self)
        ensures
            self@.dom().finite(),
    {
        assert(self@.dom() =~= pair_keys(self.data@).to_set());
        vstd::seq_lib::seq_to_set_is_finite(pair_keys(self.data@));
    }

    /// An empty store.
    pub fn new() -> (db: Db)
        ensures
            db@ == Map::<Seq<u8>, SpecValue>::empty(),
            db@.dom().finite(),
    {
        let db = Db { data: Vec::new() };
        assert(db@ =~= Map::<Seq<u8>, SpecValue>::empty());
        db
    }

    /// The position of `key` among the entries, if it is there.
    fn find(&self, key: &[u8]) -> (r: Option<usize>)
        ensures
            match r {
                Some(i) => i < self.data@.len() && pair_keys(self.data@)[i as int] == key@
                    && pair_keys(self.data@).index_of(key@) == i,
                None => !pair_keys(self.data@).contains(key@),
            },
    {
        proof {
            use_type_invariant(self);
        }
        let mut i: usize = 0;
        while i < self.data.len()
            invariant
                i <= self.data@.len(),
                pair_keys(self.data@).no_duplicates(),
                forall|j: int| 0 <= j < i ==> pair_keys(self.data@)[j] != key@,
            decreases self.data@.len() - i,
        {
            if slice_eq(bytes_as_slice(&self.data[i].0), key) {
                proof {
                    let ks = pair_keys(self.data@);
                    assert(ks[i as int] == key@);
                    assert(ks.contains(key@));
                    assert(ks.index_of(key@) == i) by {
                        let j = ks.index_of(key@);
                        if j != i {
                            assert(ks[j] == ks[i as int]);
                        }
                    }
                }
                return Some(i);
            }
            i = i + 1;
        }
        None
    }

    /// The value stored under `key`.
    pub fn get(&self, key: &[u8]) -> (r: Option<&Value>)
        ensures
            match r {
                Some(v) => self@.contains_key(key@) && v@ == self@[key@] && v.wf(),
                None => !self@.contains_key(key@),
            },
    {
        proof {
            use_type_invariant(self);
        }
        match self.find(key) {
            Some(i) => Some(&self.data[i].1),
            None => None,
        }
    }

    /// Stores `value` under `key`, in place of any value it had.
    pub fn insert(&mut self, key: Bytes, value: Value)
        requires
            value.wf(),
        ensures
            final(self)@ == old(self)@.insert(bytes_seq(key), value@),
            final(self)@.dom().finite(),
    {
        proof {
            use_type_invariant(&*self);
        }
        let ghost k = bytes_seq(key);
        let ghost v = value@;
        let found = self.find(bytes_as_slice(&key));
        let mut data: Vec<(Bytes, Value)> = Vec::new();
        std::mem::swap(&mut data, &mut self.data);
        match found {
            Some(i) => {
                data.set(i, (key, value));
                proof {
                    assert(pair_keys(data@) =~= pair_keys(old(self).data@));
                    assert forall|j: int| 0 <= j < data@.len() implies (#[trigger] data@[j]).1.wf() by {
                        if j != i {
                            assert(data@[j] == old(self).data@[j]);
                        }
                    }
                }
                self.data = data;
                proof {
                    assert(self@ =~= old(self)@.insert(k, v));
                }
            },
            None => {
                data.push((key, value));
                let ghost ks0 = pair_keys(old(self).data@);
                let ghost ks = pair_keys(data@);
                proof {
                    assert(ks =~= ks0.push(k));
                    assert(ks[ks0.len() as int] == k);
                    assert(ks.no_duplicates()) by {
                        assert forall|a: int, b: int|
                            0 <= a < ks.len() && 0 <= b < ks.len() && a != b implies ks[a] != ks[b] by {
                            if a == ks0.len() {
                                assert(ks[b] == ks0[b]);
                            } else if b == ks0.len() {
                                assert(ks[a] == ks0[a]);
                            }
                        }
                    }
                    assert forall|j: int| 0 <= j < data@.len() implies (#[trigger] data@[j]).1.wf() by {
                        if j < ks0.len() {
                            assert(data@[j] == old(self).data@[j]);
                        }
                    }
                }
                self.data = data;
                proof {
                    assert forall|kk: Seq<u8>| #[trigger] ks0.contains(kk) implies ks.index_of(kk)
                        == ks0.index_of(kk) by {
                        let j0 = ks0.index_of(kk);
                        assert(ks[j0] == kk);
                        assert(ks.contains(kk));
                    }
                    assert(ks.contains(k));
                    assert(ks.index_of(k) == ks0.len()) by {
                        assert(ks.contains(k));
                    }
                    assert forall|kk: Seq<u8>| ks.contains(kk) == (ks0.contains(kk) || kk == k) by {
                        if ks.contains(kk) && kk != k {
                            let j = choose|j: int| 0 <= j < ks.len() && ks[j] == kk;
                            assert(ks0[j] == kk);
                        }
                        if ks0.contains(kk) {
                            let j = choose|j: int| 0 <= j < ks0.len() && ks0[j] == kk;
                            assert(ks[j] == kk);
                        }
                    }
                    assert(self@.dom() =~= old(self)@.insert(k, v).dom());
                    assert forall|kk: Seq<u8>| #[trigger] self@.contains_key(kk) implies self@[kk]
                        == old(self)@.insert(k, v)[kk] by {
                        if kk != k {
                            assert(ks0.contains(kk));
                            let j0 = ks0.index_of(kk);
                            assert(self.data@[j0] == old(self).data@[j0]);
                        }
                    }
                    assert(self@ =~= old(self)@.insert(k, v));
                }
            },
        }
        proof {
            self.lemma_view_finite();
        }
    }

    /// The number of keys.
    pub fn len(&self) -> (n: usize)
        ensures
            n == self@.len(),
            self@.dom().finite(),
    {
        proof {
            use_type_invariant(self);
            let ks = pair_keys(self.data@);
            ks.unique_seq_to_set();
            assert(self@.dom() =~= ks.to_set());
            self.lemma_view_finite();
        }
        self.data.len()
    }
}

} // verus!
