//! Typed key/value tables over encoded keys, and single-value cells.

use vstd::prelude::*;
use crate::codec::{
    cbor_uint, cbor_unit, encode_key, encode_unit_key, lemma_lex_total, lemma_lex_trans, lex_lt, StoreError,
};

verus! {

/// Whether two byte strings are equal.
fn bytes_eq(a: &Vec<u8>, b: &Vec<u8>) -> (r: bool)
    ensures
        r == (a@ == b@),
{
    if a.len() != b.len() {
        return false;
    }
    let mut i: usize = 0;
    while i < a.len()
        invariant
            a@.len() == b@.len(),
            0 <= i <= a@.len(),
            forall|j: int| 0 <= j < i ==> a@[j] == b@[j],
        decreases a@.len() - i,
    {
        if a[i] != b[i] {
            return false;
        }
        i = i + 1;
    }
    assert(a@ =~= b@);
    true
}

/// Whether `a` comes before `b` in byte order.
fn bytes_lt(a: &Vec<u8>, b: &Vec<u8>) -> (r: bool)
    ensures
        r == lex_lt(a@, b@),
{
    let mut i: usize = 0;
    assert(a@.skip(0) =~= a@);
    assert(b@.skip(0) =~= b@);
    while i < a.len() && i < b.len()
        invariant
            0 <= i <= a@.len(),
            i <= b@.len(),
            lex_lt(a@, b@) == lex_lt(a@.skip(i as int), b@.skip(i as int)),
        decreases a@.len() - i,
    {
        if a[i] != b[i] {
            assert(a@.skip(i as int)[0] == a@[i as int]);
            assert(b@.skip(i as int)[0] == b@[i as int]);
            return a[i] < b[i];
        }
        assert(a@.skip(i as int).drop_first() =~= a@.skip(i + 1));
        assert(b@.skip(i as int).drop_first() =~= b@.skip(i + 1));
        i = i + 1;
    }
    i < b.len()
}

/// A namespaced table from encoded keys to values.
///
/// Rows hold distinct keys; `contents` is the mapping they represent.
pub struct KeyValueDb<V> {
    namespace: String,
    rows: Vec<(Vec<u8>, V)>,
    contents: Ghost<Map<Seq<u8>, V>>,
}

impl<V> View for KeyValueDb<V> {
    type V = Map<Seq<u8>, V>;

    closed spec fn view(&self) -> Map<Seq<u8>, V> {
        self.contents@
    }
}

impl<V> KeyValueDb<V> {
    /// The encoded key of row `i`.
    pub closed spec fn key_at(&self, i: int) -> Seq<u8> {
        self.rows@[i].0@
    }

    /// The value of row `i`.
    pub closed spec fn value_at(&self, i: int) -> V {
        self.rows@[i].1
    }

    /// The number of rows, one per key.
    pub closed spec fn len(&self) -> nat {
        self.rows@.len()
    }

    /// The namespace that the table was opened under.
    pub closed spec fn namespace(&self) -> Seq<char> {
        self.namespace@
    }

    pub closed spec fn wf(&self) -> bool {
        &&& forall|i: int, j: int|
            0 <= i < j < self.rows@.len() ==> lex_lt(#[trigger] self.rows@[i].0@, #[trigger] self.rows@[j].0@)
        &&& forall|i: int|
            0 <= i < self.rows@.len() ==> self.contents@.contains_key(#[trigger] self.rows@[i].0@)
                && self.contents@[self.rows@[i].0@] == self.rows@[i].1
        &&& forall|k: Seq<u8>|
            #[trigger] self.contents@.contains_key(k) ==> exists|i: int|
                0 <= i < self.rows@.len() && self.rows@[i].0@ == k
    }

    /// The rows are exactly the entries of the table, each key once, in
    /// ascending byte order of keys.
    pub proof fn lemma_rows(&self)
        requires
            self.wf(),
        ensures
            forall|i: int, j: int|
                0 <= i < j < self.len() ==> lex_lt(#[trigger] self.key_at(i), #[trigger] self.key_at(j)),
            forall|i: int, j: int|
                0 <= i < j < self.len() ==> #[trigger] self.key_at(i) != #[trigger] self.key_at(j),
            forall|i: int|
                0 <= i < self.len() ==> self@.contains_key(#[trigger] self.key_at(i))
                    && self@[self.key_at(i)] == self.value_at(i),
            forall|k: Seq<u8>|
                #[trigger] self@.contains_key(k) ==> exists|i: int|
                    0 <= i < self.len() && self.key_at(i) == k,
    {
        assert forall|k: Seq<u8>| #[trigger] self@.contains_key(k) implies exists|i: int|
            0 <= i < self.len() && self.key_at(i) == k by {
            let i = choose|i: int| 0 <= i < self.rows@.len() && self.rows@[i].0@ == k;
            assert(self.key_at(i) == k);
        }
        assert forall|i: int, j: int| 0 <= i < j < self.len() implies #[trigger] self.key_at(i)
            != #[trigger] self.key_at(j) by {
            lemma_lex_total(self.key_at(i), self.key_at(j));
        }
    }

    /// Deletes row `i` and its entry.
    fn remove_row(&mut self, i: usize)
        requires
            old(self).wf(),
            i < old(self).rows@.len(),
        ensures
            final(self).wf(),
            final(self)@ == old(self)@.remove(old(self).rows@[i as int].0@),
            final(self).namespace() == old(self).namespace(),
    {
        let ghost k = self.rows@[i as int].0@;
        let ghost pre = self.rows@;
        self.rows.remove(i);
        self.contents = Ghost(self.contents@.remove(k));
        proof {
            assert forall|q: Seq<u8>| #[trigger] self.contents@.contains_key(q) implies exists|j: int|
                0 <= j < self.rows@.len() && self.rows@[j].0@ == q by {
                let j = choose|j: int| 0 <= j < pre.len() && pre[j].0@ == q;
                assert(j != i);
                if j < i {
                    assert(self.rows@[j] == pre[j]);
                } else {
                    assert(self.rows@[j - 1] == pre[j]);
                }
            }
            assert forall|a: int, b: int|
                0 <= a < b < self.rows@.len() implies lex_lt(#[trigger] self.rows@[a].0@, #[trigger] self.rows@[b].0@) by {
                let a0 = if a < i { a } else { a + 1 };
                let b0 = if b < i { b } else { b + 1 };
                assert(self.rows@[a] == pre[a0]);
                assert(self.rows@[b] == pre[b0]);
            }
            assert forall|a: int| 0 <= a < self.rows@.len() implies self.contents@.contains_key(
                #[trigger] self.rows@[a].0@) && self.contents@[self.rows@[a].0@] == self.rows@[a].1 by {
                let a0 = if a < i { a } else { a + 1 };
                assert(self.rows@[a] == pre[a0]);
                lemma_lex_total(pre[a0].0@, k);
                if a0 < i {
                    assert(lex_lt(pre[a0].0@, pre[i as int].0@));
                } else {
                    assert(lex_lt(pre[i as int].0@, pre[a0].0@));
                }
            }
        }
    }

    /// Opens an empty table under `prefix`.
    pub fn new(prefix: &str) -> (r: Self)
        ensures
            r.wf(),
            r@ == Map::<Seq<u8>, V>::empty(),
            r.namespace() == prefix@,
    {
        KeyValueDb { namespace: prefix.to_owned(), rows: Vec::new(), contents: Ghost(Map::empty()) }
    }

    /// The namespace that the table was opened under.
    pub fn prefix(&self) -> (r: &str)
        ensures
            r@ == self.namespace(),
    {
        self.namespace.as_str()
    }

    /// The row that holds `key`, if any.
    fn find(&self, key: &Vec<u8>) -> (r: Option<usize>)
        requires
            self.wf(),
        ensures
            r matches Some(i) ==> i < self.rows@.len() && self.rows@[i as int].0@ == key@,
            r is None <==> !self@.contains_key(key@),
    {
        let mut i: usize = 0;
        while i < self.rows.len()
            invariant
                self.wf(),
                0 <= i <= self.rows@.len(),
                forall|j: int| 0 <= j < i ==> self.rows@[j].0@ != key@,
            decreases self.rows@.len() - i,
        {
            if bytes_eq(&self.rows[i].0, key) {
                return Some(i);
            }
            i = i + 1;
        }
        None
    }

    /// The value stored under the encoded key `key`.
    pub fn get_encoded(&self, key: &Vec<u8>) -> (r: Option<&V>)
        requires
            self.wf(),
        ensures
            r is Some <==> self@.contains_key(key@),
            r matches Some(v) ==> *v == self@[key@],
    {
        match self.find(key) {
            Some(i) => Some(&self.rows[i].1),
            None => None,
        }
    }

    /// Where a row for the absent key `key` keeps the rows in order.
    fn position(&self, key: &Vec<u8>) -> (p: usize)
        requires
            self.wf(),
            !self@.contains_key(key@),
        ensures
            p <= self.rows@.len(),
            forall|i: int| 0 <= i < p ==> lex_lt(#[trigger] self.rows@[i].0@, key@),
            forall|i: int| p <= i < self.rows@.len() ==> lex_lt(key@, #[trigger] self.rows@[i].0@),
    {
        let mut i: usize = 0;
        while i < self.rows.len() && bytes_lt(&self.rows[i].0, key)
            invariant
                self.wf(),
                0 <= i <= self.rows@.len(),
                forall|j: int| 0 <= j < i ==> lex_lt(#[trigger] self.rows@[j].0@, key@),
            decreases self.rows@.len() - i,
        {
            i = i + 1;
        }
        if i < self.rows.len() {
            let ghost ki = self.rows@[i as int].0@;
            proof {
                assert(self.contents@.contains_key(ki));
                lemma_lex_total(ki, key@);
                assert forall|j: int| i <= j < self.rows@.len() implies lex_lt(key@, #[trigger] self.rows@[j].0@) by {
                    if j > i {
                        assert(lex_lt(self.rows@[i as int].0@, self.rows@[j].0@));
                        lemma_lex_trans(key@, ki, self.rows@[j].0@);
                    }
                }
            }
        }
        i
    }

    /// Stores `value` under the encoded key `key`, replacing any earlier value.
    pub fn insert_encoded(&mut self, key: Vec<u8>, value: V)
        requires
            old(self).wf(),
        ensures
            final(self).wf(),
            final(self)@ == old(self)@.insert(key@, value),
            final(self).namespace() == old(self).namespace(),
    {
        let ghost k = key@;
        let ghost v = value;
        let ghost pre = self.rows@;
        match self.find(&key) {
            Some(i) => {
                self.rows[i] = (key, value);
                self.contents = Ghost(self.contents@.insert(k, v));
                proof {
                    assert forall|a: int, b: int| 0 <= a < b < self.rows@.len() implies lex_lt(
                        #[trigger] self.rows@[a].0@, #[trigger] self.rows@[b].0@) by {
                        assert(lex_lt(pre[a].0@, pre[b].0@));
                    }
                    assert forall|a: int| 0 <= a < self.rows@.len() implies self.contents@.contains_key(
                        #[trigger] self.rows@[a].0@) && self.contents@[self.rows@[a].0@] == self.rows@[a].1 by {
                        if a != i {
                            assert(pre[a].0@ != k) by {
                                lemma_lex_total(pre[a].0@, pre[i as int].0@);
                                if a < i {
                                    assert(lex_lt(pre[a].0@, pre[i as int].0@));
                                } else {
                                    assert(lex_lt(pre[i as int].0@, pre[a].0@));
                                }
                            }
                        }
                    }
                    assert forall|q: Seq<u8>| #[trigger] self.contents@.contains_key(q) implies exists|j: int|
                        0 <= j < self.rows@.len() && self.rows@[j].0@ == q by {
                        if q != k {
                            let j = choose|j: int| 0 <= j < pre.len() && pre[j].0@ == q;
                            assert(self.rows@[j] == pre[j]);
                        } else {
                            assert(self.rows@[i as int].0@ == q);
                        }
                    }
                }
            },
            None => {
                let p = self.position(&key);
                self.rows.insert(p, (key, value));
                self.contents = Ghost(self.contents@.insert(k, v));
                proof {
                    assert(self.rows@[p as int].0@ == k);
                    assert forall|a: int, b: int| 0 <= a < b < self.rows@.len() implies lex_lt(
                        #[trigger] self.rows@[a].0@, #[trigger] self.rows@[b].0@) by {
                        let a0 = if a < p { a } else { a - 1 };
                        let b0 = if b <= p { b } else { b - 1 };
                        if a != p && b != p {
                            assert(self.rows@[a] == pre[a0]);
                            assert(self.rows@[b] == pre[b0]);
                        } else if a == p {
                            assert(self.rows@[b] == pre[b - 1]);
                        } else {
                            assert(self.rows@[a] == pre[a]);
                        }
                    }
                    assert forall|a: int| 0 <= a < self.rows@.len() implies self.contents@.contains_key(
                        #[trigger] self.rows@[a].0@) && self.contents@[self.rows@[a].0@] == self.rows@[a].1 by {
                        if a != p {
                            let a0 = if a < p { a } else { a - 1 };
                            assert(self.rows@[a] == pre[a0]);
                            assert(old(self).contents@.contains_key(pre[a0].0@));
                        }
                    }
                    assert forall|q: Seq<u8>| #[trigger] self.contents@.contains_key(q) implies exists|j: int|
                        0 <= j < self.rows@.len() && self.rows@[j].0@ == q by {
                        if q != k {
                            let j = choose|j: int| 0 <= j < pre.len() && pre[j].0@ == q;
                            let j1 = if j < p { j } else { j + 1 };
                            assert(self.rows@[j1] == pre[j]);
                        } else {
                            assert(self.rows@[p as int].0@ == q);
                        }
                    }
                }
            },
        }
    }

    /// Deletes the entry under the encoded key `key`; an absent key is left absent.
    pub fn remove_encoded(&mut self, key: &Vec<u8>)
        requires
            old(self).wf(),
        ensures
            final(self).wf(),
            final(self)@ == old(self)@.remove(key@),
            final(self).namespace() == old(self).namespace(),
    {
        match self.find(key) {
            Some(i) => {
                self.remove_row(i);
            },
            None => {
                assert(self.contents@ =~= self.contents@.remove(key@));
            },
        }
    }
}

impl<V> KeyValueDb<V> {
    /// The value stored under height `key`.
    pub fn get(&self, key: u64) -> (r: Result<Option<&V>, StoreError>)
        requires
            self.wf(),
        ensures
            r is Ok,
            r.unwrap() is Some <==> self@.contains_key(cbor_uint(key)),
            r.unwrap() matches Some(v) ==> *v == self@[cbor_uint(key)],
    {
        let k = encode_key(key)?;
        Ok(self.get_encoded(&k))
    }

    /// Whether an entry is stored under height `key`.
    pub fn contains_key(&self, key: u64) -> (r: Result<bool, StoreError>)
        requires
            self.wf(),
        ensures
            r is Ok,
            r.unwrap() == self@.contains_key(cbor_uint(key)),
    {
        let k = encode_key(key)?;
        Ok(self.find(&k).is_some())
    }

    /// Stores `value` under height `key`, replacing any earlier value.
    pub fn insert(&mut self, key: u64, value: V) -> (r: Result<(), StoreError>)
        requires
            old(self).wf(),
        ensures
            r is Ok,
            final(self).wf(),
            final(self)@ == old(self)@.insert(cbor_uint(key), value),
            final(self).namespace() == old(self).namespace(),
    {
        let k = encode_key(key)?;
        self.insert_encoded(k, value);
        Ok(())
    }

    /// Deletes the entry under height `key`; an absent key is no error.
    pub fn remove(&mut self, key: u64) -> (r: Result<(), StoreError>)
        requires
            old(self).wf(),
        ensures
            r is Ok,
            final(self).wf(),
            final(self)@ == old(self)@.remove(cbor_uint(key)),
            final(self).namespace() == old(self).namespace(),
    {
        let k = encode_key(key)?;
        self.remove_encoded(&k);
        Ok(())
    }

    /// The stored values, one per entry, in ascending byte order of keys.
    pub fn iter(&self) -> (r: Vec<&V>)
        requires
            self.wf(),
        ensures
            r@.len() == self.len(),
            forall|i: int| 0 <= i < r@.len() ==> *#[trigger] r@[i] == self.value_at(i),
            forall|i: int, j: int|
                0 <= i < j < r@.len() ==> lex_lt(#[trigger] self.key_at(i), #[trigger] self.key_at(j)),
    {
        proof {
            self.lemma_rows();
        }
        let mut out: Vec<&V> = Vec::new();
        let mut i: usize = 0;
        while i < self.rows.len()
            invariant
                0 <= i <= self.rows@.len(),
                out@.len() == i,
                forall|j: int| 0 <= j < i ==> *#[trigger] out@[j] == self.rows@[j].1,
            decreases self.rows@.len() - i,
        {
            out.push(&self.rows[i].1);
            i = i + 1;
        }
        out
    }
}

/// Opens an empty key/value table under `prefix`.
pub fn key_value<V>(prefix: &str) -> (r: KeyValueDb<V>)
    ensures
        r.wf(),
        r@ == Map::<Seq<u8>, V>::empty(),
        r.namespace() == prefix@,
{
    KeyValueDb::new(prefix)
}

/// A namespaced slot holding at most one value, under the empty key.
pub struct SingleDb<V>(KeyValueDb<V>);

impl<V> View for SingleDb<V> {
    type V = Option<V>;

    closed spec fn view(&self) -> Option<V> {
        if self.0@.contains_key(cbor_unit()) {
            Some(self.0@[cbor_unit()])
        } else {
            None
        }
    }
}

impl<V> SingleDb<V> {
    pub closed spec fn wf(&self) -> bool {
        self.0.wf()
    }

    /// The namespace that the cell was opened under.
    pub closed spec fn namespace(&self) -> Seq<char> {
        self.0.namespace()
    }

    /// Opens an empty cell under `prefix`.
    pub fn new(prefix: &str) -> (r: Self)
        ensures
            r.wf(),
            r@ is None,
            r.namespace() == prefix@,
    {
        SingleDb(KeyValueDb::new(prefix))
    }

    /// The stored value, if any.
    pub fn get(&self) -> (r: Result<Option<&V>, StoreError>)
        requires
            self.wf(),
        ensures
            r is Ok,
            r.unwrap() is Some <==> self@ is Some,
            r.unwrap() matches Some(v) ==> *v == self@.unwrap(),
    {
        let k = encode_unit_key()?;
        Ok(self.0.get_encoded(&k))
    }

    /// Stores `value`, replacing any earlier one.
    pub fn set(&mut self, value: V) -> (r: Result<(), StoreError>)
        requires
            old(self).wf(),
        ensures
            r is Ok,
            final(self).wf(),
            final(self)@ == Some(value),
            final(self).namespace() == old(self).namespace(),
    {
        let k = encode_unit_key()?;
        self.0.insert_encoded(k, value);
        Ok(())
    }
}

/// Opens an empty single-value cell under `prefix`.
pub fn single<V>(prefix: &str) -> (r: SingleDb<V>)
    ensures
        r.wf(),
        r@ is None,
        r.namespace() == prefix@,
{
    SingleDb::new(prefix)
}

} // verus!
