//! A map from string ids to values, the shape of every per-seat record the
//! driver keeps, modelled as a `Map` from the ids' characters.

use vstd::prelude::*;

use crate::first::{first_index, lemma_first_index, lemma_first_index_unique};
use crate::text::{distinct, sort_distinct, str_eq, strictly_sorted, views};
use crate::types::Sequence;

verus! {

/// A value with a mathematical model that can be copied and compared.
pub trait Valued: Sized {
    type Value;

    spec fn value(&self) -> Self::Value;

    /// What every value of the type holds.
    spec fn inv(&self) -> bool;

    fn copied(&self) -> (r: Self)
        requires
            self.inv(),
        ensures
            r.inv(),
            r.value() == self.value(),
    ;

    fn same(&self, other: &Self) -> (r: bool)
        requires
            self.inv(),
            other.inv(),
        ensures
            r == (self.value() == other.value()),
    ;
}

impl Valued for Sequence {
    type Value = Sequence;

    open spec fn value(&self) -> Sequence {
        *self
    }

    open spec fn inv(&self) -> bool {
        true
    }

    fn copied(&self) -> (r: Self) {
        *self
    }

    fn same(&self, other: &Self) -> (r: bool) {
        self.0 == other.0
    }
}

impl Valued for String {
    type Value = Seq<char>;

    open spec fn value(&self) -> Seq<char> {
        self@
    }

    open spec fn inv(&self) -> bool {
        true
    }

    fn copied(&self) -> (r: Self) {
        self.clone()
    }

    fn same(&self, other: &Self) -> (r: bool) {
        str_eq(self.as_str(), other.as_str())
    }
}

/// One key and its value.
#[derive(Debug, PartialEq, Eq)]
pub struct Entry<V> {
    pub key: String,
    pub value: V,
}

/// String-keyed records with no key held twice.
#[derive(Debug, PartialEq, Eq)]
pub struct StrMap<V> {
    entries: Vec<Entry<V>>,
}

/// The keys of a list of entries, in order.
pub open spec fn entry_keys<V>(es: Seq<Entry<V>>) -> Seq<Seq<char>> {
    es.map_values(|e: Entry<V>| e.key@)
}

/// Where `k` sits among the keys, or their count when it is absent.
pub open spec fn key_index(keys: Seq<Seq<char>>, k: Seq<char>) -> int {
    first_index(key_is(keys, k), keys.len() as int)
}

/// Whether the `i`th key is `k`.
pub open spec fn key_is(keys: Seq<Seq<char>>, k: Seq<char>) -> spec_fn(int) -> bool {
    |i: int| keys[i] == k
}

/// A key's index is where it first stands, or the length when it is absent.
pub proof fn lemma_key_index(keys: Seq<Seq<char>>, k: Seq<char>)
    ensures
        0 <= key_index(keys, k) <= keys.len(),
        key_index(keys, k) < keys.len() ==> keys[key_index(keys, k)] == k,
        key_index(keys, k) < keys.len() <==> keys.contains(k),
{
    let p = key_is(keys, k);
    lemma_first_index(p, keys.len() as int);
    let f = key_index(keys, k);
    if keys.contains(k) {
        let j = choose|j: int| 0 <= j < keys.len() && keys[j] == k;
        if f == keys.len() {
            assert(!p(j));
        }
    }
}

/// Among distinct keys, each key's index is its own place.
pub proof fn lemma_key_index_of_distinct(keys: Seq<Seq<char>>, i: int)
    requires
        distinct(keys),
        0 <= i < keys.len(),
    ensures
        key_index(keys, keys[i]) == i,
{
    let p = key_is(keys, keys[i]);
    assert forall|j: int| 0 <= j < i implies !#[trigger] p(j) by {
        assert(keys[j] != keys[i]);
    }
    lemma_first_index_unique(p, keys.len() as int, i);
}

impl<V: Valued> StrMap<V> {
    /// Every key, in the order held.
    pub closed spec fn keys(&self) -> Seq<Seq<char>> {
        entry_keys(self.entries@)
    }

    /// No key is held twice, and every value holds its invariant.
    pub closed spec fn wf(&self) -> bool {
        &&& distinct(self.keys())
        &&& forall|i: int| 0 <= i < self.entries@.len() ==> (#[trigger] self.entries@[i]).value.inv()
    }

    /// The records as a map.
    pub closed spec fn map(&self) -> Map<Seq<char>, V::Value> {
        Map::new(
            |k: Seq<char>| self.keys().contains(k),
            |k: Seq<char>| self.entries@[key_index(self.keys(), k)].value.value(),
        )
    }

    /// The number of records.
    pub closed spec fn size(&self) -> nat {
        self.entries@.len()
    }

    /// The map holds exactly as many keys as entries.
    pub proof fn lemma_size(&self)
        requires
            self.wf(),
        ensures
            self.map().dom().finite(),
            self.map().dom().len() == self.size(),
    {
        assert(self.keys().to_set() =~= self.map().dom());
        self.keys().unique_seq_to_set();
    }

    /// An empty map.
    pub fn new() -> (r: Self)
        ensures
            r.wf(),
            r.map() == Map::<Seq<char>, V::Value>::empty(),
    {
        let r = StrMap { entries: Vec::new() };
        assert(r.map() =~= Map::<Seq<char>, V::Value>::empty());
        r
    }

    fn find(&self, key: &str) -> (r: Option<usize>)
        ensures
            match r {
                Some(i) => i < self.entries@.len() && i as int == key_index(self.keys(), key@),
                None => !self.keys().contains(key@),
            },
    {
        let mut i: usize = 0;
        while i < self.entries.len()
            invariant
                i <= self.entries@.len(),
                forall|j: int| 0 <= j < i ==> (#[trigger] self.keys()[j]) != key@,
            decreases self.entries@.len() - i,
        {
            if str_eq(self.entries[i].key.as_str(), key) {
                proof {
                    lemma_first_index_unique(
                        key_is(self.keys(), key@),
                        self.keys().len() as int,
                        i as int,
                    );
                }
                return Some(i);
            }
            i = i + 1;
        }
        proof {
            if self.keys().contains(key@) {
                let j = choose|j: int| 0 <= j < self.keys().len() && self.keys()[j] == key@;
                assert(self.keys()[j] != key@);
            }
        }
        None
    }

    /// The value recorded for `key`.
    pub fn get(&self, key: &str) -> (r: Option<&V>)
        requires
            self.wf(),
        ensures
            r is Some <==> self.map().dom().contains(key@),
            r matches Some(v) ==> v.value() == self.map()[key@] && v.inv(),
    {
        proof {
            lemma_key_index(self.keys(), key@);
        }
        match self.find(key) {
            Some(i) => Some(&self.entries[i].value),
            None => None,
        }
    }

    /// Whether `key` has a record.
    pub fn contains_key(&self, key: &str) -> (r: bool)
        requires
            self.wf(),
        ensures
            r == self.map().dom().contains(key@),
    {
        proof {
            lemma_key_index(self.keys(), key@);
        }
        self.find(key).is_some()
    }

    /// Record `value` for `key`, replacing what was there.
    pub fn insert(&mut self, key: String, value: V)
        requires
            old(self).wf(),
            value.inv(),
        ensures
            final(self).wf(),
            final(self).map() == old(self).map().insert(key@, value.value()),
    {
        let ghost before = self.map();
        proof {
            lemma_key_index(self.keys(), key@);
        }
        match self.find(key.as_str()) {
            Some(i) => {
                let ghost k = key@;
                self.entries.set(i, Entry { key, value });
                proof {
                    assert(self.keys() =~= old(self).keys());
                    assert forall|q: Seq<char>| #![auto] self.map().dom().contains(q) implies self.map()[q]
                        == before.insert(k, value.value())[q] by {
                        if q != k {
                            lemma_key_index(self.keys(), q);
                            assert(key_index(self.keys(), q) != i);
                        }
                    }
                    assert(self.map() =~= before.insert(k, value.value()));
                }
            },
            None => {
                let ghost k = key@;
                let ghost old_keys = self.keys();
                self.entries.push(Entry { key, value });
                proof {
                    assert(self.keys() =~= old_keys.push(k));
                    assert forall|q: Seq<char>| #![auto] self.map().dom().contains(q) implies self.map()[q]
                        == before.insert(k, value.value())[q] by {
                        lemma_key_index(self.keys(), q);
                        lemma_key_index(old_keys, q);
                        if q == k {
                            lemma_key_index_of_distinct(self.keys(), old_keys.len() as int);
                        } else {
                            let j = key_index(self.keys(), q);
                            assert(j < old_keys.len());
                            assert(old_keys[j] == q);
                            let p = key_is(old_keys, q);
                            let p2 = key_is(self.keys(), q);
                            lemma_first_index(p2, self.keys().len() as int);
                            assert forall|x: int| 0 <= x < j implies !#[trigger] p(x) by {
                                assert(!p2(x));
                            }
                            lemma_first_index_unique(p, old_keys.len() as int, j);
                        }
                    }
                    assert forall|q: Seq<char>| #![auto] self.map().dom().contains(q) <==> before.insert(k, value.value()).dom().contains(q) by {
                        if q == k {
                            assert(self.keys()[old_keys.len() as int] == k);
                        }
                        if old_keys.contains(q) {
                            let j = choose|j: int| 0 <= j < old_keys.len() && old_keys[j] == q;
                            assert(self.keys()[j] == q);
                        }
                        if self.keys().contains(q) {
                            let j = choose|j: int| 0 <= j < self.keys().len() && self.keys()[j] == q;
                            if j < old_keys.len() {
                                assert(old_keys[j] == q);
                            }
                        }
                    }
                    assert(self.map() =~= before.insert(k, value.value()));
                }
            },
        }
    }

    /// Drop the record for `key`, if there is one.
    pub fn remove(&mut self, key: &str)
        requires
            old(self).wf(),
        ensures
            final(self).wf(),
            final(self).map() == old(self).map().remove(key@),
    {
        let ghost before = self.map();
        proof {
            lemma_key_index(self.keys(), key@);
        }
        if let Some(i) = self.find(key) {
            let ghost old_keys = self.keys();
            let ghost old_entries = self.entries@;
            let _ = self.entries.remove(i);
            proof {
                assert(self.keys() =~= old_keys.remove(i as int));
                assert forall|x: int, y: int| 0 <= x < y < self.keys().len() implies #[trigger] self.keys()[x]
                    != #[trigger] self.keys()[y] by {
                    let ox = if x < i { x } else { x + 1 };
                    let oy = if y < i { y } else { y + 1 };
                    assert(self.keys()[x] == old_keys[ox]);
                    assert(self.keys()[y] == old_keys[oy]);
                }
                assert forall|q: Seq<char>| #![auto] self.map().dom().contains(q) <==> before.remove(key@).dom().contains(q) by {
                    if q != key@ && old_keys.contains(q) {
                        let j = choose|j: int| 0 <= j < old_keys.len() && old_keys[j] == q;
                        assert(j != i);
                        if j < i {
                            assert(self.keys()[j] == q);
                        } else {
                            assert(self.keys()[j - 1] == q);
                        }
                    }
                    if self.keys().contains(q) {
                        let j = choose|j: int| 0 <= j < self.keys().len() && self.keys()[j] == q;
                        let oj = if j < i { j } else { j + 1 };
                        assert(old_keys[oj] == q);
                        assert(oj != i);
                        lemma_key_index_of_distinct(old_keys, oj);
                    }
                }
                assert forall|q: Seq<char>| #![auto] self.map().dom().contains(q) implies self.map()[q]
                    == before.remove(key@)[q] by {
                    let j = choose|j: int| 0 <= j < self.keys().len() && self.keys()[j] == q;
                    let oj = if j < i { j } else { j + 1 };
                    assert(old_keys[oj] == q);
                    lemma_key_index_of_distinct(self.keys(), j);
                    lemma_key_index_of_distinct(old_keys, oj);
                    assert(self.entries@[j] == old_entries[oj]);
                }
                assert(self.map() =~= before.remove(key@));
            }
        } else {
            assert(self.map() =~= before.remove(key@));
        }
    }

    /// The number of records.
    pub fn len(&self) -> (r: usize)
        ensures
            r == self.size(),
    {
        self.entries.len()
    }

    /// Whether there are no records.
    pub fn is_empty(&self) -> (r: bool)
        requires
            self.wf(),
        ensures
            r == (self.map().dom() == Set::<Seq<char>>::empty()),
    {
        if self.entries.len() == 0 {
            assert(self.map().dom() =~= Set::<Seq<char>>::empty());
            true
        } else {
            assert(self.map().dom().contains(self.keys()[0]));
            false
        }
    }

    /// The key of the `i`th record.
    pub fn key_at(&self, i: usize) -> (r: &String)
        requires
            i < self.size(),
        ensures
            r@ == self.keys()[i as int],
    {
        &self.entries[i].key
    }

    /// The value of the `i`th record.
    pub fn value_at(&self, i: usize) -> (r: &V)
        requires
            self.wf(),
            i < self.size(),
        ensures
            self.map().dom().contains(self.keys()[i as int]),
            r.value() == self.map()[self.keys()[i as int]],
            r.inv(),
    {
        proof {
            lemma_key_index_of_distinct(self.keys(), i as int);
        }
        &self.entries[i].value
    }

    /// The entries' keys are the map's domain, one per entry.
    pub proof fn lemma_keys(&self)
        requires
            self.wf(),
        ensures
            self.keys().len() == self.size(),
            forall|k: Seq<char>| self.map().dom().contains(k) <==> self.keys().contains(k),
    {
    }

    /// Every key, in the order `String` sorts by.
    pub fn sorted_keys(&self) -> (r: Vec<String>)
        requires
            self.wf(),
        ensures
            strictly_sorted(views(r@)),
            forall|k: Seq<char>| views(r@).contains(k) <==> self.map().dom().contains(k),
            r@.len() == self.size(),
    {
        let mut ks: Vec<String> = Vec::new();
        let mut i: usize = 0;
        while i < self.entries.len()
            invariant
                i <= self.entries@.len(),
                ks@.len() == i,
                forall|j: int| 0 <= j < i ==> (#[trigger] ks@[j])@ == self.keys()[j],
            decreases self.entries@.len() - i,
        {
            ks.push(self.entries[i].key.clone());
            i = i + 1;
        }
        assert(views(ks@) =~= self.keys());
        sort_distinct(ks)
    }

    /// A copy.
    pub fn copied(&self) -> (r: Self)
        requires
            self.wf(),
        ensures
            r.wf(),
            r.map() == self.map(),
            r.keys() == self.keys(),
    {
        let mut es: Vec<Entry<V>> = Vec::new();
        let mut i: usize = 0;
        while i < self.entries.len()
            invariant
                self.wf(),
                i <= self.entries@.len(),
                es@.len() == i,
                forall|j: int| 0 <= j < i ==> (#[trigger] es@[j]).value.inv(),
                forall|j: int| 0 <= j < i ==> (#[trigger] es@[j]).key@ == self.entries@[j].key@,
                forall|j: int| 0 <= j < i ==> (#[trigger] es@[j]).value.value() == self.entries@[j].value.value(),
            decreases self.entries@.len() - i,
        {
            es.push(Entry { key: self.entries[i].key.clone(), value: self.entries[i].value.copied() });
            i = i + 1;
        }
        let r = StrMap { entries: es };
        assert(r.keys() =~= self.keys());
        assert forall|k: Seq<char>| #![auto] r.map().dom().contains(k) implies r.map()[k] == self.map()[k] by {
            lemma_key_index(self.keys(), k);
        }
        assert(r.map() =~= self.map());
        r
    }

    /// Whether both hold the same records.
    pub fn same(&self, other: &Self) -> (r: bool)
        requires
            self.wf(),
            other.wf(),
        ensures
            r == (self.map() == other.map()),
    {
        proof {
            self.lemma_size();
            other.lemma_size();
        }
        if self.entries.len() != other.entries.len() {
            return false;
        }
        let mut i: usize = 0;
        while i < self.entries.len()
            invariant
                self.wf(),
                other.wf(),
                i <= self.entries@.len(),
                self.entries@.len() == other.entries@.len(),
                forall|j: int|
                    0 <= j < i ==> #[trigger] other.map().dom().contains(self.keys()[j])
                        && self.map()[self.keys()[j]] == other.map()[self.keys()[j]],
            decreases self.entries@.len() - i,
        {
            proof {
                lemma_key_index_of_distinct(self.keys(), i as int);
                assert(self.keys()[i as int] == self.entries@[i as int].key@);
            }
            match other.get(self.entries[i].key.as_str()) {
                None => return false,
                Some(v) => {
                    if !self.entries[i].value.same(v) {
                        return false;
                    }
                },
            }
            i = i + 1;
        }
        proof {
            assert forall|k: Seq<char>| #![auto] self.map().dom().contains(k) implies other.map().dom().contains(k)
                && self.map()[k] == other.map()[k] by {
                let j = choose|j: int| 0 <= j < self.keys().len() && self.keys()[j] == k;
            }
            assert(self.map().dom().subset_of(other.map().dom()));
            vstd::set_lib::lemma_subset_equality(self.map().dom(), other.map().dom());
            assert(self.map() =~= other.map());
        }
        true
    }
}

impl<V: Valued> Valued for StrMap<V> {
    type Value = Map<Seq<char>, V::Value>;

    open spec fn value(&self) -> Map<Seq<char>, V::Value> {
        self.map()
    }

    open spec fn inv(&self) -> bool {
        self.wf()
    }

    fn copied(&self) -> (r: Self) {
        StrMap::copied(self)
    }

    fn same(&self, other: &Self) -> (r: bool) {
        StrMap::same(self, other)
    }
}

} // verus!
