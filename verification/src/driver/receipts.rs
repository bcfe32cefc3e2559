//! Committed events and the receipts that remember them, keyed by the host
//! sequence of the row each one became.

use vstd::prelude::*;

use crate::first::{first_index, lemma_first_index, lemma_first_index_unique};
use crate::text::str_eq;
use crate::types::{Sequence, Utterance, UtteranceModel};

verus! {

/// One utterance after the host has durably assigned its actual sequence.
#[derive(Debug, PartialEq, Eq)]
pub struct CommittedUtterance {
    /// Canonical hive id of the author.
    pub author_id: String,
    /// Actual global host sequence of the appended row.
    pub sequence: Sequence,
    /// Accepted tool utterance represented by that row.
    pub utterance: Utterance,
}

/// A committed utterance as values.
pub struct CommittedModel {
    pub author_id: Seq<char>,
    pub sequence: Sequence,
    pub utterance: UtteranceModel,
}

impl View for CommittedUtterance {
    type V = CommittedModel;

    open spec fn view(&self) -> CommittedModel {
        CommittedModel {
            author_id: self.author_id@,
            sequence: self.sequence,
            utterance: self.utterance@,
        }
    }
}

impl Clone for CommittedUtterance {
    fn clone(&self) -> (r: Self)
        ensures
            r@ == self@,
    {
        CommittedUtterance {
            author_id: self.author_id.clone(),
            sequence: self.sequence,
            utterance: self.utterance.clone(),
        }
    }
}

impl CommittedUtterance {
    /// Whether two committed utterances are the same event.
    pub fn same_as(&self, other: &CommittedUtterance) -> (r: bool)
        ensures
            r == (self@ == other@),
    {
        str_eq(self.author_id.as_str(), other.author_id.as_str()) && self.sequence.0
            == other.sequence.0 && self.utterance.same_as(&other.utterance)
    }
}

/// The values of a list of committed utterances.
pub open spec fn event_views(evs: Seq<CommittedUtterance>) -> Seq<CommittedModel> {
    evs.map_values(|e: CommittedUtterance| e@)
}

/// One stored receipt: the sequence it is filed under and the event.
#[derive(Debug, PartialEq, Eq)]
pub struct Receipt {
    pub sequence: Sequence,
    pub event: CommittedUtterance,
}

/// Receipts in increasing order of the sequence they are filed under, no
/// sequence twice.
#[derive(Debug, PartialEq, Eq)]
pub struct Receipts {
    entries: Vec<Receipt>,
}

/// Whether the `i`th entry is filed under `k`.
pub open spec fn filed_at(keys: Seq<u64>, k: u64) -> spec_fn(int) -> bool {
    |i: int| keys[i] == k
}

/// The greatest key of a map keyed by sequence, if it has any.
pub open spec fn greatest_key<V>(m: Map<Sequence, V>) -> Option<Sequence> {
    if m.dom().is_empty() {
        None
    } else {
        Some(choose|k: Sequence| m.dom().contains(k) && forall|j: Sequence| #[trigger] m.dom().contains(j) ==> j.0 <= k.0)
    }
}

/// The greatest key of a map whose keys are all at or below `at`, `at`
/// among them, is `at`.
pub proof fn lemma_greatest_key_is<V>(m: Map<Sequence, V>, at: Sequence)
    requires
        m.dom().contains(at),
        forall|j: Sequence| #[trigger] m.dom().contains(j) ==> j.0 <= at.0,
    ensures
        greatest_key(m) == Some(at),
{
    assert(!m.dom().is_empty()) by {
        assert(m.dom().contains(at));
    }
    let k = choose|k: Sequence| m.dom().contains(k) && forall|j: Sequence| #[trigger] m.dom().contains(j) ==> j.0 <= k.0;
    assert(m.dom().contains(k) && forall|j: Sequence| #[trigger] m.dom().contains(j) ==> j.0 <= k.0);
    assert(at.0 <= k.0);
    assert(k.0 <= at.0);
    assert(k == at);
}

impl Receipts {
    /// The filing sequences, in order.
    pub closed spec fn keys(&self) -> Seq<u64> {
        self.entries@.map_values(|r: Receipt| r.sequence.0)
    }

    /// Strictly increasing filing sequences.
    pub closed spec fn wf(&self) -> bool {
        forall|i: int, j: int| 0 <= i < j < self.keys().len() ==> #[trigger] self.keys()[i] < #[trigger] self.keys()[j]
    }

    /// The receipts as a map from filing sequence to event.
    pub closed spec fn map(&self) -> Map<Sequence, CommittedModel> {
        Map::new(
            |k: Sequence| self.keys().contains(k.0),
            |k: Sequence| self.entries@[first_index(filed_at(self.keys(), k.0), self.keys().len() as int)].event@,
        )
    }

    proof fn lemma_index(&self, k: u64)
        ensures
            0 <= first_index(filed_at(self.keys(), k), self.keys().len() as int) <= self.keys().len(),
            first_index(filed_at(self.keys(), k), self.keys().len() as int) < self.keys().len()
                <==> self.keys().contains(k),
            first_index(filed_at(self.keys(), k), self.keys().len() as int) < self.keys().len()
                ==> self.keys()[first_index(filed_at(self.keys(), k), self.keys().len() as int)] == k,
    {
        let p = filed_at(self.keys(), k);
        lemma_first_index(p, self.keys().len() as int);
        if self.keys().contains(k) {
            let j = choose|j: int| 0 <= j < self.keys().len() && self.keys()[j] == k;
            let f = first_index(p, self.keys().len() as int);
            if f == self.keys().len() {
                assert(!p(j));
            }
        }
    }

    proof fn lemma_index_of(&self, i: int)
        requires
            self.wf(),
            0 <= i < self.keys().len(),
        ensures
            first_index(filed_at(self.keys(), self.keys()[i]), self.keys().len() as int) == i,
    {
        let p = filed_at(self.keys(), self.keys()[i]);
        assert forall|j: int| 0 <= j < i implies !#[trigger] p(j) by {
            assert(self.keys()[j] < self.keys()[i]);
        }
        lemma_first_index_unique(p, self.keys().len() as int, i);
    }

    /// No receipts.
    pub fn new() -> (r: Self)
        ensures
            r.wf(),
            r.map() == Map::<Sequence, CommittedModel>::empty(),
    {
        let r = Receipts { entries: Vec::new() };
        assert(r.map() =~= Map::<Sequence, CommittedModel>::empty());
        r
    }

    /// The number of receipts.
    pub fn len(&self) -> (r: usize)
        requires
            self.wf(),
        ensures
            r == self.map().dom().len(),
            self.map().dom().finite(),
    {
        proof {
            self.lemma_dom();
        }
        self.entries.len()
    }

    /// The domain is the set of filing sequences.
    pub proof fn lemma_dom(&self)
        requires
            self.wf(),
        ensures
            self.map().dom().finite(),
            self.map().dom().len() == self.keys().len(),
            forall|k: Sequence| #[trigger] self.map().dom().contains(k) <==> self.keys().contains(k.0),
    {
        let d = self.map().dom();
        let ks = self.keys();
        assert(ks.no_duplicates()) by {
            assert forall|i: int, j: int| 0 <= i < ks.len() && 0 <= j < ks.len() && i != j implies ks[i] != ks[j] by {
                if i < j {
                    assert(ks[i] < ks[j]);
                } else {
                    assert(ks[j] < ks[i]);
                }
            }
        }
        let wrapped = ks.map_values(|x: u64| Sequence(x));
        assert(wrapped.no_duplicates()) by {
            assert forall|i: int, j: int| 0 <= i < wrapped.len() && 0 <= j < wrapped.len() && i != j implies wrapped[i] != wrapped[j] by {
                assert(ks[i] != ks[j]);
            }
        }
        assert forall|k: Sequence| #[trigger] d.contains(k) <==> wrapped.to_set().contains(k) by {
            if d.contains(k) {
                let i = choose|i: int| 0 <= i < ks.len() && ks[i] == k.0;
                assert(wrapped[i] == k);
            }
            if wrapped.to_set().contains(k) {
                let i = choose|i: int| 0 <= i < wrapped.len() && wrapped[i] == k;
                assert(ks[i] == k.0);
            }
        }
        assert(d =~= wrapped.to_set());
        wrapped.unique_seq_to_set();
    }

    /// The event filed under `sequence`.
    pub fn get(&self, sequence: Sequence) -> (r: Option<&CommittedUtterance>)
        requires
            self.wf(),
        ensures
            r is Some <==> self.map().dom().contains(sequence),
            r matches Some(e) ==> e@ == self.map()[sequence],
    {
        let mut i: usize = 0;
        while i < self.entries.len()
            invariant
                i <= self.entries@.len(),
                forall|j: int| 0 <= j < i ==> (#[trigger] self.keys()[j]) != sequence.0,
            decreases self.entries@.len() - i,
        {
            if self.entries[i].sequence.0 == sequence.0 {
                proof {
                    assert(self.keys()[i as int] == sequence.0);
                    lemma_first_index_unique(
                        filed_at(self.keys(), sequence.0),
                        self.keys().len() as int,
                        i as int,
                    );
                }
                return Some(&self.entries[i].event);
            }
            i = i + 1;
        }
        proof {
            if self.keys().contains(sequence.0) {
                let j = choose|j: int| 0 <= j < self.keys().len() && self.keys()[j] == sequence.0;
                assert(self.keys()[j] != sequence.0);
            }
        }
        None
    }

    /// The greatest filing sequence, if there is a receipt.
    pub fn last_key(&self) -> (r: Option<Sequence>)
        requires
            self.wf(),
        ensures
            r == greatest_key(self.map()),
    {
        let n = self.entries.len();
        if n == 0 {
            assert(self.map().dom() =~= Set::<Sequence>::empty());
            None
        } else {
            let k = self.entries[n - 1].sequence;
            proof {
                assert(self.keys()[n - 1] == k.0);
                self.lemma_greatest(k);
            }
            Some(k)
        }
    }

    proof fn lemma_greatest(&self, k: Sequence)
        requires
            self.wf(),
            self.keys().len() > 0,
            self.keys()[self.keys().len() - 1] == k.0,
        ensures
            greatest_key(self.map()) == Some(k),
    {
        let n = self.keys().len();
        let d = self.map().dom();
        assert(d.contains(k));
        assert forall|j: Sequence| #[trigger] d.contains(j) implies j.0 <= k.0 by {
            let i = choose|i: int| 0 <= i < n && self.keys()[i] == j.0;
            if i < n - 1 {
                assert(self.keys()[i] < self.keys()[n - 1]);
            }
        }
        assert(!d.is_empty());
        let c = choose|c: Sequence| d.contains(c) && forall|j: Sequence| #[trigger] d.contains(j) ==> j.0 <= c.0;
        assert(c.0 <= k.0 && k.0 <= c.0);
    }

    /// Finitely many receipts, and every one filed at or below the greatest
    /// key, which there is exactly when there is a receipt.
    pub proof fn lemma_greatest_bounds(&self)
        requires
            self.wf(),
        ensures
            self.map().dom().finite(),
            greatest_key(self.map()) is None <==> self.map().dom().is_empty(),
            greatest_key(self.map()) matches Some(g) ==> forall|k: Sequence|
                #[trigger] self.map().dom().contains(k) ==> k.0 <= g.0,
    {
        self.lemma_dom();
        if self.keys().len() > 0 {
            self.lemma_greatest_last();
        } else {
            self.lemma_no_receipts();
        }
    }

    proof fn lemma_greatest_last(&self)
        requires
            self.wf(),
            self.keys().len() > 0,
        ensures
            greatest_key(self.map()) == Some(Sequence(self.keys()[self.keys().len() - 1])),
            !self.map().dom().is_empty(),
            forall|k: Sequence| #[trigger] self.map().dom().contains(k) ==> k.0 <= self.keys()[self.keys().len() - 1],
    {
        let n = self.keys().len();
        let ks = self.keys();
        let g = Sequence(ks[n - 1]);
        self.lemma_dom();
        let d = self.map().dom();
        assert(ks.contains(g.0));
        assert(d.contains(g));
        assert forall|k: Sequence| #[trigger] d.contains(k) implies k.0 <= g.0 by {
            assert(ks.contains(k.0));
            let i = choose|i: int| 0 <= i < n && ks[i] == k.0;
            if i < n - 1 {
                assert(ks[i] < ks[n - 1]);
            }
        }
        lemma_greatest_key_is(self.map(), g);
    }

    proof fn lemma_no_receipts(&self)
        requires
            self.wf(),
            self.keys().len() == 0,
        ensures
            self.map().dom().is_empty(),
            greatest_key(self.map()) is None,
    {
        self.lemma_dom();
        assert forall|k: Sequence| !#[trigger] self.map().dom().contains(k) by {
            assert(!self.keys().contains(k.0));
        }
    }

    /// Filing sequences strictly increase.
    pub proof fn lemma_sorted(&self)
        requires
            self.wf(),
        ensures
            forall|i: int, j: int| 0 <= i < j < self.keys().len() ==> #[trigger] self.keys()[i] < #[trigger] self.keys()[j],
    {
    }

    /// The number of receipts held.
    pub fn size(&self) -> (r: usize)
        ensures
            r == self.keys().len(),
    {
        self.entries.len()
    }

    /// The `i`th receipt in key order.
    pub fn entry_at(&self, i: usize) -> (r: &Receipt)
        requires
            self.wf(),
            i < self.keys().len(),
        ensures
            r.sequence.0 == self.keys()[i as int],
            self.map().dom().contains(r.sequence),
            self.map()[r.sequence] == r.event@,
    {
        proof {
            self.lemma_index_of(i as int);
        }
        &self.entries[i]
    }

    /// File `event` under `sequence`, replacing what was filed there.
    pub fn insert(&mut self, sequence: Sequence, event: CommittedUtterance)
        requires
            old(self).wf(),
        ensures
            final(self).wf(),
            final(self).map() == old(self).map().insert(sequence, event@),
    {
        let ghost before = self.map();
        let ghost old_keys = self.keys();
        let ghost ev = event@;
        let mut i: usize = 0;
        while i < self.entries.len() && self.entries[i].sequence.0 < sequence.0
            invariant
                i <= self.entries@.len(),
                self.keys() == old_keys,
                forall|j: int| 0 <= j < i ==> (#[trigger] self.keys()[j]) < sequence.0,
            decreases self.entries@.len() - i,
        {
            i = i + 1;
        }
        proof {
            self.lemma_index(sequence.0);
        }
        if i < self.entries.len() && self.entries[i].sequence.0 == sequence.0 {
            proof {
                self.lemma_index_of(i as int);
            }
            self.entries.set(i, Receipt { sequence, event });
            proof {
                assert(self.keys() =~= old_keys);
                assert forall|k: Sequence| #![auto] self.map().dom().contains(k) implies self.map()[k]
                    == before.insert(sequence, ev)[k] by {
                    self.lemma_index(k.0);
                    if k != sequence {
                        assert(first_index(filed_at(self.keys(), k.0), self.keys().len() as int) != i);
                    }
                }
                assert(self.map() =~= before.insert(sequence, ev));
            }
        } else {
            let ghost old_entries = self.entries@;
            self.entries.insert(i, Receipt { sequence, event });
            proof {
                let ks = self.keys();
                assert(ks =~= old_keys.insert(i as int, sequence.0));
                assert forall|x: int, y: int| 0 <= x < y < ks.len() implies #[trigger] ks[x] < #[trigger] ks[y] by {
                    if y < i {
                    } else if x > i {
                        assert(ks[x] == old_keys[x - 1]);
                        assert(ks[y] == old_keys[y - 1]);
                    } else if x == i {
                        assert(ks[y] == old_keys[y - 1]);
                        if y - 1 > i {
                            assert(old_keys[i as int] < old_keys[y - 1]);
                        }
                        assert(old_keys[i as int] > sequence.0);
                    } else if y == i {
                        assert(ks[x] == old_keys[x]);
                    } else {
                        assert(ks[x] == old_keys[x]);
                        assert(ks[y] == old_keys[y - 1]);
                    }
                }
                assert forall|k: Sequence| #![auto] self.map().dom().contains(k) <==> before.insert(sequence, ev).dom().contains(k) by {
                    if ks.contains(k.0) {
                        let j = choose|j: int| 0 <= j < ks.len() && ks[j] == k.0;
                        if j < i {
                            assert(old_keys[j] == k.0);
                        } else if j > i {
                            assert(old_keys[j - 1] == k.0);
                        }
                    }
                    if old_keys.contains(k.0) {
                        let j = choose|j: int| 0 <= j < old_keys.len() && old_keys[j] == k.0;
                        if j < i {
                            assert(ks[j] == k.0);
                        } else {
                            assert(ks[j + 1] == k.0);
                        }
                    }
                    if k == sequence {
                        assert(ks[i as int] == k.0);
                    }
                }
                assert forall|k: Sequence| #![auto] self.map().dom().contains(k) implies self.map()[k]
                    == before.insert(sequence, ev)[k] by {
                    let j = choose|j: int| 0 <= j < ks.len() && ks[j] == k.0;
                    self.lemma_index_of(j);
                    if j < i {
                        assert(old_keys[j] == k.0);
                        assert(self.entries@[j] == old_entries[j]);
                        self.lemma_old_index(old_keys, j);
                    } else if j > i {
                        assert(old_keys[j - 1] == k.0);
                        assert(self.entries@[j] == old_entries[j - 1]);
                        self.lemma_old_index(old_keys, j - 1);
                    }
                }
                assert(self.map() =~= before.insert(sequence, ev));
            }
        }
    }

    proof fn lemma_old_index(&self, old_keys: Seq<u64>, j: int)
        requires
            forall|x: int, y: int| 0 <= x < y < old_keys.len() ==> #[trigger] old_keys[x] < #[trigger] old_keys[y],
            0 <= j < old_keys.len(),
        ensures
            first_index(filed_at(old_keys, old_keys[j]), old_keys.len() as int) == j,
    {
        let p = filed_at(old_keys, old_keys[j]);
        assert forall|x: int| 0 <= x < j implies !#[trigger] p(x) by {
            assert(old_keys[x] < old_keys[j]);
        }
        lemma_first_index_unique(p, old_keys.len() as int, j);
    }

    /// A copy.
    pub fn copied(&self) -> (r: Self)
        requires
            self.wf(),
        ensures
            r.wf(),
            r.map() == self.map(),
    {
        let mut es: Vec<Receipt> = Vec::new();
        let mut i: usize = 0;
        while i < self.entries.len()
            invariant
                i <= self.entries@.len(),
                es@.len() == i,
                forall|j: int| 0 <= j < i ==> (#[trigger] es@[j]).sequence == self.entries@[j].sequence,
                forall|j: int| 0 <= j < i ==> (#[trigger] es@[j]).event@ == self.entries@[j].event@,
            decreases self.entries@.len() - i,
        {
            es.push(Receipt { sequence: self.entries[i].sequence, event: self.entries[i].event.clone() });
            i = i + 1;
        }
        let r = Receipts { entries: es };
        assert(r.keys() =~= self.keys());
        assert forall|k: Sequence| #![auto] r.map().dom().contains(k) implies r.map()[k] == self.map()[k] by {
            self.lemma_index(k.0);
        }
        assert(r.map() =~= self.map());
        r
    }

    /// Whether both hold the same receipts.
    pub fn same(&self, other: &Self) -> (r: bool)
        requires
            self.wf(),
            other.wf(),
        ensures
            r == (self.map() == other.map()),
    {
        proof {
            self.lemma_dom();
            other.lemma_dom();
        }
        if self.entries.len() != other.entries.len() {
            return false;
        }
        let mut i: usize = 0;
        while i < self.entries.len()
            invariant
                self.wf(),
                other.wf(),
                i <= self.entries@.len(),
                self.entries@.len() == other.entries@.len(),
                forall|j: int| 0 <= j < i ==> #[trigger] self.keys()[j] == other.keys()[j],
                forall|j: int| 0 <= j < i ==> #[trigger] self.entries@[j].event@ == other.entries@[j].event@,
            decreases self.entries@.len() - i,
        {
            if self.entries[i].sequence.0 != other.entries[i].sequence.0 {
                proof {
                    let k = Sequence(self.keys()[i as int]);
                    assert(self.map().dom().contains(k));
                    if other.map().dom().contains(k) {
                        let j = choose|j: int| 0 <= j < other.keys().len() && other.keys()[j] == k.0;
                        if j < i {
                            assert(self.keys()[j] == k.0);
                            assert(self.keys()[j] < self.keys()[i as int]);
                        } else if j > i {
                            assert(other.keys()[i as int] < other.keys()[j]);
                            let k2 = Sequence(other.keys()[i as int]);
                            assert(other.map().dom().contains(k2));
                            if self.map().dom().contains(k2) {
                                let m = choose|m: int| 0 <= m < self.keys().len() && self.keys()[m] == k2.0;
                                if m < i {
                                    assert(other.keys()[m] == k2.0);
                                    assert(other.keys()[m] < other.keys()[i as int]);
                                } else if m > i {
                                    assert(self.keys()[i as int] < self.keys()[m]);
                                }
                            }
                        }
                    }
                }
                return false;
            }
            if !self.entries[i].event.same_as(&other.entries[i].event) {
                proof {
                    self.lemma_index_of(i as int);
                    other.lemma_index_of(i as int);
                    let k = Sequence(self.keys()[i as int]);
                    assert(self.map().dom().contains(k));
                    assert(self.map()[k] != other.map()[k]);
                }
                return false;
            }
            i = i + 1;
        }
        proof {
            assert(self.keys() =~= other.keys());
            assert forall|k: Sequence| #![auto] self.map().dom().contains(k) implies self.map()[k] == other.map()[k] by {
                let j = choose|j: int| 0 <= j < self.keys().len() && self.keys()[j] == k.0;
                self.lemma_index_of(j);
                other.lemma_index_of(j);
            }
            assert(self.map() =~= other.map());
        }
        true
    }

    /// Receipts filed from a list, a later entry replacing an earlier one
    /// filed under the same sequence.
    pub fn from_list(list: Vec<Receipt>) -> (r: Self)
        ensures
            r.wf(),
            r.map() == listed(list@),
    {
        let mut r = Receipts::new();
        let mut i: usize = 0;
        let ghost whole = list@;
        let n: usize = list.len();
        let mut list = list;
        while list.len() > 0
            invariant
                r.wf(),
                whole.len() == n,
                i + list@.len() == whole.len(),
                list@ == whole.subrange(i as int, whole.len() as int),
                r.map() == listed(whole.subrange(0, i as int)),
            decreases list@.len(),
        {
            let e = list.remove(0);
            assert(whole.subrange(0, i + 1).drop_last() =~= whole.subrange(0, i as int));
            assert(whole.subrange(0, i + 1).last() == e);
            r.insert(e.sequence, e.event);
            i = i + 1;
            assert(list@ =~= whole.subrange(i as int, whole.len() as int));
        }
        assert(whole.subrange(0, i as int) =~= whole);
        r
    }
}

/// What filing every receipt of a list in turn gives: each sequence to the
/// last event listed under it.
pub open spec fn listed(list: Seq<Receipt>) -> Map<Sequence, CommittedModel>
    decreases list.len(),
{
    if list.len() == 0 {
        Map::empty()
    } else {
        listed(list.drop_last()).insert(list.last().sequence, list.last().event@)
    }
}

} // verus!
