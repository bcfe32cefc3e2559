//! What the driver remembers between committed events that the episode fold
//! does not: queued handoffs, broadcast budgets, open questions, and what the
//! host has reported about each seat.
//!
//! The [`Ledger`] is advanced only by committed events. [`Seen`] is what the
//! host reports -- what a seat was shown and what it ran for -- and moves the
//! wake predicate and nothing else.

use std::collections::VecDeque;

use vstd::prelude::*;

use crate::keyed::{StrMap, Valued};
use crate::text::str_eq;
use crate::types::Sequence;

verus! {

/// One routed handoff held for a recipient that was still working.
#[derive(Debug, PartialEq, Eq)]
pub struct Handoff {
    /// Who broadcast it.
    pub from: String,
    /// The broadcast text, verbatim.
    pub body: String,
    /// The sequence of the broadcast row it came from.
    pub origin: Sequence,
}

/// A handoff as values.
pub struct HandoffModel {
    pub from: Seq<char>,
    pub body: Seq<char>,
    pub origin: Sequence,
}

impl View for Handoff {
    type V = HandoffModel;

    open spec fn view(&self) -> HandoffModel {
        HandoffModel { from: self.from@, body: self.body@, origin: self.origin }
    }
}

impl Clone for Handoff {
    fn clone(&self) -> (r: Self)
        ensures
            r@ == self@,
    {
        Handoff { from: self.from.clone(), body: self.body.clone(), origin: self.origin }
    }
}

/// The values of a queue of handoffs.
pub open spec fn handoff_views(q: Seq<Handoff>) -> Seq<HandoffModel> {
    q.map_values(|h: Handoff| h@)
}

impl Valued for VecDeque<Handoff> {
    type Value = Seq<HandoffModel>;

    open spec fn value(&self) -> Seq<HandoffModel> {
        handoff_views(self@)
    }

    open spec fn inv(&self) -> bool {
        true
    }

    fn copied(&self) -> (r: Self) {
        let mut r: VecDeque<Handoff> = VecDeque::new();
        let mut i: usize = 0;
        while i < self.len()
            invariant
                i <= self@.len(),
                r@.len() == i,
                forall|k: int| 0 <= k < i ==> (#[trigger] r@[k])@ == self@[k]@,
            decreases self@.len() - i,
        {
            r.push_back(self[i].clone());
            i = i + 1;
        }
        assert(handoff_views(r@) =~= handoff_views(self@));
        r
    }

    fn same(&self, other: &Self) -> (r: bool) {
        if self.len() != other.len() {
            assert(handoff_views(self@).len() != handoff_views(other@).len());
            return false;
        }
        let mut i: usize = 0;
        while i < self.len()
            invariant
                i <= self@.len(),
                self@.len() == other@.len(),
                forall|k: int| 0 <= k < i ==> (#[trigger] self@[k])@ == other@[k]@,
            decreases self@.len() - i,
        {
            let a = &self[i];
            let b = &other[i];
            if !(str_eq(a.from.as_str(), b.from.as_str()) && str_eq(a.body.as_str(), b.body.as_str())
                && a.origin.0 == b.origin.0) {
                assert(handoff_views(self@)[i as int] != handoff_views(other@)[i as int]);
                return false;
            }
            i = i + 1;
        }
        assert(handoff_views(self@) =~= handoff_views(other@));
        true
    }
}

/// Broadcasts charged against one assignment.
#[derive(Clone, Copy, Debug, PartialEq, Eq, Structural)]
pub struct AssignmentSpend {
    /// The assignment charged.
    pub assigned_at: Sequence,
    /// Broadcasts routed under it.
    pub broadcasts: u32,
}

impl Valued for AssignmentSpend {
    type Value = AssignmentSpend;

    open spec fn value(&self) -> AssignmentSpend {
        *self
    }

    open spec fn inv(&self) -> bool {
        true
    }

    fn copied(&self) -> (r: Self) {
        *self
    }

    fn same(&self, other: &Self) -> (r: bool) {
        self.assigned_at.0 == other.assigned_at.0 && self.broadcasts == other.broadcasts
    }
}

/// State advanced only by committed events, kept beside the episode fold.
#[derive(Debug, PartialEq, Eq)]
pub struct Ledger {
    /// Handoffs waiting on a busy recipient, oldest first.
    pub queues: StrMap<VecDeque<Handoff>>,
    /// Broadcast budgets, by author.
    pub spent: StrMap<AssignmentSpend>,
    /// Open conversations: each asker to the seats it awaits, with the
    /// sequence of the row that asked.
    pub outstanding_asks: StrMap<StrMap<Sequence>>,
}

/// A ledger as values.
pub struct LedgerModel {
    pub queues: Map<Seq<char>, Seq<HandoffModel>>,
    pub spent: Map<Seq<char>, AssignmentSpend>,
    pub asks: Map<Seq<char>, Map<Seq<char>, Sequence>>,
}

impl View for Ledger {
    type V = LedgerModel;

    open spec fn view(&self) -> LedgerModel {
        LedgerModel {
            queues: self.queues.map(),
            spent: self.spent.map(),
            asks: self.outstanding_asks.map(),
        }
    }
}

/// Broadcasts already charged to `id`'s assignment at `at`.
pub open spec fn charged_spec(spent: Map<Seq<char>, AssignmentSpend>, id: Seq<char>, at: Sequence) -> u32 {
    if spent.dom().contains(id) && spent[id].assigned_at == at {
        spent[id].broadcasts
    } else {
        0
    }
}

/// How many handoffs wait on `id`.
pub open spec fn queue_len_spec(queues: Map<Seq<char>, Seq<HandoffModel>>, id: Seq<char>) -> nat {
    if queues.dom().contains(id) {
        queues[id].len()
    } else {
        0
    }
}

/// The seats `id` still awaits, when there are any.
pub open spec fn awaiting_spec(asks: Map<Seq<char>, Map<Seq<char>, Sequence>>, id: Seq<char>) -> Option<
    Map<Seq<char>, Sequence>,
> {
    if asks.dom().contains(id) && asks[id].dom() != Set::<Seq<char>>::empty() {
        Some(asks[id])
    } else {
        None
    }
}

/// Only the entries that still await somebody.
pub open spec fn nonempty_asks(asks: Map<Seq<char>, Map<Seq<char>, Sequence>>) -> Map<
    Seq<char>,
    Map<Seq<char>, Sequence>,
> {
    Map::new(
        |k: Seq<char>| asks.dom().contains(k) && asks[k].dom() != Set::<Seq<char>>::empty(),
        |k: Seq<char>| asks[k],
    )
}

/// The asks after `by` answered `asker`.
pub open spec fn answered_spec(
    asks: Map<Seq<char>, Map<Seq<char>, Sequence>>,
    by: Seq<char>,
    asker: Seq<char>,
) -> Map<Seq<char>, Map<Seq<char>, Sequence>> {
    let updated = if asks.dom().contains(asker) {
        asks.insert(asker, asks[asker].remove(by))
    } else {
        asks
    };
    nonempty_asks(updated)
}

/// Nothing queued and nothing awaited.
pub open spec fn drained_spec(l: LedgerModel) -> bool {
    &&& forall|k: Seq<char>| #[trigger] l.queues.dom().contains(k) ==> l.queues[k].len() == 0
    &&& l.asks.dom() == Set::<Seq<char>>::empty()
}

impl Ledger {
    /// Every map is well formed.
    pub open spec fn wf(&self) -> bool {
        &&& self.queues.wf()
        &&& self.spent.wf()
        &&& self.outstanding_asks.wf()
    }

    /// The model of an empty ledger.
    pub open spec fn new_model() -> LedgerModel {
        LedgerModel { queues: Map::empty(), spent: Map::empty(), asks: Map::empty() }
    }

    /// A ledger with nothing in it.
    pub fn new() -> (r: Self)
        ensures
            r.wf(),
            r@ == Ledger::new_model(),
            r@.queues == Map::<Seq<char>, Seq<HandoffModel>>::empty(),
            r@.spent == Map::<Seq<char>, AssignmentSpend>::empty(),
            r@.asks == Map::<Seq<char>, Map<Seq<char>, Sequence>>::empty(),
    {
        Ledger { queues: StrMap::new(), spent: StrMap::new(), outstanding_asks: StrMap::new() }
    }

    /// Broadcasts already charged to this seat's assignment at `assigned_at`.
    pub fn charged(&self, agent_id: &str, assigned_at: Sequence) -> (r: u32)
        requires
            self.wf(),
        ensures
            r == charged_spec(self@.spent, agent_id@, assigned_at),
    {
        match self.spent.get(agent_id) {
            Some(record) => {
                if record.assigned_at.0 == assigned_at.0 {
                    record.broadcasts
                } else {
                    0
                }
            },
            None => 0,
        }
    }

    /// Charge one more broadcast to this seat's assignment at `assigned_at`.
    pub fn charge(&mut self, agent_id: &str, assigned_at: Sequence)
        requires
            old(self).wf(),
        ensures
            final(self).wf(),
            final(self)@.queues == old(self)@.queues,
            final(self)@.asks == old(self)@.asks,
            final(self)@.spent == old(self)@.spent.insert(
                agent_id@,
                AssignmentSpend {
                    assigned_at,
                    broadcasts: if charged_spec(old(self)@.spent, agent_id@, assigned_at) == u32::MAX {
                        u32::MAX
                    } else {
                        (charged_spec(old(self)@.spent, agent_id@, assigned_at) + 1) as u32
                    },
                },
            ),
    {
        let broadcasts = self.charged(agent_id, assigned_at).saturating_add(1);
        self.spent.insert(String::from_str(agent_id), AssignmentSpend { assigned_at, broadcasts });
    }

    /// How many handoffs wait on this seat.
    pub fn queue_len(&self, agent_id: &str) -> (r: usize)
        requires
            self.wf(),
        ensures
            r == queue_len_spec(self@.queues, agent_id@),
    {
        match self.queues.get(agent_id) {
            Some(queue) => queue.len(),
            None => 0,
        }
    }

    /// Queue a handoff behind whatever this seat already holds.
    pub fn push(&mut self, agent_id: &str, handoff: Handoff)
        requires
            old(self).wf(),
        ensures
            final(self).wf(),
            final(self)@.spent == old(self)@.spent,
            final(self)@.asks == old(self)@.asks,
            final(self)@.queues == old(self)@.queues.insert(
                agent_id@,
                if old(self)@.queues.dom().contains(agent_id@) {
                    old(self)@.queues[agent_id@].push(handoff@)
                } else {
                    seq![handoff@]
                },
            ),
    {
        let mut queue = match self.queues.get(agent_id) {
            Some(queue) => queue.copied(),
            None => VecDeque::new(),
        };
        let ghost before = handoff_views(queue@);
        assert(handoff_views(Seq::<Handoff>::empty()) =~= Seq::<HandoffModel>::empty());
        assert(seq![handoff@] =~= Seq::<HandoffModel>::empty().push(handoff@));
        queue.push_back(handoff);
        assert(handoff_views(queue@) =~= before.push(queue@[queue@.len() - 1]@));
        self.queues.insert(String::from_str(agent_id), queue);
    }

    /// Hand over the oldest handoff held for this seat; the seat's queue
    /// goes once it is empty.
    pub fn pop(&mut self, agent_id: &str) -> (r: Option<Handoff>)
        requires
            old(self).wf(),
        ensures
            final(self).wf(),
            final(self)@.spent == old(self)@.spent,
            final(self)@.asks == old(self)@.asks,
            !old(self)@.queues.dom().contains(agent_id@) ==> r is None && final(self)@.queues
                == old(self)@.queues,
            old(self)@.queues.dom().contains(agent_id@) ==> {
                let q = old(self)@.queues[agent_id@];
                &&& q.len() == 0 ==> r is None
                &&& q.len() > 0 ==> (r matches Some(h) && h@ == q[0])
                &&& q.len() <= 1 ==> final(self)@.queues == old(self)@.queues.remove(agent_id@)
                &&& q.len() > 1 ==> final(self)@.queues == old(self)@.queues.insert(
                    agent_id@,
                    q.drop_first(),
                )
            },
    {
        let mut queue = match self.queues.get(agent_id) {
            Some(queue) => queue.copied(),
            None => {
                return None;
            },
        };
        let ghost q = handoff_views(queue@);
        let handoff = match queue.pop_front() {
            Some(handoff) => handoff,
            None => {
                self.queues.remove(agent_id);
                return None;
            },
        };
        assert(handoff_views(queue@) =~= q.drop_first());
        if queue.len() == 0 {
            self.queues.remove(agent_id);
        } else {
            self.queues.insert(String::from_str(agent_id), queue);
        }
        Some(handoff)
    }

    /// The seats this one is still waiting on, with the row that asked each.
    pub fn awaiting(&self, agent_id: &str) -> (r: Option<&StrMap<Sequence>>)
        requires
            self.wf(),
        ensures
            r is Some <==> awaiting_spec(self@.asks, agent_id@) is Some,
            r matches Some(m) ==> m.wf() && Some(m.map()) == awaiting_spec(self@.asks, agent_id@),
    {
        match self.outstanding_asks.get(agent_id) {
            Some(asked) => {
                if asked.is_empty() {
                    None
                } else {
                    Some(asked)
                }
            },
            None => None,
        }
    }

    /// Record that `asker` awaits `seat`'s answer to the row at `at`.
    pub fn open_ask(&mut self, asker: &str, seat: &str, at: Sequence)
        requires
            old(self).wf(),
        ensures
            final(self).wf(),
            final(self)@.queues == old(self)@.queues,
            final(self)@.spent == old(self)@.spent,
            final(self)@.asks == old(self)@.asks.insert(
                asker@,
                if old(self)@.asks.dom().contains(asker@) {
                    old(self)@.asks[asker@].insert(seat@, at)
                } else {
                    Map::<Seq<char>, Sequence>::empty().insert(seat@, at)
                },
            ),
    {
        let mut asked = match self.outstanding_asks.get(asker) {
            Some(asked) => asked.copied(),
            None => StrMap::new(),
        };
        asked.insert(String::from_str(seat), at);
        self.outstanding_asks.insert(String::from_str(asker), asked);
    }

    /// A private message from `by` to `asker` is the answer `asker` awaited
    /// from `by`: the conclusion of the conversation between them. Entries
    /// that await nobody are dropped.
    pub fn answered(&mut self, by: &str, asker: &str)
        requires
            old(self).wf(),
        ensures
            final(self).wf(),
            final(self)@.queues == old(self)@.queues,
            final(self)@.spent == old(self)@.spent,
            final(self)@.asks == answered_spec(old(self)@.asks, by@, asker@),
    {
        let ghost before = self@.asks;
        if let Some(asked) = self.outstanding_asks.get(asker) {
            let mut asked = asked.copied();
            asked.remove(by);
            self.outstanding_asks.insert(String::from_str(asker), asked);
        }
        let ghost updated = self@.asks;
        assert(updated == if before.dom().contains(asker@) {
            before.insert(asker@, before[asker@].remove(by@))
        } else {
            before
        });
        let mut kept: StrMap<StrMap<Sequence>> = StrMap::new();
        let n = self.outstanding_asks.len();
        let mut i: usize = 0;
        proof {
            self.outstanding_asks.lemma_keys();
        }
        while i < n
            invariant
                self.outstanding_asks.wf(),
                n == self.outstanding_asks.size(),
                i <= n,
                kept.wf(),
                updated == self.outstanding_asks.map(),
                kept.map() == Map::new(
                    |k: Seq<char>|
                        self.outstanding_asks.keys().subrange(0, i as int).contains(k)
                            && updated[k].dom() != Set::<Seq<char>>::empty(),
                    |k: Seq<char>| updated[k],
                ),
            decreases n - i,
        {
            proof {
                self.outstanding_asks.lemma_keys();
            }
            let key = self.outstanding_asks.key_at(i);
            let value = self.outstanding_asks.value_at(i);
            let ghost prior = kept.map();
            let ghost ks = self.outstanding_asks.keys();
            if !value.is_empty() {
                kept.insert(key.clone(), value.copied());
            }
            proof {
                assert(ks.subrange(0, i + 1) =~= ks.subrange(0, i as int).push(ks[i as int]));
                let goal = Map::new(
                    |k: Seq<char>|
                        ks.subrange(0, i + 1).contains(k) && updated[k].dom() != Set::<
                            Seq<char>,
                        >::empty(),
                    |k: Seq<char>| updated[k],
                );
                assert(value.value() == updated[ks[i as int]]);
                assert forall|k: Seq<char>| #![auto] kept.map().dom().contains(k) <==> goal.dom().contains(k) by {
                    if k == ks[i as int] {
                        assert(ks.subrange(0, i + 1).contains(k)) by {
                            assert(ks.subrange(0, i + 1)[i as int] == k);
                        }
                    } else {
                        if ks.subrange(0, i + 1).contains(k) {
                            let j = choose|j: int| 0 <= j < i + 1 && #[trigger] ks.subrange(0, i + 1)[j] == k;
                            assert(ks.subrange(0, i as int)[j] == k);
                        }
                        if ks.subrange(0, i as int).contains(k) {
                            let j = choose|j: int| 0 <= j < i && #[trigger] ks.subrange(0, i as int)[j] == k;
                            assert(ks.subrange(0, i + 1)[j] == k);
                        }
                    }
                }
                assert forall|k: Seq<char>| #![auto] kept.map().dom().contains(k) implies kept.map()[k] == goal[k] by {
                    if k != ks[i as int] || value.map().dom() == Set::<Seq<char>>::empty() {
                        assert(kept.map()[k] == prior[k]);
                        assert(prior.dom().contains(k));
                        assert(prior[k] == updated[k]);
                    } else {
                        assert(kept.map()[k] == value.map());
                        assert(value.map() == value.value());
                    }
                    assert(goal.dom().contains(k));
                    assert(goal[k] == updated[k]);
                }
                assert(kept.map() =~= goal);
            }
            i = i + 1;
        }
        proof {
            self.outstanding_asks.lemma_keys();
            assert(self.outstanding_asks.keys().subrange(0, n as int) =~= self.outstanding_asks.keys());
            assert(kept.map() =~= nonempty_asks(updated));
        }
        self.outstanding_asks = kept;
    }

    /// Nothing queued and nothing awaited.
    pub fn is_drained(&self) -> (r: bool)
        requires
            self.wf(),
        ensures
            r == drained_spec(self@),
    {
        proof {
            self.queues.lemma_keys();
        }
        let n = self.queues.len();
        let mut i: usize = 0;
        while i < n
            invariant
                self.wf(),
                n == self.queues.size(),
                n == self.queues.keys().len(),
                i <= n,
                forall|j: int| 0 <= j < i ==> #[trigger] self.queues.map()[self.queues.keys()[j]].len() == 0,
            decreases n - i,
        {
            let queue = self.queues.value_at(i);
            assert(handoff_views(queue@).len() == queue@.len());
            if queue.len() != 0 {
                assert(self@.queues.dom().contains(self.queues.keys()[i as int]));
                assert(!drained_spec(self@));
                return false;
            }
            i = i + 1;
        }
        proof {
            assert forall|k: Seq<char>| #[trigger] self@.queues.dom().contains(k) implies self@.queues[k].len() == 0 by {
                self.queues.lemma_keys();
                assert(self.queues.keys().contains(k));
                let j = choose|j: int| 0 <= j < self.queues.keys().len() && self.queues.keys()[j] == k;
                assert(self.queues.map()[self.queues.keys()[j]].len() == 0);
            }
        }
        self.outstanding_asks.is_empty()
    }
}

impl Ledger {
    /// A copy.
    pub fn copied(&self) -> (r: Self)
        requires
            self.wf(),
        ensures
            r.wf(),
            r@ == self@,
    {
        Ledger {
            queues: self.queues.copied(),
            spent: self.spent.copied(),
            outstanding_asks: self.outstanding_asks.copied(),
        }
    }

    /// Whether both hold the same records.
    pub fn same(&self, other: &Ledger) -> (r: bool)
        requires
            self.wf(),
            other.wf(),
        ensures
            r == (self@ == other@),
    {
        self.queues.same(&other.queues) && self.spent.same(&other.spent)
            && self.outstanding_asks.same(&other.outstanding_asks)
    }
}

/// What the host has reported about each seat, outside the committed record.
#[derive(Debug, PartialEq, Eq)]
pub struct Seen {
    /// The newest sequence each seat has actually been shown.
    pub delivered_through: StrMap<Sequence>,
    /// The assignment each seat last ran a turn for. Not persisted: after a
    /// restart nothing is running.
    pub ran_for: StrMap<Sequence>,
}

/// What the host reported, as values.
pub struct SeenModel {
    pub delivered_through: Map<Seq<char>, Sequence>,
    pub ran_for: Map<Seq<char>, Sequence>,
}

impl View for Seen {
    type V = SeenModel;

    open spec fn view(&self) -> SeenModel {
        SeenModel { delivered_through: self.delivered_through.map(), ran_for: self.ran_for.map() }
    }
}

/// The newest of what was shown and `through`.
pub open spec fn delivered_spec(m: Map<Seq<char>, Sequence>, id: Seq<char>, through: Sequence) -> Map<
    Seq<char>,
    Sequence,
> {
    if m.dom().contains(id) && m[id].0 >= through.0 {
        m
    } else {
        m.insert(id, through)
    }
}

impl Seen {
    /// Both maps are well formed.
    pub open spec fn wf(&self) -> bool {
        self.delivered_through.wf() && self.ran_for.wf()
    }

    /// The model of nothing reported.
    pub open spec fn new_model() -> SeenModel {
        SeenModel { delivered_through: Map::empty(), ran_for: Map::empty() }
    }

    /// Nothing reported.
    pub fn new() -> (r: Self)
        ensures
            r.wf(),
            r@ == Seen::new_model(),
            r@.delivered_through == Map::<Seq<char>, Sequence>::empty(),
            r@.ran_for == Map::<Seq<char>, Sequence>::empty(),
    {
        Seen { delivered_through: StrMap::new(), ran_for: StrMap::new() }
    }

    /// Record that a seat has been shown every row through `through`; what
    /// it has been shown never moves back.
    pub fn delivered(&mut self, agent_id: &str, through: Sequence)
        requires
            old(self).wf(),
        ensures
            final(self).wf(),
            final(self)@.ran_for == old(self)@.ran_for,
            final(self)@.delivered_through == delivered_spec(
                old(self)@.delivered_through,
                agent_id@,
                through,
            ),
    {
        let newer = match self.delivered_through.get(agent_id) {
            Some(shown) => through.0 > shown.0,
            None => true,
        };
        if newer {
            self.delivered_through.insert(String::from_str(agent_id), through);
        }
    }

    /// Record that a seat ran a turn for its assignment at `assigned_at`.
    pub fn ran(&mut self, agent_id: &str, assigned_at: Sequence)
        requires
            old(self).wf(),
        ensures
            final(self).wf(),
            final(self)@.delivered_through == old(self)@.delivered_through,
            final(self)@.ran_for == old(self)@.ran_for.insert(agent_id@, assigned_at),
    {
        self.ran_for.insert(String::from_str(agent_id), assigned_at);
    }
}

impl Seen {
    /// A copy.
    pub fn copied(&self) -> (r: Self)
        requires
            self.wf(),
        ensures
            r.wf(),
            r@ == self@,
    {
        Seen { delivered_through: self.delivered_through.copied(), ran_for: self.ran_for.copied() }
    }
}

} // verus!
