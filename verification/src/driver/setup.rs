//! A bounded driver over one validated hive, and how it starts and resumes
//! caller-owned state.

use vstd::prelude::*;

use crate::completion::{self, CompletionEpisodeState, ParticipantModel};
use crate::driver::order::{contains_id, prune_pending_order, pruned_order};
use crate::driver::receipts::{greatest_key, CommittedModel, Receipts};
use crate::driver::state::{episode_floor, episode_freshness_floor, seq_max, DriverModel, DriverState};
use crate::error::Error;
use crate::first::{first_index, lemma_first_index, lemma_first_index_unique};
use crate::graph::{discard, outside_pred, BoundAgent, OpenHumanHive};
use crate::keyed::StrMap;
use crate::ledger::{Handoff, Ledger, LedgerModel, Seen};
use crate::text::{blank, is_blank, lemma_lt_irreflexive, seq_lt, sort_distinct, str_eq, strictly_sorted, views};
use crate::types::{id_views, Sequence};

verus! {

/// A bounded driver over one validated hive.
#[derive(Debug)]
pub struct CompletionDriver<'a, A> {
    hive: &'a OpenHumanHive<A>,
    round_width: usize,
    queue_depth: usize,
    broadcast_budget: Option<u32>,
}

/// Whether the `i`th participant is blank, repeats an earlier one, or is
/// outside the hive.
pub open spec fn participant_refused(members: Seq<Seq<char>>, ps: Seq<ParticipantModel>, i: int) -> bool {
    ||| is_blank(ps[i].agent_id)
    ||| exists|j: int| 0 <= j < i && (#[trigger] ps[j]).agent_id == ps[i].agent_id
    ||| !members.contains(ps[i].agent_id)
}

/// `participant_refused` as a predicate on indices.
pub open spec fn participant_refusal(members: Seq<Seq<char>>, ps: Seq<ParticipantModel>) -> spec_fn(int) -> bool {
    |i: int| participant_refused(members, ps, i)
}

/// Whether the receipt filed under `k` disagrees with its event, is not after
/// the watermark, or names an author outside the hive.
pub open spec fn receipt_refused(
    members: Seq<Seq<char>>,
    w: Sequence,
    m: Map<Sequence, CommittedModel>,
    k: Sequence,
) -> bool {
    ||| m[k].sequence != k
    ||| k.0 <= w.0
    ||| !members.contains(m[k].author_id)
}

/// Whether some receipt is refused.
pub open spec fn some_receipt_refused(members: Seq<Seq<char>>, w: Sequence, m: Map<Sequence, CommittedModel>) -> bool {
    exists|k: Sequence| #[trigger] m.dom().contains(k) && receipt_refused(members, w, m, k)
}

/// The refused receipt filed under the smallest sequence.
pub open spec fn first_refused_receipt(members: Seq<Seq<char>>, w: Sequence, m: Map<Sequence, CommittedModel>) -> Sequence {
    choose|k: Sequence|
        m.dom().contains(k) && receipt_refused(members, w, m, k) && forall|j: Sequence|
            #[trigger] m.dom().contains(j) && receipt_refused(members, w, m, j) ==> k.0 <= j.0
}

/// Whether some id of `s` is outside the hive.
pub open spec fn some_outside(members: Seq<Seq<char>>, s: Set<Seq<char>>) -> bool {
    exists|x: Seq<char>| #[trigger] s.contains(x) && !members.contains(x)
}

/// The id of `s` outside the hive that sorts first.
pub open spec fn least_outside(members: Seq<Seq<char>>, s: Set<Seq<char>>) -> Seq<char> {
    choose|x: Seq<char>|
        s.contains(x) && !members.contains(x) && forall|y: Seq<char>|
            #[trigger] s.contains(y) && !members.contains(y) ==> y == x || seq_lt(x, y)
}

/// Every id a ledger names: queue owners and the authors of queued
/// handoffs, budget holders, askers and the seats they await.
pub open spec fn named_set(l: LedgerModel) -> Set<Seq<char>> {
    l.queues.dom() + l.spent.dom() + l.asks.dom() + Set::new(
        |x: Seq<char>| exists|k: Seq<char>| #[trigger] l.asks.dom().contains(k) && l.asks[k].dom().contains(x),
    ) + Set::new(
        |x: Seq<char>|
            exists|k: Seq<char>, i: int|
                #[trigger] l.queues.dom().contains(k) && 0 <= i < l.queues[k].len() && (#[trigger] l.queues[k][i]).from == x,
    )
}

/// The freshness floor a state's episode and receipts imply.
pub open spec fn derived_floor(s: DriverModel) -> Sequence {
    match greatest_key(s.receipts) {
        None => episode_floor(s.episode),
        Some(k) => seq_max(episode_floor(s.episode), k),
    }
}

/// What checking the participants gives: the first refused one, by the
/// first reason that applies to it.
pub open spec fn participants_checked(members: Seq<Seq<char>>, ps: Seq<ParticipantModel>, r: Result<(), Error>) -> bool {
    let f = first_index(participant_refusal(members, ps), ps.len() as int);
    if f < ps.len() {
        if is_blank(ps[f].agent_id) {
            r matches Err(Error::Completion(completion::Error::InvalidCompletionParticipant))
        } else if exists|j: int| 0 <= j < f && (#[trigger] ps[j]).agent_id == ps[f].agent_id {
            r matches Err(Error::Completion(completion::Error::DuplicateCompletionParticipant { agent_id }))
                && agent_id@ == ps[f].agent_id
        } else {
            r matches Err(Error::OutOfHiveParticipant { agent_id }) && agent_id@ == ps[f].agent_id
        }
    } else {
        r is Ok
    }
}

/// What checking the receipts gives: the refused receipt filed first, by
/// the first reason that applies to it.
pub open spec fn receipts_checked(
    members: Seq<Seq<char>>,
    w: Sequence,
    m: Map<Sequence, CommittedModel>,
    r: Result<(), Error>,
) -> bool {
    if some_receipt_refused(members, w, m) {
        let k = first_refused_receipt(members, w, m);
        if m[k].sequence != k {
            r matches Err(Error::InvalidReceiptSequence { stored, event }) && stored == k && event
                == m[k].sequence
        } else if k.0 <= w.0 {
            r matches Err(Error::StaleCommittedEvent { sequence }) && sequence == k
        } else {
            r matches Err(Error::OutOfHiveParticipant { agent_id }) && agent_id@ == m[k].author_id
        }
    } else {
        r is Ok
    }
}

/// What resuming caller-owned state gives: each check in turn, the first
/// that fails refused, and otherwise the state with its accepted order
/// pruned.
pub open spec fn resume_result(
    members: Seq<Seq<char>>,
    desk_id: Seq<char>,
    s: DriverModel,
    r: Result<DriverState, Error>,
) -> bool {
    let ps = s.episode.participants;
    let f = first_index(participant_refusal(members, ps), ps.len() as int);
    let w = s.episode.watermark;
    let order_f = first_index(outside_pred(members, s.pending_order), s.pending_order.len() as int);
    if s.revision as int != s.receipts.dom().len() {
        r matches Err(Error::InvalidStateRevision { revision, receipt_count }) && revision == s.revision
            && receipt_count == s.receipts.dom().len()
    } else if s.episode.conversation.desk_id != desk_id {
        r matches Err(Error::OutOfHiveEpisode { desk_id: d }) && d@ == desk_id
    } else if ps.len() == 0 {
        r matches Err(Error::Completion(completion::Error::NoCompletionParticipants))
    } else if f < ps.len() {
        participants_checked(members, ps, discard(r))
    } else if some_receipt_refused(members, w, s.receipts) {
        receipts_checked(members, w, s.receipts, discard(r))
    } else if order_f < s.pending_order.len() {
        r matches Err(Error::OutOfHiveParticipant { agent_id }) && agent_id@ == s.pending_order[order_f]
    } else if some_outside(members, named_set(s.ledger)) {
        r matches Err(Error::OutOfHiveParticipant { agent_id }) && agent_id@ == least_outside(
            members,
            named_set(s.ledger),
        )
    } else if some_outside(members, s.seen.delivered_through.dom()) {
        r matches Err(Error::OutOfHiveParticipant { agent_id }) && agent_id@ == least_outside(
            members,
            s.seen.delivered_through.dom(),
        )
    } else if s.freshness_floor != derived_floor(s) {
        r matches Err(Error::InvalidFreshnessFloor { stored, derived }) && stored == s.freshness_floor
            && derived == derived_floor(s)
    } else {
        r matches Ok(t) && t.wf() && t@ == (DriverModel {
            pending_order: pruned_order(s.pending_order, ps),
            ..s
        })
    }
}

impl<'a, A: BoundAgent> CompletionDriver<'a, A> {
    /// The hive driven.
    pub closed spec fn hive_view(&self) -> OpenHumanHive<A> {
        *self.hive
    }

    /// How many seats one round may hold.
    pub closed spec fn width(&self) -> usize {
        self.round_width
    }

    /// How many handoffs one recipient may hold.
    pub closed spec fn depth(&self) -> usize {
        self.queue_depth
    }

    /// How many broadcasts one assignment may route, when limited.
    pub closed spec fn budget(&self) -> Option<u32> {
        self.broadcast_budget
    }

    /// A driver over a validated hive with nonzero bounds.
    pub open spec fn wf(&self) -> bool {
        &&& self.hive_view().wf()
        &&& self.width() > 0
        &&& self.depth() > 0
    }

    /// The canonical members of the hive driven.
    pub open spec fn members(&self) -> Seq<Seq<char>> {
        self.hive_view().member_ids()
    }

    /// Bind a driver to one hive and a nonzero round width. Each recipient
    /// may hold `round_width` queued handoffs, and an assignment may
    /// broadcast without limit.
    pub fn new(hive: &'a OpenHumanHive<A>, round_width: usize) -> (r: Result<Self, Error>)
        requires
            hive.wf(),
        ensures
            round_width == 0 <==> r matches Err(Error::ZeroRoundWidth),
            r matches Ok(d) ==> d.wf() && d.hive_view() == *hive && d.width() == round_width
                && d.depth() == round_width && d.budget() is None,
            r is Ok || r matches Err(Error::ZeroRoundWidth),
    {
        if round_width == 0 {
            return Err(Error::ZeroRoundWidth);
        }
        Ok(CompletionDriver { hive, round_width, queue_depth: round_width, broadcast_budget: None })
    }

    /// How many handoffs one recipient may hold before further ones are
    /// refused and the work stays with its author.
    pub fn with_queue_depth(self, queue_depth: usize) -> (r: Result<Self, Error>)
        ensures
            queue_depth == 0 <==> r matches Err(Error::ZeroQueueDepth),
            r is Ok || r matches Err(Error::ZeroQueueDepth),
            r matches Ok(d) ==> d.hive_view() == self.hive_view() && d.width() == self.width()
                && d.depth() == queue_depth && d.budget() == self.budget(),
            self.wf() ==> (r matches Ok(d) ==> d.wf()),
    {
        if queue_depth == 0 {
            return Err(Error::ZeroQueueDepth);
        }
        let mut d = self;
        d.queue_depth = queue_depth;
        Ok(d)
    }

    /// How many broadcasts one assignment may route before the author is
    /// refused. `None` is unlimited.
    pub fn with_broadcast_budget(self, budget: Option<u32>) -> (r: Self)
        ensures
            r.hive_view() == self.hive_view(),
            r.width() == self.width(),
            r.depth() == self.depth(),
            r.budget() == budget,
    {
        let mut d = self;
        d.broadcast_budget = budget;
        d
    }

    /// The hive driven.
    pub fn hive(&self) -> (r: &'a OpenHumanHive<A>)
        ensures
            *r == self.hive_view(),
    {
        self.hive
    }

    /// The round width.
    pub fn round_width(&self) -> (r: usize)
        ensures
            r == self.width(),
    {
        self.round_width
    }

    /// The per-recipient queue depth.
    pub fn queue_depth(&self) -> (r: usize)
        ensures
            r == self.depth(),
    {
        self.queue_depth
    }

    /// The per-assignment broadcast budget.
    pub fn broadcast_budget(&self) -> (r: Option<u32>)
        ensures
            r == self.budget(),
    {
        self.broadcast_budget
    }

    /// Refuse an id outside the hive.
    pub fn bound(&self, agent_id: &str) -> (r: Result<(), Error>)
        requires
            self.wf(),
        ensures
            r is Ok <==> self.members().contains(agent_id@),
            r matches Err(e) ==> e matches Error::OutOfHiveParticipant { agent_id: a } && a@ == agent_id@,
    {
        if self.hive.bound_agent(agent_id).is_none() {
            return Err(Error::OutOfHiveParticipant { agent_id: String::from_str(agent_id) });
        }
        Ok(())
    }

    /// Start and validate new caller-owned state for `episode`.
    pub fn start(&self, episode: CompletionEpisodeState) -> (r: Result<DriverState, Error>)
        requires
            self.wf(),
        ensures
            resume_result(
                self.members(),
                self.hive_view().graph_model().desk.id,
                DriverModel {
                    episode: episode@,
                    receipts: Map::empty(),
                    freshness_floor: episode_floor(episode@),
                    pending_order: seq![],
                    revision: 0,
                    ledger: Ledger::new_model(),
                    seen: Seen::new_model(),
                },
                r,
            ),
    {
        let freshness_floor = episode_freshness_floor(&episode);
        let state = DriverState {
            episode,
            receipts: Receipts::new(),
            freshness_floor,
            pending_order: Vec::new(),
            revision: 0,
            ledger: Ledger::new(),
            seen: Seen::new(),
        };
        assert(id_views(state.pending_order@) =~= Seq::<Seq<char>>::empty());
        self.resume(state)
    }
}

} // verus!

verus! {

/// `b` is the id of `s` outside the hive that sorts first, or `None` when
/// every id of `s` is a member.
pub open spec fn least_so_far(members: Seq<Seq<char>>, s: Set<Seq<char>>, b: Option<String>) -> bool {
    &&& b is None <==> !some_outside(members, s)
    &&& b matches Some(x) ==> s.contains(x@) && !members.contains(x@) && forall|y: Seq<char>|
        #[trigger] s.contains(y) && !members.contains(y) ==> y == x@ || seq_lt(x@, y)
}

/// The least outside id is the one `least_so_far` found.
pub proof fn lemma_least_found(members: Seq<Seq<char>>, s: Set<Seq<char>>, b: Option<String>)
    requires
        least_so_far(members, s, b),
        b is Some,
    ensures
        some_outside(members, s),
        least_outside(members, s) == b->Some_0@,
{
    let x = b->Some_0@;
    let c = least_outside(members, s);
    assert(s.contains(x) && !members.contains(x));
    assert(c == x || seq_lt(x, c));
    assert(x == c || seq_lt(c, x));
    if c != x {
        crate::text::lemma_lt_asymmetric(x, c);
    }
}

/// Fold `ids` into the least outside id found so far.
fn fold_least<A: BoundAgent>(
    hive: &OpenHumanHive<A>,
    ids: &Vec<String>,
    best: Option<String>,
    Ghost(s): Ghost<Set<Seq<char>>>,
) -> (r: Option<String>)
    requires
        hive.wf(),
        least_so_far(hive.member_ids(), s, best),
    ensures
        least_so_far(hive.member_ids(), s + id_views(ids@).to_set(), r),
{
    let ghost m = hive.member_ids();
    let mut best = best;
    let mut i: usize = 0;
    assert(s + id_views(ids@.subrange(0, 0)).to_set() =~= s);
    while i < ids.len()
        invariant
            hive.wf(),
            m == hive.member_ids(),
            i <= ids@.len(),
            least_so_far(m, s + id_views(ids@.subrange(0, i as int)).to_set(), best),
        decreases ids@.len() - i,
    {
        let ghost before = s + id_views(ids@.subrange(0, i as int)).to_set();
        let ghost after = s + id_views(ids@.subrange(0, i + 1)).to_set();
        let ghost x = ids@[i as int]@;
        assert(id_views(ids@.subrange(0, i + 1)) =~= id_views(ids@.subrange(0, i as int)).push(x));
        assert forall|y: Seq<char>| #[trigger] after.contains(y) <==> before.insert(x).contains(y) by {
            let a = id_views(ids@.subrange(0, i + 1));
            let b = id_views(ids@.subrange(0, i as int));
            if a.contains(y) && y != x {
                let k = choose|k: int| 0 <= k < a.len() && a[k] == y;
                assert(b[k] == y);
            }
            if b.contains(y) {
                let k = choose|k: int| 0 <= k < b.len() && b[k] == y;
                assert(a[k] == y);
            }
            if y == x {
                assert(a[i as int] == x);
            }
        }
        assert(after =~= before.insert(x));
        let outside = hive.bound_agent(ids[i].as_str()).is_none();
        if outside {
            let better = match &best {
                None => true,
                Some(b) => crate::text::str_lt(ids[i].as_str(), b.as_str()),
            };
            if better {
                proof {
                    if let Some(b) = best {
                        assert forall|y: Seq<char>| #[trigger] after.contains(y) && !m.contains(y) implies y == x || seq_lt(x, y) by {
                            if y != x {
                                assert(before.contains(y));
                                if y != b@ {
                                    crate::text::lemma_lt_transitive(x, b@, y);
                                }
                            }
                        }
                    } else {
                        assert forall|y: Seq<char>| #[trigger] after.contains(y) && !m.contains(y) implies y == x || seq_lt(x, y) by {
                            if y != x {
                                assert(before.contains(y));
                                assert(some_outside(m, before));
                            }
                        }
                    }
                    assert(after.contains(x));
                }
                best = Some(ids[i].clone());
            } else {
                proof {
                    let b = best->Some_0@;
                    crate::text::lemma_lt_total(x, b);
                    assert forall|y: Seq<char>| #[trigger] after.contains(y) && !m.contains(y) implies y == b || seq_lt(b, y) by {
                        if y == x && x != b {
                            assert(seq_lt(b, x));
                        }
                    }
                    assert(before.contains(b));
                }
            }
        } else {
            proof {
                assert forall|y: Seq<char>| #[trigger] after.contains(y) && !m.contains(y) implies before.contains(y) by {}
                if some_outside(m, after) {
                    let y = choose|y: Seq<char>| #[trigger] after.contains(y) && !m.contains(y);
                    assert(before.contains(y));
                }
                if some_outside(m, before) {
                    let y = choose|y: Seq<char>| #[trigger] before.contains(y) && !m.contains(y);
                    assert(after.contains(y));
                }
            }
        }
        i = i + 1;
    }
    assert(ids@.subrange(0, i as int) =~= ids@);
    best
}

} // verus!

verus! {

impl<'a, A: BoundAgent> CompletionDriver<'a, A> {
    /// The least id a ledger names that is outside the hive, if any.
    fn least_unbound_named(&self, ledger: &Ledger) -> (r: Option<String>)
        requires
            self.wf(),
            ledger.wf(),
        ensures
            least_so_far(self.members(), named_set(ledger@), r),
    {
        let hive = self.hive;
        let ghost m = self.members();
        let ghost l = ledger@;
        assert(least_so_far(m, Set::empty(), None));
        let qk = ledger.queues.sorted_keys();
        let best = fold_least(hive, &qk, None, Ghost(Set::empty()));
        let sk = ledger.spent.sorted_keys();
        let best = fold_least(hive, &sk, best, Ghost(Set::empty() + id_views(qk@).to_set()));
        let ak = ledger.outstanding_asks.sorted_keys();
        let ghost s3 = Set::empty() + id_views(qk@).to_set() + id_views(sk@).to_set();
        let mut best = fold_least(hive, &ak, best, Ghost(s3));
        let ghost s4 = s3 + id_views(ak@).to_set();
        assert(s4 =~= l.queues.dom() + l.spent.dom() + l.asks.dom());
        proof {
            ledger.outstanding_asks.lemma_keys();
            ledger.queues.lemma_keys();
        }
        let n = ledger.outstanding_asks.len();
        let mut i: usize = 0;
        assert(s4 + Set::new(
            |x: Seq<char>|
                exists|j: int| 0 <= j < 0 && #[trigger] l.asks[ledger.outstanding_asks.keys()[j]].dom().contains(x),
        ) =~= s4);
        while i < n
            invariant
                self.wf(),
                ledger.wf(),
                hive == self.hive_view(),
                m == self.members(),
                l == ledger@,
                n == ledger.outstanding_asks.size(),
                n == ledger.outstanding_asks.keys().len(),
                i <= n,
                least_so_far(
                    m,
                    s4 + Set::new(
                        |x: Seq<char>|
                            exists|j: int| 0 <= j < i && #[trigger] l.asks[ledger.outstanding_asks.keys()[j]].dom().contains(x),
                    ),
                    best,
                ),
            decreases n - i,
        {
            let inner = ledger.outstanding_asks.value_at(i);
            let ks = inner.sorted_keys();
            let ghost before = s4 + Set::new(
                |x: Seq<char>|
                    exists|j: int| 0 <= j < i && #[trigger] l.asks[ledger.outstanding_asks.keys()[j]].dom().contains(x),
            );
            let ghost after = s4 + Set::new(
                |x: Seq<char>|
                    exists|j: int| 0 <= j < i + 1 && #[trigger] l.asks[ledger.outstanding_asks.keys()[j]].dom().contains(x),
            );
            best = fold_least(hive, &ks, best, Ghost(before));
            proof {
                assert forall|x: Seq<char>| #[trigger] after.contains(x) <==> (before + id_views(ks@).to_set()).contains(x) by {
                    if id_views(ks@).to_set().contains(x) {
                        assert(id_views(ks@).contains(x));
                        assert(l.asks[ledger.outstanding_asks.keys()[i as int]].dom().contains(x));
                    }
                    if after.contains(x) && !before.contains(x) {
                        let j = choose|j: int| 0 <= j < i + 1 && #[trigger] l.asks[ledger.outstanding_asks.keys()[j]].dom().contains(x);
                        assert(j == i);
                        assert(id_views(ks@).contains(x));
                    }
                }
                assert(after =~= before + id_views(ks@).to_set());
            }
            i = i + 1;
        }
        let ghost s5 = s4 + Set::new(
            |x: Seq<char>|
                exists|j: int| 0 <= j < n && #[trigger] l.asks[ledger.outstanding_asks.keys()[j]].dom().contains(x),
        );
        let nq = ledger.queues.len();
        let mut i: usize = 0;
        assert(s5 + Set::new(
            |x: Seq<char>|
                exists|j: int, k: int|
                    0 <= j < 0 && 0 <= k < l.queues[ledger.queues.keys()[j]].len()
                        && (#[trigger] l.queues[ledger.queues.keys()[j]][k]).from == x,
        ) =~= s5);
        while i < nq
            invariant
                self.wf(),
                ledger.wf(),
                hive == self.hive_view(),
                m == self.members(),
                l == ledger@,
                nq == ledger.queues.size(),
                nq == ledger.queues.keys().len(),
                i <= nq,
                least_so_far(
                    m,
                    s5 + Set::new(
                        |x: Seq<char>|
                            exists|j: int, k: int|
                                0 <= j < i && 0 <= k < l.queues[ledger.queues.keys()[j]].len()
                                    && (#[trigger] l.queues[ledger.queues.keys()[j]][k]).from == x,
                    ),
                    best,
                ),
            decreases nq - i,
        {
            let queue = ledger.queues.value_at(i);
            let ghost kq = ledger.queues.keys()[i as int];
            let mut froms: Vec<String> = Vec::new();
            let mut k: usize = 0;
            while k < queue.len()
                invariant
                    k <= queue@.len(),
                    froms@.len() == k,
                    forall|x: int| 0 <= x < k ==> (#[trigger] froms@[x])@ == queue@[x].from@,
                decreases queue@.len() - k,
            {
                froms.push(queue[k].from.clone());
                k = k + 1;
            }
            let ghost before = s5 + Set::new(
                |x: Seq<char>|
                    exists|j: int, k: int|
                        0 <= j < i && 0 <= k < l.queues[ledger.queues.keys()[j]].len()
                            && (#[trigger] l.queues[ledger.queues.keys()[j]][k]).from == x,
            );
            let ghost after = s5 + Set::new(
                |x: Seq<char>|
                    exists|j: int, k: int|
                        0 <= j < i + 1 && 0 <= k < l.queues[ledger.queues.keys()[j]].len()
                            && (#[trigger] l.queues[ledger.queues.keys()[j]][k]).from == x,
            );
            best = fold_least(hive, &froms, best, Ghost(before));
            proof {
                assert(l.queues[kq] == crate::ledger::handoff_views(queue@));
                assert forall|x: Seq<char>| #[trigger] after.contains(x) <==> (before + id_views(froms@).to_set()).contains(x) by {
                    if id_views(froms@).to_set().contains(x) {
                        assert(id_views(froms@).contains(x));
                        let y = choose|y: int| 0 <= y < id_views(froms@).len() && id_views(froms@)[y] == x;
                        assert(l.queues[ledger.queues.keys()[i as int]][y].from == x);
                    }
                    if after.contains(x) && !before.contains(x) && !s5.contains(x) {
                        let (j, y) = choose|j: int, k: int|
                            0 <= j < i + 1 && 0 <= k < l.queues[ledger.queues.keys()[j]].len()
                                && (#[trigger] l.queues[ledger.queues.keys()[j]][k]).from == x;
                        assert(j == i);
                        assert(froms@[y]@ == x);
                        assert(id_views(froms@)[y] == x);
                        assert(id_views(froms@).contains(x));
                    }
                }
                assert(after =~= before + id_views(froms@).to_set());
            }
            i = i + 1;
        }
        proof {
            ledger.outstanding_asks.lemma_keys();
            ledger.queues.lemma_keys();
            let fin = s5 + Set::new(
                |x: Seq<char>|
                    exists|j: int, k: int|
                        0 <= j < nq && 0 <= k < l.queues[ledger.queues.keys()[j]].len()
                            && (#[trigger] l.queues[ledger.queues.keys()[j]][k]).from == x,
            );
            assert forall|x: Seq<char>| #[trigger] fin.contains(x) <==> named_set(l).contains(x) by {
                if named_set(l).contains(x) && !s4.contains(x) {
                    if exists|k: Seq<char>| #[trigger] l.asks.dom().contains(k) && l.asks[k].dom().contains(x) {
                        let k = choose|k: Seq<char>| #[trigger] l.asks.dom().contains(k) && l.asks[k].dom().contains(x);
                        assert(ledger.outstanding_asks.keys().contains(k));
                        let j = choose|j: int| 0 <= j < ledger.outstanding_asks.keys().len() && ledger.outstanding_asks.keys()[j] == k;
                        assert(l.asks[ledger.outstanding_asks.keys()[j]].dom().contains(x));
                    } else {
                        let (k, y) = choose|k: Seq<char>, i: int|
                            #[trigger] l.queues.dom().contains(k) && 0 <= i < l.queues[k].len() && (#[trigger] l.queues[k][i]).from == x;
                        assert(ledger.queues.keys().contains(k));
                        let j = choose|j: int| 0 <= j < ledger.queues.keys().len() && ledger.queues.keys()[j] == k;
                        assert(l.queues[ledger.queues.keys()[j]][y].from == x);
                    }
                }
                if fin.contains(x) && !s4.contains(x) {
                    if s5.contains(x) {
                        let j = choose|j: int| 0 <= j < n && #[trigger] l.asks[ledger.outstanding_asks.keys()[j]].dom().contains(x);
                        assert(ledger.outstanding_asks.keys().contains(ledger.outstanding_asks.keys()[j]));
                        assert(l.asks.dom().contains(ledger.outstanding_asks.keys()[j]));
                    } else {
                        let (j, y) = choose|j: int, k: int|
                            0 <= j < nq && 0 <= k < l.queues[ledger.queues.keys()[j]].len()
                                && (#[trigger] l.queues[ledger.queues.keys()[j]][k]).from == x;
                        assert(ledger.queues.keys().contains(ledger.queues.keys()[j]));
                        assert(l.queues.dom().contains(ledger.queues.keys()[j]));
                    }
                }
            }
            assert(fin =~= named_set(l));
        }
        best
    }
}

} // verus!

verus! {

/// The receipt at position `i` of the key order is the first refused one.
proof fn lemma_first_refused(members: Seq<Seq<char>>, w: Sequence, rec: &Receipts, i: int)
    requires
        rec.wf(),
        0 <= i < rec.keys().len(),
        receipt_refused(members, w, rec.map(), Sequence(rec.keys()[i])),
        forall|j: int| 0 <= j < i ==> !receipt_refused(members, w, rec.map(), Sequence(#[trigger] rec.keys()[j])),
    ensures
        some_receipt_refused(members, w, rec.map()),
        first_refused_receipt(members, w, rec.map()) == Sequence(rec.keys()[i]),
{
    rec.lemma_dom();
    rec.lemma_sorted();
    let m = rec.map();
    let k = Sequence(rec.keys()[i]);
    assert(rec.keys().contains(k.0));
    assert(m.dom().contains(k));
    assert forall|j: Sequence| #[trigger] m.dom().contains(j) && receipt_refused(members, w, m, j) implies k.0 <= j.0 by {
        let x = choose|x: int| 0 <= x < rec.keys().len() && rec.keys()[x] == j.0;
        assert(j == Sequence(rec.keys()[x]));
        if x < i {
            assert(!receipt_refused(members, w, m, Sequence(rec.keys()[x])));
        } else if x > i {
            assert(rec.keys()[i] < rec.keys()[x]);
        }
    }
    let c = first_refused_receipt(members, w, m);
    assert(c.0 <= k.0 && k.0 <= c.0);
    assert(c == Sequence(c.0));
}

impl<'a, A: BoundAgent> CompletionDriver<'a, A> {
    /// Refuse the first participant that is blank, repeated or outside the hive.
    fn check_participants(&self, episode: &CompletionEpisodeState) -> (r: Result<(), Error>)
        requires
            self.wf(),
        ensures
            participants_checked(self.members(), episode@.participants, r),
    {
        let ghost members = self.members();
        let ghost ps = episode@.participants;
        let n = episode.participants.len();
        let mut i: usize = 0;
        while i < n
            invariant
                self.wf(),
                members == self.members(),
                ps == episode@.participants,
                n == ps.len(),
                i <= n,
                forall|j: int| 0 <= j < i ==> !#[trigger] participant_refusal(members, ps)(j),
            decreases n - i,
        {
            assert(ps[i as int] == episode.participants@[i as int]@);
            let id = episode.participants[i].agent_id.as_str();
            if blank(id) {
                proof {
                    assert(participant_refusal(members, ps)(i as int));
                    lemma_first_index_unique(participant_refusal(members, ps), n as int, i as int);
                }
                return Err(Error::Completion(completion::Error::InvalidCompletionParticipant));
            }
            let mut j: usize = 0;
            while j < i
                invariant
                    j <= i,
                    i < n,
                    n == episode.participants@.len(),
                    ps == episode@.participants,
                    id@ == ps[i as int].agent_id,
                    !is_blank(ps[i as int].agent_id),
                    members == self.members(),
                    forall|x: int| 0 <= x < j ==> (#[trigger] ps[x]).agent_id != id@,
                    forall|x: int| 0 <= x < i ==> !#[trigger] participant_refusal(members, ps)(x),
                decreases i - j,
            {
                assert(ps[j as int] == episode.participants@[j as int]@);
                if str_eq(episode.participants[j].agent_id.as_str(), id) {
                    proof {
                        assert(ps[j as int].agent_id == ps[i as int].agent_id);
                        assert(participant_refusal(members, ps)(i as int));
                        lemma_first_index_unique(participant_refusal(members, ps), n as int, i as int);
                        assert(episode.participants@[i as int].agent_id@ == ps[i as int].agent_id);
                    }
                    return Err(
                        Error::Completion(
                            completion::Error::DuplicateCompletionParticipant {
                                agent_id: episode.participants[i].agent_id.clone(),
                            },
                        ),
                    );
                }
                j = j + 1;
            }
            proof {
                assert(!(exists|x: int| 0 <= x < i && (#[trigger] ps[x]).agent_id == ps[i as int].agent_id));
            }
            match self.bound(id) {
                Err(e) => {
                    proof {
                        assert(participant_refusal(members, ps)(i as int));
                        lemma_first_index_unique(participant_refusal(members, ps), n as int, i as int);
                    }
                    return Err(e);
                },
                Ok(()) => {},
            }
            i = i + 1;
        }
        proof {
            lemma_first_index_unique(participant_refusal(members, ps), n as int, n as int);
        }
        Ok(())
    }

    /// Refuse the first receipt, in key order, that disagrees with its event,
    /// is not after the watermark, or names an author outside the hive.
    fn check_receipts(&self, receipts: &Receipts, w: Sequence) -> (r: Result<(), Error>)
        requires
            self.wf(),
            receipts.wf(),
        ensures
            receipts_checked(self.members(), w, receipts.map(), r),
    {
        let ghost members = self.members();
        proof {
            receipts.lemma_dom();
        }
        let m = receipts.size();
        let mut i: usize = 0;
        while i < m
            invariant
                self.wf(),
                receipts.wf(),
                members == self.members(),
                m == receipts.keys().len(),
                i <= m,
                forall|j: int| 0 <= j < i ==> !receipt_refused(members, w, receipts.map(), Sequence(#[trigger] receipts.keys()[j])),
            decreases m - i,
        {
            let entry = receipts.entry_at(i);
            assert(Sequence(receipts.keys()[i as int]) == entry.sequence);
            if entry.sequence.0 != entry.event.sequence.0 {
                proof {
                    lemma_first_refused(members, w, receipts, i as int);
                }
                return Err(Error::InvalidReceiptSequence { stored: entry.sequence, event: entry.event.sequence });
            }
            if entry.sequence.0 <= w.0 {
                proof {
                    lemma_first_refused(members, w, receipts, i as int);
                }
                return Err(Error::StaleCommittedEvent { sequence: entry.sequence });
            }
            match self.bound(entry.event.author_id.as_str()) {
                Err(e) => {
                    proof {
                        lemma_first_refused(members, w, receipts, i as int);
                    }
                    return Err(e);
                },
                Ok(()) => {},
            }
            i = i + 1;
        }
        proof {
            receipts.lemma_dom();
            if some_receipt_refused(members, w, receipts.map()) {
                let k = choose|k: Sequence| #[trigger] receipts.map().dom().contains(k) && receipt_refused(members, w, receipts.map(), k);
                let x = choose|x: int| 0 <= x < receipts.keys().len() && receipts.keys()[x] == k.0;
                assert(k == Sequence(receipts.keys()[x]));
                assert(!receipt_refused(members, w, receipts.map(), Sequence(receipts.keys()[x])));
            }
        }
        Ok(())
    }

    /// Refuse the first id of the accepted order that is outside the hive.
    fn check_order(&self, order: &Vec<String>) -> (r: Result<(), Error>)
        requires
            self.wf(),
        ensures
            ({
                let v = id_views(order@);
                let f = first_index(outside_pred(self.members(), v), v.len() as int);
                if f < v.len() {
                    r matches Err(Error::OutOfHiveParticipant { agent_id }) && agent_id@ == v[f]
                } else {
                    r is Ok
                }
            }),
    {
        let ghost members = self.members();
        let ghost v = id_views(order@);
        let no = order.len();
        let mut i: usize = 0;
        while i < no
            invariant
                self.wf(),
                members == self.members(),
                v == id_views(order@),
                no == v.len(),
                i <= no,
                forall|j: int| 0 <= j < i ==> !#[trigger] outside_pred(members, v)(j),
            decreases no - i,
        {
            assert(v[i as int] == order@[i as int]@);
            match self.bound(order[i].as_str()) {
                Err(e) => {
                    proof {
                        assert(outside_pred(members, v)(i as int));
                        lemma_first_index_unique(outside_pred(members, v), no as int, i as int);
                    }
                    return Err(e);
                },
                Ok(()) => {},
            }
            i = i + 1;
        }
        proof {
            lemma_first_index_unique(outside_pred(members, v), no as int, no as int);
        }
        Ok(())
    }

    /// Resume and validate caller-owned episode, replay, ledger and
    /// freshness state.
    pub fn resume(&self, state: DriverState) -> (r: Result<DriverState, Error>)
        requires
            self.wf(),
            state.wf(),
        ensures
            resume_result(self.members(), self.hive_view().graph_model().desk.id, state@, r),
    {
        let ghost s = state@;
        let ghost members = self.members();
        let ghost ps = s.episode.participants;
        let ghost w = s.episode.watermark;
        let mut state = state;
        let count = state.receipts.len();
        if state.revision != count as u64 {
            return Err(Error::InvalidStateRevision { revision: state.revision, receipt_count: count });
        }
        if !str_eq(state.episode.conversation.desk_id.as_str(), self.hive.desk().id.as_str()) {
            return Err(Error::OutOfHiveEpisode { desk_id: self.hive.desk().id.clone() });
        }
        if state.episode.participants.len() == 0 {
            return Err(Error::Completion(completion::Error::NoCompletionParticipants));
        }
        match self.check_participants(&state.episode) {
            Err(e) => {
                return Err(e);
            },
            Ok(()) => {},
        }
        match self.check_receipts(&state.receipts, state.episode.watermark) {
            Err(e) => {
                return Err(e);
            },
            Ok(()) => {},
        }
        proof {
            lemma_first_index(participant_refusal(members, ps), ps.len() as int);
        }
        match self.check_order(&state.pending_order) {
            Err(e) => {
                return Err(e);
            },
            Ok(()) => {},
        }
        proof {
            lemma_first_index(outside_pred(members, s.pending_order), s.pending_order.len() as int);
        }
        match self.least_unbound_named(&state.ledger) {
            Some(id) => {
                proof {
                    lemma_least_found(members, named_set(s.ledger), Some(id));
                }
                return Err(Error::OutOfHiveParticipant { agent_id: id });
            },
            None => {},
        }
        let dk = state.seen.delivered_through.sorted_keys();
        proof {
            assert(least_so_far(members, Set::empty(), None));
        }
        match fold_least(self.hive, &dk, None, Ghost(Set::empty())) {
            Some(id) => {
                proof {
                    assert(Set::empty() + id_views(dk@).to_set() =~= s.seen.delivered_through.dom());
                    lemma_least_found(members, s.seen.delivered_through.dom(), Some(id));
                }
                return Err(Error::OutOfHiveParticipant { agent_id: id });
            },
            None => {
                proof {
                    assert(Set::empty() + id_views(dk@).to_set() =~= s.seen.delivered_through.dom());
                }
            },
        }
        prune_pending_order(&mut state);
        let floor = episode_freshness_floor(&state.episode);
        let derived = match state.receipts.last_key() {
            None => floor,
            Some(k) => if floor.0 >= k.0 {
                floor
            } else {
                k
            },
        };
        if state.freshness_floor.0 != derived.0 {
            return Err(Error::InvalidFreshnessFloor { stored: state.freshness_floor, derived });
        }
        proof {
            assert(state.freshness_floor == Sequence(state.freshness_floor.0));
        }
        Ok(state)
    }
}

} // verus!
