//! Pending rounds: who the host runs next, and folding a whole round of
//! committed results at once.

use vstd::prelude::*;

use crate::completion::{any_pending, status, CompletionStep};
use crate::driver::order::{any_id, contains_id, fresh_ids, lemma_fresh_ids, pending_ids_in_order, wake_order};
use crate::driver::setup::CompletionDriver;
use crate::driver::state::DriverState;
use crate::error::Error;
use crate::first::{first_index, lemma_first_index_unique};
use crate::graph::{outside_pred, AgentBinding, BoundAgent, OpenHumanHive};
use crate::completion::{apply_completion, completion_next, completion_ok, completion_result, EpisodeModel};
use crate::driver::order::broadcast_fallback;
use crate::driver::state::open_assignment;
use crate::routing::opt_view;
use crate::text::str_eq;
use crate::types::Utterance;
use crate::driver::order::fallback_spec;
use crate::driver::receipts::{event_views, CommittedModel, CommittedUtterance};
use crate::driver::state::{open_at, shown, DriverModel, Transition};
use crate::driver::step::{dm_ok, FoldConfig};
use crate::graph::dm_resolved;
use crate::ledger::awaiting_spec;
use crate::types::{id_views, Sequence, UtteranceModel};

verus! {

/// One pending canonical id and the exact handle bound to it.
#[derive(Debug)]
pub struct PendingAgent<'a, A> {
    /// Canonical hive id.
    pub hive_agent_id: &'a str,
    /// The host's handle for the seat.
    pub agent: &'a A,
}

impl<'a, A> Clone for PendingAgent<'a, A> {
    fn clone(&self) -> (r: Self)
        ensures
            r == *self,
    {
        PendingAgent { hive_agent_id: self.hive_agent_id, agent: self.agent }
    }
}

/// One bounded round the host may run concurrently, bound to the state it
/// was proposed from.
#[derive(Debug)]
pub struct PendingRound<'a, A> {
    agents: Vec<PendingAgent<'a, A>>,
    state: &'a DriverState,
    state_revision: u64,
}

/// The seats of the next round: those owed a turn, in order, as many as a
/// round holds.
pub open spec fn round_ids(s: crate::driver::state::DriverModel, width: usize) -> Seq<Seq<char>> {
    let w = wake_order(s, !any_pending(s.episode.participants));
    w.take(if w.len() <= width {
        w.len() as int
    } else {
        width as int
    })
}

/// Whether `a` is the handle the hive binds to `id`.
pub open spec fn handle_of<A>(hive: OpenHumanHive<A>, id: Seq<char>, a: A) -> bool {
    exists|b: AgentBinding<A>| #[trigger] hive.bindings_model().contains(b) && b.hive_agent_id@ == id && b.agent == a
}

impl<'a, A> PendingRound<'a, A> {
    /// The canonical ids of the round, in order.
    pub closed spec fn ids(&self) -> Seq<Seq<char>> {
        self.agents@.map_values(|p: PendingAgent<'a, A>| p.hive_agent_id@)
    }

    /// The handles of the round, in order.
    pub closed spec fn handles(&self) -> Seq<A> {
        self.agents@.map_values(|p: PendingAgent<'a, A>| *p.agent)
    }

    /// The state the round was proposed from.
    pub closed spec fn source(&self) -> DriverState {
        *self.state
    }

    /// The revision the round was proposed at.
    pub closed spec fn revision(&self) -> u64 {
        self.state_revision
    }

    /// The pending agents, in stable participant order.
    pub fn agents(&self) -> (r: &Vec<PendingAgent<'a, A>>)
        ensures
            r@.map_values(|p: PendingAgent<'a, A>| p.hive_agent_id@) == self.ids(),
            r@.map_values(|p: PendingAgent<'a, A>| *p.agent) == self.handles(),
    {
        &self.agents
    }

    /// Whether the round runs nobody.
    pub fn is_empty(&self) -> (r: bool)
        ensures
            r == (self.ids().len() == 0),
    {
        self.agents.len() == 0
    }

    /// The state the round was proposed from.
    pub fn state(&self) -> (r: &'a DriverState)
        ensures
            *r == self.source(),
    {
        self.state
    }

    /// The revision the round was proposed at.
    pub fn state_revision(&self) -> (r: u64)
        ensures
            r == self.revision(),
    {
        self.state_revision
    }
}

impl<'a, A: BoundAgent> CompletionDriver<'a, A> {
    /// The next bounded round, without changing state.
    ///
    /// A seat is in the round when it holds an open assignment it has not
    /// run for, or has not been shown every committed row.
    pub fn pending_round<'b>(&'b self, state: &'b DriverState) -> (r: Result<PendingRound<'b, A>, Error>)
        requires
            self.wf(),
            state.wf(),
        ensures
            ({
                let ids = round_ids(state@, self.width());
                let f = first_index(outside_pred(self.members(), ids), ids.len() as int);
                if f < ids.len() {
                    r matches Err(Error::UnknownBoundAgent { agent_id }) && agent_id@ == ids[f]
                } else {
                    r matches Ok(round) && round.ids() == ids && round.source() == *state && round.revision()
                        == state@.revision && round.handles().len() == ids.len() && forall|i: int|
                        0 <= i < ids.len() ==> #[trigger] handle_of(self.hive_view(), ids[i], round.handles()[i])
                }
            }),
    {
        let complete = match status(&state.episode) {
            CompletionStep::Complete { .. } => true,
            CompletionStep::Active { .. } => false,
        };
        let ids = pending_ids_in_order(state, complete);
        let ghost w = id_views(ids@);
        let width = self.round_width();
        let take = if ids.len() <= width {
            ids.len()
        } else {
            width
        };
        let ghost t = w.take(take as int);
        let hive = self.hive();
        let ghost members = self.members();
        assert(t == round_ids(state@, self.width()));
        let mut agents: Vec<PendingAgent<'b, A>> = Vec::new();
        let mut i: usize = 0;
        while i < take
            invariant
                self.wf(),
                *hive == self.hive_view(),
                members == self.members(),
                take <= ids@.len(),
                w == id_views(ids@),
                t == w.take(take as int),
                t == round_ids(state@, self.width()),
                i <= take,
                agents@.len() == i,
                forall|j: int| 0 <= j < i ==> !#[trigger] outside_pred(members, t)(j),
                forall|j: int| 0 <= j < i ==> (#[trigger] agents@[j]).hive_agent_id@ == t[j],
                forall|j: int| 0 <= j < i ==> #[trigger] handle_of(self.hive_view(), t[j], *agents@[j].agent),
            decreases take - i,
        {
            assert(t[i as int] == ids@[i as int]@);
            match hive.binding(ids[i].as_str()) {
                Some(b) => {
                    agents.push(PendingAgent { hive_agent_id: b.hive_agent_id.as_str(), agent: &b.agent });
                    proof {
                        assert(self.hive_view().bindings_model().contains(*b));
                        assert(handle_of(self.hive_view(), t[i as int], *agents@[i as int].agent));
                    }
                },
                None => {
                    proof {
                        assert(outside_pred(members, t)(i as int));
                        lemma_first_index_unique(outside_pred(members, t), t.len() as int, i as int);
                    }
                    return Err(Error::UnknownBoundAgent { agent_id: ids[i].clone() });
                },
            }
            i = i + 1;
        }
        proof {
            lemma_first_index_unique(outside_pred(members, t), t.len() as int, t.len() as int);
        }
        let round = PendingRound { agents, state, state_revision: state.revision };
        proof {
            assert(round.ids() =~= t);
            assert forall|j: int| 0 <= j < t.len() implies #[trigger] handle_of(self.hive_view(), t[j], round.handles()[j]) by {
                assert(round.handles()[j] == *round.agents@[j].agent);
            }
        }
        Ok(round)
    }
}

} // verus!

verus! {

/// One committed result of a round, in fold order, with the fallback
/// responder its broadcast routes with.
#[derive(Debug, PartialEq, Eq)]
pub struct RoundEvent {
    pub event: CommittedUtterance,
    pub fallback: Option<String>,
}

/// A round that was already folded, or the results to fold one by one.
#[derive(Debug, PartialEq, Eq)]
pub enum RoundFold {
    Replay(Transition),
    Events(Vec<RoundEvent>),
}

/// Every result is a filed row, filed exactly as given, no sequence twice.
pub open spec fn exact_replay(s: DriverModel, evs: Seq<CommittedModel>) -> bool {
    &&& evs.len() > 0
    &&& forall|i: int| 0 <= i < evs.len() ==> s.receipts.dom().contains(#[trigger] evs[i].sequence)
        && s.receipts[evs[i].sequence] == evs[i]
    &&& forall|i: int, j: int| 0 <= i < j < evs.len() ==> #[trigger] evs[i].sequence != #[trigger] evs[j].sequence
}

/// Where `e` goes among rows already in sequence order: after every row at
/// or below its sequence.
pub open spec fn insert_at(sorted: Seq<CommittedModel>, e: CommittedModel) -> int {
    first_index(|i: int| sorted[i].sequence.0 > e.sequence.0, sorted.len() as int)
}

/// The rows in sequence order, rows with equal sequences kept in the order
/// given.
pub open spec fn by_sequence(evs: Seq<CommittedModel>) -> Seq<CommittedModel>
    decreases evs.len(),
{
    if evs.len() == 0 {
        seq![]
    } else {
        let r = by_sequence(evs.drop_last());
        r.insert(insert_at(r, evs.last()), evs.last())
    }
}

/// What checking a round's rows before any is folded carries along: the
/// newest sequence, the sequences seen, the episode as the completions
/// before would leave it, and each row's fallback responder.
pub struct Preflight {
    pub newest: Sequence,
    pub fresh: Set<Sequence>,
    pub episode: EpisodeModel,
    pub fallbacks: Seq<Option<Seq<char>>>,
}

/// Refused, or carried on.
pub enum PreStep {
    Refused,
    Go(Preflight),
}

/// Checking one more row of a round.
pub open spec fn pre_step(cfg: FoldConfig, s: DriverModel, routed: bool, p: Preflight, ev: CommittedModel) -> PreStep {
    let at = ev.sequence;
    let a = ev.author_id;
    if s.receipts.dom().contains(at) {
        if s.receipts[at] == ev {
            PreStep::Go(Preflight { fallbacks: p.fallbacks.push(None), ..p })
        } else {
            PreStep::Refused
        }
    } else if p.fresh.contains(at) || at.0 <= p.newest.0 {
        PreStep::Refused
    } else {
        let q = Preflight { newest: at, fresh: p.fresh.insert(at), ..p };
        let plain = Preflight { fallbacks: q.fallbacks.push(None), ..q };
        match ev.utterance {
            UtteranceModel::Post { .. } => PreStep::Go(plain),
            UtteranceModel::CompleteEpisode { .. } => if open_at(q.episode, a) is Some {
                if completion_ok(q.episode, a, at) {
                    PreStep::Go(Preflight { episode: completion_next(q.episode, a, at), ..plain })
                } else {
                    PreStep::Refused
                }
            } else {
                PreStep::Go(plain)
            },
            UtteranceModel::Dm { to, .. } => if dm_ok(cfg.members, a, to, cfg.width) {
                PreStep::Go(plain)
            } else {
                PreStep::Refused
            },
            UtteranceModel::Ask { to, .. } => if dm_ok(cfg.members, a, seq![to], cfg.width) {
                PreStep::Go(plain)
            } else {
                PreStep::Refused
            },
            UtteranceModel::Broadcast { .. } => if !routed {
                PreStep::Refused
            } else if fallback_spec(q.episode, s.pending_order, a) is None {
                PreStep::Refused
            } else {
                let f = fallback_spec(q.episode, s.pending_order, a);
                let carried = Preflight { fallbacks: q.fallbacks.push(f), ..q };
                if open_at(q.episode, a) matches Some(oa) && awaiting_spec(s.ledger.asks, a) is None
                    && shown(s.seen.delivered_through, a, oa) {
                    if completion_ok(q.episode, a, at) {
                        PreStep::Go(Preflight { episode: completion_next(q.episode, a, at), ..carried })
                    } else {
                        PreStep::Refused
                    }
                } else {
                    PreStep::Go(carried)
                }
            },
        }
    }
}

/// Why `pre_step` refused.
pub open spec fn pre_refusal(cfg: FoldConfig, s: DriverModel, routed: bool, p: Preflight, ev: CommittedModel, err: Error) -> bool {
    let at = ev.sequence;
    let a = ev.author_id;
    if s.receipts.dom().contains(at) || p.fresh.contains(at) {
        err matches Error::DuplicateCommittedSequence { sequence } && sequence == at
    } else if at.0 <= p.newest.0 {
        err matches Error::StaleCommittedEvent { sequence } && sequence == at
    } else {
        match ev.utterance {
            UtteranceModel::Post { .. } => false,
            UtteranceModel::CompleteEpisode { .. } => err matches Error::Completion(ce) && completion_result(
                p.episode,
                a,
                at,
                Err(ce),
            ),
            UtteranceModel::Dm { to, .. } => dm_resolved(cfg.members, a, to, cfg.width, Err(err)),
            UtteranceModel::Ask { to, .. } => dm_resolved(cfg.members, a, seq![to], cfg.width, Err(err)),
            UtteranceModel::Broadcast { .. } => if !routed {
                err matches Error::MissingBroadcastRouting
            } else if fallback_spec(p.episode, s.pending_order, a) is None {
                err matches Error::NoBroadcastFallback { agent_id } && agent_id@ == a
            } else {
                err matches Error::Completion(ce) && completion_result(p.episode, a, at, Err(ce))
            },
        }
    }
}

/// Checking a round's rows in order, from the state's freshness floor.
pub open spec fn preflight(cfg: FoldConfig, s: DriverModel, routed: bool, evs: Seq<CommittedModel>) -> PreStep
    decreases evs.len(),
{
    if evs.len() == 0 {
        PreStep::Go(Preflight { newest: s.freshness_floor, fresh: Set::empty(), episode: s.episode, fallbacks: seq![] })
    } else {
        match preflight(cfg, s, routed, evs.drop_last()) {
            PreStep::Refused => PreStep::Refused,
            PreStep::Go(p) => pre_step(cfg, s, routed, p, evs.last()),
        }
    }
}

/// Why `preflight` refused: the first row refused, and its reason.
pub open spec fn preflight_error(cfg: FoldConfig, s: DriverModel, routed: bool, evs: Seq<CommittedModel>, err: Error) -> bool
    decreases evs.len(),
{
    if evs.len() == 0 {
        false
    } else {
        match preflight(cfg, s, routed, evs.drop_last()) {
            PreStep::Refused => preflight_error(cfg, s, routed, evs.drop_last(), err),
            PreStep::Go(p) => pre_refusal(cfg, s, routed, p, evs.last(), err),
        }
    }
}

/// Two states agree on everything but what the host reported.
pub open spec fn same_commitments_spec(a: DriverModel, b: DriverModel) -> bool {
    &&& a.episode == b.episode
    &&& a.receipts == b.receipts
    &&& a.freshness_floor == b.freshness_floor
    &&& a.pending_order == b.pending_order
    &&& a.revision == b.revision
    &&& a.ledger == b.ledger
}

/// The authors of a list of rows.
pub open spec fn authors(evs: Seq<CommittedModel>) -> Seq<Seq<char>> {
    evs.map_values(|e: CommittedModel| e.author_id)
}

/// Whether the `i`th author is not among `ids`.
pub open spec fn unexpected_pred(ids: Seq<Seq<char>>, au: Seq<Seq<char>>) -> spec_fn(int) -> bool {
    |i: int| !ids.contains(au[i])
}

/// What checking a round's committed results gives before any is folded.
pub open spec fn round_result(
    cfg: FoldConfig,
    s: DriverModel,
    src: DriverModel,
    rev: u64,
    ids: Seq<Seq<char>>,
    evs: Seq<CommittedModel>,
    routed: bool,
    r: Result<RoundFold, Error>,
) -> bool {
    let au = authors(evs);
    if exact_replay(s, evs) {
        r matches Ok(RoundFold::Replay(t)) && t.state@ == s && t.actions@.len() == 0
    } else if rev < s.revision {
        r matches Err(Error::StaleRound { round_revision, state_revision }) && round_revision == rev
            && state_revision == s.revision
    } else if rev != s.revision || !same_commitments_spec(src, s) {
        r matches Err(Error::MismatchedRound { round_revision, state_revision }) && round_revision == rev
            && state_revision == s.revision
    } else if evs.len() != ids.len() {
        r matches Err(Error::PartialRound { expected, received }) && expected == ids.len() && received
            == evs.len()
    } else if !(crate::text::distinct(au) && au.to_set() == ids.to_set()) {
        let f = first_index(unexpected_pred(ids, au), au.len() as int);
        if f < au.len() {
            r matches Err(Error::UnexpectedRoundAuthor { agent_id }) && agent_id@ == au[f]
        } else {
            r matches Err(Error::PartialRound { expected, received }) && expected == ids.to_set().len()
                && received == au.to_set().len()
        }
    } else {
        match preflight(cfg, s, routed, by_sequence(evs)) {
            PreStep::Refused => r matches Err(e) && preflight_error(cfg, s, routed, by_sequence(evs), e),
            PreStep::Go(p) => r matches Ok(RoundFold::Events(list)) && list@.len() == evs.len() && forall|i: int|
                0 <= i < evs.len() ==> (#[trigger] list@[i]).event@ == by_sequence(evs)[i] && match list@[i].fallback {
                    Some(f) => p.fallbacks[i] == Some(f@),
                    None => p.fallbacks[i] is None,
                },
        }
    }
}

} // verus!

verus! {

/// A later refusal in a round's check keeps the first one.
proof fn lemma_preflight_stays_refused(cfg: FoldConfig, s: DriverModel, routed: bool, evs: Seq<CommittedModel>, k: int, err: Error)
    requires
        0 <= k <= evs.len(),
        preflight(cfg, s, routed, evs.subrange(0, k)) is Refused,
    ensures
        preflight(cfg, s, routed, evs) is Refused,
        preflight_error(cfg, s, routed, evs, err) == preflight_error(cfg, s, routed, evs.subrange(0, k), err),
    decreases evs.len() - k,
{
    if k == evs.len() {
        assert(evs.subrange(0, k) =~= evs);
    } else {
        let n = evs.len();
        assert(evs.subrange(0, n - 1) =~= evs.drop_last());
        assert(evs.drop_last().subrange(0, k) =~= evs.subrange(0, k));
        lemma_preflight_stays_refused(cfg, s, routed, evs.drop_last(), k, err);
    }
}

/// Whether a round's results are all exactly what was already filed.
pub fn is_exact_round_replay(state: &DriverState, events: &Vec<CommittedUtterance>) -> (r: bool)
    requires
        state.wf(),
    ensures
        r == exact_replay(state@, event_views(events@)),
{
    let ghost evs = event_views(events@);
    if events.len() == 0 {
        return false;
    }
    let mut i: usize = 0;
    while i < events.len()
        invariant
            state.wf(),
            evs == event_views(events@),
            i <= events@.len(),
            forall|k: int| 0 <= k < i ==> state@.receipts.dom().contains(#[trigger] evs[k].sequence)
                && state@.receipts[evs[k].sequence] == evs[k],
            forall|k: int, j: int| 0 <= k < j < i ==> #[trigger] evs[k].sequence != #[trigger] evs[j].sequence,
        decreases events@.len() - i,
    {
        assert(evs[i as int] == events@[i as int]@);
        match state.receipts.get(events[i].sequence) {
            Some(filed) => {
                if !filed.same_as(&events[i]) {
                    assert(!(state@.receipts.dom().contains(evs[i as int].sequence)
                        && state@.receipts[evs[i as int].sequence] == evs[i as int]));
                    return false;
                }
            },
            None => {
                assert(!state@.receipts.dom().contains(evs[i as int].sequence));
                return false;
            },
        }
        let mut j: usize = 0;
        while j < i
            invariant
                j <= i,
                i < events@.len(),
                evs == event_views(events@),
                forall|x: int| 0 <= x < j ==> evs[x].sequence != evs[i as int].sequence,
            decreases i - j,
        {
            assert(evs[j as int] == events@[j as int]@);
            if events[j].sequence.0 == events[i].sequence.0 {
                assert(evs[j as int].sequence == evs[i as int].sequence);
                return false;
            }
            j = j + 1;
        }
        i = i + 1;
    }
    true
}

/// The results in sequence order, equal sequences kept in the order given.
pub fn sort_by_sequence(events: &Vec<CommittedUtterance>) -> (r: Vec<CommittedUtterance>)
    ensures
        event_views(r@) == by_sequence(event_views(events@)),
        r@.len() == events@.len(),
{
    let ghost evs = event_views(events@);
    let mut out: Vec<CommittedUtterance> = Vec::new();
    let mut i: usize = 0;
    while i < events.len()
        invariant
            i <= events@.len(),
            evs == event_views(events@),
            event_views(out@) == by_sequence(evs.subrange(0, i as int)),
            out@.len() == i,
        decreases events@.len() - i,
    {
        let e = events[i].clone();
        let ghost sorted = event_views(out@);
        assert(evs.subrange(0, i + 1).drop_last() =~= evs.subrange(0, i as int));
        assert(evs.subrange(0, i + 1).last() == e@);
        let mut k: usize = 0;
        while k < out.len() && out[k].sequence.0 <= e.sequence.0
            invariant
                k <= out@.len(),
                sorted == event_views(out@),
                forall|x: int| 0 <= x < k ==> (#[trigger] sorted[x]).sequence.0 <= e@.sequence.0,
            decreases out@.len() - k,
        {
            assert(sorted[k as int] == out@[k as int]@);
            k = k + 1;
        }
        proof {
            let p = |x: int| sorted[x].sequence.0 > e@.sequence.0;
            if k < out@.len() {
                assert(sorted[k as int] == out@[k as int]@);
            }
            assert forall|x: int| 0 <= x < k implies !#[trigger] p(x) by {}
            lemma_first_index_unique(p, sorted.len() as int, k as int);
        }
        out.insert(k, e);
        assert(event_views(out@) =~= sorted.insert(k as int, e@));
        i = i + 1;
    }
    assert(evs.subrange(0, i as int) =~= evs);
    out
}

/// How many distinct ids `v` holds.
pub fn distinct_count(v: &Vec<String>) -> (r: usize)
    ensures
        r == id_views(v@).to_set().len(),
{
    let ghost c = id_views(v@);
    let mut seen: Vec<String> = Vec::new();
    let mut i: usize = 0;
    while i < v.len()
        invariant
            i <= v@.len(),
            c == id_views(v@),
            id_views(seen@) == fresh_ids(seq![], c.subrange(0, i as int), any_id()),
        decreases v@.len() - i,
    {
        assert(c.subrange(0, i + 1).drop_last() =~= c.subrange(0, i as int));
        assert(c.subrange(0, i + 1).last() == v@[i as int]@);
        if !contains_id(&seen, v[i].as_str()) {
            let ghost before = id_views(seen@);
            seen.push(v[i].clone());
            assert(id_views(seen@) =~= before.push(v@[i as int]@));
        }
        i = i + 1;
    }
    assert(c.subrange(0, i as int) =~= c);
    proof {
        let f = fresh_ids(seq![], c, any_id());
        lemma_fresh_ids(seq![], c, any_id());
        assert(f.to_set() =~= c.to_set()) by {
            assert forall|x: Seq<char>| f.to_set().contains(x) <==> c.to_set().contains(x) by {
                assert(!Seq::<Seq<char>>::empty().contains(x));
            }
        }
        assert(f.no_duplicates()) by {
            assert forall|a: int, b: int| 0 <= a < f.len() && 0 <= b < f.len() && a != b implies f[a] != f[b] by {
                if a < b {
                    assert(f[a] != f[b]);
                } else {
                    assert(f[b] != f[a]);
                }
            }
        }
        f.unique_seq_to_set();
    }
    seen.len()
}

} // verus!

verus! {

/// The views of a list of optional ids.
pub open spec fn opt_views(v: Seq<Option<String>>) -> Seq<Option<Seq<char>>> {
    v.map_values(|o: Option<String>| opt_view(o))
}

/// Whether `x` is among `v`.
fn contains_seq(v: &Vec<Sequence>, x: Sequence) -> (r: bool)
    ensures
        r == v@.contains(x),
{
    let mut i: usize = 0;
    while i < v.len()
        invariant
            i <= v@.len(),
            forall|k: int| 0 <= k < i ==> v@[k] != x,
        decreases v@.len() - i,
    {
        if v[i].0 == x.0 {
            assert(v@[i as int] == x);
            return true;
        }
        i = i + 1;
    }
    false
}

impl<'a, A: BoundAgent> CompletionDriver<'a, A> {
    /// Check a round's results, in fold order, before any is folded: no
    /// sequence twice or stale, every private message resolvable, every
    /// broadcast routable with a fallback, and every completion recordable
    /// given the completions before it. Gives each row's fallback responder.
    pub fn preflight_round_events(&self, state: &DriverState, events: &Vec<CommittedUtterance>, routed: bool) -> (r:
        Result<Vec<Option<String>>, Error>)
        requires
            self.wf(),
            state.wf(),
        ensures
            match preflight(self.config(), state@, routed, event_views(events@)) {
                PreStep::Refused => r matches Err(e) && preflight_error(self.config(), state@, routed, event_views(events@), e),
                PreStep::Go(p) => r matches Ok(list) && opt_views(list@) == p.fallbacks,
            },
            r matches Ok(list) ==> list@.len() == events@.len(),
    {
        let ghost cfg = self.config();
        let ghost s = state@;
        let ghost evs = event_views(events@);
        let mut newest = state.freshness_floor;
        let mut fresh: Vec<Sequence> = Vec::new();
        let mut episode = state.episode.clone();
        let mut fallbacks: Vec<Option<String>> = Vec::new();
        let mut i: usize = 0;
        assert(evs.subrange(0, 0) =~= Seq::<CommittedModel>::empty());
        assert(fresh@.to_set() =~= Set::<Sequence>::empty());
        assert(opt_views(fallbacks@) =~= Seq::<Option<Seq<char>>>::empty());
        while i < events.len()
            invariant
                self.wf(),
                state.wf(),
                cfg == self.config(),
                s == state@,
                evs == event_views(events@),
                i <= events@.len(),
                fallbacks@.len() == i,
                preflight(cfg, s, routed, evs.subrange(0, i as int)) == PreStep::Go(Preflight {
                    newest,
                    fresh: fresh@.to_set(),
                    episode: episode@,
                    fallbacks: opt_views(fallbacks@),
                }),
            decreases events@.len() - i,
        {
            let ghost p = Preflight { newest, fresh: fresh@.to_set(), episode: episode@, fallbacks: opt_views(fallbacks@) };
            let ghost before = opt_views(fallbacks@);
            assert(evs.subrange(0, i + 1).drop_last() =~= evs.subrange(0, i as int));
            assert(evs.subrange(0, i + 1).last() == events@[i as int]@);
            let ev = &events[i];
            let at = ev.sequence;
            let author = ev.author_id.as_str();
            let filed = match state.receipts.get(at) {
                Some(f) => {
                    if !f.same_as(ev) {
                        proof {
                            lemma_preflight_stays_refused(cfg, s, routed, evs, i + 1, Error::DuplicateCommittedSequence { sequence: at });
                        }
                        return Err(Error::DuplicateCommittedSequence { sequence: at });
                    }
                    true
                },
                None => false,
            };
            if filed {
                fallbacks.push(None);
                assert(opt_views(fallbacks@) =~= before.push(None));
            } else {
                if contains_seq(&fresh, at) {
                    proof {
                        lemma_preflight_stays_refused(cfg, s, routed, evs, i + 1, Error::DuplicateCommittedSequence { sequence: at });
                    }
                    return Err(Error::DuplicateCommittedSequence { sequence: at });
                }
                if at.0 <= newest.0 {
                    proof {
                        lemma_preflight_stays_refused(cfg, s, routed, evs, i + 1, Error::StaleCommittedEvent { sequence: at });
                    }
                    return Err(Error::StaleCommittedEvent { sequence: at });
                }
                let ghost fresh_before = fresh@;
                newest = at;
                fresh.push(at);
                assert(fresh@ == fresh_before.push(at));
                assert forall|y: Sequence| #[trigger] fresh@.to_set().contains(y) <==> fresh_before.to_set().insert(at).contains(y) by {
                    if fresh@.contains(y) && y != at {
                        let k = choose|k: int| 0 <= k < fresh@.len() && fresh@[k] == y;
                        assert(fresh_before[k] == y);
                    }
                    if fresh_before.contains(y) {
                        let k = choose|k: int| 0 <= k < fresh_before.len() && fresh_before[k] == y;
                        assert(fresh@[k] == y);
                    }
                    if y == at {
                        assert(fresh@[fresh_before.len() as int] == y);
                    }
                }
                assert(fresh@.to_set() =~= fresh_before.to_set().insert(at));
                let mut fallback: Option<String> = None;
                match &ev.utterance {
                    Utterance::Post { .. } => {},
                    Utterance::CompleteEpisode { .. } => {
                        if open_assignment(&episode, author).is_some() {
                            match apply_completion(&episode, author, at) {
                                Ok(e) => {
                                    episode = e;
                                },
                                Err(ce) => {
                                    proof {
                                        lemma_preflight_stays_refused(cfg, s, routed, evs, i + 1, Error::Completion(ce));
                                    }
                                    return Err(Error::Completion(ce));
                                },
                            }
                        }
                    },
                    Utterance::Dm { to, message } => {
                        match self.deliver_privately(author, to, message.as_str()) {
                            Err(e) => {
                                proof {
                                    lemma_preflight_stays_refused(cfg, s, routed, evs, i + 1, e);
                                }
                                return Err(e);
                            },
                            Ok(_) => {},
                        }
                    },
                    Utterance::Ask { to, message } => {
                        let mut seat: Vec<String> = Vec::new();
                        seat.push(to.clone());
                        assert(id_views(seat@) =~= seq![to@]);
                        match self.deliver_privately(author, &seat, message.as_str()) {
                            Err(e) => {
                                proof {
                                    lemma_preflight_stays_refused(cfg, s, routed, evs, i + 1, e);
                                }
                                return Err(e);
                            },
                            Ok(_) => {},
                        }
                    },
                    Utterance::Broadcast { .. } => {
                        if !routed {
                            proof {
                                lemma_preflight_stays_refused(cfg, s, routed, evs, i + 1, Error::MissingBroadcastRouting);
                            }
                            return Err(Error::MissingBroadcastRouting);
                        }
                        let f = match broadcast_fallback(&episode, &state.pending_order, author) {
                            Some(f) => f,
                            None => {
                                let e = Error::NoBroadcastFallback { agent_id: String::from_str(author) };
                                proof {
                                    lemma_preflight_stays_refused(cfg, s, routed, evs, i + 1, e);
                                }
                                return Err(e);
                            },
                        };
                        fallback = Some(f);
                        if let Some(oa) = open_assignment(&episode, author) {
                            let shown = match state.seen.delivered_through.get(author) {
                                Some(through) => through.0 >= oa.0,
                                None => true,
                            };
                            if state.ledger.awaiting(author).is_none() && shown {
                                match apply_completion(&episode, author, at) {
                                    Ok(e) => {
                                        episode = e;
                                    },
                                    Err(ce) => {
                                        proof {
                                            lemma_preflight_stays_refused(cfg, s, routed, evs, i + 1, Error::Completion(ce));
                                        }
                                        return Err(Error::Completion(ce));
                                    },
                                }
                            }
                        }
                    },
                }
                let ghost fb = opt_view(fallback);
                fallbacks.push(fallback);
                assert(opt_views(fallbacks@) =~= before.push(fb));
            }
            i = i + 1;
        }
        assert(evs.subrange(0, i as int) =~= evs);
        Ok(fallbacks)
    }
}

} // verus!

verus! {

/// Whether no id of `v` occurs twice.
fn distinct_ids(v: &Vec<String>) -> (r: bool)
    ensures
        r == crate::text::distinct(id_views(v@)),
{
    let ghost c = id_views(v@);
    let mut i: usize = 0;
    while i < v.len()
        invariant
            i <= v@.len(),
            c == id_views(v@),
            forall|x: int, y: int| 0 <= x < y < i ==> #[trigger] c[x] != #[trigger] c[y],
        decreases v@.len() - i,
    {
        let mut j: usize = 0;
        while j < i
            invariant
                j <= i,
                i < v@.len(),
                c == id_views(v@),
                forall|x: int| 0 <= x < j ==> c[x] != c[i as int],
            decreases i - j,
        {
            if str_eq(v[j].as_str(), v[i].as_str()) {
                assert(c[j as int] == c[i as int]);
                return false;
            }
            j = j + 1;
        }
        i = i + 1;
    }
    true
}

/// Whether every id of `a` is among `b`.
fn all_among(a: &Vec<String>, b: &Vec<String>) -> (r: bool)
    ensures
        r == (forall|i: int| 0 <= i < a@.len() ==> id_views(b@).contains(#[trigger] id_views(a@)[i])),
{
    let mut i: usize = 0;
    while i < a.len()
        invariant
            i <= a@.len(),
            forall|k: int| 0 <= k < i ==> id_views(b@).contains(#[trigger] id_views(a@)[k]),
        decreases a@.len() - i,
    {
        assert(id_views(a@)[i as int] == a@[i as int]@);
        if !contains_id(b, a[i].as_str()) {
            return false;
        }
        i = i + 1;
    }
    true
}

/// The first author not among `ids`, or the count of authors.
fn first_unexpected(ids: &Vec<String>, au: &Vec<String>) -> (r: usize)
    ensures
        r as int == first_index(unexpected_pred(id_views(ids@), id_views(au@)), au@.len() as int),
        r <= au@.len(),
{
    let ghost av = id_views(au@);
    let ghost iv = id_views(ids@);
    let mut i: usize = 0;
    while i < au.len()
        invariant
            i <= au@.len(),
            av == id_views(au@),
            iv == id_views(ids@),
            forall|x: int| 0 <= x < i ==> !#[trigger] unexpected_pred(iv, av)(x),
        decreases au@.len() - i,
    {
        assert(av[i as int] == au@[i as int]@);
        if !contains_id(ids, au[i].as_str()) {
            proof {
                assert(unexpected_pred(iv, av)(i as int));
                lemma_first_index_unique(unexpected_pred(iv, av), av.len() as int, i as int);
            }
            return i;
        }
        i = i + 1;
    }
    proof {
        lemma_first_index_unique(unexpected_pred(iv, av), av.len() as int, av.len() as int);
    }
    i
}

/// Refuse a round proposed from another state: an older revision is
/// stale; another revision, or other commitments, is mismatched. What the
/// host reported about delivery since does not invalidate a round.
pub fn validate_round_state<A>(state: &DriverState, round: &PendingRound<'_, A>) -> (r: Result<(), Error>)
    requires
        state.wf(),
        round.source().wf(),
    ensures
        if round.revision() < state@.revision {
            r matches Err(Error::StaleRound { round_revision, state_revision }) && round_revision
                == round.revision() && state_revision == state@.revision
        } else if round.revision() != state@.revision || !same_commitments_spec(round.source()@, state@) {
            r matches Err(Error::MismatchedRound { round_revision, state_revision }) && round_revision
                == round.revision() && state_revision == state@.revision
        } else {
            r is Ok
        },
{
    let rev = round.state_revision();
    if rev < state.revision {
        return Err(Error::StaleRound { round_revision: rev, state_revision: state.revision });
    }
    if rev != state.revision || !round.state().same_commitments(state) {
        return Err(Error::MismatchedRound { round_revision: rev, state_revision: state.revision });
    }
    Ok(())
}

impl<'a, A: BoundAgent> CompletionDriver<'a, A> {
    /// Check exactly one committed result for every agent of a proposed
    /// round, and give them in the order to fold them.
    ///
    /// An exact replay of filed rows is recognised before the round, its
    /// count or its authors are checked. The results are then folded one by
    /// one with [`CompletionDriver::apply_committed_with_fallback`], each
    /// with the fallback responder given here.
    pub fn apply_committed_round(
        &self,
        state: &DriverState,
        round: &PendingRound<'_, A>,
        events: Vec<CommittedUtterance>,
        routing: Option<&crate::driver::fold::BroadcastRouting>,
    ) -> (r: Result<RoundFold, Error>)
        requires
            self.wf(),
            state.wf(),
            round.source().wf(),
        ensures
            round_result(
                self.config(),
                state@,
                round.source()@,
                round.revision(),
                round.ids(),
                event_views(events@),
                routing is Some,
                r,
            ),
    {
        let ghost evs = event_views(events@);
        if is_exact_round_replay(state, &events) {
            return Ok(RoundFold::Replay(Transition { state: state.copied(), actions: Vec::new() }));
        }
        match validate_round_state(state, round) {
            Err(e) => {
                return Err(e);
            },
            Ok(()) => {},
        }
        let agents = round.agents();
        if events.len() != agents.len() {
            return Err(Error::PartialRound { expected: agents.len(), received: events.len() });
        }
        let mut ids: Vec<String> = Vec::new();
        let mut k: usize = 0;
        while k < agents.len()
            invariant
                k <= agents@.len(),
                ids@.len() == k,
                forall|x: int| 0 <= x < k ==> (#[trigger] ids@[x])@ == agents@[x].hive_agent_id@,
            decreases agents@.len() - k,
        {
            ids.push(String::from_str(agents[k].hive_agent_id));
            k = k + 1;
        }
        assert(id_views(ids@) =~= round.ids());
        let mut au: Vec<String> = Vec::new();
        let mut k: usize = 0;
        while k < events.len()
            invariant
                k <= events@.len(),
                evs == event_views(events@),
                au@.len() == k,
                forall|x: int| 0 <= x < k ==> (#[trigger] au@[x])@ == evs[x].author_id,
            decreases events@.len() - k,
        {
            au.push(events[k].author_id.clone());
            k = k + 1;
        }
        assert(id_views(au@) =~= authors(evs));
        let ghost av = id_views(au@);
        let ghost iv = id_views(ids@);
        let distinct_authors = distinct_ids(&au);
        let au_in = all_among(&au, &ids);
        let ids_in = all_among(&ids, &au);
        proof {
            if au_in && ids_in {
                assert forall|x: Seq<char>| av.to_set().contains(x) <==> iv.to_set().contains(x) by {
                    if av.contains(x) {
                        let y = choose|y: int| 0 <= y < av.len() && av[y] == x;
                        assert(iv.contains(av[y]));
                    }
                    if iv.contains(x) {
                        let y = choose|y: int| 0 <= y < iv.len() && iv[y] == x;
                        assert(av.contains(iv[y]));
                    }
                }
                assert(av.to_set() =~= iv.to_set());
            } else if !au_in {
                let y = choose|y: int| 0 <= y < av.len() && !iv.contains(#[trigger] av[y]);
                assert(av.to_set().contains(av[y]));
                assert(!iv.to_set().contains(av[y]));
            } else {
                let y = choose|y: int| 0 <= y < iv.len() && !av.contains(#[trigger] iv[y]);
                assert(iv.to_set().contains(iv[y]));
                assert(!av.to_set().contains(iv[y]));
            }
        }
        if !(distinct_authors && au_in && ids_in) {
            let f = first_unexpected(&ids, &au);
            if f < au.len() {
                return Err(Error::UnexpectedRoundAuthor { agent_id: au[f].clone() });
            }
            return Err(Error::PartialRound { expected: distinct_count(&ids), received: distinct_count(&au) });
        }
        let sorted = sort_by_sequence(&events);
        let fallbacks = match self.preflight_round_events(state, &sorted, routing.is_some()) {
            Err(e) => {
                return Err(e);
            },
            Ok(f) => f,
        };
        let ghost sv = event_views(sorted@);
        let ghost fv = opt_views(fallbacks@);
        let mut out: Vec<RoundEvent> = Vec::new();
        let mut sorted = sorted;
        let mut fallbacks = fallbacks;
        let mut i: usize = 0;
        let n = sorted.len();
        while i < n
            invariant
                n == sv.len(),
                n == fv.len(),
                i <= n,
                sorted@.len() == n - i,
                fallbacks@.len() == n - i,
                forall|x: int| 0 <= x < n - i ==> (#[trigger] sorted@[x])@ == sv[x + i],
                forall|x: int| 0 <= x < n - i ==> opt_view(#[trigger] fallbacks@[x]) == fv[x + i],
                out@.len() == i,
                forall|x: int| 0 <= x < i ==> (#[trigger] out@[x]).event@ == sv[x] && opt_view(out@[x].fallback) == fv[x],
            decreases n - i,
        {
            let event = sorted.remove(0);
            let fallback = fallbacks.remove(0);
            out.push(RoundEvent { event, fallback });
            i = i + 1;
        }
        proof {
            assert forall|x: int| 0 <= x < evs.len() implies (#[trigger] out@[x]).event@ == by_sequence(evs)[x] && match out@[x].fallback {
                Some(f) => fv[x] == Some(f@),
                None => fv[x] is None,
            } by {
                assert(opt_view(out@[x].fallback) == fv[x]);
            }
        }
        Ok(RoundFold::Events(out))
    }
}

} // verus!
