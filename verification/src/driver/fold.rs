//! Folding one host-committed row into the driver state.

use vstd::prelude::*;

use crate::completion::{apply_assignment, apply_completion};
use crate::driver::receipts::CommittedUtterance;
use crate::driver::setup::CompletionDriver;
use crate::driver::order::prune_pending_order;
use crate::driver::state::{action_views, open_assignment, ActionModel, DriverModel, DriverState, HostAction, Transition};
use crate::driver::step::{
    answered_by, before_effect, committed_result, complete_and_hand_over, complete_refusal,
    completion_refusal, completion_stage, dm_ok, fresh_row, pop_queues, replay_checked, FoldConfig,
    FoldStep,
};
use crate::first::lemma_first_index;
use crate::graph::{dm_bad_pred, dm_resolved};
use crate::routing::{
    candidate_views, copy_opt, opt_view, CandidateModel, ConversationKind, ConversationRef, DeskModel,
    PlanModel, RouteCandidate, RoutingPlan, RoutingPolicy, RoutingRequest, RoutingSource,
};
use crate::completion::{all_ids, CompletionEpisodeState, EpisodeModel};
use crate::driver::order::{broadcast_fallback, fallback_spec};
use crate::driver::receipts::CommittedModel;
use crate::driver::state::{latest_assignment, latest_at};
use crate::driver::step::{broadcast_candidates, budget_spent};
use crate::text::str_eq;
use crate::types::copy_ids;
use crate::error::Error;
use crate::graph::BoundAgent;
use crate::ledger::{queue_len_spec, LedgerModel};
use crate::types::{id_views, Sequence, Utterance, UtteranceModel};

verus! {

impl<'a, A: BoundAgent> CompletionDriver<'a, A> {
    /// The bounds this driver folds with.
    pub open spec fn config(&self) -> FoldConfig {
        FoldConfig {
            members: self.members(),
            width: self.width(),
            depth: self.depth(),
            budget: self.budget(),
        }
    }
}

/// What every row does before its own effect.
pub fn before_row(next: &mut DriverState, event: &CommittedUtterance)
    requires
        old(next).wf(),
    ensures
        final(next).wf(),
        final(next)@ == before_effect(old(next)@, event@),
{
    let ghost s = next@;
    let author = event.author_id.as_str();
    if let Some(assigned_at) = open_assignment(&next.episode, author) {
        let shown = match next.seen.delivered_through.get(author) {
            Some(through) => through.0 >= assigned_at.0,
            None => true,
        };
        if shown {
            next.seen.ran(author, assigned_at);
        }
    }
    let ghost mid = next@;
    match &event.utterance {
        Utterance::Dm { to, .. } => {
            let ghost tv = id_views(to@);
            let mut i: usize = 0;
            while i < to.len()
                invariant
                    next.wf(),
                    i <= to@.len(),
                    tv == id_views(to@),
                    next@ == (DriverModel {
                        ledger: LedgerModel {
                            asks: answered_by(mid.ledger.asks, author@, tv.subrange(0, i as int)),
                            ..mid.ledger
                        },
                        ..mid
                    }),
                decreases to@.len() - i,
            {
                assert(tv.subrange(0, i + 1).drop_last() =~= tv.subrange(0, i as int));
                assert(tv.subrange(0, i + 1).last() == to@[i as int]@);
                next.ledger.answered(author, to[i].as_str());
                i = i + 1;
            }
            assert(tv.subrange(0, i as int) =~= tv);
        },
        _ => {},
    }
}

/// Record `author`'s completion at `at`; then, if it has a handoff queued,
/// hand that over and assign it at the same row.
pub fn hand_over(next: &mut DriverState, author: &str, at: Sequence, actions: Vec<HostAction>) -> (r: Result<
    Vec<HostAction>,
    Error,
>)
    requires
        old(next).wf(),
    ensures
        final(next).wf(),
        match complete_and_hand_over(old(next)@, author@, at, crate::driver::state::action_views(actions@)) {
            FoldStep::Refused => r matches Err(e) && complete_refusal(old(next)@, author@, at, e),
            FoldStep::Next(s2, acts) => r matches Ok(out) && final(next)@ == s2
                && crate::driver::state::action_views(out@) == acts,
        },
{
    let ghost s = next@;
    let episode = match apply_completion(&next.episode, author, at) {
        Ok(e) => e,
        Err(ce) => {
            return Err(Error::Completion(ce));
        },
    };
    let ghost q = s.ledger.queues;
    let ghost had = queue_len_spec(q, author@) > 0;
    let popped = next.ledger.pop(author);
    next.episode = episode;
    match popped {
        None => {
            proof {
                assert(!had);
                assert(next@.ledger == LedgerModel { queues: pop_queues(q, author@), ..s.ledger });
            }
            Ok(actions)
        },
        Some(handoff) => {
            let mut ids: Vec<&str> = Vec::new();
            ids.push(author);
            assert(ids@.map_values(|x: &str| x@) =~= seq![author@]);
            let assigned = match apply_assignment(&next.episode, ids.as_slice(), at) {
                Ok(e) => e,
                Err(ce) => {
                    return Err(Error::Completion(ce));
                },
            };
            next.episode = assigned;
            let mut actions = actions;
            let ghost before = crate::driver::state::action_views(actions@);
            actions.push(HostAction::DeliverHandoff { agent_id: String::from_str(author), handoff });
            assert(crate::driver::state::action_views(actions@) =~= before.push(actions@[actions@.len() - 1]@));
            Ok(actions)
        },
    }
}

} // verus!

verus! {

/// Fold a `complete_episode` row.
pub fn fold_completion(next: &mut DriverState, author: &str, at: Sequence) -> (r: Result<Vec<HostAction>, Error>)
    requires
        old(next).wf(),
    ensures
        final(next).wf(),
        match completion_stage(old(next)@, author@, at) {
            FoldStep::Refused => r matches Err(e) && completion_refusal(old(next)@, author@, at, e),
            FoldStep::Next(s2, acts) => r matches Ok(out) && final(next)@ == s2 && action_views(out@) == acts,
        },
{
    let assigned_at = match open_assignment(&next.episode, author) {
        None => {
            let out: Vec<HostAction> = Vec::new();
            assert(action_views(out@) =~= Seq::<ActionModel>::empty());
            return Ok(out);
        },
        Some(at) => at,
    };
    match next.ledger.awaiting(author) {
        Some(waiting) => {
            let waiting_on = waiting.sorted_keys();
            return Err(Error::AwaitingReply { agent_id: String::from_str(author), waiting_on });
        },
        None => {},
    }
    match next.seen.delivered_through.get(author) {
        Some(through) => {
            if through.0 < assigned_at.0 {
                return Err(
                    Error::UndeliveredAssignment {
                        agent_id: String::from_str(author),
                        assigned_at,
                        delivered_through: *through,
                    },
                );
            }
        },
        None => {},
    }
    let out: Vec<HostAction> = Vec::new();
    assert(action_views(out@) =~= Seq::<ActionModel>::empty());
    hand_over(next, author, at, out)
}

impl<'a, A: BoundAgent> CompletionDriver<'a, A> {
    /// One private delivery, a `dm` to its peers or an `ask` to its one seat,
    /// as the action the host performs. Resolving the route here checks the
    /// recipients against the hive before anything is sent.
    pub fn deliver_privately(&self, author_id: &str, to: &Vec<String>, message: &str) -> (r: Result<
        Vec<HostAction>,
        Error,
    >)
        requires
            self.wf(),
        ensures
            dm_ok(self.members(), author_id@, id_views(to@), self.width()) ==> (r matches Ok(out)
                && action_views(out@) == seq![ActionModel::DeliverDm { recipients: id_views(to@), message: message@ }]),
            !dm_ok(self.members(), author_id@, id_views(to@), self.width()) ==> (r matches Err(e)
                && dm_resolved(self.members(), author_id@, id_views(to@), self.width(), Err(e))),
    {
        let hive = self.hive();
        proof {
            lemma_first_index(dm_bad_pred(self.members(), id_views(to@)), to@.len() as int);
        }
        match hive.resolve_dm(author_id, to, self.round_width()) {
            Ok(route) => {
                let mut out: Vec<HostAction> = Vec::new();
                out.push(HostAction::DeliverDm { route, message: String::from_str(message) });
                assert(action_views(out@) =~= seq![out@[0]@]);
                Ok(out)
            },
            Err(e) => Err(e),
        }
    }

    /// The checks before a row's effect: `Some` for an exact replay, which
    /// changes nothing, `None` for a row to fold.
    pub fn replay_or_validate(&self, state: &DriverState, event: &CommittedUtterance) -> (r: Result<
        Option<Transition>,
        Error,
    >)
        requires
            self.wf(),
            state.wf(),
        ensures
            fresh_row(self.members(), state@, event@) <==> r matches Ok(None),
            r matches Ok(Some(t)) ==> t.state.wf() && replay_checked(self.members(), state@, event@, Ok(t)),
            r matches Err(e) ==> replay_checked(self.members(), state@, event@, Err(e)),
    {
        match state.receipts.get(event.sequence) {
            Some(filed) => {
                if filed.same_as(event) {
                    return Ok(Some(Transition { state: state.copied(), actions: Vec::new() }));
                }
                return Err(Error::DuplicateCommittedSequence { sequence: event.sequence });
            },
            None => {},
        }
        if event.sequence.0 <= state.freshness_floor.0 {
            return Err(Error::StaleCommittedEvent { sequence: event.sequence });
        }
        match self.bound(event.author_id.as_str()) {
            Err(e) => {
                return Err(e);
            },
            Ok(()) => {},
        }
        Ok(None)
    }

    /// Fold one committed row whose routing, for a broadcast, is `plan`.
    fn fold_row(&self, state: &DriverState, event: CommittedUtterance, plan: Option<RoutingPlan>) -> (r: Result<
        Transition,
        Error,
    >)
        requires
            self.wf(),
            state.wf(),
        ensures
            committed_result(self.config(), state@, event@, plan_view(plan), r),
            r matches Ok(t) ==> t.state.wf(),
    {
        match self.replay_or_validate(state, &event) {
            Err(e) => {
                return Err(e);
            },
            Ok(Some(t)) => {
                return Ok(t);
            },
            Ok(None) => {},
        }
        let mut next = state.copied();
        before_row(&mut next, &event);
        let author = event.author_id.as_str();
        let at = event.sequence;
        let actions = match &event.utterance {
            Utterance::Post { .. } => {
                let out: Vec<HostAction> = Vec::new();
                assert(action_views(out@) =~= Seq::<ActionModel>::empty());
                out
            },
            Utterance::CompleteEpisode { .. } => match fold_completion(&mut next, author, at) {
                Ok(out) => out,
                Err(e) => {
                    return Err(e);
                },
            },
            Utterance::Dm { to, message } => match self.deliver_privately(author, to, message.as_str()) {
                Ok(out) => out,
                Err(e) => {
                    return Err(e);
                },
            },
            Utterance::Ask { to, message } => {
                let mut seat: Vec<String> = Vec::new();
                seat.push(to.clone());
                assert(id_views(seat@) =~= seq![to@]);
                let out = match self.deliver_privately(author, &seat, message.as_str()) {
                    Ok(out) => out,
                    Err(e) => {
                        return Err(e);
                    },
                };
                next.ledger.open_ask(author, to.as_str(), at);
                out
            },
            Utterance::Broadcast { message } => match plan {
                None => {
                    return Err(Error::MissingBroadcastRouting);
                },
                Some(p) => match self.fold_broadcast(state, &mut next, author, at, message.as_str(), p) {
                    Ok(out) => out,
                    Err(e) => {
                        return Err(e);
                    },
                },
            },
        };
        if state.revision == u64::MAX {
            return Err(Error::StateRevisionOverflow);
        }
        next.freshness_floor = at;
        next.revision = state.revision + 1;
        next.receipts.insert(at, event);
        prune_pending_order(&mut next);
        Ok(Transition { state: next, actions })
    }

    /// Fold one committed broadcast the router has placed with `plan`.
    ///
    /// Every check a row meets before routing is met again here, so the
    /// outcome does not depend on the caller having asked first.
    pub fn apply_routed(&self, state: &DriverState, event: CommittedUtterance, plan: RoutingPlan) -> (r: Result<
        Transition,
        Error,
    >)
        requires
            self.wf(),
            state.wf(),
        ensures
            committed_result(self.config(), state@, event@, Some(plan@), r),
            r matches Ok(t) ==> t.state.wf(),
    {
        self.fold_row(state, event, Some(plan))
    }
}

/// The view of an optional plan.
pub open spec fn plan_view(plan: Option<RoutingPlan>) -> Option<PlanModel> {
    match plan {
        Some(p) => Some(p@),
        None => None,
    }
}

} // verus!

verus! {

/// Routing inputs a broadcast is folded with: the frozen acceptance policy,
/// the candidate snapshot version, and the thread context the host chose.
#[derive(Debug, PartialEq, Eq)]
pub struct BroadcastRouting {
    pub policy: RoutingPolicy,
    pub roster_version: u64,
    pub thread_context: Vec<String>,
}

/// A broadcast the router must place before it can be folded: what to ask
/// it, and who takes the work when it places it with nobody.
#[derive(Debug, PartialEq, Eq)]
pub struct RouteCall {
    pub request: RoutingRequest,
    pub fallback_responder: String,
}

/// A row folded to its end, or a broadcast waiting on its routing.
#[derive(Debug, PartialEq, Eq)]
pub enum Folded {
    Done(Transition),
    Route(RouteCall),
}

/// What a router is asked about `a`'s broadcast `message`.
pub open spec fn request_built(
    desk: DeskModel,
    candidates: Seq<CandidateModel>,
    width: usize,
    e: EpisodeModel,
    a: Seq<char>,
    message: Seq<char>,
    routing: BroadcastRouting,
    req: RoutingRequest,
) -> bool {
    &&& req.message@ == message
    &&& req.source matches RoutingSource::AgentBroadcast { author_id } && author_id@ == a
    &&& req.conversation.id@ == desk.id
    &&& req.conversation.kind == ConversationKind::Desk
    &&& req.conversation.thread_root == e.conversation.thread_root
    &&& opt_view(req.desk_purpose) == desk.description
    &&& id_views(req.thread_context@) == id_views(routing.thread_context@)
    &&& candidate_views(req.candidates@) == broadcast_candidates(candidates, a, all_ids(e.participants))
    &&& req.roster_version == routing.roster_version
    &&& req.policy == (RoutingPolicy {
        round_width: if routing.policy.round_width <= width {
            routing.policy.round_width
        } else {
            width
        },
        ..routing.policy
    })
}

/// Whether `id` names a participant.
pub fn is_participant(episode: &CompletionEpisodeState, id: &str) -> (r: bool)
    ensures
        r == all_ids(episode@.participants).contains(id@),
{
    let ghost ids = all_ids(episode@.participants);
    let mut i: usize = 0;
    while i < episode.participants.len()
        invariant
            i <= episode.participants@.len(),
            ids == all_ids(episode@.participants),
            forall|k: int| 0 <= k < i ==> ids[k] != id@,
        decreases episode.participants@.len() - i,
    {
        assert(ids[i as int] == episode.participants@[i as int]@.agent_id);
        if str_eq(episode.participants[i].agent_id.as_str(), id) {
            return true;
        }
        i = i + 1;
    }
    false
}

impl<'a, A: BoundAgent> CompletionDriver<'a, A> {
    /// What the router is asked about `author_id`'s broadcast.
    pub fn broadcast_request(
        &self,
        episode: &CompletionEpisodeState,
        author_id: &str,
        message: &str,
        routing: &BroadcastRouting,
    ) -> (r: RoutingRequest)
        requires
            self.wf(),
        ensures
            request_built(
                self.hive_view().graph_model().desk,
                self.hive_view().graph_model().candidates,
                self.width(),
                episode@,
                author_id@,
                message@,
                *routing,
                r,
            ),
    {
        let hive = self.hive();
        let graph = hive.graph();
        let ghost cs = candidate_views(graph.candidates@);
        let ghost ids = all_ids(episode@.participants);
        let mut candidates: Vec<RouteCandidate> = Vec::new();
        let mut i: usize = 0;
        while i < graph.candidates.len()
            invariant
                i <= graph.candidates@.len(),
                cs == candidate_views(graph.candidates@),
                ids == all_ids(episode@.participants),
                candidate_views(candidates@) == broadcast_candidates(cs.subrange(0, i as int), author_id@, ids),
            decreases graph.candidates@.len() - i,
        {
            assert(cs.subrange(0, i + 1).drop_last() =~= cs.subrange(0, i as int));
            assert(cs.subrange(0, i + 1).last() == graph.candidates@[i as int]@);
            let c = &graph.candidates[i];
            if !str_eq(c.id.as_str(), author_id) && is_participant(episode, c.id.as_str()) {
                let ghost before = candidate_views(candidates@);
                candidates.push(c.clone());
                assert(candidate_views(candidates@) =~= before.push(c@));
            }
            i = i + 1;
        }
        assert(cs.subrange(0, i as int) =~= cs);
        let width = self.round_width();
        let mut policy = routing.policy;
        if width < policy.round_width {
            policy.round_width = width;
        }
        let desk = hive.desk();
        RoutingRequest {
            message: String::from_str(message),
            source: RoutingSource::AgentBroadcast { author_id: String::from_str(author_id) },
            conversation: ConversationRef {
                id: desk.id.clone(),
                kind: ConversationKind::Desk,
                thread_root: episode.conversation.thread_root,
            },
            desk_purpose: copy_opt(&desk.description),
            thread_context: copy_ids(&routing.thread_context),
            candidates,
            roster_version: routing.roster_version,
            policy,
        }
    }
}

/// What folding a committed row gives before any router is called: the
/// exact replay of a filed row, a refusal, a broadcast's routing call, or
/// any other row folded to its end.
pub open spec fn folded_result(
    cfg: FoldConfig,
    desk: DeskModel,
    candidates: Seq<CandidateModel>,
    s: DriverModel,
    ev: CommittedModel,
    routing: Option<BroadcastRouting>,
    fallback: Option<Seq<char>>,
    r: Result<Folded, Error>,
) -> bool {
    let a = ev.author_id;
    if !fresh_row(cfg.members, s, ev) {
        match r {
            Ok(Folded::Done(t)) => replay_checked(cfg.members, s, ev, Ok(t)),
            Ok(Folded::Route(_)) => false,
            Err(e) => replay_checked(cfg.members, s, ev, Err(e)),
        }
    } else if ev.utterance is Broadcast {
        let message = ev.utterance->Broadcast_message;
        let routed = |f: Seq<char>|
            (r matches Ok(Folded::Route(call)) && call.fallback_responder@ == f && request_built(
                desk,
                candidates,
                cfg.width,
                s.episode,
                a,
                message,
                routing->Some_0,
                call.request,
            ));
        if routing is None {
            r matches Err(Error::MissingBroadcastRouting)
        } else if budget_spent(cfg.budget, s.ledger.spent, s.episode, a) {
            r matches Err(Error::BudgetSpent { agent_id, assigned_at }) && agent_id@ == a && assigned_at
                == latest_at(s.episode, a)->Some_0
        } else if fallback is Some {
            routed(fallback->Some_0)
        } else if fallback_spec(s.episode, s.pending_order, a) is None {
            r matches Err(Error::NoBroadcastFallback { agent_id }) && agent_id@ == a
        } else {
            routed(fallback_spec(s.episode, s.pending_order, a)->Some_0)
        }
    } else {
        match r {
            Ok(Folded::Done(t)) => committed_result(cfg, s, ev, None, Ok(t)),
            Ok(Folded::Route(_)) => false,
            Err(e) => committed_result(cfg, s, ev, None, Err(e)),
        }
    }
}

impl<'a, A: BoundAgent> CompletionDriver<'a, A> {
    /// Fold one host-committed row and propose the actions that follow.
    ///
    /// An exact replay of a filed row changes nothing and proposes nothing.
    /// A broadcast is not folded here: the answer is the call its router is
    /// to make, and [`CompletionDriver::apply_routed`] folds it once placed.
    pub fn apply_committed(
        &self,
        state: &DriverState,
        event: CommittedUtterance,
        routing: Option<&BroadcastRouting>,
    ) -> (r: Result<Folded, Error>)
        requires
            self.wf(),
            state.wf(),
        ensures
            folded_result(
                self.config(),
                self.hive_view().graph_model().desk,
                self.hive_view().graph_model().candidates,
                state@,
                event@,
                match routing {
                    Some(x) => Some(*x),
                    None => None,
                },
                None,
                r,
            ),
            r matches Ok(Folded::Done(t)) ==> t.state.wf(),
    {
        self.apply_committed_with_fallback(state, event, routing, None)
    }

    /// As [`CompletionDriver::apply_committed`], with the fallback responder
    /// of a broadcast given rather than taken from the ring.
    pub fn apply_committed_with_fallback(
        &self,
        state: &DriverState,
        event: CommittedUtterance,
        routing: Option<&BroadcastRouting>,
        fallback: Option<&str>,
    ) -> (r: Result<Folded, Error>)
        requires
            self.wf(),
            state.wf(),
        ensures
            folded_result(
                self.config(),
                self.hive_view().graph_model().desk,
                self.hive_view().graph_model().candidates,
                state@,
                event@,
                match routing {
                    Some(x) => Some(*x),
                    None => None,
                },
                match fallback {
                    Some(f) => Some(f@),
                    None => None,
                },
                r,
            ),
            r matches Ok(Folded::Done(t)) ==> t.state.wf(),
    {
        let broadcast_message: Option<String> = match &event.utterance {
            Utterance::Broadcast { message } => Some(message.clone()),
            _ => None,
        };
        let message = match broadcast_message {
            None => {
                return match self.fold_row(state, event, None) {
                    Ok(t) => Ok(Folded::Done(t)),
                    Err(e) => Err(e),
                };
            },
            Some(m) => m,
        };
        match self.replay_or_validate(state, &event) {
            Err(e) => {
                return Err(e);
            },
            Ok(Some(t)) => {
                return Ok(Folded::Done(t));
            },
            Ok(None) => {},
        }
        let author = event.author_id.as_str();
        let routing = match routing {
            None => {
                return Err(Error::MissingBroadcastRouting);
            },
            Some(x) => x,
        };
        let charged_at = latest_assignment(&state.episode, author);
        match (self.broadcast_budget(), charged_at) {
            (Some(cap), Some(la)) => {
                if state.ledger.charged(author, la) >= cap {
                    return Err(Error::BudgetSpent { agent_id: String::from_str(author), assigned_at: la });
                }
            },
            _ => {},
        }
        let fallback_responder = match fallback {
            Some(f) => String::from_str(f),
            None => match broadcast_fallback(&state.episode, &state.pending_order, author) {
                Some(f) => f,
                None => {
                    return Err(Error::NoBroadcastFallback { agent_id: String::from_str(author) });
                },
            },
        };
        let request = self.broadcast_request(&state.episode, author, message.as_str(), routing);
        Ok(Folded::Route(RouteCall { request, fallback_responder }))
    }
}

} // verus!
