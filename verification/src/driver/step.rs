//! What folding one committed row does to a driver state, as values: the
//! checks before any effect, the effect each kind of utterance has, and the
//! bookkeeping every accepted row ends with.

use vstd::prelude::*;

use crate::completion::{
    all_ids, assignment_next, assignment_ok, assignment_result, completion_next, completion_ok,
    completion_result, EpisodeModel,
};
use crate::driver::order::{any_id, fallback_spec, fresh_ids, pruned_order};
use crate::driver::receipts::CommittedModel;
use crate::driver::state::{
    action_views, latest_at, open_at, pending_at, shown, ActionModel, DriverModel, Transition,
};
use crate::error::Error;
use crate::first::first_index;
use crate::graph::{dm_bad_pred, dm_resolved, outside_pred};
use crate::ledger::{
    answered_spec, awaiting_spec, charged_spec, queue_len_spec, AssignmentSpend, HandoffModel,
    LedgerModel, SeenModel,
};
use crate::routing::{plan_model_ids, CandidateModel, PlanModel};
use crate::text::strictly_sorted;
use crate::types::{id_views, Sequence, UtteranceModel};

verus! {

/// The bounds a driver folds with, and the members of its hive.
pub struct FoldConfig {
    pub members: Seq<Seq<char>>,
    pub width: usize,
    pub depth: usize,
    pub budget: Option<u32>,
}

/// The outcome of an utterance's own effect: refused, or the next state
/// and the actions proposed.
pub enum FoldStep {
    Refused,
    Next(DriverModel, Seq<ActionModel>),
}

/// The asks after `by` answered each asker of `to`, in order.
pub open spec fn answered_by(
    asks: Map<Seq<char>, Map<Seq<char>, Sequence>>,
    by: Seq<char>,
    to: Seq<Seq<char>>,
) -> Map<Seq<char>, Map<Seq<char>, Sequence>>
    decreases to.len(),
{
    if to.len() == 0 {
        asks
    } else {
        answered_spec(answered_by(asks, by, to.drop_last()), by, to.last())
    }
}

/// What a row does before its own effect. It is proof its author ran for
/// the assignment it holds, when the author has been shown that assignment;
/// and a private message answers whoever was waiting on its author.
pub open spec fn before_effect(s: DriverModel, ev: CommittedModel) -> DriverModel {
    let a = ev.author_id;
    let ran = match open_at(s.episode, a) {
        Some(at) => if shown(s.seen.delivered_through, a, at) {
            s.seen.ran_for.insert(a, at)
        } else {
            s.seen.ran_for
        },
        None => s.seen.ran_for,
    };
    let asks = match ev.utterance {
        UtteranceModel::Dm { to, .. } => answered_by(s.ledger.asks, a, to),
        _ => s.ledger.asks,
    };
    DriverModel {
        seen: SeenModel { ran_for: ran, ..s.seen },
        ledger: LedgerModel { asks, ..s.ledger },
        ..s
    }
}

/// The queues once `id`'s oldest handoff is handed over; an emptied queue
/// goes.
pub open spec fn pop_queues(q: Map<Seq<char>, Seq<HandoffModel>>, id: Seq<char>) -> Map<
    Seq<char>,
    Seq<HandoffModel>,
> {
    if !q.dom().contains(id) {
        q
    } else if q[id].len() <= 1 {
        q.remove(id)
    } else {
        q.insert(id, q[id].drop_first())
    }
}

/// The queues with `h` queued behind whatever `id` already holds.
pub open spec fn pushed_queues(q: Map<Seq<char>, Seq<HandoffModel>>, id: Seq<char>, h: HandoffModel) -> Map<
    Seq<char>,
    Seq<HandoffModel>,
> {
    q.insert(
        id,
        if q.dom().contains(id) {
            q[id].push(h)
        } else {
            seq![h]
        },
    )
}

/// `s` with `a`'s completion at `at` recorded, then, if `a` has a handoff
/// queued, that handoff handed over and assigned at the same row.
pub open spec fn complete_and_hand_over(
    s: DriverModel,
    a: Seq<char>,
    at: Sequence,
    acts: Seq<ActionModel>,
) -> FoldStep {
    if !completion_ok(s.episode, a, at) {
        FoldStep::Refused
    } else {
        let e2 = completion_next(s.episode, a, at);
        let q = s.ledger.queues;
        let popped = LedgerModel { queues: pop_queues(q, a), ..s.ledger };
        if queue_len_spec(q, a) > 0 {
            if assignment_ok(e2, seq![a], at) {
                FoldStep::Next(
                    DriverModel { episode: assignment_next(e2, seq![a], at), ledger: popped, ..s },
                    acts.push(ActionModel::DeliverHandoff { agent_id: a, handoff: q[a][0] }),
                )
            } else {
                FoldStep::Refused
            }
        } else {
            FoldStep::Next(DriverModel { episode: e2, ledger: popped, ..s }, acts)
        }
    }
}

/// Why `complete_and_hand_over` refused.
pub open spec fn complete_refusal(s: DriverModel, a: Seq<char>, at: Sequence, err: Error) -> bool {
    if !completion_ok(s.episode, a, at) {
        err matches Error::Completion(ce) && completion_result(s.episode, a, at, Err(ce))
    } else {
        err matches Error::Completion(ce) && assignment_result(
            completion_next(s.episode, a, at),
            seq![a],
            at,
            Err(ce),
        )
    }
}

/// Whether `a` has been shown less than the assignment it holds.
pub open spec fn undelivered(s: DriverModel, a: Seq<char>) -> bool {
    open_at(s.episode, a) matches Some(at) && s.seen.delivered_through.dom().contains(a)
        && s.seen.delivered_through[a].0 < at.0
}

/// A `complete_episode` row. A seat holding nothing saying it is done is
/// recorded and nothing moves; one still awaiting an answer, or not yet
/// shown what it holds, is refused.
pub open spec fn completion_stage(s: DriverModel, a: Seq<char>, at: Sequence) -> FoldStep {
    if open_at(s.episode, a) is None {
        FoldStep::Next(s, seq![])
    } else if awaiting_spec(s.ledger.asks, a) is Some {
        FoldStep::Refused
    } else if undelivered(s, a) {
        FoldStep::Refused
    } else {
        complete_and_hand_over(s, a, at, seq![])
    }
}

/// Why `completion_stage` refused.
pub open spec fn completion_refusal(s: DriverModel, a: Seq<char>, at: Sequence, err: Error) -> bool {
    if awaiting_spec(s.ledger.asks, a) is Some {
        err matches Error::AwaitingReply { agent_id, waiting_on } && agent_id@ == a && strictly_sorted(
            id_views(waiting_on@),
        ) && forall|x: Seq<char>|
            #[trigger] id_views(waiting_on@).contains(x) <==> awaiting_spec(s.ledger.asks, a)->Some_0.dom().contains(x)
    } else if undelivered(s, a) {
        err matches Error::UndeliveredAssignment { agent_id, assigned_at, delivered_through } && agent_id@
            == a && assigned_at == open_at(s.episode, a)->Some_0 && delivered_through
            == s.seen.delivered_through[a]
    } else {
        complete_refusal(s, a, at, err)
    }
}

/// Whether a private message from `a` to `to` resolves.
pub open spec fn dm_ok(members: Seq<Seq<char>>, a: Seq<char>, to: Seq<Seq<char>>, width: usize) -> bool {
    &&& members.contains(a)
    &&& to.len() > 0
    &&& first_index(dm_bad_pred(members, to), to.len() as int) == to.len()
    &&& to.len() <= width
}

/// The asks after `asker` asked `seat` at `at`.
pub open spec fn opened_ask(
    asks: Map<Seq<char>, Map<Seq<char>, Sequence>>,
    asker: Seq<char>,
    seat: Seq<char>,
    at: Sequence,
) -> Map<Seq<char>, Map<Seq<char>, Sequence>> {
    asks.insert(
        asker,
        if asks.dom().contains(asker) {
            asks[asker].insert(seat, at)
        } else {
            Map::<Seq<char>, Sequence>::empty().insert(seat, at)
        },
    )
}

/// The broadcasts charged after one more against `a`'s assignment at `la`.
pub open spec fn charged(spent: Map<Seq<char>, AssignmentSpend>, a: Seq<char>, la: Sequence) -> Map<
    Seq<char>,
    AssignmentSpend,
> {
    spent.insert(
        a,
        AssignmentSpend {
            assigned_at: la,
            broadcasts: if charged_spec(spent, a, la) == u32::MAX {
                u32::MAX
            } else {
                (charged_spec(spent, a, la) + 1) as u32
            },
        },
    )
}

/// Whether `a` has spent the broadcasts its latest assignment allows.
pub open spec fn budget_spent(budget: Option<u32>, spent: Map<Seq<char>, AssignmentSpend>, e: EpisodeModel, a: Seq<char>) -> bool {
    budget matches Some(cap) && latest_at(e, a) matches Some(la) && charged_spec(spent, a, la) >= cap
}

/// Whether nobody took a broadcast's work: no recipient was idle and none
/// had room in its queue.
pub open spec fn untaken(pl: Placement) -> bool {
    pl.idle.len() == 0 && pl.queued == 0
}

/// Where a broadcast's recipients went: the idle ones to be assigned, the
/// queues with handoffs added, and how many were queued and refused.
pub struct Placement {
    pub idle: Seq<Seq<char>>,
    pub queues: Map<Seq<char>, Seq<HandoffModel>>,
    pub queued: nat,
    pub refused: nat,
}

/// Each recipient in turn: an idle one is assigned, a busy one with room
/// is queued `h`, a busy one with a full queue is skipped.
pub open spec fn placed(
    e: EpisodeModel,
    q: Map<Seq<char>, Seq<HandoffModel>>,
    depth: usize,
    h: HandoffModel,
    rec: Seq<Seq<char>>,
) -> Placement
    decreases rec.len(),
{
    if rec.len() == 0 {
        Placement { idle: seq![], queues: q, queued: 0, refused: 0 }
    } else {
        let p = placed(e, q, depth, h, rec.drop_last());
        let id = rec.last();
        if !pending_at(e, id) {
            Placement { idle: p.idle.push(id), ..p }
        } else if queue_len_spec(p.queues, id) >= depth {
            Placement { refused: p.refused + 1, ..p }
        } else {
            Placement { queues: pushed_queues(p.queues, id, h), queued: p.queued + 1, ..p }
        }
    }
}

/// Queues nothing was added to are the queues placing started from.
pub proof fn lemma_unqueued_keeps_queues(
    e: EpisodeModel,
    q: Map<Seq<char>, Seq<HandoffModel>>,
    depth: usize,
    h: HandoffModel,
    rec: Seq<Seq<char>>,
)
    ensures
        placed(e, q, depth, h, rec).queued == 0 ==> placed(e, q, depth, h, rec).queues == q,
    decreases rec.len(),
{
    if rec.len() > 0 {
        lemma_unqueued_keeps_queues(e, q, depth, h, rec.drop_last());
    }
}

/// The state after a routed broadcast was placed with its recipients, the
/// budget charged and the accepted order extended; the author is owed
/// another turn when every recipient was refused for capacity.
pub open spec fn placed_state(
    s: DriverModel,
    a: Seq<char>,
    at: Sequence,
    rec: Seq<Seq<char>>,
    spent: Map<Seq<char>, AssignmentSpend>,
    pl: Placement,
) -> DriverModel {
    DriverModel {
        episode: if pl.idle.len() > 0 {
            assignment_next(s.episode, pl.idle, at)
        } else {
            s.episode
        },
        pending_order: s.pending_order + fresh_ids(s.pending_order, rec, any_id()),
        ledger: LedgerModel { queues: pl.queues, spent, ..s.ledger },
        seen: SeenModel {
            ran_for: if pl.idle.len() == 0 && pl.queued == 0 && pl.refused > 0 {
                s.seen.ran_for.remove(a)
            } else {
                s.seen.ran_for
            },
            ..s.seen
        },
        ..s
    }
}

/// A routed broadcast with plan `plan`. `s` is the state before the row,
/// `s1` after what every row does first. Placed with somebody, it runs its
/// recipients and completes an author that was shown what it holds; placed
/// with nobody, because every recipient's queue was full, the work stays
/// with its author, who is owed another turn, and nothing runs.
pub open spec fn broadcast_stage(
    cfg: FoldConfig,
    s: DriverModel,
    s1: DriverModel,
    a: Seq<char>,
    at: Sequence,
    message: Seq<char>,
    plan: PlanModel,
) -> FoldStep {
    let rec = plan_model_ids(plan);
    let spent = match latest_at(s1.episode, a) {
        Some(la) => charged(s1.ledger.spent, a, la),
        None => s1.ledger.spent,
    };
    if budget_spent(cfg.budget, s1.ledger.spent, s1.episode, a) {
        FoldStep::Refused
    } else if fallback_spec(s.episode, s.pending_order, a) is None {
        FoldStep::Refused
    } else if rec.len() > cfg.width {
        FoldStep::Refused
    } else if rec.contains(a) {
        FoldStep::Refused
    } else if first_index(outside_pred(cfg.members, rec), rec.len() as int) < rec.len() {
        FoldStep::Refused
    } else if rec.len() == 0 {
        FoldStep::Next(
            DriverModel {
                ledger: LedgerModel { spent, ..s1.ledger },
                seen: SeenModel { ran_for: s1.seen.ran_for.remove(a), ..s1.seen },
                ..s1
            },
            seq![],
        )
    } else {
        let pl = placed(s1.episode, s1.ledger.queues, cfg.depth, HandoffModel { from: a, body: message, origin: at }, rec);
        if pl.idle.len() > 0 && !assignment_ok(s1.episode, pl.idle, at) {
            FoldStep::Refused
        } else {
            let s3 = placed_state(s1, a, at, rec, spent, pl);
            let acts = seq![ActionModel::RunAgents { agent_ids: rec, plan }];
            if untaken(pl) {
                FoldStep::Next(s3, seq![])
            } else if open_at(s3.episode, a) matches Some(oa) && awaiting_spec(s3.ledger.asks, a) is None && shown(
                s3.seen.delivered_through,
                a,
                oa,
            ) {
                complete_and_hand_over(s3, a, at, acts)
            } else {
                FoldStep::Next(s3, acts)
            }
        }
    }
}

/// Why `broadcast_stage` refused.
pub open spec fn broadcast_refusal(
    cfg: FoldConfig,
    s: DriverModel,
    s1: DriverModel,
    a: Seq<char>,
    at: Sequence,
    message: Seq<char>,
    plan: PlanModel,
    err: Error,
) -> bool {
    let rec = plan_model_ids(plan);
    let spent = match latest_at(s1.episode, a) {
        Some(la) => charged(s1.ledger.spent, a, la),
        None => s1.ledger.spent,
    };
    let f = first_index(outside_pred(cfg.members, rec), rec.len() as int);
    let pl = placed(s1.episode, s1.ledger.queues, cfg.depth, HandoffModel { from: a, body: message, origin: at }, rec);
    if budget_spent(cfg.budget, s1.ledger.spent, s1.episode, a) {
        err matches Error::BudgetSpent { agent_id, assigned_at } && agent_id@ == a && assigned_at
            == latest_at(s1.episode, a)->Some_0
    } else if fallback_spec(s.episode, s.pending_order, a) is None {
        err matches Error::NoBroadcastFallback { agent_id } && agent_id@ == a
    } else if rec.len() > cfg.width {
        err matches Error::BroadcastTooWide { recipient_count, round_width } && recipient_count == rec.len()
            && round_width == cfg.width
    } else if rec.contains(a) {
        err matches Error::BroadcastIncludesAuthor { agent_id } && agent_id@ == a
    } else if f < rec.len() {
        err matches Error::UnknownBoundAgent { agent_id } && agent_id@ == rec[f]
    } else if pl.idle.len() > 0 && !assignment_ok(s1.episode, pl.idle, at) {
        err matches Error::Completion(ce) && assignment_result(s1.episode, pl.idle, at, Err(ce))
    } else {
        complete_refusal(placed_state(s1, a, at, rec, spent, pl), a, at, err)
    }
}

/// The effect of the row `ev` itself, after what every row does first.
pub open spec fn stage(cfg: FoldConfig, s: DriverModel, ev: CommittedModel, plan: Option<PlanModel>) -> FoldStep {
    let s1 = before_effect(s, ev);
    let a = ev.author_id;
    let at = ev.sequence;
    match ev.utterance {
        UtteranceModel::Post { .. } => FoldStep::Next(s1, seq![]),
        UtteranceModel::CompleteEpisode { .. } => completion_stage(s1, a, at),
        UtteranceModel::Dm { to, message } => if dm_ok(cfg.members, a, to, cfg.width) {
            FoldStep::Next(s1, seq![ActionModel::DeliverDm { recipients: to, message }])
        } else {
            FoldStep::Refused
        },
        UtteranceModel::Ask { to, message } => if dm_ok(cfg.members, a, seq![to], cfg.width) {
            FoldStep::Next(
                DriverModel {
                    ledger: LedgerModel { asks: opened_ask(s1.ledger.asks, a, to, at), ..s1.ledger },
                    ..s1
                },
                seq![ActionModel::DeliverDm { recipients: seq![to], message }],
            )
        } else {
            FoldStep::Refused
        },
        UtteranceModel::Broadcast { message } => match plan {
            None => FoldStep::Refused,
            Some(p) => broadcast_stage(cfg, s, s1, a, at, message, p),
        },
    }
}

/// Why `stage` refused.
pub open spec fn stage_refusal(cfg: FoldConfig, s: DriverModel, ev: CommittedModel, plan: Option<PlanModel>, err: Error) -> bool {
    let s1 = before_effect(s, ev);
    let a = ev.author_id;
    let at = ev.sequence;
    match ev.utterance {
        UtteranceModel::Post { .. } => false,
        UtteranceModel::CompleteEpisode { .. } => completion_refusal(s1, a, at, err),
        UtteranceModel::Dm { to, .. } => dm_resolved(cfg.members, a, to, cfg.width, Err(err)),
        UtteranceModel::Ask { to, .. } => dm_resolved(cfg.members, a, seq![to], cfg.width, Err(err)),
        UtteranceModel::Broadcast { message } => match plan {
            None => err matches Error::MissingBroadcastRouting,
            Some(p) => broadcast_refusal(cfg, s, s1, a, at, message, p, err),
        },
    }
}

/// What every accepted row ends with: the freshness floor moves to it, the
/// revision advances, its receipt is filed, and settled seats leave the
/// accepted order.
pub open spec fn finished(s2: DriverModel, s: DriverModel, ev: CommittedModel) -> DriverModel {
    DriverModel {
        freshness_floor: ev.sequence,
        revision: (s.revision + 1) as u64,
        receipts: s2.receipts.insert(ev.sequence, ev),
        pending_order: pruned_order(s2.pending_order, s2.episode.participants),
        ..s2
    }
}

/// The checks every committed row meets before anything else: an exact
/// replay of a filed row changes nothing; a different row under a filed
/// sequence, a row at or below the freshness floor, and an author outside
/// the hive are refused.
pub open spec fn replay_checked(members: Seq<Seq<char>>, s: DriverModel, ev: CommittedModel, r: Result<Transition, Error>) -> bool {
    let at = ev.sequence;
    if s.receipts.dom().contains(at) {
        if s.receipts[at] == ev {
            r matches Ok(t) && t.state@ == s && t.actions@.len() == 0
        } else {
            r matches Err(Error::DuplicateCommittedSequence { sequence }) && sequence == at
        }
    } else if at.0 <= s.freshness_floor.0 {
        r matches Err(Error::StaleCommittedEvent { sequence }) && sequence == at
    } else {
        r matches Err(Error::OutOfHiveParticipant { agent_id }) && agent_id@ == ev.author_id
    }
}

/// Whether a row passes the checks before its effect.
pub open spec fn fresh_row(members: Seq<Seq<char>>, s: DriverModel, ev: CommittedModel) -> bool {
    !s.receipts.dom().contains(ev.sequence) && ev.sequence.0 > s.freshness_floor.0 && members.contains(ev.author_id)
}

/// What folding the committed row `ev` into `s` gives, `plan` being the
/// accepted routing of a broadcast.
pub open spec fn committed_result(
    cfg: FoldConfig,
    s: DriverModel,
    ev: CommittedModel,
    plan: Option<PlanModel>,
    r: Result<Transition, Error>,
) -> bool {
    if !fresh_row(cfg.members, s, ev) {
        replay_checked(cfg.members, s, ev, r)
    } else {
        match stage(cfg, s, ev, plan) {
            FoldStep::Refused => r matches Err(e) && stage_refusal(cfg, s, ev, plan, e),
            FoldStep::Next(s2, acts) => if s.revision == u64::MAX {
                r matches Err(Error::StateRevisionOverflow)
            } else {
                r matches Ok(t) && t.state@ == finished(s2, s, ev) && action_views(t.actions@) == acts
            },
        }
    }
}

/// The route candidates a broadcast is offered: every candidate of the
/// graph but its author, among the episode's participants.
pub open spec fn broadcast_candidates(cs: Seq<CandidateModel>, a: Seq<char>, ids: Seq<Seq<char>>) -> Seq<CandidateModel>
    decreases cs.len(),
{
    if cs.len() == 0 {
        seq![]
    } else {
        let r = broadcast_candidates(cs.drop_last(), a, ids);
        if cs.last().id != a && ids.contains(cs.last().id) {
            r.push(cs.last())
        } else {
            r
        }
    }
}

} // verus!
