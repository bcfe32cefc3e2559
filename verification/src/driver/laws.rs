//! What holds of the driver across its operations: the invariants every fold
//! keeps, what a replay changes, and how woken and stalled seats relate.

use vstd::prelude::*;

use crate::completion::{
    assigned, assignment_next, assignment_ok, assignment_refused, completed, completion_next,
    completion_ok, episode_wf, history_pending, history_replays, lemma_assigned_keeps,
    lemma_completed_keeps, lemma_position, lemma_position_same_ids, position, repeated,
    total_settled, EpisodeModel, ParticipantModel,
};
use crate::driver::order::{
    fresh_ids, lemma_fresh_ids, pruned_order, stalled_among, stalled_spec, wake_keep, wake_order,
};
use crate::driver::receipts::CommittedModel;
use crate::driver::round::round_ids;
use crate::driver::state::{owed_turn, pending_at, DriverModel, Transition};
use crate::driver::step::{
    before_effect, broadcast_stage, committed_result, complete_and_hand_over, completion_stage,
    finished, fresh_row, placed, placed_state, pop_queues, pushed_queues, stage, FoldConfig,
    FoldStep, Placement,
};
use crate::error::Error;
use crate::first::{first_index, lemma_first_index};
use crate::ledger::queue_len_spec;
use crate::routing::{plan_model_ids, PlanModel};
use crate::text::{trimmed, distinct};
use crate::types::{Sequence, UtteranceModel};

verus! {

/// Every participant's id is already trimmed, as canonical ids are.
pub open spec fn ids_trimmed(e: EpisodeModel) -> bool {
    forall|i: int| 0 <= i < e.participants.len() ==> trimmed(#[trigger] e.participants[i].agent_id) == e.participants[i].agent_id
}

/// A queued handoff waits only on a seat that is still working.
pub open spec fn queues_on_pending(s: DriverModel) -> bool {
    forall|k: Seq<char>| #[trigger] s.ledger.queues.dom().contains(k) ==> pending_at(s.episode, k)
}

/// What every driver state the fold produces holds: well-formed histories
/// over trimmed ids, and queues only for seats still working.
pub open spec fn state_inv(s: DriverModel) -> bool {
    &&& episode_wf(s.episode)
    &&& ids_trimmed(s.episode)
    &&& queues_on_pending(s)
}

/// Whether two episodes name the same participants at the same places.
pub open spec fn same_ids(a: EpisodeModel, b: EpisodeModel) -> bool {
    &&& a.participants.len() == b.participants.len()
    &&& forall|j: int| 0 <= j < a.participants.len() ==> (#[trigger] a.participants[j]).agent_id == b.participants[j].agent_id
}

/// Whether every seat pending in `a` is pending in `b`.
pub open spec fn keeps_pending_except(a: EpisodeModel, b: EpisodeModel, x: Seq<char>) -> bool {
    forall|k: Seq<char>| k != x && #[trigger] pending_at(a, k) ==> pending_at(b, k)
}

/// Recording an accepted completion keeps every history well formed, keeps
/// every id in place, finishes no fewer assignments, and leaves every other
/// working seat working.
pub proof fn lemma_completion_next(e: EpisodeModel, a: Seq<char>, at: Sequence)
    requires
        completion_ok(e, a, at),
    ensures
        episode_wf(e) ==> episode_wf(completion_next(e, a, at)),
        total_settled(completion_next(e, a, at).participants) >= total_settled(e.participants),
        same_ids(e, completion_next(e, a, at)),
        keeps_pending_except(e, completion_next(e, a, at), a),
        ids_trimmed(e) ==> ids_trimmed(completion_next(e, a, at)),
{
    let k = position(e.participants, a);
    let n = completion_next(e, a, at);
    if !history_replays(e.participants[k].assignments, at) {
        lemma_completed_keeps(e, k, at);
        assert forall|j: int| 0 <= j < e.participants.len() implies (#[trigger] e.participants[j]).agent_id == n.participants[j].agent_id by {}
        lemma_position(e.participants, a);
        assert forall|x: Seq<char>| x != a && #[trigger] pending_at(e, x) implies pending_at(n, x) by {
            lemma_position_same_ids(e.participants, n.participants, x);
            lemma_position(e.participants, x);
            assert(position(e.participants, x) != k);
        }
        assert forall|j: int| 0 <= j < n.participants.len() && ids_trimmed(e) implies trimmed(#[trigger] n.participants[j].agent_id) == n.participants[j].agent_id by {
            assert(n.participants[j].agent_id == e.participants[j].agent_id);
        }
    }
}

/// The settled count never drops. An accepted completion finishes exactly
/// one more assignment, or none when it replays one already recorded; an
/// accepted assignment finishes none.
pub proof fn lemma_settled_never_drops(e: EpisodeModel, a: Seq<char>, at: Sequence, raw: Seq<Seq<char>>, at2: Sequence)
    ensures
        completion_ok(e, a, at) ==> total_settled(completion_next(e, a, at).participants) == total_settled(
            e.participants,
        ) + if history_replays(e.participants[position(e.participants, a)].assignments, at) {
            0nat
        } else {
            1nat
        },
        assignment_ok(e, raw, at2) ==> total_settled(assignment_next(e, raw, at2).participants) == total_settled(
            e.participants,
        ),
{
    if completion_ok(e, a, at) {
        let k = position(e.participants, a);
        if !history_replays(e.participants[k].assignments, at) {
            lemma_completed_keeps(e, k, at);
        }
    }
    if assignment_ok(e, raw, at2) {
        lemma_assignment_next(e, raw, at2);
    }
}

/// Recording an accepted assignment keeps every history well formed, keeps
/// every id in place, finishes nothing, leaves every working seat working,
/// and sets every recipient to work.
pub proof fn lemma_assignment_next(e: EpisodeModel, raw: Seq<Seq<char>>, at: Sequence)
    requires
        assignment_ok(e, raw, at),
    ensures
        episode_wf(e) ==> episode_wf(assignment_next(e, raw, at)),
        total_settled(assignment_next(e, raw, at).participants) == total_settled(e.participants),
        same_ids(e, assignment_next(e, raw, at)),
        forall|k: Seq<char>| #[trigger] pending_at(e, k) ==> pending_at(assignment_next(e, raw, at), k),
        forall|i: int| 0 <= i < raw.len() && trimmed(raw[i]) == raw[i] ==> #[trigger] pending_at(assignment_next(e, raw, at), raw[i]),
        ids_trimmed(e) ==> ids_trimmed(assignment_next(e, raw, at)),
{
    let t = raw.map_values(|s: Seq<char>| trimmed(s));
    let p = |i: int| assignment_refused(e.participants, t[i], at);
    lemma_first_index(p, t.len() as int);
    assert forall|i: int| 0 <= i < t.len() implies !assignment_refused(e.participants, #[trigger] t[i], at) by {
        assert(!p(i));
    }
    lemma_assigned_keeps(e, t, at);
    let n = assigned(e, t, at);
    assert forall|j: int| 0 <= j < e.participants.len() implies (#[trigger] e.participants[j]).agent_id == n.participants[j].agent_id by {}
    assert forall|x: Seq<char>| #[trigger] pending_at(e, x) implies pending_at(n, x) by {
        lemma_position_same_ids(e.participants, n.participants, x);
        let m = position(e.participants, x);
        if exists|i: int| 0 <= i < t.len() && position(e.participants, t[i]) == m {
            let i = choose|i: int| 0 <= i < t.len() && position(e.participants, t[i]) == m;
            assert(!assignment_refused(e.participants, t[i], at));
        }
    }
    assert forall|i: int| 0 <= i < raw.len() && trimmed(raw[i]) == raw[i] implies #[trigger] pending_at(n, raw[i]) by {
        assert(t[i] == raw[i]);
        assert(!assignment_refused(e.participants, t[i], at));
        lemma_position_same_ids(e.participants, n.participants, raw[i]);
        let m = position(e.participants, raw[i]);
        assert(0 <= i < t.len() && position(e.participants, t[i]) == m);
        assert(n.participants[m].assignments.last().completed_at is None);
    }
    assert forall|j: int| 0 <= j < n.participants.len() && ids_trimmed(e) implies trimmed(#[trigger] n.participants[j].agent_id) == n.participants[j].agent_id by {
        assert(n.participants[j].agent_id == e.participants[j].agent_id);
    }
}

} // verus!

verus! {

/// Recording a seat's completion and handing it its next queued handoff
/// keeps the invariant and finishes no fewer assignments.
pub proof fn lemma_hand_over_keeps(s: DriverModel, a: Seq<char>, at: Sequence, acts: Seq<crate::driver::state::ActionModel>)
    requires
        state_inv(s),
    ensures
        match complete_and_hand_over(s, a, at, acts) {
            FoldStep::Next(s2, _) => state_inv(s2) && total_settled(s2.episode.participants) >= total_settled(
                s.episode.participants,
            ),
            FoldStep::Refused => true,
        },
{
    let e = s.episode;
    if completion_ok(e, a, at) {
        lemma_completion_next(e, a, at);
        let e2 = completion_next(e, a, at);
        let k = position(e.participants, a);
        lemma_position(e.participants, a);
        assert(trimmed(e.participants[k].agent_id) == e.participants[k].agent_id);
        assert(trimmed(a) == a);
        let q = s.ledger.queues;
        let q2 = pop_queues(q, a);
        assert forall|x: Seq<char>| #[trigger] q2.dom().contains(x) implies q.dom().contains(x) && (x != a
            || queue_len_spec(q, a) > 1) by {}
        if queue_len_spec(q, a) > 0 && assignment_ok(e2, seq![a], at) {
            lemma_assignment_next(e2, seq![a], at);
            let e3 = assignment_next(e2, seq![a], at);
            assert(seq![a][0] == a);
            assert(pending_at(e3, seq![a][0]));
            assert forall|x: Seq<char>| #[trigger] q2.dom().contains(x) implies pending_at(e3, x) by {
                if x != a {
                    assert(pending_at(e, x));
                    assert(pending_at(e2, x));
                }
            }
        } else if queue_len_spec(q, a) == 0 {
            assert forall|x: Seq<char>| #[trigger] q2.dom().contains(x) implies pending_at(e2, x) by {
                assert(x != a);
                assert(pending_at(e, x));
            }
        }
    }
}

/// Where placing a broadcast puts handoffs: only with seats already queued
/// or still working.
pub proof fn lemma_placed_queues(
    e: EpisodeModel,
    q: Map<Seq<char>, Seq<crate::ledger::HandoffModel>>,
    depth: usize,
    h: crate::ledger::HandoffModel,
    rec: Seq<Seq<char>>,
)
    ensures
        forall|k: Seq<char>| #[trigger] placed(e, q, depth, h, rec).queues.dom().contains(k) ==> q.dom().contains(k)
            || pending_at(e, k),
    decreases rec.len(),
{
    if rec.len() > 0 {
        lemma_placed_queues(e, q, depth, h, rec.drop_last());
        let p = placed(e, q, depth, h, rec.drop_last());
        let id = rec.last();
        let r = placed(e, q, depth, h, rec);
        assert forall|k: Seq<char>| #[trigger] r.queues.dom().contains(k) implies q.dom().contains(k) || pending_at(e, k) by {
            if pending_at(e, id) && !(queue_len_spec(p.queues, id) >= depth) {
                assert(r.queues == pushed_queues(p.queues, id, h));
                if k != id {
                    assert(p.queues.dom().contains(k));
                }
            } else {
                assert(r.queues == p.queues);
            }
        }
    }
}

/// Placing a routed broadcast keeps the invariant and finishes nothing.
pub proof fn lemma_placed_keeps(
    s: DriverModel,
    a: Seq<char>,
    at: Sequence,
    rec: Seq<Seq<char>>,
    spent: Map<Seq<char>, crate::ledger::AssignmentSpend>,
    depth: usize,
    message: Seq<char>,
)
    requires
        state_inv(s),
        ({
            let pl = placed(s.episode, s.ledger.queues, depth, crate::ledger::HandoffModel { from: a, body: message, origin: at }, rec);
            pl.idle.len() == 0 || assignment_ok(s.episode, pl.idle, at)
        }),
    ensures
        ({
            let pl = placed(s.episode, s.ledger.queues, depth, crate::ledger::HandoffModel { from: a, body: message, origin: at }, rec);
            let s3 = placed_state(s, a, at, rec, spent, pl);
            state_inv(s3) && total_settled(s3.episode.participants) == total_settled(s.episode.participants)
        }),
{
    let h = crate::ledger::HandoffModel { from: a, body: message, origin: at };
    let pl = placed(s.episode, s.ledger.queues, depth, h, rec);
    lemma_placed_queues(s.episode, s.ledger.queues, depth, h, rec);
    let s3 = placed_state(s, a, at, rec, spent, pl);
    if pl.idle.len() > 0 {
        lemma_assignment_next(s.episode, pl.idle, at);
    }
    assert forall|k: Seq<char>| #[trigger] s3.ledger.queues.dom().contains(k) implies pending_at(s3.episode, k) by {
        assert(pending_at(s.episode, k));
    }
}

/// Folding a routed broadcast keeps the invariant and finishes no fewer
/// assignments.
pub proof fn lemma_broadcast_keeps(
    cfg: FoldConfig,
    s: DriverModel,
    s1: DriverModel,
    a: Seq<char>,
    at: Sequence,
    message: Seq<char>,
    plan: PlanModel,
)
    requires
        state_inv(s1),
    ensures
        match broadcast_stage(cfg, s, s1, a, at, message, plan) {
            FoldStep::Next(s2, _) => state_inv(s2) && total_settled(s2.episode.participants) >= total_settled(
                s1.episode.participants,
            ),
            FoldStep::Refused => true,
        },
{
    let rec = plan_model_ids(plan);
    let spent = match crate::driver::state::latest_at(s1.episode, a) {
        Some(la) => crate::driver::step::charged(s1.ledger.spent, a, la),
        None => s1.ledger.spent,
    };
    let h = crate::ledger::HandoffModel { from: a, body: message, origin: at };
    let pl = placed(s1.episode, s1.ledger.queues, cfg.depth, h, rec);
    if rec.len() > 0 && (pl.idle.len() == 0 || assignment_ok(s1.episode, pl.idle, at)) {
        lemma_placed_keeps(s1, a, at, rec, spent, cfg.depth, message);
        let s3 = placed_state(s1, a, at, rec, spent, pl);
        lemma_hand_over_keeps(s3, a, at, seq![crate::driver::state::ActionModel::RunAgents { agent_ids: rec, plan }]);
    }
}

/// The effect of any row keeps the invariant and finishes no fewer
/// assignments.
pub proof fn lemma_stage_keeps(cfg: FoldConfig, s: DriverModel, ev: CommittedModel, plan: Option<PlanModel>)
    requires
        state_inv(s),
    ensures
        match stage(cfg, s, ev, plan) {
            FoldStep::Next(s2, _) => state_inv(s2) && total_settled(s2.episode.participants) >= total_settled(
                s.episode.participants,
            ),
            FoldStep::Refused => true,
        },
{
    let s1 = before_effect(s, ev);
    assert(s1.episode == s.episode && s1.ledger.queues == s.ledger.queues);
    assert(state_inv(s1));
    match ev.utterance {
        UtteranceModel::CompleteEpisode { .. } => {
            lemma_hand_over_keeps(s1, ev.author_id, ev.sequence, seq![]);
        },
        UtteranceModel::Broadcast { message } => {
            if let Some(p) = plan {
                lemma_broadcast_keeps(cfg, s, s1, ev.author_id, ev.sequence, message, p);
            }
        },
        _ => {},
    }
}

/// Every fold keeps the invariant, and the number of finished assignments
/// never falls: whatever order rows arrive in, histories stay well formed,
/// and a queued handoff waits only on a seat still working.
pub proof fn lemma_fold_keeps_invariant(cfg: FoldConfig, s: DriverModel, ev: CommittedModel, plan: Option<PlanModel>, t: Transition)
    requires
        state_inv(s),
        committed_result(cfg, s, ev, plan, Ok(t)),
    ensures
        state_inv(t.state@),
        total_settled(t.state@.episode.participants) >= total_settled(s.episode.participants),
{
    if fresh_row(cfg.members, s, ev) {
        lemma_stage_keeps(cfg, s, ev, plan);
    }
}

} // verus!

verus! {

/// Every stalled seat is one nothing will wake.
pub proof fn lemma_stalled_not_owed(s: DriverModel, ps: Seq<ParticipantModel>)
    ensures
        forall|x: Seq<char>| #[trigger] stalled_among(s, ps).contains(x) ==> !owed_turn(s, x),
    decreases ps.len(),
{
    if ps.len() > 0 {
        lemma_stalled_not_owed(s, ps.drop_last());
        let r = stalled_among(s, ps.drop_last());
        assert forall|x: Seq<char>| #[trigger] stalled_among(s, ps).contains(x) implies !owed_turn(s, x) by {
            if history_pending(ps.last().assignments) && !owed_turn(s, ps.last().agent_id) {
                let r2 = r.push(ps.last().agent_id);
                assert(stalled_among(s, ps) == r2);
                let k = choose|k: int| 0 <= k < r2.len() && r2[k] == x;
                if k < r.len() {
                    assert(r[k] == x);
                    assert(r.contains(x));
                } else {
                    assert(x == ps.last().agent_id);
                }
            } else {
                assert(stalled_among(s, ps) == r);
            }
        }
    }
}

/// Woken and stalled never overlap: a seat in the next round is owed a
/// turn, and a stalled seat is not.
pub proof fn lemma_woken_never_stalled(s: DriverModel, width: usize)
    ensures
        forall|x: Seq<char>| #[trigger] round_ids(s, width).contains(x) ==> !stalled_spec(s).contains(x),
{
    let complete = !crate::completion::any_pending(s.episode.participants);
    let w = wake_order(s, complete);
    let c = s.pending_order + crate::completion::all_ids(s.episode.participants);
    lemma_fresh_ids(seq![], c, wake_keep(s));
    lemma_stalled_not_owed(s, s.episode.participants);
    assert forall|x: Seq<char>| #[trigger] round_ids(s, width).contains(x) implies !stalled_spec(s).contains(x) by {
        let r = round_ids(s, width);
        let k = choose|k: int| 0 <= k < r.len() && r[k] == x;
        assert(w.contains(w[k]));
        if !complete {
            assert(fresh_ids(seq![], c, wake_keep(s)).contains(x));
            assert(wake_keep(s)(x));
        }
    }
}

/// What a round proposes, in any state: distinct seats, no more of them than
/// the round is wide, the first of the order seats are woken in, each still
/// owing work and owed a turn, none of them stalled; and nobody once the
/// episode is complete.
pub proof fn lemma_round_shape(s: DriverModel, width: usize)
    ensures
        distinct(round_ids(s, width)),
        round_ids(s, width).len() <= width,
        round_ids(s, width) == wake_order(s, !crate::completion::any_pending(s.episode.participants)).take(
            round_ids(s, width).len() as int,
        ),
        forall|x: Seq<char>| #[trigger] round_ids(s, width).contains(x) ==> crate::driver::state::pending_has(
            s.episode.participants,
            x,
        ) && owed_turn(s, x) && !stalled_spec(s).contains(x),
        !crate::completion::any_pending(s.episode.participants) ==> round_ids(s, width).len() == 0,
{
    let complete = !crate::completion::any_pending(s.episode.participants);
    let w = wake_order(s, complete);
    let c = s.pending_order + crate::completion::all_ids(s.episode.participants);
    let r = round_ids(s, width);
    lemma_fresh_ids(seq![], c, wake_keep(s));
    lemma_woken_never_stalled(s, width);
    assert(distinct(w));
    assert forall|i: int, j: int| 0 <= i < j < r.len() implies #[trigger] r[i] != #[trigger] r[j] by {
        assert(r[i] == w[i] && r[j] == w[j]);
    }
    assert forall|x: Seq<char>| #[trigger] r.contains(x) implies crate::driver::state::pending_has(
        s.episode.participants,
        x,
    ) && owed_turn(s, x) by {
        let k = choose|k: int| 0 <= k < r.len() && r[k] == x;
        assert(w[k] == x);
        assert(w.contains(x));
        assert(fresh_ids(seq![], c, wake_keep(s)).contains(x));
        assert(wake_keep(s)(x));
    }
}

/// Folding a row twice is folding it once: the second time it is the exact
/// replay of a filed row, which changes nothing and proposes nothing.
pub proof fn lemma_refold_is_noop(
    cfg: FoldConfig,
    s: DriverModel,
    ev: CommittedModel,
    plan: Option<PlanModel>,
    plan2: Option<PlanModel>,
    t: Transition,
    r2: Result<Transition, Error>,
)
    requires
        committed_result(cfg, s, ev, plan, Ok(t)),
        committed_result(cfg, t.state@, ev, plan2, r2),
    ensures
        r2 matches Ok(t2) && t2.state@ == t.state@ && t2.actions@.len() == 0,
{
    let s2 = t.state@;
    assert(s2.receipts.dom().contains(ev.sequence));
    assert(s2.receipts[ev.sequence] == ev);
}

/// What the host reports about delivery and turns never touches the
/// invariant.
pub proof fn lemma_reports_keep_invariant(s: DriverModel, seen: crate::ledger::SeenModel)
    requires
        state_inv(s),
    ensures
        state_inv(DriverModel { seen, ..s }),
{
}

} // verus!

verus! {

/// Ids already distinct and all admitted are taken as they are.
pub proof fn lemma_fresh_keeps_all(c: Seq<Seq<char>>, keep: spec_fn(Seq<char>) -> bool)
    requires
        distinct(c),
        forall|i: int| 0 <= i < c.len() ==> keep(#[trigger] c[i]),
    ensures
        fresh_ids(seq![], c, keep) == c,
    decreases c.len(),
{
    if c.len() > 0 {
        let d = c.drop_last();
        assert forall|i: int, j: int| 0 <= i < j < d.len() implies #[trigger] d[i] != #[trigger] d[j] by {
            assert(c[i] != c[j]);
        }
        assert forall|i: int| 0 <= i < d.len() implies keep(#[trigger] d[i]) by {
            assert(keep(c[i]));
        }
        lemma_fresh_keeps_all(d, keep);
        assert(keep(c[c.len() - 1]));
        if d.contains(c.last()) {
            let k = choose|k: int| 0 <= k < d.len() && d[k] == c.last();
            assert(c[k] != c[c.len() - 1]);
        }
        assert(d.push(c.last()) =~= c);
    }
}

/// Pruning the accepted order twice is pruning it once.
pub proof fn lemma_prune_twice(order: Seq<Seq<char>>, ps: Seq<ParticipantModel>)
    ensures
        pruned_order(pruned_order(order, ps), ps) == pruned_order(order, ps),
{
    let keep = crate::driver::order::pending_keep(ps);
    let p = pruned_order(order, ps);
    lemma_fresh_ids(seq![], order, keep);
    assert forall|i: int| 0 <= i < p.len() implies keep(#[trigger] p[i]) by {
        assert(p.contains(p[i]));
    }
    lemma_fresh_keeps_all(p, keep);
}

/// Resuming a state that resumed gives it back unchanged: every check it
/// passed it passes again, and its accepted order is already pruned.
pub proof fn lemma_resume_twice(
    members: Seq<Seq<char>>,
    desk_id: Seq<char>,
    s: DriverModel,
    t: crate::driver::state::DriverState,
    r2: Result<crate::driver::state::DriverState, Error>,
)
    requires
        crate::driver::setup::resume_result(members, desk_id, s, Ok(t)),
        crate::driver::setup::resume_result(members, desk_id, t@, r2),
    ensures
        r2 matches Ok(t2) && t2@ == t@,
{
    let ps = s.episode.participants;
    let o = s.pending_order;
    let p = pruned_order(o, ps);
    let keep = crate::driver::order::pending_keep(ps);
    lemma_first_index(crate::graph::outside_pred(members, o), o.len() as int);
    lemma_fresh_ids(seq![], o, keep);
    lemma_first_index(crate::driver::setup::participant_refusal(members, ps), ps.len() as int);
    assert forall|j: int| 0 <= j < p.len() implies !#[trigger] crate::graph::outside_pred(members, p)(j) by {
        assert(p.contains(p[j]));
        assert(o.contains(p[j]));
        let i = choose|i: int| 0 <= i < o.len() && o[i] == p[j];
        assert(!crate::graph::outside_pred(members, o)(i));
    }
    crate::first::lemma_first_index_unique(crate::graph::outside_pred(members, p), p.len() as int, p.len() as int);
    lemma_prune_twice(o, ps);
}

} // verus!

verus! {

/// An opened episode holds the invariant: one open assignment per
/// participant, over trimmed ids.
pub proof fn lemma_opened_inv(
    conversation: crate::types::ConversationModel,
    watermark: Sequence,
    raw: Seq<Seq<char>>,
    r: Result<crate::completion::CompletionEpisodeState, crate::completion::Error>,
)
    requires
        crate::completion::opening_result(conversation, watermark, raw, r),
        r is Ok,
    ensures
        episode_wf(r->Ok_0@),
        ids_trimmed(r->Ok_0@),
{
    let e = r->Ok_0@;
    assert forall|i: int| 0 <= i < e.participants.len() implies trimmed(#[trigger] e.participants[i].agent_id) == e.participants[i].agent_id by {
        crate::text::lemma_trimmed_idempotent(raw[i]);
    }
}

/// A driver started on an episode that holds the invariant holds it.
pub proof fn lemma_start_inv(
    members: Seq<Seq<char>>,
    desk_id: Seq<char>,
    e: EpisodeModel,
    t: crate::driver::state::DriverState,
)
    requires
        episode_wf(e),
        ids_trimmed(e),
        crate::driver::setup::resume_result(
            members,
            desk_id,
            DriverModel {
                episode: e,
                receipts: Map::empty(),
                freshness_floor: crate::driver::state::episode_floor(e),
                pending_order: seq![],
                revision: 0,
                ledger: crate::ledger::Ledger::new_model(),
                seen: crate::ledger::Seen::new_model(),
            },
            Ok(t),
        ),
    ensures
        state_inv(t@),
{
}

} // verus!
