//! The freshness floor a driver state carries is the greatest sequence its
//! episode and receipts hold, its revision counts its receipts, and every
//! receipt is filed under its own sequence: a started state holds this, and
//! every fold keeps it.

use vstd::prelude::*;

use crate::completion::{
    assignment_next, completed, completion_next, completion_ok, history_pending, history_replays,
    lemma_position, position, AssignmentRecord, EpisodeModel, ParticipantModel,
};
use crate::driver::receipts::{greatest_key, CommittedModel};
use crate::driver::setup::derived_floor;
use crate::driver::state::{episode_floor, history_floor, participants_floor, DriverModel, Transition};
use crate::driver::step::{
    before_effect, committed_result, complete_and_hand_over, finished, fresh_row, placed_state, stage,
    FoldConfig, FoldStep,
};
use crate::types::{Sequence, UtteranceModel};

verus! {

/// Whether a record's sequences are at most `b`.
pub open spec fn record_within(r: AssignmentRecord, b: Sequence) -> bool {
    &&& r.assigned_at.0 <= b.0
    &&& match r.completed_at {
        Some(c) => c.0 <= b.0,
        None => true,
    }
}

/// Whether every record of a history is within `b`.
pub open spec fn history_within(h: Seq<AssignmentRecord>, b: Sequence) -> bool {
    forall|j: int| 0 <= j < h.len() ==> record_within(#[trigger] h[j], b)
}

/// Whether every sequence an episode carries is at most `b`: its watermark,
/// and every assignment and completion in it.
pub open spec fn within(e: EpisodeModel, b: Sequence) -> bool {
    &&& e.watermark.0 <= b.0
    &&& forall|m: int| 0 <= m < e.participants.len() ==> history_within(#[trigger] e.participants[m].assignments, b)
}

/// A history's floor is at least where it starts.
proof fn lemma_history_floor_from(f: Sequence, h: Seq<AssignmentRecord>, w: Sequence)
    ensures
        history_floor(f, h, w).0 >= f.0,
    decreases h.len(),
{
    if h.len() > 0 {
        lemma_history_floor_from(f, h.drop_last(), w);
    }
}

/// The participants' floor is at least where it starts.
proof fn lemma_participants_floor_from(f: Sequence, ps: Seq<ParticipantModel>, w: Sequence)
    ensures
        participants_floor(f, ps, w).0 >= f.0,
    decreases ps.len(),
{
    if ps.len() > 0 {
        lemma_participants_floor_from(f, ps.drop_last(), w);
        lemma_history_floor_from(participants_floor(f, ps.drop_last(), w), ps.last().assignments, w);
    }
}

/// A history's floor is at most `b` exactly when its start and every
/// record are.
proof fn lemma_history_floor_within(f: Sequence, h: Seq<AssignmentRecord>, w: Sequence, b: Sequence)
    requires
        w.0 <= b.0,
    ensures
        (history_floor(f, h, w).0 <= b.0) == (f.0 <= b.0 && history_within(h, b)),
    decreases h.len(),
{
    if h.len() > 0 {
        let d = h.drop_last();
        lemma_history_floor_within(f, d, w, b);
        assert(history_within(h, b) == (history_within(d, b) && record_within(h.last(), b))) by {
            if history_within(h, b) {
                assert forall|j: int| 0 <= j < d.len() implies record_within(#[trigger] d[j], b) by {
                    assert(d[j] == h[j]);
                }
                assert(record_within(h[h.len() - 1], b));
            }
            if history_within(d, b) && record_within(h.last(), b) {
                assert forall|j: int| 0 <= j < h.len() implies record_within(#[trigger] h[j], b) by {
                    if j < h.len() - 1 {
                        assert(d[j] == h[j]);
                    }
                }
            }
        }
    }
}

/// The participants' floor is at most `b` exactly when its start and every
/// history are.
proof fn lemma_participants_floor_within(f: Sequence, ps: Seq<ParticipantModel>, w: Sequence, b: Sequence)
    requires
        w.0 <= b.0,
    ensures
        (participants_floor(f, ps, w).0 <= b.0) == (f.0 <= b.0 && forall|m: int|
            0 <= m < ps.len() ==> history_within(#[trigger] ps[m].assignments, b)),
    decreases ps.len(),
{
    if ps.len() > 0 {
        let d = ps.drop_last();
        lemma_participants_floor_within(f, d, w, b);
        lemma_history_floor_within(participants_floor(f, d, w), ps.last().assignments, w, b);
        if forall|m: int| 0 <= m < ps.len() ==> history_within(#[trigger] ps[m].assignments, b) {
            assert forall|m: int| 0 <= m < d.len() implies history_within(#[trigger] d[m].assignments, b) by {
                assert(d[m] == ps[m]);
            }
            assert(history_within(ps[ps.len() - 1].assignments, b));
        }
        if f.0 <= b.0 && (forall|m: int| 0 <= m < d.len() ==> history_within(#[trigger] d[m].assignments, b))
            && history_within(ps.last().assignments, b) {
            assert forall|m: int| 0 <= m < ps.len() implies history_within(#[trigger] ps[m].assignments, b) by {
                if m < ps.len() - 1 {
                    assert(d[m] == ps[m]);
                }
            }
        }
    }
}

/// An episode's floor is at most `b` exactly when every sequence it
/// carries is.
pub proof fn lemma_episode_floor_within(e: EpisodeModel, b: Sequence)
    ensures
        (episode_floor(e).0 <= b.0) == within(e, b),
{
    lemma_participants_floor_from(e.watermark, e.participants, e.watermark);
    if e.watermark.0 <= b.0 {
        lemma_participants_floor_within(e.watermark, e.participants, e.watermark, b);
    }
}

/// Recording a completion at `at` keeps an episode within `at`.
proof fn lemma_completion_within(e: EpisodeModel, a: Seq<char>, at: Sequence)
    requires
        within(e, at),
        completion_ok(e, a, at),
    ensures
        within(completion_next(e, a, at), at),
{
    let k = position(e.participants, a);
    lemma_position(e.participants, a);
    if !history_replays(e.participants[k].assignments, at) {
        let e2 = completed(e, k, at);
        let h = e.participants[k].assignments;
        assert(history_pending(h));
        assert forall|m: int| 0 <= m < e2.participants.len() implies history_within(#[trigger] e2.participants[m].assignments, at) by {
            if m == k {
                let h2 = e2.participants[m].assignments;
                assert forall|j: int| 0 <= j < h2.len() implies record_within(#[trigger] h2[j], at) by {
                    assert(history_within(h, at));
                    if j < h.len() - 1 {
                        assert(h2[j] == h[j]);
                    } else {
                        assert(record_within(h[j], at));
                    }
                }
            } else {
                assert(e2.participants[m] == e.participants[m]);
            }
        }
    }
}

/// Recording an assignment at `at` keeps an episode within `at`.
proof fn lemma_assignment_within(e: EpisodeModel, raw: Seq<Seq<char>>, at: Sequence)
    requires
        within(e, at),
    ensures
        within(assignment_next(e, raw, at), at),
{
    let e2 = assignment_next(e, raw, at);
    assert forall|m: int| 0 <= m < e2.participants.len() implies history_within(#[trigger] e2.participants[m].assignments, at) by {
        let h = e.participants[m].assignments;
        let h2 = e2.participants[m].assignments;
        assert(history_within(h, at));
        assert forall|j: int| 0 <= j < h2.len() implies record_within(#[trigger] h2[j], at) by {
            if j < h.len() {
                assert(h2[j] == h[j]);
            }
        }
    }
}

/// Completing and handing over at `at` keeps the episode within `at` and
/// the receipts as they were.
proof fn lemma_hand_over_within(s: DriverModel, a: Seq<char>, at: Sequence, acts: Seq<crate::driver::state::ActionModel>)
    requires
        within(s.episode, at),
    ensures
        complete_and_hand_over(s, a, at, acts) matches FoldStep::Next(s2, _) ==> within(s2.episode, at)
            && s2.receipts == s.receipts,
{
    if completion_ok(s.episode, a, at) {
        lemma_completion_within(s.episode, a, at);
        lemma_assignment_within(completion_next(s.episode, a, at), seq![a], at);
    }
}

/// The effect of any accepted row at `at` keeps the episode within `at` and
/// the receipts as they were.
proof fn lemma_stage_within(cfg: FoldConfig, s: DriverModel, ev: CommittedModel, plan: Option<crate::routing::PlanModel>)
    requires
        within(s.episode, ev.sequence),
    ensures
        stage(cfg, s, ev, plan) matches FoldStep::Next(s2, _) ==> within(s2.episode, ev.sequence)
            && s2.receipts == s.receipts,
{
    let s1 = before_effect(s, ev);
    let a = ev.author_id;
    let at = ev.sequence;
    match ev.utterance {
        UtteranceModel::CompleteEpisode { .. } => {
            lemma_hand_over_within(s1, a, at, seq![]);
        },
        UtteranceModel::Broadcast { message } => {
            match plan {
                Some(p) => {
                    let rec = crate::routing::plan_model_ids(p);
                    let spent = match crate::driver::state::latest_at(s1.episode, a) {
                        Some(la) => crate::driver::step::charged(s1.ledger.spent, a, la),
                        None => s1.ledger.spent,
                    };
                    let pl = crate::driver::step::placed(
                        s1.episode,
                        s1.ledger.queues,
                        cfg.depth,
                        crate::ledger::HandoffModel { from: a, body: message, origin: at },
                        rec,
                    );
                    let s3 = placed_state(s1, a, at, rec, spent, pl);
                    lemma_assignment_within(s1.episode, pl.idle, at);
                    assert(within(s3.episode, at));
                    lemma_hand_over_within(s3, a, at, seq![crate::driver::state::ActionModel::RunAgents { agent_ids: rec, plan: p }]);
                },
                None => {},
            }
        },
        _ => {},
    }
}

/// What a driver state holds of its floor, revision and receipts: the
/// receipts are finitely many, one per revision, each filed under its own
/// sequence and at or below the floor, and the floor is the greatest
/// sequence the episode and receipts hold.
pub open spec fn floor_inv(s: DriverModel) -> bool {
    &&& s.receipts.dom().finite()
    &&& s.revision as int == s.receipts.dom().len()
    &&& forall|k: Sequence| #[trigger] s.receipts.dom().contains(k) ==> s.receipts[k].sequence == k && k.0
        <= s.freshness_floor.0
    &&& s.freshness_floor == derived_floor(s)
}

/// Filing a fresh row under its sequence, with an episode within it, keeps
/// the floor invariant.
proof fn lemma_finished_floor(s: DriverModel, s2: DriverModel, ev: CommittedModel)
    requires
        floor_inv(s),
        ev.sequence.0 > s.freshness_floor.0,
        !s.receipts.dom().contains(ev.sequence),
        s.revision < u64::MAX,
        within(s2.episode, ev.sequence),
        s2.receipts == s.receipts,
    ensures
        floor_inv(finished(s2, s, ev)),
{
    let at = ev.sequence;
    let s3 = finished(s2, s, ev);
    assert(s3.receipts.dom() =~= s.receipts.dom().insert(at));
    assert forall|k: Sequence| #[trigger] s3.receipts.dom().contains(k) implies s3.receipts[k].sequence == k
        && k.0 <= s3.freshness_floor.0 by {
        if k != at {
            assert(s.receipts.dom().contains(k));
        }
    }
    crate::driver::receipts::lemma_greatest_key_is(s3.receipts, at);
    lemma_episode_floor_within(s2.episode, at);
    assert(derived_floor(s3) == at);
}

/// Every fold keeps the floor, revision and receipts in step: an accepted
/// row is filed under its sequence, the revision counts it, and the floor
/// moves to it, the greatest sequence the state now holds.
pub proof fn lemma_fold_keeps_floor(
    cfg: FoldConfig,
    s: DriverModel,
    ev: CommittedModel,
    plan: Option<crate::routing::PlanModel>,
    t: Transition,
)
    requires
        floor_inv(s),
        committed_result(cfg, s, ev, plan, Ok(t)),
    ensures
        floor_inv(t.state@),
{
    if fresh_row(cfg.members, s, ev) {
        let at = ev.sequence;
        assert(episode_floor(s.episode).0 <= s.freshness_floor.0) by {
            match greatest_key(s.receipts) {
                Some(g) => {},
                None => {},
            }
        }
        lemma_episode_floor_within(s.episode, at);
        lemma_stage_within(cfg, s, ev, plan);
        match stage(cfg, s, ev, plan) {
            FoldStep::Next(s2, acts) => {
                lemma_finished_floor(s, s2, ev);
            },
            FoldStep::Refused => {},
        }
    }
}

/// A started state holds the floor invariant: no receipts, revision zero,
/// and the floor its episode implies.
pub proof fn lemma_start_keeps_floor(
    members: Seq<Seq<char>>,
    desk_id: Seq<char>,
    e: EpisodeModel,
    t: crate::driver::state::DriverState,
)
    requires
        crate::driver::setup::resume_result(
            members,
            desk_id,
            DriverModel {
                episode: e,
                receipts: Map::empty(),
                freshness_floor: episode_floor(e),
                pending_order: seq![],
                revision: 0,
                ledger: crate::ledger::Ledger::new_model(),
                seen: crate::ledger::Seen::new_model(),
            },
            Ok(t),
        ),
    ensures
        floor_inv(t@),
{
    assert(t@.receipts.dom() =~= Set::<Sequence>::empty());
    assert(greatest_key(t@.receipts) is None);
}

/// A state resume accepts holds the floor invariant.
pub proof fn lemma_resume_keeps_floor(
    members: Seq<Seq<char>>,
    desk_id: Seq<char>,
    s: DriverModel,
    t: crate::driver::state::DriverState,
)
    requires
        crate::driver::setup::resume_result(members, desk_id, s, Ok(t)),
    ensures
        floor_inv(t@),
{
    t.receipts.lemma_greatest_bounds();
    assert forall|k: Sequence| #[trigger] t@.receipts.dom().contains(k) implies t@.receipts[k].sequence == k
        && k.0 <= t@.freshness_floor.0 by {
        assert(!crate::driver::setup::receipt_refused(members, s.episode.watermark, s.receipts, k));
    }
}

/// The floor is at or above the episode's watermark.
pub proof fn lemma_floor_above_watermark(s: DriverModel)
    requires
        floor_inv(s),
    ensures
        s.episode.watermark.0 <= s.freshness_floor.0,
{
    lemma_participants_floor_from(s.episode.watermark, s.episode.participants, s.episode.watermark);
    match greatest_key(s.receipts) {
        Some(g) => {},
        None => {},
    }
}

} // verus!
