//! Every state the driver hands out resumes as itself: a started state, a
//! resumed one, and one any fold produced meet every check of resuming, and
//! resuming such a state gives it back unchanged.

use vstd::prelude::*;

use crate::completion::{assignment_next, assignment_ok, completion_next, completion_ok, EpisodeModel};
use crate::driver::floor::{floor_inv, lemma_floor_above_watermark, lemma_fold_keeps_floor, lemma_resume_keeps_floor};
use crate::driver::laws::{lemma_assignment_next, lemma_completion_next, lemma_prune_twice, same_ids};
use crate::driver::order::{any_id, fresh_ids, lemma_fresh_ids, pending_keep, pruned_order};
use crate::driver::receipts::CommittedModel;
use crate::driver::step::{
    answered_by, before_effect, charged, committed_result, complete_and_hand_over, finished, fresh_row, opened_ask,
    placed, placed_state, pop_queues, pushed_queues, stage, FoldConfig, FoldStep,
};
use crate::ledger::{answered_spec, AssignmentSpend, HandoffModel};
use crate::types::{Sequence, UtteranceModel};
use crate::driver::setup::{
    named_set, participant_refusal, participant_refused, receipt_refused, resume_result, some_outside,
    some_receipt_refused,
};
use crate::driver::state::{DriverModel, DriverState};
use crate::first::{lemma_first_index, lemma_first_index_unique};
use crate::graph::outside_pred;
use crate::ledger::LedgerModel;

verus! {

/// Every id the ledger names is a member: queue owners and the authors of
/// what they hold, budget holders, askers and the seats they await.
pub open spec fn ledger_in(members: Seq<Seq<char>>, l: LedgerModel) -> bool {
    &&& forall|k: Seq<char>| #[trigger] l.queues.dom().contains(k) ==> members.contains(k)
    &&& forall|k: Seq<char>, i: int|
        #[trigger] l.queues.dom().contains(k) && 0 <= i < l.queues[k].len() ==> members.contains(
            (#[trigger] l.queues[k][i]).from,
        )
    &&& forall|k: Seq<char>| #[trigger] l.spent.dom().contains(k) ==> members.contains(k)
    &&& forall|k: Seq<char>| #[trigger] l.asks.dom().contains(k) ==> members.contains(k)
    &&& forall|k: Seq<char>, x: Seq<char>|
        #[trigger] l.asks.dom().contains(k) && #[trigger] l.asks[k].dom().contains(x) ==> members.contains(x)
}

/// A ledger names only members exactly when none of the ids it names is
/// outside.
pub proof fn lemma_ledger_in(members: Seq<Seq<char>>, l: LedgerModel)
    ensures
        ledger_in(members, l) <==> !some_outside(members, named_set(l)),
{
    let n = named_set(l);
    if ledger_in(members, l) {
        assert forall|x: Seq<char>| #[trigger] n.contains(x) implies members.contains(x) by {
            if exists|k: Seq<char>| #[trigger] l.asks.dom().contains(k) && l.asks[k].dom().contains(x) {
                let k = choose|k: Seq<char>| #[trigger] l.asks.dom().contains(k) && l.asks[k].dom().contains(x);
                assert(l.asks[k].dom().contains(x));
            }
            if exists|k: Seq<char>, i: int|
                #[trigger] l.queues.dom().contains(k) && 0 <= i < l.queues[k].len() && (#[trigger] l.queues[k][i]).from
                    == x {
                let (k, i) = choose|k: Seq<char>, i: int|
                    #[trigger] l.queues.dom().contains(k) && 0 <= i < l.queues[k].len() && (#[trigger] l.queues[k][i]).from
                        == x;
                assert(members.contains(l.queues[k][i].from));
            }
        }
    }
    if !some_outside(members, n) {
        assert forall|k: Seq<char>| #[trigger] l.queues.dom().contains(k) implies members.contains(k) by {
            assert(n.contains(k));
        }
        assert forall|k: Seq<char>, i: int|
            #[trigger] l.queues.dom().contains(k) && 0 <= i < l.queues[k].len() implies members.contains(
                (#[trigger] l.queues[k][i]).from,
            ) by {
            assert(n.contains(l.queues[k][i].from));
        }
        assert forall|k: Seq<char>| #[trigger] l.spent.dom().contains(k) implies members.contains(k) by {
            assert(n.contains(k));
        }
        assert forall|k: Seq<char>| #[trigger] l.asks.dom().contains(k) implies members.contains(k) by {
            assert(n.contains(k));
        }
        assert forall|k: Seq<char>, x: Seq<char>|
            #[trigger] l.asks.dom().contains(k) && #[trigger] l.asks[k].dom().contains(x) implies members.contains(x) by {
            assert(n.contains(x));
        }
    }
}

/// Every check of resuming, met: the floor invariant; this desk; at least
/// one participant, each nonblank, once, and a member; every receipt after
/// the watermark and by a member; the accepted order, the ledger and the
/// delivery reports naming only members; and the accepted order already
/// without settled seats.
pub open spec fn resumable(members: Seq<Seq<char>>, desk_id: Seq<char>, s: DriverModel) -> bool {
    let ps = s.episode.participants;
    &&& floor_inv(s)
    &&& s.episode.conversation.desk_id == desk_id
    &&& ps.len() > 0
    &&& forall|i: int| 0 <= i < ps.len() ==> !#[trigger] participant_refused(members, ps, i)
    &&& forall|k: crate::types::Sequence| #[trigger] s.receipts.dom().contains(k) ==> k.0 > s.episode.watermark.0
        && members.contains(s.receipts[k].author_id)
    &&& forall|i: int| 0 <= i < s.pending_order.len() ==> members.contains(#[trigger] s.pending_order[i])
    &&& ledger_in(members, s.ledger)
    &&& forall|x: Seq<char>| #[trigger] s.seen.delivered_through.dom().contains(x) ==> members.contains(x)
    &&& pruned_order(s.pending_order, ps) == s.pending_order
}

/// Resuming a state that meets every check gives it back unchanged.
pub proof fn lemma_resumable_resumes(
    members: Seq<Seq<char>>,
    desk_id: Seq<char>,
    s: DriverModel,
    r: Result<DriverState, crate::error::Error>,
)
    requires
        resumable(members, desk_id, s),
        resume_result(members, desk_id, s, r),
    ensures
        r matches Ok(t) && t@ == s,
{
    let ps = s.episode.participants;
    assert forall|j: int| 0 <= j < ps.len() implies !#[trigger] participant_refusal(members, ps)(j) by {
        assert(!participant_refused(members, ps, j));
    }
    lemma_first_index_unique(participant_refusal(members, ps), ps.len() as int, ps.len() as int);
    assert(!some_receipt_refused(members, s.episode.watermark, s.receipts)) by {
        assert forall|k: crate::types::Sequence| #[trigger] s.receipts.dom().contains(k) implies !receipt_refused(
            members,
            s.episode.watermark,
            s.receipts,
            k,
        ) by {}
    }
    let o = s.pending_order;
    assert forall|j: int| 0 <= j < o.len() implies !#[trigger] outside_pred(members, o)(j) by {
        assert(members.contains(o[j]));
    }
    lemma_first_index_unique(outside_pred(members, o), o.len() as int, o.len() as int);
    lemma_ledger_in(members, s.ledger);
    assert(!some_outside(members, s.seen.delivered_through.dom()));
}

/// A state resume accepts meets every check of resuming.
pub proof fn lemma_resumed_resumable(
    members: Seq<Seq<char>>,
    desk_id: Seq<char>,
    s: DriverModel,
    t: DriverState,
)
    requires
        resume_result(members, desk_id, s, Ok(t)),
    ensures
        resumable(members, desk_id, t@),
{
    let ps = s.episode.participants;
    let o = s.pending_order;
    lemma_resume_keeps_floor(members, desk_id, s, t);
    lemma_first_index(participant_refusal(members, ps), ps.len() as int);
    assert forall|i: int| 0 <= i < ps.len() implies !#[trigger] participant_refused(members, ps, i) by {
        assert(!participant_refusal(members, ps)(i));
    }
    assert forall|k: crate::types::Sequence| #[trigger] t@.receipts.dom().contains(k) implies k.0
        > t@.episode.watermark.0 && members.contains(t@.receipts[k].author_id) by {
        assert(!receipt_refused(members, s.episode.watermark, s.receipts, k));
    }
    lemma_first_index(outside_pred(members, o), o.len() as int);
    lemma_fresh_ids(seq![], o, pending_keep(ps));
    let p = pruned_order(o, ps);
    assert forall|i: int| 0 <= i < p.len() implies members.contains(#[trigger] p[i]) by {
        assert(p.contains(p[i]));
        let j = choose|j: int| 0 <= j < o.len() && o[j] == p[i];
        assert(!outside_pred(members, o)(j));
    }
    lemma_ledger_in(members, s.ledger);
    lemma_prune_twice(o, ps);
}

/// Every asker and every seat awaited is a member.
pub open spec fn asks_in(members: Seq<Seq<char>>, asks: Map<Seq<char>, Map<Seq<char>, Sequence>>) -> bool {
    &&& forall|k: Seq<char>| #[trigger] asks.dom().contains(k) ==> members.contains(k)
    &&& forall|k: Seq<char>, x: Seq<char>|
        #[trigger] asks.dom().contains(k) && #[trigger] asks[k].dom().contains(x) ==> members.contains(x)
}

/// Every queue owner and every author of what it holds is a member.
pub open spec fn queues_in(members: Seq<Seq<char>>, q: Map<Seq<char>, Seq<HandoffModel>>) -> bool {
    &&& forall|k: Seq<char>| #[trigger] q.dom().contains(k) ==> members.contains(k)
    &&& forall|k: Seq<char>, i: int|
        #[trigger] q.dom().contains(k) && 0 <= i < q[k].len() ==> members.contains((#[trigger] q[k][i]).from)
}

/// An answer only removes from the asks.
proof fn lemma_answered_in(
    members: Seq<Seq<char>>,
    asks: Map<Seq<char>, Map<Seq<char>, Sequence>>,
    by: Seq<char>,
    to: Seq<Seq<char>>,
)
    requires
        asks_in(members, asks),
    ensures
        asks_in(members, answered_by(asks, by, to)),
    decreases to.len(),
{
    if to.len() > 0 {
        lemma_answered_in(members, asks, by, to.drop_last());
        let a = answered_by(asks, by, to.drop_last());
        let n = answered_spec(a, by, to.last());
        assert forall|k: Seq<char>, x: Seq<char>|
            #[trigger] n.dom().contains(k) && #[trigger] n[k].dom().contains(x) implies members.contains(x) by {
            assert(a.dom().contains(k));
            if k == to.last() {
                assert(a[k].dom().contains(x));
            }
        }
    }
}

/// Handing one handoff over only removes from the queues.
proof fn lemma_pop_in(members: Seq<Seq<char>>, q: Map<Seq<char>, Seq<HandoffModel>>, id: Seq<char>)
    requires
        queues_in(members, q),
    ensures
        queues_in(members, pop_queues(q, id)),
{
    let n = pop_queues(q, id);
    assert forall|k: Seq<char>, i: int| #[trigger] n.dom().contains(k) && 0 <= i < n[k].len() implies members.contains(
        (#[trigger] n[k][i]).from,
    ) by {
        if k == id && q.dom().contains(id) && q[id].len() > 1 {
            assert(n[k][i] == q[k][i + 1]);
        }
    }
}

/// Placing a broadcast by a member with members keeps the queues to members.
proof fn lemma_placed_in(
    members: Seq<Seq<char>>,
    e: EpisodeModel,
    q: Map<Seq<char>, Seq<HandoffModel>>,
    depth: usize,
    h: HandoffModel,
    rec: Seq<Seq<char>>,
)
    requires
        queues_in(members, q),
        members.contains(h.from),
        forall|i: int| 0 <= i < rec.len() ==> members.contains(#[trigger] rec[i]),
    ensures
        queues_in(members, placed(e, q, depth, h, rec).queues),
    decreases rec.len(),
{
    if rec.len() > 0 {
        let d = rec.drop_last();
        assert forall|i: int| 0 <= i < d.len() implies members.contains(#[trigger] d[i]) by {
            assert(d[i] == rec[i]);
        }
        lemma_placed_in(members, e, q, depth, h, d);
        let p = placed(e, q, depth, h, d);
        let id = rec.last();
        assert(members.contains(rec[rec.len() - 1]));
        let n = pushed_queues(p.queues, id, h);
        assert forall|k: Seq<char>, i: int| #[trigger] n.dom().contains(k) && 0 <= i < n[k].len() implies members.contains(
            (#[trigger] n[k][i]).from,
        ) by {
            if k == id && p.queues.dom().contains(id) && i < p.queues[id].len() {
                assert(n[k][i] == p.queues[k][i]);
            }
        }
    }
}

/// What an effect keeps: the episode's frame and ids, the receipts and the
/// delivery reports as they were, and the accepted order and the ledger
/// naming only members.
pub open spec fn effect_kept(members: Seq<Seq<char>>, s: DriverModel, s2: DriverModel) -> bool {
    &&& s2.episode.conversation == s.episode.conversation
    &&& s2.episode.watermark == s.episode.watermark
    &&& same_ids(s.episode, s2.episode)
    &&& s2.receipts == s.receipts
    &&& s2.seen.delivered_through == s.seen.delivered_through
    &&& forall|i: int| 0 <= i < s2.pending_order.len() ==> members.contains(#[trigger] s2.pending_order[i])
    &&& ledger_in(members, s2.ledger)
}

/// Completing and handing over keeps what an effect keeps.
proof fn lemma_hand_over_kept(
    members: Seq<Seq<char>>,
    s: DriverModel,
    a: Seq<char>,
    at: Sequence,
    acts: Seq<crate::driver::state::ActionModel>,
)
    requires
        ledger_in(members, s.ledger),
        forall|i: int| 0 <= i < s.pending_order.len() ==> members.contains(#[trigger] s.pending_order[i]),
    ensures
        complete_and_hand_over(s, a, at, acts) matches FoldStep::Next(s2, _) ==> effect_kept(members, s, s2),
{
    if completion_ok(s.episode, a, at) {
        lemma_completion_next(s.episode, a, at);
        let e2 = completion_next(s.episode, a, at);
        if assignment_ok(e2, seq![a], at) {
            lemma_assignment_next(e2, seq![a], at);
        }
        assert(queues_in(members, s.ledger.queues));
        lemma_pop_in(members, s.ledger.queues, a);
    }
}

/// The effect of an accepted fresh row keeps what an effect keeps.
proof fn lemma_stage_kept(cfg: FoldConfig, s: DriverModel, ev: CommittedModel, plan: Option<crate::routing::PlanModel>)
    requires
        ledger_in(cfg.members, s.ledger),
        forall|i: int| 0 <= i < s.pending_order.len() ==> cfg.members.contains(#[trigger] s.pending_order[i]),
        fresh_row(cfg.members, s, ev),
    ensures
        stage(cfg, s, ev, plan) matches FoldStep::Next(s2, _) ==> effect_kept(cfg.members, s, s2),
{
    let members = cfg.members;
    let s1 = before_effect(s, ev);
    let a = ev.author_id;
    let at = ev.sequence;
    assert(asks_in(members, s.ledger.asks));
    match ev.utterance {
        UtteranceModel::Dm { to, .. } => {
            lemma_answered_in(members, s.ledger.asks, a, to);
        },
        _ => {},
    }
    assert(effect_kept(members, s, s1));
    match ev.utterance {
        UtteranceModel::CompleteEpisode { .. } => {
            lemma_hand_over_kept(members, s1, a, at, seq![]);
        },
        UtteranceModel::Ask { to, .. } => {
            if crate::driver::step::dm_ok(members, a, seq![to], cfg.width) {
                lemma_first_index(crate::graph::dm_bad_pred(members, seq![to]), 1);
                assert(!crate::graph::dm_bad_pred(members, seq![to])(0));
                assert(members.contains(to));
                let n = opened_ask(s1.ledger.asks, a, to, at);
                assert forall|k: Seq<char>, x: Seq<char>|
                    #[trigger] n.dom().contains(k) && #[trigger] n[k].dom().contains(x) implies members.contains(x) by {
                    if k == a && s1.ledger.asks.dom().contains(a) && x != to {
                        assert(s1.ledger.asks[a].dom().contains(x));
                    }
                }
            }
        },
        UtteranceModel::Broadcast { message } => {
            match plan {
                Some(p) => {
                    let rec = crate::routing::plan_model_ids(p);
                    let spent = match crate::driver::state::latest_at(s1.episode, a) {
                        Some(la) => charged(s1.ledger.spent, a, la),
                        None => s1.ledger.spent,
                    };
                    let h = HandoffModel { from: a, body: message, origin: at };
                    lemma_first_index(outside_pred(members, rec), rec.len() as int);
                    if crate::first::first_index(outside_pred(members, rec), rec.len() as int) == rec.len() {
                        assert forall|i: int| 0 <= i < rec.len() implies members.contains(#[trigger] rec[i]) by {
                            assert(!outside_pred(members, rec)(i));
                        }
                        let pl = placed(s1.episode, s1.ledger.queues, cfg.depth, h, rec);
                        lemma_placed_in(members, s1.episode, s1.ledger.queues, cfg.depth, h, rec);
                        if pl.idle.len() > 0 && assignment_ok(s1.episode, pl.idle, at) {
                            lemma_assignment_next(s1.episode, pl.idle, at);
                        }
                        lemma_fresh_ids(s1.pending_order, rec, any_id());
                        let s3 = placed_state(s1, a, at, rec, spent, pl);
                        let o3 = s3.pending_order;
                        assert forall|i: int| 0 <= i < o3.len() implies members.contains(#[trigger] o3[i]) by {
                            if i >= s1.pending_order.len() {
                                let f = fresh_ids(s1.pending_order, rec, any_id());
                                assert(o3[i] == f[i - s1.pending_order.len()]);
                                assert(f.contains(o3[i]));
                                let j = choose|j: int| 0 <= j < rec.len() && rec[j] == o3[i];
                            } else {
                                assert(o3[i] == s1.pending_order[i]);
                            }
                        }
                        if !(pl.idle.len() > 0 && !assignment_ok(s1.episode, pl.idle, at)) {
                            assert(effect_kept(members, s1, s3));
                            lemma_hand_over_kept(
                                members,
                                s3,
                                a,
                                at,
                                seq![crate::driver::state::ActionModel::RunAgents { agent_ids: rec, plan: p }],
                            );
                        }
                    }
                },
                None => {},
            }
        },
        _ => {},
    }
}

/// Every fold keeps a state resumable: what it touches stays within the
/// hive, and the row it files is after the watermark and by a member.
pub proof fn lemma_fold_resumable(
    cfg: FoldConfig,
    desk_id: Seq<char>,
    s: DriverModel,
    ev: CommittedModel,
    plan: Option<crate::routing::PlanModel>,
    t: crate::driver::state::Transition,
)
    requires
        resumable(cfg.members, desk_id, s),
        committed_result(cfg, s, ev, plan, Ok(t)),
    ensures
        resumable(cfg.members, desk_id, t.state@),
{
    let members = cfg.members;
    lemma_fold_keeps_floor(cfg, s, ev, plan, t);
    if fresh_row(members, s, ev) {
        lemma_stage_kept(cfg, s, ev, plan);
        lemma_floor_above_watermark(s);
        match stage(cfg, s, ev, plan) {
            FoldStep::Next(s2, acts) => {
                let s3 = finished(s2, s, ev);
                let ps = s.episode.participants;
                let ps2 = s2.episode.participants;
                assert forall|i: int| 0 <= i < ps2.len() implies !#[trigger] participant_refused(members, ps2, i) by {
                    assert(!participant_refused(members, ps, i));
                    assert(ps2[i].agent_id == ps[i].agent_id);
                    if exists|j: int| 0 <= j < i && (#[trigger] ps2[j]).agent_id == ps2[i].agent_id {
                        let j = choose|j: int| 0 <= j < i && (#[trigger] ps2[j]).agent_id == ps2[i].agent_id;
                        assert(ps[j].agent_id == ps2[j].agent_id);
                    }
                }
                lemma_fresh_ids(seq![], s2.pending_order, pending_keep(ps2));
                let o3 = s3.pending_order;
                assert forall|i: int| 0 <= i < o3.len() implies members.contains(#[trigger] o3[i]) by {
                    assert(o3.contains(o3[i]));
                    let j = choose|j: int| 0 <= j < s2.pending_order.len() && s2.pending_order[j] == o3[i];
                }
                lemma_prune_twice(s2.pending_order, ps2);
            },
            FoldStep::Refused => {},
        }
    }
}

} // verus!
