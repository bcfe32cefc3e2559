//! Folding one routed broadcast: charge it, check the plan, place it with its
//! recipients, and, once somebody has taken it, complete its author.
//!
//! A broadcast always resolves to an owner. Each routed recipient is either
//! assigned now or, because it still holds an open assignment, handed a
//! queued handoff it receives the moment it completes. A recipient whose
//! queue is full is skipped; if nobody could take the work, it stays with its
//! author, who keeps its assignment, is owed another turn, and nothing runs.
//! Nothing is dropped.

use vstd::prelude::*;

use crate::completion::apply_assignment;
use crate::driver::fold::hand_over;
use crate::driver::order::{broadcast_fallback, contains_id, extend_pending_order};
use crate::driver::receipts::CommittedUtterance;
use crate::driver::setup::CompletionDriver;
use crate::driver::state::{
    action_views, is_pending, latest_assignment, open_assignment, ActionModel, DriverModel,
    DriverState, HostAction,
};
use crate::driver::step::{
    broadcast_refusal, broadcast_stage, lemma_unqueued_keeps_queues, placed, placed_state, pushed_queues, untaken,
    FoldStep, Placement,
};
use crate::error::Error;
use crate::graph::{outside_pred, BoundAgent};
use crate::first::{lemma_first_index, lemma_first_index_unique};
use crate::ledger::{Handoff, HandoffModel, LedgerModel, SeenModel};
use crate::routing::{plan_ids, route_ids, RoutingPlan};
use crate::types::{id_views, Sequence};

verus! {

impl<'a, A: BoundAgent> CompletionDriver<'a, A> {
    /// Place a broadcast with its recipients: each idle one is assigned at
    /// the broadcast's row, each busy one with room is queued a handoff, and
    /// one with a full queue is skipped.
    fn place(
        &self,
        next: &mut DriverState,
        author: &str,
        at: Sequence,
        message: &str,
        recipients: &Vec<String>,
    ) -> (r: Result<bool, Error>)
        requires
            self.wf(),
            old(next).wf(),
        ensures
            final(next).wf(),
            ({
                let s = old(next)@;
                let rec = id_views(recipients@);
                let pl = placed(s.episode, s.ledger.queues, self.depth(), HandoffModel { from: author@, body: message@, origin: at }, rec);
                if pl.idle.len() > 0 && !crate::completion::assignment_ok(s.episode, pl.idle, at) {
                    r matches Err(Error::Completion(ce)) && crate::completion::assignment_result(s.episode, pl.idle, at, Err(ce))
                } else {
                    r matches Ok(taken) && taken == !crate::driver::step::untaken(pl) && final(next)@ == placed_state(s, author@, at, rec, s.ledger.spent, pl)
                }
            }),
    {
        let ghost s = next@;
        let ghost rec = id_views(recipients@);
        let ghost h = HandoffModel { from: author@, body: message@, origin: at };
        let depth = self.queue_depth();
        let mut idle: Vec<&str> = Vec::new();
        let mut queued: usize = 0;
        let mut refused: usize = 0;
        let mut i: usize = 0;
        assert(rec.subrange(0, 0) =~= Seq::<Seq<char>>::empty());
        assert(idle@.map_values(|x: &str| x@) =~= Seq::<Seq<char>>::empty());
        while i < recipients.len()
            invariant
                next.wf(),
                depth == self.depth(),
                h == (HandoffModel { from: author@, body: message@, origin: at }),
                i <= recipients@.len(),
                rec == id_views(recipients@),
                queued + refused + idle@.len() == i,
                placed(s.episode, s.ledger.queues, depth, h, rec.subrange(0, i as int)) == (Placement {
                    idle: idle@.map_values(|x: &str| x@),
                    queues: next@.ledger.queues,
                    queued: queued as nat,
                    refused: refused as nat,
                }),
                next@ == (DriverModel { ledger: LedgerModel { queues: next@.ledger.queues, ..s.ledger }, ..s }),
            decreases recipients@.len() - i,
        {
            assert(rec.subrange(0, i + 1).drop_last() =~= rec.subrange(0, i as int));
            let id = recipients[i].as_str();
            assert(rec.subrange(0, i + 1).last() == id@);
            let ghost p = placed(s.episode, s.ledger.queues, depth, h, rec.subrange(0, i as int));
            if !is_pending(&next.episode, id) {
                let ghost before = idle@.map_values(|x: &str| x@);
                idle.push(id);
                assert(idle@.map_values(|x: &str| x@) =~= before.push(id@));
            } else if next.ledger.queue_len(id) >= depth {
                refused = refused + 1;
            } else {
                let handoff = Handoff { from: String::from_str(author), body: String::from_str(message), origin: at };
                assert(handoff@ == h);
                next.ledger.push(id, handoff);
                queued = queued + 1;
                assert(next@.ledger.queues == pushed_queues(p.queues, id@, h));
            }
            i = i + 1;
        }
        assert(rec.subrange(0, i as int) =~= rec);
        let ghost pl = placed(s.episode, s.ledger.queues, depth, h, rec);
        if idle.len() > 0 {
            let assigned = apply_assignment(&next.episode, idle.as_slice(), at);
            match assigned {
                Ok(e) => {
                    next.episode = e;
                },
                Err(ce) => {
                    return Err(Error::Completion(ce));
                },
            }
        }
        extend_pending_order(&mut next.pending_order, recipients.as_slice());
        if idle.len() == 0 && queued == 0 && refused > 0 {
            next.seen.ran_for.remove(author);
        }
        proof {
            assert(next@ == placed_state(s, author@, at, rec, s.ledger.spent, pl));
        }
        Ok(idle.len() > 0 || queued > 0)
    }
}

} // verus!

verus! {

impl<'a, A: BoundAgent> CompletionDriver<'a, A> {
    /// The first of `ids` outside the hive, or their count.
    pub fn first_outside(&self, ids: &Vec<String>) -> (r: usize)
        requires
            self.wf(),
        ensures
            r as int == crate::first::first_index(outside_pred(self.members(), id_views(ids@)), ids@.len() as int),
            r <= ids@.len(),
    {
        let hive = self.hive();
        let ghost members = self.members();
        let ghost rec = id_views(ids@);
        let mut i: usize = 0;
        while i < ids.len()
            invariant
                self.wf(),
                *hive == self.hive_view(),
                members == self.members(),
                rec == id_views(ids@),
                i <= ids@.len(),
                forall|j: int| 0 <= j < i ==> !#[trigger] outside_pred(members, rec)(j),
            decreases ids@.len() - i,
        {
            assert(rec[i as int] == ids@[i as int]@);
            if hive.bound_agent(ids[i].as_str()).is_none() {
                proof {
                    assert(outside_pred(members, rec)(i as int));
                    lemma_first_index_unique(outside_pred(members, rec), rec.len() as int, i as int);
                }
                return i;
            }
            i = i + 1;
        }
        proof {
            lemma_first_index_unique(outside_pred(members, rec), rec.len() as int, rec.len() as int);
        }
        i
    }

    /// Fold a broadcast the router placed with `plan`. `state` is the state
    /// before the row; `next` holds what every row does first.
    pub fn fold_broadcast(
        &self,
        state: &DriverState,
        next: &mut DriverState,
        author: &str,
        at: Sequence,
        message: &str,
        plan: RoutingPlan,
    ) -> (r: Result<Vec<HostAction>, Error>)
        requires
            self.wf(),
            state.wf(),
            old(next).wf(),
        ensures
            final(next).wf(),
            match broadcast_stage(self.config(), state@, old(next)@, author@, at, message@, plan@) {
                FoldStep::Refused => r matches Err(e) && broadcast_refusal(
                    self.config(),
                    state@,
                    old(next)@,
                    author@,
                    at,
                    message@,
                    plan@,
                    e,
                ),
                FoldStep::Next(s2, acts) => r matches Ok(out) && final(next)@ == s2 && action_views(out@)
                    == acts,
            },
            ({
                let rec = crate::routing::plan_model_ids(plan@);
                let h = HandoffModel { from: author@, body: message@, origin: at };
                let pl = placed(old(next)@.episode, old(next)@.ledger.queues, self.depth(), h, rec);
                (r is Ok && rec.len() > 0 && untaken(pl)) ==> (r matches Ok(out) && out@.len() == 0
                    && final(next)@.episode == old(next)@.episode && final(next)@.ledger.queues
                    == old(next)@.ledger.queues && !final(next)@.seen.ran_for.dom().contains(author@))
            }),
    {
        let ghost s1 = next@;
        let charged_at = latest_assignment(&next.episode, author);
        match (self.broadcast_budget(), charged_at) {
            (Some(cap), Some(la)) => {
                if next.ledger.charged(author, la) >= cap {
                    return Err(Error::BudgetSpent { agent_id: String::from_str(author), assigned_at: la });
                }
            },
            _ => {},
        }
        if broadcast_fallback(&state.episode, &state.pending_order, author).is_none() {
            return Err(Error::NoBroadcastFallback { agent_id: String::from_str(author) });
        }
        match charged_at {
            Some(la) => {
                next.ledger.charge(author, la);
            },
            None => {},
        }
        let recipients = route_ids(&plan);
        let ghost rec = id_views(recipients@);
        assert(rec == crate::routing::plan_model_ids(plan@));
        if recipients.len() > self.round_width() {
            return Err(Error::BroadcastTooWide { recipient_count: recipients.len(), round_width: self.round_width() });
        }
        if contains_id(&recipients, author) {
            return Err(Error::BroadcastIncludesAuthor { agent_id: String::from_str(author) });
        }
        let f = self.first_outside(&recipients);
        if f < recipients.len() {
            let agent_id = recipients[f].clone();
            return Err(Error::UnknownBoundAgent { agent_id });
        }
        if recipients.len() == 0 {
            next.seen.ran_for.remove(author);
            return Ok(Vec::new());
        }
        let taken = match self.place(next, author, at, message, &recipients) {
            Err(e) => {
                return Err(e);
            },
            Ok(t) => t,
        };
        if !taken {
            proof {
                let h = HandoffModel { from: author@, body: message@, origin: at };
                lemma_unqueued_keeps_queues(s1.episode, s1.ledger.queues, self.depth(), h, rec);
            }
            return Ok(Vec::new());
        }
        let mut actions: Vec<HostAction> = Vec::new();
        actions.push(HostAction::RunAgents { agent_ids: recipients, plan });
        assert(action_views(actions@) =~= seq![ActionModel::RunAgents { agent_ids: rec, plan: plan@ }]);
        if let Some(oa) = open_assignment(&next.episode, author) {
            let shown = match next.seen.delivered_through.get(author) {
                Some(through) => through.0 >= oa.0,
                None => true,
            };
            if next.ledger.awaiting(author).is_none() && shown {
                return hand_over(next, author, at, actions);
            }
        }
        Ok(actions)
    }
}

} // verus!
