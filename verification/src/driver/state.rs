//! The caller-owned resumable state, the actions proposed to the host, and
//! what a state says about each seat.

use vstd::prelude::*;

use crate::completion::{
    all_ids, any_pending, find_participant, history_open, history_pending, participant_views,
    position, status, AssignmentRecord, CompletionEpisodeState, CompletionStep, EpisodeModel,
    ParticipantModel,
};
use crate::driver::receipts::{CommittedModel, Receipts};
use crate::ledger::{drained_spec, delivered_spec, HandoffModel, Handoff, Ledger, LedgerModel, Seen, SeenModel};
use crate::routing::{MessageRoute, PlanModel, RoutingPlan};
use crate::text::str_eq;
use crate::types::{copy_ids, id_views, same_ids, Sequence};

verus! {

/// Caller-owned resumable completion state.
///
/// The receipts hold only committed event identity. They recognise exact
/// replay without re-emitting actions and detect a different event reusing
/// the same host sequence. The freshness floor is the greatest episode
/// watermark, assignment or completion sequence, or receipt sequence.
///
/// The [`Ledger`] moves only with committed events and is part of what a
/// pending round binds to. [`Seen`] is what the host has reported about
/// delivery and turns; it moves the wake predicate and nothing else.
#[derive(Debug, PartialEq, Eq)]
pub struct DriverState {
    pub episode: CompletionEpisodeState,
    pub receipts: Receipts,
    pub freshness_floor: Sequence,
    pub pending_order: Vec<String>,
    pub revision: u64,
    pub ledger: Ledger,
    pub seen: Seen,
}

/// A driver state as values.
pub struct DriverModel {
    pub episode: EpisodeModel,
    pub receipts: Map<Sequence, CommittedModel>,
    pub freshness_floor: Sequence,
    pub pending_order: Seq<Seq<char>>,
    pub revision: u64,
    pub ledger: LedgerModel,
    pub seen: SeenModel,
}

impl View for DriverState {
    type V = DriverModel;

    open spec fn view(&self) -> DriverModel {
        DriverModel {
            episode: self.episode@,
            receipts: self.receipts.map(),
            freshness_floor: self.freshness_floor,
            pending_order: id_views(self.pending_order@),
            revision: self.revision,
            ledger: self.ledger@,
            seen: self.seen@,
        }
    }
}

/// An action proposed to the host after a committed event. These are
/// descriptions only: nothing here runs a turn or appends a row.
#[derive(Debug, PartialEq, Eq)]
pub enum HostAction {
    /// Schedule the named canonical agents to run, in accepted order, with
    /// the exact plan that chose them.
    RunAgents { agent_ids: Vec<String>, plan: RoutingPlan },
    /// Deliver an already-committed desk-private message. For an ask this is
    /// the signal to open a child conversation between the asker and the
    /// seat asked.
    DeliverDm { route: MessageRoute, message: String },
    /// Hand a queued broadcast to the seat that just came free, and run it.
    DeliverHandoff { agent_id: String, handoff: Handoff },
}

/// An action as values.
pub enum ActionModel {
    RunAgents { agent_ids: Seq<Seq<char>>, plan: PlanModel },
    DeliverDm { recipients: Seq<Seq<char>>, message: Seq<char> },
    DeliverHandoff { agent_id: Seq<char>, handoff: HandoffModel },
}

impl View for HostAction {
    type V = ActionModel;

    open spec fn view(&self) -> ActionModel {
        match self {
            HostAction::RunAgents { agent_ids, plan } => ActionModel::RunAgents {
                agent_ids: id_views(agent_ids@),
                plan: plan@,
            },
            HostAction::DeliverDm { route, message } => ActionModel::DeliverDm {
                recipients: id_views(route.recipient_ids@),
                message: message@,
            },
            HostAction::DeliverHandoff { agent_id, handoff } => ActionModel::DeliverHandoff {
                agent_id: agent_id@,
                handoff: handoff@,
            },
        }
    }
}

/// The values of a list of actions.
pub open spec fn action_views(a: Seq<HostAction>) -> Seq<ActionModel> {
    a.map_values(|x: HostAction| x@)
}

/// Result of folding committed host events.
#[derive(Debug, PartialEq, Eq)]
pub struct Transition {
    /// Next caller-owned resumable state.
    pub state: DriverState,
    /// Host actions proposed by the committed events.
    pub actions: Vec<HostAction>,
}

/// The greater of two sequences.
pub open spec fn seq_max(a: Sequence, b: Sequence) -> Sequence {
    if a.0 >= b.0 {
        a
    } else {
        b
    }
}

/// The greatest of `f` and every sequence a history touched, an unfinished
/// record counting as the watermark `w`.
pub open spec fn history_floor(f: Sequence, h: Seq<AssignmentRecord>, w: Sequence) -> Sequence
    decreases h.len(),
{
    if h.len() == 0 {
        f
    } else {
        let g = seq_max(history_floor(f, h.drop_last(), w), h.last().assigned_at);
        seq_max(
            g,
            match h.last().completed_at {
                Some(c) => c,
                None => w,
            },
        )
    }
}

/// The greatest of `f` and every sequence the participants' histories touched.
pub open spec fn participants_floor(f: Sequence, ps: Seq<ParticipantModel>, w: Sequence) -> Sequence
    decreases ps.len(),
{
    if ps.len() == 0 {
        f
    } else {
        history_floor(participants_floor(f, ps.drop_last(), w), ps.last().assignments, w)
    }
}

/// The freshness floor an episode alone implies: its watermark, or the
/// greatest sequence any assignment or completion in it carries.
pub open spec fn episode_floor(e: EpisodeModel) -> Sequence {
    participants_floor(e.watermark, e.participants, e.watermark)
}

/// The sequence at which `id` was given the assignment it holds open.
pub open spec fn open_at(e: EpisodeModel, id: Seq<char>) -> Option<Sequence> {
    let k = position(e.participants, id);
    if k >= 0 && history_open(e.participants[k].assignments) is Some {
        Some(history_open(e.participants[k].assignments)->Some_0.assigned_at)
    } else {
        None
    }
}

/// The sequence of `id`'s most recent assignment, open or closed.
pub open spec fn latest_at(e: EpisodeModel, id: Seq<char>) -> Option<Sequence> {
    let k = position(e.participants, id);
    if k >= 0 && e.participants[k].assignments.len() > 0 {
        Some(e.participants[k].assignments.last().assigned_at)
    } else {
        None
    }
}

/// Whether the participant found under `id` still owes work.
pub open spec fn pending_at(e: EpisodeModel, id: Seq<char>) -> bool {
    let k = position(e.participants, id);
    k >= 0 && history_pending(e.participants[k].assignments)
}

/// Whether some participant named `id` still owes work.
pub open spec fn pending_has(ps: Seq<ParticipantModel>, id: Seq<char>) -> bool {
    exists|i: int| 0 <= i < ps.len() && (#[trigger] ps[i]).agent_id == id && history_pending(ps[i].assignments)
}

/// Whether the host reports `id` has been shown the row at `at`: it has
/// reported nothing for the seat, or reported at least that far.
pub open spec fn shown(dt: Map<Seq<char>, Sequence>, id: Seq<char>, at: Sequence) -> bool {
    !dt.dom().contains(id) || dt[id].0 >= at.0
}

/// Owed a turn on the assignment it holds: it has not run for that
/// assignment, or rows were committed it has not been shown.
pub open spec fn owed_turn(s: DriverModel, id: Seq<char>) -> bool {
    match open_at(s.episode, id) {
        None => false,
        Some(at) => !(s.seen.ran_for.dom().contains(id) && s.seen.ran_for[id] == at)
            || !s.seen.delivered_through.dom().contains(id) || s.seen.delivered_through[id].0
            < s.freshness_floor.0,
    }
}

/// The assignment `id` holds open, if it holds one.
pub fn open_assignment(episode: &CompletionEpisodeState, agent_id: &str) -> (r: Option<Sequence>)
    ensures
        r == open_at(episode@, agent_id@),
{
    match find_participant(&episode.participants, agent_id) {
        Some(k) => {
            let p = &episode.participants[k];
            assert(episode@.participants[k as int] == p@);
            match p.open() {
                Some(record) => Some(record.assigned_at),
                None => None,
            }
        },
        None => None,
    }
}

/// The sequence of `id`'s most recent assignment, open or closed.
pub fn latest_assignment(episode: &CompletionEpisodeState, agent_id: &str) -> (r: Option<Sequence>)
    ensures
        r == latest_at(episode@, agent_id@),
{
    match find_participant(&episode.participants, agent_id) {
        Some(k) => {
            let p = &episode.participants[k];
            assert(episode@.participants[k as int] == p@);
            let n = p.assignments.len();
            if n == 0 {
                None
            } else {
                Some(p.assignments[n - 1].assigned_at)
            }
        },
        None => None,
    }
}

/// Whether this participant still owes work on the assignment it holds.
pub fn is_pending(episode: &CompletionEpisodeState, agent_id: &str) -> (r: bool)
    ensures
        r == pending_at(episode@, agent_id@),
{
    match find_participant(&episode.participants, agent_id) {
        Some(k) => {
            assert(episode@.participants[k as int] == episode.participants@[k as int]@);
            episode.participants[k].is_pending()
        },
        None => false,
    }
}

/// The freshness floor an episode alone implies.
pub fn episode_freshness_floor(episode: &CompletionEpisodeState) -> (r: Sequence)
    ensures
        r == episode_floor(episode@),
{
    let w = episode.watermark;
    let ghost ps = episode@.participants;
    let mut floor = w;
    let mut i: usize = 0;
    while i < episode.participants.len()
        invariant
            i <= episode.participants@.len(),
            ps == episode@.participants,
            w == episode.watermark,
            floor == participants_floor(w, ps.subrange(0, i as int), w),
        decreases episode.participants@.len() - i,
    {
        assert(ps.subrange(0, i + 1).drop_last() =~= ps.subrange(0, i as int));
        let h = &episode.participants[i].assignments;
        assert(ps[i as int].assignments == h@);
        let ghost f0 = floor;
        let mut j: usize = 0;
        while j < h.len()
            invariant
                j <= h@.len(),
                floor == history_floor(f0, h@.subrange(0, j as int), w),
            decreases h@.len() - j,
        {
            assert(h@.subrange(0, j + 1).drop_last() =~= h@.subrange(0, j as int));
            let record = h[j];
            if record.assigned_at.0 > floor.0 {
                floor = record.assigned_at;
            }
            let done = match record.completed_at {
                Some(c) => c,
                None => w,
            };
            if done.0 > floor.0 {
                floor = done;
            }
            j = j + 1;
        }
        assert(h@.subrange(0, j as int) =~= h@);
        i = i + 1;
    }
    assert(ps.subrange(0, i as int) =~= ps);
    floor
}

impl DriverState {
    /// Every map inside is well formed.
    pub open spec fn wf(&self) -> bool {
        &&& self.receipts.wf()
        &&& self.ledger.wf()
        &&& self.seen.wf()
    }

    /// Borrow the underlying completion episode state.
    pub fn episode(&self) -> (r: &CompletionEpisodeState)
        ensures
            r@ == self@.episode,
    {
        &self.episode
    }

    /// Consume the driver wrapper and recover the completion state.
    pub fn into_episode(self) -> (r: CompletionEpisodeState)
        ensures
            r@ == self@.episode,
    {
        self.episode
    }

    /// The monotonic revision used to bind pending rounds.
    pub fn revision(&self) -> (r: u64)
        ensures
            r == self@.revision,
    {
        self.revision
    }

    /// Queued handoffs, budgets, and open questions.
    pub fn ledger(&self) -> (r: &Ledger)
        ensures
            r@ == self@.ledger,
    {
        &self.ledger
    }

    /// What the host has reported about each seat.
    pub fn seen(&self) -> (r: &Seen)
        ensures
            r@ == self@.seen,
    {
        &self.seen
    }

    /// Record that a seat has been shown every row through `through`.
    ///
    /// A host that never reports delivery keeps every pending seat owed a
    /// turn.
    pub fn delivered(&mut self, agent_id: &str, through: Sequence)
        requires
            old(self).wf(),
        ensures
            final(self).wf(),
            final(self)@ == (DriverModel {
                seen: SeenModel {
                    delivered_through: delivered_spec(
                        old(self)@.seen.delivered_through,
                        agent_id@,
                        through,
                    ),
                    ..old(self)@.seen
                },
                ..old(self)@
            }),
    {
        self.seen.delivered(agent_id, through);
    }

    /// Record that a seat's turn was started for the assignment it holds;
    /// a seat holding none is left as it was.
    pub fn turn_started(&mut self, agent_id: &str)
        requires
            old(self).wf(),
        ensures
            final(self).wf(),
            final(self)@ == (DriverModel {
                seen: SeenModel {
                    ran_for: match open_at(old(self)@.episode, agent_id@) {
                        Some(at) => old(self)@.seen.ran_for.insert(agent_id@, at),
                        None => old(self)@.seen.ran_for,
                    },
                    ..old(self)@.seen
                },
                ..old(self)@
            }),
    {
        if let Some(assigned_at) = open_assignment(&self.episode, agent_id) {
            self.seen.ran(agent_id, assigned_at);
        }
    }

    /// Record that a seat's last turn did not count: it is owed another for
    /// the assignment it holds.
    pub fn owe_turn(&mut self, agent_id: &str)
        requires
            old(self).wf(),
        ensures
            final(self).wf(),
            final(self)@ == (DriverModel {
                seen: SeenModel { ran_for: old(self)@.seen.ran_for.remove(agent_id@), ..old(self)@.seen },
                ..old(self)@
            }),
    {
        self.seen.ran_for.remove(agent_id);
    }

    /// Whether the episode is actually over: every participant has completed
    /// what it holds, nothing is queued and no answer is owed.
    pub fn quiescent(&self) -> (r: bool)
        requires
            self.wf(),
        ensures
            r == (!any_pending(self@.episode.participants) && drained_spec(self@.ledger)),
    {
        let complete = match status(&self.episode) {
            CompletionStep::Complete { .. } => true,
            CompletionStep::Active { .. } => false,
        };
        complete && self.ledger.is_drained()
    }

    /// Everything except what the host reported about delivery and turns.
    pub fn same_commitments(&self, other: &Self) -> (r: bool)
        requires
            self.wf(),
            other.wf(),
        ensures
            r == (self@.episode == other@.episode && self@.receipts == other@.receipts
                && self@.freshness_floor == other@.freshness_floor && self@.pending_order
                == other@.pending_order && self@.revision == other@.revision && self@.ledger
                == other@.ledger),
    {
        same_episode(&self.episode, &other.episode) && self.receipts.same(&other.receipts)
            && self.freshness_floor.0 == other.freshness_floor.0 && same_ids(
            &self.pending_order,
            &other.pending_order,
        ) && self.revision == other.revision && self.ledger.same(&other.ledger)
    }

    /// A copy.
    pub fn copied(&self) -> (r: Self)
        requires
            self.wf(),
        ensures
            r.wf(),
            r@ == self@,
    {
        DriverState {
            episode: self.episode.clone(),
            receipts: self.receipts.copied(),
            freshness_floor: self.freshness_floor,
            pending_order: copy_ids(&self.pending_order),
            revision: self.revision,
            ledger: self.ledger.copied(),
            seen: self.seen.copied(),
        }
    }
}

/// Whether two histories hold the same records.
fn same_history(a: &Vec<AssignmentRecord>, b: &Vec<AssignmentRecord>) -> (r: bool)
    ensures
        r == (a@ == b@),
{
    if a.len() != b.len() {
        return false;
    }
    let mut i: usize = 0;
    while i < a.len()
        invariant
            i <= a@.len(),
            a@.len() == b@.len(),
            forall|k: int| 0 <= k < i ==> a@[k] == b@[k],
        decreases a@.len() - i,
    {
        let x = a[i];
        let y = b[i];
        let same_done = match (x.completed_at, y.completed_at) {
            (Some(c), Some(d)) => c.0 == d.0,
            (None, None) => true,
            _ => false,
        };
        if !(x.assigned_at.0 == y.assigned_at.0 && same_done) {
            return false;
        }
        i = i + 1;
    }
    assert(a@ =~= b@);
    true
}

/// Whether two episodes are the same in every field.
pub fn same_episode(a: &CompletionEpisodeState, b: &CompletionEpisodeState) -> (r: bool)
    ensures
        r == (a@ == b@),
{
    let same_root = match (a.conversation.thread_root, b.conversation.thread_root) {
        (Some(x), Some(y)) => x.0 == y.0,
        (None, None) => true,
        _ => false,
    };
    if !(str_eq(a.conversation.desk_id.as_str(), b.conversation.desk_id.as_str()) && str_eq(
        a.conversation.desk_name.as_str(),
        b.conversation.desk_name.as_str(),
    ) && same_root && a.watermark.0 == b.watermark.0) {
        return false;
    }
    if a.participants.len() != b.participants.len() {
        assert(a@.participants.len() != b@.participants.len());
        return false;
    }
    let mut i: usize = 0;
    while i < a.participants.len()
        invariant
            i <= a.participants@.len(),
            a.participants@.len() == b.participants@.len(),
            forall|k: int| 0 <= k < i ==> (#[trigger] a.participants@[k])@ == b.participants@[k]@,
        decreases a.participants@.len() - i,
    {
        let p = &a.participants[i];
        let q = &b.participants[i];
        if !(str_eq(p.agent_id.as_str(), q.agent_id.as_str()) && same_history(&p.assignments, &q.assignments)) {
            assert(participant_views(a.participants@)[i as int] != participant_views(b.participants@)[i as int]);
            return false;
        }
        i = i + 1;
    }
    assert(participant_views(a.participants@) =~= participant_views(b.participants@));
    true
}

} // verus!
