//! Completion-driven episodes over explicit agent tool events.
//!
//! The host opens a state with the agents it assigned, records an agent's
//! `complete_episode` call with [`apply_completion`], and records the accepted
//! recipients of a routed broadcast with [`apply_assignment`].
//!
//! A participant holds an append-only history of assignments and at most one
//! of them, the last, is open. Appending rather than overwriting keeps the
//! evidence that an earlier assignment completed, which is what makes
//! [`CompletionEpisodeState::settled`] a quantity that only rises.

use vstd::prelude::*;

use crate::first::{first_index, lemma_first_index, lemma_first_index_unique};
use crate::text::{str_eq, trim, trimmed};
use crate::types::{id_views, Conversation, ConversationModel, Sequence};

verus! {

/// The refusals of the completion fold.
#[derive(Debug, PartialEq, Eq)]
pub enum Error {
    /// No agent was assigned.
    NoCompletionParticipants,
    /// An empty recipient set, or a blank id.
    InvalidCompletionParticipant,
    /// An id given twice.
    DuplicateCompletionParticipant { agent_id: String },
    /// An agent outside the episode.
    UnknownCompletionParticipant { agent_id: String },
    /// A completion from an agent with nothing outstanding.
    NoOpenAssignment { agent_id: String },
    /// An event that does not advance past the assignment it concerns.
    StaleCompletionEvent { agent_id: String, sequence: Sequence },
    /// An assignment for an agent that still holds one.
    AssignmentWhileOpen { agent_id: String, assigned_at: Sequence },
}

impl Clone for Error {
    fn clone(&self) -> (r: Self)
        ensures
            r == *self,
    {
        match self {
            Error::NoCompletionParticipants => Error::NoCompletionParticipants,
            Error::InvalidCompletionParticipant => Error::InvalidCompletionParticipant,
            Error::DuplicateCompletionParticipant { agent_id } => {
                Error::DuplicateCompletionParticipant { agent_id: agent_id.clone() }
            },
            Error::UnknownCompletionParticipant { agent_id } => {
                Error::UnknownCompletionParticipant { agent_id: agent_id.clone() }
            },
            Error::NoOpenAssignment { agent_id } => Error::NoOpenAssignment {
                agent_id: agent_id.clone(),
            },
            Error::StaleCompletionEvent { agent_id, sequence } => Error::StaleCompletionEvent {
                agent_id: agent_id.clone(),
                sequence: *sequence,
            },
            Error::AssignmentWhileOpen { agent_id, assigned_at } => Error::AssignmentWhileOpen {
                agent_id: agent_id.clone(),
                assigned_at: *assigned_at,
            },
        }
    }
}

/// One assignment a participant received, and whether it finished.
#[derive(Clone, Copy, Debug, PartialEq, Eq, Structural)]
pub struct AssignmentRecord {
    /// Sequence at which this assignment was given.
    pub assigned_at: Sequence,
    /// Sequence of the `complete_episode` call that finished it.
    pub completed_at: Option<Sequence>,
}

impl AssignmentRecord {
    /// Whether this assignment is still owed.
    pub fn is_open(&self) -> (r: bool)
        ensures
            r == (self.completed_at is None),
    {
        self.completed_at.is_none()
    }
}

/// The open record of a history: its last record, when that is unfinished.
pub open spec fn history_open(h: Seq<AssignmentRecord>) -> Option<AssignmentRecord> {
    if h.len() > 0 && h.last().completed_at is None {
        Some(h.last())
    } else {
        None
    }
}

/// Whether a history still owes work.
pub open spec fn history_pending(h: Seq<AssignmentRecord>) -> bool {
    history_open(h) is Some
}

/// How many records of a history finished.
pub open spec fn settled_count(h: Seq<AssignmentRecord>) -> nat
    decreases h.len(),
{
    if h.len() == 0 {
        0
    } else {
        settled_count(h.drop_last()) + if h.last().completed_at is Some {
            1nat
        } else {
            0nat
        }
    }
}

/// A well-formed history: strictly increasing in `assigned_at`, every record
/// but the last finished, and every completion later than its assignment.
pub open spec fn history_wf(h: Seq<AssignmentRecord>) -> bool {
    &&& forall|i: int, j: int|
        0 <= i < j < h.len() ==> (#[trigger] h[i]).assigned_at.0 < (#[trigger] h[j]).assigned_at.0
    &&& forall|i: int| 0 <= i < h.len() - 1 ==> (#[trigger] h[i]).completed_at is Some
    &&& forall|i: int|
        0 <= i < h.len() ==> ((#[trigger] h[i]).completed_at matches Some(c) ==> c.0
            > h[i].assigned_at.0)
}

/// Whether some record of the history was finished by the event at `at`.
pub open spec fn history_replays(h: Seq<AssignmentRecord>, at: Sequence) -> bool {
    exists|i: int| 0 <= i < h.len() && (#[trigger] h[i]).completed_at == Some(at)
}

/// One agent's assignment history within an episode.
#[derive(Debug, PartialEq, Eq)]
pub struct ParticipantCompletion {
    /// Canonical agent id.
    pub agent_id: String,
    /// Every assignment this agent received, oldest first.
    pub assignments: Vec<AssignmentRecord>,
}

/// A participant as values.
pub struct ParticipantModel {
    pub agent_id: Seq<char>,
    pub assignments: Seq<AssignmentRecord>,
}

impl View for ParticipantCompletion {
    type V = ParticipantModel;

    open spec fn view(&self) -> ParticipantModel {
        ParticipantModel { agent_id: self.agent_id@, assignments: self.assignments@ }
    }
}

/// A copy of a history.
pub fn copy_history(h: &Vec<AssignmentRecord>) -> (r: Vec<AssignmentRecord>)
    ensures
        r@ == h@,
{
    let mut r: Vec<AssignmentRecord> = Vec::new();
    let mut i: usize = 0;
    while i < h.len()
        invariant
            i <= h@.len(),
            r@ == h@.subrange(0, i as int),
        decreases h@.len() - i,
    {
        r.push(h[i]);
        i = i + 1;
        assert(r@ =~= h@.subrange(0, i as int));
    }
    assert(h@.subrange(0, h@.len() as int) =~= h@);
    r
}

impl Clone for ParticipantCompletion {
    fn clone(&self) -> (r: Self)
        ensures
            r@ == self@,
    {
        ParticipantCompletion {
            agent_id: self.agent_id.clone(),
            assignments: copy_history(&self.assignments),
        }
    }
}

impl ParticipantCompletion {
    /// The assignment this agent still owes, if any: its last record, when
    /// that is unfinished.
    pub fn open(&self) -> (r: Option<&AssignmentRecord>)
        ensures
            r matches Some(x) ==> history_open(self.assignments@) == Some(*x),
            r is None ==> history_open(self.assignments@) is None,
    {
        let n = self.assignments.len();
        if n == 0 {
            return None;
        }
        let last = &self.assignments[n - 1];
        if last.is_open() {
            Some(last)
        } else {
            None
        }
    }

    /// Whether this agent has work outstanding.
    pub fn is_pending(&self) -> (r: bool)
        ensures
            r == history_pending(self.assignments@),
    {
        self.open().is_some()
    }

    /// Assignments this agent has finished.
    pub fn settled(&self) -> (r: usize)
        ensures
            r == settled_count(self.assignments@),
    {
        let mut count: usize = 0;
        let mut i: usize = 0;
        while i < self.assignments.len()
            invariant
                i <= self.assignments@.len(),
                count == settled_count(self.assignments@.subrange(0, i as int)),
                count <= i,
            decreases self.assignments@.len() - i,
        {
            assert(self.assignments@.subrange(0, i + 1).drop_last() =~= self.assignments@.subrange(
                0,
                i as int,
            ));
            if self.assignments[i].completed_at.is_some() {
                count = count + 1;
            }
            i = i + 1;
        }
        assert(self.assignments@.subrange(0, i as int) =~= self.assignments@);
        count
    }
}

/// Caller-owned state for one completion-driven episode.
#[derive(Debug, PartialEq, Eq)]
pub struct CompletionEpisodeState {
    /// Desk and optional thread on which the episode runs.
    pub conversation: Conversation,
    /// Exclusive lower bound at which the episode opened.
    pub watermark: Sequence,
    /// Assigned agents in stable opening order.
    pub participants: Vec<ParticipantCompletion>,
}

/// An episode as values.
pub struct EpisodeModel {
    pub conversation: ConversationModel,
    pub watermark: Sequence,
    pub participants: Seq<ParticipantModel>,
}

/// The values of a list of participants.
pub open spec fn participant_views(ps: Seq<ParticipantCompletion>) -> Seq<ParticipantModel> {
    ps.map_values(|p: ParticipantCompletion| p@)
}

impl View for CompletionEpisodeState {
    type V = EpisodeModel;

    open spec fn view(&self) -> EpisodeModel {
        EpisodeModel {
            conversation: self.conversation@,
            watermark: self.watermark,
            participants: participant_views(self.participants@),
        }
    }
}

/// A copy of a list of participants.
pub fn copy_participants(ps: &Vec<ParticipantCompletion>) -> (r: Vec<ParticipantCompletion>)
    ensures
        participant_views(r@) == participant_views(ps@),
{
    let mut r: Vec<ParticipantCompletion> = Vec::new();
    let mut i: usize = 0;
    while i < ps.len()
        invariant
            i <= ps@.len(),
            r@.len() == i,
            forall|k: int| 0 <= k < i ==> (#[trigger] r@[k])@ == ps@[k]@,
        decreases ps@.len() - i,
    {
        r.push(ps[i].clone());
        i = i + 1;
    }
    assert(participant_views(r@) =~= participant_views(ps@));
    r
}

impl Clone for CompletionEpisodeState {
    fn clone(&self) -> (r: Self)
        ensures
            r@ == self@,
    {
        CompletionEpisodeState {
            conversation: self.conversation.clone(),
            watermark: self.watermark,
            participants: copy_participants(&self.participants),
        }
    }
}

/// Every history of the episode is well formed.
pub open spec fn episode_wf(e: EpisodeModel) -> bool {
    forall|i: int| 0 <= i < e.participants.len() ==> history_wf(#[trigger] e.participants[i].assignments)
}

/// The index of the first participant named `id`, or `-1`.
pub open spec fn position(ps: Seq<ParticipantModel>, id: Seq<char>) -> int {
    let f = first_index(|k: int| ps[k].agent_id == id, ps.len() as int);
    if f < ps.len() {
        f
    } else {
        -1
    }
}

/// Where `id` sits among the participants: its first place, or -1 when absent.
pub proof fn lemma_position(ps: Seq<ParticipantModel>, id: Seq<char>)
    ensures
        -1 <= position(ps, id) < ps.len(),
        position(ps, id) >= 0 ==> ps[position(ps, id)].agent_id == id,
        position(ps, id) >= 0 ==> forall|j: int|
            0 <= j < position(ps, id) ==> (#[trigger] ps[j]).agent_id != id,
        position(ps, id) < 0 ==> forall|j: int| 0 <= j < ps.len() ==> (#[trigger] ps[j]).agent_id != id,
{
    let p = |k: int| ps[k].agent_id == id;
    lemma_first_index(p, ps.len() as int);
    let f = first_index(p, ps.len() as int);
    assert forall|j: int| 0 <= j < f implies (#[trigger] ps[j]).agent_id != id by {
        assert(!p(j));
    }
}

/// Finished assignments across a list of participants.
pub open spec fn total_settled(ps: Seq<ParticipantModel>) -> nat
    decreases ps.len(),
{
    if ps.len() == 0 {
        0
    } else {
        total_settled(ps.drop_last()) + settled_count(ps.last().assignments)
    }
}

/// A prefix of the participants has settled no more than all of them.
pub proof fn lemma_total_settled_prefix(ps: Seq<ParticipantModel>, i: int)
    requires
        0 <= i <= ps.len(),
    ensures
        total_settled(ps.subrange(0, i)) <= total_settled(ps),
    decreases ps.len(),
{
    if i < ps.len() {
        assert(ps.subrange(0, i) =~= ps.drop_last().subrange(0, i));
        lemma_total_settled_prefix(ps.drop_last(), i);
    } else {
        assert(ps.subrange(0, i) =~= ps);
    }
}

/// The ids of the participants still owing work, in order.
pub open spec fn pending_ids(ps: Seq<ParticipantModel>) -> Seq<Seq<char>>
    decreases ps.len(),
{
    if ps.len() == 0 {
        seq![]
    } else if history_pending(ps.last().assignments) {
        pending_ids(ps.drop_last()).push(ps.last().agent_id)
    } else {
        pending_ids(ps.drop_last())
    }
}

/// Every participant id, in order.
pub open spec fn all_ids(ps: Seq<ParticipantModel>) -> Seq<Seq<char>> {
    ps.map_values(|p: ParticipantModel| p.agent_id)
}

/// Whether any participant still owes work.
pub open spec fn any_pending(ps: Seq<ParticipantModel>) -> bool {
    exists|i: int| 0 <= i < ps.len() && history_pending((#[trigger] ps[i]).assignments)
}

/// The ids an active status lists are exactly those of the participants
/// whose latest assignment is still open, each once per such participant,
/// in episode order; so the list is as long as there are participants that
/// owe work.
pub proof fn lemma_pending_ids_are_the_open(ps: Seq<ParticipantModel>)
    ensures
        pending_ids(ps) == ps.filter(
            |p: ParticipantModel| p.assignments.len() > 0 && p.assignments.last().completed_at is None,
        ).map_values(|p: ParticipantModel| p.agent_id),
        forall|i: int|
            0 <= i < ps.len() && (#[trigger] ps[i]).assignments.len() > 0 && ps[i].assignments.last().completed_at
                is None ==> pending_ids(ps).contains(ps[i].agent_id),
    decreases ps.len(),
{
    let open = |p: ParticipantModel| p.assignments.len() > 0 && p.assignments.last().completed_at is None;
    reveal(Seq::filter);
    if ps.len() > 0 {
        lemma_pending_ids_are_the_open(ps.drop_last());
        let f = ps.drop_last().filter(open);
        if open(ps.last()) {
            assert(ps.filter(open) == f.push(ps.last()));
            assert(f.push(ps.last()).map_values(|p: ParticipantModel| p.agent_id) =~= f.map_values(
                |p: ParticipantModel| p.agent_id,
            ).push(ps.last().agent_id));
        } else {
            assert(ps.filter(open) == f);
        }
        assert forall|i: int|
            0 <= i < ps.len() && (#[trigger] ps[i]).assignments.len() > 0 && ps[i].assignments.last().completed_at
                is None implies pending_ids(ps).contains(ps[i].agent_id) by {
            if i < ps.len() - 1 {
                assert(ps.drop_last()[i] == ps[i]);
                let r = pending_ids(ps.drop_last());
                assert(r.contains(ps[i].agent_id));
                let k = choose|k: int| 0 <= k < r.len() && r[k] == ps[i].agent_id;
                if open(ps.last()) {
                    assert(pending_ids(ps)[k] == r[k]);
                }
            } else {
                let r = pending_ids(ps.drop_last());
                assert(pending_ids(ps)[r.len() as int] == ps[i].agent_id);
            }
        }
    } else {
        assert(ps.filter(open) =~= ps);
    }
}

/// Nobody is listed as pending exactly when nobody is pending.
pub proof fn lemma_pending_ids_empty(ps: Seq<ParticipantModel>)
    ensures
        (pending_ids(ps).len() == 0) == !any_pending(ps),
    decreases ps.len(),
{
    if ps.len() > 0 {
        lemma_pending_ids_empty(ps.drop_last());
        if any_pending(ps.drop_last()) {
            let i = choose|i: int|
                0 <= i < ps.drop_last().len() && history_pending(
                    (#[trigger] ps.drop_last()[i]).assignments,
                );
            assert(history_pending(ps[i].assignments));
        }
        if any_pending(ps) && !history_pending(ps.last().assignments) {
            let i = choose|i: int| 0 <= i < ps.len() && history_pending((#[trigger] ps[i]).assignments);
            assert(ps.drop_last()[i] == ps[i]);
        }
        if history_pending(ps.last().assignments) {
            assert(history_pending(ps[ps.len() - 1].assignments));
        }
    }
}

/// Whether the episode is open, with the agents that still owe work, or
/// complete, with every agent.
#[derive(Debug, PartialEq, Eq)]
pub enum CompletionStep {
    /// At least one assigned agent has not completed its latest assignment.
    Active {
        /// Agents whose latest assignment remains open, in stable episode order.
        pending_ids: Vec<String>,
    },
    /// Every assigned agent completed its latest assignment.
    Complete {
        /// Completed agents in stable episode order.
        completed_ids: Vec<String>,
    },
}

impl CompletionEpisodeState {
    /// Open an episode with the agents that have received its initial work.
    ///
    /// Ids are trimmed. The first blank id is refused as invalid and the
    /// first repeated one as a duplicate; an empty list is refused last.
    pub fn opened(conversation: Conversation, watermark: Sequence, participants: &[&str]) -> (r:
        Result<Self, Error>)
        ensures
            opening_result(conversation@, watermark, participants@.map_values(|s: &str| s@), r),
    {
        let ghost raw = participants@.map_values(|s: &str| s@);
        let ghost t = raw.map_values(|s: Seq<char>| trimmed(s));
        let mut state: Vec<ParticipantCompletion> = Vec::new();
        let mut i: usize = 0;
        while i < participants.len()
            invariant
                i <= participants@.len(),
                raw == participants@.map_values(|s: &str| s@),
                t == raw.map_values(|s: Seq<char>| trimmed(s)),
                state@.len() == i,
                forall|j: int| 0 <= j < i ==> !opening_bad(t, j),
                forall|j: int|
                    0 <= j < i ==> (#[trigger] state@[j])@ == (ParticipantModel {
                        agent_id: t[j],
                        assignments: seq![AssignmentRecord { assigned_at: watermark, completed_at: None }],
                    }),
            decreases participants@.len() - i,
        {
            let id = trim(participants[i]);
            assert(id@ == t[i as int]);
            if id.as_str().unicode_len() == 0 {
                proof {
                    assert(opening_bad(t, i as int));
                    lemma_first_index_unique(|k: int| opening_bad(t, k), t.len() as int, i as int);
                }
                return Err(Error::InvalidCompletionParticipant);
            }
            let mut j: usize = 0;
            while j < state.len()
                invariant
                    j <= state@.len(),
                    state@.len() == i,
                    i < participants@.len(),
                    id@ == t[i as int],
                    t.len() == participants@.len(),
                    forall|k: int| 0 <= k < j ==> t[k] != t[i as int],
                    forall|k: int| 0 <= k < i ==> !opening_bad(t, k),
                    t[i as int].len() > 0,
                    raw == participants@.map_values(|s: &str| s@),
                    t == raw.map_values(|s: Seq<char>| trimmed(s)),
                    forall|k: int|
                        0 <= k < i ==> (#[trigger] state@[k])@.agent_id == t[k],
                decreases state@.len() - j,
            {
                if state[j].agent_id == id {
                    proof {
                        assert(state@[j as int]@.agent_id == t[j as int]);
                        assert(opening_bad(t, i as int));
                        lemma_first_index_unique(|k: int| opening_bad(t, k), t.len() as int, i as int);
                    }
                    return Err(Error::DuplicateCompletionParticipant { agent_id: id });
                }
                j = j + 1;
            }
            assert(!opening_bad(t, i as int));
            let mut history: Vec<AssignmentRecord> = Vec::new();
            history.push(AssignmentRecord { assigned_at: watermark, completed_at: None });
            state.push(ParticipantCompletion { agent_id: id, assignments: history });
            i = i + 1;
        }
        if state.len() == 0 {
            return Err(Error::NoCompletionParticipants);
        }
        proof {
            lemma_first_index_unique(|k: int| opening_bad(t, k), t.len() as int, t.len() as int);
        }
        let r = CompletionEpisodeState { conversation, watermark, participants: state };
        assert(r@.participants =~= Seq::new(
            t.len(),
            |j: int|
                ParticipantModel {
                    agent_id: t[j],
                    assignments: seq![AssignmentRecord { assigned_at: watermark, completed_at: None }],
                },
        ));
        Ok(r)
    }

    /// Assignments finished across the whole episode. Only ever rises.
    pub fn settled(&self) -> (r: usize)
        requires
            total_settled(self@.participants) <= usize::MAX,
        ensures
            r == total_settled(self@.participants),
    {
        let mut total: usize = 0;
        let mut i: usize = 0;
        while i < self.participants.len()
            invariant
                i <= self.participants@.len(),
                total == total_settled(self@.participants.subrange(0, i as int)),
                total_settled(self@.participants) <= usize::MAX,
            decreases self.participants@.len() - i,
        {
            assert(self@.participants.subrange(0, i + 1).drop_last() =~= self@.participants.subrange(
                0,
                i as int,
            ));
            let here = self.participants[i].settled();
            proof {
                lemma_total_settled_prefix(self@.participants, i + 1);
                assert(self@.participants[i as int] == self.participants@[i as int]@);
            }
            total = total + here;
            i = i + 1;
        }
        assert(self@.participants.subrange(0, i as int) =~= self@.participants);
        total
    }
}

/// Whether the `i`th trimmed id of an opening list is blank or repeats an
/// earlier one.
pub open spec fn opening_bad(t: Seq<Seq<char>>, i: int) -> bool {
    t[i].len() == 0 || exists|j: int| 0 <= j < i && t[j] == t[i]
}

/// What opening an episode with these ids gives.
pub open spec fn opening_result(
    conversation: ConversationModel,
    watermark: Sequence,
    raw: Seq<Seq<char>>,
    r: Result<CompletionEpisodeState, Error>,
) -> bool {
    let t = raw.map_values(|s: Seq<char>| trimmed(s));
    let f = first_index(|i: int| opening_bad(t, i), t.len() as int);
    if f < t.len() {
        if t[f].len() == 0 {
            r == Err::<CompletionEpisodeState, Error>(Error::InvalidCompletionParticipant)
        } else {
            r matches Err(Error::DuplicateCompletionParticipant { agent_id }) && agent_id@ == t[f]
        }
    } else if t.len() == 0 {
        r == Err::<CompletionEpisodeState, Error>(Error::NoCompletionParticipants)
    } else {
        r matches Ok(s) && s@ == EpisodeModel {
            conversation,
            watermark,
            participants: Seq::new(
                t.len(),
                |j: int|
                    ParticipantModel {
                        agent_id: t[j],
                        assignments: seq![AssignmentRecord { assigned_at: watermark, completed_at: None }],
                    },
            ),
        }
    }
}

} // verus!

verus! {

/// `k` is the first index whose participant is named `id`, or `-1` when none is.
pub proof fn lemma_position_is(ps: Seq<ParticipantModel>, id: Seq<char>, k: int)
    requires
        -1 <= k < ps.len(),
        k >= 0 ==> ps[k].agent_id == id,
        k >= 0 ==> forall|j: int| 0 <= j < k ==> (#[trigger] ps[j]).agent_id != id,
        k < 0 ==> forall|j: int| 0 <= j < ps.len() ==> (#[trigger] ps[j]).agent_id != id,
    ensures
        position(ps, id) == k,
{
    let p = |j: int| ps[j].agent_id == id;
    if k >= 0 {
        lemma_first_index_unique(p, ps.len() as int, k);
    } else {
        lemma_first_index_unique(p, ps.len() as int, ps.len() as int);
    }
}

/// Lists whose ids agree position by position find every id at the same place.
pub proof fn lemma_position_same_ids(a: Seq<ParticipantModel>, b: Seq<ParticipantModel>, id: Seq<char>)
    requires
        a.len() == b.len(),
        forall|j: int| 0 <= j < a.len() ==> (#[trigger] a[j]).agent_id == b[j].agent_id,
    ensures
        position(a, id) == position(b, id),
{
    lemma_position(a, id);
    let k = position(a, id);
    assert forall|j: int| 0 <= j < b.len() && (k < 0 || j < k) implies (#[trigger] b[j]).agent_id != id by {
        assert(a[j].agent_id == b[j].agent_id);
    }
    if k >= 0 {
        assert(a[k].agent_id == b[k].agent_id);
    }
    lemma_position_is(b, id, k);
}

/// The index of the participant named `id`.
pub fn find_participant(ps: &Vec<ParticipantCompletion>, id: &str) -> (r: Option<usize>)
    ensures
        match r {
            Some(k) => k as int == position(participant_views(ps@), id@) && k < ps@.len(),
            None => position(participant_views(ps@), id@) == -1,
        },
{
    let ghost views = participant_views(ps@);
    let mut i: usize = 0;
    while i < ps.len()
        invariant
            i <= ps@.len(),
            views == participant_views(ps@),
            forall|j: int| 0 <= j < i ==> (#[trigger] views[j]).agent_id != id@,
        decreases ps@.len() - i,
    {
        if str_eq(ps[i].agent_id.as_str(), id) {
            proof {
                lemma_position_is(views, id@, i as int);
            }
            return Some(i);
        }
        i = i + 1;
    }
    proof {
        lemma_position_is(views, id@, -1);
    }
    None
}

/// Read the episode's status without changing it.
///
/// `Complete` is necessary for an episode to be over and is not sufficient: a
/// host that queues handoffs holds state this fold cannot see.
pub fn status(state: &CompletionEpisodeState) -> (r: CompletionStep)
    ensures
        match r {
            CompletionStep::Active { pending_ids: ids } => any_pending(state@.participants)
                && id_views(ids@) == pending_ids(state@.participants),
            CompletionStep::Complete { completed_ids } => !any_pending(state@.participants)
                && id_views(completed_ids@) == all_ids(state@.participants),
        },
{
    let ghost ps = state@.participants;
    let mut pending: Vec<String> = Vec::new();
    let mut i: usize = 0;
    while i < state.participants.len()
        invariant
            i <= state.participants@.len(),
            ps == state@.participants,
            id_views(pending@) == pending_ids(ps.subrange(0, i as int)),
        decreases state.participants@.len() - i,
    {
        assert(ps.subrange(0, i + 1).drop_last() =~= ps.subrange(0, i as int));
        assert(ps[i as int] == state.participants@[i as int]@);
        if state.participants[i].is_pending() {
            let ghost before = pending@;
            pending.push(state.participants[i].agent_id.clone());
            assert(id_views(pending@) =~= id_views(before).push(ps[i as int].agent_id));
        }
        i = i + 1;
    }
    assert(ps.subrange(0, i as int) =~= ps);
    proof {
        lemma_pending_ids_empty(ps);
    }
    if pending.len() == 0 {
        let mut all: Vec<String> = Vec::new();
        let mut j: usize = 0;
        while j < state.participants.len()
            invariant
                j <= state.participants@.len(),
                ps == state@.participants,
                all@.len() == j,
                forall|k: int| 0 <= k < j ==> (#[trigger] all@[k])@ == ps[k].agent_id,
            decreases state.participants@.len() - j,
        {
            assert(ps[j as int] == state.participants@[j as int]@);
            all.push(state.participants[j].agent_id.clone());
            j = j + 1;
        }
        assert(id_views(all@) =~= all_ids(ps));
        CompletionStep::Complete { completed_ids: all }
    } else {
        CompletionStep::Active { pending_ids: pending }
    }
}

/// The episode after the participant at `k` finished its open assignment at `at`.
pub open spec fn completed(e: EpisodeModel, k: int, at: Sequence) -> EpisodeModel {
    let p = e.participants[k];
    let h = p.assignments;
    EpisodeModel {
        conversation: e.conversation,
        watermark: e.watermark,
        participants: e.participants.update(
            k,
            ParticipantModel {
                agent_id: p.agent_id,
                assignments: h.update(
                    h.len() - 1,
                    AssignmentRecord { assigned_at: h.last().assigned_at, completed_at: Some(at) },
                ),
            },
        ),
    }
}

/// What recording `id`'s `complete_episode` call at `at` gives.
pub open spec fn completion_result(
    e: EpisodeModel,
    id: Seq<char>,
    at: Sequence,
    r: Result<CompletionEpisodeState, Error>,
) -> bool {
    let k = position(e.participants, id);
    if k < 0 {
        r matches Err(Error::UnknownCompletionParticipant { agent_id }) && agent_id@ == id
    } else {
        let h = e.participants[k].assignments;
        if history_replays(h, at) {
            r matches Ok(s) && s@ == e
        } else if !history_pending(h) {
            r matches Err(Error::NoOpenAssignment { agent_id }) && agent_id@ == id
        } else if at.0 <= h.last().assigned_at.0 {
            r matches Err(Error::StaleCompletionEvent { agent_id, sequence }) && agent_id@ == id
                && sequence == at
        } else {
            r matches Ok(s) && s@ == completed(e, k, at)
        }
    }
}

/// Whether recording `id`'s completion at `at` is accepted.
pub open spec fn completion_ok(e: EpisodeModel, id: Seq<char>, at: Sequence) -> bool {
    let k = position(e.participants, id);
    k >= 0 && (history_replays(e.participants[k].assignments, at) || (history_pending(
        e.participants[k].assignments,
    ) && at.0 > e.participants[k].assignments.last().assigned_at.0))
}

/// The episode an accepted completion gives.
pub open spec fn completion_next(e: EpisodeModel, id: Seq<char>, at: Sequence) -> EpisodeModel {
    let k = position(e.participants, id);
    if history_replays(e.participants[k].assignments, at) {
        e
    } else {
        completed(e, k, at)
    }
}

/// Record one agent's explicit `complete_episode` tool call.
///
/// The subject is the participant's one open assignment. Replaying an event
/// already recorded anywhere in the participant's history is idempotent.
pub fn apply_completion(state: &CompletionEpisodeState, agent_id: &str, at: Sequence) -> (r:
    Result<CompletionEpisodeState, Error>)
    ensures
        completion_result(state@, agent_id@, at, r),
        (r is Ok) == completion_ok(state@, agent_id@, at),
        r is Ok ==> r->Ok_0@ == completion_next(state@, agent_id@, at),
        episode_wf(state@) && r is Ok ==> episode_wf(r->Ok_0@),
        r is Ok ==> total_settled(r->Ok_0@.participants) >= total_settled(state@.participants),
{
    let k = match find_participant(&state.participants, agent_id) {
        Some(k) => k,
        None => {
            return Err(Error::UnknownCompletionParticipant { agent_id: String::from_str(agent_id) });
        },
    };
    let ghost e = state@;
    let p = &state.participants[k];
    assert(e.participants[k as int] == p@);
    let mut i: usize = 0;
    while i < p.assignments.len()
        invariant
            i <= p.assignments@.len(),
            forall|j: int| 0 <= j < i ==> (#[trigger] p.assignments@[j]).completed_at != Some(at),
            e == state@,
            k < state.participants@.len(),
            *p == state.participants@[k as int],
            e.participants[k as int] == p@,
            k as int == position(e.participants, agent_id@),
        decreases p.assignments@.len() - i,
    {
        let done = match p.assignments[i].completed_at {
            Some(c) => c.0 == at.0,
            None => false,
        };
        if done {
            assert(p.assignments@[i as int].completed_at == Some(at));
            assert(history_replays(e.participants[k as int].assignments, at));
            return Ok(state.clone());
        }
        i = i + 1;
    }
    let n = p.assignments.len();
    if n == 0 {
        return Err(Error::NoOpenAssignment { agent_id: String::from_str(agent_id) });
    }
    let last = p.assignments[n - 1];
    if last.completed_at.is_some() {
        return Err(Error::NoOpenAssignment { agent_id: String::from_str(agent_id) });
    }
    if at.0 <= last.assigned_at.0 {
        return Err(
            Error::StaleCompletionEvent { agent_id: String::from_str(agent_id), sequence: at },
        );
    }
    let mut updated = p.clone();
    updated.assignments.set(
        n - 1,
        AssignmentRecord { assigned_at: last.assigned_at, completed_at: Some(at) },
    );
    let mut next = state.clone();
    next.participants.set(k, updated);
    assert(next@.participants =~= completed(e, k as int, at).participants);
    proof {
        lemma_completed_keeps(e, k as int, at);
    }
    Ok(next)
}

/// Completing an open assignment keeps every history well formed, and
/// finishes exactly one more assignment.
pub proof fn lemma_completed_keeps(e: EpisodeModel, k: int, at: Sequence)
    requires
        0 <= k < e.participants.len(),
        history_pending(e.participants[k].assignments),
        e.participants[k].assignments.last().assigned_at.0 < at.0,
    ensures
        episode_wf(e) ==> episode_wf(completed(e, k, at)),
        total_settled(completed(e, k, at).participants) == total_settled(e.participants) + 1,
{
    let h = e.participants[k].assignments;
    let h2 = completed(e, k, at).participants[k].assignments;
    if episode_wf(e) {
        assert(history_wf(h));
        assert(history_wf(h2));
        assert forall|i: int| 0 <= i < completed(e, k, at).participants.len() implies history_wf(
            #[trigger] completed(e, k, at).participants[i].assignments,
        ) by {
            if i != k {
                assert(completed(e, k, at).participants[i] == e.participants[i]);
            }
        }
    }
    assert(h2.drop_last() =~= h.drop_last());
    lemma_total_settled_update(e.participants, k, completed(e, k, at).participants[k]);
}

/// Replacing one participant changes the total by the difference of its count.
pub proof fn lemma_total_settled_update(ps: Seq<ParticipantModel>, k: int, p: ParticipantModel)
    requires
        0 <= k < ps.len(),
    ensures
        total_settled(ps.update(k, p)) + settled_count(ps[k].assignments) == total_settled(ps)
            + settled_count(p.assignments),
    decreases ps.len(),
{
    if k == ps.len() - 1 {
        assert(ps.update(k, p).drop_last() =~= ps.drop_last());
    } else {
        assert(ps.update(k, p).drop_last() =~= ps.drop_last().update(k, p));
        lemma_total_settled_update(ps.drop_last(), k, p);
    }
}

/// Recording a completion twice is recording it once.
pub proof fn lemma_completion_replay(
    e: EpisodeModel,
    id: Seq<char>,
    at: Sequence,
    first: Result<CompletionEpisodeState, Error>,
    second: Result<CompletionEpisodeState, Error>,
)
    requires
        completion_result(e, id, at, first),
        first is Ok,
        completion_result(first->Ok_0@, id, at, second),
    ensures
        second is Ok,
        second->Ok_0@ == first->Ok_0@,
{
    let k = position(e.participants, id);
    let s = first->Ok_0@;
    if !history_replays(e.participants[k].assignments, at) {
        let h = e.participants[k].assignments;
        let h2 = s.participants[k].assignments;
        lemma_position_same_ids(e.participants, s.participants, id);
        assert(h2[h2.len() - 1].completed_at == Some(at));
        assert(history_replays(h2, at));
    }
}

/// Whether the participant named `id` cannot take an assignment at `at`:
/// it is unknown, still holds one, or `at` does not advance past its latest.
pub open spec fn assignment_refused(ps: Seq<ParticipantModel>, id: Seq<char>, at: Sequence) -> bool {
    let k = position(ps, id);
    k < 0 || history_pending(ps[k].assignments) || (ps[k].assignments.len() > 0 && at.0
        <= ps[k].assignments.last().assigned_at.0)
}

/// Whether the `i`th id occurs elsewhere in `t`.
pub open spec fn repeated(t: Seq<Seq<char>>, i: int) -> bool {
    exists|j: int| 0 <= j < t.len() && j != i && t[j] == t[i]
}

/// The episode after each named participant received an assignment at `at`.
pub open spec fn assigned(e: EpisodeModel, t: Seq<Seq<char>>, at: Sequence) -> EpisodeModel {
    EpisodeModel {
        conversation: e.conversation,
        watermark: e.watermark,
        participants: Seq::new(
            e.participants.len(),
            |m: int|
                if exists|i: int| 0 <= i < t.len() && position(e.participants, t[i]) == m {
                    ParticipantModel {
                        agent_id: e.participants[m].agent_id,
                        assignments: e.participants[m].assignments.push(
                            AssignmentRecord { assigned_at: at, completed_at: None },
                        ),
                    }
                } else {
                    e.participants[m]
                },
        ),
    }
}

/// What recording a routed broadcast's recipients at `at` gives.
pub open spec fn assignment_result(
    e: EpisodeModel,
    raw: Seq<Seq<char>>,
    at: Sequence,
    r: Result<CompletionEpisodeState, Error>,
) -> bool {
    let t = raw.map_values(|s: Seq<char>| trimmed(s));
    let ps = e.participants;
    if t.len() == 0 || exists|i: int| 0 <= i < t.len() && (#[trigger] t[i]).len() == 0 {
        r == Err::<CompletionEpisodeState, Error>(Error::InvalidCompletionParticipant)
    } else {
        let d = first_index(|i: int| repeated(t, i), t.len() as int);
        if d < t.len() {
            r matches Err(Error::DuplicateCompletionParticipant { agent_id }) && agent_id@ == t[d]
        } else {
            let f = first_index(|i: int| assignment_refused(ps, t[i], at), t.len() as int);
            if f < t.len() {
                let k = position(ps, t[f]);
                if k < 0 {
                    r matches Err(Error::UnknownCompletionParticipant { agent_id }) && agent_id@
                        == t[f]
                } else if history_pending(ps[k].assignments) {
                    r matches Err(Error::AssignmentWhileOpen { agent_id, assigned_at })
                        && agent_id@ == t[f] && assigned_at == ps[k].assignments.last().assigned_at
                } else {
                    r matches Err(Error::StaleCompletionEvent { agent_id, sequence }) && agent_id@
                        == t[f] && sequence == at
                }
            } else {
                r matches Ok(s) && s@ == assigned(e, t, at)
            }
        }
    }
}

} // verus!

verus! {

/// Whether recording these recipients at `at` is accepted.
pub open spec fn assignment_ok(e: EpisodeModel, raw: Seq<Seq<char>>, at: Sequence) -> bool {
    let t = raw.map_values(|s: Seq<char>| trimmed(s));
    &&& t.len() > 0
    &&& forall|i: int| 0 <= i < t.len() ==> (#[trigger] t[i]).len() > 0
    &&& first_index(|i: int| repeated(t, i), t.len() as int) == t.len()
    &&& first_index(|i: int| assignment_refused(e.participants, t[i], at), t.len() as int) == t.len()
}

/// The episode an accepted assignment gives.
pub open spec fn assignment_next(e: EpisodeModel, raw: Seq<Seq<char>>, at: Sequence) -> EpisodeModel {
    assigned(e, raw.map_values(|s: Seq<char>| trimmed(s)), at)
}

/// Participants named by distinct ids sit at distinct positions.
pub proof fn lemma_position_distinct(ps: Seq<ParticipantModel>, a: Seq<char>, b: Seq<char>)
    requires
        a != b,
        position(ps, a) >= 0,
    ensures
        position(ps, a) != position(ps, b),
{
    lemma_position(ps, a);
    lemma_position(ps, b);
}

/// Totals agree when every participant's count agrees.
pub proof fn lemma_total_settled_pointwise(a: Seq<ParticipantModel>, b: Seq<ParticipantModel>)
    requires
        a.len() == b.len(),
        forall|m: int|
            0 <= m < a.len() ==> settled_count((#[trigger] a[m]).assignments) == settled_count(
                b[m].assignments,
            ),
    ensures
        total_settled(a) == total_settled(b),
    decreases a.len(),
{
    if a.len() > 0 {
        assert(settled_count(a[a.len() - 1].assignments) == settled_count(b[b.len() - 1].assignments));
        lemma_total_settled_pointwise(a.drop_last(), b.drop_last());
    }
}

/// Handing every named, unrefused participant a new assignment keeps every
/// history well formed and finishes nothing.
pub proof fn lemma_assigned_keeps(e: EpisodeModel, t: Seq<Seq<char>>, at: Sequence)
    requires
        forall|i: int| 0 <= i < t.len() ==> !assignment_refused(e.participants, #[trigger] t[i], at),
    ensures
        episode_wf(e) ==> episode_wf(assigned(e, t, at)),
        total_settled(assigned(e, t, at).participants) == total_settled(e.participants),
{
    let ps = e.participants;
    let qs = assigned(e, t, at).participants;
    assert forall|m: int| 0 <= m < qs.len() implies settled_count((#[trigger] qs[m]).assignments)
        == settled_count(ps[m].assignments) && (history_wf(ps[m].assignments) ==> history_wf(
        qs[m].assignments,
    )) by {
        if exists|i: int| 0 <= i < t.len() && position(ps, t[i]) == m {
            let i = choose|i: int| 0 <= i < t.len() && position(ps, t[i]) == m;
            assert(!assignment_refused(ps, t[i], at));
            let h = ps[m].assignments;
            let h2 = qs[m].assignments;
            assert(h2 == h.push(AssignmentRecord { assigned_at: at, completed_at: None }));
            assert(h2.drop_last() =~= h);
            if history_wf(h) {
                assert forall|x: int, y: int| 0 <= x < y < h2.len() implies (#[trigger] h2[x]).assigned_at.0
                    < (#[trigger] h2[y]).assigned_at.0 by {
                    if y == h2.len() - 1 && x < h.len() - 1 {
                        assert(h[x].assigned_at.0 < h[h.len() - 1].assigned_at.0);
                    }
                }
                assert(history_wf(h2));
            }
        }
    }
    lemma_total_settled_pointwise(qs, ps);
}

/// Record the recipients of one accepted, routed broadcast.
///
/// Assignment appends a record to each recipient rather than replacing the
/// one it holds. A recipient that still has work open is refused, and the
/// whole set with it: nothing is partially written.
pub fn apply_assignment(state: &CompletionEpisodeState, recipients: &[&str], at: Sequence) -> (r:
    Result<CompletionEpisodeState, Error>)
    ensures
        assignment_result(state@, recipients@.map_values(|s: &str| s@), at, r),
        (r is Ok) == assignment_ok(state@, recipients@.map_values(|s: &str| s@), at),
        r is Ok ==> r->Ok_0@ == assignment_next(state@, recipients@.map_values(|s: &str| s@), at),
        episode_wf(state@) && r is Ok ==> episode_wf(r->Ok_0@),
        r is Ok ==> total_settled(r->Ok_0@.participants) == total_settled(state@.participants),
{
    let ghost raw = recipients@.map_values(|s: &str| s@);
    let ghost t = raw.map_values(|s: Seq<char>| trimmed(s));
    let ghost e = state@;
    let ghost ps = e.participants;
    let mut ids: Vec<String> = Vec::new();
    let mut i: usize = 0;
    while i < recipients.len()
        invariant
            i <= recipients@.len(),
            raw == recipients@.map_values(|s: &str| s@),
            t == raw.map_values(|s: Seq<char>| trimmed(s)),
            ids@.len() == i,
            forall|j: int| 0 <= j < i ==> (#[trigger] ids@[j])@ == t[j],
        decreases recipients@.len() - i,
    {
        ids.push(trim(recipients[i]));
        i = i + 1;
    }
    let n = ids.len();
    if n == 0 {
        return Err(Error::InvalidCompletionParticipant);
    }
    let mut i: usize = 0;
    while i < n
        invariant
            i <= n,
            n == ids@.len(),
            n == t.len(),
            forall|j: int| 0 <= j < n ==> (#[trigger] ids@[j])@ == t[j],
            forall|j: int| 0 <= j < i ==> (#[trigger] t[j]).len() > 0,
            raw == recipients@.map_values(|s: &str| s@),
            t == raw.map_values(|s: Seq<char>| trimmed(s)),
        decreases n - i,
    {
        if ids[i].as_str().unicode_len() == 0 {
            assert(t[i as int].len() == 0);
            return Err(Error::InvalidCompletionParticipant);
        }
        i = i + 1;
    }
    let mut i: usize = 0;
    while i < n
        invariant
            i <= n,
            n == ids@.len(),
            n == t.len(),
            raw == recipients@.map_values(|s: &str| s@),
            t == raw.map_values(|s: Seq<char>| trimmed(s)),
            forall|j: int| 0 <= j < n ==> (#[trigger] t[j]).len() > 0,
            forall|j: int| 0 <= j < n ==> (#[trigger] ids@[j])@ == t[j],
            forall|j: int| 0 <= j < i ==> !repeated(t, j),
        decreases n - i,
    {
        let mut j: usize = 0;
        while j < n
            invariant
                j <= n,
                i < n,
                n == ids@.len(),
                n == t.len(),
                forall|x: int| 0 <= x < n ==> (#[trigger] ids@[x])@ == t[x],
                forall|x: int| 0 <= x < i ==> !repeated(t, x),
                forall|l: int| 0 <= l < j ==> l == i || t[l] != t[i as int],
                raw == recipients@.map_values(|s: &str| s@),
                t == raw.map_values(|s: Seq<char>| trimmed(s)),
                forall|x: int| 0 <= x < n ==> (#[trigger] t[x]).len() > 0,
            decreases n - j,
        {
            if i != j && ids[i] == ids[j] {
                proof {
                    assert(t[j as int] == t[i as int]);
                    assert(repeated(t, i as int));
                    lemma_first_index_unique(|x: int| repeated(t, x), n as int, i as int);
                }
                return Err(Error::DuplicateCompletionParticipant { agent_id: ids[i].clone() });
            }
            j = j + 1;
        }
        i = i + 1;
    }
    proof {
        lemma_first_index_unique(|x: int| repeated(t, x), n as int, n as int);
    }
    let mut next = state.clone();
    assert(assigned(e, t.subrange(0, 0), at).participants =~= ps);
    let mut i: usize = 0;
    while i < n
        invariant
            i <= n,
            0 < n,
            n == ids@.len(),
            n == t.len(),
            raw == recipients@.map_values(|s: &str| s@),
            t == raw.map_values(|s: Seq<char>| trimmed(s)),
            forall|j: int| 0 <= j < n ==> (#[trigger] t[j]).len() > 0,
            first_index(|x: int| repeated(t, x), n as int) == n,
            next.participants@.len() == state.participants@.len(),
            e == state@,
            ps == e.participants,
            forall|j: int| 0 <= j < n ==> (#[trigger] ids@[j])@ == t[j],
            forall|j: int| 0 <= j < n ==> !repeated(t, j),
            forall|j: int| 0 <= j < i ==> !assignment_refused(ps, #[trigger] t[j], at),
            next@ == assigned(e, t.subrange(0, i as int), at),
        decreases n - i,
    {
        let k = match find_participant(&state.participants, ids[i].as_str()) {
            Some(k) => k,
            None => {
                proof {
                    lemma_first_index_unique(
                        |x: int| assignment_refused(ps, t[x], at),
                        n as int,
                        i as int,
                    );
                }
                return Err(Error::UnknownCompletionParticipant { agent_id: ids[i].clone() });
            },
        };
        let p = &state.participants[k];
        assert(ps[k as int] == p@);
        let len = p.assignments.len();
        if p.is_pending() {
            proof {
                lemma_first_index_unique(|x: int| assignment_refused(ps, t[x], at), n as int, i as int);
            }
            return Err(
                Error::AssignmentWhileOpen {
                    agent_id: ids[i].clone(),
                    assigned_at: p.assignments[len - 1].assigned_at,
                },
            );
        }
        if len > 0 && at.0 <= p.assignments[len - 1].assigned_at.0 {
            proof {
                lemma_first_index_unique(|x: int| assignment_refused(ps, t[x], at), n as int, i as int);
            }
            return Err(Error::StaleCompletionEvent { agent_id: ids[i].clone(), sequence: at });
        }
        proof {
            assert forall|x: int| 0 <= x < i implies position(ps, #[trigger] t[x]) != k by {
                assert(!repeated(t, i as int));
                assert(t[x] != t[i as int]);
                lemma_position_distinct(ps, t[i as int], t[x]);
            }
        }
        let ghost before = next@;
        let ghost ii = i as int;
        let mut updated = next.participants[k].clone();
        assert(before.participants[k as int] == next.participants@[k as int]@);
        assert(before.participants[k as int] == ps[k as int]) by {
            assert(!(exists|x: int| 0 <= x < ii && #[trigger] position(ps, t.subrange(0, ii)[x]) == k)) by {
                if exists|x: int| 0 <= x < ii && #[trigger] position(ps, t.subrange(0, ii)[x]) == k {
                    let x = choose|x: int| 0 <= x < ii && #[trigger] position(ps, t.subrange(0, ii)[x]) == k;
                    assert(t.subrange(0, ii)[x] == t[x]);
                }
            }
        }
        updated.assignments.push(AssignmentRecord { assigned_at: at, completed_at: None });
        next.participants.set(k, updated);
        i = i + 1;
        proof {
            let goal = assigned(e, t.subrange(0, ii + 1), at);
            assert(position(ps, t.subrange(0, ii + 1)[ii]) == k);
            assert forall|m: int| 0 <= m < ps.len() implies (#[trigger] next@.participants[m])
                == goal.participants[m] by {
                assert(next@.participants[m] == next.participants@[m]@);
                if m == k {
                    assert(next@.participants[m].assignments =~= goal.participants[m].assignments);
                } else {
                    assert(next@.participants[m] == before.participants[m]);
                    let now = exists|x: int| 0 <= x < ii + 1 && #[trigger] position(ps, t.subrange(0, ii + 1)[x]) == m;
                    let then = exists|x: int| 0 <= x < ii && #[trigger] position(ps, t.subrange(0, ii)[x]) == m;
                    if now {
                        let x = choose|x: int| 0 <= x < ii + 1 && #[trigger] position(ps, t.subrange(0, ii + 1)[x]) == m;
                        assert(x != ii);
                        assert(t.subrange(0, ii)[x] == t.subrange(0, ii + 1)[x]);
                        assert(then);
                    }
                    if then {
                        let x = choose|x: int| 0 <= x < ii && #[trigger] position(ps, t.subrange(0, ii)[x]) == m;
                        assert(t.subrange(0, ii)[x] == t.subrange(0, ii + 1)[x]);
                        assert(now);
                    }
                }
            }
            assert(next@.participants =~= goal.participants);
        }
    }
    proof {
        lemma_first_index_unique(|x: int| assignment_refused(ps, t[x], at), n as int, n as int);
        assert(t.subrange(0, n as int) =~= t);
        lemma_assigned_keeps(e, t, at);
    }
    Ok(next)
}

} // verus!
