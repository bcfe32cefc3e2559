//! Typed refusals of the hive graph and the completion driver.

use vstd::prelude::*;

use crate::completion;
use crate::completion::Error as CompletionError;
use crate::driver::brief::{join_with, joined_with};
use crate::text::{decimal, decimal_string};
use crate::types::id_views;
use crate::types::Sequence;

verus! {

/// A malformed graph, route, or committed completion event.
#[derive(Debug, PartialEq, Eq)]
pub enum Error {
    /// A canonical identity is empty or white space only.
    BlankCanonicalId { collection: String },
    /// A canonical identity uses the router's reserved alternative `none`.
    ReservedCanonicalId { collection: String },
    /// A desk has no members and therefore cannot run a hive.
    EmptyMembership { desk_id: String },
    /// The desk membership repeats a canonical id.
    DuplicateMemberId { agent_id: String },
    /// Two route candidates have the same canonical id.
    DuplicateCandidateId { agent_id: String },
    /// Two bindings have the same canonical id.
    DuplicateBindingId { agent_id: String },
    /// A graph collection does not equal the desk membership set.
    MembershipMismatch { collection: String, missing: Vec<String>, outsiders: Vec<String> },
    /// An accepted plan names an agent outside this hive.
    UnknownBoundAgent { agent_id: String },
    /// A broadcast route attempted to send work back to its author.
    BroadcastIncludesAuthor { agent_id: String },
    /// A sender is not a member of this hive.
    UnknownDmSender { agent_id: String },
    /// A private recipient is not a member of this hive.
    UnknownDmRecipient { agent_id: String },
    /// A private message names no recipient.
    EmptyDmRecipients,
    /// A private message repeats one recipient.
    DuplicateDmRecipient { agent_id: String },
    /// A private message exceeds the round width.
    DmTooWide { recipient_count: usize, round_width: usize },
    /// A routed broadcast exceeds the driver's round width.
    BroadcastTooWide { recipient_count: usize, round_width: usize },
    /// The requested pending-round width is zero.
    ZeroRoundWidth,
    /// A committed broadcast was folded without routing inputs.
    MissingBroadcastRouting,
    /// A broadcast author is the episode's only participant.
    NoBroadcastFallback { agent_id: String },
    /// Completion state belongs to another desk.
    OutOfHiveEpisode { desk_id: String },
    /// A participant, author or ledger entry is outside the hive.
    OutOfHiveParticipant { agent_id: String },
    /// A committed event sequence is not after what was already accepted.
    StaleCommittedEvent { sequence: Sequence },
    /// A sequence was already committed with different event content.
    DuplicateCommittedSequence { sequence: Sequence },
    /// A stored receipt's key disagrees with its committed event.
    InvalidReceiptSequence { stored: Sequence, event: Sequence },
    /// A stored state's revision disagrees with its committed receipts.
    InvalidStateRevision { revision: u64, receipt_count: usize },
    /// A stored freshness floor disagrees with its episode and receipts.
    InvalidFreshnessFloor { stored: Sequence, derived: Sequence },
    /// The driver-state revision cannot be advanced further.
    StateRevisionOverflow,
    /// A pending round was proposed from an older driver state.
    StaleRound { round_revision: u64, state_revision: u64 },
    /// A pending round belongs to a different driver-state snapshot.
    MismatchedRound { round_revision: u64, state_revision: u64 },
    /// Only part of a pending round was reported as committed.
    PartialRound { expected: usize, received: usize },
    /// A committed round result came from an agent outside its proposal.
    UnexpectedRoundAuthor { agent_id: String },
    /// A desk routing request disagrees with the hive graph.
    MismatchedDeskRoutingRequest { field: String },
    /// A seat tried to complete while a question it asked is unanswered.
    AwaitingReply { agent_id: String, waiting_on: Vec<String> },
    /// A seat tried to complete an assignment the host never showed it.
    UndeliveredAssignment { agent_id: String, assigned_at: Sequence, delivered_through: Sequence },
    /// A seat has spent every broadcast its current assignment allows.
    BudgetSpent { agent_id: String, assigned_at: Sequence },
    /// The per-recipient handoff queue bound is zero.
    ZeroQueueDepth,
    /// The completion fold rejected the event.
    Completion(completion::Error),
}

} // verus!

verus! {

/// `ids` as a bracketed list, each id in double quotes.
pub open spec fn quoted_list(ids: Seq<Seq<char>>) -> Seq<char> {
    "["@ + joined_with(ids.map_values(|x: Seq<char>| "\""@ + x + "\""@), ", "@) + "]"@
}

fn quoted(ids: &Vec<String>) -> (r: String)
    ensures
        r@ == quoted_list(id_views(ids@)),
{
    let mut parts: Vec<String> = Vec::new();
    let mut i: usize = 0;
    while i < ids.len()
        invariant
            i <= ids@.len(),
            parts@.len() == i,
            forall|k: int| 0 <= k < i ==> (#[trigger] parts@[k])@ == "\""@ + ids@[k]@ + "\""@,
        decreases ids@.len() - i,
    {
        let mut one = String::from_str("\"");
        one.append(ids[i].as_str());
        one.append("\"");
        parts.push(one);
        i = i + 1;
    }
    assert(id_views(parts@) =~= id_views(ids@).map_values(|x: Seq<char>| "\""@ + x + "\""@));
    let mut out = String::from_str("[");
    out.append(join_with(&parts, ", ").as_str());
    out.append("]");
    out
}

/// What a refusal of the completion fold says.
pub open spec fn completion_text(e: CompletionError) -> Seq<char> {
    match e {
        CompletionError::NoCompletionParticipants => "a completion episode needs at least one participant"@,
        CompletionError::InvalidCompletionParticipant => "a completion participant id is blank, or no recipient was named"@,
        CompletionError::DuplicateCompletionParticipant{agent_id} => "completion participant `"@ + agent_id@ + "` appears more than once"@,
        CompletionError::UnknownCompletionParticipant{agent_id} => "`"@ + agent_id@ + "` is not a participant of this episode"@,
        CompletionError::NoOpenAssignment{agent_id} => "`"@ + agent_id@ + "` has no open assignment to complete"@,
        CompletionError::StaleCompletionEvent{agent_id, sequence} => "event at sequence "@ + decimal(sequence.0 as nat) + " from `"@ + agent_id@ + "` does not advance its assignment"@,
        CompletionError::AssignmentWhileOpen{agent_id, assigned_at} => "`"@ + agent_id@ + "` still holds the assignment made at "@ + decimal(assigned_at.0 as nat),
    }
}

/// What a refusal says.
pub open spec fn error_text(e: Error) -> Seq<char> {
    match e {
        Error::BlankCanonicalId{collection} => collection@ + " contains a blank canonical id"@,
        Error::ReservedCanonicalId{collection} => collection@ + " contains reserved canonical id `none`"@,
        Error::EmptyMembership{desk_id} => "desk `"@ + desk_id@ + "` has no members"@,
        Error::DuplicateMemberId{agent_id} => "desk member `"@ + agent_id@ + "` appears more than once"@,
        Error::DuplicateCandidateId{agent_id} => "route candidate `"@ + agent_id@ + "` appears more than once"@,
        Error::DuplicateBindingId{agent_id} => "agent binding `"@ + agent_id@ + "` appears more than once"@,
        Error::MembershipMismatch{collection, ..} => collection@ + " ids do not equal desk membership"@,
        Error::UnknownBoundAgent{agent_id} => "unknown bound agent `"@ + agent_id@ + "`"@,
        Error::BroadcastIncludesAuthor{agent_id} => "broadcast route includes its author `"@ + agent_id@ + "`"@,
        Error::UnknownDmSender{agent_id} => "dm sender `"@ + agent_id@ + "` is not a member of the desk"@,
        Error::UnknownDmRecipient{agent_id} => "dm recipient `"@ + agent_id@ + "` is not a member of the desk"@,
        Error::EmptyDmRecipients => "dm must name at least one recipient"@,
        Error::DuplicateDmRecipient{agent_id} => "dm recipient `"@ + agent_id@ + "` appears more than once"@,
        Error::DmTooWide{recipient_count, round_width} => "dm has "@ + decimal(recipient_count as nat) + " recipients but round width is "@ + decimal(round_width as nat),
        Error::BroadcastTooWide{recipient_count, round_width} => "broadcast has "@ + decimal(recipient_count as nat) + " recipients but round width is "@ + decimal(round_width as nat),
        Error::ZeroRoundWidth => "pending round width must not be zero"@,
        Error::MissingBroadcastRouting => "committed broadcast requires routing inputs"@,
        Error::NoBroadcastFallback{agent_id} => "broadcast author `"@ + agent_id@ + "` has no other episode participant for fallback"@,
        Error::OutOfHiveEpisode{desk_id} => "completion episode is outside desk `"@ + desk_id@ + "`"@,
        Error::OutOfHiveParticipant{agent_id} => "completion participant `"@ + agent_id@ + "` is outside the hive"@,
        Error::StaleCommittedEvent{sequence} => "stale committed event at sequence "@ + decimal(sequence.0 as nat),
        Error::DuplicateCommittedSequence{sequence} => "sequence "@ + decimal(sequence.0 as nat) + " is already committed to another event"@,
        Error::InvalidReceiptSequence{stored, event} => "receipt key "@ + decimal(stored.0 as nat) + " does not match event sequence "@ + decimal(event.0 as nat),
        Error::InvalidStateRevision{revision, receipt_count} => "driver state revision "@ + decimal(revision as nat) + " does not match "@ + decimal(receipt_count as nat) + " receipts"@,
        Error::InvalidFreshnessFloor{stored, derived} => "driver freshness floor "@ + decimal(stored.0 as nat) + " does not match derived floor "@ + decimal(derived.0 as nat),
        Error::StateRevisionOverflow => "driver state revision overflow"@,
        Error::StaleRound{round_revision, state_revision} => "pending round revision "@ + decimal(round_revision as nat) + " is stale for state revision "@ + decimal(state_revision as nat),
        Error::MismatchedRound{round_revision, state_revision} => "pending round revision "@ + decimal(round_revision as nat) + " does not match state revision "@ + decimal(state_revision as nat),
        Error::PartialRound{expected, received} => "committed round is partial: expected "@ + decimal(expected as nat) + ", received "@ + decimal(received as nat),
        Error::UnexpectedRoundAuthor{agent_id} => "committed round includes unproposed agent `"@ + agent_id@ + "`"@,
        Error::MismatchedDeskRoutingRequest{field} => "desk routing request `"@ + field@ + "` does not match the hive graph"@,
        Error::AwaitingReply{agent_id, waiting_on} => "participant `"@ + agent_id@ + "` is still waiting on "@ + quoted_list(id_views(waiting_on@)) + " and may not complete"@,
        Error::UndeliveredAssignment{agent_id, assigned_at, delivered_through} => "participant `"@ + agent_id@ + "` was assigned at "@ + decimal(assigned_at.0 as nat) + " but delivered only through "@ + decimal(delivered_through.0 as nat),
        Error::BudgetSpent{agent_id, assigned_at} => "participant `"@ + agent_id@ + "` has spent its broadcast budget for the assignment at "@ + decimal(assigned_at.0 as nat),
        Error::ZeroQueueDepth => "handoff queue depth must not be zero"@,
        Error::Completion(c) => completion_text(c),
    }
}

fn completion_message(e: &CompletionError) -> (r: String)
    ensures
        r@ == completion_text(*e),
{
    match e {
            CompletionError::NoCompletionParticipants => {
                let mut out = String::new();
                out.append("a completion episode needs at least one participant");
                out
            },
            CompletionError::InvalidCompletionParticipant => {
                let mut out = String::new();
                out.append("a completion participant id is blank, or no recipient was named");
                out
            },
            CompletionError::DuplicateCompletionParticipant{agent_id} => {
                let mut out = String::new();
                out.append("completion participant `");
                out.append(agent_id.as_str());
                out.append("` appears more than once");
                out
            },
            CompletionError::UnknownCompletionParticipant{agent_id} => {
                let mut out = String::new();
                out.append("`");
                out.append(agent_id.as_str());
                out.append("` is not a participant of this episode");
                out
            },
            CompletionError::NoOpenAssignment{agent_id} => {
                let mut out = String::new();
                out.append("`");
                out.append(agent_id.as_str());
                out.append("` has no open assignment to complete");
                out
            },
            CompletionError::StaleCompletionEvent{agent_id, sequence} => {
                let mut out = String::new();
                out.append("event at sequence ");
                out.append(decimal_string(sequence.0).as_str());
                out.append(" from `");
                out.append(agent_id.as_str());
                out.append("` does not advance its assignment");
                out
            },
            CompletionError::AssignmentWhileOpen{agent_id, assigned_at} => {
                let mut out = String::new();
                out.append("`");
                out.append(agent_id.as_str());
                out.append("` still holds the assignment made at ");
                out.append(decimal_string(assigned_at.0).as_str());
                out
            },
    }
}

impl Error {
    /// The refusal in words.
    pub fn message(&self) -> (r: String)
        ensures
            r@ == error_text(*self),
    {
        match self {
            Error::BlankCanonicalId{collection} => {
                let mut out = String::new();
                out.append(collection.as_str());
                out.append(" contains a blank canonical id");
                out
            },
            Error::ReservedCanonicalId{collection} => {
                let mut out = String::new();
                out.append(collection.as_str());
                out.append(" contains reserved canonical id `none`");
                out
            },
            Error::EmptyMembership{desk_id} => {
                let mut out = String::new();
                out.append("desk `");
                out.append(desk_id.as_str());
                out.append("` has no members");
                out
            },
            Error::DuplicateMemberId{agent_id} => {
                let mut out = String::new();
                out.append("desk member `");
                out.append(agent_id.as_str());
                out.append("` appears more than once");
                out
            },
            Error::DuplicateCandidateId{agent_id} => {
                let mut out = String::new();
                out.append("route candidate `");
                out.append(agent_id.as_str());
                out.append("` appears more than once");
                out
            },
            Error::DuplicateBindingId{agent_id} => {
                let mut out = String::new();
                out.append("agent binding `");
                out.append(agent_id.as_str());
                out.append("` appears more than once");
                out
            },
            Error::MembershipMismatch{collection, ..} => {
                let mut out = String::new();
                out.append(collection.as_str());
                out.append(" ids do not equal desk membership");
                out
            },
            Error::UnknownBoundAgent{agent_id} => {
                let mut out = String::new();
                out.append("unknown bound agent `");
                out.append(agent_id.as_str());
                out.append("`");
                out
            },
            Error::BroadcastIncludesAuthor{agent_id} => {
                let mut out = String::new();
                out.append("broadcast route includes its author `");
                out.append(agent_id.as_str());
                out.append("`");
                out
            },
            Error::UnknownDmSender{agent_id} => {
                let mut out = String::new();
                out.append("dm sender `");
                out.append(agent_id.as_str());
                out.append("` is not a member of the desk");
                out
            },
            Error::UnknownDmRecipient{agent_id} => {
                let mut out = String::new();
                out.append("dm recipient `");
                out.append(agent_id.as_str());
                out.append("` is not a member of the desk");
                out
            },
            Error::EmptyDmRecipients => {
                let mut out = String::new();
                out.append("dm must name at least one recipient");
                out
            },
            Error::DuplicateDmRecipient{agent_id} => {
                let mut out = String::new();
                out.append("dm recipient `");
                out.append(agent_id.as_str());
                out.append("` appears more than once");
                out
            },
            Error::DmTooWide{recipient_count, round_width} => {
                let mut out = String::new();
                out.append("dm has ");
                out.append(decimal_string(*recipient_count as u64).as_str());
                out.append(" recipients but round width is ");
                out.append(decimal_string(*round_width as u64).as_str());
                out
            },
            Error::BroadcastTooWide{recipient_count, round_width} => {
                let mut out = String::new();
                out.append("broadcast has ");
                out.append(decimal_string(*recipient_count as u64).as_str());
                out.append(" recipients but round width is ");
                out.append(decimal_string(*round_width as u64).as_str());
                out
            },
            Error::ZeroRoundWidth => {
                let mut out = String::new();
                out.append("pending round width must not be zero");
                out
            },
            Error::MissingBroadcastRouting => {
                let mut out = String::new();
                out.append("committed broadcast requires routing inputs");
                out
            },
            Error::NoBroadcastFallback{agent_id} => {
                let mut out = String::new();
                out.append("broadcast author `");
                out.append(agent_id.as_str());
                out.append("` has no other episode participant for fallback");
                out
            },
            Error::OutOfHiveEpisode{desk_id} => {
                let mut out = String::new();
                out.append("completion episode is outside desk `");
                out.append(desk_id.as_str());
                out.append("`");
                out
            },
            Error::OutOfHiveParticipant{agent_id} => {
                let mut out = String::new();
                out.append("completion participant `");
                out.append(agent_id.as_str());
                out.append("` is outside the hive");
                out
            },
            Error::StaleCommittedEvent{sequence} => {
                let mut out = String::new();
                out.append("stale committed event at sequence ");
                out.append(decimal_string(sequence.0).as_str());
                out
            },
            Error::DuplicateCommittedSequence{sequence} => {
                let mut out = String::new();
                out.append("sequence ");
                out.append(decimal_string(sequence.0).as_str());
                out.append(" is already committed to another event");
                out
            },
            Error::InvalidReceiptSequence{stored, event} => {
                let mut out = String::new();
                out.append("receipt key ");
                out.append(decimal_string(stored.0).as_str());
                out.append(" does not match event sequence ");
                out.append(decimal_string(event.0).as_str());
                out
            },
            Error::InvalidStateRevision{revision, receipt_count} => {
                let mut out = String::new();
                out.append("driver state revision ");
                out.append(decimal_string(*revision).as_str());
                out.append(" does not match ");
                out.append(decimal_string(*receipt_count as u64).as_str());
                out.append(" receipts");
                out
            },
            Error::InvalidFreshnessFloor{stored, derived} => {
                let mut out = String::new();
                out.append("driver freshness floor ");
                out.append(decimal_string(stored.0).as_str());
                out.append(" does not match derived floor ");
                out.append(decimal_string(derived.0).as_str());
                out
            },
            Error::StateRevisionOverflow => {
                let mut out = String::new();
                out.append("driver state revision overflow");
                out
            },
            Error::StaleRound{round_revision, state_revision} => {
                let mut out = String::new();
                out.append("pending round revision ");
                out.append(decimal_string(*round_revision).as_str());
                out.append(" is stale for state revision ");
                out.append(decimal_string(*state_revision).as_str());
                out
            },
            Error::MismatchedRound{round_revision, state_revision} => {
                let mut out = String::new();
                out.append("pending round revision ");
                out.append(decimal_string(*round_revision).as_str());
                out.append(" does not match state revision ");
                out.append(decimal_string(*state_revision).as_str());
                out
            },
            Error::PartialRound{expected, received} => {
                let mut out = String::new();
                out.append("committed round is partial: expected ");
                out.append(decimal_string(*expected as u64).as_str());
                out.append(", received ");
                out.append(decimal_string(*received as u64).as_str());
                out
            },
            Error::UnexpectedRoundAuthor{agent_id} => {
                let mut out = String::new();
                out.append("committed round includes unproposed agent `");
                out.append(agent_id.as_str());
                out.append("`");
                out
            },
            Error::MismatchedDeskRoutingRequest{field} => {
                let mut out = String::new();
                out.append("desk routing request `");
                out.append(field.as_str());
                out.append("` does not match the hive graph");
                out
            },
            Error::AwaitingReply{agent_id, waiting_on} => {
                let mut out = String::new();
                out.append("participant `");
                out.append(agent_id.as_str());
                out.append("` is still waiting on ");
                out.append(quoted(&waiting_on).as_str());
                out.append(" and may not complete");
                out
            },
            Error::UndeliveredAssignment{agent_id, assigned_at, delivered_through} => {
                let mut out = String::new();
                out.append("participant `");
                out.append(agent_id.as_str());
                out.append("` was assigned at ");
                out.append(decimal_string(assigned_at.0).as_str());
                out.append(" but delivered only through ");
                out.append(decimal_string(delivered_through.0).as_str());
                out
            },
            Error::BudgetSpent{agent_id, assigned_at} => {
                let mut out = String::new();
                out.append("participant `");
                out.append(agent_id.as_str());
                out.append("` has spent its broadcast budget for the assignment at ");
                out.append(decimal_string(assigned_at.0).as_str());
                out
            },
            Error::ZeroQueueDepth => {
                let mut out = String::new();
                out.append("handoff queue depth must not be zero");
                out
            },
            Error::Completion(c) => completion_message(c),
        }
    }
}

} // verus!
