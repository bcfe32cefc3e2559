//! The ledger's ordering rules: drain after completion, assign at the
//! completion's sequence, hold completion on an open question, admit a budget
//! before routing, and report the episode over only when quiescent.

use tinyhivemind_verified::completion::CompletionEpisodeState;
use tinyhivemind_verified::driver::fold::{BroadcastRouting, Folded, RouteCall};
use tinyhivemind_verified::driver::receipts::CommittedUtterance;
use tinyhivemind_verified::driver::round::RoundFold;
use tinyhivemind_verified::driver::setup::CompletionDriver;
use tinyhivemind_verified::driver::state::{DriverState, HostAction, Transition};
use tinyhivemind_verified::error::Error;
use tinyhivemind_verified::graph::{AgentBinding, BoundAgent, HiveGraph, OpenHumanHive};
use tinyhivemind_verified::routing::{Desk, RouteCandidate, RoutingPlan, RoutingPolicy};
use tinyhivemind_verified::types::{Conversation, Sequence, Utterance};

#[derive(Clone, Debug, PartialEq)]
struct Seat {
    runtime_id: String,
}

impl BoundAgent for Seat {
    fn runtime_id(&self) -> &str {
        &self.runtime_id
    }
}

fn candidate(id: &str) -> RouteCandidate {
    RouteCandidate {
        id: id.into(),
        label: id.into(),
        role: None,
        description: None,
        capabilities: Vec::new(),
        learned_topics: Vec::new(),
        available: true,
    }
}

fn hive() -> OpenHumanHive<Seat> {
    let ids = ["one", "two", "three", "four"];
    OpenHumanHive::new(
        HiveGraph::new(
            Desk {
                id: "engineering".into(),
                name: "Engineering".into(),
                description: None,
                members: ids.iter().map(|id| (*id).into()).collect(),
            },
            ids.iter().map(|id| candidate(id)).collect(),
        ),
        ids.iter()
            .map(|id| {
                AgentBinding::new(
                    (*id).into(),
                    Seat {
                        runtime_id: format!("runtime-{id}"),
                    },
                )
            })
            .collect(),
    )
    .expect("fixture hive validates")
}

fn episode(participants: &[&str]) -> CompletionEpisodeState {
    CompletionEpisodeState::opened(
        Conversation {
            desk_id: "engineering".into(),
            desk_name: "Engineering".into(),
            thread_root: None,
        },
        Sequence(0),
        participants,
    )
    .expect("fixture episode opens")
}

fn committed(author_id: &str, sequence: u64, utterance: Utterance) -> CommittedUtterance {
    CommittedUtterance {
        author_id: author_id.into(),
        sequence: Sequence(sequence),
        utterance,
    }
}

fn routing() -> BroadcastRouting {
    BroadcastRouting {
        policy: RoutingPolicy {
            minimum_confidence: 600_000,
            high_impact_minimum_confidence: 800_000,
            clarification_threshold: 700_000,
            high_impact_threshold: 700_000,
            round_width: 4,
            choice_option_limit: 8,
        },
        roster_version: 1,
        thread_context: Vec::new(),
    }
}

/// A router that places every broadcast with the first candidate, alone,
/// or, asked for clarification, places it with nobody.
#[derive(Debug, Default)]
struct Router {
    clarify: bool,
    calls: usize,
}

impl Router {
    fn place(&mut self, call: &RouteCall) -> RoutingPlan {
        self.calls += 1;
        if self.clarify {
            return RoutingPlan::Clarify;
        }
        let first = call
            .request
            .candidates
            .iter()
            .find(|candidate| candidate.available)
            .expect("an eligible candidate");
        RoutingPlan::One {
            responder_id: first.id.clone(),
        }
    }
}

fn apply(
    driver: &CompletionDriver<'_, Seat>,
    state: &DriverState,
    author: &str,
    sequence: u64,
    utterance: Utterance,
    router: &mut Router,
) -> Result<Transition, Error> {
    let event = committed(author, sequence, utterance);
    match driver.apply_committed(state, event.clone(), Some(&routing()))? {
        Folded::Done(transition) => Ok(transition),
        Folded::Route(call) => {
            let plan = router.place(&call);
            driver.apply_routed(state, event, plan)
        }
    }
}

fn broadcast(message: &str) -> Utterance {
    Utterance::Broadcast {
        message: message.into(),
    }
}

fn complete() -> Utterance {
    Utterance::CompleteEpisode {
        message: "done".into(),
    }
}

fn post() -> Utterance {
    Utterance::Post {
        message: "note".into(),
    }
}

fn ask(to: &str) -> Utterance {
    Utterance::Ask {
        to: to.into(),
        message: "is it tight?".into(),
    }
}

/// The host's cross-post: the conversation's conclusion, as a private message
/// from the seat asked to the asker.
fn concluded(to: &str) -> Utterance {
    Utterance::Dm {
        to: vec![to.into()],
        message: "we concluded it is tight".into(),
    }
}

fn open_at(state: &DriverState, id: &str) -> Option<Sequence> {
    state
        .episode()
        .participants
        .iter()
        .find(|participant| participant.agent_id == id)
        .and_then(|participant| participant.open())
        .map(|record| record.assigned_at)
}

fn round_ids(driver: &CompletionDriver<'_, Seat>, state: &DriverState) -> Vec<String> {
    driver
        .pending_round(state)
        .expect("round")
        .agents()
        .iter()
        .map(|pending| pending.hive_agent_id.to_owned())
        .collect()
}

#[test]
fn a_completion_drains_one_queued_handoff_and_assigns_it_at_the_completion() {
    let hive = hive();
    let driver = CompletionDriver::new(&hive, 4).expect("driver");
    let mut router = Router::default();
    let state = driver.start(episode(&["one", "two"])).expect("state");
    let after_broadcast = apply(&driver, &state, "one", 1, broadcast("take this"), &mut router)
        .expect("broadcast")
        .state;
    assert_eq!(after_broadcast.ledger().queue_len("two"), 1);
    assert_eq!(
        open_at(&after_broadcast, "two"),
        Some(Sequence(0)),
        "a working recipient keeps the assignment it holds",
    );

    let transition = apply(&driver, &after_broadcast, "two", 2, complete(), &mut router)
        .expect("completion drains");
    assert_eq!(transition.state.ledger().queue_len("two"), 0);
    let assignments = &transition.state.episode().participants[1].assignments;
    assert_eq!(assignments.len(), 2, "the old record is kept, a new one appended");
    assert_eq!(assignments[0].completed_at, Some(Sequence(2)));
    assert_eq!(
        assignments[1].assigned_at,
        Sequence(2),
        "assigned at the completion that freed the seat, not the broadcast's origin",
    );
    assert!(matches!(
        transition.actions.as_slice(),
        [HostAction::DeliverHandoff { agent_id, handoff }]
            if agent_id == "two" && handoff.from == "one" && handoff.origin == Sequence(1)
    ));
    assert!(!transition.state.quiescent(), "two holds work again");
}

#[test]
fn a_completion_with_nothing_queued_hands_nothing_back() {
    let hive = hive();
    let driver = CompletionDriver::new(&hive, 4).expect("driver");
    let mut router = Router::default();
    let state = driver.start(episode(&["one", "two"])).expect("state");
    let transition = apply(&driver, &state, "one", 1, complete(), &mut router).expect("completes");
    assert!(transition.actions.is_empty());
    assert_eq!(transition.state.episode().settled(), 1);
}

#[test]
fn an_ask_holds_the_askers_completion_until_the_conversation_concludes() {
    let hive = hive();
    let driver = CompletionDriver::new(&hive, 4).expect("driver");
    let mut router = Router::default();
    let state = driver.start(episode(&["one", "two"])).expect("state");
    let asked = apply(&driver, &state, "one", 1, ask("two"), &mut router)
        .expect("ask")
        .state;
    assert_eq!(
        asked.ledger().awaiting("one").map(|w| w.sorted_keys()),
        Some(vec!["two".to_string()]),
    );
    let refused = apply(&driver, &asked, "one", 2, complete(), &mut router);
    assert!(
        matches!(&refused, Err(Error::AwaitingReply { agent_id, waiting_on })
            if agent_id == "one" && waiting_on == &["two".to_string()]),
        "{refused:?}",
    );
    let still = apply(&driver, &asked, "two", 3, post(), &mut router)
        .expect("post")
        .state;
    assert!(still.ledger().awaiting("one").is_some());
    let concluded_now = apply(&driver, &still, "two", 4, concluded("one"), &mut router)
        .expect("cross-post")
        .state;
    assert!(
        concluded_now.ledger().awaiting("one").is_none(),
        "the private message to the asker is the conclusion",
    );
    apply(&driver, &concluded_now, "one", 5, complete(), &mut router).expect("now it may finish");
}

#[test]
fn a_settled_seat_that_was_asked_is_not_woken_on_the_desk() {
    let hive = hive();
    let driver = CompletionDriver::new(&hive, 4).expect("driver");
    let mut router = Router::default();
    let state = driver.start(episode(&["one", "two"])).expect("state");
    let two_done = apply(&driver, &state, "two", 1, complete(), &mut router)
        .expect("two")
        .state;
    let asked = apply(&driver, &two_done, "one", 2, ask("two"), &mut router)
        .expect("ask")
        .state;
    assert_eq!(
        round_ids(&driver, &asked),
        ["one"],
        "the question opened a conversation; that is where two answers, not the desk",
    );
    let answered = apply(&driver, &asked, "two", 3, concluded("one"), &mut router)
        .expect("cross-post")
        .state;
    assert_eq!(round_ids(&driver, &answered), ["one"]);
}

#[test]
fn a_full_queue_returns_the_work_to_its_author() {
    let hive = hive();
    let driver = CompletionDriver::new(&hive, 4)
        .expect("driver")
        .with_queue_depth(1)
        .expect("depth");
    let mut router = Router::default();
    let state = driver.start(episode(&["one", "two"])).expect("state");
    let first = apply(&driver, &state, "one", 1, broadcast("a"), &mut router)
        .expect("first")
        .state;
    assert_eq!(first.ledger().queue_len("two"), 1);
    assert_eq!(
        first.seen().ran_for.get("one"),
        Some(&Sequence(0)),
        "one ran for what it holds"
    );
    let second = apply(&driver, &first, "one", 2, broadcast("b"), &mut router)
        .expect("second")
        .state;
    assert_eq!(second.ledger().queue_len("two"), 1, "the full queue took nothing");
    assert_eq!(
        second.seen().ran_for.get("one"),
        None,
        "nobody could take the work, so its author is owed another turn",
    );
    assert!(matches!(
        CompletionDriver::new(&hive, 4)
            .expect("driver")
            .with_queue_depth(0),
        Err(Error::ZeroQueueDepth)
    ));
}

#[test]
fn an_unplaceable_broadcast_leaves_the_work_with_an_author_owed_a_turn() {
    let hive = hive();
    let driver = CompletionDriver::new(&hive, 4).expect("driver");
    let state = driver.start(episode(&["one", "two"])).expect("state");
    let mut router = Router {
        clarify: true,
        calls: 0,
    };
    let transition = apply(&driver, &state, "one", 1, broadcast("who takes this?"), &mut router)
        .expect("an unplaceable broadcast is not an error");
    assert!(transition.actions.is_empty(), "nothing to run");
    assert_eq!(
        transition.state.seen().ran_for.get("one"),
        None,
        "the author is owed another turn for the work it still holds",
    );
    assert!(
        transition.state.episode().participants[0].is_pending(),
        "and it is not completed: the work has no owner but it",
    );
    assert!(transition.state.ledger().is_drained(), "nothing was queued either");
}

#[test]
fn a_broadcast_budget_is_admitted_before_routing() {
    let hive = hive();
    let driver = CompletionDriver::new(&hive, 4)
        .expect("driver")
        .with_broadcast_budget(Some(1));
    let mut router = Router::default();
    let state = driver.start(episode(&["one", "two"])).expect("state");
    let spent = apply(&driver, &state, "one", 1, broadcast("a"), &mut router)
        .expect("first")
        .state;
    assert_eq!(spent.ledger().charged("one", Sequence(0)), 1);
    let refused = apply(&driver, &spent, "one", 2, broadcast("b"), &mut router);
    assert!(
        matches!(&refused, Err(Error::BudgetSpent { agent_id, assigned_at })
            if agent_id == "one" && *assigned_at == Sequence(0)),
        "{refused:?}",
    );
    assert_eq!(router.calls, 1, "a refusal costs no model call");
}

#[test]
fn a_completion_is_refused_for_an_assignment_the_host_never_delivered() {
    let hive = hive();
    let driver = CompletionDriver::new(&hive, 4).expect("driver");
    let mut router = Router::default();
    let state = driver.start(episode(&["one", "two"])).expect("state");
    let queued = apply(&driver, &state, "one", 1, broadcast("a"), &mut router)
        .expect("b")
        .state;
    let mut reassigned = apply(&driver, &queued, "two", 2, complete(), &mut router)
        .expect("drains")
        .state;
    assert_eq!(open_at(&reassigned, "two"), Some(Sequence(2)));
    reassigned.delivered("two", Sequence(1));
    let refused = apply(&driver, &reassigned, "two", 3, complete(), &mut router);
    assert!(
        matches!(&refused, Err(Error::UndeliveredAssignment { assigned_at, delivered_through, .. })
            if *assigned_at == Sequence(2) && *delivered_through == Sequence(1)),
        "{refused:?}",
    );
    reassigned.delivered("two", Sequence(2));
    apply(&driver, &reassigned, "two", 3, complete(), &mut router).expect("shown, so accepted");
}

#[test]
fn delivery_reports_do_not_invalidate_a_pending_round() {
    let hive = hive();
    let driver = CompletionDriver::new(&hive, 4).expect("driver");
    let state = driver.start(episode(&["one", "two"])).expect("state");
    let round = driver.pending_round(&state).expect("round");
    let mut reported = state.copied();
    reported.delivered("one", Sequence(0));
    reported.turn_started("one");
    let events = vec![committed("one", 1, post()), committed("two", 2, post())];
    let folded = driver
        .apply_committed_round(&reported, &round, events, Some(&routing()))
        .expect("the round binds to what was committed, not to what was shown");
    assert!(matches!(folded, RoundFold::Events(ref rows) if rows.len() == 2));
}

#[test]
fn seats_that_ran_and_were_shown_everything_are_stalled_not_woken() {
    let hive = hive();
    let driver = CompletionDriver::new(&hive, 4).expect("driver");
    let mut router = Router::default();
    let state = driver.start(episode(&["one", "two"])).expect("state");
    assert_eq!(round_ids(&driver, &state), ["one", "two"], "never ran: owed");
    let ran = apply(&driver, &state, "one", 1, post(), &mut router)
        .expect("one")
        .state;
    let mut ran = apply(&driver, &ran, "two", 2, post(), &mut router)
        .expect("two")
        .state;
    assert_eq!(
        round_ids(&driver, &ran),
        ["one", "two"],
        "rows they have not been shown"
    );
    ran.delivered("one", Sequence(2));
    ran.delivered("two", Sequence(2));
    assert!(round_ids(&driver, &ran).is_empty());
    assert_eq!(ran.stalled(), ["one", "two"]);
    assert!(!ran.quiescent(), "stalled is not over");
}

#[test]
fn quiescence_is_complete_with_nothing_queued_and_nothing_awaited() {
    let hive = hive();
    let driver = CompletionDriver::new(&hive, 4).expect("driver");
    let mut router = Router::default();
    let state = driver.start(episode(&["one", "two"])).expect("state");
    assert!(!state.quiescent());
    let one = apply(&driver, &state, "one", 1, complete(), &mut router)
        .expect("one")
        .state;
    assert!(!one.quiescent());
    let both = apply(&driver, &one, "two", 2, complete(), &mut router)
        .expect("two")
        .state;
    assert!(both.quiescent());
    assert!(round_ids(&driver, &both).is_empty());
}

#[test]
fn a_completion_from_a_settled_seat_is_recorded_and_changes_nothing() {
    let hive = hive();
    let driver = CompletionDriver::new(&hive, 4).expect("driver");
    let mut router = Router::default();
    let state = driver.start(episode(&["one", "two"])).expect("state");
    let settled = apply(&driver, &state, "two", 1, complete(), &mut router)
        .expect("two")
        .state;
    assert_eq!(settled.episode().settled(), 1);
    let again = apply(&driver, &settled, "two", 2, complete(), &mut router)
        .expect("a settled seat saying it is done is already true");
    assert!(again.actions.is_empty());
    assert_eq!(again.state.episode().settled(), 1, "nothing moved");
    assert_eq!(again.state.revision(), 2, "the row is still on the record");
    assert_eq!(
        again.state.episode().participants[1].assignments.len(),
        1,
        "no record was appended"
    );
}

#[test]
fn only_a_private_message_to_the_asker_concludes_the_conversation() {
    let hive = hive();
    let driver = CompletionDriver::new(&hive, 4).expect("driver");
    let mut router = Router::default();
    let state = driver
        .start(episode(&["one", "two", "three"]))
        .expect("state");
    let asked = apply(&driver, &state, "one", 1, ask("two"), &mut router)
        .expect("ask")
        .state;
    let mut next = asked;
    for (sequence, utterance) in [
        (2, ask("one")),
        (3, broadcast("work")),
        (4, post()),
        (5, concluded("three")),
    ] {
        next = apply(&driver, &next, "two", sequence, utterance, &mut router)
            .expect("two speaks")
            .state;
        assert!(
            next.ledger().awaiting("one").is_some(),
            "a question, a handoff, a desk post, or a message to somebody else is not one's answer",
        );
    }
    let done = apply(&driver, &next, "two", 6, concluded("one"), &mut router)
        .expect("cross-post")
        .state;
    assert!(done.ledger().awaiting("one").is_none());
}

#[test]
fn a_row_from_a_seat_not_yet_shown_its_assignment_does_not_count_as_running_for_it() {
    let hive = hive();
    let driver = CompletionDriver::new(&hive, 4).expect("driver");
    let mut router = Router::default();
    let state = driver.start(episode(&["one", "two"])).expect("state");
    let mut settled = apply(&driver, &state, "two", 1, complete(), &mut router)
        .expect("two")
        .state;
    settled.delivered("two", Sequence(1));
    let assigned = apply(&driver, &settled, "one", 2, broadcast("take this"), &mut router)
        .expect("broadcast")
        .state;
    assert_eq!(open_at(&assigned, "two"), Some(Sequence(2)));
    let posted = apply(&driver, &assigned, "two", 3, post(), &mut router)
        .expect("post")
        .state;
    assert_ne!(
        posted.seen().ran_for.get("two"),
        Some(&Sequence(2)),
        "it has not run for the assignment at 2, whatever it said",
    );
    let mut shown = posted;
    shown.delivered("two", Sequence(3));
    assert!(
        round_ids(&driver, &shown).contains(&"two".to_owned()),
        "shown everything, it is still owed a turn for the work it never saw",
    );
    let refused = apply(&driver, &assigned, "two", 3, complete(), &mut router);
    assert!(
        matches!(refused, Err(Error::UndeliveredAssignment { .. })),
        "and its completion cannot close work it has not been shown",
    );
}

#[test]
fn a_host_may_say_a_seat_is_owed_another_turn() {
    let hive = hive();
    let driver = CompletionDriver::new(&hive, 4).expect("driver");
    let state = driver.start(episode(&["one", "two"])).expect("state");
    let mut ran = state.copied();
    ran.turn_started("one");
    ran.delivered("one", Sequence(0));
    assert!(
        !round_ids(&driver, &ran).contains(&"one".to_owned()),
        "ran for what it holds and shown everything: not owed",
    );
    ran.owe_turn("one");
    assert!(
        round_ids(&driver, &ran).contains(&"one".to_owned()),
        "the host said the turn did not count, so it is owed again",
    );
}

#[test]
fn a_placed_broadcast_completes_its_author() {
    let hive = hive();
    let driver = CompletionDriver::new(&hive, 4).expect("driver");
    let mut router = Router::default();
    let state = driver.start(episode(&["one", "two"])).expect("state");
    let transition = apply(&driver, &state, "one", 1, broadcast("yours"), &mut router).expect("b");
    assert!(matches!(
        transition.actions.as_slice(),
        [HostAction::RunAgents { .. }]
    ));
    assert_eq!(transition.state.episode().settled(), 1, "handing off is a finding");
    assert!(!transition.state.episode().participants[0].is_pending());
    assert_eq!(
        transition.state.ledger().queue_len("two"),
        1,
        "two was working, so it is queued"
    );
}

#[test]
fn a_broadcast_while_waiting_leaves_its_author_pending() {
    let hive = hive();
    let driver = CompletionDriver::new(&hive, 4).expect("driver");
    let mut router = Router::default();
    let state = driver.start(episode(&["one", "two"])).expect("state");
    let asked = apply(&driver, &state, "one", 1, ask("two"), &mut router)
        .expect("ask")
        .state;
    let after = apply(&driver, &asked, "one", 2, broadcast("yours"), &mut router)
        .expect("b")
        .state;
    assert!(
        after.episode().participants[0].is_pending(),
        "still waiting on two, so still open",
    );
}

#[test]
fn a_queued_handoff_drains_on_the_completing_broadcast() {
    let hive = hive();
    let driver = CompletionDriver::new(&hive, 4).expect("driver");
    let mut router = Router::default();
    let state = driver.start(episode(&["one", "two"])).expect("state");
    let queued = apply(&driver, &state, "two", 1, broadcast("for one"), &mut router)
        .expect("b")
        .state;
    assert_eq!(queued.ledger().queue_len("one"), 1);
    assert!(!queued.episode().participants[1].is_pending());
    let transition =
        apply(&driver, &queued, "one", 2, broadcast("for two"), &mut router).expect("b");
    assert!(matches!(
        transition.actions.as_slice(),
        [HostAction::RunAgents { .. }, HostAction::DeliverHandoff { agent_id, .. }] if agent_id == "one"
    ));
    assert_eq!(open_at(&transition.state, "one"), Some(Sequence(2)));
    assert_eq!(open_at(&transition.state, "two"), Some(Sequence(2)));
    assert!(!transition.state.quiescent());
}

#[test]
fn completing_by_handoff_does_not_refill_the_broadcast_budget() {
    let hive = hive();
    let driver = CompletionDriver::new(&hive, 4)
        .expect("driver")
        .with_broadcast_budget(Some(1));
    let mut router = Router::default();
    let state = driver.start(episode(&["one", "two"])).expect("state");
    let spent = apply(&driver, &state, "one", 1, broadcast("a"), &mut router)
        .expect("first")
        .state;
    assert!(
        !spent.episode().participants[0].is_pending(),
        "completed by its own handoff"
    );
    let refused = apply(&driver, &spent, "one", 2, broadcast("b"), &mut router);
    assert!(matches!(refused, Err(Error::BudgetSpent { .. })), "{refused:?}");
}

fn routed_to(
    driver: &CompletionDriver<'_, Seat>,
    state: &DriverState,
    author: &str,
    sequence: u64,
    recipient: &str,
) -> Transition {
    let event = committed(author, sequence, broadcast("take this"));
    match driver
        .apply_committed(state, event.clone(), Some(&routing()))
        .expect("routable")
    {
        Folded::Route(_) => driver
            .apply_routed(
                state,
                event,
                RoutingPlan::One {
                    responder_id: recipient.into(),
                },
            )
            .expect("placed or held"),
        Folded::Done(_) => panic!("a broadcast waits on its routing"),
    }
}

#[test]
fn a_broadcast_nobody_can_take_leaves_its_author_holding_the_work() {
    let hive = hive();
    let driver = CompletionDriver::new(&hive, 4)
        .expect("driver")
        .with_queue_depth(1)
        .expect("depth");
    let state = driver.start(episode(&["one", "two", "three"])).expect("state");
    let queued = routed_to(&driver, &state, "three", 1, "two").state;
    assert_eq!(queued.ledger().queue_len("two"), 1);
    let held = routed_to(&driver, &queued, "one", 2, "two");
    assert!(held.actions.is_empty(), "nothing runs");
    assert_eq!(held.state.ledger().queue_len("two"), 1, "no queue moved");
    assert_eq!(open_at(&held.state, "one"), Some(Sequence(0)), "the work stays with its author");
    assert!(held.state.episode().participants[0].is_pending());
    assert_eq!(held.state.seen().ran_for.get("one"), None, "owed another turn");
    assert_eq!(held.state.episode().settled(), queued.episode().settled());
}
