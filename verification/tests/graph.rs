//! Graph contract tests.

use tinyhivemind_verified::completion::CompletionEpisodeState;
use tinyhivemind_verified::driver::setup::CompletionDriver;
use tinyhivemind_verified::error::Error;
use tinyhivemind_verified::graph::{AgentBinding, BoundAgent, HiveGraph, OpenHumanHive};
use tinyhivemind_verified::routing::{
    ConversationKind, Desk, MessageRoute, RouteCandidate, RoutingPlan, RoutingPolicy,
    RoutingSource,
};
use tinyhivemind_verified::types::{Conversation, Sequence};

/// A host's own seat: the driver stores it and hands it back.
#[derive(Clone, Debug, PartialEq)]
struct Seat {
    runtime_id: String,
}

impl BoundAgent for Seat {
    fn runtime_id(&self) -> &str {
        &self.runtime_id
    }
}

const RUNTIME_IDS: [&str; 3] = ["runtime-one", "runtime-two", "runtime-three"];

fn agent(index: usize) -> Seat {
    Seat {
        runtime_id: RUNTIME_IDS[index].into(),
    }
}

fn desk(members: &[&str]) -> Desk {
    Desk {
        id: "engineering".into(),
        name: "Engineering".into(),
        description: Some("ship reliable software".into()),
        members: members.iter().map(|id| (*id).into()).collect(),
    }
}

fn candidate(id: &str) -> RouteCandidate {
    RouteCandidate {
        id: id.into(),
        label: id.into(),
        role: None,
        description: None,
        capabilities: Vec::new(),
        learned_topics: Vec::new(),
        available: true,
    }
}

fn bindings(ids: &[&str]) -> Vec<AgentBinding<Seat>> {
    ids.iter()
        .enumerate()
        .map(|(index, id)| AgentBinding::new((*id).into(), agent(index)))
        .collect()
}

fn hive(ids: &[&str]) -> OpenHumanHive<Seat> {
    OpenHumanHive::new(
        HiveGraph::new(desk(ids), ids.iter().map(|id| candidate(id)).collect()),
        bindings(ids),
    )
    .expect("fixture hive validates")
}

#[test]
fn rejects_an_empty_desk() {
    let result = OpenHumanHive::<Seat>::new(HiveGraph::new(desk(&[]), Vec::new()), Vec::new());
    assert!(matches!(result, Err(Error::EmptyMembership { .. })));
}

#[test]
fn rejects_duplicate_and_mismatched_candidate_ids_before_bindings() {
    let graph = HiveGraph::new(desk(&["one", "two"]), vec![candidate("one"), candidate("one")]);
    let result = OpenHumanHive::<Seat>::new(graph, Vec::new());
    assert!(matches!(
        result,
        Err(Error::DuplicateCandidateId { ref agent_id }) if agent_id == "one"
    ));
}

#[test]
fn rejects_duplicate_member_and_binding_ids() {
    let duplicate_member = OpenHumanHive::new(
        HiveGraph::new(desk(&["one", "one"]), vec![candidate("one"), candidate("one")]),
        vec![
            AgentBinding::new("one".into(), agent(0)),
            AgentBinding::new("one".into(), agent(0)),
        ],
    );
    assert!(matches!(
        duplicate_member,
        Err(Error::DuplicateMemberId { ref agent_id }) if agent_id == "one"
    ));

    let duplicate_binding = OpenHumanHive::new(
        HiveGraph::new(desk(&["one", "two"]), vec![candidate("one"), candidate("two")]),
        vec![
            AgentBinding::new("one".into(), agent(0)),
            AgentBinding::new("one".into(), agent(1)),
        ],
    );
    assert!(matches!(
        duplicate_binding,
        Err(Error::DuplicateBindingId { ref agent_id }) if agent_id == "one"
    ));
}

#[test]
fn requires_candidate_and_binding_ids_to_exactly_equal_membership() {
    let missing_candidate = OpenHumanHive::new(
        HiveGraph::new(desk(&["one", "two"]), vec![candidate("one")]),
        bindings(&["one", "two"]),
    );
    assert!(matches!(
        missing_candidate,
        Err(Error::MembershipMismatch {
            ref collection,
            ref missing,
            ref outsiders,
        }) if collection == "candidates" && missing == &["two"] && outsiders.is_empty()
    ));

    let outsider_binding = OpenHumanHive::new(
        HiveGraph::new(desk(&["one", "two"]), vec![candidate("one"), candidate("two")]),
        vec![
            AgentBinding::new("one".into(), agent(0)),
            AgentBinding::new("outsider".into(), agent(1)),
        ],
    );
    assert!(matches!(
        outsider_binding,
        Err(Error::MembershipMismatch {
            ref collection,
            ref missing,
            ref outsiders,
        }) if collection == "bindings" && missing == &["two"] && outsiders == &["outsider"]
    ));
}

#[test]
fn rejects_blank_and_reserved_ids_in_every_canonical_collection() {
    for invalid in ["", "   "] {
        let member = OpenHumanHive::new(
            HiveGraph::new(desk(&[invalid]), vec![candidate(invalid)]),
            vec![AgentBinding::new(invalid.into(), agent(0))],
        );
        assert!(matches!(
            member,
            Err(Error::BlankCanonicalId { ref collection }) if collection == "members"
        ));

        let route_candidate = OpenHumanHive::new(
            HiveGraph::new(desk(&["one"]), vec![candidate(invalid)]),
            bindings(&["one"]),
        );
        assert!(matches!(
            route_candidate,
            Err(Error::BlankCanonicalId { ref collection }) if collection == "candidates"
        ));

        let binding = OpenHumanHive::new(
            HiveGraph::new(desk(&["one"]), vec![candidate("one")]),
            vec![AgentBinding::new(invalid.into(), agent(0))],
        );
        assert!(matches!(
            binding,
            Err(Error::BlankCanonicalId { ref collection }) if collection == "bindings"
        ));
    }

    for (expected, result) in [
        (
            "members",
            OpenHumanHive::new(
                HiveGraph::new(desk(&["none"]), vec![candidate("none")]),
                vec![AgentBinding::new("none".into(), agent(0))],
            ),
        ),
        (
            "candidates",
            OpenHumanHive::new(
                HiveGraph::new(desk(&["one"]), vec![candidate("none")]),
                bindings(&["one"]),
            ),
        ),
        (
            "bindings",
            OpenHumanHive::new(
                HiveGraph::new(desk(&["one"]), vec![candidate("one")]),
                vec![AgentBinding::new("none".into(), agent(0))],
            ),
        ),
    ] {
        assert!(matches!(
            result,
            Err(Error::ReservedCanonicalId { ref collection }) if collection == expected
        ));
    }
}

#[test]
fn canonical_ids_are_independent_of_runtime_ids_and_handles_can_span_hives() {
    let shared = agent(0);
    let first = OpenHumanHive::new(
        HiveGraph::new(desk(&["planner"]), vec![candidate("planner")]),
        vec![AgentBinding::new("planner".into(), shared.clone())],
    )
    .expect("runtime id mismatch is permitted");
    let second = OpenHumanHive::new(
        HiveGraph::new(desk(&["checker"]), vec![candidate("checker")]),
        vec![AgentBinding::new("checker".into(), shared)],
    )
    .expect("a cloned handle may join another hive");

    assert_eq!(
        first.binding("planner").expect("binding").runtime_agent_id(),
        "runtime-one"
    );
    assert_eq!(
        second.binding("checker").expect("binding").runtime_agent_id(),
        "runtime-one"
    );
}

#[test]
fn resolves_routes_and_keeps_dms_private_to_the_hive() {
    let hive = hive(&["one", "two"]);
    let plan = RoutingPlan::Fallback {
        responder_id: "two".into(),
    };
    let resolved = hive.resolve_plan(&plan).expect("member route resolves");
    assert_eq!(resolved[0].hive_agent_id, "two");

    let route = hive
        .resolve_dm("one", &vec!["two".into()], 1)
        .expect("member DM resolves");
    assert_eq!(
        route,
        MessageRoute::desk_aside(vec!["two".into()], 1).expect("bounded aside")
    );
    assert!(matches!(
        hive.resolve_dm("one", &vec!["outsider".into()], 1),
        Err(Error::UnknownDmRecipient { .. })
    ));
    assert!(matches!(
        hive.resolve_dm("outsider", &vec!["two".into()], 1),
        Err(Error::UnknownDmSender { .. })
    ));
}

#[test]
fn rejects_invalid_private_recipient_sets() {
    let hive = hive(&["one", "two"]);
    assert!(matches!(
        hive.resolve_dm("one", &vec![], 1),
        Err(Error::EmptyDmRecipients)
    ));
    assert!(matches!(
        hive.resolve_dm("one", &vec!["two".into(), "two".into()], 2),
        Err(Error::DuplicateDmRecipient { .. })
    ));
    assert!(matches!(
        hive.resolve_dm("one", &vec!["two".into()], 0),
        Err(Error::DmTooWide { .. })
    ));
}

fn policy() -> RoutingPolicy {
    RoutingPolicy {
        minimum_confidence: 500_000,
        high_impact_minimum_confidence: 500_000,
        clarification_threshold: 500_000,
        high_impact_threshold: 500_000,
        round_width: 1,
        choice_option_limit: 3,
    }
}

#[test]
fn route_desk_rejects_requests_outside_the_hive_graph_without_router_calls() {
    let hive = hive(&["one", "two"]);

    let mut cases = Vec::new();
    let mut wrong_id = hive.desk_request("help".into(), vec![], None, 1, policy());
    wrong_id.conversation.id = "another-desk".into();
    cases.push(wrong_id);
    let mut wrong_kind = hive.desk_request("help".into(), vec![], None, 1, policy());
    wrong_kind.conversation.kind = ConversationKind::Direct;
    cases.push(wrong_kind);
    let mut wrong_source = hive.desk_request("help".into(), vec![], None, 1, policy());
    wrong_source.source = RoutingSource::AgentBroadcast {
        author_id: "one".into(),
    };
    cases.push(wrong_source);
    let mut wrong_candidates = hive.desk_request("help".into(), vec![], None, 1, policy());
    wrong_candidates.candidates.swap(0, 1);
    cases.push(wrong_candidates);
    let mut wrong_availability = hive.desk_request("help".into(), vec![], None, 1, policy());
    wrong_availability.candidates[0].available = false;
    cases.push(wrong_availability);

    for request in cases {
        assert!(matches!(
            hive.route_desk(&request, None, "one"),
            Err(Error::MismatchedDeskRoutingRequest { .. })
        ));
    }
    let request = hive.desk_request("help".into(), vec![], None, 1, policy());
    for (explicit, fallback) in [(Some("outsider"), "one"), (None, "outsider")] {
        assert!(matches!(
            hive.route_desk(&request, explicit, fallback),
            Err(Error::UnknownBoundAgent { .. })
        ));
    }
    assert_eq!(hive.route_desk(&request, Some("two"), "one"), Ok(()));
}

#[test]
fn a_hive_binds_any_handle_that_names_its_runtime_id() {
    let graph = HiveGraph::new(
        Desk {
            id: "engineering".into(),
            name: "Engineering".into(),
            description: None,
            members: vec!["lead".into(), "solver".into()],
        },
        ["lead", "solver"].into_iter().map(candidate).collect(),
    );
    let hive = OpenHumanHive::new(
        graph,
        ["lead", "solver"]
            .into_iter()
            .map(|id| {
                AgentBinding::new(
                    id.into(),
                    Seat {
                        runtime_id: format!("{id}-raw"),
                    },
                )
            })
            .collect(),
    )
    .expect("members, candidates and bindings agree");
    assert_eq!(
        hive.binding("lead").map(AgentBinding::runtime_agent_id),
        Some("lead-raw")
    );
    let episode = CompletionEpisodeState::opened(
        Conversation {
            desk_id: "engineering".into(),
            desk_name: "Engineering".into(),
            thread_root: None,
        },
        Sequence(0),
        &["lead", "solver"],
    )
    .expect("opens");
    let driver = CompletionDriver::new(&hive, 2).expect("width");
    let state = driver.start(episode).expect("starts");
    let round = driver.pending_round(&state).expect("a round");
    let handed_back: Vec<&str> = round
        .agents()
        .iter()
        .map(|pending| pending.agent.runtime_id.as_str())
        .collect();
    assert_eq!(handed_back, vec!["lead-raw", "solver-raw"]);
}

#[test]
fn a_bound_agent_is_found_only_for_a_member() {
    let hive = hive(&["one", "two"]);
    assert_eq!(hive.bound_agent("two"), Some(&agent(1)));
    assert_eq!(hive.bound_agent("three"), None);
    assert_eq!(hive.members(), &vec!["one".to_string(), "two".to_string()]);
}

#[test]
fn a_pending_agent_copies_the_handle_it_points_at() {
    let hive = hive(&["one", "two"]);
    let episode = CompletionEpisodeState::opened(
        Conversation {
            desk_id: "engineering".into(),
            desk_name: "Engineering".into(),
            thread_root: None,
        },
        Sequence(0),
        &["two"],
    )
    .expect("opens");
    let driver = CompletionDriver::new(&hive, 1).expect("width");
    let state = driver.start(episode).expect("starts");
    let round = driver.pending_round(&state).expect("a round");
    let first = round.agents()[0].clone();
    assert_eq!(first.hive_agent_id, "two");
    assert_eq!(first.agent, &agent(1));
    assert_eq!(round.state_revision(), 0);
    assert!(!round.is_empty());
}
