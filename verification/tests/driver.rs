//! Completion-driver contract tests: setup and resume, single commits,
//! routed broadcasts, and whole rounds.

use tinyhivemind_verified::completion::{CompletionEpisodeState, Error as CompletionError};
use tinyhivemind_verified::driver::fold::{BroadcastRouting, Folded, RouteCall};
use tinyhivemind_verified::driver::receipts::{CommittedUtterance, Receipt, Receipts};
use tinyhivemind_verified::driver::round::{PendingRound, RoundFold};
use tinyhivemind_verified::driver::setup::CompletionDriver;
use tinyhivemind_verified::driver::state::{open_assignment, DriverState, HostAction, Transition};
use tinyhivemind_verified::error::Error;
use tinyhivemind_verified::graph::{AgentBinding, BoundAgent, HiveGraph, OpenHumanHive};
use tinyhivemind_verified::routing::{
    route_ids, Desk, RouteCandidate, RoutingPlan, RoutingPolicy, RoutingSource,
};
use tinyhivemind_verified::types::{Conversation, Sequence, Utterance};

#[derive(Clone, Debug, PartialEq)]
struct Seat {
    runtime_id: String,
}

impl BoundAgent for Seat {
    fn runtime_id(&self) -> &str {
        &self.runtime_id
    }
}

fn candidate(id: &str) -> RouteCandidate {
    RouteCandidate {
        id: id.into(),
        label: id.into(),
        role: None,
        description: None,
        capabilities: Vec::new(),
        learned_topics: Vec::new(),
        available: true,
    }
}

fn hive() -> OpenHumanHive<Seat> {
    let ids = ["one", "two", "three", "four"];
    OpenHumanHive::new(
        HiveGraph::new(
            Desk {
                id: "engineering".into(),
                name: "Engineering".into(),
                description: None,
                members: ids.iter().map(|id| (*id).into()).collect(),
            },
            ids.iter().map(|id| candidate(id)).collect(),
        ),
        ids.iter()
            .map(|id| {
                AgentBinding::new(
                    (*id).into(),
                    Seat {
                        runtime_id: format!("runtime-{id}"),
                    },
                )
            })
            .collect(),
    )
    .expect("fixture hive validates")
}

fn episode(participants: &[&str]) -> CompletionEpisodeState {
    CompletionEpisodeState::opened(
        Conversation {
            desk_id: "engineering".into(),
            desk_name: "Engineering".into(),
            thread_root: None,
        },
        Sequence(0),
        participants,
    )
    .expect("fixture episode opens")
}

fn committed(author_id: &str, sequence: u64, utterance: Utterance) -> CommittedUtterance {
    CommittedUtterance {
        author_id: author_id.into(),
        sequence: Sequence(sequence),
        utterance,
    }
}

fn policy(round_width: usize) -> RoutingPolicy {
    RoutingPolicy {
        minimum_confidence: 600_000,
        high_impact_minimum_confidence: 800_000,
        clarification_threshold: 700_000,
        high_impact_threshold: 700_000,
        round_width,
        choice_option_limit: 8,
    }
}

fn routing(round_width: usize, roster_version: u64) -> BroadcastRouting {
    BroadcastRouting {
        policy: policy(round_width),
        roster_version,
        thread_context: Vec::new(),
    }
}

/// How the host places a broadcast the driver hands it.
#[derive(Clone, Copy, Debug, PartialEq)]
enum Placement {
    /// No router: the deterministic fallback responder takes it.
    Fallback,
    /// Every candidate the round width allows, the first as primary.
    Collaborate,
    /// Nobody is selected; the router asks for clarification.
    Clarify,
}

#[derive(Debug)]
struct Host {
    placement: Placement,
    calls: usize,
    widths: Vec<usize>,
    roster_versions: Vec<u64>,
}

impl Host {
    fn new(placement: Placement) -> Self {
        Host {
            placement,
            calls: 0,
            widths: Vec::new(),
            roster_versions: Vec::new(),
        }
    }

    fn place(&mut self, call: &RouteCall) -> RoutingPlan {
        let ids: Vec<String> = call
            .request
            .candidates
            .iter()
            .filter(|candidate| candidate.available)
            .map(|candidate| candidate.id.clone())
            .collect();
        match self.placement {
            Placement::Fallback => RoutingPlan::Fallback {
                responder_id: call.fallback_responder.clone(),
            },
            Placement::Collaborate => {
                self.calls += 1;
                self.widths.push(call.request.policy.round_width);
                self.roster_versions.push(call.request.roster_version);
                let width = call.request.policy.round_width.min(ids.len());
                RoutingPlan::Hive {
                    primary_id: ids[0].clone(),
                    invited_ids: ids[1..width].to_vec(),
                }
            }
            Placement::Clarify => {
                self.calls += 1;
                RoutingPlan::Clarify
            }
        }
    }
}

fn fold_with(
    driver: &CompletionDriver<'_, Seat>,
    state: &DriverState,
    event: CommittedUtterance,
    routing: Option<&BroadcastRouting>,
    fallback: Option<&str>,
    host: &mut Host,
) -> Result<Transition, Error> {
    match driver.apply_committed_with_fallback(state, event.clone(), routing, fallback)? {
        Folded::Done(transition) => Ok(transition),
        Folded::Route(call) => {
            let plan = host.place(&call);
            driver.apply_routed(state, event, plan)
        }
    }
}

fn fold(
    driver: &CompletionDriver<'_, Seat>,
    state: &DriverState,
    event: CommittedUtterance,
    routing: Option<&BroadcastRouting>,
    host: &mut Host,
) -> Result<Transition, Error> {
    fold_with(driver, state, event, routing, None, host)
}

fn fold_round(
    driver: &CompletionDriver<'_, Seat>,
    state: &DriverState,
    round: &PendingRound<'_, Seat>,
    events: Vec<CommittedUtterance>,
    routing: Option<&BroadcastRouting>,
    host: &mut Host,
) -> Result<Transition, Error> {
    match driver.apply_committed_round(state, round, events, routing)? {
        RoundFold::Replay(transition) => Ok(transition),
        RoundFold::Events(list) => {
            let mut current = state.copied();
            let mut actions = Vec::new();
            for row in list {
                let transition = fold_with(
                    driver,
                    &current,
                    row.event,
                    routing,
                    row.fallback.as_deref(),
                    host,
                )?;
                current = transition.state;
                actions.extend(transition.actions);
            }
            Ok(Transition {
                state: current,
                actions,
            })
        }
    }
}

fn post(from: &str, at: u64) -> CommittedUtterance {
    committed(
        from,
        at,
        Utterance::Post {
            message: format!("{from} at {at}"),
        },
    )
}

#[test]
fn deterministic_routes_preserve_the_canonical_id() {
    let plan = RoutingPlan::Fallback {
        responder_id: "solver".into(),
    };
    assert_eq!(route_ids(&plan), ["solver"]);
    let plan = RoutingPlan::Hive {
        primary_id: "lead".into(),
        invited_ids: vec!["solver".into(), "checker".into()],
    };
    assert_eq!(route_ids(&plan), ["lead", "solver", "checker"]);
    assert!(route_ids(&RoutingPlan::Clarify).is_empty());
}

#[test]
fn driver_rejects_invalid_resumed_metadata_and_routing_debug_is_informative() {
    let hive = hive();
    assert!(matches!(
        CompletionDriver::new(&hive, 0),
        Err(Error::ZeroRoundWidth)
    ));
    let driver = CompletionDriver::new(&hive, 2).expect("driver");
    let state = driver.start(episode(&["one", "two"])).expect("state");
    let routing = routing(2, 7);
    let debug = format!("{routing:?}");
    assert!(debug.contains("roster_version: 7"));

    let mut revision = state.copied();
    revision.revision = 1;
    assert!(matches!(
        driver.resume(revision),
        Err(Error::InvalidStateRevision { .. })
    ));

    let mut freshness = state.copied();
    freshness.freshness_floor = Sequence(99);
    assert!(matches!(
        driver.resume(freshness),
        Err(Error::InvalidFreshnessFloor { .. })
    ));

    let mut pending = state;
    pending.pending_order.push("outsider".into());
    assert!(matches!(
        driver.resume(pending),
        Err(Error::OutOfHiveParticipant { .. })
    ));
}

#[test]
fn pending_work_is_bounded_and_state_advances_only_after_commits() {
    let hive = hive();
    let driver = CompletionDriver::new(&hive, 2).expect("driver");
    let state = driver
        .start(episode(&["one", "two", "three"]))
        .expect("state");
    let before = state.copied();
    let pending = driver.pending_round(&state).expect("pending round");
    assert_eq!(
        pending
            .agents()
            .iter()
            .map(|agent| agent.hive_agent_id)
            .collect::<Vec<_>>(),
        ["one", "two"]
    );
    assert_eq!(state, before, "reading pending work cannot advance state");

    let mut host = Host::new(Placement::Fallback);
    let transition = fold(
        &driver,
        &state,
        committed(
            "one",
            1,
            Utterance::CompleteEpisode {
                message: "done".into(),
            },
        ),
        None,
        &mut host,
    )
    .expect("commit folds");
    assert_ne!(transition.state, state);
}

#[test]
fn resumed_serialized_state_recognizes_every_replay_without_actions_or_rerouting() {
    let hive = hive();
    let driver = CompletionDriver::new(&hive, 2).expect("driver");
    let mut host = Host::new(Placement::Collaborate);
    let routing = routing(4, 7);
    let events = vec![
        committed(
            "one",
            1,
            Utterance::Post {
                message: "visible".into(),
            },
        ),
        committed(
            "one",
            2,
            Utterance::Dm {
                to: vec!["two".into()],
                message: "private".into(),
            },
        ),
        committed(
            "one",
            3,
            Utterance::Broadcast {
                message: "help".into(),
            },
        ),
        committed(
            "one",
            4,
            Utterance::CompleteEpisode {
                message: "done".into(),
            },
        ),
    ];
    let mut state = driver
        .start(episode(&["one", "two", "three", "four"]))
        .expect("state");
    for event in &events {
        state = fold(&driver, &state, event.clone(), Some(&routing), &mut host)
            .expect("commit")
            .state;
    }
    assert_eq!(host.calls, 1);

    let restored = driver.resume(state.copied()).expect("stored state resumes");
    assert_eq!(restored, state);
    for event in events {
        let replay = fold(&driver, &restored, event, Some(&routing), &mut host)
            .expect("exact replay");
        assert_eq!(replay.state, restored);
        assert!(
            replay.actions.is_empty(),
            "replay cannot emit a duplicate action"
        );
    }
    assert_eq!(host.calls, 1, "broadcast replay must not reroute");
}

#[test]
fn broadcast_routing_is_clamped_to_the_driver_bound_in_deterministic_order() {
    let hive = hive();
    let driver = CompletionDriver::new(&hive, 2).expect("driver");
    let mut host = Host::new(Placement::Collaborate);
    let state = driver
        .start(episode(&["one", "two", "three", "four"]))
        .expect("state");
    let transition = fold(
        &driver,
        &state,
        committed(
            "one",
            1,
            Utterance::Broadcast {
                message: "help".into(),
            },
        ),
        Some(&routing(4, 7)),
        &mut host,
    )
    .expect("broadcast folds");
    assert_eq!(host.widths, [2]);
    assert_eq!(host.roster_versions, [7]);
    assert!(matches!(
        transition.actions.as_slice(),
        [HostAction::RunAgents { .. }]
    ));
    if let [HostAction::RunAgents { agent_ids, plan }] = transition.actions.as_slice() {
        assert_eq!(agent_ids, &["two", "three"]);
        assert!(matches!(
            plan,
            RoutingPlan::Hive {
                primary_id,
                invited_ids,
            } if primary_id == "two" && invited_ids == &["three"]
        ));
    }
}

#[test]
fn a_broadcast_request_names_the_author_and_only_the_other_participants() {
    let hive = hive();
    let driver = CompletionDriver::new(&hive, 2).expect("driver");
    let state = driver.start(episode(&["one", "two", "three"])).expect("state");
    let folded = driver
        .apply_committed(
            &state,
            committed(
                "two",
                1,
                Utterance::Broadcast {
                    message: "help".into(),
                },
            ),
            Some(&routing(4, 7)),
        )
        .expect("routable");
    let Folded::Route(call) = folded else {
        panic!("a broadcast waits on its routing");
    };
    assert_eq!(call.request.message, "help");
    assert_eq!(
        call.request.source,
        RoutingSource::AgentBroadcast {
            author_id: "two".into()
        }
    );
    let ids: Vec<&str> = call
        .request
        .candidates
        .iter()
        .map(|candidate| candidate.id.as_str())
        .collect();
    assert_eq!(ids, ["one", "three"]);
    assert_eq!(call.request.policy.round_width, 2);
    assert_eq!(call.fallback_responder, "three");
    assert_eq!(state.revision(), 0, "asking for a route folds nothing");
}

#[test]
fn rejects_stale_partial_duplicate_and_out_of_hive_commits() {
    let hive = hive();
    let driver = CompletionDriver::new(&hive, 2).expect("driver");
    let mut host = Host::new(Placement::Fallback);
    let state = driver.start(episode(&["one", "two"])).expect("state");
    let first = committed(
        "one",
        10,
        Utterance::Post {
            message: "newest".into(),
        },
    );
    let state = fold(&driver, &state, first, None, &mut host)
        .expect("first")
        .state;
    assert!(matches!(
        fold(
            &driver,
            &state,
            committed(
                "two",
                9,
                Utterance::Post {
                    message: "older".into()
                }
            ),
            None,
            &mut host
        ),
        Err(Error::StaleCommittedEvent {
            sequence: Sequence(9)
        })
    ));
    assert!(matches!(
        fold(
            &driver,
            &state,
            committed(
                "two",
                10,
                Utterance::Post {
                    message: "conflict".into()
                }
            ),
            None,
            &mut host
        ),
        Err(Error::DuplicateCommittedSequence {
            sequence: Sequence(10)
        })
    ));
    assert!(matches!(
        fold(
            &driver,
            &state,
            committed(
                "outsider",
                11,
                Utterance::Post {
                    message: "no".into()
                }
            ),
            None,
            &mut host
        ),
        Err(Error::OutOfHiveParticipant { .. })
    ));

    let fresh = driver.start(episode(&["one", "two"])).expect("fresh");
    let round = driver.pending_round(&fresh).expect("round");
    assert!(matches!(
        fold_round(
            &driver,
            &fresh,
            &round,
            vec![committed(
                "one",
                1,
                Utterance::Post {
                    message: "partial".into()
                }
            )],
            None,
            &mut host,
        ),
        Err(Error::PartialRound {
            expected: 2,
            received: 1
        })
    ));
}

#[test]
fn committed_rounds_are_sequence_ordered_independent_of_input_order() {
    let hive = hive();
    let driver = CompletionDriver::new(&hive, 2).expect("driver");
    let mut host = Host::new(Placement::Fallback);
    let initial = driver.start(episode(&["one", "two"])).expect("state");
    let round = driver.pending_round(&initial).expect("round");
    let one = committed(
        "one",
        1,
        Utterance::Post {
            message: "one".into(),
        },
    );
    let two = committed(
        "two",
        2,
        Utterance::Post {
            message: "two".into(),
        },
    );
    let ascending = fold_round(
        &driver,
        &initial,
        &round,
        vec![one.clone(), two.clone()],
        None,
        &mut host,
    )
    .expect("ascending");
    let descending = fold_round(&driver, &initial, &round, vec![two, one], None, &mut host)
        .expect("descending");
    assert_eq!(descending, ascending);

    assert!(matches!(
        fold_round(
            &driver,
            &initial,
            &round,
            vec![
                committed(
                    "one",
                    3,
                    Utterance::Post {
                        message: "one".into()
                    }
                ),
                committed(
                    "two",
                    3,
                    Utterance::Post {
                        message: "two".into()
                    }
                ),
            ],
            None,
            &mut host,
        ),
        Err(Error::DuplicateCommittedSequence {
            sequence: Sequence(3)
        })
    ));
}

#[test]
fn all_broadcast_round_uses_a_distinct_valid_fallback_for_each_author() {
    let hive = hive();
    let driver = CompletionDriver::new(&hive, 3).expect("driver");
    let mut host = Host::new(Placement::Fallback);
    let state = driver
        .start(episode(&["one", "two", "three"]))
        .expect("state");
    let round = driver.pending_round(&state).expect("round");
    let transition = fold_round(
        &driver,
        &state,
        &round,
        vec![
            committed(
                "one",
                1,
                Utterance::Broadcast {
                    message: "from one".into(),
                },
            ),
            committed(
                "two",
                2,
                Utterance::Broadcast {
                    message: "from two".into(),
                },
            ),
            committed(
                "three",
                3,
                Utterance::Broadcast {
                    message: "from three".into(),
                },
            ),
        ],
        Some(&routing(3, 1)),
        &mut host,
    )
    .expect("all-broadcast round applies");

    let responders: Vec<_> = transition
        .actions
        .iter()
        .filter_map(|action| match action {
            HostAction::RunAgents {
                plan: RoutingPlan::Fallback { responder_id },
                ..
            } => Some(responder_id.as_str()),
            HostAction::RunAgents { .. }
            | HostAction::DeliverDm { .. }
            | HostAction::DeliverHandoff { .. } => None,
        })
        .collect();
    let runs = transition
        .actions
        .iter()
        .filter(|action| matches!(action, HostAction::RunAgents { .. }))
        .count();
    assert_eq!(runs, 3, "one route per broadcast");
    assert_eq!(
        transition
            .actions
            .iter()
            .filter(|action| matches!(action, HostAction::DeliverHandoff { .. }))
            .count(),
        2
    );
    assert_eq!(responders, ["two", "three", "one"]);
    assert_eq!(transition.state.revision(), 3);
}

#[test]
fn broadcast_without_another_participant_is_rejected_before_router_call() {
    let hive = hive();
    let driver = CompletionDriver::new(&hive, 1).expect("driver");
    let mut host = Host::new(Placement::Collaborate);
    let state = driver.start(episode(&["one"])).expect("state");
    let round = driver.pending_round(&state).expect("round");
    let result = fold_round(
        &driver,
        &state,
        &round,
        vec![committed(
            "one",
            1,
            Utterance::Broadcast {
                message: "anyone?".into(),
            },
        )],
        Some(&routing(1, 1)),
        &mut host,
    );

    assert!(matches!(
        result,
        Err(Error::NoBroadcastFallback { agent_id }) if agent_id == "one"
    ));
    assert_eq!(host.calls, 0);
    assert_eq!(state.revision(), 0);
}

#[test]
fn a_broadcast_from_a_seat_not_yet_shown_its_assignment_does_not_complete_it() {
    let hive = hive();
    let driver = CompletionDriver::new(&hive, 2).expect("driver");
    let mut host = Host::new(Placement::Fallback);
    let routing = routing(1, 1);
    let mut state = driver.start(episode(&["one", "two"])).expect("state");
    state.delivered("one", Sequence(1));
    state.delivered("two", Sequence(1));
    let broadcast = |from: &str, at: u64| {
        committed(
            from,
            at,
            Utterance::Broadcast {
                message: format!("from {from} at {at}"),
            },
        )
    };

    let state = fold(&driver, &state, broadcast("two", 2), Some(&routing), &mut host)
        .expect("queued")
        .state;
    let transition = fold(&driver, &state, broadcast("one", 3), Some(&routing), &mut host)
        .expect("placed");
    assert!(transition.actions.iter().any(
        |action| matches!(action, HostAction::DeliverHandoff { agent_id, .. } if agent_id == "one")
    ));
    let state = transition.state;
    assert_eq!(open_assignment(&state.episode, "one"), Some(Sequence(3)));

    let transition = fold(&driver, &state, broadcast("one", 4), Some(&routing), &mut host)
        .expect("placed, not completing");
    assert!(!transition
        .actions
        .iter()
        .any(|action| matches!(action, HostAction::DeliverHandoff { .. })));
    let mut state = transition.state;
    assert_eq!(open_assignment(&state.episode, "one"), Some(Sequence(3)));
    let round = driver.pending_round(&state).expect("round");
    assert!(
        round
            .agents()
            .iter()
            .any(|pending| pending.hive_agent_id == "one"),
        "not yet run for the assignment at 3, so owed a turn"
    );

    state.delivered("one", Sequence(4));
    let transition = fold(&driver, &state, broadcast("one", 5), Some(&routing), &mut host)
        .expect("placed and completing");
    assert_eq!(open_assignment(&transition.state.episode, "one"), None);
}

fn receipts_with_author(receipts: &Receipts, sequence: Sequence, author: &str) -> Receipts {
    let mut list = Vec::new();
    for index in 0..receipts.size() {
        let entry = receipts.entry_at(index);
        let mut event = entry.event.clone();
        if entry.sequence == sequence {
            event.author_id = author.into();
        }
        list.push(Receipt {
            sequence: entry.sequence,
            event,
        });
    }
    Receipts::from_list(list)
}

#[test]
fn resume_rejects_all_untrusted_episode_and_receipt_identities() {
    let hive = hive();
    let driver = CompletionDriver::new(&hive, 2).expect("driver");
    let mut host = Host::new(Placement::Fallback);
    let base = driver.start(episode(&["one", "two"])).expect("state");

    let mut wrong_desk = base.copied();
    wrong_desk.episode.conversation.desk_id = "another".into();
    assert!(matches!(
        driver.resume(wrong_desk),
        Err(Error::OutOfHiveEpisode { .. })
    ));

    let mut no_participants = base.copied();
    no_participants.episode.participants.clear();
    assert!(matches!(
        driver.resume(no_participants),
        Err(Error::Completion(CompletionError::NoCompletionParticipants))
    ));

    let mut blank_participant = base.copied();
    blank_participant.episode.participants[0].agent_id = "  ".into();
    assert!(matches!(
        driver.resume(blank_participant),
        Err(Error::Completion(
            CompletionError::InvalidCompletionParticipant
        ))
    ));

    let mut duplicate_participant = base.copied();
    duplicate_participant.episode.participants[1].agent_id = "one".into();
    assert!(matches!(
        driver.resume(duplicate_participant),
        Err(Error::Completion(
            CompletionError::DuplicateCompletionParticipant { .. }
        ))
    ));

    let mut outsider_participant = base.copied();
    outsider_participant.episode.participants[1].agent_id = "outsider".into();
    assert!(matches!(
        driver.resume(outsider_participant),
        Err(Error::OutOfHiveParticipant { .. })
    ));

    let committed_state = fold(
        &driver,
        &base,
        committed(
            "one",
            5,
            Utterance::Post {
                message: "persisted".into(),
            },
        ),
        None,
        &mut host,
    )
    .expect("post commits")
    .state;
    let mut stale_receipt = committed_state.copied();
    stale_receipt.episode.watermark = Sequence(5);
    assert!(matches!(
        driver.resume(stale_receipt),
        Err(Error::StaleCommittedEvent {
            sequence: Sequence(5)
        })
    ));

    let mut outsider_receipt = committed_state;
    outsider_receipt.receipts =
        receipts_with_author(&outsider_receipt.receipts, Sequence(5), "outsider");
    assert!(matches!(
        driver.resume(outsider_receipt),
        Err(Error::OutOfHiveParticipant { .. })
    ));
}

#[test]
fn pending_round_defends_against_unbound_replaced_state() {
    let hive = hive();
    let driver = CompletionDriver::new(&hive, 2).expect("driver");
    let mut state = driver.start(episode(&["one", "two"])).expect("state");
    state.episode.participants[0].agent_id = "outsider".into();

    assert!(matches!(
        driver.pending_round(&state),
        Err(Error::UnknownBoundAgent { agent_id }) if agent_id == "outsider"
    ));
}

#[test]
fn commits_private_completion_and_clarification_outcomes() {
    let hive = hive();
    let driver = CompletionDriver::new(&hive, 2).expect("driver");
    let mut host = Host::new(Placement::Clarify);
    let initial = driver.start(episode(&["one", "two"])).expect("state");

    let completed = fold(
        &driver,
        &initial,
        committed(
            "one",
            1,
            Utterance::CompleteEpisode {
                message: "finished".into(),
            },
        ),
        None,
        &mut host,
    )
    .expect("completion commits");
    assert_eq!(
        completed.state.episode.participants[0].assignments[0].completed_at,
        Some(Sequence(1))
    );

    let dm = fold(
        &driver,
        &initial,
        committed(
            "one",
            2,
            Utterance::Dm {
                to: vec!["two".into()],
                message: "private".into(),
            },
        ),
        None,
        &mut host,
    )
    .expect("dm commits");
    assert!(matches!(
        dm.actions.as_slice(),
        [HostAction::DeliverDm { .. }]
    ));

    assert!(matches!(
        fold(
            &driver,
            &initial,
            committed(
                "one",
                3,
                Utterance::Broadcast {
                    message: "route this".into(),
                },
            ),
            None,
            &mut host,
        ),
        Err(Error::MissingBroadcastRouting)
    ));

    let mut clarify_routing = routing(2, 3);
    clarify_routing.thread_context = vec!["prior question".into()];
    let clarification = fold(
        &driver,
        &initial,
        committed(
            "one",
            4,
            Utterance::Broadcast {
                message: "need more context".into(),
            },
        ),
        Some(&clarify_routing),
        &mut host,
    )
    .expect("clarification commits");
    assert!(clarification.actions.is_empty());
    assert_eq!(clarification.state.revision(), 1);
}

#[test]
fn batch_preflight_accepts_a_prior_receipt_with_a_new_private_result() {
    let hive = hive();
    let driver = CompletionDriver::new(&hive, 2).expect("driver");
    let mut host = Host::new(Placement::Fallback);
    let initial = driver.start(episode(&["one", "two"])).expect("state");
    let replayed = committed(
        "one",
        1,
        Utterance::Post {
            message: "already committed".into(),
        },
    );
    let state = fold(&driver, &initial, replayed.clone(), None, &mut host)
        .expect("post commits")
        .state;
    let round = driver.pending_round(&state).expect("round");
    let transition = fold_round(
        &driver,
        &state,
        &round,
        vec![
            replayed.clone(),
            committed(
                "two",
                2,
                Utterance::Dm {
                    to: vec!["one".into()],
                    message: "reply".into(),
                },
            ),
        ],
        None,
        &mut host,
    )
    .expect("receipt and new dm batch commits");
    assert_eq!(transition.state.revision(), 2);
    assert!(matches!(
        transition.actions.as_slice(),
        [HostAction::DeliverDm { .. }]
    ));
}

#[test]
fn batch_preflight_rejects_conflicting_and_stale_new_events() {
    let hive = hive();
    let driver = CompletionDriver::new(&hive, 2).expect("driver");
    let mut host = Host::new(Placement::Fallback);
    let initial = driver.start(episode(&["one", "two"])).expect("state");
    let state = fold(
        &driver,
        &initial,
        committed(
            "one",
            1,
            Utterance::Post {
                message: "already committed".into(),
            },
        ),
        None,
        &mut host,
    )
    .expect("post commits")
    .state;
    let round = driver.pending_round(&state).expect("round");
    let conflicting = committed(
        "one",
        1,
        Utterance::Post {
            message: "different content".into(),
        },
    );
    assert!(matches!(
        fold_round(
            &driver,
            &state,
            &round,
            vec![
                conflicting,
                committed(
                    "two",
                    2,
                    Utterance::Post {
                        message: "new".into(),
                    },
                ),
            ],
            None,
            &mut host,
        ),
        Err(Error::DuplicateCommittedSequence {
            sequence: Sequence(1)
        })
    ));

    assert!(matches!(
        fold_round(
            &driver,
            &state,
            &round,
            vec![
                committed(
                    "one",
                    0,
                    Utterance::Post {
                        message: "stale".into(),
                    },
                ),
                committed(
                    "two",
                    2,
                    Utterance::Post {
                        message: "new".into(),
                    },
                ),
            ],
            None,
            &mut host,
        ),
        Err(Error::StaleCommittedEvent {
            sequence: Sequence(0)
        })
    ));
}

#[test]
fn batch_preflight_requires_routing_before_a_broadcast_can_commit() {
    let hive = hive();
    let driver = CompletionDriver::new(&hive, 2).expect("driver");
    let mut host = Host::new(Placement::Fallback);
    let initial = driver.start(episode(&["one", "two"])).expect("state");
    let initial_round = driver.pending_round(&initial).expect("initial round");
    assert!(matches!(
        fold_round(
            &driver,
            &initial,
            &initial_round,
            vec![
                committed(
                    "one",
                    1,
                    Utterance::Broadcast {
                        message: "needs router".into(),
                    },
                ),
                committed(
                    "two",
                    2,
                    Utterance::Post {
                        message: "second".into(),
                    },
                ),
            ],
            None,
            &mut host,
        ),
        Err(Error::MissingBroadcastRouting)
    ));
}

#[test]
fn committed_round_preflights_every_event_before_routing() {
    let hive = hive();
    let driver = CompletionDriver::new(&hive, 2).expect("driver");
    let mut host = Host::new(Placement::Collaborate);
    let state = driver.start(episode(&["one", "two"])).expect("state");
    let round = driver.pending_round(&state).expect("round");
    let result = fold_round(
        &driver,
        &state,
        &round,
        vec![
            committed(
                "one",
                1,
                Utterance::Broadcast {
                    message: "route me".into(),
                },
            ),
            committed(
                "two",
                1,
                Utterance::Post {
                    message: "duplicate sequence".into(),
                },
            ),
        ],
        Some(&routing(2, 1)),
        &mut host,
    );
    assert!(matches!(
        result,
        Err(Error::DuplicateCommittedSequence {
            sequence: Sequence(1)
        })
    ));
    assert_eq!(host.calls, 0);
    assert_eq!(state.revision(), 0, "rejected batch cannot advance state");
}

#[test]
fn pending_round_rejects_stale_and_mismatched_state_snapshots() {
    let hive = hive();
    let driver = CompletionDriver::new(&hive, 2).expect("driver");
    let mut host = Host::new(Placement::Fallback);
    let initial = driver.start(episode(&["one", "two"])).expect("state");
    let stale_round = driver.pending_round(&initial).expect("round");
    let advanced = fold(
        &driver,
        &initial,
        committed(
            "one",
            1,
            Utterance::Post {
                message: "advanced".into(),
            },
        ),
        None,
        &mut host,
    )
    .expect("commit")
    .state;
    assert!(matches!(
        fold_round(
            &driver,
            &advanced,
            &stale_round,
            vec![post("one", 2), post("two", 3)],
            None,
            &mut host,
        ),
        Err(Error::StaleRound { .. })
    ));

    let other = driver.start(episode(&["two", "one"])).expect("other state");
    let other_round = driver.pending_round(&other).expect("other round");
    assert!(matches!(
        fold_round(
            &driver,
            &initial,
            &other_round,
            vec![post("two", 1), post("one", 2)],
            None,
            &mut host,
        ),
        Err(Error::MismatchedRound { .. })
    ));
}

#[test]
fn a_round_with_an_author_outside_it_is_refused_by_name() {
    let hive = hive();
    let driver = CompletionDriver::new(&hive, 2).expect("driver");
    let mut host = Host::new(Placement::Fallback);
    let state = driver.start(episode(&["one", "two"])).expect("state");
    let round = driver.pending_round(&state).expect("round");
    let result = fold_round(
        &driver,
        &state,
        &round,
        vec![post("one", 1), post("three", 2)],
        None,
        &mut host,
    );
    assert!(matches!(
        result,
        Err(Error::UnexpectedRoundAuthor { agent_id }) if agent_id == "three"
    ));
}

#[test]
fn two_outsiders_are_refused_by_whichever_comes_first_in_the_order_given() {
    let hive = hive();
    let driver = CompletionDriver::new(&hive, 2).expect("driver");
    let mut host = Host::new(Placement::Fallback);
    let state = driver.start(episode(&["one", "two"])).expect("state");
    let round = driver.pending_round(&state).expect("round");
    let forward = fold_round(
        &driver,
        &state,
        &round,
        vec![post("three", 1), post("four", 2)],
        None,
        &mut host,
    );
    let backward = fold_round(
        &driver,
        &state,
        &round,
        vec![post("four", 2), post("three", 1)],
        None,
        &mut host,
    );
    assert!(matches!(
        forward,
        Err(Error::UnexpectedRoundAuthor { agent_id }) if agent_id == "three"
    ));
    assert!(matches!(
        backward,
        Err(Error::UnexpectedRoundAuthor { agent_id }) if agent_id == "four"
    ));
}

#[test]
fn a_round_refused_for_a_stale_row_is_refused_alike_in_either_order() {
    let hive = hive();
    let driver = CompletionDriver::new(&hive, 2).expect("driver");
    let mut host = Host::new(Placement::Fallback);
    let initial = driver.start(episode(&["one", "two"])).expect("state");
    let state = fold(&driver, &initial, post("one", 5), None, &mut host)
        .expect("fold")
        .state;
    let round = driver.pending_round(&state).expect("round");
    let ids: Vec<String> = round.agents().iter().map(|a| a.hive_agent_id.to_string()).collect();
    assert_eq!(ids.len(), 2);
    let forward = fold_round(
        &driver,
        &state,
        &round,
        vec![post(&ids[0], 3), post(&ids[1], 7)],
        None,
        &mut host,
    );
    let backward = fold_round(
        &driver,
        &state,
        &round,
        vec![post(&ids[1], 7), post(&ids[0], 3)],
        None,
        &mut host,
    );
    assert_eq!(forward, backward);
    assert!(matches!(
        forward,
        Err(Error::StaleCommittedEvent { sequence }) if sequence == Sequence(3)
    ));
}

#[test]
fn a_round_with_a_repeated_author_is_partial_rather_than_unexpected() {
    let hive = hive();
    let driver = CompletionDriver::new(&hive, 2).expect("driver");
    let mut host = Host::new(Placement::Fallback);
    let state = driver.start(episode(&["one", "two"])).expect("state");
    let round = driver.pending_round(&state).expect("round");
    let result = fold_round(
        &driver,
        &state,
        &round,
        vec![post("one", 1), post("one", 2)],
        None,
        &mut host,
    );
    assert!(matches!(
        result,
        Err(Error::PartialRound {
            expected: 2,
            received: 1
        })
    ));
}

#[test]
fn an_empty_round_is_partial_and_never_a_replay() {
    let hive = hive();
    let driver = CompletionDriver::new(&hive, 2).expect("driver");
    let mut host = Host::new(Placement::Fallback);
    let state = driver.start(episode(&["one", "two"])).expect("state");
    let round = driver.pending_round(&state).expect("round");
    let result = fold_round(&driver, &state, &round, vec![], None, &mut host);
    assert!(matches!(
        result,
        Err(Error::PartialRound {
            expected: 2,
            received: 0
        })
    ));
}

#[test]
fn an_ask_inside_a_round_is_preflighted_and_holds_the_asker() {
    let hive = hive();
    let driver = CompletionDriver::new(&hive, 2).expect("driver");
    let mut host = Host::new(Placement::Fallback);
    let state = driver.start(episode(&["one", "two"])).expect("state");
    let round = driver.pending_round(&state).expect("round");
    let transition = fold_round(
        &driver,
        &state,
        &round,
        vec![
            committed(
                "one",
                1,
                Utterance::Ask {
                    to: "two".into(),
                    message: "which?".into(),
                },
            ),
            post("two", 2),
        ],
        None,
        &mut host,
    )
    .expect("an ask needs no router");
    assert!(
        transition
            .actions
            .iter()
            .any(|action| matches!(action, HostAction::DeliverDm { .. })),
        "the ask is delivered to the seat it names"
    );
    assert!(
        transition.state.ledger().awaiting("one").is_some(),
        "the asker cannot complete until it is answered"
    );

    let result = fold_round(
        &driver,
        &state,
        &round,
        vec![
            committed(
                "one",
                1,
                Utterance::Ask {
                    to: "nobody".into(),
                    message: "?".into(),
                },
            ),
            post("two", 2),
        ],
        None,
        &mut host,
    );
    assert!(result.is_err(), "an unknown askee is a preflight error");
}

#[test]
fn an_exact_round_replay_is_recognised_before_the_round_is_checked() {
    let hive = hive();
    let driver = CompletionDriver::new(&hive, 2).expect("driver");
    let mut host = Host::new(Placement::Fallback);
    let initial = driver.start(episode(&["one", "two"])).expect("state");
    let round = driver.pending_round(&initial).expect("round");
    let events = vec![post("one", 1), post("two", 2)];
    let folded = fold_round(&driver, &initial, &round, events.clone(), None, &mut host)
        .expect("round folds");
    let replay = driver
        .apply_committed_round(&folded.state, &round, events, None)
        .expect("a replay of a stale round is still a replay");
    assert!(matches!(
        replay,
        RoundFold::Replay(Transition { ref state, ref actions })
            if *state == folded.state && actions.is_empty()
    ));
}

#[test]
fn the_floor_and_revision_follow_every_accepted_row() {
    let hive = hive();
    let driver = CompletionDriver::new(&hive, 2).expect("driver");
    let mut host = Host::new(Placement::Fallback);
    let state = driver.start(episode(&["one", "two"])).expect("state");
    assert_eq!(state.freshness_floor, Sequence(0));
    assert_eq!(state.revision(), 0);
    assert_eq!(state.receipts.size(), 0);

    let posted = fold(&driver, &state, post("one", 5), None, &mut host)
        .expect("post")
        .state;
    assert_eq!(posted.freshness_floor, Sequence(5));
    assert_eq!(posted.revision(), 1);
    assert_eq!(posted.receipts.size(), 1);
    assert_eq!(posted.receipts.get(Sequence(5)), Some(&post("one", 5)));

    let done = fold(
        &driver,
        &posted,
        committed(
            "two",
            9,
            Utterance::CompleteEpisode {
                message: "done".into(),
            },
        ),
        None,
        &mut host,
    )
    .expect("completion")
    .state;
    assert_eq!(done.freshness_floor, Sequence(9));
    assert_eq!(done.revision(), 2);
    assert_eq!(done.receipts.last_key(), Some(Sequence(9)));

    let replay = fold(&driver, &done, post("one", 5), None, &mut host).expect("replay");
    assert_eq!(replay.state, done);
    assert!(replay.actions.is_empty());
    assert_eq!(driver.resume(done.copied()).expect("resumes"), done);
}

#[test]
fn a_routed_plan_is_checked_before_it_is_folded() {
    let hive = hive();
    let driver = CompletionDriver::new(&hive, 2).expect("driver");
    let state = driver
        .start(episode(&["one", "two", "three", "four"]))
        .expect("state");
    let event = committed(
        "one",
        1,
        Utterance::Broadcast {
            message: "help".into(),
        },
    );
    assert_eq!(
        driver.apply_routed(
            &state,
            event.clone(),
            RoutingPlan::One {
                responder_id: "one".into()
            }
        ),
        Err(Error::BroadcastIncludesAuthor {
            agent_id: "one".into()
        })
    );
    assert_eq!(
        driver.apply_routed(
            &state,
            event.clone(),
            RoutingPlan::Hive {
                primary_id: "two".into(),
                invited_ids: vec!["three".into(), "four".into()],
            }
        ),
        Err(Error::BroadcastTooWide {
            recipient_count: 3,
            round_width: 2
        })
    );
    assert_eq!(
        driver.apply_routed(
            &state,
            event.clone(),
            RoutingPlan::One {
                responder_id: "outsider".into()
            }
        ),
        Err(Error::UnknownBoundAgent {
            agent_id: "outsider".into()
        })
    );
    let placed = driver
        .apply_routed(
            &state,
            event,
            RoutingPlan::One {
                responder_id: "two".into(),
            },
        )
        .expect("a plan within the bounds folds");
    assert_eq!(placed.state.revision(), 1);
}

#[test]
fn a_state_at_its_last_revision_refuses_a_new_row() {
    let hive = hive();
    let driver = CompletionDriver::new(&hive, 2).expect("driver");
    let mut state = driver.start(episode(&["one", "two"])).expect("state");
    state.revision = u64::MAX;
    let mut host = Host::new(Placement::Fallback);
    assert_eq!(
        fold(&driver, &state, post("one", 1), None, &mut host),
        Err(Error::StateRevisionOverflow)
    );
}

#[test]
fn the_episode_is_handed_back_whole() {
    let hive = hive();
    let driver = CompletionDriver::new(&hive, 2).expect("driver");
    let state = driver.start(episode(&["one", "two"])).expect("state");
    let episode_copy = state.episode().clone();
    assert_eq!(state.into_episode(), episode_copy);
}
