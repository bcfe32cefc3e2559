//! Whole-episode regressions: accepted routing order, replay after a restart,
//! freshness without receipts, subset routing, and properties that hold
//! whatever order events arrive in.

use tinyhivemind_verified::completion::{
    apply_assignment, apply_completion, AssignmentRecord, CompletionEpisodeState,
    ParticipantCompletion,
};
use tinyhivemind_verified::driver::fold::{BroadcastRouting, Folded, RouteCall};
use tinyhivemind_verified::driver::receipts::{CommittedUtterance, Receipt, Receipts};
use tinyhivemind_verified::driver::round::{PendingRound, RoundFold};
use tinyhivemind_verified::driver::setup::CompletionDriver;
use tinyhivemind_verified::driver::state::{DriverState, HostAction, Transition};
use tinyhivemind_verified::error::Error;
use tinyhivemind_verified::graph::{AgentBinding, BoundAgent, HiveGraph, OpenHumanHive};
use tinyhivemind_verified::routing::{Desk, RouteCandidate, RoutingPlan, RoutingPolicy};
use tinyhivemind_verified::types::{Conversation, Sequence, Utterance};

#[derive(Clone, Debug, PartialEq)]
struct Seat {
    runtime_id: String,
}

impl BoundAgent for Seat {
    fn runtime_id(&self) -> &str {
        &self.runtime_id
    }
}

fn hive_of(desk_id: &str, ids: &[&str]) -> OpenHumanHive<Seat> {
    OpenHumanHive::new(
        HiveGraph::new(
            Desk {
                id: desk_id.into(),
                name: "Engineering".into(),
                description: None,
                members: ids.iter().map(|id| (*id).into()).collect(),
            },
            ids.iter()
                .map(|id| RouteCandidate {
                    id: (*id).into(),
                    label: (*id).into(),
                    role: None,
                    description: None,
                    capabilities: Vec::new(),
                    learned_topics: Vec::new(),
                    available: true,
                })
                .collect(),
        ),
        ids.iter()
            .map(|id| {
                AgentBinding::new(
                    (*id).into(),
                    Seat {
                        runtime_id: format!("runtime-{id}"),
                    },
                )
            })
            .collect(),
    )
    .expect("hive")
}

fn conversation(desk_id: &str) -> Conversation {
    Conversation {
        desk_id: desk_id.into(),
        desk_name: "Engineering".into(),
        thread_root: None,
    }
}

fn episode(participants: &[&str]) -> CompletionEpisodeState {
    CompletionEpisodeState::opened(conversation("engineering"), Sequence(0), participants)
        .expect("episode")
}

fn committed(author_id: &str, sequence: u64, utterance: Utterance) -> CommittedUtterance {
    CommittedUtterance {
        author_id: author_id.into(),
        sequence: Sequence(sequence),
        utterance,
    }
}

fn routing(round_width: usize) -> BroadcastRouting {
    BroadcastRouting {
        policy: RoutingPolicy {
            minimum_confidence: 600_000,
            high_impact_minimum_confidence: 800_000,
            clarification_threshold: 700_000,
            high_impact_threshold: 700_000,
            round_width,
            choice_option_limit: 8,
        },
        roster_version: 1,
        thread_context: Vec::new(),
    }
}

/// How the host's router places the broadcasts of these tests.
#[derive(Clone, Copy, Debug, PartialEq)]
enum Placement {
    /// Every candidate the width allows, in candidate order.
    Ordered,
    /// The first candidate alone.
    First,
    /// A different candidate alone each time, in turn.
    Cycling,
}

#[derive(Debug)]
struct Router {
    placement: Placement,
    calls: usize,
    candidates: Vec<Vec<String>>,
}

impl Router {
    fn new(placement: Placement) -> Self {
        Router {
            placement,
            calls: 0,
            candidates: Vec::new(),
        }
    }

    fn place(&mut self, call: &RouteCall) -> RoutingPlan {
        let ids: Vec<String> = call
            .request
            .candidates
            .iter()
            .filter(|candidate| candidate.available)
            .map(|candidate| candidate.id.clone())
            .collect();
        let pick = self.calls % ids.len().max(1);
        self.calls += 1;
        self.candidates.push(ids.clone());
        match self.placement {
            Placement::Ordered => {
                let width = call.request.policy.round_width.min(ids.len());
                RoutingPlan::Hive {
                    primary_id: ids[0].clone(),
                    invited_ids: ids[1..width].to_vec(),
                }
            }
            Placement::First => RoutingPlan::One {
                responder_id: ids[0].clone(),
            },
            Placement::Cycling => RoutingPlan::One {
                responder_id: ids[pick].clone(),
            },
        }
    }
}

fn fold_with(
    driver: &CompletionDriver<'_, Seat>,
    state: &DriverState,
    event: CommittedUtterance,
    routing: Option<&BroadcastRouting>,
    fallback: Option<&str>,
    router: &mut Router,
) -> Result<Transition, Error> {
    match driver.apply_committed_with_fallback(state, event.clone(), routing, fallback)? {
        Folded::Done(transition) => Ok(transition),
        Folded::Route(call) => {
            let plan = router.place(&call);
            driver.apply_routed(state, event, plan)
        }
    }
}

fn fold(
    driver: &CompletionDriver<'_, Seat>,
    state: &DriverState,
    event: CommittedUtterance,
    routing: Option<&BroadcastRouting>,
    router: &mut Router,
) -> Result<Transition, Error> {
    fold_with(driver, state, event, routing, None, router)
}

fn fold_round(
    driver: &CompletionDriver<'_, Seat>,
    state: &DriverState,
    round: &PendingRound<'_, Seat>,
    events: Vec<CommittedUtterance>,
    routing: Option<&BroadcastRouting>,
    router: &mut Router,
) -> Result<Transition, Error> {
    match driver.apply_committed_round(state, round, events, routing)? {
        RoundFold::Replay(transition) => Ok(transition),
        RoundFold::Events(list) => {
            let mut current = state.copied();
            let mut actions = Vec::new();
            for row in list {
                let transition = fold_with(
                    driver,
                    &current,
                    row.event,
                    routing,
                    row.fallback.as_deref(),
                    router,
                )?;
                current = transition.state;
                actions.extend(transition.actions);
            }
            Ok(Transition {
                state: current,
                actions,
            })
        }
    }
}

fn round_ids(driver: &CompletionDriver<'_, Seat>, state: &DriverState) -> Vec<String> {
    driver
        .pending_round(state)
        .expect("next round")
        .agents()
        .iter()
        .map(|pending| pending.hive_agent_id.to_owned())
        .collect()
}

const FOUR: [&str; 4] = ["one", "two", "three", "four"];

#[test]
fn accepted_assignments_merge_in_order_without_duplicates() {
    let hive = hive_of("engineering", &FOUR);
    let driver = CompletionDriver::new(&hive, 4).expect("driver");
    let state = driver
        .start(CompletionEpisodeState {
            conversation: conversation("engineering"),
            watermark: Sequence(0),
            participants: [
                ("one", None),
                ("two", Some(Sequence(0))),
                ("three", Some(Sequence(0))),
                ("four", None),
            ]
            .into_iter()
            .map(|(agent_id, completed_at)| ParticipantCompletion {
                agent_id: agent_id.into(),
                assignments: vec![AssignmentRecord {
                    assigned_at: Sequence(0),
                    completed_at,
                }],
            })
            .collect(),
        })
        .expect("state");
    let round = driver.pending_round(&state).expect("round");
    let mut router = Router::new(Placement::Ordered);
    let transition = fold_round(
        &driver,
        &state,
        &round,
        vec![
            committed(
                "one",
                1,
                Utterance::Broadcast {
                    message: "first".into(),
                },
            ),
            committed(
                "four",
                2,
                Utterance::Broadcast {
                    message: "second".into(),
                },
            ),
        ],
        Some(&routing(4)),
        &mut router,
    )
    .expect("round commits");

    assert_eq!(
        transition
            .actions
            .iter()
            .filter(|action| matches!(action, HostAction::RunAgents { .. }))
            .count(),
        2
    );
    assert_eq!(
        transition
            .actions
            .iter()
            .filter(|action| matches!(action, HostAction::DeliverHandoff { .. }))
            .count(),
        1
    );
    assert_eq!(
        round_ids(&driver, &transition.state),
        ["two", "three", "four", "one"],
    );
}

#[test]
fn completed_ids_are_pruned_from_accepted_order() {
    let hive = hive_of("engineering", &FOUR);
    let driver = CompletionDriver::new(&hive, 4).expect("driver");
    let initial = driver.start(episode(&FOUR)).expect("state");
    let mut router = Router::new(Placement::Ordered);
    let assigned = fold(
        &driver,
        &initial,
        committed(
            "one",
            1,
            Utterance::Broadcast {
                message: "schedule two first".into(),
            },
        ),
        Some(&routing(4)),
        &mut router,
    )
    .expect("broadcast")
    .state;
    let completed = fold(
        &driver,
        &assigned,
        committed(
            "two",
            2,
            Utterance::CompleteEpisode {
                message: "done".into(),
            },
        ),
        None,
        &mut router,
    )
    .expect("completion")
    .state;

    assert_eq!(completed.ledger().queue_len("two"), 0);
    assert!(completed.episode().participants[1].is_pending());
    assert_eq!(
        round_ids(&driver, &completed),
        ["two", "three", "four"],
        "`one` was completed by its own handoff and is pruned",
    );
    let settled = fold(
        &driver,
        &completed,
        committed(
            "two",
            3,
            Utterance::CompleteEpisode {
                message: "handoff done".into(),
            },
        ),
        None,
        &mut router,
    )
    .expect("second completion")
    .state;

    assert_eq!(
        round_ids(&driver, &settled),
        ["three", "four"],
        "a seat with nothing queued is settled, and settled seats are pruned",
    );
}

const THREE: [&str; 3] = ["one", "two", "three"];

#[test]
fn resumed_round_replay_is_a_noop_before_stale_round_validation() {
    let hive = hive_of("engineering", &THREE);
    let driver = CompletionDriver::new(&hive, 2).expect("driver");
    let initial = driver.start(episode(&THREE)).expect("state");
    let round = driver.pending_round(&initial).expect("round");
    let mut router = Router::new(Placement::First);
    let routing = routing(2);
    let events = vec![
        committed(
            "one",
            1,
            Utterance::Broadcast {
                message: "help".into(),
            },
        ),
        committed(
            "two",
            2,
            Utterance::Post {
                message: "working".into(),
            },
        ),
    ];
    let committed_state = fold_round(
        &driver,
        &initial,
        &round,
        events.clone(),
        Some(&routing),
        &mut router,
    )
    .expect("round commits")
    .state;
    let restored = driver.resume(committed_state.copied()).expect("resume");

    router.calls = 0;
    let replay = fold_round(
        &driver,
        &restored,
        &round,
        events.clone(),
        Some(&routing),
        &mut router,
    )
    .expect("exact replay");
    assert_eq!(replay.state, restored);
    assert!(replay.actions.is_empty());
    assert_eq!(router.calls, 0);

    let mut conflict = events.clone();
    conflict[0].utterance = Utterance::Post {
        message: "conflict".into(),
    };
    assert!(matches!(
        fold_round(&driver, &restored, &round, conflict, Some(&routing), &mut router),
        Err(Error::StaleRound { .. })
    ));
    let mut new_event = events;
    new_event[0].sequence = Sequence(3);
    assert!(matches!(
        fold_round(&driver, &restored, &round, new_event, Some(&routing), &mut router),
        Err(Error::StaleRound { .. })
    ));
}

#[test]
fn completed_round_replays_after_restart_with_a_new_empty_pending_round() {
    let hive = hive_of("engineering", &THREE);
    let driver = CompletionDriver::new(&hive, 2).expect("driver");
    let mut router = Router::new(Placement::First);
    let initial = driver.start(episode(&["one", "two"])).expect("state");
    let round = driver.pending_round(&initial).expect("pending round");
    let events = vec![
        committed(
            "one",
            1,
            Utterance::CompleteEpisode {
                message: "one done".into(),
            },
        ),
        committed(
            "two",
            2,
            Utterance::CompleteEpisode {
                message: "two done".into(),
            },
        ),
    ];
    let final_state = fold_round(&driver, &initial, &round, events.clone(), None, &mut router)
        .expect("round commits")
        .state;
    drop(round);

    let restored = driver.resume(final_state.copied()).expect("final state resumes");
    let empty_round = driver
        .pending_round(&restored)
        .expect("restored pending round");
    assert!(empty_round.is_empty());

    let replay = fold_round(&driver, &restored, &empty_round, events, None, &mut router)
        .expect("receipt-only batch replay");
    assert_eq!(replay.state, restored);
    assert!(replay.actions.is_empty());
}

#[test]
fn advanced_episode_sequences_are_the_freshness_floor_without_receipts() {
    let hive = hive_of("engineering", &THREE);
    let driver = CompletionDriver::new(&hive, 2).expect("driver");
    let mut router = Router::new(Placement::First);
    let settled = apply_completion(&episode(&["one", "two"]), "one", Sequence(9))
        .expect("completion advances episode state");
    let assigned = apply_assignment(&settled, &["one"], Sequence(10))
        .expect("assignment advances episode state");
    let advanced = apply_completion(&assigned, "two", Sequence(12))
        .expect("completion advances episode state");
    let state = driver.start(advanced).expect("advanced state starts");

    for utterance in [
        Utterance::Post {
            message: "stale post".into(),
        },
        Utterance::Dm {
            to: vec!["two".into()],
            message: "stale dm".into(),
        },
    ] {
        assert!(matches!(
            fold(&driver, &state, committed("one", 9, utterance), None, &mut router),
            Err(Error::StaleCommittedEvent {
                sequence: Sequence(9)
            })
        ));
    }

    assert!(matches!(
        fold(
            &driver,
            &state,
            committed(
                "one",
                11,
                Utterance::Broadcast {
                    message: "stale broadcast".into(),
                },
            ),
            Some(&routing(2)),
            &mut router,
        ),
        Err(Error::StaleCommittedEvent {
            sequence: Sequence(11)
        })
    ));
    assert_eq!(router.calls, 0);
}

#[test]
fn resumed_state_rejects_inconsistent_revision_receipt_and_freshness_metadata() {
    let hive = hive_of("engineering", &THREE);
    let driver = CompletionDriver::new(&hive, 2).expect("driver");
    let mut router = Router::new(Placement::First);
    let initial = driver.start(episode(&["one", "two"])).expect("state");
    let state = fold(
        &driver,
        &initial,
        committed(
            "one",
            7,
            Utterance::Post {
                message: "committed".into(),
            },
        ),
        None,
        &mut router,
    )
    .expect("event commits")
    .state;

    let mut revision = state.copied();
    revision.revision = 2;
    assert_eq!(
        driver.resume(revision.copied()).expect_err("inconsistent state rejected").message(),
        "driver state revision 2 does not match 1 receipts"
    );
    let mut floor = state.copied();
    floor.freshness_floor = Sequence(6);
    assert_eq!(
        driver.resume(floor).expect_err("inconsistent state rejected").message(),
        "driver freshness floor 6 does not match derived floor 7"
    );
    assert_eq!(
        driver.resume(revision),
        Err(Error::InvalidStateRevision {
            revision: 2,
            receipt_count: 1
        })
    );
    let mut freshness = state.copied();
    freshness.freshness_floor = Sequence(6);
    assert_eq!(
        driver.resume(freshness),
        Err(Error::InvalidFreshnessFloor {
            stored: Sequence(6),
            derived: Sequence(7)
        })
    );

    let mut moved = state.copied();
    let receipt = moved.receipts.get(Sequence(7)).expect("receipt at sequence seven");
    moved.receipts = Receipts::from_list(vec![Receipt {
        sequence: Sequence(8),
        event: receipt.clone(),
    }]);
    assert!(matches!(
        driver.resume(moved),
        Err(Error::InvalidReceiptSequence {
            stored: Sequence(8),
            event: Sequence(7)
        })
    ));
}

#[test]
fn subset_episode_broadcast_routes_only_to_participants() {
    let hive = hive_of("engineering", &THREE);
    let driver = CompletionDriver::new(&hive, 2).expect("driver");
    let state = driver.start(episode(&["one", "two"])).expect("state");
    let mut router = Router::new(Placement::First);
    let transition = fold(
        &driver,
        &state,
        committed(
            "one",
            1,
            Utterance::Broadcast {
                message: "help".into(),
            },
        ),
        Some(&routing(2)),
        &mut router,
    )
    .expect("participant route applies");
    assert_eq!(router.calls, 1);
    assert_eq!(router.candidates, [vec!["two".to_owned()]]);
    assert!(matches!(
        transition.actions.as_slice(),
        [HostAction::RunAgents { .. }]
    ));
    if let [HostAction::RunAgents { agent_ids, plan }] = transition.actions.as_slice() {
        assert_eq!(agent_ids, &["two"]);
        assert!(matches!(plan, RoutingPlan::One { responder_id } if responder_id == "two"));
    }
    assert_eq!(transition.state.revision(), 1);
}

const IDS: [&str; 4] = ["a0", "a1", "a2", "a3"];

/// Deterministic and dependency-free, so a failure is reproducible from a seed.
struct Rng(u64);

impl Rng {
    fn next(&mut self) -> u64 {
        self.0 ^= self.0 << 13;
        self.0 ^= self.0 >> 7;
        self.0 ^= self.0 << 17;
        self.0
    }

    fn below(&mut self, bound: usize) -> usize {
        usize::try_from(self.next() % bound as u64).unwrap_or(0)
    }
}

fn opened(count: usize) -> CompletionEpisodeState {
    CompletionEpisodeState::opened(conversation("desk"), Sequence(1), &IDS[..count])
        .expect("episode")
}

/// Everything that must be true of a driver state after any operation.
fn hold(driver: &CompletionDriver<'_, Seat>, state: &DriverState, settled_before: usize) {
    let pending: Vec<&str> = state
        .episode()
        .participants
        .iter()
        .filter(|participant| participant.is_pending())
        .map(|participant| participant.agent_id.as_str())
        .collect();
    for participant in &state.episode().participants {
        let open: Vec<_> = participant
            .assignments
            .iter()
            .enumerate()
            .filter(|(_, record)| record.is_open())
            .collect();
        assert!(open.len() <= 1, "`{}` holds {} open assignments", participant.agent_id, open.len());
        if let Some((index, _)) = open.first() {
            assert_eq!(*index, participant.assignments.len() - 1);
        }
        for pair in participant.assignments.windows(2) {
            assert!(pair[0].assigned_at < pair[1].assigned_at);
        }
        for record in &participant.assignments {
            if let Some(completed) = record.completed_at {
                assert!(completed > record.assigned_at);
            }
        }
    }
    assert!(
        state.episode().settled() >= settled_before,
        "settled fell from {settled_before} to {}",
        state.episode().settled()
    );
    for id in state.ledger().queues.sorted_keys() {
        assert!(pending.contains(&id.as_str()), "`{id}` is settled and holds a queue");
    }
    let woken = round_ids(driver, state);
    for id in state.stalled() {
        assert!(!woken.contains(&id), "`{id}` is both woken and stalled");
    }
    if state.quiescent() {
        assert!(pending.is_empty());
        assert!(state.ledger().is_drained());
    }
}

fn step(
    driver: &CompletionDriver<'_, Seat>,
    state: &DriverState,
    author: &str,
    at: Sequence,
    utterance: Utterance,
    router: &mut Router,
) -> Option<DriverState> {
    fold(
        driver,
        state,
        CommittedUtterance {
            author_id: author.into(),
            sequence: at,
            utterance,
        },
        Some(&routing(2)),
        router,
    )
    .ok()
    .map(|transition| transition.state)
}

#[test]
fn arbitrary_event_orderings_never_corrupt_the_episode() {
    for seed in 1..120_u64 {
        let mut rng = Rng(seed.wrapping_mul(0x9E37_79B9_7F4A_7C15) | 1);
        let count = 2 + rng.below(3);
        let hive = hive_of("desk", &IDS[..count]);
        let driver = CompletionDriver::new(&hive, 2)
            .expect("driver")
            .with_queue_depth(1 + rng.below(3))
            .expect("depth")
            .with_broadcast_budget(Some(1 + u32::try_from(rng.below(3)).unwrap_or(0)));
        let mut router = Router::new(Placement::Cycling);
        let mut state = driver.start(opened(count)).expect("state");
        let mut clock = 1_u64;

        for _ in 0..80 {
            let who = IDS[rng.below(count)];
            let settled_before = state.episode().settled();
            clock = if rng.below(8) == 0 {
                clock.saturating_sub(rng.below(4) as u64)
            } else {
                clock + 1
            };
            let at = Sequence(clock);
            let next = match rng.below(7) {
                0 => step(
                    &driver,
                    &state,
                    who,
                    at,
                    Utterance::CompleteEpisode {
                        message: "done".into(),
                    },
                    &mut router,
                ),
                1 | 2 => step(
                    &driver,
                    &state,
                    who,
                    at,
                    Utterance::Broadcast {
                        message: "handoff".into(),
                    },
                    &mut router,
                ),
                3 => {
                    let target = IDS[rng.below(count)];
                    step(
                        &driver,
                        &state,
                        who,
                        at,
                        Utterance::Ask {
                            to: target.into(),
                            message: "?".into(),
                        },
                        &mut router,
                    )
                }
                4 => step(
                    &driver,
                    &state,
                    who,
                    at,
                    Utterance::Post {
                        message: "note".into(),
                    },
                    &mut router,
                ),
                5 => {
                    let mut reported = state.copied();
                    reported.delivered(who, at);
                    Some(reported)
                }
                _ => {
                    let mut reported = state.copied();
                    reported.turn_started(who);
                    Some(reported)
                }
            };
            if let Some(next) = next {
                state = next;
            }
            hold(&driver, &state, settled_before);
        }
    }
}

#[test]
fn a_snapshot_round_trip_preserves_every_decision() {
    for seed in 1..40_u64 {
        let mut rng = Rng(seed.wrapping_mul(0x2545_F491_4F6C_DD1D) | 1);
        let count = 2 + rng.below(3);
        let hive = hive_of("desk", &IDS[..count]);
        let driver = CompletionDriver::new(&hive, 2).expect("driver");
        let mut router = Router::new(Placement::Cycling);
        let mut state = driver.start(opened(count)).expect("state");

        for clock in 2..40_u64 {
            let who = IDS[rng.below(count)];
            let utterance = match rng.below(3) {
                0 => Utterance::CompleteEpisode {
                    message: "done".into(),
                },
                1 => Utterance::Broadcast {
                    message: "handoff".into(),
                },
                _ => Utterance::Ask {
                    to: IDS[rng.below(count)].into(),
                    message: "?".into(),
                },
            };
            if let Some(next) = step(&driver, &state, who, Sequence(clock), utterance, &mut router) {
                state = next;
            }
        }

        let restored = driver.resume(state.copied()).expect("validates");
        assert_eq!(restored.episode(), state.episode());
        assert_eq!(restored.ledger(), state.ledger());
        assert_eq!(
            restored.seen().delivered_through,
            state.seen().delivered_through
        );
        assert_eq!(restored.receipts, state.receipts);
    }
}

#[test]
fn every_refusal_says_what_went_wrong() {
    assert_eq!(
        Error::AwaitingReply {
            agent_id: "one".into(),
            waiting_on: vec!["two".into(), "three".into()],
        }
        .message(),
        "participant `one` is still waiting on [\"two\", \"three\"] and may not complete"
    );
    assert_eq!(
        Error::PartialRound {
            expected: 2,
            received: 0
        }
        .message(),
        "committed round is partial: expected 2, received 0"
    );
    assert_eq!(
        Error::Completion(tinyhivemind_verified::completion::Error::NoOpenAssignment {
            agent_id: "solver".into()
        })
        .message(),
        "`solver` has no open assignment to complete"
    );
    assert_eq!(
        Error::MembershipMismatch {
            collection: "bindings".into(),
            missing: vec![],
            outsiders: vec![],
        }
        .message(),
        "bindings ids do not equal desk membership"
    );
}
