//! The brief says what the episode knows, and only that.

use tinyhivemind_verified::completion::CompletionEpisodeState;
use tinyhivemind_verified::driver::brief::{standing_contract, Channel, ConversationView, EpisodeBrief};
use tinyhivemind_verified::driver::fold::Folded;
use tinyhivemind_verified::driver::receipts::CommittedUtterance;
use tinyhivemind_verified::driver::setup::CompletionDriver;
use tinyhivemind_verified::driver::state::DriverState;
use tinyhivemind_verified::graph::{AgentBinding, BoundAgent, HiveGraph, OpenHumanHive};
use tinyhivemind_verified::render::{ParameterKind, ToolParameter, ToolSpec};
use tinyhivemind_verified::routing::{Desk, RouteCandidate};
use tinyhivemind_verified::types::{Conversation, Sequence, Utterance};

#[derive(Clone, Debug, PartialEq)]
struct Seat {
    runtime_id: String,
}

impl BoundAgent for Seat {
    fn runtime_id(&self) -> &str {
        &self.runtime_id
    }
}

fn hive() -> OpenHumanHive<Seat> {
    let ids = ["one", "two", "three", "four"];
    OpenHumanHive::new(
        HiveGraph::new(
            Desk {
                id: "engineering".into(),
                name: "Engineering".into(),
                description: None,
                members: ids.iter().map(|id| (*id).into()).collect(),
            },
            ids.iter()
                .map(|id| RouteCandidate {
                    id: (*id).into(),
                    label: (*id).into(),
                    role: None,
                    description: None,
                    capabilities: Vec::new(),
                    learned_topics: Vec::new(),
                    available: true,
                })
                .collect(),
        ),
        ids.iter()
            .map(|id| {
                AgentBinding::new(
                    (*id).into(),
                    Seat {
                        runtime_id: format!("runtime-{id}"),
                    },
                )
            })
            .collect(),
    )
    .expect("fixture hive validates")
}

fn episode(participants: &[&str]) -> CompletionEpisodeState {
    CompletionEpisodeState::opened(
        Conversation {
            desk_id: "engineering".into(),
            desk_name: "Engineering".into(),
            thread_root: None,
        },
        Sequence(0),
        participants,
    )
    .expect("fixture episode opens")
}

fn fold(
    driver: &CompletionDriver<'_, Seat>,
    state: &DriverState,
    author: &str,
    sequence: u64,
    utterance: Utterance,
) -> DriverState {
    let event = CommittedUtterance {
        author_id: author.into(),
        sequence: Sequence(sequence),
        utterance,
    };
    match driver.apply_committed(state, event, None).expect("folds") {
        Folded::Done(transition) => transition.state,
        Folded::Route(_) => panic!("only broadcasts are routed"),
    }
}

fn state_with_an_ask(hive: &OpenHumanHive<Seat>) -> DriverState {
    let driver = CompletionDriver::new(hive, 4).expect("driver");
    let state = driver.start(episode(&["one", "two"])).expect("state");
    fold(
        &driver,
        &state,
        "one",
        1,
        Utterance::Ask {
            to: "two".into(),
            message: "?".into(),
        },
    )
}

#[test]
fn a_desk_brief_carries_assignment_waiting_and_the_parent_it_must_name() {
    let hive = hive();
    let state = state_with_an_ask(&hive);
    let brief = EpisodeBrief::for_turn(
        &state,
        "engineering".into(),
        "one".into(),
        Channel::Desk,
        vec!["@two: hello".into()],
        Vec::new(),
    );
    assert_eq!(brief.assignment, Some(Sequence(0)));
    assert_eq!(brief.awaiting, ["two"]);
    assert_eq!(brief.queued, 0);
    assert_eq!(brief.parent(), None);
    let text = brief.render();
    assert!(text.contains("## New desk messages\n@two: hello"));
    assert!(text.contains("Your assignment was made at sequence 0."));
    assert!(text.contains("Record your part with `complete_episode`"));
    assert!(text.contains("A reply that calls no tool records nothing."));
    assert!(text.contains("cannot complete until your conversation with @two concludes"));
    assert!(text.contains("\"chat\": \"engineering\" and \"parent\": null"));
    assert!(!text.contains("Conversations"), "none were given");
}

#[test]
fn a_seat_with_nothing_open_is_told_so_and_shown_nothing_new_plainly() {
    let hive = hive();
    let driver = CompletionDriver::new(&hive, 4).expect("driver");
    let state = driver.start(episode(&["one", "two"])).expect("state");
    let done = fold(
        &driver,
        &state,
        "two",
        1,
        Utterance::CompleteEpisode {
            message: "done".into(),
        },
    );
    let text = EpisodeBrief::for_turn(
        &done,
        "engineering".into(),
        "two".into(),
        Channel::Desk,
        Vec::new(),
        Vec::new(),
    )
    .render();
    assert!(text.contains("(nothing new)"));
    assert!(text.contains("You hold no open assignment."));
}

#[test]
fn conversations_are_split_into_concluded_and_in_progress_with_their_transcripts() {
    let hive = hive();
    let state = state_with_an_ask(&hive);
    let brief = EpisodeBrief::for_turn(
        &state,
        "engineering".into(),
        "one".into(),
        Channel::Desk,
        Vec::new(),
        vec![
            ConversationView {
                root: Sequence(1),
                other: "two".into(),
                opened_it: true,
                transcript: vec!["@one: ?".into(), "@two: because".into()],
                concluded: true,
            },
            ConversationView {
                root: Sequence(4),
                other: "three".into(),
                opened_it: false,
                transcript: vec!["@three: and you?".into()],
                concluded: false,
            },
        ],
    );
    let text = brief.render();
    let concluded_at = text
        .find("## Conversations you had since you last spoke")
        .expect("concluded");
    let open_at = text
        .find("## Conversations still in progress")
        .expect("open");
    assert!(concluded_at < open_at, "concluded first, then open");
    assert!(text.contains("### With @two (thread 1)\n@one: ?\n@two: because"));
    assert!(text.contains("### With @three (thread 4) -- in progress\n@three: and you?"));
}

#[test]
fn a_thread_brief_names_its_root_as_the_parent_and_says_which_side_the_seat_is_on() {
    let hive = hive();
    let state = state_with_an_ask(&hive);
    let asker = EpisodeBrief::for_turn(
        &state,
        "engineering".into(),
        "one".into(),
        Channel::Thread {
            root: Sequence(1),
            other: "two".into(),
            opened_it: true,
        },
        vec!["@two: because".into()],
        Vec::new(),
    );
    assert_eq!(asker.parent(), Some("1".into()));
    let text = asker.render();
    assert!(text.contains("## A private conversation with @two (thread 1)\n@two: because"));
    assert!(text.contains("You opened this conversation"));
    assert!(text.contains("\"parent\": \"1\""));
    assert!(text.contains("`ask` is not available inside a conversation"));
    let answerer = EpisodeBrief::for_turn(
        &state,
        "engineering".into(),
        "two".into(),
        Channel::Thread {
            root: Sequence(1),
            other: "one".into(),
            opened_it: false,
        },
        Vec::new(),
        Vec::new(),
    );
    assert!(answerer.render().contains("A peer asked you this."));
}

#[test]
fn a_seat_with_queued_handoffs_is_told_how_many_wait() {
    let hive = hive();
    let driver = CompletionDriver::new(&hive, 4).expect("driver");
    let state = driver.start(episode(&["one", "two"])).expect("state");
    let mut brief = EpisodeBrief::for_turn(
        &state,
        "engineering".into(),
        "two".into(),
        Channel::Desk,
        Vec::new(),
        Vec::new(),
    );
    assert_eq!(brief.queued, 0);
    brief.queued = 2;
    assert!(brief
        .render()
        .contains(" 2 handoff(s) wait for you and arrive when you complete."));
    assert_eq!(
        EpisodeBrief::for_turn(
            &state,
            "engineering".into(),
            "two".into(),
            Channel::Thread {
                root: Sequence(12),
                other: "one".into(),
                opened_it: false
            },
            Vec::new(),
            Vec::new(),
        )
        .parent(),
        Some("12".into())
    );
}

fn spec(name: &str, description: &str, parameters: &[&str]) -> ToolSpec {
    ToolSpec {
        name: name.into(),
        description: description.into(),
        parameters: parameters
            .iter()
            .map(|parameter| ToolParameter {
                name: (*parameter).into(),
                description: None,
                required: true,
                kind: ParameterKind::Text,
            })
            .collect(),
    }
}

fn tool_specs() -> Vec<ToolSpec> {
    vec![
        spec("post", "Say something on the desk.", &["message"]),
        spec("dm", "Send a private message to named peers.", &["to", "message"]),
        spec("broadcast", "Hand work off to whoever the desk routes it to.", &["message"]),
        spec("ask", "Ask one peer a question; you wait for the answer.", &["to", "message"]),
        spec(
            "complete_episode",
            "Record that your part is done; the message is your finding.",
            &["message"],
        ),
        spec("read", "Read the most recent rows.", &["limit"]),
    ]
}

#[test]
fn the_standing_contract_is_the_specs_own_words_with_the_hosts_one_sentence() {
    let served: Vec<ToolSpec> = tool_specs()
        .into_iter()
        .filter(|spec| spec.name != "dm")
        .collect();
    let text = standing_contract(
        &served,
        "engineering",
        "Use `mcp_call_tool` with `server: \"episode\"`.",
    );
    assert!(text.starts_with("Your work is recorded by calling a tool."));
    assert!(text.contains("Use `mcp_call_tool` with `server: \"episode\"`."));
    for name in ["post", "broadcast", "ask", "complete_episode", "read"] {
        assert!(text.contains(&format!("tool \"{name}\"")), "{name}");
    }
    assert!(!text.contains("tool \"dm\""));
    let ask = tool_specs()
        .into_iter()
        .find(|spec| spec.name == "ask")
        .expect("ask");
    assert!(
        text.contains(&ask.description),
        "descriptions travel verbatim"
    );
    assert!(text.contains("arguments {\"to\": ..., \"message\": ...}"));
}
