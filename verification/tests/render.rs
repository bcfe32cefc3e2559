//! The rendering is the vocabulary, verbatim, plus the two thread arguments.

use tinyhivemind_verified::render::{
    parse_arguments, served_specs, serves, tool_definitions, Arguments, ParameterKind, RawArguments,
    RawRecipients, SchemaKind, ToolDefinition, ToolParameter, ToolSpec,
};

fn parameter(name: &str, required: bool, kind: ParameterKind) -> ToolParameter {
    ToolParameter {
        name: name.into(),
        description: Some(format!("the {name}")),
        required,
        kind,
    }
}

/// A vocabulary in the shape the desk speaks: six tools, two withheld.
fn tool_specs() -> Vec<ToolSpec> {
    vec![
        ToolSpec {
            name: "post".into(),
            description: "Say something on the desk.".into(),
            parameters: vec![parameter("message", true, ParameterKind::Text)],
        },
        ToolSpec {
            name: "dm".into(),
            description: "Send a private message to named peers.".into(),
            parameters: vec![
                parameter("to", true, ParameterKind::TextList),
                parameter("message", true, ParameterKind::Text),
            ],
        },
        ToolSpec {
            name: "broadcast".into(),
            description: "Hand work off to whoever the desk routes it to.".into(),
            parameters: vec![parameter("message", true, ParameterKind::Text)],
        },
        ToolSpec {
            name: "ask".into(),
            description: "Ask one peer a question; you wait for the answer.".into(),
            parameters: vec![
                parameter("to", true, ParameterKind::Text),
                parameter("message", true, ParameterKind::Text),
            ],
        },
        ToolSpec {
            name: "complete_episode".into(),
            description: "Record that your part is done; the message is your finding.".into(),
            parameters: vec![parameter("message", true, ParameterKind::Text)],
        },
        ToolSpec {
            name: "read".into(),
            description: "Read the most recent rows.".into(),
            parameters: vec![parameter(
                "limit",
                false,
                ParameterKind::Count {
                    default: 20,
                    min: 1,
                    max: 100,
                },
            )],
        },
    ]
}

fn names(seats: &[String]) -> Vec<String> {
    tool_definitions(&tool_specs(), &seats.to_vec())
        .iter()
        .map(|tool| tool.name.clone())
        .collect()
}

fn property<'a>(tool: &'a ToolDefinition, name: &str) -> &'a tinyhivemind_verified::render::Property {
    tool.properties
        .iter()
        .find(|property| property.name == name)
        .expect("property")
}

#[test]
fn serves_the_vocabulary_minus_post_and_dm_in_its_order() {
    let specs = tool_specs();
    assert_eq!(names(&[]), ["broadcast", "ask", "complete_episode", "read"]);
    assert!(!serves(&specs, "dm"));
    assert!(!serves(&specs, "post"));
    assert!(serves(&specs, "ask"));
    assert!(!serves(&specs, "shout"), "a name outside the vocabulary is not served");
    assert_eq!(specs.len(), names(&[]).len() + 2, "exactly two tools are withheld");
    assert_eq!(served_specs(&specs).len(), 4);
}

#[test]
fn descriptions_are_the_specs_own_words() {
    let specs = tool_specs();
    for tool in tool_definitions(&specs, &Vec::new()) {
        let spec = specs
            .iter()
            .find(|spec| spec.name == tool.name)
            .expect("served tools are specs");
        assert_eq!(tool.description, spec.description);
    }
}

#[test]
fn every_tool_takes_chat_and_optionally_parent() {
    for tool in tool_definitions(&tool_specs(), &Vec::new()) {
        assert_eq!(property(&tool, "chat").kind, SchemaKind::Text);
        assert_eq!(property(&tool, "parent").kind, SchemaKind::TextOrNull);
        assert!(tool.required.contains(&"chat".to_string()), "{}", tool.name);
        assert!(!tool.required.contains(&"parent".to_string()), "{}", tool.name);
    }
}

#[test]
fn ask_offers_the_seats_as_its_choices() {
    let seats = vec!["lead".to_string(), "solver".to_string()];
    let ask = tool_definitions(&tool_specs(), &seats)
        .into_iter()
        .find(|tool| tool.name == "ask")
        .unwrap();
    let to = property(&ask, "to");
    assert_eq!(to.choices, Some(vec!["lead".to_string(), "solver".to_string()]));
    assert_eq!(to.kind, SchemaKind::Text);
    let broadcast = tool_definitions(&tool_specs(), &seats)
        .into_iter()
        .find(|tool| tool.name == "broadcast")
        .unwrap();
    assert_eq!(property(&broadcast, "message").choices, None);
}

#[test]
fn read_renders_its_bounds_as_the_schema_says() {
    let read = tool_definitions(&tool_specs(), &Vec::new())
        .into_iter()
        .find(|tool| tool.name == "read")
        .unwrap();
    assert_eq!(
        property(&read, "limit").kind,
        SchemaKind::Count {
            default: 20,
            min: 1,
            max: 100
        }
    );
    assert!(!read.required.contains(&"limit".to_string()));
    assert_eq!(read.required, ["chat"]);
}

#[test]
fn arguments_are_read_from_every_shape_a_dispatcher_sends() {
    let expected = Arguments {
        message: Some("hi".into()),
        to: vec!["solver".into()],
        limit: Some(3),
        chat: Some("eng".into()),
        parent: Some("42".into()),
    };
    let raw = RawArguments {
        message: Some("hi".into()),
        to: RawRecipients::One("solver".into()),
        limit: Some(3),
        chat: Some("eng".into()),
        parent: Some("42".into()),
    };
    assert_eq!(parse_arguments(&raw), expected);
}

fn only_to(to: RawRecipients) -> RawArguments {
    RawArguments {
        message: None,
        to,
        limit: None,
        chat: None,
        parent: None,
    }
}

#[test]
fn to_is_read_as_one_seat_or_several() {
    let one = parse_arguments(&only_to(RawRecipients::One("solver".into())));
    assert_eq!(one.to, ["solver"]);
    let many = parse_arguments(&only_to(RawRecipients::Many(vec![
        Some("solver".into()),
        Some("checker".into()),
        None,
    ])));
    assert_eq!(
        many.to,
        ["solver", "checker"],
        "a non-string entry is dropped here, not refused"
    );
    let none = parse_arguments(&only_to(RawRecipients::Absent));
    assert!(none.to.is_empty());
    assert_eq!(parse_arguments(&only_to(RawRecipients::Absent)).parent, None);
}

#[test]
fn a_parameter_named_like_a_thread_argument_is_replaced_not_repeated() {
    let specs = vec![ToolSpec {
        name: "note".into(),
        description: "Note something.".into(),
        parameters: vec![parameter("chat", false, ParameterKind::TextList)],
    }];
    let tools = tool_definitions(&specs, &Vec::new());
    let names: Vec<&str> = tools[0].properties.iter().map(|p| p.name.as_str()).collect();
    assert_eq!(names, ["chat", "parent"]);
    assert_eq!(property(&tools[0], "chat").kind, SchemaKind::Text);
}

#[test]
fn a_tool_that_names_chat_or_parent_itself_still_takes_each_once() {
    let specs = vec![ToolSpec {
        name: "reply".into(),
        description: "Answer in a thread.".into(),
        parameters: vec![
            parameter("chat", false, ParameterKind::TextList),
            parameter("parent", true, ParameterKind::Text),
        ],
    }];
    let tools = tool_definitions(&specs, &Vec::new());
    assert_eq!(tools.len(), 1);
    let tool = &tools[0];
    assert_eq!(tool.properties.iter().filter(|p| p.name == "chat").count(), 1);
    assert_eq!(tool.properties.iter().filter(|p| p.name == "parent").count(), 1);
    assert_eq!(property(tool, "chat").kind, SchemaKind::Text);
    assert_eq!(property(tool, "parent").kind, SchemaKind::TextOrNull);
    assert_eq!(tool.required, ["parent", "chat"]);
}
