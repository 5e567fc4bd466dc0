use lenso_terminal::cli::{
    build_tree, matches_catalog_path, resolve_command, supports_output, validate_choices,
    FoundValue, ParseOutcome,
};
use lenso_terminal::contract::{CommandDefinition, CommandParameter, OutputFormat, ParameterKind};
use lenso_terminal::clap_bridge::ClapAnswer;
use lenso_terminal::accept::ready_to_parse;
use lenso_terminal::parse::{
    find_leaf, found_values, parse_args, parse_line, parse_line_checked, resolve_answer,
    split_command_line,
};
use serde_json::Value;

fn catalog() -> Vec<CommandDefinition> {
    vec![CommandDefinition {
        id: "agent.session.show".to_owned(),
        path: vec!["sessions".to_owned(), "show".to_owned()],
        summary: "Show a session".to_owned(),
        description: "Show one durable session.".to_owned(),
        parameters: vec![
            CommandParameter {
                id: "session_id".to_owned(),
                kind: ParameterKind::Positional,
                long: None,
                short: None,
                value_name: Some(Some("SESSION_ID".to_owned())),
                description: String::new(),
                required: true,
                multiple: false,
                choices: Vec::new(),
            },
            CommandParameter {
                id: "limit".to_owned(),
                kind: ParameterKind::Option,
                long: Some(Some("limit".to_owned())),
                short: Some(Some("n".to_owned())),
                value_name: Some(Some("LIMIT".to_owned())),
                description: String::new(),
                required: false,
                multiple: false,
                choices: Vec::new(),
            },
        ],
        output_formats: vec![OutputFormat::Text, OutputFormat::Json],
    }]
}

fn strings(args: &[&str]) -> Vec<String> {
    args.iter().map(|a| (*a).to_owned()).collect()
}

fn object(entries: &[(&str, Value)]) -> Value {
    let mut map = serde_json::Map::new();
    for (key, value) in entries {
        map.insert((*key).to_owned(), value.clone());
    }
    Value::Object(map)
}

fn parsed_json(text: &str) -> Value {
    serde_json::from_str::<Value>(text).unwrap()
}

fn tagging_catalog() -> Vec<CommandDefinition> {
    let mut command = catalog().remove(0);
    command.id = "agent.session.tag".to_owned();
    command.path = strings(&["sessions", "tag"]);
    command.output_formats = vec![OutputFormat::Text];
    command.parameters = vec![
        CommandParameter {
            id: "tags".to_owned(),
            kind: ParameterKind::Positional,
            long: None,
            short: None,
            value_name: Some(Some("TAG".to_owned())),
            description: String::new(),
            required: true,
            multiple: true,
            choices: vec!["red".to_owned(), "blue".to_owned()],
        },
        CommandParameter {
            id: "force".to_owned(),
            kind: ParameterKind::Flag,
            long: Some(Some("force".to_owned())),
            short: Some(Some("f".to_owned())),
            value_name: None,
            description: String::new(),
            required: false,
            multiple: false,
            choices: Vec::new(),
        },
    ];
    let mut all = catalog();
    all.push(command);
    all
}

#[test]
fn leaves_unrelated_cli_commands_for_the_product_parser() {
    let args = vec!["sessions".to_owned(), "export".to_owned()];
    assert_eq!(
        parse_args(&catalog(), "agent", &args).unwrap(),
        ParseOutcome::NoMatch
    );
}

#[test]
fn renders_group_help_without_claiming_static_siblings() {
    let args = ["sessions"].map(str::to_owned);
    let ParseOutcome::Help(help) = parse_args(&catalog(), "agent", &args).unwrap() else {
        panic!("expected catalog group help");
    };
    assert!(help.contains("show"));

    let static_sibling = ["sessions", "export"].map(str::to_owned);
    assert_eq!(
        parse_args(&catalog(), "agent", &static_sibling).unwrap(),
        ParseOutcome::NoMatch
    );
}

#[test]
fn parses_nested_commands_into_provider_owned_json() {
    let args = ["sessions", "show", "s-123", "--limit", "40", "--json"].map(str::to_owned);
    let ParseOutcome::Command(parsed) = parse_args(&catalog(), "agent", &args).unwrap() else {
        panic!("expected a parsed command");
    };
    assert_eq!(parsed.id, "agent.session.show");
    assert_eq!(parsed.output_format, OutputFormat::Json);
    assert_eq!(
        serde_json::from_str::<serde_json::Value>(&parsed.arguments_json).unwrap(),
        object(&[
            ("session_id", Value::String("s-123".to_owned())),
            ("limit", Value::String("40".to_owned())),
        ])
    );
}

#[test]
fn supports_tui_quoting() {
    let parsed = parse_line(&catalog(), "agent", "sessions show 'session one'").unwrap();
    let ParseOutcome::Command(parsed) = parsed else {
        panic!("expected a parsed command");
    };
    assert!(parsed.arguments_json.contains("session one"));
}

#[test]
fn rejects_leaf_group_ambiguity() {
    let mut catalog = catalog();
    let mut parent = catalog[0].clone();
    parent.id = "agent.sessions".to_owned();
    parent.path.pop();
    catalog.push(parent);
    let error = build_tree(&catalog).err().expect("prefix leaf must fail");
    assert!(error.message().contains("also a command group"));
}

#[test]
fn reports_the_leaf_group_path() {
    let mut catalog = catalog();
    let mut parent = catalog[0].clone();
    parent.id = "agent.sessions".to_owned();
    parent.path.pop();
    catalog.push(parent);
    let error = build_tree(&catalog).err().unwrap();
    assert_eq!(
        error.message(),
        "terminal command path `sessions` is also a command group"
    );
    let args = strings(&["sessions", "show", "s-1"]);
    assert_eq!(
        parse_args(&catalog, "agent", &args).unwrap_err().message(),
        "terminal command path `sessions` is also a command group"
    );
}

#[test]
fn rejects_duplicate_tree_entries() {
    let mut catalog = catalog();
    catalog.push(catalog[0].clone());
    assert_eq!(
        build_tree(&catalog).err().unwrap().message(),
        "invalid or duplicate terminal command id `agent.session.show`"
    );
    catalog[1].id = "agent.session.view".to_owned();
    assert_eq!(
        build_tree(&catalog).err().unwrap().message(),
        "duplicate terminal command path `sessions show`"
    );
    let mut rootless = self::catalog();
    rootless[0].path.clear();
    assert_eq!(
        build_tree(&rootless).err().unwrap().message(),
        "invalid or duplicate terminal command id `agent.session.show`"
    );
}

#[test]
fn builds_the_tree_of_a_catalog() {
    let tree = build_tree(&tagging_catalog()).unwrap();
    assert!(tree.definition.is_none());
    assert_eq!(tree.children.len(), 1);
    assert_eq!(tree.children[0].name, "sessions");
    let group = &tree.children[0].node;
    assert!(group.definition.is_none());
    let names: Vec<&str> = group.children.iter().map(|c| c.name.as_str()).collect();
    assert_eq!(names, vec!["show", "tag"]);
    assert_eq!(group.children[0].node.definition, Some(0));
    assert_eq!(group.children[1].node.definition, Some(1));
}

#[test]
fn targets_leaves_and_group_prefixes() {
    let catalog = catalog();
    assert!(matches_catalog_path(&catalog, &strings(&["sessions", "show", "x"])));
    assert!(matches_catalog_path(&catalog, &strings(&["sessions"])));
    assert!(matches_catalog_path(&catalog, &strings(&["sessions", "--help"])));
    assert!(matches_catalog_path(&catalog, &strings(&["sessions", "show", "-h"])));
    assert!(!matches_catalog_path(&catalog, &strings(&[])));
    assert!(!matches_catalog_path(&catalog, &strings(&["--help"])));
    assert!(!matches_catalog_path(&catalog, &strings(&["sessions", "export"])));
    assert!(!matches_catalog_path(&catalog, &strings(&["show"])));
}

#[test]
fn renders_leaf_help() {
    let args = strings(&["sessions", "show", "--help"]);
    let ParseOutcome::Help(help) = parse_args(&catalog(), "agent", &args).unwrap() else {
        panic!("expected leaf help");
    };
    assert!(help.contains("--limit"));
    assert!(help.contains("--json"));
}

#[test]
fn reports_clap_errors() {
    let missing = strings(&["sessions", "show"]);
    assert!(parse_args(&catalog(), "agent", &missing).is_err());
    let unknown = strings(&["sessions", "show", "s-1", "--bogus"]);
    assert!(parse_args(&catalog(), "agent", &unknown).is_err());
}

#[test]
fn selects_text_unless_json_is_asked_for() {
    let args = strings(&["sessions", "show", "s-1", "-n", "7"]);
    let ParseOutcome::Command(parsed) = parse_args(&catalog(), "agent", &args).unwrap() else {
        panic!("expected a parsed command");
    };
    assert_eq!(parsed.output_format, OutputFormat::Text);
    assert_eq!(
        parsed_json(&parsed.arguments_json),
        object(&[
            ("session_id", Value::String("s-1".to_owned())),
            ("limit", Value::String("7".to_owned())),
        ])
    );

    let mut json_only = catalog();
    json_only[0].output_formats = vec![OutputFormat::Json];
    let args = strings(&["sessions", "show", "s-1"]);
    let ParseOutcome::Command(parsed) = parse_args(&json_only, "agent", &args).unwrap() else {
        panic!("expected a parsed command");
    };
    assert_eq!(parsed.output_format, OutputFormat::Json);
    assert_eq!(
        parsed_json(&parsed.arguments_json),
        object(&[("session_id", Value::String("s-1".to_owned()))])
    );
}

#[test]
fn collects_repeated_values_and_flags() {
    let args = strings(&["sessions", "tag", "red", "blue", "--force"]);
    let ParseOutcome::Command(parsed) = parse_args(&tagging_catalog(), "agent", &args).unwrap()
    else {
        panic!("expected a parsed command");
    };
    assert_eq!(parsed.id, "agent.session.tag");
    assert_eq!(parsed.output_format, OutputFormat::Text);
    assert_eq!(
        parsed_json(&parsed.arguments_json),
        object(&[
            (
                "tags",
                Value::Array(vec![
                    Value::String("red".to_owned()),
                    Value::String("blue".to_owned())
                ])
            ),
            ("force", Value::Bool(true)),
        ])
    );

    let args = strings(&["sessions", "tag", "red"]);
    let ParseOutcome::Command(parsed) = parse_args(&tagging_catalog(), "agent", &args).unwrap()
    else {
        panic!("expected a parsed command");
    };
    assert_eq!(
        parsed_json(&parsed.arguments_json),
        object(&[("tags", Value::Array(vec![Value::String("red".to_owned())]))])
    );

    let args = strings(&["sessions", "tag", "red", "green"]);
    assert_eq!(
        parse_args(&tagging_catalog(), "agent", &args)
            .unwrap_err()
            .message(),
        "invalid value for `tags`; expected one of red, blue"
    );
}

#[test]
fn rejects_unterminated_quotes() {
    let error = parse_line(&catalog(), "agent", "sessions show 'open").unwrap_err();
    assert_eq!(
        error.message(),
        "invalid command quoting: missing closing quote"
    );
    assert_eq!(
        parse_line(&catalog(), "agent", "sessions \"export\"").unwrap(),
        ParseOutcome::NoMatch
    );
}

#[test]
fn rejects_values_outside_the_choices() {
    let mut parameter = catalog()[0].parameters[1].clone();
    parameter.choices = vec!["10".to_owned(), "40".to_owned()];
    assert!(validate_choices(&parameter, &strings(&["40", "10"])).is_ok());
    assert!(validate_choices(&parameter, &strings(&[])).is_ok());
    assert_eq!(
        validate_choices(&parameter, &strings(&["10", "99"]))
            .unwrap_err()
            .message(),
        "invalid value for `limit`; expected one of 10, 40"
    );
    parameter.choices.clear();
    assert!(validate_choices(&parameter, &strings(&["anything"])).is_ok());
}

#[test]
fn checks_offered_output_formats() {
    let command = catalog().remove(0);
    assert!(supports_output(&command, &OutputFormat::Json));
    let mut text_only = command;
    text_only.output_formats = vec![OutputFormat::Text];
    assert!(!supports_output(&text_only, &OutputFormat::Json));
    assert!(supports_output(&text_only, &OutputFormat::Text));
}

#[test]
fn resolves_found_values_into_an_envelope() {
    let definition = tagging_catalog().remove(1);
    let found = vec![
        FoundValue::Many(Some(strings(&["blue"]))),
        FoundValue::Flag(false),
    ];
    let parsed = resolve_command(&definition, &found, false).unwrap();
    assert_eq!(parsed.id, "agent.session.tag");
    assert_eq!(parsed.output_format, OutputFormat::Text);
    assert_eq!(
        parsed_json(&parsed.arguments_json),
        object(&[("tags", Value::Array(vec![Value::String("blue".to_owned())]))])
    );

    let found = vec![FoundValue::Many(Some(strings(&["pink"])))];
    assert_eq!(
        resolve_command(&definition, &found, false)
            .unwrap_err()
            .message(),
        "invalid value for `tags`; expected one of red, blue"
    );

    let parsed = resolve_command(&definition, &Vec::new(), true).unwrap();
    assert_eq!(parsed.arguments_json, "{}");
    assert_eq!(parsed.output_format, OutputFormat::Json);
}

#[test]
fn finds_the_first_leaf_with_a_path() {
    let catalog = tagging_catalog();
    assert_eq!(find_leaf(&catalog, &strings(&["sessions", "tag"])).unwrap(), 1);
    assert_eq!(find_leaf(&catalog, &strings(&["sessions", "show"])).unwrap(), 0);
    assert_eq!(
        find_leaf(&catalog, &strings(&["sessions"]))
            .unwrap_err()
            .message(),
        "parsed command does not identify a catalog leaf"
    );
}

#[test]
fn turns_clap_answers_into_outcomes() {
    let catalog = catalog();
    let help = resolve_answer(&catalog, ClapAnswer::Help("Usage: agent".to_owned()));
    assert_eq!(help.unwrap(), ParseOutcome::Help("Usage: agent".to_owned()));
    let error = resolve_answer(&catalog, ClapAnswer::Failure("error: unexpected argument".to_owned()));
    assert_eq!(error.unwrap_err().message(), "error: unexpected argument");

    let matched = ClapAnswer::Matched(
        strings(&["sessions", "show"]),
        vec![
            ("session_id".to_owned(), strings(&["s-9"])),
            ("__lenso_output_json".to_owned(), strings(&["true"])),
        ],
    );
    let ParseOutcome::Command(parsed) = resolve_answer(&catalog, matched).unwrap() else {
        panic!("expected a parsed command");
    };
    assert_eq!(parsed.id, "agent.session.show");
    assert_eq!(parsed.output_format, OutputFormat::Json);
    assert_eq!(
        parsed_json(&parsed.arguments_json),
        object(&[("session_id", Value::String("s-9".to_owned()))])
    );

    let unmatched = ClapAnswer::Matched(strings(&["sessions"]), Vec::new());
    assert_eq!(
        resolve_answer(&catalog, unmatched).unwrap_err().message(),
        "parsed command does not identify a catalog leaf"
    );
}

#[test]
fn reads_found_values_from_raw_values() {
    let definition = tagging_catalog().remove(1);
    let values = vec![
        ("force".to_owned(), strings(&["false"])),
        ("tags".to_owned(), strings(&["red", "blue"])),
    ];
    let found = found_values(&definition, &values);
    assert!(matches!(&found[0], FoundValue::Many(Some(v)) if v == &strings(&["red", "blue"])));
    assert!(matches!(found[1], FoundValue::Flag(false)));
}

#[test]
fn splits_command_lines_with_shell_quoting() {
    assert_eq!(
        split_command_line("sessions show 'session one'").unwrap(),
        strings(&["sessions", "show", "session one"])
    );
    assert_eq!(
        split_command_line("a \"b").unwrap_err().message(),
        "invalid command quoting: missing closing quote"
    );
}

#[test]
fn leaves_non_targeting_arguments_alone_on_any_catalog() {
    let mut conflicting = catalog();
    conflicting[0].parameters[1].long = Some(Some("help".to_owned()));
    let args = strings(&["export", "all"]);
    assert_eq!(parse_args(&conflicting, "agent", &args).unwrap(), ParseOutcome::NoMatch);
}

#[test]
fn parses_a_text_only_leaf() {
    let catalog = vec![CommandDefinition {
        id: "project.show".to_owned(),
        path: strings(&["project", "show"]),
        summary: "s".to_owned(),
        description: String::new(),
        parameters: Vec::new(),
        output_formats: vec![OutputFormat::Text],
    }];
    let ParseOutcome::Command(parsed) =
        parse_args(&catalog, "agent", &strings(&["project", "show"])).unwrap()
    else {
        panic!("expected a parsed command");
    };
    assert_eq!(parsed.id, "project.show");
    assert_eq!(parsed.arguments_json, "{}");
    assert_eq!(parsed.output_format, OutputFormat::Text);
}

/// The show command next to one whose option takes the help flag's long name.
fn catalog_with_a_conflicting_sibling() -> Vec<CommandDefinition> {
    let mut catalog = catalog();
    let mut conflicting = catalog[0].clone();
    conflicting.id = "agent.session.drop".to_owned();
    conflicting.path = strings(&["sessions", "drop"]);
    conflicting.parameters[1].long = Some(Some("help".to_owned()));
    catalog.push(conflicting);
    catalog
}

#[test]
fn parses_a_command_next_to_one_clap_rejects() {
    let catalog = catalog_with_a_conflicting_sibling();
    let args = strings(&["sessions", "show", "s1"]);
    assert!(ready_to_parse(&catalog, &args));
    let ParseOutcome::Command(parsed) = parse_args(&catalog, "agent", &args).unwrap() else {
        panic!("expected a parsed command");
    };
    assert_eq!(parsed.id, "agent.session.show");
    assert_eq!(parsed_json(&parsed.arguments_json), object(&[("session_id", Value::from("s1"))]));
}

#[test]
fn refuses_to_match_a_command_clap_rejects() {
    let catalog = catalog_with_a_conflicting_sibling();
    assert!(!ready_to_parse(&catalog, &strings(&["sessions", "drop", "s1"])));
    assert!(!ready_to_parse(&catalog, &strings(&["sessions", "--verbose"])));
    assert!(ready_to_parse(&catalog, &strings(&["sessions", "-h"])));
    assert!(ready_to_parse(&catalog, &strings(&["sessions", "--help"])));
    assert!(parse_line_checked(&catalog, "agent", "sessions drop s1").is_none());
}

#[test]
fn checked_line_parsing_parses_what_may_be_parsed() {
    let catalog = catalog_with_a_conflicting_sibling();
    let ParseOutcome::Command(parsed) =
        parse_line_checked(&catalog, "agent", "sessions show 's 1'").unwrap().unwrap()
    else {
        panic!("expected a parsed command");
    };
    assert_eq!(parsed_json(&parsed.arguments_json), object(&[("session_id", Value::from("s 1"))]));
    assert_eq!(
        parse_line_checked(&catalog, "agent", "export all").unwrap().unwrap(),
        ParseOutcome::NoMatch
    );
    assert_eq!(
        parse_line_checked(&catalog, "agent", "sessions drop 'x").unwrap().unwrap_err().message(),
        "invalid command quoting: missing closing quote"
    );
    let ParseOutcome::Help(help) =
        parse_line_checked(&catalog, "agent", "sessions --help").unwrap().unwrap()
    else {
        panic!("expected help");
    };
    assert!(help.contains("show"));
}
