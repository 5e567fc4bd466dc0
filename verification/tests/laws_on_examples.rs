use lenso_terminal::accept::clap_accepts;
use lenso_terminal::catalog::validate_catalog;
use lenso_terminal::cli::{build_tree, matches_catalog_path, ParseOutcome};
use lenso_terminal::contract::{
    CommandDefinition, CommandParameter, ExecuteError, ExecuteOpen, OutputFormat, ParameterKind,
};
use lenso_terminal::parse::parse_args;
use lenso_terminal::runtime::{
    build_runtime_state, map_open_error, route_execute, Capability, ExecutionFailure,
    ProviderExecuteError, ProviderOpenError, RuntimeFailure,
};

fn command(id: &str, path: &[&str], formats: Vec<OutputFormat>) -> CommandDefinition {
    CommandDefinition {
        id: id.to_owned(),
        path: path.iter().map(|segment| (*segment).to_owned()).collect(),
        summary: id.to_owned(),
        description: String::new(),
        parameters: Vec::new(),
        output_formats: formats,
    }
}

fn flag(id: &str, long: &str, short: Option<&str>) -> CommandParameter {
    CommandParameter {
        id: id.to_owned(),
        kind: ParameterKind::Flag,
        long: Some(Some(long.to_owned())),
        short: short.map(|s| Some(s.to_owned())),
        value_name: None,
        description: String::new(),
        required: false,
        multiple: false,
        choices: Vec::new(),
    }
}

fn positional(id: &str, required: bool, multiple: bool) -> CommandParameter {
    CommandParameter {
        id: id.to_owned(),
        kind: ParameterKind::Positional,
        long: None,
        short: None,
        value_name: Some(Some(id.to_uppercase())),
        description: String::new(),
        required,
        multiple,
        choices: Vec::new(),
    }
}

fn strings(args: &[&str]) -> Vec<String> {
    args.iter().map(|a| (*a).to_owned()).collect()
}

fn three_providers() -> Vec<(usize, Vec<CommandDefinition>)> {
    vec![
        (0, vec![command("project.show", &["project", "show"], vec![OutputFormat::Text])]),
        (
            1,
            vec![
                command("session.list", &["sessions", "list"], vec![OutputFormat::Json]),
                command("session.show", &["sessions", "show"], vec![OutputFormat::Text]),
            ],
        ),
        (2, vec![command("tool.run", &["tool", "run"], vec![OutputFormat::Text])]),
    ]
}

#[test]
fn removing_the_middle_provider_keeps_the_others_routes() {
    let all = build_runtime_state(&three_providers()).unwrap();
    assert_eq!(all.route_count(), 4);
    let without: Vec<_> = three_providers().into_iter().filter(|pc| pc.0 != 1).collect();
    let reduced = build_runtime_state(&without).unwrap();
    assert_eq!(reduced.route_count(), 2);
    assert_eq!(reduced.route("project.show").unwrap().provider_index, 0);
    assert_eq!(reduced.route("tool.run").unwrap().provider_index, 2);
    assert!(!reduced.has_route("session.list"));
    assert!(!reduced.has_route("session.show"));
}

#[test]
fn validation_does_not_depend_on_command_order() {
    let valid = vec![
        command("a.one", &["a", "one"], vec![OutputFormat::Text]),
        command("b.two", &["b", "two"], vec![OutputFormat::Json]),
        command("c", &["c"], vec![OutputFormat::Text]),
    ];
    let mut reversed = valid.clone();
    reversed.reverse();
    assert!(validate_catalog(&valid).is_ok());
    assert!(validate_catalog(&reversed).is_ok());

    let invalid = vec![
        command("a", &["a"], vec![OutputFormat::Text]),
        command("a.one", &["a", "one"], vec![OutputFormat::Text]),
    ];
    let mut reversed = invalid.clone();
    reversed.reverse();
    assert!(validate_catalog(&invalid).is_err());
    assert!(validate_catalog(&reversed).is_err());
}

#[test]
fn a_validated_catalog_composes_on_its_own() {
    let mut catalog = vec![
        command("a.one", &["a", "one"], vec![OutputFormat::Text]),
        command("a.two", &["a", "two"], vec![OutputFormat::Text, OutputFormat::Json]),
    ];
    catalog[0].parameters = vec![positional("name", true, false), flag("all", "all", Some("a"))];
    assert!(validate_catalog(&catalog).is_ok());
    let state = build_runtime_state(&[(7, catalog)]).unwrap();
    assert_eq!(state.route_count(), 2);
    assert_eq!(state.route("a.two").unwrap().provider_index, 7);
}

#[test]
fn a_validated_catalog_projects_into_clap() {
    let mut catalog = vec![
        command("a.one", &["a", "one"], vec![OutputFormat::Text, OutputFormat::Json]),
        command("b", &["b"], vec![OutputFormat::Text]),
    ];
    catalog[0].parameters = vec![
        positional("name", true, false),
        positional("rest", false, true),
        flag("all", "all", Some("a")),
    ];
    assert!(validate_catalog(&catalog).is_ok());
    assert!(clap_accepts(&catalog));
    assert!(build_tree(&catalog).is_ok());
    let args = strings(&["a", "one", "x", "y", "z", "-a"]);
    let ParseOutcome::Command(parsed) = parse_args(&catalog, "tool", &args).unwrap() else {
        panic!("expected a parsed command");
    };
    assert_eq!(parsed.id, "a.one");
    assert_eq!(parsed.output_format, OutputFormat::Text);
}

#[test]
fn a_short_help_name_validates_but_clap_refuses_it() {
    let mut catalog = vec![command("a", &["a"], vec![OutputFormat::Text])];
    catalog[0].parameters = vec![flag("hidden", "hidden", Some("h"))];
    assert!(validate_catalog(&catalog).is_ok());
    assert!(!clap_accepts(&catalog));
}

#[test]
fn clap_refuses_conflicting_parameters() {
    let mut catalog = vec![command("a", &["a"], vec![OutputFormat::Text, OutputFormat::Json])];
    catalog[0].parameters = vec![flag("x", "json", None)];
    assert!(!clap_accepts(&catalog));
    catalog[0].parameters = vec![flag("x", "x", None), flag("y", "x", None)];
    assert!(!clap_accepts(&catalog));
    catalog[0].parameters = vec![flag("x", "x", Some("q")), flag("y", "y", Some("q"))];
    assert!(!clap_accepts(&catalog));
    catalog[0].parameters = vec![flag("x", "-x", None)];
    assert!(!clap_accepts(&catalog));
    catalog[0].parameters = vec![flag("help", "assist", None)];
    assert!(!clap_accepts(&catalog));
    catalog[0].parameters = vec![positional("a", false, false), positional("b", true, false)];
    assert!(!clap_accepts(&catalog));
    catalog[0].parameters = vec![positional("a", true, true), positional("b", true, true)];
    assert!(!clap_accepts(&catalog));
    catalog[0].parameters = vec![positional("a", true, true), positional("b", true, false)];
    assert!(clap_accepts(&catalog));
    catalog[0].parameters = vec![positional("x", true, false), positional("x", true, false)];
    assert!(!clap_accepts(&catalog));
}

#[test]
fn every_listed_command_is_routed_with_its_formats() {
    let state = build_runtime_state(&three_providers()).unwrap();
    for listed in state.catalog() {
        let route = state.route(&listed.id).unwrap();
        assert_eq!(route.formats, listed.output_formats);
        let request = ExecuteOpen {
            id: listed.id.clone(),
            arguments_json: "{}".to_owned(),
            output_format: listed.output_formats[0],
        };
        assert!(route_execute(Some(&state), request).is_ok());
    }
}

#[test]
fn a_parsed_command_asks_for_an_offered_format() {
    let catalog = vec![
        command("j.only", &["j"], vec![OutputFormat::Json]),
        command("t.only", &["t"], vec![OutputFormat::Text]),
    ];
    assert!(validate_catalog(&catalog).is_ok());
    for (name, expected) in [("j", OutputFormat::Json), ("t", OutputFormat::Text)] {
        let ParseOutcome::Command(parsed) = parse_args(&catalog, "tool", &strings(&[name])).unwrap()
        else {
            panic!("expected a parsed command");
        };
        assert_eq!(parsed.output_format, expected);
    }
    let refused = parse_args(&catalog, "tool", &strings(&["t", "--json"]));
    assert!(refused.is_err());
}

#[test]
fn maps_failures_to_open_a_provider_stream() {
    let passed: ExecutionFailure<&str> = map_open_error(ProviderOpenError::Runtime("closed"));
    assert!(matches!(passed, ExecutionFailure::Runtime("closed")));
    let domain: ExecutionFailure<&str> =
        map_open_error(ProviderOpenError::Domain(ProviderExecuteError::PermissionDenied));
    assert!(matches!(domain, ExecutionFailure::Domain(ExecuteError::PermissionDenied)));
    let violation: ExecutionFailure<&str> = map_open_error(ProviderOpenError::Domain(
        ProviderExecuteError::Unknown {
            code: String::new(),
            payload_json: None,
        },
    ));
    assert!(matches!(
        violation,
        ExecutionFailure::Violation(RuntimeFailure::ProtocolViolation {
            capability: Capability::TerminalCommandProvider
        })
    ));
}

#[test]
fn composition_does_not_depend_on_provider_order() {
    let mut providers = three_providers();
    assert!(build_runtime_state(&providers).is_ok());
    providers.reverse();
    assert!(build_runtime_state(&providers).is_ok());

    let mut conflicting = three_providers();
    conflicting.push((3, vec![command("project", &["project"], vec![OutputFormat::Text])]));
    assert!(build_runtime_state(&conflicting).is_err());
    conflicting.reverse();
    assert!(build_runtime_state(&conflicting).is_err());
}

#[test]
fn a_command_parsed_from_the_aggregate_catalog_is_forwarded() {
    let state = build_runtime_state(&three_providers()).unwrap();
    let catalog: Vec<CommandDefinition> = state.catalog().clone();
    for (args, provider) in [(["sessions", "list"], 1), (["tool", "run"], 2)] {
        let ParseOutcome::Command(parsed) = parse_args(&catalog, "tool", &strings(&args)).unwrap()
        else {
            panic!("expected a parsed command");
        };
        let request = ExecuteOpen {
            id: parsed.id,
            arguments_json: parsed.arguments_json,
            output_format: parsed.output_format,
        };
        let forwarded = route_execute(Some(&state), request).unwrap();
        assert_eq!(forwarded.provider_index, provider);
    }
}

#[test]
fn matching_a_concatenated_catalog_is_matching_either_half() {
    let first = vec![command("a.one", &["a", "one"], vec![OutputFormat::Text])];
    let second = vec![command("b", &["b"], vec![OutputFormat::Text])];
    let both: Vec<CommandDefinition> = [first.clone(), second.clone()].concat();
    for args in [strings(&["a"]), strings(&["b", "x"]), strings(&["c"]), strings(&["a", "two"])] {
        assert_eq!(
            matches_catalog_path(&both, &args),
            matches_catalog_path(&first, &args) || matches_catalog_path(&second, &args)
        );
    }
    assert!(!matches_catalog_path(&[], &strings(&["a"])));
}

#[test]
fn more_arguments_and_help_requests_keep_the_match() {
    let catalog = vec![command("a.one", &["a", "one"], vec![OutputFormat::Text])];
    assert!(matches_catalog_path(&catalog, &strings(&["a", "one"])));
    assert!(matches_catalog_path(&catalog, &strings(&["a", "one", "x", "--flag"])));
    for args in [strings(&["a"]), strings(&["a", "two"]), strings(&["a", "one"])] {
        for help in ["--help", "-h"] {
            let mut with_help = args.clone();
            with_help.push(help.to_owned());
            assert_eq!(
                matches_catalog_path(&catalog, &with_help),
                matches_catalog_path(&catalog, &args)
            );
        }
    }
}

#[test]
fn removing_providers_filters_the_sorted_catalog() {
    let all = build_runtime_state(&three_providers()).unwrap();
    let kept: Vec<_> = three_providers().into_iter().filter(|pc| pc.0 != 0).collect();
    let reduced = build_runtime_state(&kept).unwrap();
    let expected: Vec<String> = all
        .catalog()
        .iter()
        .filter(|c| c.id != "project.show")
        .map(|c| c.id.clone())
        .collect();
    let got: Vec<String> = reduced.catalog().iter().map(|c| c.id.clone()).collect();
    assert_eq!(got, expected);
}

#[test]
fn validation_ignores_any_reordering() {
    let commands = vec![
        command("a", &["a"], vec![OutputFormat::Text]),
        command("b.x", &["b", "x"], vec![OutputFormat::Text]),
        command("b", &["b"], vec![OutputFormat::Text]),
    ];
    let mut orders = vec![vec![0, 1, 2], vec![2, 1, 0], vec![1, 2, 0], vec![0, 2, 1]];
    let outcomes: Vec<bool> = orders
        .drain(..)
        .map(|order| {
            let perm: Vec<CommandDefinition> = order.iter().map(|&i| commands[i].clone()).collect();
            validate_catalog(&perm).is_ok()
        })
        .collect();
    assert!(outcomes.iter().all(|ok| !ok));
}
