use lenso_terminal::catalog::{path_prefix_conflict, validate_catalog, MAX_COMMANDS_PER_PROVIDER};
use lenso_terminal::contract::{CommandDefinition, CommandParameter, OutputFormat, ParameterKind};

fn command() -> CommandDefinition {
    CommandDefinition {
        id: "session.list".to_owned(),
        path: vec!["sessions".to_owned(), "list".to_owned()],
        summary: "List sessions".to_owned(),
        description: String::new(),
        parameters: Vec::new(),
        output_formats: vec![OutputFormat::Text, OutputFormat::Json],
    }
}

fn flag(id: &str, long: &str) -> CommandParameter {
    CommandParameter {
        id: id.to_owned(),
        kind: ParameterKind::Flag,
        long: Some(Some(long.to_owned())),
        short: None,
        value_name: None,
        description: String::new(),
        required: false,
        multiple: false,
        choices: Vec::new(),
    }
}

fn positional(id: &str, required: bool, multiple: bool) -> CommandParameter {
    CommandParameter {
        id: id.to_owned(),
        kind: ParameterKind::Positional,
        long: None,
        short: None,
        value_name: Some(Some(id.to_uppercase())),
        description: String::new(),
        required,
        multiple,
        choices: Vec::new(),
    }
}

fn option(id: &str, long: &str, short: Option<&str>) -> CommandParameter {
    CommandParameter {
        id: id.to_owned(),
        kind: ParameterKind::Option,
        long: Some(Some(long.to_owned())),
        short: short.map(|s| Some(s.to_owned())),
        value_name: Some(Some("VALUE".to_owned())),
        description: String::new(),
        required: false,
        multiple: false,
        choices: Vec::new(),
    }
}

fn with_parameters(parameters: Vec<CommandParameter>) -> CommandDefinition {
    let mut value = command();
    value.parameters = parameters;
    value
}

#[test]
fn accepts_a_nested_command() {
    assert!(validate_catalog(&[command()]).is_ok());
}

#[test]
fn rejects_duplicate_paths_even_when_ids_differ() {
    let first = command();
    let mut second = command();
    second.id = "session.list-alias".to_owned();
    assert!(validate_catalog(&[first, second]).is_err());
}

#[test]
fn reserves_json_for_surface_output_selection() {
    let mut value = command();
    value.parameters.push(CommandParameter {
        id: "json".to_owned(),
        kind: ParameterKind::Flag,
        long: Some(Some("json".to_owned())),
        short: None,
        value_name: None,
        description: String::new(),
        required: false,
        multiple: false,
        choices: Vec::new(),
    });
    assert!(validate_catalog(&[value]).is_err());
}

#[test]
fn accepts_an_empty_catalog() {
    assert_eq!(validate_catalog(&[]), Ok(()));
}

#[test]
fn reports_the_duplicate_path() {
    let first = command();
    let mut second = command();
    second.id = "session.list-alias".to_owned();
    assert_eq!(
        validate_catalog(&[first, second]),
        Err("duplicate command path `sessions list`".to_owned())
    );
}

#[test]
fn reports_the_duplicate_id() {
    let first = command();
    let mut second = command();
    second.path = vec!["sessions".to_owned(), "all".to_owned()];
    assert_eq!(
        validate_catalog(&[first, second]),
        Err("duplicate command id `session.list`".to_owned())
    );
}

#[test]
fn reports_a_command_under_a_leaf() {
    let mut group = command();
    group.id = "session".to_owned();
    group.path = vec!["sessions".to_owned()];
    assert_eq!(
        validate_catalog(&[group, command()]),
        Err("command path `sessions list` conflicts with command group `sessions`".to_owned())
    );
}

#[test]
fn reports_a_leaf_over_an_earlier_command() {
    let mut group = command();
    group.id = "session".to_owned();
    group.path = vec!["sessions".to_owned()];
    assert_eq!(
        validate_catalog(&[command(), group]),
        Err("command path `sessions` conflicts with command group `sessions list`".to_owned())
    );
}

#[test]
fn caps_the_provider_catalog() {
    let mut commands = Vec::new();
    for i in 0..=MAX_COMMANDS_PER_PROVIDER {
        let mut value = command();
        value.id = format!("c{i}");
        value.path = vec![format!("c{i}")];
        commands.push(value);
    }
    assert_eq!(
        validate_catalog(&commands),
        Err("catalog exceeds the 256-command provider limit".to_owned())
    );
    commands.pop();
    assert_eq!(validate_catalog(&commands), Ok(()));
}

#[test]
fn rejects_invalid_ids_and_paths() {
    let mut value = command();
    value.id = "Session".to_owned();
    assert_eq!(validate_catalog(&[value]), Err("invalid command id `Session`".to_owned()));

    let mut value = command();
    value.path = vec!["sessions".to_owned(), "List".to_owned()];
    assert_eq!(
        validate_catalog(&[value]),
        Err("invalid command path `sessions List`".to_owned())
    );

    let mut value = command();
    value.path = Vec::new();
    assert_eq!(validate_catalog(&[value]), Err("invalid command path ``".to_owned()));

    let mut value = command();
    value.path = (0..9).map(|i| format!("p{i}")).collect();
    assert!(validate_catalog(&[value]).is_err());

    let mut value = command();
    value.id = format!("a{}", "b".repeat(127));
    assert_eq!(validate_catalog(&[value]), Ok(()));
    let mut value = command();
    value.id = format!("a{}", "b".repeat(128));
    assert!(validate_catalog(&[value]).is_err());
}

#[test]
fn rejects_invalid_metadata_and_formats() {
    let mut value = command();
    value.summary = String::new();
    assert_eq!(
        validate_catalog(&[value]),
        Err("invalid metadata for command `session.list`".to_owned())
    );

    let mut value = command();
    value.output_formats = Vec::new();
    assert_eq!(
        validate_catalog(&[value]),
        Err("command `session.list` has invalid output formats".to_owned())
    );

    let mut value = command();
    value.output_formats = vec![OutputFormat::Json, OutputFormat::Json];
    assert_eq!(
        validate_catalog(&[value]),
        Err("command `session.list` repeats an output format".to_owned())
    );
}

#[test]
fn rejects_invalid_parameters() {
    let value = with_parameters(vec![flag("all", "all"), flag("all", "every")]);
    assert_eq!(
        validate_catalog(&[value]),
        Err("command `session.list` has invalid or duplicate parameter `all`".to_owned())
    );

    let mut repeated = positional("name", true, false);
    repeated.choices = vec!["a".to_owned(), "a".to_owned()];
    assert_eq!(
        validate_catalog(&[with_parameters(vec![repeated])]),
        Err("command `session.list` repeats a choice for `name`".to_owned())
    );

    let mut empty_choice = positional("name", true, false);
    empty_choice.choices = vec![String::new()];
    assert_eq!(
        validate_catalog(&[with_parameters(vec![empty_choice])]),
        Err("command `session.list` has invalid parameter metadata for `name`".to_owned())
    );

    let mut named_positional = positional("name", true, false);
    named_positional.long = Some(Some("name".to_owned()));
    assert_eq!(
        validate_catalog(&[with_parameters(vec![named_positional])]),
        Err("positional parameter `name` on `session.list` has option metadata".to_owned())
    );

    let value = with_parameters(vec![positional("a", false, false), positional("b", true, false)]);
    assert_eq!(
        validate_catalog(&[value]),
        Err("required positional `b` follows an optional positional on `session.list`".to_owned())
    );

    let value = with_parameters(vec![positional("a", true, true), positional("b", true, false)]);
    assert_eq!(
        validate_catalog(&[value]),
        Err("positional `b` follows a repeated positional on `session.list`".to_owned())
    );

    let mut unnamed = option("limit", "limit", None);
    unnamed.value_name = None;
    assert_eq!(
        validate_catalog(&[with_parameters(vec![unnamed])]),
        Err("option `limit` on `session.list` is missing value_name".to_owned())
    );

    let mut valued_flag = flag("all", "all");
    valued_flag.required = true;
    assert_eq!(
        validate_catalog(&[with_parameters(vec![valued_flag])]),
        Err("flag `all` on `session.list` has value semantics".to_owned())
    );

    let mut no_long = flag("all", "all");
    no_long.long = Some(None);
    assert_eq!(
        validate_catalog(&[with_parameters(vec![no_long])]),
        Err("parameter `all` on `session.list` is missing a long option name".to_owned())
    );

    let value = with_parameters(vec![flag("all", "all"), flag("every", "all")]);
    assert_eq!(
        validate_catalog(&[value]),
        Err("parameter `every` on `session.list` has an invalid, reserved, or duplicate long option"
            .to_owned())
    );

    let value = with_parameters(vec![option("a", "aa", Some("x")), option("b", "bb", Some("x"))]);
    assert_eq!(
        validate_catalog(&[value]),
        Err("parameter `b` on `session.list` has an invalid or duplicate short option".to_owned())
    );

    let value = with_parameters(vec![option("a", "aa", Some("xy"))]);
    assert!(validate_catalog(&[value]).is_err());

    let mut bad_value_name = option("limit", "limit", None);
    bad_value_name.value_name = Some(Some(String::new()));
    assert_eq!(
        validate_catalog(&[with_parameters(vec![bad_value_name])]),
        Err("parameter `limit` on `session.list` has an invalid value_name".to_owned())
    );

    let too_many = (0..65).map(|i| flag(&format!("f{i}"), &format!("f{i}"))).collect();
    assert_eq!(
        validate_catalog(&[with_parameters(too_many)]),
        Err("command `session.list` has too many parameters".to_owned())
    );
}

#[test]
fn accepts_a_full_parameter_set() {
    let mut limit = option("limit", "limit", Some("n"));
    limit.choices = vec!["10".to_owned(), "40".to_owned()];
    let value = with_parameters(vec![
        positional("session_id", true, false),
        positional("rest", false, true),
        limit,
        flag("all", "all"),
    ]);
    assert_eq!(validate_catalog(&[value]), Ok(()));
}

#[test]
fn detects_path_prefix_conflicts() {
    assert!(path_prefix_conflict("sessions", "sessions list"));
    assert!(path_prefix_conflict("sessions list", "sessions"));
    assert!(!path_prefix_conflict("sessions", "sessions"));
    assert!(!path_prefix_conflict("sessions", "sessionsx list"));
    assert!(!path_prefix_conflict("project show", "sessions list"));
}
