use lenso_terminal::contract::{
    CommandDefinition, ContentType, ExecuteError, ExecuteMessage, ExecuteOpen,
    ExecutionFailedPayload, OutputFormat, OutputKind,
};
use lenso_terminal::runtime::{
    accept_provider_catalog, build_runtime_state, catalog_response, route_execute, stream_step,
    validate_and_convert_error, validate_and_convert_message, Capability, ProviderExecuteError,
    ProviderStreamEvent, RuntimeFailure, StreamStep,
};

fn command(id: &str, path: &[&str]) -> CommandDefinition {
    CommandDefinition {
        id: id.to_owned(),
        path: path.iter().map(|segment| (*segment).to_owned()).collect(),
        summary: id.to_owned(),
        description: String::new(),
        parameters: Vec::new(),
        output_formats: vec![OutputFormat::Text],
    }
}

fn open(id: &str, arguments_json: &str, output_format: OutputFormat) -> ExecuteOpen {
    ExecuteOpen {
        id: id.to_owned(),
        arguments_json: arguments_json.to_owned(),
        output_format,
    }
}

fn detail_of(failure: RuntimeFailure) -> String {
    match failure {
        RuntimeFailure::InvalidResolvedPlan { detail } => detail,
        other => panic!("expected an invalid resolved plan, got {other:?}"),
    }
}

#[test]
fn aggregate_rejects_cross_provider_identity_and_path_conflicts() {
    for catalogs in [
        vec![
            (0, vec![command("project.show", &["project", "show"])]),
            (1, vec![command("project.show", &["project", "status"])]),
        ],
        vec![
            (0, vec![command("project.show", &["project", "show"])]),
            (1, vec![command("project.inspect", &["project", "show"])]),
        ],
        vec![
            (0, vec![command("project.root", &["project"])]),
            (1, vec![command("project.show", &["project", "show"])]),
        ],
    ] {
        assert!(matches!(
            build_runtime_state(&catalogs),
            Err(RuntimeFailure::InvalidResolvedPlan { .. })
        ));
    }
}

#[test]
fn removing_a_provider_removes_only_its_routes() {
    let base = (0, vec![command("project.show", &["project", "show"])]);
    let extra = (1, vec![command("session.list", &["sessions", "list"])]);
    let composed = build_runtime_state(&[base.clone(), extra]).unwrap();
    assert_eq!(composed.route_count(), 2);

    let reduced = build_runtime_state(&[base]).unwrap();
    assert_eq!(reduced.route_count(), 1);
    assert!(reduced.has_route("project.show"));
    assert!(!reduced.has_route("session.list"));
}

#[test]
fn aggregate_rejects_invalid_json_output_from_a_native_provider() {
    let error = validate_and_convert_message(ExecuteMessage {
        kind: OutputKind::Result,
        content_type: ContentType::Json,
        content: "not-json".to_owned(),
    })
    .unwrap_err();
    assert_eq!(
        error,
        RuntimeFailure::ProtocolViolation {
            capability: Capability::TerminalCommandProvider
        }
    );
}

#[test]
fn aggregate_rejects_unbounded_native_provider_errors() {
    let error = validate_and_convert_error(ProviderExecuteError::ExecutionFailed {
        payload: ExecutionFailedPayload {
            reason_code: "x".repeat(129),
            message: String::new(),
            details_json: "{}".to_owned(),
        },
    })
    .unwrap_err();
    assert!(matches!(error, RuntimeFailure::ProtocolViolation { .. }));
}

#[test]
fn reports_each_composition_conflict() {
    let duplicate_id = build_runtime_state(&[
        (0, vec![command("project.show", &["project", "show"])]),
        (1, vec![command("project.show", &["project", "status"])]),
    ]);
    assert_eq!(
        detail_of(duplicate_id.unwrap_err()),
        "duplicate terminal command id `project.show`"
    );

    let duplicate_path = build_runtime_state(&[
        (0, vec![command("project.show", &["project", "show"])]),
        (1, vec![command("project.inspect", &["project", "show"])]),
    ]);
    assert_eq!(
        detail_of(duplicate_path.unwrap_err()),
        "duplicate terminal command path `project show` for `project.show` and `project.inspect`"
    );

    let group = build_runtime_state(&[
        (0, vec![command("project.root", &["project"])]),
        (1, vec![command("project.show", &["project", "show"])]),
    ]);
    assert_eq!(
        detail_of(group.unwrap_err()),
        "terminal command path `project show` conflicts with group `project` owned by `project.root`"
    );
}

#[test]
fn reports_the_least_conflicting_group() {
    let state = build_runtime_state(&[(
        0,
        vec![
            command("b", &["a", "b"]),
            command("c", &["a", "c"]),
            command("root", &["a"]),
        ],
    )]);
    assert_eq!(
        detail_of(state.unwrap_err()),
        "terminal command path `a` conflicts with group `a b` owned by `b`"
    );
}

#[test]
fn caps_the_aggregate_catalog() {
    let first: Vec<CommandDefinition> = (0..200)
        .map(|i| command(&format!("a{i}"), &[&format!("a{i}")]))
        .collect();
    let second: Vec<CommandDefinition> = (0..57)
        .map(|i| command(&format!("b{i}"), &[&format!("b{i}")]))
        .collect();
    let over = build_runtime_state(&[(0, first.clone()), (1, second.clone())]);
    assert_eq!(
        detail_of(over.unwrap_err()),
        "aggregate terminal catalog exceeds 256 commands"
    );
    let at_limit = build_runtime_state(&[(0, first), (1, second[..56].to_vec())]).unwrap();
    assert_eq!(at_limit.route_count(), 256);
}

#[test]
fn sorts_the_catalog_by_path_then_id() {
    let state = build_runtime_state(&[
        (0, vec![command("z.last", &["zeta"]), command("b.show", &["beta", "show"])]),
        (1, vec![command("a.list", &["alpha"]), command("b.list", &["beta", "list"])]),
    ])
    .unwrap();
    let ids: Vec<&str> = state.catalog().iter().map(|c| c.id.as_str()).collect();
    assert_eq!(ids, vec!["a.list", "b.list", "b.show", "z.last"]);
    let route = state.route("b.show").unwrap();
    assert_eq!(route.provider_index, 0);
    assert_eq!(state.route("a.list").unwrap().provider_index, 1);
    assert!(state.route("missing").is_none());
}

#[test]
fn answers_catalog_requests_once_active() {
    assert_eq!(
        catalog_response(None).unwrap_err(),
        RuntimeFailure::Unavailable {
            capability: Capability::TerminalCommand
        }
    );
    let state = build_runtime_state(&[(0, vec![command("project.show", &["project", "show"])])])
        .unwrap();
    let response = catalog_response(Some(&state)).unwrap();
    assert_eq!(response.commands.len(), 1);
    assert_eq!(response.commands[0].id, "project.show");
}

#[test]
fn accepts_only_valid_provider_catalogs() {
    let accepted = accept_provider_catalog(3, Some(vec![command("project.show", &["project", "show"])]))
        .unwrap();
    assert_eq!(accepted.len(), 1);

    let failed = accept_provider_catalog(2, None).unwrap_err();
    assert_eq!(
        failed,
        RuntimeFailure::PluginFailure {
            detail: "terminal command provider 2 returned an invalid catalog".to_owned()
        }
    );

    let rejected = accept_provider_catalog(
        12,
        Some(vec![command("Project", &["project"])]),
    )
    .unwrap_err();
    assert_eq!(
        detail_of(rejected),
        "terminal command provider 12: invalid command id `Project`"
    );
}

#[test]
fn routes_execution_requests() {
    let state = build_runtime_state(&[
        (0, vec![command("project.show", &["project", "show"])]),
        (4, vec![command("session.list", &["sessions", "list"])]),
    ])
    .unwrap();

    let forwarded = route_execute(Some(&state), open("session.list", "{\"all\":true}", OutputFormat::Text))
        .unwrap();
    assert_eq!(forwarded.provider_index, 4);
    assert_eq!(forwarded.open.id, "session.list");
    assert_eq!(forwarded.open.arguments_json, "{\"all\":true}");

    assert!(matches!(
        route_execute(None, open("session.list", "{}", OutputFormat::Text)),
        Err(ExecuteError::NotFound)
    ));
    assert!(matches!(
        route_execute(Some(&state), open("missing", "{}", OutputFormat::Text)),
        Err(ExecuteError::NotFound)
    ));
    assert!(matches!(
        route_execute(Some(&state), open("session.list", "{}", OutputFormat::Json)),
        Err(ExecuteError::InvalidArguments)
    ));
    assert!(matches!(
        route_execute(Some(&state), open("session.list", "[]", OutputFormat::Text)),
        Err(ExecuteError::InvalidArguments)
    ));
    assert!(matches!(
        route_execute(Some(&state), open("session.list", "{", OutputFormat::Text)),
        Err(ExecuteError::InvalidArguments)
    ));
    let big = format!("{{\"x\":\"{}\"}}", "a".repeat(262_144));
    assert!(matches!(
        route_execute(Some(&state), open("session.list", &big, OutputFormat::Text)),
        Err(ExecuteError::InvalidArguments)
    ));
}

#[test]
fn passes_valid_output_through() {
    let message = validate_and_convert_message(ExecuteMessage {
        kind: OutputKind::Stdout,
        content_type: ContentType::Json,
        content: "{\"ok\":1}".to_owned(),
    })
    .unwrap();
    assert_eq!(message.kind, OutputKind::Stdout);
    assert_eq!(message.content, "{\"ok\":1}");

    let text = validate_and_convert_message(ExecuteMessage {
        kind: OutputKind::Progress,
        content_type: ContentType::Text,
        content: "not-json".to_owned(),
    })
    .unwrap();
    assert_eq!(text.content_type, ContentType::Text);

    assert!(validate_and_convert_message(ExecuteMessage {
        kind: OutputKind::Stderr,
        content_type: ContentType::Text,
        content: "é".repeat(1_048_576),
    })
    .is_ok());
    assert!(validate_and_convert_message(ExecuteMessage {
        kind: OutputKind::Stderr,
        content_type: ContentType::Text,
        content: "x".repeat(1_048_577),
    })
    .is_err());
}

#[test]
fn converts_provider_errors() {
    assert!(matches!(
        validate_and_convert_error(ProviderExecuteError::NotFound),
        Ok(ExecuteError::NotFound)
    ));
    assert!(matches!(
        validate_and_convert_error(ProviderExecuteError::PermissionDenied),
        Ok(ExecuteError::PermissionDenied)
    ));
    assert!(matches!(
        validate_and_convert_error(ProviderExecuteError::InvalidArguments),
        Ok(ExecuteError::InvalidArguments)
    ));
    assert!(matches!(
        validate_and_convert_error(ProviderExecuteError::OutputLimitExceeded),
        Ok(ExecuteError::OutputLimitExceeded)
    ));

    let kept = validate_and_convert_error(ProviderExecuteError::ExecutionFailed {
        payload: ExecutionFailedPayload {
            reason_code: "busy".to_owned(),
            message: "try later".to_owned(),
            details_json: "{\"retry\":3}".to_owned(),
        },
    })
    .unwrap();
    let ExecuteError::ExecutionFailed { payload } = kept else {
        panic!("expected an execution failure");
    };
    assert_eq!(payload.reason_code, "busy");
    assert_eq!(payload.details_json, "{\"retry\":3}");

    assert!(validate_and_convert_error(ProviderExecuteError::ExecutionFailed {
        payload: ExecutionFailedPayload {
            reason_code: "busy".to_owned(),
            message: String::new(),
            details_json: "{".to_owned(),
        },
    })
    .is_err());
    assert!(validate_and_convert_error(ProviderExecuteError::ExecutionFailed {
        payload: ExecutionFailedPayload {
            reason_code: String::new(),
            message: String::new(),
            details_json: "{}".to_owned(),
        },
    })
    .is_err());

    let unknown = validate_and_convert_error(ProviderExecuteError::Unknown {
        code: "quota".to_owned(),
        payload_json: None,
    })
    .unwrap();
    let ExecuteError::ExecutionFailed { payload } = unknown else {
        panic!("expected an execution failure");
    };
    assert_eq!(payload.reason_code, "quota");
    assert_eq!(
        payload.message,
        "terminal command provider returned an unknown domain error"
    );
    assert_eq!(payload.details_json, "{}");

    assert!(validate_and_convert_error(ProviderExecuteError::Unknown {
        code: "q".repeat(129),
        payload_json: None,
    })
    .is_err());
}

#[test]
fn steps_through_a_provider_stream() {
    assert!(matches!(stream_step(ProviderStreamEvent::PeerHalfClosed), StreamStep::Continue));
    assert!(matches!(stream_step(ProviderStreamEvent::Completed), StreamStep::Complete));
    assert!(matches!(
        stream_step(ProviderStreamEvent::Failed(ProviderExecuteError::NotFound)),
        StreamStep::Fail(ExecuteError::NotFound)
    ));
    assert!(matches!(
        stream_step(ProviderStreamEvent::Message(ExecuteMessage {
            kind: OutputKind::Result,
            content_type: ContentType::Json,
            content: "not-json".to_owned(),
        })),
        StreamStep::Abort(RuntimeFailure::ProtocolViolation { .. })
    ));
    assert!(matches!(
        stream_step(ProviderStreamEvent::Message(ExecuteMessage {
            kind: OutputKind::Result,
            content_type: ContentType::Json,
            content: "[1]".to_owned(),
        })),
        StreamStep::Forward(_)
    ));
}
