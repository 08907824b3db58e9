use reforger_language_server::cli::{parse_args_from, BracketColoringMode, ServerMode};

fn args(values: &[&str]) -> Vec<String> {
    values.iter().map(|value| value.to_string()).collect()
}

#[test]
fn bracket_coloring_argument_accepts_every_extension_setting_value() {
    for (value, expected) in [
        ("semantic", BracketColoringMode::Semantic),
        ("punctuation", BracketColoringMode::Punctuation),
        ("vscode", BracketColoringMode::VsCode),
    ] {
        let mode = parse_args_from(&["--bracket-coloring".to_string(), value.to_string()])
            .expect("valid LSP arguments");
        let ServerMode::Lsp(options) = mode else {
            panic!("expected LSP mode");
        };
        assert_eq!(options.bracket_coloring, expected);
    }
}

#[test]
fn explicit_mcp_mode_is_separate_from_legacy_lsp_mode() {
    let mode = parse_args_from(&[
        "mcp".to_string(),
        "--game-data-scripts".to_string(),
        "scripts".to_string(),
        "--index-cache".to_string(),
        "cache.bin".to_string(),
    ])
    .expect("valid MCP arguments");

    let ServerMode::Mcp(options) = mode else {
        panic!("expected MCP mode");
    };
    assert_eq!(options.game_data.scripts_root, Some("scripts".to_string()));
    assert_eq!(options.game_data.cache_path, Some("cache.bin".to_string()));
}

#[test]
fn unknown_modes_flags_and_missing_values_are_rejected() {
    for arguments in [
        vec!["unknown-mode".to_string()],
        vec!["--unknown".to_string()],
        vec!["--log".to_string()],
        vec!["mcp".to_string(), "--index-cache".to_string()],
    ] {
        assert!(parse_args_from(&arguments).is_err());
    }
}

#[test]
fn lsp_accepts_the_language_client_stdio_transport_marker() {
    let mode = parse_args_from(&["--stdio".to_string()]).expect("known language-client transport marker");
    assert!(matches!(mode, ServerMode::Lsp(_)));
}

#[test]
fn error_messages_name_the_offending_argument() {
    assert_eq!(parse_args_from(&args(&["build"])), Err("unknown mode 'build'".to_string()));
    assert_eq!(parse_args_from(&args(&["--frobnicate"])), Err("unknown LSP argument '--frobnicate'".to_string()));
    assert_eq!(parse_args_from(&args(&["--log", "--stdio"])), Err("missing value for --log".to_string()));
    assert_eq!(
        parse_args_from(&args(&["--bracket-coloring", "rainbow"])),
        Err("invalid value for --bracket-coloring: rainbow".to_string())
    );
    assert_eq!(
        parse_args_from(&args(&["mcp-api", "extra"])),
        Err("unexpected argument for mcp-api mode: extra".to_string())
    );
    assert_eq!(parse_args_from(&args(&["-h", "x"])), Err("unexpected argument after help flag: x".to_string()));
    assert_eq!(parse_args_from(&args(&["mcp", "--log", "a"])), Err("unknown MCP argument '--log'".to_string()));
}

#[test]
fn modes_without_options_and_repeated_workspace_roots() {
    assert_eq!(parse_args_from(&args(&["mcp-api"])), Ok(ServerMode::McpApi));
    assert_eq!(parse_args_from(&args(&["--help"])), Ok(ServerMode::Help));
    let mode = parse_args_from(&args(&["--workspace-scripts", "a", "--workspace-scripts", "b", "--log", "l"]))
        .unwrap();
    let ServerMode::Lsp(options) = mode else {
        panic!("expected LSP mode");
    };
    assert_eq!(options.workspace_scripts, vec!["a".to_string(), "b".to_string()]);
    assert_eq!(options.log_path, Some("l".to_string()));
    assert_eq!(options.bracket_coloring, BracketColoringMode::Semantic);
    let ServerMode::Lsp(empty) = parse_args_from(&[]).unwrap() else {
        panic!("expected LSP mode");
    };
    assert!(empty.workspace_scripts.is_empty());
}
