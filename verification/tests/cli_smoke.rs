use cadenza::cli::{CommandKind, HelpTopic, ParsedArgs, help_text, parse_args};

#[test]
fn parses_positional_library_argument_for_player() {
    let args = vec!["cadenza".to_string(), "/tmp/cadenza-music".to_string()];

    let parsed = parse_args(args, "/home/listener".to_string());

    assert_eq!(
        parsed,
        ParsedArgs::Run(CommandKind::RunUi {
            library_root: "/tmp/cadenza-music".into(),
        })
    );
}

#[test]
fn defaults_to_current_directory_when_no_path_is_provided() {
    let parsed = parse_args(vec!["cadenza".to_string()], "/home/listener/music".to_string());

    assert_eq!(
        parsed,
        ParsedArgs::Run(CommandKind::RunUi {
            library_root: "/home/listener/music".into(),
        })
    );
}

#[test]
fn help_flags_and_extra_arguments_show_help() {
    let cwd = || "/home/listener".to_string();
    for flag in ["-h", "--help"] {
        assert_eq!(
            parse_args(vec!["cadenza".to_string(), flag.to_string()], cwd()),
            ParsedArgs::ShowHelp(HelpTopic::Root)
        );
    }
    assert_eq!(
        parse_args(
            vec!["cadenza".to_string(), "a".to_string(), "b".to_string()],
            cwd()
        ),
        ParsedArgs::ShowHelp(HelpTopic::Root)
    );
    assert_eq!(parse_args(Vec::new(), cwd()), ParsedArgs::ShowHelp(HelpTopic::Root));
}

#[test]
fn help_text_describes_the_path_argument() {
    let text = help_text(HelpTopic::Root);

    assert!(text.contains("cadenza"));
    assert!(!text.contains("fetch-classics"));
    assert!(text.contains("cadenza [path]"));
    assert!(!text.contains("--library"));
}
