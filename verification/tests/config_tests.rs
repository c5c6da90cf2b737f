use alias_mgr::chain::ChainCommand;
use alias_mgr::chain::ChainOperator;
use alias_mgr::chain::CommandChain;
use alias_mgr::chain::CommandType;
use alias_mgr::config::Config;

#[test]
fn test_config_new() {
    let config = Config::new();
    assert!(config.aliases.is_empty());
}

#[test]
fn test_add_alias() {
    let mut config = Config::new();

    let result = config.add_alias(
        "gst".to_string(),
        CommandType::Simple("git status".to_string()),
        Some("Quick status".to_string()),
        false,
    );

    assert!(result.is_ok());
    assert_eq!(config.aliases.len(), 1);

    let entry = config.get_alias("gst").unwrap();
    assert_eq!(entry.command_display(), "git status");
    assert_eq!(entry.description, Some("Quick status".to_string()));
}

#[test]
fn test_add_alias_reserved_names() {
    let mut config = Config::new();

    let invalid_names = vec!["--add", "mgr:test", ".hidden"];

    for name in invalid_names {
        let result = config.add_alias(
            name.to_string(),
            CommandType::Simple("test command".to_string()),
            None,
            false,
        );
        assert!(result.is_err());
    }
}

#[test]
fn test_remove_alias() {
    let mut config = Config::new();

    config
        .add_alias(
            "test".to_string(),
            CommandType::Simple("echo test".to_string()),
            None,
            false,
        )
        .unwrap();
    assert_eq!(config.aliases.len(), 1);

    let result = config.remove_alias("test");
    assert!(result.is_ok());
    assert_eq!(config.aliases.len(), 0);

    let result = config.remove_alias("nonexistent");
    assert!(result.is_err());
}

#[test]
fn test_get_alias() {
    let mut config = Config::new();
    config
        .add_alias(
            "test".to_string(),
            CommandType::Simple("echo test".to_string()),
            None,
            false,
        )
        .unwrap();

    let entry = config.get_alias("test");
    assert!(entry.is_some());
    assert_eq!(entry.unwrap().command_display(), "echo test");

    let entry = config.get_alias("nonexistent");
    assert!(entry.is_none());
}

#[test]
fn test_list_aliases() {
    let mut config = Config::new();

    config
        .add_alias(
            "gst".to_string(),
            CommandType::Simple("git status".to_string()),
            None,
            false,
        )
        .unwrap();
    config
        .add_alias(
            "glog".to_string(),
            CommandType::Simple("git log".to_string()),
            None,
            false,
        )
        .unwrap();
    config
        .add_alias(
            "deploy".to_string(),
            CommandType::Simple("docker-compose up".to_string()),
            None,
            false,
        )
        .unwrap();

    let all_aliases = config.list_aliases(None);
    assert_eq!(all_aliases.len(), 3);

    let git_aliases = config.list_aliases(Some("g"));
    assert_eq!(git_aliases.len(), 2);

    let deploy_aliases = config.list_aliases(Some("deploy"));
    assert_eq!(deploy_aliases.len(), 1);
}

#[test]
fn test_complex_chain() {
    let mut config = Config::new();

    let chain = CommandChain {
        commands: vec![
            ChainCommand {
                command: "echo first".to_string(),
                operator: None,
            },
            ChainCommand {
                command: "echo second".to_string(),
                operator: Some(ChainOperator::And),
            },
            ChainCommand {
                command: "echo third".to_string(),
                operator: Some(ChainOperator::Or),
            },
        ],
        parallel: false,
    };

    config
        .add_alias("test".to_string(), CommandType::Chain(chain), None, false)
        .unwrap();

    let entry = config.get_alias("test").unwrap();
    let display = entry.command_display();
    assert!(display.contains("&&"));
    assert!(display.contains("||"));
}

#[test]
fn test_parameter_substitution_integration() {
    let mut config = Config::new();

    let chain = CommandChain {
        commands: vec![
            ChainCommand {
                command: "git tag $1".to_string(),
                operator: None,
            },
            ChainCommand {
                command: "git push origin $1".to_string(),
                operator: Some(ChainOperator::And),
            },
        ],
        parallel: false,
    };

    config
        .add_alias(
            "tag-push".to_string(),
            CommandType::Chain(chain),
            Some("Tag and push".to_string()),
            false,
        )
        .unwrap();

    let entry = config.get_alias("tag-push").unwrap();
    let display = entry.command_display();
    assert!(display.contains("git tag $1"));
    assert!(display.contains("git push origin $1"));
}

#[test]
fn add_without_force_asks_before_overwriting() {
    let mut config = Config::new();
    config
        .add_alias(
            "gs".to_string(),
            CommandType::Simple("git status".to_string()),
            None,
            false,
        )
        .unwrap();

    // Same name again without force: nothing changes, confirmation requested.
    let r = config.add_alias(
        "gs".to_string(),
        CommandType::Simple("git show".to_string()),
        None,
        false,
    );
    assert_eq!(r, Ok(false));
    assert_eq!(config.get_alias("gs").unwrap().command_display(), "git status");

    // With force the binding is replaced.
    let r = config.add_alias(
        "gs".to_string(),
        CommandType::Simple("git show".to_string()),
        None,
        true,
    );
    assert_eq!(r, Ok(true));
    assert_eq!(config.get_alias("gs").unwrap().command_display(), "git show");
    assert_eq!(config.aliases.len(), 1);
}

#[test]
fn reserved_name_error_message_names_the_alias() {
    let mut config = Config::new();
    let err = config
        .add_alias(
            "--bad".to_string(),
            CommandType::Simple("echo".to_string()),
            None,
            false,
        )
        .unwrap_err();
    assert_eq!(err, "Invalid alias name '--bad': cannot use reserved prefixes");
}

#[test]
fn remove_error_message_names_the_alias() {
    let mut config = Config::new();
    let err = config.remove_alias("ghost").unwrap_err();
    assert_eq!(err, "Alias 'ghost' not found");
}

#[test]
fn listing_is_sorted_by_name() {
    let mut config = Config::new();
    for name in ["zeta", "alpha", "mid"] {
        config
            .add_alias(
                name.to_string(),
                CommandType::Simple("echo hi".to_string()),
                None,
                false,
            )
            .unwrap();
    }
    let listed = config.list_aliases(None);
    let names: Vec<&str> = listed.iter().map(|(n, _)| n.as_str()).collect();
    assert_eq!(names, vec!["alpha", "mid", "zeta"]);
}

#[test]
fn display_shows_if_code_and_parallel_markers() {
    let chain = CommandChain {
        commands: vec![
            ChainCommand {
                command: "make".to_string(),
                operator: None,
            },
            ChainCommand {
                command: "echo retry".to_string(),
                operator: Some(ChainOperator::IfCode(2)),
            },
            ChainCommand {
                command: "echo done".to_string(),
                operator: Some(ChainOperator::Always),
            },
        ],
        parallel: true,
    };
    let mut config = Config::new();
    config
        .add_alias("build".to_string(), CommandType::Chain(chain), None, false)
        .unwrap();
    let display = config.get_alias("build").unwrap().command_display();
    assert_eq!(display, "PARALLEL: make ?[2] echo retry ; echo done");
}

#[test]
fn display_renders_negative_if_code() {
    let chain = CommandChain {
        commands: vec![
            ChainCommand {
                command: "run".to_string(),
                operator: None,
            },
            ChainCommand {
                command: "echo signal".to_string(),
                operator: Some(ChainOperator::IfCode(-1)),
            },
        ],
        parallel: false,
    };
    let mut config = Config::new();
    config
        .add_alias("sig".to_string(), CommandType::Chain(chain), None, false)
        .unwrap();
    let display = config.get_alias("sig").unwrap().command_display();
    assert_eq!(display, "run ?[-1] echo signal");
}
