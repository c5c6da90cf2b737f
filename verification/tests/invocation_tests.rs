use alias_mgr::invocation::prepare_command_invocation;

#[test]
fn test_prepare_command_invocation_handles_quoted_args() {
    let args: Vec<String> = Vec::new();
    let (program, command_args) =
        prepare_command_invocation("git commit -m \"fix login flow\"", &args).unwrap();

    assert_eq!(program, "git");
    assert_eq!(
        command_args,
        vec![
            "commit".to_string(),
            "-m".to_string(),
            "fix login flow".to_string()
        ]
    );
}

#[test]
fn plain_command_appends_trailing_arguments() {
    // Without placeholders the tokens come through untouched...
    let (program, argv) = prepare_command_invocation("echo hi", &Vec::new()).unwrap();
    assert_eq!(program, "echo");
    assert_eq!(argv, vec!["hi".to_string()]);

    // ...and caller arguments are appended after them.
    let (program, argv) = prepare_command_invocation("echo hi", &vec!["x".to_string()]).unwrap();
    assert_eq!(program, "echo");
    assert_eq!(argv, vec!["hi".to_string(), "x".to_string()]);
}

#[test]
fn placeholder_command_does_not_append_arguments_again() {
    // The argument is embedded by substitution and must not also be appended.
    let (program, argv) = prepare_command_invocation("echo $1", &vec!["x".to_string()]).unwrap();
    assert_eq!(program, "echo");
    assert_eq!(argv, vec!["x".to_string()]);
}

#[test]
fn unterminated_quote_is_an_invalid_command() {
    let err = prepare_command_invocation("echo 'oops", &Vec::new()).unwrap_err();
    assert_eq!(err, "Failed to parse command 'echo 'oops': missing closing quote");
}

#[test]
fn blank_command_is_an_invalid_command() {
    let err = prepare_command_invocation("   ", &Vec::new()).unwrap_err();
    assert_eq!(err, "Empty command in alias");
}

#[test]
fn substituted_text_is_tokenized_before_argument_merge() {
    // "$1" resolves to two words, which the tokenizer then splits.
    let (program, argv) =
        prepare_command_invocation("printf $1", &vec!["a b".to_string()]).unwrap();
    assert_eq!(program, "printf");
    assert_eq!(argv, vec!["a".to_string(), "b".to_string()]);
}
