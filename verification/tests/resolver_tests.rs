use alias_mgr::resolver::has_parameter_variables;
use alias_mgr::resolver::substitute_parameters;

#[test]
fn test_substitute_parameters_positional() {
    let args = vec![
        "v1.0.0".to_string(),
        "main".to_string(),
        "feature".to_string(),
    ];

    assert_eq!(substitute_parameters("git tag $1", &args), "git tag v1.0.0");
    assert_eq!(
        substitute_parameters("git checkout $2", &args),
        "git checkout main"
    );
    assert_eq!(
        substitute_parameters("git merge $2 $3", &args),
        "git merge main feature"
    );

    // Out of bounds substitutes the empty string.
    assert_eq!(substitute_parameters("git tag $5", &args), "git tag ");

    // $0 substitutes the empty string (arguments are 1-indexed).
    assert_eq!(substitute_parameters("git tag $0", &args), "git tag ");
}

#[test]
fn test_substitute_parameters_all_args() {
    let args = vec![
        "file1.txt".to_string(),
        "file2.txt".to_string(),
        "file3.txt".to_string(),
    ];

    assert_eq!(
        substitute_parameters("echo $@", &args),
        "echo file1.txt file2.txt file3.txt"
    );
    assert_eq!(
        substitute_parameters("echo $*", &args),
        "echo file1.txt file2.txt file3.txt"
    );

    let empty_args: Vec<String> = vec![];
    assert_eq!(substitute_parameters("echo $@", &empty_args), "echo ");
    assert_eq!(substitute_parameters("echo $*", &empty_args), "echo ");
}

#[test]
fn test_substitute_parameters_escapes() {
    let args = vec!["value".to_string()];

    assert_eq!(substitute_parameters("echo $$", &args), "echo $");
    assert_eq!(substitute_parameters("echo $$ $1", &args), "echo $ value");

    // $ at end of string stays literal.
    assert_eq!(substitute_parameters("echo $", &args), "echo $");

    // $ followed by a non-special character stays literal.
    assert_eq!(substitute_parameters("echo $x", &args), "echo $x");
    assert_eq!(substitute_parameters("echo $hello", &args), "echo $hello");
}

#[test]
fn test_substitute_parameters_complex() {
    let args = vec!["v1.0.0".to_string(), "origin".to_string()];

    let command = "git tag $1 && git push $2 $1";
    let expected = "git tag v1.0.0 && git push origin v1.0.0";
    assert_eq!(substitute_parameters(command, &args), expected);

    let command = "echo 'Version: $1, Remote: $2, Cost: $$5'";
    let expected = "echo 'Version: v1.0.0, Remote: origin, Cost: $5'";
    assert_eq!(substitute_parameters(command, &args), expected);
}

#[test]
fn test_substitute_parameters_edge_cases() {
    let args = vec!["test".to_string()];

    assert_eq!(substitute_parameters("$1$1$1", &args), "testtesttest");
    assert_eq!(substitute_parameters("$1 middle $1", &args), "test middle test");
    assert_eq!(substitute_parameters("$1", &args), "test");
    assert_eq!(substitute_parameters("$@", &args), "test");
    assert_eq!(substitute_parameters("echo hello", &args), "echo hello");
}

#[test]
fn test_has_parameter_variables() {
    assert!(has_parameter_variables("git tag $1"));
    assert!(has_parameter_variables("git push $2 $1"));
    assert!(has_parameter_variables("echo $9"));

    assert!(has_parameter_variables("echo $@"));
    assert!(has_parameter_variables("echo $*"));

    assert!(has_parameter_variables("git tag $1 && git push origin $1"));

    assert!(!has_parameter_variables("git status"));
    assert!(!has_parameter_variables("echo hello world"));

    assert!(!has_parameter_variables("echo $$"));
    assert!(!has_parameter_variables("echo $$ literal"));

    assert!(!has_parameter_variables("echo $hello"));
    assert!(!has_parameter_variables("echo $abc"));

    assert!(!has_parameter_variables("echo $"));
}

#[test]
fn test_substitute_parameters_multi_digit() {
    let args = (1..=12).map(|i| format!("val{}", i)).collect::<Vec<_>>();
    assert_eq!(substitute_parameters("echo $10", &args), "echo val10");
    assert_eq!(substitute_parameters("$12-$1", &args), "val12-val1");
}

#[test]
fn all_args_joined_with_single_spaces() {
    let args = vec!["a".to_string(), "b".to_string()];
    assert_eq!(substitute_parameters("$@", &args), "a b");
    assert_eq!(substitute_parameters("$*", &args), "a b");
}

#[test]
fn double_dollar_is_not_a_placeholder_but_digits_are() {
    let args: Vec<String> = vec![];
    assert_eq!(substitute_parameters("$$", &args), "$");
    assert!(!has_parameter_variables("$$"));
    assert!(has_parameter_variables("$0"));
}
