use alias_mgr::credentials::extract_credential_password;
use alias_mgr::credentials::extract_gh_status_token;

#[test]
fn gh_status_token_is_taken_from_the_token_line() {
    let out = "github.com\n  Logged in to github.com account octo\n  Token: sample-token-value\n  Token scopes: repo\n";
    assert_eq!(
        extract_gh_status_token(out),
        Some("sample-token-value".to_string())
    );
}

#[test]
fn gh_status_masked_token_is_rejected() {
    let out = "  Token: <TOKEN>\n";
    assert_eq!(extract_gh_status_token(out), None);
}

#[test]
fn gh_status_empty_token_is_rejected_but_scan_continues() {
    let out = "  Token: \n  Token: later-value\n";
    assert_eq!(extract_gh_status_token(out), Some("later-value".to_string()));
}

#[test]
fn gh_status_without_token_line_yields_nothing() {
    let out = "  Logged in to github.com\n";
    assert_eq!(extract_gh_status_token(out), None);
}

#[test]
fn credential_password_is_taken_from_password_line() {
    let out = "protocol=https\nhost=github.com\nusername=someone\npassword=sample-secret-value\n";
    assert_eq!(
        extract_credential_password(out),
        Some("sample-secret-value".to_string())
    );
}

#[test]
fn credential_blank_password_is_skipped() {
    let out = "password=   \npassword=second-value\n";
    assert_eq!(
        extract_credential_password(out),
        Some("second-value".to_string())
    );
}

#[test]
fn credential_output_without_password_yields_nothing() {
    let out = "protocol=https\nhost=github.com\nusername=someone\n";
    assert_eq!(extract_credential_password(out), None);
}

#[test]
fn credential_lines_split_at_first_equals_sign() {
    // The value may itself contain '='; only the first one splits.
    let out = "password=a=b\n";
    assert_eq!(extract_credential_password(out), Some("a=b".to_string()));
}

#[test]
fn carriage_returns_are_stripped_from_lines() {
    let out = "password=windows-value\r\n";
    assert_eq!(
        extract_credential_password(out),
        Some("windows-value".to_string())
    );
}

#[test]
fn final_line_without_newline_is_still_parsed() {
    let out = "password=tail-value";
    assert_eq!(
        extract_credential_password(out),
        Some("tail-value".to_string())
    );
}
