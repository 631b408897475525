use niphas::error::NiphasError;
use niphas::eval::{
    validate_attribute, validate_eval_request, validate_flake_ref, validate_revision, EvalRequest,
};
// -- validate_flake_ref --

#[test]
fn valid_github_ref() {
    assert!(validate_flake_ref("github:myorg/myapp").is_ok());
}

#[test]
fn valid_git_https_ref() {
    assert!(validate_flake_ref("git+https://github.com/org/repo").is_ok());
}

#[test]
fn valid_path_ref() {
    assert!(validate_flake_ref("path:./my-flake").is_ok());
}

#[test]
fn valid_ref_with_query_params() {
    assert!(validate_flake_ref("github:org/repo?dir=subdir&ref=main").is_ok());
}

#[test]
fn valid_ref_with_tilde() {
    assert!(validate_flake_ref("path:~/my-flake").is_ok());
}

#[test]
fn rejects_empty_flake_ref() {
    assert!(validate_flake_ref("").is_err());
}

#[test]
fn rejects_no_scheme() {
    assert!(validate_flake_ref("just-a-path").is_err());
}

#[test]
fn rejects_double_quote_injection() {
    assert!(
        validate_flake_ref(r#"github:org/app" ++ builtins.readFile /etc/shadow ++ ""#).is_err()
    );
}

#[test]
fn rejects_dollar_injection() {
    assert!(validate_flake_ref("github:org/${evil}").is_err());
}

#[test]
fn rejects_semicolon_injection() {
    assert!(validate_flake_ref("github:org/app;rm -rf /").is_err());
}

#[test]
fn rejects_backtick() {
    assert!(validate_flake_ref("github:org/`whoami`").is_err());
}

#[test]
fn rejects_space() {
    assert!(validate_flake_ref("github:org/app with spaces").is_err());
}

#[test]
fn rejects_parentheses() {
    assert!(validate_flake_ref("github:org/(evil)").is_err());
}

// -- validate_attribute --

#[test]
fn valid_simple_attribute() {
    assert!(validate_attribute("default").is_ok());
}

#[test]
fn valid_dotted_attribute() {
    assert!(validate_attribute("packages.x86_64-linux.default").is_ok());
}

#[test]
fn valid_underscore_start() {
    assert!(validate_attribute("_private.output").is_ok());
}

#[test]
fn rejects_empty_attribute() {
    assert!(validate_attribute("").is_err());
}

#[test]
fn rejects_empty_segment() {
    assert!(validate_attribute("packages..default").is_err());
}

#[test]
fn rejects_semicolon_in_attribute() {
    assert!(validate_attribute("x; builtins.abort").is_err());
}

#[test]
fn rejects_quote_in_attribute() {
    assert!(validate_attribute(r#"x"evil"#).is_err());
}

#[test]
fn rejects_digit_start_segment() {
    assert!(validate_attribute("packages.123bad").is_err());
}

// -- validate_revision --

#[test]
fn valid_short_sha() {
    assert!(validate_revision("a1b2c3").is_ok());
}

#[test]
fn valid_full_sha() {
    assert!(validate_revision("a1b2c3d4e5f6a1b2c3d4e5f6a1b2c3d4e5f6a1b2").is_ok());
}

#[test]
fn rejects_too_short() {
    assert!(validate_revision("abc").is_err());
}

#[test]
fn rejects_too_long() {
    assert!(validate_revision(&"a".repeat(41)).is_err());
}

#[test]
fn rejects_non_hex() {
    assert!(validate_revision("g1h2i3j4k5").is_err());
}

#[test]
fn rejects_injection_in_revision() {
    assert!(validate_revision(r#"abc123"; rm -rf /"#).is_err());
}

// -- validate_eval_request --

#[test]
fn valid_full_request() {
    let req = EvalRequest {
        flake_ref: "github:org/app".into(),
        attribute: "packages.x86_64-linux.default".into(),
        revision: Some("a1b2c3d4e5f6".into()),
        binary_cache: None,
    };
    assert!(validate_eval_request(&req).is_ok());
}

#[test]
fn valid_request_without_revision() {
    let req = EvalRequest {
        flake_ref: "github:org/app".into(),
        attribute: "packages.x86_64-linux.default".into(),
        revision: None,
        binary_cache: None,
    };
    assert!(validate_eval_request(&req).is_ok());
}

#[test]
fn invalid_flake_ref_in_request() {
    let req = EvalRequest {
        flake_ref: r#"github:org/app" ++ evil"#.into(),
        attribute: "default".into(),
        revision: None,
        binary_cache: None,
    };
    assert!(validate_eval_request(&req).is_err());
}

#[test]
fn invalid_attribute_in_request() {
    let req = EvalRequest {
        flake_ref: "github:org/app".into(),
        attribute: "x; builtins.abort".into(),
        revision: None,
        binary_cache: None,
    };
    assert!(validate_eval_request(&req).is_err());
}

#[test]
fn invalid_revision_in_request() {
    let req = EvalRequest {
        flake_ref: "github:org/app".into(),
        attribute: "default".into(),
        revision: Some("not-hex!!".into()),
        binary_cache: None,
    };
    assert!(validate_eval_request(&req).is_err());
}

// -- errors --

#[test]
fn validation_errors_are_invalid_input() {
    assert!(matches!(validate_flake_ref(""), Err(NiphasError::InvalidInput(_))));
    assert!(matches!(validate_attribute("1x"), Err(NiphasError::InvalidInput(_))));
    assert!(matches!(validate_revision("xyz123"), Err(NiphasError::InvalidInput(_))));
}

#[test]
fn revision_length_bounds() {
    assert!(validate_revision(&"a".repeat(6)).is_ok());
    assert!(validate_revision(&"a".repeat(40)).is_ok());
    assert!(validate_revision(&"a".repeat(5)).is_err());
    assert!(validate_revision("ABCDEF").is_ok());
}

#[test]
fn attribute_with_dash_after_first_char() {
    assert!(validate_attribute("x86_64-linux").is_ok());
    assert!(validate_attribute("-x").is_err());
    assert!(validate_attribute("a.").is_err());
}

fn message(r: Result<(), NiphasError>) -> String {
    match r {
        Err(NiphasError::InvalidInput(m)) => m,
        other => panic!("unexpected {:?}", other),
    }
}

#[test]
fn flake_ref_messages() {
    assert_eq!(message(validate_flake_ref("")), "flake_ref must not be empty");
    assert_eq!(message(validate_flake_ref("just-a-path")), "flake_ref missing scheme: 'just-a-path'");
    assert_eq!(
        message(validate_flake_ref("1git:x")),
        "flake_ref scheme must start with a letter: '1git'"
    );
    assert_eq!(
        message(validate_flake_ref("gi$t:x")),
        "flake_ref scheme contains invalid character '$': 'gi$t'"
    );
    assert_eq!(message(validate_flake_ref("github:")), "flake_ref path must not be empty: 'github:'");
    assert_eq!(
        message(validate_flake_ref("github:org/app;rm")),
        "flake_ref contains unsafe character ';': 'github:org/app;rm'"
    );
}

#[test]
fn attribute_and_revision_messages() {
    assert_eq!(message(validate_attribute("")), "attribute must not be empty");
    assert_eq!(
        message(validate_attribute("packages..default")),
        "attribute contains empty segment: 'packages..default'"
    );
    assert_eq!(
        message(validate_attribute("packages.123bad")),
        "attribute segment must start with letter or '_', got '1': 'packages.123bad'"
    );
    assert_eq!(
        message(validate_attribute("x; builtins.abort")),
        "attribute contains invalid character ';': 'x; builtins.abort'"
    );
    assert_eq!(message(validate_attribute("a.")), "attribute contains empty segment: 'a.'");
    assert_eq!(
        message(validate_revision("abc")),
        "revision must be 6-40 hex characters, got 3 characters: 'abc'"
    );
    assert_eq!(
        message(validate_revision("g1h2i3j4k5")),
        "revision contains non-hex character 'g': 'g1h2i3j4k5'"
    );
    let req = EvalRequest {
        flake_ref: "github:org/app".into(),
        attribute: "default".into(),
        revision: Some("not-hex!!".into()),
        binary_cache: None,
    };
    assert_eq!(
        message(validate_eval_request(&req)),
        "revision contains non-hex character 'n': 'not-hex!!'"
    );
}
