use niphas::allowlist::{matches_glob, validate_flake_ref};
use niphas::app_error::AppError;

#[test]
fn test_exact_match() {
    assert!(matches_glob("github:nixos/nixpkgs", "github:nixos/nixpkgs"));
}

#[test]
fn test_wildcard_suffix() {
    assert!(matches_glob("github:myorg/myapp", "github:myorg/*"));
    assert!(matches_glob("github:myorg/lib", "github:myorg/*"));
    assert!(!matches_glob("github:other/repo", "github:myorg/*"));
}

#[test]
fn test_double_wildcard() {
    assert!(matches_glob("github:myorg/myapp", "github:*/*"));
    assert!(matches_glob("github:nixos/nixpkgs", "github:*/*"));
    assert!(!matches_glob("path:/local/flake", "github:*/*"));
}

#[test]
fn test_no_match() {
    assert!(!matches_glob("github:evil/repo", "github:myorg/*"));
}

#[test]
fn test_validate_allowlist() {
    let allowlist = vec![
        "github:myorg/*".to_string(),
        "github:nixos/nixpkgs".to_string(),
    ];

    assert!(validate_flake_ref("github:myorg/app", &allowlist).is_ok());
    assert!(validate_flake_ref("github:nixos/nixpkgs", &allowlist).is_ok());
    assert!(validate_flake_ref("github:evil/repo", &allowlist).is_err());
}

#[test]
fn test_empty_allowlist_denies_all() {
    assert!(validate_flake_ref("github:myorg/app", &[]).is_err());
}

#[test]
fn test_wildcard_matches_empty_suffix() {
    // `*` matches empty string, so `github:*` matches `github:`
    // This is harmless — validate_eval_request() rejects bare `github:`.
    assert!(matches_glob("github:", "github:*"));
}

#[test]
fn test_case_sensitivity() {
    // Nix flake refs are case-sensitive
    assert!(!matches_glob("GitHub:myorg/app", "github:myorg/*"));
    assert!(!matches_glob("github:MyOrg/app", "github:myorg/*"));
    assert!(matches_glob("github:myorg/app", "github:myorg/*"));
}

#[test]
fn test_wildcard_with_query_params() {
    assert!(matches_glob("github:myorg/myapp?dir=sub", "github:myorg/*"));
}

#[test]
fn test_path_scheme() {
    assert!(matches_glob("path:/local/flake", "path:*"));
    assert!(!matches_glob("path:/local/flake", "github:*"));
}

#[test]
fn allowlist_error_messages() {
    let allowlist = vec!["github:myorg/*".to_string()];
    match validate_flake_ref("github:evil/repo", &allowlist) {
        Err(AppError::FlakeNotAllowed(m)) => assert_eq!(m, "github:evil/repo not in allowlist"),
        other => panic!("unexpected: {:?}", other),
    }
    match validate_flake_ref("github:myorg/app", &[]) {
        Err(AppError::FlakeNotAllowed(m)) => {
            assert_eq!(m, "github:myorg/app: no flake origins are allowed (empty allowlist)")
        }
        other => panic!("unexpected: {:?}", other),
    }
}

#[test]
fn glob_star_in_middle_and_repeated() {
    assert!(matches_glob("github:a/b/c", "github:*/c"));
    assert!(matches_glob("abc", "a**c"));
    assert!(matches_glob("", "*"));
    assert!(!matches_glob("", "a"));
    assert!(!matches_glob("abc", "ab"));
}

#[test]
fn lone_star_matches_all_and_every_text_matches_itself() {
    for text in ["", "github:*", "a*b", "/x/y", "ünïcode", "***"] {
        assert!(matches_glob(text, "*"));
        assert!(matches_glob(text, text));
    }
    assert!(matches_glob("github:NixOS/nixpkgs", "github:NixOS/nixpkgs"));
    assert!(!matches_glob("github:NixOS/nixpkgs", "github:NixOS/nixpkg"));
    assert!(!matches_glob("Github:x", "github:x"));
}
