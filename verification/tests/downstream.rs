use ccvl::downstream::{
    allows, changed_paths, check_boundary, check_remote, commit_of, upstream_reference,
    validate_atom, validate_policy, validate_ref, validate_rule, AtomLabel, DownstreamError,
    Policy, Upstream,
};

fn policy(url: &str, rules: &[&str]) -> Policy {
    Policy {
        schema_version: 1,
        upstream: Upstream {
            remote: "upstream".to_string(),
            url: url.to_string(),
            branch: "main".to_string(),
        },
        allowed_paths: rules.iter().map(|rule| rule.to_string()).collect(),
    }
}

#[test]
fn directory_rules_match_descendants_only() {
    assert!(allows("targets/", "targets/company.md"));
    assert!(!allows("targets/", "targets-private/company.md"));
    assert!(!allows("targets/", "targets"));
}

#[test]
fn file_rules_are_exact() {
    assert!(allows(
        ".github/workflows/upstream-sync.yml",
        ".github/workflows/upstream-sync.yml"
    ));
    assert!(!allows(
        ".github/workflows/upstream-sync.yml",
        ".github/workflows/other.yml"
    ));
}

#[test]
fn traversal_rules_are_rejected() {
    assert!(validate_rule("../private/").is_err());
    assert!(validate_rule("targets/").is_ok());
}

#[test]
fn rules_reject_absolute_options_backslashes_and_empty() {
    assert!(validate_rule("/etc/").is_err());
    assert!(validate_rule("-rf").is_err());
    assert!(validate_rule("a\\b").is_err());
    assert!(validate_rule("").is_err());
    assert!(validate_rule("a/../b").is_err());
    assert!(validate_rule("a/..b").is_ok());
    match validate_rule("x/..") {
        Err(DownstreamError::InvalidRule(rule)) => assert_eq!(rule, "x/.."),
        other => panic!("unexpected {other:?}"),
    }
}

#[test]
fn atoms_are_checked() {
    assert!(validate_atom(AtomLabel::UpstreamRemote, "upstream").is_ok());
    assert!(matches!(
        validate_atom(AtomLabel::UpstreamBranch, ""),
        Err(DownstreamError::EmptyAtom(AtomLabel::UpstreamBranch))
    ));
    assert!(matches!(
        validate_atom(AtomLabel::UpstreamRemote, "-x"),
        Err(DownstreamError::UnsupportedCharacters(AtomLabel::UpstreamRemote))
    ));
    assert!(matches!(
        validate_ref("refs/remotes/up stream/main"),
        Err(DownstreamError::UnsupportedCharacters(AtomLabel::UpstreamRef))
    ));
    assert!(validate_ref("refs/remotes/upstream/main").is_ok());
}

#[test]
fn policy_checks_version_url_and_rules() {
    let good = policy("https://github.com/corbet-labs/ccvl.git", &["ccvl-downstream.json", "targets/"]);
    assert!(validate_policy(&good).is_ok());
    let upper = policy("https://github.com/corbet-labs/ccvl.GIT", &["targets/"]);
    assert!(validate_policy(&upper).is_ok());
    let mut old = policy("https://github.com/corbet-labs/ccvl.git", &["targets/"]);
    old.schema_version = 2;
    assert!(matches!(validate_policy(&old), Err(DownstreamError::UnsupportedVersion(2))));
    for url in [
        "http://github.com/corbet-labs/ccvl.git",
        "https://github.com/corbet-labs/ccvl",
        "https://github.com/corbet-labs/.git",
        "https://gitlab.com/corbet-labs/ccvl.git",
    ] {
        assert!(matches!(validate_policy(&policy(url, &["targets/"])), Err(DownstreamError::InvalidUrl)), "{url}");
    }
    assert!(validate_policy(&policy("https://github.com/corbet-labs/ccvl.git/", &["targets/"])).is_ok());
    assert!(matches!(
        validate_policy(&policy("https://github.com/corbet-labs/ccvl.git", &[])),
        Err(DownstreamError::NoAllowedPaths)
    ));
    match validate_policy(&policy("https://github.com/corbet-labs/ccvl.git", &["targets/", "../x"])) {
        Err(DownstreamError::InvalidRule(rule)) => assert_eq!(rule, "../x"),
        other => panic!("unexpected {other:?}"),
    }
}

#[test]
fn boundary_reports_unowned_changes_in_order() {
    let good = policy("https://github.com/corbet-labs/ccvl.git", &["ccvl-downstream.json", "targets/"]);
    let changed = vec!["targets/company.md".to_string(), "ccvl-downstream.json".to_string()];
    assert_eq!(check_boundary(&good, &changed).unwrap(), 2);
    let changed = vec![
        "README.md".to_string(),
        "targets/company.md".to_string(),
        "src/lib.rs".to_string(),
    ];
    match check_boundary(&good, &changed) {
        Err(DownstreamError::ForbiddenPaths(paths)) => {
            assert_eq!(paths, vec!["README.md".to_string(), "src/lib.rs".to_string()])
        }
        other => panic!("unexpected {other:?}"),
    }
}

#[test]
fn git_output_is_split_on_nul() {
    let paths = changed_paths(b"README.md\0targets/a.md\0\0").unwrap();
    assert_eq!(paths, vec!["README.md".to_string(), "targets/a.md".to_string()]);
    assert!(changed_paths(b"").unwrap().is_empty());
    assert_eq!(changed_paths("Schw\u{e4}chen.md".as_bytes()).unwrap(), vec!["Schw\u{e4}chen.md".to_string()]);
    assert!(matches!(changed_paths(b"ok\0\xff\xfe"), Err(DownstreamError::NonUtf8Path)));
}

#[test]
fn references_and_remotes() {
    let good = policy("https://github.com/corbet-labs/ccvl.git", &["targets/"]);
    assert_eq!(upstream_reference(&good, None), "refs/remotes/upstream/main");
    assert_eq!(upstream_reference(&good, Some("refs/heads/x")), "refs/heads/x");
    assert_eq!(commit_of("refs/remotes/upstream/main"), "refs/remotes/upstream/main^{commit}");
    assert!(check_remote(&good, "https://github.com/corbet-labs/ccvl.git").is_ok());
    assert!(matches!(
        check_remote(&good, "https://github.com/other/ccvl.git"),
        Err(DownstreamError::RemoteMismatch { .. })
    ));
}
