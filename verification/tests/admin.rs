use smrt::admin::{split_address, tidy_reason, MAX_BLOCK_REASON};
use smrt::github::github_asset_url;
use smrt::revision::{check_precondition, precondition, Precondition};

// Whatever a keeper types is what somebody else reads on their own screen,
// in a place with room for one line.
#[test]
fn a_reason_is_one_bounded_line_or_nothing() {
    assert_eq!(tidy_reason(None).unwrap(), None);
    assert_eq!(
        tidy_reason(Some("   ")).unwrap(),
        None,
        "blank says nothing"
    );
    assert_eq!(
        tidy_reason(Some("  ПЕТУХ  ")).unwrap().as_deref(),
        Some("ПЕТУХ")
    );
    assert_eq!(
        tidy_reason(Some("flooding\n\nthree threads\tin a minute"))
            .unwrap()
            .as_deref(),
        Some("flooding three threads in a minute"),
        "a notice and a table row are both one line"
    );
    // counted in characters, not bytes: a Cyrillic reason is not half as
    // long as a Latin one
    let long = "я".repeat(MAX_BLOCK_REASON);
    assert!(tidy_reason(Some(&long)).is_ok());
    assert!(tidy_reason(Some(&"я".repeat(MAX_BLOCK_REASON + 1))).is_err());
}

// A server is recorded as a host or a host:port, and Minecraft's default is
// the mirror's to know rather than the operator's to type.
#[test]
fn an_address_is_a_host_and_optionally_a_port() {
    assert_eq!(
        split_address("mc.example.com"),
        Some(("mc.example.com".to_string(), 25565))
    );
    assert_eq!(
        split_address("  mc.example.com:25566 "),
        Some(("mc.example.com".to_string(), 25566))
    );
    assert_eq!(split_address(""), None);
    assert_eq!(split_address("   "), None);
    assert_eq!(split_address("mc.example.com:hello"), None);
}

#[test]
fn if_match_reads_quoted_weak_and_wildcard_tags() {
    // what the panel echoes back from an ETag, and what a hand-written
    // request is likely to carry, must mean the same revision
    for raw in ["\"abc123\"", "abc123", "W/\"abc123\"", "  \"abc123\" "] {
        match precondition(Some(raw)) {
            Some(Precondition::Rev(rev)) => assert_eq!(rev, "abc123", "raw {raw:?}"),
            _ => panic!("expected a revision for {raw:?}"),
        }
    }
    assert!(matches!(precondition(Some("*")), Some(Precondition::Any)));
    assert!(precondition(None).is_none(), "header absent");
    assert!(precondition(Some("\"\"")).is_none(), "empty tag");
}

#[test]
fn a_stale_base_is_refused_and_a_current_one_passes() {
    let stale = Precondition::Rev("aaaa1111".into());
    let current = Precondition::Rev("bbbb2222".into());

    assert!(check_precondition(None, Some("bbbb2222"), "Industrial").is_ok());
    assert!(check_precondition(Some(&current), Some("bbbb2222"), "Industrial").is_ok());
    assert!(check_precondition(Some(&Precondition::Any), Some("bbbb2222"), "Industrial").is_ok());

    let err = check_precondition(Some(&stale), Some("bbbb2222"), "Industrial")
        .expect_err("a base that no longer matches disk is a conflict");
    let msg = err.message();
    assert!(msg.contains("Industrial"), "names the pack: {msg}");
    assert!(msg.contains("aaaa1111") && msg.contains("bbbb2222"), "{msg}");

    // a config that is gone answers a conditional write with a conflict,
    // not a silent create over the top of a delete
    assert!(check_precondition(Some(&stale), None, "Industrial").is_err());
    assert!(check_precondition(Some(&Precondition::Any), None, "Industrial").is_err());
    assert!(
        check_precondition(None, None, "Industrial").is_ok(),
        "an unconditional first save still creates"
    );
}

#[test]
fn github_url_accepts_plain_repo_and_simple_names() {
    assert_eq!(
        github_asset_url("Kitty-Hivens/open-smrt-network", "v1.2.3", "osn-1.12.2.jar"),
        Some(
            "https://github.com/Kitty-Hivens/open-smrt-network/releases/download/v1.2.3/osn-1.12.2.jar"
                .into()
        )
    );
}

#[test]
fn github_url_normalizes_a_pasted_url() {
    // a pasted browser URL (scheme + host, trailing .git/slash) still resolves
    for repo in [
        "https://github.com/owner/repo",
        "github.com/owner/repo/",
        "owner/repo.git",
    ] {
        assert_eq!(
            github_asset_url(repo, "v1", "a.jar"),
            Some("https://github.com/owner/repo/releases/download/v1/a.jar".into()),
            "repo {repo:?}"
        );
    }
}

#[test]
fn github_url_percent_encodes_rich_asset_names() {
    // spaces / parens / plus -- common in real release assets -- are encoded,
    // not rejected
    let url = github_asset_url("o/r", "1.0+build5", "Cool Mod (1.12.2).jar").unwrap();
    assert_eq!(
        url,
        "https://github.com/o/r/releases/download/1.0%2Bbuild5/Cool%20Mod%20(1.12.2).jar"
    );
}

#[test]
fn github_url_rejects_unsafe_inputs() {
    // repo must be exactly owner/name
    assert!(github_asset_url("owner/repo/extra", "v1", "a.jar").is_none());
    assert!(github_asset_url("justowner", "v1", "a.jar").is_none());
    // tag/asset can't add path depth or traverse
    assert!(github_asset_url("o/r", "v1/x", "a.jar").is_none());
    assert!(github_asset_url("o/r", "v1", "sub/a.jar").is_none());
    assert!(github_asset_url("o/r", "..", "a.jar").is_none());
    assert!(github_asset_url("o/r", "v1", "").is_none());
}
