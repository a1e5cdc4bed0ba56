//! What the forge says, what is sent to it, and how it is reached.

use std::collections::HashSet;

use nspr::forge::{MergeState, Mergeable, PrState, PushSpec, ReviewDecision};
use nspr::git_remote::{connection_error, describe_push_refspecs};
use nspr::github::{
    listed_pr_from, merge_state_from, mergeable_from, pr_state_from, pull_request_from,
    pull_request_node, refspec, review_decision_from, unused_name, GqlResponse, PullRequestNode,
    QueryData, RepositoryNode, SearchPrNode,
};
use nspr::oid::Oid;
use nspr::ssh_agent::{
    format_ssh_auth_error, is_ssh_url, probe_step, resolve_effective_url, ProbeAction, ProbeEvent,
    SshAgentStatus,
};

fn sample() -> PullRequestNode {
    PullRequestNode {
        id: String::new(),
        number: 4242,
        state: "OPEN".to_string(),
        title: "Add the widget cache".to_string(),
        body: String::new(),
        is_draft: false,
        base_ref_name: "users/someone/add-the-widget-index".to_string(),
        head_ref_name: "users/someone/add-the-widget-cache".to_string(),
        base_ref_oid: "0123456789abcdef0123456789abcdef01234567".to_string(),
        head_ref_oid: "89abcdef0123456789abcdef0123456789abcdef".to_string(),
        mergeable: Some("MERGEABLE".to_string()),
        merge_state_status: Some("BEHIND".to_string()),
        auto_merge_request: true,
    }
}

fn response(node: Option<PullRequestNode>, errors: &[&str]) -> GqlResponse {
    GqlResponse {
        data: Some(QueryData { repository: Some(RepositoryNode { pull_request: node }) }),
        errors: errors.iter().map(|e| e.to_string()).collect(),
    }
}

#[test]
fn deserialises_a_recorded_payload() {
    let node = pull_request_node(response(Some(sample()), &[]), 4242).unwrap();
    let pr = pull_request_from(node).unwrap();

    assert_eq!(pr.number, 4242);
    assert_eq!(pr.state, PrState::Open);
    assert_eq!(pr.title, "Add the widget cache");
    assert_eq!(pr.base, "users/someone/add-the-widget-index");
    assert_eq!(pr.head, "users/someone/add-the-widget-cache");
    assert_eq!(
        pr.base_oid,
        Oid::parse("0123456789abcdef0123456789abcdef01234567").unwrap()
    );
    assert_eq!(
        pr.head_oid,
        Oid::parse("89abcdef0123456789abcdef0123456789abcdef").unwrap()
    );
    assert_eq!(pr.mergeable, Mergeable::Mergeable);
    assert_eq!(pr.merge_state, MergeState::Behind);
    assert!(pr.auto_merge);
    assert!(!pr.draft);
}

#[test]
fn absent_auto_merge_request_means_auto_merge_is_off() {
    let mut payload = sample();
    payload.auto_merge_request = false;
    let node = pull_request_node(response(Some(payload), &[]), 4242).unwrap();
    assert!(!pull_request_from(node).unwrap().auto_merge);
}

#[test]
fn a_field_level_error_does_not_lose_the_pull_request() {
    let mut payload = sample();
    payload.merge_state_status = None;
    let reply = response(Some(payload), &["mergeStateStatus unavailable"]);

    let node = pull_request_node(reply, 4242).unwrap();
    let pr = pull_request_from(node).unwrap();
    assert_eq!(pr.merge_state, MergeState::Unknown);
    assert_eq!(pr.number, 4242);
}

#[test]
fn a_missing_pull_request_reports_the_graphql_errors() {
    let reply = GqlResponse {
        data: Some(QueryData { repository: None }),
        errors: vec!["Could not resolve to a Repository".to_string()],
    };
    let error = pull_request_node(reply, 7).unwrap_err();
    assert!(error.contains("Could not resolve to a Repository"), "{error}");

    let error = pull_request_node(response(None, &[]), 7).unwrap_err();
    assert!(error.contains("#7"), "{error}");
}

/// The `data` member on its own, with the envelope already stripped.
#[test]
fn a_stripped_envelope_is_not_reported_as_a_missing_pull_request() {
    let stripped = GqlResponse { data: None, errors: Vec::new() };
    let error = pull_request_node(stripped, 4242).unwrap_err();
    assert!(
        !error.contains("Pull-Request:"),
        "a stripped envelope must not blame the trailer: {error}"
    );
    assert!(error.contains("nspr bug"), "{error}");
}

#[test]
fn an_unreadable_object_name_is_refused() {
    let mut payload = sample();
    payload.head_ref_oid = "not a name".to_string();
    assert!(pull_request_from(payload).is_err());
}

#[test]
fn maps_merge_state_status() {
    assert_eq!(merge_state_from(Some("CLEAN")), MergeState::Clean);
    assert_eq!(merge_state_from(Some("UNSTABLE")), MergeState::Clean);
    assert_eq!(merge_state_from(Some("HAS_HOOKS")), MergeState::Clean);
    assert_eq!(merge_state_from(Some("BEHIND")), MergeState::Behind);
    assert_eq!(merge_state_from(Some("BLOCKED")), MergeState::Blocked);
    assert_eq!(merge_state_from(Some("DRAFT")), MergeState::Blocked);
    assert_eq!(merge_state_from(Some("DIRTY")), MergeState::Dirty);
    assert_eq!(merge_state_from(Some("UNKNOWN")), MergeState::Unknown);
    assert_eq!(merge_state_from(Some("SOMETHING_NEW")), MergeState::Unknown);
    assert_eq!(merge_state_from(None), MergeState::Unknown);
}

#[test]
fn maps_mergeability() {
    assert_eq!(mergeable_from(Some("MERGEABLE")), Mergeable::Mergeable);
    assert_eq!(mergeable_from(Some("CONFLICTING")), Mergeable::Conflicting);
    assert_eq!(mergeable_from(Some("UNKNOWN")), Mergeable::Unknown);
    assert_eq!(mergeable_from(None), Mergeable::Unknown);
}

#[test]
fn maps_pull_request_state() {
    assert_eq!(pr_state_from("OPEN"), PrState::Open);
    assert_eq!(pr_state_from("MERGED"), PrState::Merged);
    assert_eq!(pr_state_from("CLOSED"), PrState::Closed);
}

#[test]
fn only_forced_pushes_get_a_plus() {
    let oid = Oid::parse("89abcdef0123456789abcdef0123456789abcdef").unwrap();
    assert_eq!(
        refspec(&PushSpec::fast_forward("topic", oid)),
        "89abcdef0123456789abcdef0123456789abcdef:refs/heads/topic"
    );
    assert_eq!(
        refspec(&PushSpec::forced("topic", oid)),
        "+89abcdef0123456789abcdef0123456789abcdef:refs/heads/topic"
    );
    assert_eq!(refspec(&PushSpec::delete("topic")), ":refs/heads/topic");
}

#[test]
fn suffixes_until_the_name_is_free() {
    let taken: HashSet<&str> =
        ["users/me/cache", "users/me/cache-1", "users/me/cache-2"].into();
    let taken = |name: &str| taken.contains(name);

    assert_eq!(unused_name("users/me/other", taken), "users/me/other");
    assert_eq!(unused_name("users/me/cache", taken), "users/me/cache-3");
}

#[test]
fn maps_review_decision() {
    assert_eq!(
        review_decision_from(Some("APPROVED")),
        Some(ReviewDecision::Approved)
    );
    assert_eq!(
        review_decision_from(Some("CHANGES_REQUESTED")),
        Some(ReviewDecision::ChangesRequested)
    );
    assert_eq!(
        review_decision_from(Some("REVIEW_REQUIRED")),
        Some(ReviewDecision::ReviewRequired)
    );
    assert_eq!(review_decision_from(Some("OTHER")), None);
    assert_eq!(review_decision_from(None), None);
}

#[test]
fn parses_search_pr_node() {
    let node = SearchPrNode {
        number: 42,
        title: "Widget trait".to_string(),
        state: "OPEN".to_string(),
        is_draft: false,
        base_ref_name: "main".to_string(),
        head_ref_name: "users/alice/widget".to_string(),
        review_decision: Some("APPROVED".to_string()),
        url: "https://github.com/o/r/pull/42".to_string(),
    };
    let pr = listed_pr_from(node);
    assert_eq!(pr.number, 42);
    assert_eq!(pr.title, "Widget trait");
    assert_eq!(pr.state, PrState::Open);
    assert!(!pr.draft);
    assert_eq!(pr.base, "main");
    assert_eq!(pr.head, "users/alice/widget");
    assert_eq!(pr.review_decision, Some(ReviewDecision::Approved));
    assert_eq!(pr.url, "https://github.com/o/r/pull/42");
}

#[test]
fn describe_push_refspecs_formats_branches_and_actions() {
    assert_eq!(
        describe_push_refspecs(&vec!["abcd:refs/heads/users/me/a".into()]),
        "1 branch (users/me/a)"
    );
    assert_eq!(
        describe_push_refspecs(&vec![
            "abcd:refs/heads/users/me/a".into(),
            "+ef01:refs/heads/users/me/b".into(),
            ":refs/heads/users/me/old".into(),
        ]),
        "3 branches (users/me/a, +users/me/b, delete users/me/old)"
    );
}

/// Answers the steps of a probe from a list of events.
fn probe(path: &str, seconds: &str, events: Vec<ProbeEvent>) -> SshAgentStatus {
    let mut actions = Vec::new();
    for event in events {
        match probe_step(event, path, seconds) {
            ProbeAction::Stop { status } => return status,
            action => actions.push(action),
        }
    }
    panic!("the probe did not stop: {actions:?}")
}

#[test]
fn probe_detects_missing_socket() {
    let missing = "/tmp/nspr-test-nonexistent-socket-path.sock";
    let status = probe(
        missing,
        "0.1",
        vec![ProbeEvent::ConnectFailed { reason: "No such file or directory".to_string() }],
    );
    assert!(
        matches!(status, SshAgentStatus::ConnectionFailed { .. }),
        "expected ConnectionFailed, got {status:?}"
    );

    let err = format_ssh_auth_error(
        "git@github.com:o/r.git",
        "git@github.com:o/r.git",
        &status,
    );
    assert!(err.contains("could not connect to SSH agent"));
    assert!(err.contains("ssh-add"));
    assert!(err.contains("ssh -T git@github.com"));
}

#[test]
fn probe_detects_connection_refused() {
    let status = probe(
        "refused.sock",
        "0.1",
        vec![ProbeEvent::ConnectFailed { reason: "Connection refused".to_string() }],
    );
    assert!(
        matches!(status, SshAgentStatus::ConnectionFailed { .. }),
        "expected ConnectionFailed, got {status:?}"
    );
    let err = format_ssh_auth_error(
        "git@github.com:o/r.git",
        "https://github.com/o/r.git",
        &status,
    );
    assert!(err.contains("Connection refused") || err.contains("connect"));
    assert!(err.contains("rewritten from 'https://github.com/o/r.git'"));
}

#[test]
fn probe_detects_timeout_without_blocking() {
    let status = probe(
        "hanging.sock",
        "0.1",
        vec![
            ProbeEvent::Connected,
            ProbeEvent::TimeoutsSet,
            ProbeEvent::Sent,
            ProbeEvent::LengthFailed { timed_out: true, reason: "timed out".to_string() },
        ],
    );
    assert!(
        matches!(status, SshAgentStatus::TimedOut { .. }),
        "expected TimedOut, got {status:?}"
    );
    let err = format_ssh_auth_error(
        "git@github.com:o/r.git",
        "git@github.com:o/r.git",
        &status,
    );
    assert!(err.contains("timed out after 0.1s"));
    assert!(err.contains("Make sure your SSH agent is responsive"));
}

#[test]
fn probe_detects_responsive_agent_with_keys() {
    match probe_step(ProbeEvent::TimeoutsSet, "valid.sock", "1.0") {
        ProbeAction::Send { bytes } => assert_eq!(bytes, [0, 0, 0, 1, 11]),
        other => panic!("{other:?}"),
    }
    let status = probe(
        "valid.sock",
        "1.0",
        vec![
            ProbeEvent::Connected,
            ProbeEvent::TimeoutsSet,
            ProbeEvent::Sent,
            ProbeEvent::Length { bytes: vec![0, 0, 0, 5] },
            ProbeEvent::Header { bytes: vec![12, 0, 0, 0, 3] },
        ],
    );
    assert_eq!(status, SshAgentStatus::Available { identities_count: 3 });
    assert!(status.is_available());
}

#[test]
fn probe_detects_agent_with_zero_keys() {
    let status = probe(
        "empty.sock",
        "1.0",
        vec![
            ProbeEvent::Connected,
            ProbeEvent::TimeoutsSet,
            ProbeEvent::Sent,
            ProbeEvent::Length { bytes: vec![0, 0, 0, 5] },
            ProbeEvent::Header { bytes: vec![12, 0, 0, 0, 0] },
        ],
    );
    assert_eq!(status, SshAgentStatus::Available { identities_count: 0 });
    let err = format_ssh_auth_error(
        "git@github.com:o/r.git",
        "git@github.com:o/r.git",
        &status,
    );
    assert!(err.contains("has no keys loaded"));
    assert!(err.contains("ssh-add <path-to-key>"));
}

#[test]
fn url_rewrites_and_detection() {
    let config = vec![
        (
            "url.git@github.com:.pushinsteadof".to_string(),
            "https://github.com/".to_string(),
        ),
        (
            "url.https://github.com/.insteadof".to_string(),
            "git://github.com/".to_string(),
        ),
    ];

    assert_eq!(
        resolve_effective_url(&config, "https://github.com/o/r.git", true),
        "git@github.com:o/r.git"
    );
    assert_eq!(
        resolve_effective_url(&config, "https://github.com/o/r.git", false),
        "https://github.com/o/r.git"
    );
    assert_eq!(
        resolve_effective_url(&config, "git://github.com/o/r.git", false),
        "https://github.com/o/r.git"
    );

    assert!(is_ssh_url("git@github.com:o/r.git"));
    assert!(is_ssh_url("ssh://git@github.com/o/r.git"));
    assert!(!is_ssh_url("https://github.com/o/r.git"));
}

#[test]
fn connection_failure_on_ssh_remote_diagnoses_missing_ssh_agent() {
    let status = SshAgentStatus::ConnectionFailed {
        path: "/tmp/nspr-test-nonexistent-socket.sock".to_string(),
        reason: "No such file or directory".to_string(),
    };
    let err = connection_error(
        is_ssh_url("git@github.com:o/r.git"),
        "git@github.com:o/r.git",
        "git@github.com:o/r.git",
        &status,
    );
    assert!(
        err.contains("SSH authentication failed connecting to git@github.com:o/r.git"),
        "expected SSH authentication error, got: {err}"
    );
    assert!(
        err.contains(
            "could not connect to SSH agent at '/tmp/nspr-test-nonexistent-socket.sock'"
        ),
        "expected missing agent socket diagnosis, got: {err}"
    );
    assert!(err.contains("ssh-add"));
    assert!(err.contains("ssh -T git@github.com"));
}

#[test]
fn connection_failure_on_ssh_remote_diagnoses_timed_out_ssh_agent() {
    let status = SshAgentStatus::TimedOut {
        path: "hung.sock".to_string(),
        seconds: "0.1".to_string(),
    };
    let err = connection_error(
        true,
        "git@github.com:o/r.git",
        "git@github.com:o/r.git",
        &status,
    );
    assert!(err.contains("timed out after 0.1s"), "expected timeout diagnosis, got: {err}");
    assert!(
        err.contains("Make sure your SSH agent is responsive"),
        "expected responsive advice, got: {err}"
    );
}

#[test]
fn push_instead_of_rewrite_is_explained_in_ssh_agent_error() {
    let config = vec![(
        "url.git@github.com:.pushinsteadof".to_string(),
        "https://github.com/".to_string(),
    )];
    let url = "https://github.com/o/r.git";
    let effective = resolve_effective_url(&config, url, true);
    let status = SshAgentStatus::ConnectionFailed {
        path: "/tmp/nspr-test-nonexistent-rewrite.sock".to_string(),
        reason: "No such file or directory".to_string(),
    };
    let err = connection_error(is_ssh_url(&effective), &effective, url, &status);
    assert!(
        err.contains("rewritten from 'https://github.com/o/r.git' via git config"),
        "expected rewrite explanation, got: {err}"
    );
    assert!(
        err.contains("could not connect to SSH agent"),
        "expected agent diagnosis, got: {err}"
    );
}
