//! Commit messages and their trailers.

use nspr::trailers::{CommitMessage, DEPENDS_ON, PULL_REQUEST};


#[test]
fn subject_only() {
    let m = CommitMessage::parse("Add the widget cache");
    assert_eq!(m.subject, "Add the widget cache");
    assert_eq!(m.body, "");
    assert!(m.trailers.is_empty());
}

#[test]
fn subject_that_looks_like_a_trailer_is_not_one() {
    // The subject line must never be consumed as a trailer block.
    let m = CommitMessage::parse("Fix: the thing");
    assert_eq!(m.subject, "Fix: the thing");
    assert!(m.trailers.is_empty());
}

#[test]
fn subject_and_body() {
    let m = CommitMessage::parse("Subject\n\nSome body text.\nMore text.");
    assert_eq!(m.subject, "Subject");
    assert_eq!(m.body, "Some body text.\nMore text.");
    assert!(m.trailers.is_empty());
}

#[test]
fn subject_body_and_trailers() {
    let m = CommitMessage::parse(
        "Subject\n\nBody text.\n\nPull-Request: https://x/1\nDepends-On: #101\n",
    );
    assert_eq!(m.subject, "Subject");
    assert_eq!(m.body, "Body text.");
    assert_eq!(m.get(PULL_REQUEST), Some("https://x/1"));
    assert_eq!(m.get(DEPENDS_ON), Some("#101"));
}

#[test]
fn subject_and_trailers_without_body() {
    let m = CommitMessage::parse("Subject\n\nPull-Request: https://x/1\n");
    assert_eq!(m.subject, "Subject");
    assert_eq!(m.body, "");
    assert_eq!(m.get(PULL_REQUEST), Some("https://x/1"));
}

#[test]
fn body_containing_a_colon_is_not_a_trailer_block() {
    // The last paragraph has a colon line but also a non-trailer line,
    // so the whole paragraph must stay in the body.
    let m = CommitMessage::parse(
        "Subject\n\nNote: this is prose.\nAnd this continues it without indent.",
    );
    assert!(m.trailers.is_empty());
    assert_eq!(
        m.body,
        "Note: this is prose.\nAnd this continues it without indent."
    );
}

#[test]
fn signed_off_by_only_block() {
    let m =
        CommitMessage::parse("Subject\n\nBody.\n\nSigned-off-by: A <a@b>");
    assert_eq!(m.body, "Body.");
    assert_eq!(m.get("Signed-off-by"), Some("A <a@b>"));
}

#[test]
fn preserves_foreign_trailers_alongside_ours() {
    let raw = "Subject\n\nBody.\n\nCo-authored-by: B <b@c>\nPull-Request: https://x/1\nSigned-off-by: A <a@b>\n";
    let mut m = CommitMessage::parse(raw);
    assert_eq!(m.trailers.len(), 3);
    m.set(DEPENDS_ON, "#101");
    let rendered = m.render();
    assert!(rendered.contains("Co-authored-by: B <b@c>"));
    assert!(rendered.contains("Signed-off-by: A <a@b>"));
    assert!(rendered.contains("Depends-On: #101"));
    // Round-trips.
    assert_eq!(CommitMessage::parse(&rendered), m);
}

#[test]
fn set_replaces_in_place() {
    let mut m = CommitMessage::parse(
        "S\n\nB\n\nPull-Request: old\nSigned-off-by: A <a@b>\n",
    );
    m.set(PULL_REQUEST, "new");
    assert_eq!(m.get(PULL_REQUEST), Some("new"));
    // Position preserved: Pull-Request is still first.
    assert_eq!(m.trailers[0].0, PULL_REQUEST);
    assert_eq!(m.trailers.len(), 2);
}

#[test]
fn get_is_case_insensitive() {
    let m = CommitMessage::parse("S\n\npull-request: https://x/1\n");
    assert_eq!(m.get(PULL_REQUEST), Some("https://x/1"));
}

#[test]
fn remove_trailer() {
    let mut m =
        CommitMessage::parse("S\n\nB\n\nPull-Request: x\nDepends-On: #1\n");
    assert!(m.remove(DEPENDS_ON));
    assert_eq!(m.get(DEPENDS_ON), None);
    assert!(!m.remove(DEPENDS_ON));
}

#[test]
fn render_round_trips() {
    for raw in [
        "Subject",
        "Subject\n\nBody.",
        "Subject\n\nPull-Request: https://x/1",
        "Subject\n\nBody.\n\nPull-Request: https://x/1\nDepends-On: main",
    ] {
        let m = CommitMessage::parse(raw);
        assert_eq!(
            CommitMessage::parse(&m.render()),
            m,
            "round-trip failed for {raw:?}"
        );
    }
}

#[test]
fn crlf_is_normalized() {
    let m = CommitMessage::parse("Subject\r\n\r\nBody.\r\n");
    assert_eq!(m.subject, "Subject");
    assert_eq!(m.body, "Body.");
}

#[test]
fn continuation_lines_attach_to_previous_trailer() {
    let m =
        CommitMessage::parse("S\n\nB\n\nPull-Request: x\n  continued\n");
    assert_eq!(m.trailers.len(), 1);
    assert_eq!(m.get(PULL_REQUEST), Some("x\n  continued"));
}
