//! The laws of the library, each on a few concrete values.

use nspr::config::{parse_remote_url, Config};
use nspr::forge::{Comment, ListedPr, PrState, PushSpec};
use nspr::github;
use nspr::history;
use nspr::land::{self, squash_message, LandOptions, Retargeted};
use nspr::list::{build_stacks, PrStack, StackNode};
use nspr::oid::Oid;
use nspr::paint::{paint, Hue, Paint};
use nspr::pr_body::{splice_warning, strip_warning};
use nspr::reference::{parse_dep_spec, parse_pr_ref, DepSpec};
use nspr::refs::{ref_name, root_ref_name};
use nspr::review_diff;
use nspr::session;
use nspr::stack::{Dep, Layer, Stack};
use nspr::stack_comment::{self, splice, strip};
use nspr::status::{Drawing, LayerState, LayerStatus, StackStatus};
use nspr::tape::{Halt, Merge, Reply, Request, Tape};
use nspr::trailers::{CommitMessage, DEPENDS_ON, PULL_REQUEST};
use nspr::utils::slugify;

fn oid(n: u8) -> Oid {
    Oid::parse(&format!("{n:040x}")).unwrap()
}

fn config() -> Config {
    Config::new("acme".into(), "tools".into(), "main".into(), "tester".into())
}

fn message(subject: &str) -> CommitMessage {
    CommitMessage::parse(subject)
}

fn layer(n: u8, pr: Option<u64>, dep: Dep) -> Layer {
    Layer {
        commit: oid(n),
        parent: oid(n - 1),
        message: message(&format!("Layer {n}")),
        pr,
        dep_spec: None,
        dep,
    }
}

fn stack(layers: Vec<Layer>) -> Stack {
    Stack { base: oid(100), layers }
}

// What is written is read back.

#[test]
fn a_rendered_message_is_parsed_as_itself() {
    let text = "Add a parser\n\nIt reads things.\n\nAnd writes them.\n\nSigned-off-by: Me <me@example.com>\nPull-Request: https://github.com/acme/tools/pull/7";
    let m = CommitMessage::parse(text);
    assert_eq!(m.subject, "Add a parser");
    assert_eq!(m.get("signed-off-by"), Some("Me <me@example.com>"));
    assert_eq!(CommitMessage::parse(&m.render()), m);
}

#[test]
fn a_stored_trailer_is_read_back_and_others_are_kept() {
    let mut m = CommitMessage::parse("Subject\n\nBody\n\nDepends-On: main\nTested-by: Someone");
    m.set(PULL_REQUEST, "https://github.com/acme/tools/pull/12");
    let again = CommitMessage::parse(&m.render());
    assert_eq!(again.get(PULL_REQUEST), Some("https://github.com/acme/tools/pull/12"));
    assert_eq!(again.get(DEPENDS_ON), Some("main"));
    assert_eq!(again.get("Tested-By"), Some("Someone"));
    assert_eq!(again.subject, "Subject");
    assert_eq!(again.body, "Body");
}

#[test]
fn a_removed_trailer_is_gone_and_others_are_kept() {
    let mut m = CommitMessage::parse("Subject\n\nBody\n\nDepends-On: main\nTested-by: Someone");
    m.remove(DEPENDS_ON);
    assert_eq!(m.get(DEPENDS_ON), None);
    assert_eq!(m.get("Tested-by"), Some("Someone"));
}

#[test]
fn numbers_and_urls_name_their_pull_request() {
    for n in [0u64, 7, 10, 4711, u64::MAX] {
        assert_eq!(parse_pr_ref(&format!("#{n}")), Some(n));
        assert_eq!(parse_pr_ref(&config().pull_request_url(n)), Some(n));
        assert_eq!(parse_dep_spec(&format!("#{n}"), "main"), Ok(DepSpec::Pr(n)));
    }
    assert_eq!(parse_dep_spec("develop", "develop"), Ok(DepSpec::Main));
}

#[test]
fn a_number_that_does_not_fit_names_nothing() {
    assert_eq!(parse_pr_ref("#18446744073709551616"), None);
    assert_eq!(
        parse_dep_spec("#18446744073709551616", "main"),
        Err("number too large to fit in target type".to_string())
    );
}

#[test]
fn names_in_urls_may_have_letters_of_any_script() {
    assert_eq!(parse_pr_ref("https://github.com/ökonom/straße/pull/7"), Some(7));
    assert_eq!(parse_pr_ref("https://github.com/a b/c/pull/7"), None);
    // Digits of another script are digits, but no number is made of them.
    assert_eq!(parse_pr_ref("#٣"), None);
    assert_eq!(
        parse_dep_spec("#٣", "main"),
        Err("invalid digit found in string".to_string())
    );
}

#[test]
fn all_forms_of_a_remote_agree() {
    for prefix in
        ["git@github.com:", "ssh://git@github.com/", "https://github.com/", "git://github.com/"]
    {
        for end in ["", ".git"] {
            assert_eq!(
                parse_remote_url(&format!("{prefix}acme/tools{end}")),
                Ok(("acme".to_string(), "tools".to_string()))
            );
        }
    }
    assert!(parse_remote_url("https://example.com/acme/tools").is_err());
}

#[test]
fn object_names_are_read_back() {
    let text = "0123456789abcdef0123456789abcdef01234567";
    assert_eq!(Oid::parse(text).unwrap().text(), text);
    assert_eq!(Oid::parse(&text.to_uppercase()).unwrap().text(), text);
    assert_eq!(Oid::zero().text(), "0".repeat(40));
    assert!(Oid::parse("xyz").is_none());
}

// Names and looks.

#[test]
fn accents_are_dropped_from_branch_names() {
    assert_eq!(slugify("Überprüfe naïve Café-Größen"), "uberprufe-naive-cafe-gro-en");
    assert_eq!(slugify("ﬁne"), "fine");
}

#[test]
fn paint_goes_on_only_where_it_is_wanted() {
    assert_eq!(paint("x", Paint::bold(Hue::Red), false), "x");
    assert_eq!(paint("x", Paint::bold(Hue::Red), true), "\x1b[31m\x1b[1mx\x1b[0m");
    assert_eq!(paint("x", Paint::dimmed(), true), "\x1b[2mx\x1b[0m");
}

#[test]
fn a_warning_is_set_off() {
    let plain = session::warning_text("mind the gap", false);
    assert!(plain.contains("mind the gap"), "{plain}");
    assert!(session::warning_text("mind the gap", true).contains("\x1b["));
}

// Stacks.

#[test]
fn components_hold_every_layer_once() {
    let s = stack(vec![
        layer(1, Some(1), Dep::Main),
        layer(2, Some(2), Dep::Layer(0)),
        layer(3, None, Dep::Layer(1)),
        layer(4, Some(4), Dep::Layer(2)),
        layer(5, Some(5), Dep::Layer(0)),
        layer(6, Some(6), Dep::Main),
    ]);
    assert_eq!(s.pr_components(), vec![vec![0, 1, 4], vec![3], vec![5]]);
}

#[test]
fn chains_are_long_enough_and_apart() {
    let s = stack(vec![
        layer(1, Some(1), Dep::Main),
        layer(2, Some(2), Dep::Layer(0)),
        layer(3, Some(3), Dep::Layer(1)),
        layer(4, Some(4), Dep::Layer(0)),
        layer(5, Some(5), Dep::Layer(3)),
        layer(6, Some(6), Dep::Main),
    ]);
    assert_eq!(s.pr_chains(), vec![vec![1, 2, 3], vec![4, 5]]);
    assert_eq!(s.dependents_of(0), vec![1, 2, 3, 4]);
    assert_eq!(s.direct_dependents_of(0), vec![1, 3]);
}

fn listed(number: u64, head: &str, base: &str) -> ListedPr {
    ListedPr {
        number,
        title: format!("PR {number}"),
        head: head.to_string(),
        base: base.to_string(),
        state: PrState::Open,
        draft: false,
        review_decision: None,
        url: format!("https://github.com/acme/tools/pull/{number}"),
    }
}

fn numbers(node: &StackNode, out: &mut Vec<u64>) {
    out.push(node.pr.number);
    for child in &node.children {
        assert_eq!(child.pr.base, node.pr.head);
        numbers(child, out);
    }
}

fn shown(stacks: &[PrStack]) -> Vec<u64> {
    let mut out = Vec::new();
    for s in stacks {
        for root in &s.roots {
            assert_eq!(root.pr.base, s.base);
            numbers(root, &mut out);
        }
    }
    out
}

#[test]
fn no_pull_request_is_shown_twice() {
    let prs = vec![
        listed(5, "e", "zoo"),
        listed(4, "d", "b"),
        listed(3, "c", "b"),
        listed(2, "b", "a"),
        listed(1, "a", "main"),
        listed(6, "f", "ape"),
        // These two sit on each other, and on nothing else.
        listed(7, "g", "h"),
        listed(8, "h", "g"),
    ];
    let stacks = build_stacks(prs, "main");
    let bases: Vec<&str> = stacks.iter().map(|s| s.base.as_str()).collect();
    assert_eq!(bases, vec!["main", "ape", "zoo"]);
    assert_eq!(shown(&stacks), vec![1, 2, 3, 4, 6, 5]);
}

// Comments and descriptions.

#[test]
fn splicing_twice_is_splicing_once() {
    let block = "one\ntwo";
    for body in ["", "hello", "hello\n\nworld\n"] {
        let once = splice(body, block);
        assert_eq!(splice(&once, block), once);
        assert!(strip(&once).trim() == body.trim(), "{once}");
    }
}

#[test]
fn the_warning_comes_off_as_it_went_on() {
    let with = splice_warning("What it does.", true);
    assert_ne!(with, "What it does.");
    assert_eq!(splice_warning(&with, true), with);
    assert_eq!(strip_warning(&with), "What it does.");
    assert_eq!(splice_warning(&with, false), "What it does.");
}

// Conversations.

#[test]
fn messages_are_cleaned_up_before_they_are_written() {
    let mut t = Tape::new(vec![]);
    let r = history::create_derived_commit(
        &mut t,
        oid(1),
        "Subject  \n\n\n\nBody\t\n\n\n",
        oid(2),
        oid(3),
    );
    assert!(matches!(r, Err(Halt::Pending)));
    match t.asked.last().unwrap() {
        Request::DeriveCommit { attribution, message, tree, parent } => {
            assert_eq!(message, "Subject\n\nBody\n");
            assert_eq!((*attribution, *tree, *parent), (oid(1), oid(2), oid(3)));
        }
        other => panic!("{other:?}"),
    }
}

#[test]
fn a_message_with_a_nul_cannot_be_written() {
    let mut t = Tape::new(vec![]);
    let r = history::create_derived_commit(&mut t, oid(1), "a\0b", oid(2), oid(3));
    match r {
        Err(Halt::Refused(reason)) => {
            assert_eq!(reason, "a commit message cannot hold a NUL character")
        }
        other => panic!("{other:?}"),
    }
    assert!(t.asked.is_empty());
}

#[test]
fn an_update_that_would_need_force_is_refused() {
    let replies = vec![Reply::Object(oid(9)), Reply::Flag(false)];
    let mut t = Tape::new(replies);
    let r = history::synthesize_update_commit(&mut t, oid(3), oid(2), oid(1), "m");
    match r {
        Err(Halt::Refused(reason)) => assert!(reason.contains("would require a force"), "{reason}"),
        other => panic!("{other:?}"),
    }
    let mut t = Tape::new(vec![Reply::Object(oid(9)), Reply::Flag(true)]);
    let r = history::synthesize_update_commit(&mut t, oid(3), oid(2), oid(1), "m");
    assert!(matches!(r, Ok(tip) if tip == oid(9)));
}

#[test]
fn a_workflow_takes_the_same_way_over_the_same_replies() {
    let replies = vec![
        Reply::Object(oid(1)),
        Reply::Object(oid(2)),
        Reply::Object(oid(3)),
        Reply::Object(oid(4)),
    ];
    let mut asked: Vec<String> = Vec::new();
    for n in 0..=replies.len() {
        let mut t = Tape::new(replies[..n].to_vec());
        let r = review_diff::displayed_patch_id(&mut t, oid(10), oid(11));
        let now: Vec<String> = t.asked.iter().map(|q| format!("{q:?}")).collect();
        assert_eq!(now[..asked.len()], asked[..]);
        if n < replies.len() {
            assert!(matches!(r, Err(Halt::Pending)));
            assert_eq!(now.len(), n + 1);
        } else {
            assert!(matches!(r, Ok(id) if id == oid(4)));
        }
        asked = now;
    }
}

#[test]
fn a_failed_request_stops_a_workflow() {
    let mut t = Tape::new(vec![Reply::Failed("no such object".to_string())]);
    match review_diff::displayed_patch_id(&mut t, oid(10), oid(11)) {
        Err(Halt::Refused(reason)) => assert_eq!(reason, "no such object"),
        other => panic!("{other:?}"),
    }
}

#[test]
fn a_conflict_leaves_head_where_it_is() {
    let replies = vec![
        // The first commit applies.
        Reply::Merged(Merge::Clean(oid(20))),
        Reply::Object(oid(19)),
        Reply::Text("one".to_string()),
        Reply::Object(oid(21)),
        Reply::Done,
        // The second does not.
        Reply::Merged(Merge::Conflicts(vec!["a.txt".to_string()])),
    ];
    let mut t = Tape::new(replies);
    match history::rebase_commits(&mut t, &vec![oid(1), oid(2)], oid(5)) {
        Err(Halt::Refused(reason)) => assert_eq!(reason, "rebase failed due to merge conflicts"),
        other => panic!("{other:?}"),
    }
    assert!(!t.asked.iter().any(|q| matches!(q, Request::CheckoutHead { .. })));
}

#[test]
fn a_commit_that_became_empty_is_dropped() {
    let replies = vec![
        Reply::Merged(Merge::Clean(oid(20))),
        Reply::Object(oid(20)),
        Reply::Done,
        Reply::Done,
    ];
    let mut t = Tape::new(replies);
    let r = history::rebase_commits(&mut t, &vec![oid(1)], oid(5));
    assert!(matches!(r, Ok(left) if left.is_empty()));
    match t.asked.last().unwrap() {
        Request::CheckoutHead { commit } => assert_eq!(*commit, oid(5)),
        other => panic!("{other:?}"),
    }
}

#[test]
fn content_stays_as_it_is_where_the_place_has_its_base() {
    let mut t = Tape::new(vec![Reply::Object(oid(7))]);
    let r = history::rebase_tree_onto(&mut t, oid(7), oid(1), oid(9));
    assert!(matches!(r, Ok(Some(tree)) if tree == oid(9)));
    let mut t =
        Tape::new(vec![Reply::Object(oid(8)), Reply::Merged(Merge::Conflicts(vec![]))]);
    let r = history::rebase_tree_onto(&mut t, oid(7), oid(1), oid(9));
    assert!(matches!(r, Ok(None)));
}

#[test]
fn the_squash_commit_says_nothing_of_a_dependency() {
    let mut l = layer(1, Some(7), Dep::Main);
    l.message = CommitMessage::parse(
        "Subject\n\nBody\n\nDepends-On: main\nTested-by: Someone\nPull-Request: https://github.com/acme/tools/pull/7",
    );
    let (title, body) = squash_message(&l, 7, &LandOptions::default());
    assert_eq!(title, "Subject (#7)");
    assert_eq!(
        body,
        "Body\n\nTested-by: Someone\nPull-Request: https://github.com/acme/tools/pull/7"
    );
    let mut opts = LandOptions::default();
    opts.message = Some("Other".to_string());
    assert_eq!(squash_message(&l, 7, &opts).1, "Other");
}

#[test]
fn a_plus_marks_a_forced_push() {
    let forward = PushSpec::fast_forward("topic", oid(1));
    assert_eq!(github::refspec(&forward), format!("{}:refs/heads/topic", oid(1).text()));
    let forced = PushSpec::forced("topic", oid(1));
    assert_eq!(github::refspec(&forced), format!("+{}:refs/heads/topic", oid(1).text()));
    let gone = PushSpec::delete("topic");
    assert_eq!(github::refspec(&gone), ":refs/heads/topic");
}

#[test]
fn bases_are_changed_back_after_a_failed_merge() {
    let moved = vec![
        Retargeted { layer: 1, number: 102, base: "a".to_string() },
        Retargeted { layer: 3, number: 104, base: "a".to_string() },
    ];
    let mut t = Tape::new(vec![Reply::Done, Reply::Done]);
    assert!(land::rollback(&mut t, &moved).is_ok());
    let told: Vec<(u64, Option<String>)> = t
        .asked
        .iter()
        .map(|q| match q {
            Request::TryUpdatePullRequest { number, update } => (*number, update.base.clone()),
            other => panic!("{other:?}"),
        })
        .collect();
    assert_eq!(told, vec![(102, Some("a".to_string())), (104, Some("a".to_string()))]);
}

#[test]
fn a_pull_request_shows_the_difference_to_the_merge_base() {
    let lines = vec![
        ('F', "diff --git a/a b/a\n".to_string()),
        ('H', "@@ -1 +1,2 @@\n".to_string()),
        (' ', "kept\n".to_string()),
        ('-', "old\n".to_string()),
        ('+', "new\n".to_string()),
    ];
    let mut t = Tape::new(vec![
        Reply::Object(oid(1)),
        Reply::Object(oid(2)),
        Reply::Object(oid(3)),
        Reply::Lines(lines.clone()),
    ]);
    let text = review_diff::displayed_patch(&mut t, oid(10), oid(11)).unwrap();
    assert_eq!(text, "diff --git a/a b/a\n@@ -1 +1,2 @@\n kept\n-old\n+new\n");
    assert!(matches!(t.asked[0], Request::MergeBase { a, b } if a == oid(10) && b == oid(11)));
    assert!(matches!(t.asked[3], Request::DiffLines { from, to } if from == oid(2) && to == oid(3)));

    // A commit shows the difference to the one below it.
    let mut t = Tape::new(vec![
        Reply::MaybeObject(Some(oid(1))),
        Reply::Object(oid(2)),
        Reply::Object(oid(3)),
        Reply::Lines(lines),
    ]);
    assert_eq!(review_diff::local_commit_patch(&mut t, oid(11)).unwrap(), text);
    let mut t = Tape::new(vec![Reply::MaybeObject(None)]);
    match review_diff::local_commit_patch(&mut t, oid(11)) {
        Err(Halt::Refused(reason)) => assert_eq!(reason, "parent 0 does not exist"),
        other => panic!("{other:?}"),
    }
}

#[test]
fn a_name_is_known_by_its_number() {
    let a = Oid::parse("00000000000000000000000000000000000000AB").unwrap();
    let b = Oid::parse("00000000000000000000000000000000000000ab").unwrap();
    assert_eq!(a, b);
    assert_ne!(a, Oid::parse("00000000000000000000000000000000000000ac").unwrap());
}

#[test]
fn an_update_moves_a_branch_forward() {
    let mut t = Tape::new(vec![Reply::Object(oid(7)), Reply::Flag(true)]);
    let tip = history::synthesize_update_commit(&mut t, oid(1), oid(2), oid(3), "an update");
    assert_eq!(tip.unwrap(), oid(7));
    assert!(matches!(
        &t.asked[0],
        Request::DeriveCommit { tree, parent, .. } if *tree == oid(2) && *parent == oid(1)
    ));
    assert!(matches!(
        t.asked[1],
        Request::IsDescendant { descendant, ancestor } if descendant == oid(7) && ancestor == oid(1)
    ));

    let mut t = Tape::new(vec![Reply::Object(oid(7)), Reply::Flag(false)]);
    let tip = history::synthesize_update_commit(&mut t, oid(1), oid(2), oid(3), "an update");
    assert!(matches!(tip, Err(Halt::Refused(reason)) if reason.contains("would require a force")));
}

// Comments.

fn comment(id: u64, body: &str) -> Comment {
    Comment { id, body: body.to_string() }
}

/// The bodies that a run over the given own comments writes, and how many it counts.
fn comments_written(s: &Stack, own: Vec<Vec<Comment>>) -> (usize, Vec<String>) {
    let mut own = own.into_iter();
    let mut replies: Vec<Reply> = Vec::new();
    loop {
        let mut t = Tape::new(replies.clone());
        match stack_comment::update_all(&mut t, &config(), s) {
            Ok(n) => {
                let bodies = t
                    .asked
                    .iter()
                    .filter_map(|q| match q {
                        Request::CreateComment { body, .. } => Some(body.clone()),
                        Request::UpdateComment { body, .. } => Some(body.clone()),
                        _ => None,
                    })
                    .collect();
                return (n, bodies);
            }
            Err(Halt::Pending) => replies.push(match t.asked.last().unwrap() {
                Request::OwnComments { .. } => Reply::Comments(own.next().unwrap()),
                _ => Reply::Done,
            }),
            Err(other) => panic!("{other:?}"),
        }
    }
}

#[test]
fn comments_are_written_once() {
    let s = stack(vec![
        layer(1, Some(11), Dep::Main),
        layer(2, Some(12), Dep::Layer(0)),
    ]);
    let first = vec![vec![], vec![comment(7, "Thanks.")]];
    let (n, bodies) = comments_written(&s, first);
    assert_eq!((n, bodies.len()), (2, 2));
    let second = vec![
        vec![comment(6, &bodies[0])],
        vec![comment(7, &bodies[1])],
    ];
    let (n, bodies) = comments_written(&s, second);
    assert_eq!((n, bodies.len()), (0, 0));
}

#[test]
fn a_comment_with_nothing_to_take_out_is_left_alone() {
    let s = stack(vec![layer(1, Some(11), Dep::Main)]);
    let body = "<!-- nspr:stack -->\ndangling";
    let (n, bodies) = comments_written(&s, vec![vec![comment(7, body)]]);
    assert_eq!((n, bodies.len()), (0, 0));
}

#[test]
fn a_layer_on_a_pull_request_elsewhere_stands_alone() {
    let s = stack(vec![
        layer(1, Some(11), Dep::ExternalPr(9)),
        layer(2, Some(12), Dep::Main),
        layer(3, Some(13), Dep::Layer(1)),
    ]);
    assert!(!s.is_layer_stacked(0));
    assert!(s.is_layer_stacked(1));
    assert!(s.is_layer_stacked(2));
}

// Tables.

/// The text without the sequences that set colours and links.
fn without_codes(s: &str) -> String {
    let mut out = String::new();
    let mut chars = s.chars();
    while let Some(c) = chars.next() {
        if c != '\u{1b}' {
            out.push(c);
            continue;
        }
        match chars.next() {
            // A colour goes on up to its letter.
            Some('[') => while chars.next().is_some_and(|c| !c.is_ascii_alphabetic()) {},
            // A link goes on up to the end of the string that it is.
            Some(']') => {
                while let Some(c) = chars.next() {
                    if c == '\u{7}' {
                        break;
                    }
                    if c == '\u{1b}' {
                        chars.next();
                        break;
                    }
                }
            }
            other => panic!("{other:?}"),
        }
    }
    out
}

#[test]
fn colour_changes_no_text_and_no_alignment() {
    let row = |index: usize, number: Option<u64>, subject: &str, state: LayerState| LayerStatus {
        index,
        subject: subject.to_string(),
        number,
        url: number.map(|n| format!("https://github.com/acme/tools/pull/{n}")),
        branch: number.map(|n| format!("tester/{n}")),
        base: number.map(|_| "other".to_string()),
        wanted_base: "main".to_string(),
        wanted_base_label: "main".to_string(),
        state,
        draft: index == 0,
        auto_merge: false,
        conflicting: index == 1,
        behind: index == 1,
        message_differs: index == 2,
        landable: false,
        dep: if index == 0 { Dep::Main } else { Dep::Layer(index - 1) },
    };
    let status = StackStatus {
        trunk: "main".to_string(),
        layers: vec![
            row(0, Some(7), "Short", LayerState::Current),
            row(1, Some(1234), "Größen von 漢字 in a rather long subject", LayerState::Modified),
            row(2, None, "New", LayerState::NeedsRestack),
        ],
    };
    for term_width in [None, Some(40), Some(60), Some(200)] {
        for use_unicode in [true, false] {
            let how = |on: bool| Drawing {
                update_message: false,
                use_unicode,
                use_color: on,
                colors: on,
                term_width,
            };
            let plain = status.draw_table(None, how(false));
            let coloured = status.draw_table(None, how(true));
            assert!(!plain.contains('\u{1b}'));
            assert!(coloured.contains("\u{1b}["));
            assert!(coloured.contains("\u{1b}]8;;"));
            assert_eq!(without_codes(&coloured), plain);
        }
    }
}

// Names of branches.

#[test]
fn plain_subjects_are_kept_in_branch_names() {
    assert_eq!(slugify("[Tools] Add 2 new_checks!"), "tools-add-2-new-checks");
}

#[test]
fn every_pull_request_without_a_circle_is_shown() {
    let prs = vec![
        listed(3, "c", "b"),
        listed(4, "d", "b"),
        listed(1, "a", "main"),
        listed(9, "i", "i"),
        listed(2, "b", "a"),
        listed(5, "e", "d"),
    ];
    let mut all = shown(&build_stacks(prs, "main"));
    all.sort();
    assert_eq!(all, vec![1, 2, 3, 4, 5, 9]);
}

#[test]
fn plain_rows_fit_the_terminal() {
    let status = StackStatus {
        trunk: "main".to_string(),
        layers: vec![LayerStatus {
            index: 0,
            subject: "A subject that is much too long for the columns that are left".to_string(),
            number: Some(12),
            url: None,
            branch: Some("tester/12".to_string()),
            base: Some("main".to_string()),
            wanted_base: "main".to_string(),
            wanted_base_label: "main".to_string(),
            state: LayerState::Current,
            draft: false,
            auto_merge: false,
            conflicting: false,
            behind: false,
            message_differs: false,
            landable: false,
            dep: Dep::Main,
        }],
    };
    let drawn = status.draw_table(
        None,
        Drawing {
            update_message: false,
            use_unicode: false,
            use_color: false,
            colors: false,
            term_width: Some(40),
        },
    );
    let row = drawn.lines().next().unwrap();
    assert_eq!(row.chars().count(), 40);
    assert!(row.ends_with("..."), "{row}");
}

#[test]
fn references_are_known_by_their_kind_and_number() {
    let names = [ref_name(1), ref_name(12), root_ref_name(1), root_ref_name(12)];
    for (i, a) in names.iter().enumerate() {
        for b in &names[i + 1..] {
            assert_ne!(a, b);
        }
    }
}
