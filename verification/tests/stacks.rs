//! Stacks: as comments, as listings, on a terminal, and what of them lands.

use nspr::cli::{parse_pr_arg, resolve_land_target, LandArgs};
use nspr::config::Config;
use nspr::forge::{ListedPr, PrState, ReviewDecision};
use nspr::list::{build_stacks, format_stacks};
use nspr::oid::Oid;
use nspr::stack::{Dep, Layer, Stack};
use nspr::stack_comment::{render, splice, BEGIN, END};
use nspr::status::{LayerState, LayerStatus, StackStatus};
use nspr::trailers::CommitMessage;


fn make_pr(
    number: u64,
    title: &str,
    base: &str,
    head: &str,
    decision: Option<ReviewDecision>,
) -> ListedPr {
    ListedPr {
        number,
        title: title.to_string(),
        state: PrState::Open,
        draft: false,
        base: base.to_string(),
        head: head.to_string(),
        review_decision: decision,
        url: format!("https://github.com/o/r/pull/{number}"),
    }
}

#[test]
fn empty_list_reports_no_pull_requests() {
    let stacks = build_stacks(vec![], "main");
    assert!(stacks.is_empty());
    assert_eq!(format_stacks(&stacks), "No open pull requests found.\n");
}

#[test]
fn groups_linear_stack_hierarchically() {
    let prs = vec![
        make_pr(17, "Wire up cache", "main", "users/me/cache", None),
        make_pr(
            18,
            "Add metrics",
            "users/me/cache",
            "users/me/metrics",
            Some(ReviewDecision::Approved),
        ),
    ];

    let stacks = build_stacks(prs, "main");
    assert_eq!(stacks.len(), 1);
    assert_eq!(stacks[0].base, "main");
    assert_eq!(stacks[0].roots.len(), 1);
    assert_eq!(stacks[0].roots[0].pr.number, 17);
    assert_eq!(stacks[0].roots[0].children.len(), 1);
    assert_eq!(stacks[0].roots[0].children[0].pr.number, 18);

    let rendered = format_stacks(&stacks);
    assert!(rendered.contains("#17"));
    assert!(rendered.contains("#18"));
    assert!(rendered.contains("[Pending]"));
    assert!(rendered.contains("[Approved]"));
}

#[test]
fn groups_branching_dag_stack() {
    let prs = vec![
        make_pr(1, "Base layer", "main", "branch-1", None),
        make_pr(2, "Child A", "branch-1", "branch-2", None),
        make_pr(3, "Child B", "branch-1", "branch-3", None),
    ];

    let stacks = build_stacks(prs, "main");
    assert_eq!(stacks.len(), 1);
    assert_eq!(stacks[0].roots[0].children.len(), 2);
    assert_eq!(stacks[0].roots[0].children[0].pr.number, 2);
    assert_eq!(stacks[0].roots[0].children[1].pr.number, 3);
}

#[test]
fn groups_multiple_independent_stacks() {
    let prs = vec![
        make_pr(1, "Feature A", "main", "users/me/a", None),
        make_pr(2, "Feature B", "develop", "users/me/b", None),
    ];

    let stacks = build_stacks(prs, "main");
    assert_eq!(stacks.len(), 2);
    assert_eq!(stacks[0].base, "main");
    assert_eq!(stacks[1].base, "develop");
}

#[test]
fn handles_cycle_without_infinite_recursion() {
    let prs = vec![
        make_pr(1, "A", "branch-b", "branch-a", None),
        make_pr(2, "B", "branch-a", "branch-b", None),
    ];

    // Should terminate cleanly
    let stacks = build_stacks(prs, "main");
    let rendered = format_stacks(&stacks);
    assert!(!rendered.is_empty());
}


#[test]
fn splice_into_an_empty_body() {
    assert_eq!(splice("", "table"), format!("{BEGIN}\ntable\n{END}"));
}

#[test]
fn splice_preserves_text_around_the_block() {
    let body = format!("before\n\n{BEGIN}\nold\n{END}\n\nafter");
    let out = splice(&body, "new");
    assert!(out.starts_with("before\n\n"));
    assert!(out.ends_with("\n\nafter"));
    assert!(out.contains("new"));
    assert!(!out.contains("old"));
}

#[test]
fn splice_appends_when_there_is_no_block() {
    let out = splice("just a comment", "table");
    assert!(out.starts_with("just a comment\n\n"));
    assert!(out.contains("table"));
}

/// A truncated block must not license eating the rest of the comment.
#[test]
fn splice_ignores_an_unterminated_block() {
    let body = format!("keep me\n{BEGIN}\ndangling");
    let out = splice(&body, "table");
    assert!(out.contains("keep me"));
    assert!(out.contains("dangling"));
    assert!(out.contains(END));
}

#[test]
fn splice_is_idempotent() {
    let once = splice("hello", "table");
    assert_eq!(splice(&once, "table"), once);
}

#[test]
fn render_linear_stack_is_completely_flat() {
    let config = Config::new(
        "owner".into(),
        "repo".into(),
        "main".into(),
        "user".into(),
    );
    let oid = Oid::zero();
    let stack = Stack {
        base: oid,
        layers: vec![
            Layer {
                commit: oid,
                parent: oid,
                message: CommitMessage::parse("Layer 1\n"),
                pr: Some(101),
                dep_spec: None,
                dep: Dep::Main,
            },
            Layer {
                commit: oid,
                parent: oid,
                message: CommitMessage::parse("Layer 2\n"),
                pr: Some(102),
                dep_spec: None,
                dep: Dep::Layer(0),
            },
        ],
    };

    let rendered = render(&config, &stack, 1);
    assert!(rendered.contains("- `main`\n"));
    assert!(rendered.contains("- #101 Layer 1\n"));
    assert!(rendered.contains("- ➡️ **#102 Layer 2**\n"));
    // Ensure no indented bullet points
    assert!(!rendered.contains("  -"));
}

#[test]
fn render_branching_stack_is_indented() {
    let config = Config::new(
        "owner".into(),
        "repo".into(),
        "main".into(),
        "user".into(),
    );
    let oid = Oid::zero();
    let stack = Stack {
        base: oid,
        layers: vec![
            Layer {
                commit: oid,
                parent: oid,
                message: CommitMessage::parse("Layer 1\n"),
                pr: Some(101),
                dep_spec: None,
                dep: Dep::Main,
            },
            Layer {
                commit: oid,
                parent: oid,
                message: CommitMessage::parse("Layer 2\n"),
                pr: Some(102),
                dep_spec: None,
                dep: Dep::Layer(0),
            },
            Layer {
                commit: oid,
                parent: oid,
                message: CommitMessage::parse(
                    "Layer 3 sibling\n",
                ),
                pr: Some(103),
                dep_spec: None,
                dep: Dep::Layer(0),
            },
        ],
    };

    let rendered = render(&config, &stack, 1);
    assert!(!stack.is_linear());
    assert!(rendered.contains("  - #101 Layer 1\n"));
    assert!(rendered.contains("    - ➡️ **#102 Layer 2**\n"));
    assert!(rendered.contains("    - #103 Layer 3 sibling\n"));
}


#[test]
fn render_aligns_columns_and_shortens_retarget_labels() {
    let status = StackStatus {
        trunk: "main".to_string(),
        layers: vec![
            LayerStatus {
                index: 0,
                subject: "[cross-project-tests] Avoid requiring packaging for GDB/LLDB version checks".into(),
                number: Some(225126),
                url: Some("https://github.com/llvm/llvm-project/pull/225126".into()),
                branch: Some("users/arichardson/nspr/1".into()),
                base: Some("main".into()),
                wanted_base: "main".into(),
                wanted_base_label: "main".into(),
                state: LayerState::NeedsRestack,
                draft: false,
                auto_merge: false,
                conflicting: false,
                behind: false,
                message_differs: false,
                landable: true,
                dep: Dep::Main,
            },
            LayerStatus {
                index: 1,
                subject: "[cross-project-tests] Derive tool substitutions from CMake".into(),
                number: Some(225127),
                url: Some("https://github.com/llvm/llvm-project/pull/225127".into()),
                branch: Some("users/arichardson/cross-project-tests-derive-tool-substitutions-from-cmake".into()),
                base: Some("users/arichardson/nspr/1".into()),
                wanted_base: "users/arichardson/nspr/1".into(),
                wanted_base_label: "#225126".into(),
                state: LayerState::NeedsRestack,
                draft: false,
                auto_merge: false,
                conflicting: false,
                behind: false,
                message_differs: false,
                landable: false,
                dep: Dep::Layer(0),
            },
            LayerStatus {
                index: 2,
                subject: "[RISC-V][LTO] Add baseline tests for LTO inline assembly".into(),
                number: Some(225129),
                url: Some("https://github.com/llvm/llvm-project/pull/225129".into()),
                branch: Some("users/arichardson/nspr/3".into()),
                base: Some("main".into()),
                wanted_base: "users/arichardson/cross-project-tests-derive-tool-substitutions-from-cmake".into(),
                wanted_base_label: "#225127".into(),
                state: LayerState::Modified,
                draft: false,
                auto_merge: false,
                conflicting: false,
                behind: false,
                message_differs: false,
                landable: false,
                dep: Dep::Layer(1),
            },
        ],
    };

    let rendered = status.render_with_options(true, false, None);
    let expected = ["  ◉  #225129  modified  retarget → #225127  [RISC-V][LTO] Add baseline tests for LTO inline assembly\n",
        "  ◎  #225127  restack                       [cross-project-tests] Derive tool substitutions from CMake\n",
        "  ◎  #225126  restack   landable            [cross-project-tests] Avoid requiring packaging for GDB/LLDB version checks\n",
        "  ┴─ main\n",
    ].concat();
    assert_eq!(rendered, expected);
}


fn dummy_layer(subject: &str, pr: Option<u64>, dep: Dep) -> Layer {
    Layer {
        commit: Oid::zero(),
        parent: Oid::zero(),
        message: CommitMessage::parse(subject),
        pr,
        dep_spec: None,
        dep,
    }
}







#[test]
fn resolve_land_target_allows_single_layer_without_flags() {
    let stack = Stack {
        base: Oid::zero(),
        layers: vec![dummy_layer("Single commit", Some(101), Dep::Main)],
    };
    let args = LandArgs::default();
    assert_eq!(resolve_land_target(&stack, &args, "main").unwrap(), 0);
}

#[test]
fn resolve_land_target_rejects_ambiguous_bare_land_on_multi_layer_stack() {
    let stack = Stack {
        base: Oid::zero(),
        layers: vec![
            dummy_layer("Bottom commit", Some(101), Dep::Main),
            dummy_layer("Middle commit", Some(102), Dep::Layer(0)),
            dummy_layer("Top HEAD commit", Some(103), Dep::Layer(1)),
        ],
    };
    let args = LandArgs::default();
    let err = resolve_land_target(&stack, &args, "main")
        .unwrap_err();
    assert!(err.contains("HEAD` is #103 (`Top HEAD commit`)"));
    assert!(err.contains("bottom of stack is #101 (`Bottom commit`)"));
    assert!(err.contains("nspr land --pr=101"));
    assert!(err.contains("nspr land --bottom"));
    assert!(err.contains("nspr land --all"));
}

#[test]
fn resolve_land_target_honors_explicit_pr_or_bottom_on_multi_layer_stack() {
    let stack = Stack {
        base: Oid::zero(),
        layers: vec![
            dummy_layer("Bottom commit", Some(101), Dep::Main),
            dummy_layer("Top HEAD commit", Some(102), Dep::Layer(0)),
        ],
    };

    let bottom_args = LandArgs {
        bottom: true,
        ..Default::default()
    };
    assert_eq!(
        resolve_land_target(&stack, &bottom_args, "main").unwrap(),
        0
    );

    let pr_args = LandArgs {
        pr: Some(102),
        ..Default::default()
    };
    assert_eq!(resolve_land_target(&stack, &pr_args, "main").unwrap(), 1);
}

#[test]
fn resolve_land_target_allows_single_cherry_picked_pr_among_wip_commits() {
    let stack = Stack {
        base: Oid::zero(),
        layers: vec![
            dummy_layer("WIP commit 1", None, Dep::Main),
            dummy_layer("WIP commit 2", None, Dep::Layer(0)),
            dummy_layer("Cherry-picked bugfix", Some(105), Dep::Main),
            dummy_layer("WIP commit 3", None, Dep::Layer(2)),
        ],
    };
    let args = LandArgs::default();
    assert_eq!(resolve_land_target(&stack, &args, "main").unwrap(), 2);
}

#[test]
fn resolve_land_target_honors_cherry_pick_flag_and_rejects_stacked_head() {
    let stack = Stack {
        base: Oid::zero(),
        layers: vec![
            dummy_layer("Bottom PR", Some(101), Dep::Main),
            dummy_layer("Independent HEAD PR", Some(105), Dep::Main),
        ],
    };
    let cp_args = LandArgs {
        cherry_pick: true,
        ..Default::default()
    };
    assert_eq!(resolve_land_target(&stack, &cp_args, "main").unwrap(), 1);

    let stacked_stack = Stack {
        base: Oid::zero(),
        layers: vec![
            dummy_layer("Bottom PR", Some(101), Dep::Main),
            dummy_layer("Stacked HEAD PR", Some(102), Dep::Layer(0)),
        ],
    };
    let err = resolve_land_target(&stacked_stack, &cp_args, "main")
        .unwrap_err();
    assert!(err.contains("is stacked on another commit"));
}



#[test]
fn cli_close_accepts_number_hash_and_url() {
    assert_eq!(parse_pr_arg("123").unwrap(), 123);
    assert_eq!(parse_pr_arg("#456").unwrap(), 456);
    assert_eq!(parse_pr_arg("https://github.com/owner/repo/pull/789").unwrap(), 789);
}

#[test]
fn cli_patch_accepts_number_hash_and_url() {
    assert_eq!(parse_pr_arg("#101").unwrap(), 101);
}

#[test]
fn cli_land_accepts_pr_flag_positional_and_bottom() {
    let args = LandArgs::default();
    assert_eq!(args.target_pr(), None);
    assert!(!args.bottom);
    assert!(!args.all);

    let args = LandArgs { pr: Some(parse_pr_arg("1234").unwrap()), ..Default::default() };
    assert_eq!(args.target_pr(), Some(1234));

    let args = LandArgs { pr: Some(parse_pr_arg("#202").unwrap()), ..Default::default() };
    assert_eq!(args.target_pr(), Some(202));

    let args = LandArgs { number: Some(parse_pr_arg("#303").unwrap()), ..Default::default() };
    assert_eq!(args.target_pr(), Some(303));

    let args = LandArgs { bottom: true, ..Default::default() };
    assert_eq!(args.target_pr(), None);
    assert!(args.bottom);

    let args = LandArgs { all: true, ..Default::default() };
    assert_eq!(args.target_pr(), None);
    assert!(args.all);
}
