//! The commands besides `diff`.

use vstd::prelude::*;

use crate::amend;
use crate::amend::{amend as amend_messages, Amended, AmendedView};
use crate::cli;
use crate::cli::{find_layer_with, resolve_land_target, DiffArgs, DiffArgsView, LandArgs, LandArgsView};
use crate::close;
use crate::close::{close_layer, list_numbers, CloseOutcomeView};
use crate::config;
use crate::config::ConfigView;
use crate::data::{nothing, put, Duplicate};
use crate::discovery;
use crate::engine;
use crate::engine::gather;
use crate::forge;
use crate::forge::{
    ListedView, PrState, PrView, PullRequest, PullRequestUpdate, RepoMergeSettings, UpdateView,
};
use crate::land;
use crate::land::{
    land_all, land_layer, LandOptions, LandOptionsView, LandOutcome, LandOutcomeView, Repair,
    RepairView,
};
use crate::list;
use crate::list::{build_stacks, draw_stacks};
use crate::paint;
use crate::paint::{Hue, Paint};
use crate::patch;
use crate::patch::{patch_layer, PatchOutcomeView};
use crate::pr_body;
use crate::pr_body::splice_warning;
use crate::refs;
use crate::session;
use crate::session::{say, say_all, warn_all, Session, SessionView};
use crate::stack;
use crate::stack::{Stack, StackView};
use crate::stack_comment;
use crate::status;
use crate::status::StatusView;
use crate::sync;
use crate::sync::{sync_trunk, SyncReportView};
use crate::tape;
use crate::tape::{Halt, HaltView, Request, RequestView, Tape, TapeView};
use crate::text;
use crate::text::{push_decimal, same};
use crate::upgrade;
use crate::upgrade::{upgrade_stack, UpgradedLayer, UpgradedStackView, UpgradedView};

verus! {

/// The line that says that something happened to a pull request.
pub open spec fn event_line(what: Seq<char>, hue: Hue, number: u64, title: Seq<char>, colors: bool) -> Seq<
    char,
> {
    paint::painted(what, paint::bold(hue), colors) + " #"@ + text::decimal(number as nat) + " "@
        + title
}

fn event_text(what: &str, hue: Hue, number: u64, title: &str, colors: bool) -> (r: String)
    ensures
        r@ == event_line(what@, hue, number, title@, colors),
{
    let mut line = paint::paint(what, Paint::bold(hue), colors);
    line.append(" #");
    push_decimal(&mut line, number);
    line.append(" ");
    line.append(title);
    line
}

/// The arguments of a `diff` that follows on another command.
pub open spec fn quiet_diff() -> DiffArgsView {
    DiffArgsView { no_prompt: true, ..cli::plain_diff() }
}

/// A `diff` that follows on another command.
pub open spec fn restacked(t: TapeView, se: SessionView) -> (TapeView, Result<(), HaltView>) {
    tape::bind(
        session::said(t, "Restacking...\n"@),
        |t: TapeView, u: ()| session::diffed(t, se, quiet_diff(), false),
    )
}

/// The descriptions of the pull requests from the `k`th on brought up to date
/// with how the repository lets pull requests be merged.
pub open spec fn bodies_from(t: TapeView, prs: Seq<Option<PrView>>, k: int, warn: bool) -> (
    TapeView,
    Result<(), HaltView>,
)
    decreases prs.len() - k,
{
    if k < 0 || k >= prs.len() {
        tape::done(t, ())
    } else {
        match prs[k] {
            Some(pr) => if pr_body::with_warning(pr.body, warn) == pr.body {
                bodies_from(t, prs, k + 1, warn)
            } else {
                tape::bind(
                    tape::ask_unit(
                        t,
                        RequestView::UpdatePullRequest {
                            number: pr.number,
                            update: UpdateView {
                                body: Some(pr_body::with_warning(pr.body, warn)),
                                ..forge::no_update()
                            },
                        },
                    ),
                    |t: TapeView, u: ()| bodies_from(t, prs, k + 1, warn),
                )
            },
            None => bodies_from(t, prs, k + 1, warn),
        }
    }
}

fn update_bodies(t: &mut Tape, prs: &Vec<Option<PullRequest>>, warn: bool) -> (r: Result<(), Halt>)
    ensures
        (final(t)@, tape::outcome(r)) == bodies_from(old(t)@, prs.deep_view(), 0, warn),
{
    let mut k: usize = 0;
    while k < prs.len()
        invariant
            k <= prs@.len(),
            bodies_from(t@, prs.deep_view(), k as int, warn) == bodies_from(
                old(t)@,
                prs.deep_view(),
                0,
                warn,
            ),
        decreases prs@.len() - k,
    {
        assert(prs.deep_view()[k as int] == prs@[k as int].deep_view());
        match &prs[k] {
            Some(pr) => {
                let body = splice_warning(pr.body.as_str(), warn);
                if !same(pr.body.as_str(), body.as_str()) {
                    let mut update = PullRequestUpdate::default();
                    update.body = Some(body);
                    t.unit(Request::UpdatePullRequest { number: pr.number, update })?;
                }
            },
            None => {},
        }
        k = k + 1;
    }
    Ok(())
}

/// What hangs on a stack brought up to date: the registered chains, the stack
/// tables, and the descriptions.
pub open spec fn metadata_of(t: TapeView, c: ConfigView, s: StackView) -> (
    TapeView,
    Result<(), HaltView>,
) {
    tape::bind(
        tape::ask_unit(t, RequestView::SyncStacks { chains: stack::chains(s) }),
        |t: TapeView, u: ()|
            tape::bind(
                if c.stack_comments {
                    stack_comment::comments_from(t, c, s, 0, 0)
                } else {
                    tape::done(t, 0usize)
                },
                |t: TapeView, updated: usize|
                    tape::bind(
                        tape::ask_settings(t, RequestView::MergeSettings),
                        |t: TapeView, settings: RepoMergeSettings|
                            tape::bind(
                                engine::gathered(t, s),
                                |t: TapeView, prs: Seq<Option<PrView>>|
                                    bodies_from(
                                        t,
                                        prs,
                                        0,
                                        config::preserve_resolved(
                                            c.preserve_commit_history,
                                            settings,
                                        ) && !forge::squash_only(settings),
                                    ),
                            ),
                    ),
            ),
    )
}

/// What hangs on the remaining stack brought up to date, if there is one.
pub open spec fn metadata_refreshed(t: TapeView, se: SessionView) -> (
    TapeView,
    Result<(), HaltView>,
) {
    tape::bind(
        tape::tolerated(discovery::discovered(t, se.trunk_oid, se.config.trunk)),
        |t: TapeView, found: Option<StackView>|
            match found {
                Some(s) => if s.layers.len() == 0 {
                    tape::done(t, ())
                } else {
                    metadata_of(t, se.config, s)
                },
                None => tape::done(t, ()),
            },
    )
}

/// What follows on a close: a `diff` if layers were moved.
pub open spec fn close_followed(t: TapeView, se: SessionView, moved: bool) -> (
    TapeView,
    Result<(), HaltView>,
) {
    if moved {
        restacked(t, se)
    } else {
        metadata_refreshed(t, se)
    }
}

/// The pull requests from the `k`th on with the base `from` get the base `to`;
/// the result tells whether there were any.
pub open spec fn rebased_from(
    t: TapeView,
    prs: Seq<Option<PrView>>,
    k: int,
    from: Seq<char>,
    to: Seq<char>,
    any: bool,
) -> (TapeView, Result<bool, HaltView>)
    decreases prs.len() - k,
{
    if k < 0 || k >= prs.len() {
        tape::done(t, any)
    } else {
        match prs[k] {
            Some(pr) => if pr.base == from {
                tape::bind(
                    tape::ask_unit(
                        t,
                        RequestView::UpdatePullRequest {
                            number: pr.number,
                            update: UpdateView { base: Some(to), ..forge::no_update() },
                        },
                    ),
                    |t: TapeView, u: ()| rebased_from(t, prs, k + 1, from, to, true),
                )
            } else {
                rebased_from(t, prs, k + 1, from, to, any)
            },
            None => rebased_from(t, prs, k + 1, from, to, any),
        }
    }
}

fn rebase_prs(t: &mut Tape, prs: &Vec<Option<PullRequest>>, from: &str, to: &str) -> (r: Result<
    bool,
    Halt,
>)
    ensures
        (final(t)@, tape::outcome(r)) == rebased_from(
            old(t)@,
            prs.deep_view(),
            0,
            from@,
            to@,
            false,
        ),
{
    let mut any = false;
    let mut k: usize = 0;
    while k < prs.len()
        invariant
            k <= prs@.len(),
            rebased_from(t@, prs.deep_view(), k as int, from@, to@, any) == rebased_from(
                old(t)@,
                prs.deep_view(),
                0,
                from@,
                to@,
                false,
            ),
        decreases prs@.len() - k,
    {
        assert(prs.deep_view()[k as int] == prs@[k as int].deep_view());
        match &prs[k] {
            Some(pr) => {
                if same(pr.base.as_str(), from) {
                    let mut update = PullRequestUpdate::default();
                    update.base = Some(to.to_owned());
                    t.unit(Request::UpdatePullRequest { number: pr.number, update })?;
                    any = true;
                }
            },
            None => {},
        }
        k = k + 1;
    }
    Ok(any)
}

/// A pull request closed whose commit is not in the stack any more.
pub open spec fn stray_closed(t: TapeView, se: SessionView, s: StackView, number: u64) -> (
    TapeView,
    Result<(), HaltView>,
) {
    tape::bind(
        tape::ask_pr(t, RequestView::GetPullRequest { number }),
        |t: TapeView, pr: PrView|
            if pr.state != PrState::Open {
                tape::refuse(
                    t,
                    "#"@ + text::decimal(number as nat) + " is already closed or merged."@,
                )
            } else {
                tape::bind(
                    engine::gathered(t, s),
                    |t: TapeView, prs: Seq<Option<PrView>>|
                        tape::bind(
                            rebased_from(t, prs, 0, pr.head, pr.base, false),
                            |t: TapeView, moved: bool| stray_dropped(t, se, number, pr, moved),
                        ),
                )
            },
    )
}

/// The last steps of closing a pull request whose commit is not in the stack.
pub open spec fn stray_dropped(t: TapeView, se: SessionView, number: u64, pr: PrView, moved: bool) -> (
    TapeView,
    Result<(), HaltView>,
) {
    tape::bind(
        tape::ask_unit(
            t,
            RequestView::UpdatePullRequest {
                number,
                update: UpdateView { state: Some(PrState::Closed), ..forge::no_update() },
            },
        ),
        |t: TapeView, u: ()|
            tape::bind(
                tape::tolerated(refs::removed(t, number)),
                |t: TapeView, u: Option<()>|
                    tape::bind(
                        session::said(
                            t,
                            event_line("closed"@, Hue::Red, number, pr.title, se.terminal.colors)
                                + "\n"@,
                        ),
                        |t: TapeView, u: ()| close_followed(t, se, moved),
                    ),
            ),
    )
}

/// The command `close`.
pub open spec fn closed(t: TapeView, se: SessionView, number: u64) -> (
    TapeView,
    Result<(), HaltView>,
) {
    tape::bind(
        session::stack_found(t, se),
        |t: TapeView, s: StackView|
            match cli::layer_with(s, number, 0) {
                None => stray_closed(t, se, s, number),
                Some(index) => tape::bind(
                    close::layer_closed(t, se.config, s, index),
                    |t: TapeView, outcome: CloseOutcomeView|
                        tape::bind(
                            session::said(
                                t,
                                event_line(
                                    "closed"@,
                                    Hue::Red,
                                    outcome.number,
                                    outcome.title,
                                    se.terminal.colors,
                                ) + "\n"@,
                            ),
                            |t: TapeView, u: ()|
                                tape::bind(
                                    session::warned_from(
                                        t,
                                        outcome.warnings,
                                        0,
                                        se.terminal.colors,
                                    ),
                                    |t: TapeView, u: ()|
                                        close_followed(t, se, outcome.retargeted.len() > 0),
                                ),
                        ),
                ),
            },
    )
}

/// What the amended messages are shown as.
pub open spec fn amended_lines(changed: Seq<AmendedView>) -> Seq<Seq<char>> {
    changed.map_values(
        |a: AmendedView|
            "  #"@ + text::decimal(a.number as nat) + "  "@ + a.old_subject + " -> "@
                + a.new_subject + "\n"@,
    )
}

/// The command `amend`.
pub open spec fn amend_run(t: TapeView, se: SessionView) -> (TapeView, Result<(), HaltView>) {
    tape::bind(
        session::stack_found(t, se),
        |t: TapeView, s: StackView|
            tape::bind(
                amend::amended(t, s),
                |t: TapeView, changed: Seq<AmendedView>|
                    if changed.len() == 0 {
                        session::said(t, "Your commit messages already match GitHub.\n"@)
                    } else {
                        session::said_from(t, amended_lines(changed), 0)
                    },
            ),
    )
}

/// The command `status`.
pub open spec fn status_run(t: TapeView, se: SessionView) -> (TapeView, Result<(), HaltView>) {
    tape::bind(
        session::stack_found(t, se),
        |t: TapeView, s: StackView|
            tape::bind(
                status::stack_status(t, se.config, s),
                |t: TapeView, shown: StatusView|
                    session::said(
                        t,
                        status::table(shown, None, status::drawing_on(se.terminal, false)),
                    ),
            ),
    )
}

/// What an upgraded layer is shown as.
pub open spec fn upgraded_lines(c: ConfigView, item: UpgradedView, colors: bool) -> Seq<Seq<char>> {
    let first = "  "@ + paint::painted("upgraded"@, paint::bold(Hue::Green), colors) + " "@
        + config::pr_url(c, item.number) + "  "@ + item.branch + "\n"@;
    let moved = if item.old_base != item.new_base {
        seq![
            "             retargeted base "@ + item.old_base + " -> "@ + item.new_base + "\n"@,
        ]
    } else {
        Seq::empty()
    };
    let dropped = match item.deleted_synthetic_base {
        Some(branch) => seq![
            "             deleted synthetic spr base branch "@ + branch + "\n"@,
        ],
        None => Seq::empty(),
    };
    seq![first] + moved + dropped
}

/// What the first `n` upgraded layers are shown as.
pub open spec fn upgrade_lines(c: ConfigView, items: Seq<UpgradedView>, n: int, colors: bool) -> Seq<
    Seq<char>,
>
    decreases n,
{
    if n <= 0 {
        Seq::empty()
    } else {
        upgrade_lines(c, items, n - 1, colors) + upgraded_lines(c, items[n - 1], colors)
    }
}

/// The command `upgrade`.
pub open spec fn upgrade_run(t: TapeView, se: SessionView) -> (TapeView, Result<(), HaltView>) {
    tape::bind(
        session::stack_found(t, se),
        |t: TapeView, s: StackView|
            tape::bind(
                upgrade::stack_upgraded(t, se.config, s),
                |t: TapeView, v: UpgradedStackView|
                    if v.layers.len() == 0 {
                        session::said(
                            t,
                            "All pull requests in this stack already use native nspr stacking.\n"@,
                        )
                    } else {
                        session::said_from(
                            t,
                            upgrade_lines(
                                se.config,
                                v.layers,
                                v.layers.len() as int,
                                se.terminal.colors,
                            ),
                            0,
                        )
                    },
            ),
    )
}

/// The warning about a commit that is merged and still here.
pub open spec fn salvage_noted(number: u64) -> Seq<char> {
    "#"@ + text::decimal(number as nat)
        + " was merged, but your local commit for it still has changes. Drop it by hand once you have salvaged them."@
}

/// What a `sync` shows of what it found.
pub open spec fn sync_told(t: TapeView, se: SessionView, report: SyncReportView) -> (
    TapeView,
    Result<(), HaltView>,
) {
    let colors = se.terminal.colors;
    tape::bind(
        session::warned_from(t, report.warnings, 0, colors),
        |t: TapeView, u: ()|
            tape::bind(
                if report.merged.len() > 0 {
                    session::said(
                        t,
                        "Merged elsewhere: "@ + close::listed(report.merged) + "\n"@,
                    )
                } else {
                    tape::done(t, ())
                },
                |t: TapeView, u: ()|
                    session::warned_from(
                        t,
                        report.stranded.map_values(|n: u64| salvage_noted(n)),
                        0,
                        colors,
                    ),
            ),
    )
}

/// What follows on a `sync`: a `diff` if something is left on a new trunk.
pub open spec fn sync_followed(t: TapeView, se: SessionView, rebased: bool) -> (
    TapeView,
    Result<(), HaltView>,
) {
    if !rebased {
        session::said(t, "Already up to date with "@ + se.config.trunk + ".\n"@)
    } else {
        tape::bind(
            tape::ask_text(t, RequestView::ShortId { commit: se.trunk_oid }),
            |t: TapeView, short: Seq<char>|
                tape::bind(
                    session::said(t, "Rebased onto "@ + short + ".\n"@),
                    |t: TapeView, u: ()|
                        tape::bind(
                            tape::tolerated(
                                discovery::discovered(t, se.trunk_oid, se.config.trunk),
                            ),
                            |t: TapeView, remaining: Option<StackView>|
                                if remaining is Some && remaining->0.layers.len() > 0 {
                                    restacked(t, se)
                                } else {
                                    tape::done(t, ())
                                },
                        ),
                ),
        )
    }
}

/// The command `sync`.
pub open spec fn sync_run(t: TapeView, se: SessionView) -> (TapeView, Result<(), HaltView>) {
    tape::bind(
        session::stack_found(t, se),
        |t: TapeView, s: StackView|
            tape::bind(
                sync::trunk_synced(t, se.config, s),
                |t: TapeView, report: SyncReportView|
                    tape::bind(
                        sync_told(t, se, report),
                        |t: TapeView, u: ()|
                            sync_followed(
                                t,
                                SessionView { trunk_oid: report.trunk, ..se },
                                report.rebased,
                            ),
                    ),
            ),
    )
}

/// What a repaired pull request is shown as.
pub open spec fn repair_line(repair: RepairView, trunk: Seq<char>) -> Seq<char> {
    if repair.retargeted {
        "  repaired #"@ + text::decimal(repair.number as nat) + " (retargeted → "@ + trunk + ")\n"@
    } else {
        "  repaired #"@ + text::decimal(repair.number as nat) + "\n"@
    }
}

/// The landings from the `k`th on, as they are shown.
pub open spec fn landings_told(t: TapeView, se: SessionView, outcomes: Seq<LandOutcomeView>, k: int) -> (
    TapeView,
    Result<(), HaltView>,
)
    decreases outcomes.len() - k,
{
    if k < 0 || k >= outcomes.len() {
        tape::done(t, ())
    } else {
        tape::bind(
            landing_told(t, se, outcomes[k]),
            |t: TapeView, u: ()| landings_told(t, se, outcomes, k + 1),
        )
    }
}

/// A landing, as it is shown.
pub open spec fn landing_told(t: TapeView, se: SessionView, o: LandOutcomeView) -> (
    TapeView,
    Result<(), HaltView>,
) {
    let colors = se.terminal.colors;
    tape::bind(
        tape::ask_text(t, RequestView::ShortId { commit: o.squash }),
        |t: TapeView, short: Seq<char>|
            tape::bind(
                session::said(
                    t,
                    event_line("landed"@, Hue::Green, o.number, o.title, colors) + " as "@ + short
                        + "\n"@,
                ),
                |t: TapeView, u: ()|
                    tape::bind(
                        session::said_from(
                            t,
                            o.repaired.map_values(|r: RepairView| repair_line(r, se.config.trunk)),
                            0,
                        ),
                        |t: TapeView, u: ()| session::warned_from(t, o.warnings, 0, colors),
                    ),
            ),
    )
}

/// What a `land` does to the stack.
pub open spec fn landed(t: TapeView, c: ConfigView, s: StackView, args: LandArgsView) -> (
    TapeView,
    Result<Seq<LandOutcomeView>, HaltView>,
) {
    let opts = LandOptionsView { message: args.message, keep_local: false };
    if args.all && cli::named_pr(args) is None && !args.cherry_pick {
        land::all_landed(t, c, s, opts)
    } else {
        match cli::land_target(s, args, c.trunk) {
            Ok(index) => tape::bind(
                land::layer_landed(t, c, s, index, opts),
                |t: TapeView, outcome: LandOutcomeView| tape::done(t, seq![outcome]),
            ),
            Err(reason) => tape::refuse(t, reason),
        }
    }
}

/// The command `land`.
pub open spec fn land_run(t: TapeView, se: SessionView, args: LandArgsView) -> (
    TapeView,
    Result<(), HaltView>,
) {
    tape::bind(
        session::stack_found(t, se),
        |t: TapeView, s: StackView|
            tape::bind(
                landed(t, se.config, s, args),
                |t: TapeView, outcomes: Seq<LandOutcomeView>|
                    tape::bind(
                        landings_told(t, se, outcomes, 0),
                        |t: TapeView, u: ()|
                            tape::bind(
                                metadata_refreshed(
                                    t,
                                    SessionView { trunk_oid: outcomes.last().squash, ..se },
                                ),
                                |t: TapeView, u: ()|
                                    session::said(
                                        t,
                                        paint::painted(
                                            "✓ Done"@,
                                            paint::bold(Hue::Green),
                                            se.terminal.colors,
                                        ) + " ("@ + text::decimal(outcomes.len()) + " landed)\n"@,
                                    ),
                            ),
                    ),
            ),
    )
}

/// The command `list`.
pub open spec fn list_run(t: TapeView, se: SessionView, all: bool) -> (
    TapeView,
    Result<(), HaltView>,
) {
    tape::bind(
        tape::ask_listed(
            t,
            RequestView::ListPullRequests {
                author: if all {
                    None
                } else {
                    Some(se.config.login)
                },
            },
        ),
        |t: TapeView, prs: Seq<ListedView>|
            session::said(
                t,
                list::listing(list::stacks_of(prs, se.config.trunk), se.terminal.colors),
            ),
    )
}

/// The remark about the state of a pull request that was patched in.
pub open spec fn state_note(state: PrState, colors: bool) -> Seq<Seq<char>> {
    match state {
        PrState::Merged => seq![
            paint::painted(
                "Note: pull request is already merged."@,
                paint::hued(Hue::Yellow),
                colors,
            ) + "\n"@,
        ],
        PrState::Closed => seq![
            paint::painted(
                "Note: pull request was closed without merging."@,
                paint::hued(Hue::Yellow),
                colors,
            ) + "\n"@,
        ],
        PrState::Open => Seq::empty(),
    }
}

/// What a `patch` is shown as.
pub open spec fn patch_lines(o: PatchOutcomeView, colors: bool) -> Seq<Seq<char>> {
    let branch = paint::painted(o.branch, paint::strong(), colors);
    let made = "Created branch "@ + branch + " with "@ + text::decimal(o.commits.len())
        + " commit"@ + (if o.commits.len() == 1 {
        ""@
    } else {
        "s"@
    }) + ".\n"@;
    seq![made] + (if o.checked_out {
        seq!["Checked out "@ + branch + ".\n"@]
    } else {
        Seq::empty()
    }) + state_note(o.target_state, colors)
}

/// The command `patch`.
pub open spec fn patch_run(
    t: TapeView,
    se: SessionView,
    number: u64,
    branch: Option<Seq<char>>,
    no_checkout: bool,
) -> (TapeView, Result<(), HaltView>) {
    tape::bind(
        patch::patched(t, se.config, se.trunk_oid, number, branch, no_checkout),
        |t: TapeView, o: PatchOutcomeView|
            session::said_from(t, patch_lines(o, se.terminal.colors), 0),
    )
}

fn amended_texts(changed: &Vec<Amended>) -> (r: Vec<String>)
    ensures
        r.deep_view() == amended_lines(changed.deep_view()),
{
    let mut lines: Vec<String> = nothing();
    let ghost all = amended_lines(changed.deep_view());
    let mut k: usize = 0;
    while k < changed.len()
        invariant
            k <= changed@.len(),
            all == amended_lines(changed.deep_view()),
            lines.deep_view() == all.take(k as int),
        decreases changed@.len() - k,
    {
        let a = &changed[k];
        assert(changed.deep_view()[k as int] == a.deep_view());
        let mut line = "  #".to_owned();
        push_decimal(&mut line, a.number);
        line.append("  ");
        line.append(a.old_subject.as_str());
        line.append(" -> ");
        line.append(a.new_subject.as_str());
        line.append("\n");
        put(&mut lines, line);
        assert(all.take(k as int).push(all[k as int]) =~= all.take(k + 1));
        k = k + 1;
    }
    assert(all.take(k as int) =~= all);
    lines
}

fn put_upgraded(lines: &mut Vec<String>, config: &config::Config, item: &UpgradedLayer, colors: bool)
    ensures
        final(lines).deep_view() == old(lines).deep_view() + upgraded_lines(
            config@,
            item.deep_view(),
            colors,
        ),
{
    let ghost start = lines.deep_view();
    let mut first = "  ".to_owned();
    first.append(paint::paint("upgraded", Paint::bold(Hue::Green), colors).as_str());
    first.append(" ");
    first.append(config.pull_request_url(item.number).as_str());
    first.append("  ");
    first.append(item.branch.as_str());
    first.append("\n");
    put(lines, first);
    if !same(item.old_base.as_str(), item.new_base.as_str()) {
        let mut line = "             retargeted base ".to_owned();
        line.append(item.old_base.as_str());
        line.append(" -> ");
        line.append(item.new_base.as_str());
        line.append("\n");
        put(lines, line);
    }
    match &item.deleted_synthetic_base {
        Some(branch) => {
            let mut line = "             deleted synthetic spr base branch ".to_owned();
            line.append(branch.as_str());
            line.append("\n");
            put(lines, line);
        },
        None => {},
    }
    assert(lines.deep_view() =~= start + upgraded_lines(config@, item.deep_view(), colors));
}

fn upgrade_texts(config: &config::Config, items: &Vec<UpgradedLayer>, colors: bool) -> (r: Vec<String>)
    ensures
        r.deep_view() == upgrade_lines(config@, items.deep_view(), items@.len() as int, colors),
{
    let mut lines: Vec<String> = nothing();
    let mut k: usize = 0;
    while k < items.len()
        invariant
            k <= items@.len(),
            lines.deep_view() == upgrade_lines(config@, items.deep_view(), k as int, colors),
        decreases items@.len() - k,
    {
        assert(items.deep_view()[k as int] == items@[k as int].deep_view());
        put_upgraded(&mut lines, config, &items[k], colors);
        k = k + 1;
    }
    lines
}

fn salvage_texts(stranded: &Vec<u64>) -> (r: Vec<String>)
    ensures
        r.deep_view() == stranded@.map_values(|n: u64| salvage_noted(n)),
{
    let mut out: Vec<String> = nothing();
    let ghost all = stranded@.map_values(|n: u64| salvage_noted(n));
    let mut k: usize = 0;
    while k < stranded.len()
        invariant
            k <= stranded@.len(),
            all == stranded@.map_values(|n: u64| salvage_noted(n)),
            out.deep_view() == all.take(k as int),
        decreases stranded@.len() - k,
    {
        let mut note = "#".to_owned();
        push_decimal(&mut note, stranded[k]);
        note.append(
            " was merged, but your local commit for it still has changes. Drop it by hand once you have salvaged them.",
        );
        put(&mut out, note);
        assert(all.take(k as int).push(all[k as int]) =~= all.take(k + 1));
        k = k + 1;
    }
    assert(all.take(k as int) =~= all);
    out
}

fn repair_texts(repaired: &Vec<Repair>, trunk: &str) -> (r: Vec<String>)
    ensures
        r.deep_view() == repaired.deep_view().map_values(|r: RepairView| repair_line(r, trunk@)),
{
    let mut out: Vec<String> = nothing();
    let ghost all = repaired.deep_view().map_values(|r: RepairView| repair_line(r, trunk@));
    let mut k: usize = 0;
    while k < repaired.len()
        invariant
            k <= repaired@.len(),
            all == repaired.deep_view().map_values(|r: RepairView| repair_line(r, trunk@)),
            out.deep_view() == all.take(k as int),
        decreases repaired@.len() - k,
    {
        let repair = &repaired[k];
        assert(repaired.deep_view()[k as int] == repair.deep_view());
        let mut line = "  repaired #".to_owned();
        push_decimal(&mut line, repair.number);
        if repair.retargeted {
            line.append(" (retargeted → ");
            line.append(trunk);
            line.append(")\n");
        } else {
            line.append("\n");
        }
        put(&mut out, line);
        assert(all.take(k as int).push(all[k as int]) =~= all.take(k + 1));
        k = k + 1;
    }
    assert(all.take(k as int) =~= all);
    out
}

fn patch_texts(o: &patch::PatchOutcome, colors: bool) -> (r: Vec<String>)
    ensures
        r.deep_view() == patch_lines(o.deep_view(), colors),
{
    let branch = paint::paint(o.branch.as_str(), Paint::strong(), colors);
    let mut lines: Vec<String> = nothing();
    let mut made = "Created branch ".to_owned();
    made.append(branch.as_str());
    made.append(" with ");
    push_decimal(&mut made, o.commits.len() as u64);
    made.append(" commit");
    if o.commits.len() == 1 {
        made.append("");
    } else {
        made.append("s");
    }
    made.append(".\n");
    put(&mut lines, made);
    if o.checked_out {
        let mut line = "Checked out ".to_owned();
        line.append(branch.as_str());
        line.append(".\n");
        put(&mut lines, line);
    }
    match o.target_state {
        PrState::Merged => {
            let mut line = paint::paint(
                "Note: pull request is already merged.",
                Paint::hued(Hue::Yellow),
                colors,
            );
            line.append("\n");
            put(&mut lines, line);
        },
        PrState::Closed => {
            let mut line = paint::paint(
                "Note: pull request was closed without merging.",
                Paint::hued(Hue::Yellow),
                colors,
            );
            line.append("\n");
            put(&mut lines, line);
        },
        PrState::Open => {},
    }
    assert(lines.deep_view() =~= patch_lines(o.deep_view(), colors));
    lines
}

impl Session {
    fn restack(&self, t: &mut Tape) -> (r: Result<(), Halt>)
        ensures
            (final(t)@, tape::outcome(r)) == restacked(old(t)@, self@),
    {
        say(t, "Restacking...\n".to_owned())?;
        let mut args = DiffArgs::default();
        args.no_prompt = true;
        assert(args@ == quiet_diff());
        self.diff(t, &args, false)
    }

    /// Brings up to date what hangs on the remaining stack.
    pub fn refresh_remaining_metadata(&self, t: &mut Tape) -> (r: Result<(), Halt>)
        ensures
            (final(t)@, tape::outcome(r)) == metadata_refreshed(old(t)@, self@),
    {
        let found = Stack::discover(t, self.trunk_oid, self.config.trunk.as_str());
        let stack = match tape::tolerate(found)? {
            Some(stack) => stack,
            None => {
                return Ok(());
            },
        };
        assert(stack@.layers.len() == stack.layers@.len());
        if stack.layers.len() == 0 {
            return Ok(());
        }
        self.refresh_metadata_of(t, &stack)
    }

    fn refresh_metadata_of(&self, t: &mut Tape, stack: &Stack) -> (r: Result<(), Halt>)
        requires
            stack::well_formed(stack@),
        ensures
            (final(t)@, tape::outcome(r)) == metadata_of(old(t)@, self@.config, stack@),
    {
        t.unit(Request::SyncStacks { chains: stack.pr_chains() })?;
        if self.config.stack_comments {
            let _ = stack_comment::update_all(t, &self.config, stack)?;
        }
        let settings = t.settings(Request::MergeSettings)?;
        let warn = self.config.preserve_commit_history.resolve(settings)
            && !settings.is_squash_only();
        let prs = gather(t, stack)?;
        update_bodies(t, &prs, warn)
    }

    fn follow_close(&self, t: &mut Tape, moved: bool) -> (r: Result<(), Halt>)
        ensures
            (final(t)@, tape::outcome(r)) == close_followed(old(t)@, self@, moved),
    {
        if moved {
            self.restack(t)
        } else {
            self.refresh_remaining_metadata(t)
        }
    }

    fn close_stray(&self, t: &mut Tape, stack: &Stack, number: u64) -> (r: Result<(), Halt>)
        requires
            stack::well_formed(stack@),
        ensures
            (final(t)@, tape::outcome(r)) == stray_closed(old(t)@, self@, stack@, number),
    {
        let pr = t.pr(Request::GetPullRequest { number })?;
        if pr.state != PrState::Open {
            let mut reason = "#".to_owned();
            push_decimal(&mut reason, number);
            reason.append(" is already closed or merged.");
            return Err(Halt::Refused(reason));
        }
        let prs = gather(t, stack)?;
        let moved = rebase_prs(t, &prs, pr.head.as_str(), pr.base.as_str())?;
        self.drop_stray(t, number, &pr, moved)
    }

    fn drop_stray(&self, t: &mut Tape, number: u64, pr: &PullRequest, moved: bool) -> (r: Result<
        (),
        Halt,
    >)
        ensures
            (final(t)@, tape::outcome(r)) == stray_dropped(
                old(t)@,
                self@,
                number,
                pr.deep_view(),
                moved,
            ),
    {
        let mut update = PullRequestUpdate::default();
        update.state = Some(PrState::Closed);
        t.unit(Request::UpdatePullRequest { number, update })?;
        let forgotten = refs::remove(t, number);
        let _ = tape::tolerate(forgotten)?;
        let mut line = event_text(
            "closed",
            Hue::Red,
            number,
            pr.title.as_str(),
            self.terminal.colors,
        );
        line.append("\n");
        say(t, line)?;
        self.follow_close(t, moved)
    }

    /// Closes a pull request. If its commit was already squashed or dropped
    /// locally, the layers whose base is still its branch are moved below it.
    pub fn close(&self, t: &mut Tape, number: u64) -> (r: Result<(), Halt>)
        ensures
            (final(t)@, tape::outcome(r)) == closed(old(t)@, self@, number),
    {
        let stack = self.discover(t)?;
        let index: usize = match find_layer_with(&stack, number) {
            Some(index) => index,
            None => {
                return self.close_stray(t, &stack, number);
            },
        };
        let outcome = close_layer(t, &self.config, &stack, index)?;
        let mut line = event_text(
            "closed",
            Hue::Red,
            outcome.number,
            outcome.title.as_str(),
            self.terminal.colors,
        );
        line.append("\n");
        say(t, line)?;
        warn_all(t, &outcome.warnings, self.terminal.colors)?;
        self.follow_close(t, outcome.retargeted.len() > 0)
    }

    /// Pulls the titles and descriptions of the pull requests into the messages
    /// of the commits.
    pub fn amend(&self, t: &mut Tape) -> (r: Result<(), Halt>)
        ensures
            (final(t)@, tape::outcome(r)) == amend_run(old(t)@, self@),
    {
        let stack = self.discover(t)?;
        let changed = amend_messages(t, &stack)?;
        assert(changed.deep_view().len() == changed@.len());
        if changed.len() == 0 {
            return say(t, "Your commit messages already match GitHub.\n".to_owned());
        }
        say_all(t, &amended_texts(&changed))
    }

    /// Shows what there is to submit.
    pub fn status(&self, t: &mut Tape) -> (r: Result<(), Halt>)
        ensures
            (final(t)@, tape::outcome(r)) == status_run(old(t)@, self@),
    {
        let stack = self.discover(t)?;
        let shown = status::status(t, &self.config, &stack)?;
        say(t, shown.render(self.terminal))
    }

    /// Turns the pull requests of another tool into native ones.
    pub fn upgrade(&self, t: &mut Tape) -> (r: Result<(), Halt>)
        ensures
            (final(t)@, tape::outcome(r)) == upgrade_run(old(t)@, self@),
    {
        let stack = self.discover(t)?;
        let upgraded = upgrade_stack(t, &self.config, &stack)?;
        assert(upgraded.layers.deep_view().len() == upgraded.layers@.len());
        if upgraded.layers.len() == 0 {
            return say(
                t,
                "All pull requests in this stack already use native nspr stacking.\n".to_owned(),
            );
        }
        say_all(t, &upgrade_texts(&self.config, &upgraded.layers, self.terminal.colors))
    }

    fn tell_sync(&self, t: &mut Tape, report: &sync::SyncReport) -> (r: Result<(), Halt>)
        ensures
            (final(t)@, tape::outcome(r)) == sync_told(old(t)@, self@, report.deep_view()),
    {
        warn_all(t, &report.warnings, self.terminal.colors)?;
        if report.merged.len() > 0 {
            let mut line = "Merged elsewhere: ".to_owned();
            line.append(list_numbers(&report.merged).as_str());
            line.append("\n");
            say(t, line)?;
        }
        warn_all(t, &salvage_texts(&report.stranded), self.terminal.colors)
    }

    fn follow_sync(&self, t: &mut Tape, rebased: bool) -> (r: Result<(), Halt>)
        ensures
            (final(t)@, tape::outcome(r)) == sync_followed(old(t)@, self@, rebased),
    {
        if !rebased {
            let mut line = "Already up to date with ".to_owned();
            line.append(self.config.trunk.as_str());
            line.append(".\n");
            return say(t, line);
        }
        let short = t.text(Request::ShortId { commit: self.trunk_oid })?;
        let mut line = "Rebased onto ".to_owned();
        line.append(short.as_str());
        line.append(".\n");
        say(t, line)?;
        let found = Stack::discover(t, self.trunk_oid, self.config.trunk.as_str());
        match tape::tolerate(found)? {
            Some(stack) => {
                assert(stack@.layers.len() == stack.layers@.len());
                if stack.layers.len() > 0 {
                    self.restack(t)
                } else {
                    Ok(())
                }
            },
            None => Ok(()),
        }
    }

    /// Fetches the trunk and rebases the stack onto it.
    pub fn sync(self, t: &mut Tape) -> (r: Result<(), Halt>)
        ensures
            (final(t)@, tape::outcome(r)) == sync_run(old(t)@, self@),
    {
        let stack = self.discover(t)?;
        let report = sync_trunk(t, &self.config, &stack)?;
        self.tell_sync(t, &report)?;
        let mut moved = self;
        moved.trunk_oid = report.trunk;
        moved.follow_sync(t, report.rebased)
    }

    fn tell_landing(&self, t: &mut Tape, o: &LandOutcome) -> (r: Result<(), Halt>)
        ensures
            (final(t)@, tape::outcome(r)) == landing_told(old(t)@, self@, o.deep_view()),
    {
        let colors = self.terminal.colors;
        let short = t.text(Request::ShortId { commit: o.squash })?;
        let mut line = event_text("landed", Hue::Green, o.number, o.title.as_str(), colors);
        line.append(" as ");
        line.append(short.as_str());
        line.append("\n");
        say(t, line)?;
        say_all(t, &repair_texts(&o.repaired, self.config.trunk.as_str()))?;
        warn_all(t, &o.warnings, colors)
    }

    fn tell_landings(&self, t: &mut Tape, outcomes: &Vec<LandOutcome>) -> (r: Result<(), Halt>)
        ensures
            (final(t)@, tape::outcome(r)) == landings_told(
                old(t)@,
                self@,
                outcomes.deep_view(),
                0,
            ),
    {
        let mut k: usize = 0;
        while k < outcomes.len()
            invariant
                k <= outcomes@.len(),
                landings_told(t@, self@, outcomes.deep_view(), k as int) == landings_told(
                    old(t)@,
                    self@,
                    outcomes.deep_view(),
                    0,
                ),
            decreases outcomes@.len() - k,
        {
            assert(outcomes.deep_view()[k as int] == outcomes@[k as int].deep_view());
            self.tell_landing(t, &outcomes[k])?;
            k = k + 1;
        }
        Ok(())
    }

    fn land_asked(&self, t: &mut Tape, stack: &Stack, args: &LandArgs) -> (r: Result<
        Vec<LandOutcome>,
        Halt,
    >)
        requires
            stack::well_formed(stack@),
        ensures
            (final(t)@, tape::outcome(r)) == landed(old(t)@, self@.config, stack@, args@),
            r matches Ok(outcomes) ==> outcomes@.len() > 0,
    {
        let opts = LandOptions { message: args.message.duplicate(), keep_local: false };
        if args.all && args.target_pr().is_none() && !args.cherry_pick {
            return land_all(t, &self.config, stack, &opts);
        }
        let index: usize = match resolve_land_target(stack, args, self.config.trunk.as_str()) {
            Ok(index) => index,
            Err(reason) => {
                return Err(Halt::Refused(reason));
            },
        };
        let outcome = land_layer(t, &self.config, stack, index, &opts)?;
        let mut outcomes: Vec<LandOutcome> = nothing();
        put(&mut outcomes, outcome);
        assert(outcomes.deep_view() =~= seq![outcome.deep_view()]);
        Ok(outcomes)
    }

    /// Squash-merges pull requests and repairs what depends on them.
    pub fn land(self, t: &mut Tape, args: &LandArgs) -> (r: Result<(), Halt>)
        ensures
            (final(t)@, tape::outcome(r)) == land_run(old(t)@, self@, args@),
    {
        let stack = self.discover(t)?;
        let outcomes = self.land_asked(t, &stack, args)?;
        self.tell_landings(t, &outcomes)?;
        let colors = self.terminal.colors;
        let last: usize = outcomes.len() - 1;
        assert(outcomes.deep_view().last() == outcomes@[last as int].deep_view());
        let mut moved = self;
        moved.trunk_oid = outcomes[last].squash;
        moved.refresh_remaining_metadata(t)?;
        let mut line = paint::paint("✓ Done", Paint::bold(Hue::Green), colors);
        line.append(" (");
        push_decimal(&mut line, outcomes.len() as u64);
        line.append(" landed)\n");
        say(t, line)
    }

    /// Shows the open pull requests as stacks.
    pub fn list(&self, t: &mut Tape, all: bool) -> (r: Result<(), Halt>)
        ensures
            (final(t)@, tape::outcome(r)) == list_run(old(t)@, self@, all),
    {
        let author = if all {
            None
        } else {
            Some(self.config.login.clone())
        };
        let prs = t.listed(Request::ListPullRequests { author })?;
        let stacks = build_stacks(prs, self.config.trunk.as_str());
        say(t, draw_stacks(&stacks, self.terminal.colors))
    }

    /// Brings a pull request and what it depends on into the local repository.
    pub fn patch(&self, t: &mut Tape, number: u64, branch: Option<&str>, no_checkout: bool) -> (r:
        Result<(), Halt>)
        ensures
            (final(t)@, tape::outcome(r)) == patch_run(
                old(t)@,
                self@,
                number,
                text::view_of(branch),
                no_checkout,
            ),
    {
        let outcome = patch_layer(t, &self.config, self.trunk_oid, number, branch, no_checkout)?;
        say_all(t, &patch_texts(&outcome, self.terminal.colors))
    }
}

pub broadcast proof fn lemma_status_run_only(
    from: TapeView,
    t: TapeView,
    se: SessionView,
    allowed: spec_fn(RequestView) -> bool,
)
    requires
        #[trigger] tape::only(from, t, allowed),
        tape::may_look(allowed),
    ensures
        tape::only(from, (#[trigger] status_run(t, se)).0, allowed),
{
    broadcast use {tape::lemma_only_ask, session::lemma_stack_found_only, status::lemma_stack_status_only, session::lemma_said_only};

}

pub broadcast proof fn lemma_list_run_only(
    from: TapeView,
    t: TapeView,
    se: SessionView,
    all: bool,
    allowed: spec_fn(RequestView) -> bool,
)
    requires
        #[trigger] tape::only(from, t, allowed),
        tape::may_look(allowed),
    ensures
        tape::only(from, (#[trigger] list_run(t, se, all)).0, allowed),
{
    broadcast use {tape::lemma_only_ask, session::lemma_said_only};

}

/// `nspr status` and `nspr list` change nothing, neither on the forge nor in the
/// local repository.
pub proof fn law_showing_changes_nothing(t: TapeView, se: SessionView, all: bool)
    ensures
        tape::only(
            t,
            status_run(t, se).0,
            |q: RequestView| !tape::touches_forge(q) && !tape::touches_local(q),
        ),
        tape::only(
            t,
            list_run(t, se, all).0,
            |q: RequestView| !tape::touches_forge(q) && !tape::touches_local(q),
        ),
{
    let look = |q: RequestView| !tape::touches_forge(q) && !tape::touches_local(q);
    tape::lemma_only_start(t, look);
    assert(tape::may_look(look));
    lemma_status_run_only(t, t, se, look);
    lemma_list_run_only(t, t, se, all, look);
}

} // verus!
