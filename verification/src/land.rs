//! Landing a layer: squash-merge it, then repair everything that depended on
//! it.
//!
//! A squash merge produces a **brand new commit** on the trunk. Its id appears
//! nowhere in a dependent branch's ancestry, so the moment the trunk moves, the
//! merge base of a dependent pull request collapses back to the old trunk, and
//! the forge starts displaying the landed layer's changes as part of the
//! dependent's diff.
//!
//! * **The head branch is deleted last.** Deleting it otherwise than through
//!   the forge's own pages can close the dependents outright. So their bases
//!   are changed first.
//! * **The squash title and message are passed explicitly.** A head branch's
//!   history is full of revision commits, and a repository may be set up to
//!   paste all of it onto the trunk.
//!
//! Repairing a dependent means rewriting its branch. That is safe because it is
//! **diff-neutral**: the tree at the new tip equals the tree at the old tip, and
//! the new base has the same tree the old base did. [`land_layer`] reports a
//! warning if this does not hold, which it legitimately may not, if somebody
//! else landed something in the meantime.

use vstd::prelude::*;

use crate::config::{Config, ConfigView};
use crate::data::{nothing, put, replace, Duplicate};
use crate::execution;
use crate::forge;
use crate::forge::{
    PrState, PrView, PullRequest, PullRequestUpdate, PushSpec, PushView, SquashMerge, SquashView,
};
use crate::guardrails;
use crate::guardrails::{auto_merge_warning, note};
use crate::history;
use crate::history::{
    branch_revisions, collapse, rebase_commits, replay,
};
use crate::oid::Oid;
use crate::refs;
use crate::review_diff;
use crate::review_diff::displayed_patch_id;
use crate::rest;
use crate::stack;
use crate::stack::{Dep, Layer, Stack, StackView};
use crate::tape;
use crate::tape::{
    Halt, HaltView, Merge, MergeView, Reply, ReplyView, Request, RequestView, Tape, TapeView,
};
use crate::text;
use crate::text::{push_decimal, same, trim_text};
use crate::trailers;
use crate::trailers::{MessageView, DEPENDS_ON, PULL_REQUEST};
use crate::upgrade;
use crate::upgrade::{layer_label_text, reject_if_legacy_spr};

verus! {

#[derive(Debug, Clone)]
pub struct LandOptions {
    /// Overrides the squash commit's body.
    pub message: Option<String>,
    /// Leaves the local commits alone instead of rebasing them onto the squash
    /// commit. Only useful for inspection; the next `nspr diff` would try to
    /// re-create the landed pull request.
    pub keep_local: bool,
}

#[verifier::ext_equal]
pub struct LandOptionsView {
    pub message: Option<Seq<char>>,
    pub keep_local: bool,
}

impl View for LandOptions {
    type V = LandOptionsView;

    open spec fn view(&self) -> LandOptionsView {
        LandOptionsView { message: self.message.deep_view(), keep_local: self.keep_local }
    }
}

impl Default for LandOptions {
    fn default() -> (r: Self)
        ensures
            r@ == (LandOptionsView { message: None, keep_local: false }),
    {
        LandOptions { message: None, keep_local: false }
    }
}

/// What happened to one dependent layer.
#[derive(Debug, Clone)]
pub struct Repair {
    pub number: u64,
    pub branch: String,
    pub old_tip: Oid,
    pub new_tip: Oid,
    /// Number of revisions replayed onto the squash commit.
    pub revisions: usize,
    /// True if the replay conflicted and the branch was collapsed to a single
    /// commit instead.
    pub collapsed: bool,
    /// True if this was a *direct* dependent, and so was retargeted at the
    /// trunk.
    pub retargeted: bool,
}

#[verifier::ext_equal]
pub struct RepairView {
    pub number: u64,
    pub branch: Seq<char>,
    pub old_tip: Oid,
    pub new_tip: Oid,
    pub revisions: usize,
    pub collapsed: bool,
    pub retargeted: bool,
}

impl DeepView for Repair {
    type V = RepairView;

    open spec fn deep_view(&self) -> RepairView {
        RepairView {
            number: self.number,
            branch: self.branch@,
            old_tip: self.old_tip,
            new_tip: self.new_tip,
            revisions: self.revisions,
            collapsed: self.collapsed,
            retargeted: self.retargeted,
        }
    }
}

impl Duplicate for Repair {
    fn duplicate(&self) -> (r: Self) {
        Repair {
            number: self.number,
            branch: self.branch.clone(),
            old_tip: self.old_tip,
            new_tip: self.new_tip,
            revisions: self.revisions,
            collapsed: self.collapsed,
            retargeted: self.retargeted,
        }
    }
}

#[derive(Debug, Clone)]
pub struct LandOutcome {
    pub number: u64,
    pub title: String,
    /// The squash commit now on the trunk.
    pub squash: Oid,
    pub repaired: Vec<Repair>,
    pub warnings: Vec<String>,
}

#[verifier::ext_equal]
pub struct LandOutcomeView {
    pub number: u64,
    pub title: Seq<char>,
    pub squash: Oid,
    pub repaired: Seq<RepairView>,
    pub warnings: Seq<Seq<char>>,
}

impl DeepView for LandOutcome {
    type V = LandOutcomeView;

    open spec fn deep_view(&self) -> LandOutcomeView {
        LandOutcomeView {
            number: self.number,
            title: self.title@,
            squash: self.squash,
            repaired: self.repaired.deep_view(),
            warnings: self.warnings.deep_view(),
        }
    }
}

impl Duplicate for LandOutcome {
    fn duplicate(&self) -> (r: Self) {
        LandOutcome {
            number: self.number,
            title: self.title.clone(),
            squash: self.squash,
            repaired: self.repaired.duplicate(),
            warnings: self.warnings.duplicate(),
        }
    }
}

/// A commit conflicts with the trunk.
pub const NO_LONGER_APPLIES: &'static str =
    "this commit no longer applies on top of the trunk. Run `nspr sync` to rebase, then try again.";

/// A pull request holds something else than the local commit.
pub const NOT_REVIEWED: &'static str =
    "the local commit has changed since the pull request was last pushed, so landing it would merge something nobody reviewed. Run `nspr diff` first.";

/// How long to wait before each attempt to see a pull request catch up, in
/// milliseconds.
pub open spec fn delay(k: int) -> u64 {
    if k == 0 {
        50
    } else if k == 1 {
        150
    } else if k == 2 {
        300
    } else if k == 3 {
        600
    } else if k == 4 {
        1000
    } else if k == 5 {
        1500
    } else {
        2000
    }
}

fn delay_of(k: u64) -> (r: u64)
    ensures
        r == delay(k as int),
{
    if k == 0 {
        50
    } else if k == 1 {
        150
    } else if k == 2 {
        300
    } else if k == 3 {
        600
    } else if k == 4 {
        1000
    } else if k == 5 {
        1500
    } else {
        2000
    }
}

/// How many times a pull request is asked for again.
pub const ATTEMPTS: u64 = 8;

/// The pull request once its head is the recorded one or it is no longer open,
/// or after the last attempt.
pub open spec fn caught_up(t: TapeView, number: u64, recorded: Oid, pr: PrView, k: int) -> (
    TapeView,
    Result<PrView, HaltView>,
)
    decreases ATTEMPTS - k,
{
    if k >= ATTEMPTS {
        tape::done(t, pr)
    } else {
        tape::bind(
            tape::ask_unit(t, RequestView::Sleep { millis: delay(k) }),
            |t: TapeView, u: ()|
                tape::bind(
                    tape::ask_pr(t, RequestView::GetPullRequest { number }),
                    |t: TapeView, pr: PrView|
                        if pr.head_oid == recorded || pr.state != PrState::Open {
                            tape::done(t, pr)
                        } else {
                            caught_up(t, number, recorded, pr, k + 1)
                        },
                ),
        )
    }
}

fn wait_for(t: &mut Tape, number: u64, recorded: Oid, pr: PullRequest) -> (r: Result<
    PullRequest,
    Halt,
>)
    ensures
        (final(t)@, tape::outcome(r)) == caught_up(old(t)@, number, recorded, pr@, 0),
{
    let ghost start = pr@;
    let mut current = pr;
    let mut k: u64 = 0;
    while k < ATTEMPTS
        invariant
            k <= ATTEMPTS,
            start == pr@,
            caught_up(t@, number, recorded, current@, k as int) == caught_up(
                old(t)@,
                number,
                recorded,
                start,
                0,
            ),
        decreases ATTEMPTS - k,
    {
        t.unit(Request::Sleep { millis: delay_of(k) })?;
        current = t.pr(Request::GetPullRequest { number })?;
        if current.head_oid == recorded || current.state != PrState::Open {
            return Ok(current);
        }
        k = k + 1;
    }
    Ok(current)
}

/// A pull request whose head commit is at hand.
pub open spec fn with_head(t: TapeView, pr: PrView) -> (TapeView, Result<PrView, HaltView>) {
    tape::bind(
        tape::ask_unit(t, RequestView::FetchCommit { commit: pr.head_oid }),
        |t: TapeView, u: ()| tape::done(t, pr),
    )
}

/// A pull request as the forge shows it, but with the head that was pushed last
/// where the remote branch already stands there.
pub open spec fn synced_pr(t: TapeView, number: u64, wait: bool) -> (
    TapeView,
    Result<PrView, HaltView>,
) {
    tape::bind(
        tape::ask_pr(t, RequestView::GetPullRequest { number }),
        |t: TapeView, pr: PrView|
            if pr.state != PrState::Open {
                tape::done(t, pr)
            } else {
                tape::bind(
                    tape::ask_maybe_object(
                        t,
                        RequestView::ReferenceTarget { name: refs::head_ref(number) },
                    ),
                    |t: TapeView, recorded: Option<Oid>|
                        if recorded is None || pr.head_oid == recorded->0 {
                            with_head(t, pr)
                        } else {
                            tape::bind(
                                tape::ask_maybe_object(t, RequestView::BranchOid { branch: pr.head }),
                                |t: TapeView, tip: Option<Oid>|
                                    if tip != recorded {
                                        with_head(t, pr)
                                    } else {
                                        tape::bind(
                                            if wait {
                                                caught_up(t, number, recorded->0, pr, 0)
                                            } else {
                                                tape::done(t, pr)
                                            },
                                            |t: TapeView, pr: PrView|
                                                with_head(
                                                    t,
                                                    PrView { head_oid: recorded->0, ..pr },
                                                ),
                                        )
                                    },
                            )
                        },
                )
            },
    )
}

/// Reads a pull request from the forge, waiting briefly if its head is lagging
/// behind a branch tip that was just pushed.
///
/// The forge updates the head of a pull request asynchronously after a push.
/// When layers land one after the other, the next one is queried milliseconds
/// after its branch was pushed: the branch already points at the recorded
/// commit, while the pull request can still show the one before.
pub fn get_synced_pull_request(t: &mut Tape, number: u64, wait_for_pr_sync: bool) -> (r: Result<
    PullRequest,
    Halt,
>)
    ensures
        (final(t)@, tape::outcome(r)) == synced_pr(old(t)@, number, wait_for_pr_sync),
{
    let mut pr = t.pr(Request::GetPullRequest { number })?;
    if pr.state != PrState::Open {
        return Ok(pr);
    }
    match refs::get(t, number)? {
        None => {},
        Some(recorded) => {
            if pr.head_oid != recorded {
                let tip = t.maybe_object(Request::BranchOid { branch: pr.head.clone() })?;
                let pushed = match tip {
                    Some(tip) => tip == recorded,
                    None => false,
                };
                if pushed {
                    if wait_for_pr_sync {
                        pr = wait_for(t, number, recorded, pr)?;
                    }
                    pr.head_oid = recorded;
                }
            }
        },
    }
    t.unit(Request::FetchCommit { commit: pr.head_oid })?;
    Ok(pr)
}

/// What keeps a pull request from being landed.
pub open spec fn not_landable(number: u64, state: PrState, draft: bool) -> Option<Seq<char>> {
    match state {
        PrState::Merged => Some(
            "#"@ + text::decimal(number as nat)
                + " has already been merged. Run `nspr sync` to bring the local stack up to date."@,
        ),
        PrState::Closed => Some("#"@ + text::decimal(number as nat) + " is closed."@),
        PrState::Open => if draft {
            Some(
                "#"@ + text::decimal(number as nat)
                    + " is still a draft; mark it ready for review first."@,
            )
        } else {
            None
        },
    }
}

fn why_not_landable(number: u64, state: PrState, draft: bool) -> (r: Option<String>)
    ensures
        r.deep_view() == not_landable(number, state, draft),
{
    let mut reason = "#".to_owned();
    push_decimal(&mut reason, number);
    match state {
        PrState::Merged => {
            reason.append(
                " has already been merged. Run `nspr sync` to bring the local stack up to date.",
            );
            Some(reason)
        },
        PrState::Closed => {
            reason.append(" is closed.");
            Some(reason)
        },
        PrState::Open => if draft {
            reason.append(" is still a draft; mark it ready for review first.");
            Some(reason)
        } else {
            None
        },
    }
}

/// The refusal of a layer without a pull request.
pub open spec fn no_pr_yet(subject: Seq<char>) -> Seq<char> {
    "`"@ + subject + "` has no pull request yet; run `nspr diff` first"@
}

fn no_pr_yet_text(layer: &Layer) -> (r: String)
    ensures
        r@ == no_pr_yet(layer.deep_view().message.subject),
{
    let mut reason = "`".to_owned();
    reason.append(layer.subject());
    reason.append("` has no pull request yet; run `nspr diff` first");
    reason
}

/// The pull request of the lowest layer on the trunk, from layer `i` on.
pub open spec fn root_pr(s: StackView, i: int) -> Option<u64>
    decreases s.layers.len() - i,
{
    if i < 0 || i >= s.layers.len() {
        None
    } else if s.layers[i].dep == Dep::Main {
        s.layers[i].pr
    } else {
        root_pr(s, i + 1)
    }
}

pub fn find_root_pr(stack: &Stack) -> (r: Option<u64>)
    ensures
        r == root_pr(stack@, 0),
{
    let mut i: usize = 0;
    while i < stack.layers.len()
        invariant
            i <= stack.layers@.len(),
            root_pr(stack@, i as int) == root_pr(stack@, 0),
        decreases stack.layers@.len() - i,
    {
        assert(stack@.layers[i as int] == stack.layers@[i as int].deep_view());
        if stack.layers[i].dep == Dep::Main {
            return stack.layers[i].pr;
        }
        i = i + 1;
    }
    None
}

/// Where to start instead, if there is anything to name.
pub open spec fn root_hint(s: StackView) -> Seq<char> {
    match root_pr(s, 0) {
        Some(n) => " (e.g. `nspr land --pr="@ + text::decimal(n as nat)
            + "` or `nspr land --bottom`)"@,
        None => Seq::empty(),
    }
}

/// The refusal of a layer that sits on another one.
pub open spec fn stacked_refusal(c: ConfigView, s: StackView, index: int, parent: int) -> Seq<char> {
    "`"@ + s.layers[index].message.subject + "` is stacked on "@ + upgrade::layer_label(s, parent)
        + ", so it cannot land yet.\nStacked pull requests must be merged from the bottom up into `"@
        + c.trunk
        + "` so each PR merges only its own changes.\n\u{2022} Land the bottom of the stack first"@
        + root_hint(s)
        + ", or run `nspr land --all` to land all ready layers in order.\n\u{2022} If this commit is actually independent of "@
        + upgrade::layer_label(s, parent) + ", add `"@ + DEPENDS_ON@ + ": "@ + c.trunk
        + "` to its commit message."@
}

fn stacked_refusal_text(config: &Config, stack: &Stack, index: usize, parent: usize) -> (r: String)
    requires
        index < stack@.layers.len(),
        parent < stack@.layers.len(),
    ensures
        r@ == stacked_refusal(config@, stack@, index as int, parent as int),
{
    assert(stack@.layers[index as int] == stack.layers@[index as int].deep_view());
    assert(stack@.layers[parent as int] == stack.layers@[parent as int].deep_view());
    let below = layer_label_text(stack, parent);
    let hint = match find_root_pr(stack) {
        Some(n) => {
            let mut hint = " (e.g. `nspr land --pr=".to_owned();
            push_decimal(&mut hint, n);
            hint.append("` or `nspr land --bottom`)");
            hint
        },
        None => String::new(),
    };
    let mut reason = "`".to_owned();
    reason.append(stack.layers[index].subject());
    reason.append("` is stacked on ");
    reason.append(below.as_str());
    reason.append(
        ", so it cannot land yet.\nStacked pull requests must be merged from the bottom up into `",
    );
    reason.append(config.trunk.as_str());
    reason.append(
        "` so each PR merges only its own changes.\n\u{2022} Land the bottom of the stack first",
    );
    assert(hint@ =~= root_hint(stack@));
    reason.append(hint.as_str());
    reason.append(
        ", or run `nspr land --all` to land all ready layers in order.\n\u{2022} If this commit is actually independent of ",
    );
    reason.append(below.as_str());
    reason.append(", add `");
    reason.append(DEPENDS_ON);
    reason.append(": ");
    reason.append(config.trunk.as_str());
    reason.append("` to its commit message.");
    reason
}

/// The tip of the trunk, at hand.
pub open spec fn trunk_tip(t: TapeView, c: ConfigView) -> (TapeView, Result<Oid, HaltView>) {
    tape::bind(
        tape::ask_maybe_object(t, RequestView::BranchOid { branch: c.trunk }),
        |t: TapeView, tip: Option<Oid>|
            match tip {
                None => tape::refuse(t, "no `"@ + c.trunk + "` branch on the remote"@),
                Some(tip) => tape::bind(
                    tape::ask_unit(t, RequestView::FetchCommit { commit: tip }),
                    |t: TapeView, u: ()| tape::done(t, tip),
                ),
            },
    )
}

/// Fetches the tip of the trunk.
pub fn fetch_trunk(t: &mut Tape, config: &Config) -> (r: Result<Oid, Halt>)
    ensures
        (final(t)@, tape::outcome(r)) == trunk_tip(old(t)@, config@),
{
    match t.maybe_object(Request::BranchOid { branch: config.trunk.clone() })? {
        None => {
            let mut reason = "no `".to_owned();
            reason.append(config.trunk.as_str());
            reason.append("` branch on the remote");
            Err(Halt::Refused(reason))
        },
        Some(tip) => {
            t.unit(Request::FetchCommit { commit: tip })?;
            Ok(tip)
        },
    }
}

/// Merging the pull request comes to the same tree as the local commit applied
/// to the trunk.
pub open spec fn reviewed(t: TapeView, commit: Oid, trunk: Oid, head: Oid) -> (
    TapeView,
    Result<(), HaltView>,
) {
    tape::bind(
        tape::ask_merge(t, RequestView::CherryPick { commit, onto: trunk, first_parent: false }),
        |t: TapeView, picked: MergeView|
            match picked {
                MergeView::Conflicts(_) => tape::refuse(t, NO_LONGER_APPLIES@),
                MergeView::Clean(tree) => tape::bind(
                    tape::ask_merge(t, RequestView::MergeCommits { ours: trunk, theirs: head }),
                    |t: TapeView, merged: MergeView|
                        if merged == MergeView::Clean(tree) {
                            tape::done(t, ())
                        } else {
                            tape::refuse(t, NOT_REVIEWED@)
                        },
                ),
            },
    )
}

/// Whether a merge came to a tree.
fn comes_to(merge: &Merge, tree: Oid) -> (r: bool)
    ensures
        r == (merge.deep_view() == MergeView::Clean(tree)),
{
    match merge {
        Merge::Clean(merged) => *merged == tree,
        Merge::Conflicts(_) => false,
    }
}

/// Refuses to land something the readers have not seen.
///
/// Cherry-picking the local commit onto the trunk and merging the pull request
/// into the trunk must produce the same tree; if they differ, the local commit
/// has moved on since the last push.
pub fn check_merge_equals_cherrypick(
    t: &mut Tape,
    local_commit: Oid,
    trunk_tip: Oid,
    head_oid: Oid,
) -> (r: Result<(), Halt>)
    ensures
        (final(t)@, tape::outcome(r)) == reviewed(old(t)@, local_commit, trunk_tip, head_oid),
{
    match t.merge(
        Request::CherryPick { commit: local_commit, onto: trunk_tip, first_parent: false },
    )? {
        Merge::Conflicts(_) => Err(Halt::Refused(NO_LONGER_APPLIES.to_owned())),
        Merge::Clean(tree) => {
            let merged = t.merge(Request::MergeCommits { ours: trunk_tip, theirs: head_oid })?;
            if comes_to(&merged, tree) {
                Ok(())
            } else {
                Err(Halt::Refused(NOT_REVIEWED.to_owned()))
            }
        },
    }
}

/// The title of the squash commit.
pub open spec fn squash_title(subject: Seq<char>, number: u64) -> Seq<char> {
    subject + " (#"@ + text::decimal(number as nat) + ")"@
}

/// The body of the squash commit, unless the user gives another one.
pub open spec fn squash_body(m: MessageView, message: Option<Seq<char>>) -> Seq<char> {
    match message {
        Some(message) => message,
        None => text::trim(
            trailers::rendered(
                MessageView {
                    subject: Seq::empty(),
                    ..trailers::without_trailer(m, DEPENDS_ON@)
                },
            ),
        ),
    }
}

/// Title and body for the squash commit.
///
/// `Depends-On:` is dropped: it describes a review-time relationship that is
/// meaningless once the commit is on the trunk. `Pull-Request:` and any foreign
/// trailers are kept.
pub fn squash_message(layer: &Layer, number: u64, opts: &LandOptions) -> (r: (String, String))
    ensures
        r.0@ == squash_title(layer.deep_view().message.subject, number),
        r.1@ == squash_body(layer.deep_view().message, opts@.message),
{
    let mut title = layer.subject().to_owned();
    title.append(" (#");
    push_decimal(&mut title, number);
    title.append(")");
    match &opts.message {
        Some(message) => (title, message.clone()),
        None => {
            let mut message = layer.message.duplicate();
            let _ = message.remove(DEPENDS_ON);
            message.subject = String::new();
            assert(message@.subject =~= Seq::<char>::empty());
            assert(message@ == (MessageView {
                subject: Seq::empty(),
                ..trailers::without_trailer(layer.deep_view().message, DEPENDS_ON@)
            }));
            (title, trim_text(message.render().as_str()))
        },
    }
}

/// The remote state of a dependent, read before anything is changed.
pub struct Dependent {
    pub layer: usize,
    pub number: u64,
    pub branch: String,
    pub base: String,
    pub tip: Oid,
}

#[verifier::ext_equal]
pub struct DependentView {
    pub layer: usize,
    pub number: u64,
    pub branch: Seq<char>,
    pub base: Seq<char>,
    pub tip: Oid,
}

impl DeepView for Dependent {
    type V = DependentView;

    open spec fn deep_view(&self) -> DependentView {
        DependentView {
            layer: self.layer,
            number: self.number,
            branch: self.branch@,
            base: self.base@,
            tip: self.tip,
        }
    }
}

/// The dependents of a layer, and what there is to say about them.
pub struct Snapshot {
    pub dependents: Vec<Dependent>,
    pub warnings: Vec<String>,
}

#[verifier::ext_equal]
pub struct SnapshotView {
    pub dependents: Seq<DependentView>,
    pub warnings: Seq<Seq<char>>,
}

impl DeepView for Snapshot {
    type V = SnapshotView;

    open spec fn deep_view(&self) -> SnapshotView {
        SnapshotView {
            dependents: self.dependents.deep_view(),
            warnings: self.warnings.deep_view(),
        }
    }
}

/// The refusal of a dependent without a pull request.
pub open spec fn dependent_without_pr(subject: Seq<char>) -> Seq<char> {
    "`"@ + subject
        + "` depends on this layer but has no pull request yet; run `nspr diff` first so it can be retargeted"@
}

/// The warning about a pull request that is not touched.
pub open spec fn left_alone(number: u64) -> Seq<char> {
    "#"@ + text::decimal(number as nat) + " is not open; leaving it alone."@
}

fn left_alone_text(number: u64) -> (r: String)
    ensures
        r@ == left_alone(number),
{
    let mut warning = "#".to_owned();
    push_decimal(&mut warning, number);
    warning.append(" is not open; leaving it alone.");
    warning
}

/// The snapshot with one more dependent.
pub open spec fn with_dependent(
    c: ConfigView,
    layer: usize,
    number: u64,
    pr: PrView,
    snap: SnapshotView,
) -> SnapshotView {
    if pr.state != PrState::Open {
        SnapshotView { warnings: snap.warnings.push(left_alone(number)), ..snap }
    } else {
        SnapshotView {
            dependents: snap.dependents.push(
                DependentView {
                    layer,
                    number,
                    branch: pr.head,
                    base: pr.base,
                    tip: pr.head_oid,
                },
            ),
            warnings: guardrails::with_note(
                snap.warnings,
                guardrails::auto_merge_noted(pr, c.trunk),
            ),
        }
    }
}

/// The remote state of the given layers from the `k`th on.
pub open spec fn snapshot_from(
    t: TapeView,
    c: ConfigView,
    s: StackView,
    layers: Seq<usize>,
    k: int,
    snap: SnapshotView,
) -> (TapeView, Result<SnapshotView, HaltView>)
    decreases layers.len() - k,
{
    if k < 0 || k >= layers.len() {
        tape::done(t, snap)
    } else {
        let layer = s.layers[layers[k] as int];
        match layer.pr {
            None => tape::refuse(t, dependent_without_pr(layer.message.subject)),
            Some(number) => tape::bind(
                synced_pr(t, number, false),
                |t: TapeView, pr: PrView|
                    snapshot_from(
                        t,
                        c,
                        s,
                        layers,
                        k + 1,
                        with_dependent(c, layers[k], number, pr, snap),
                    ),
            ),
        }
    }
}

/// Nothing is read yet.
pub open spec fn empty_snapshot() -> SnapshotView {
    SnapshotView { dependents: Seq::empty(), warnings: Seq::empty() }
}

/// Every dependent is a layer of the stack.
pub open spec fn in_range(dependents: Seq<DependentView>, n: int) -> bool {
    forall|k: int| 0 <= k < dependents.len() ==> (#[trigger] dependents[k]).layer < n
}

/// Captures every transitive dependent's remote state before anything is
/// changed.
pub fn snapshot_dependents(t: &mut Tape, config: &Config, stack: &Stack, index: usize) -> (r: Result<
    Snapshot,
    Halt,
>)
    requires
        index < stack@.layers.len(),
    ensures
        (final(t)@, tape::outcome(r)) == snapshot_from(
            old(t)@,
            config@,
            stack@,
            stack::dependents(stack@, index as int),
            0,
            empty_snapshot(),
        ),
        r matches Ok(snap) ==> in_range(snap.deep_view().dependents, stack@.layers.len() as int),
{
    let layers = stack.dependents_of(index);
    let mut snap = Snapshot { dependents: nothing(), warnings: nothing() };
    let mut k: usize = 0;
    while k < layers.len()
        invariant
            k <= layers@.len(),
            layers@ == stack::dependents(stack@, index as int),
            forall|m: int| 0 <= m < layers@.len() ==> (#[trigger] layers@[m]) < stack@.layers.len(),
            in_range(snap.deep_view().dependents, stack@.layers.len() as int),
            snapshot_from(t@, config@, stack@, layers@, k as int, snap.deep_view())
                == snapshot_from(old(t)@, config@, stack@, layers@, 0, empty_snapshot()),
        decreases layers@.len() - k,
    {
        let i: usize = layers[k];
        let layer = &stack.layers[i];
        assert(stack@.layers[i as int] == layer.deep_view());
        match layer.pr {
            None => {
                let mut reason = "`".to_owned();
                reason.append(layer.subject());
                reason.append(
                    "` depends on this layer but has no pull request yet; run `nspr diff` first so it can be retargeted",
                );
                return Err(Halt::Refused(reason));
            },
            Some(number) => {
                let pr = get_synced_pull_request(t, number, false)?;
                if pr.state != PrState::Open {
                    put(&mut snap.warnings, left_alone_text(number));
                } else {
                    note(&mut snap.warnings, auto_merge_warning(&pr, config.trunk.as_str()));
                    put(
                        &mut snap.dependents,
                        Dependent {
                            layer: i,
                            number,
                            branch: pr.head,
                            base: pr.base,
                            tip: pr.head_oid,
                        },
                    );
                }
            },
        }
        k = k + 1;
    }
    Ok(snap)
}

/// A branch on its new base.
#[derive(Debug, Clone, Copy, PartialEq, Eq, Structural)]
pub struct Carried {
    pub new_tip: Oid,
    /// How many revisions the branch had.
    pub revisions: usize,
    pub collapsed: bool,
    /// The readers see another patch than before.
    pub changed: bool,
    /// The first of the branch's own commits.
    pub root: Option<Oid>,
}

impl DeepView for Carried {
    type V = Carried;

    open spec fn deep_view(&self) -> Carried {
        *self
    }
}

/// The new tip of a branch whose revisions are known, and whether it holds them
/// as one commit.
pub open spec fn moved_tip(
    t: TapeView,
    number: u64,
    message: Seq<char>,
    tip: Oid,
    old_root: Oid,
    new_root: Oid,
    revisions: Seq<Oid>,
) -> (TapeView, Result<(Oid, bool), HaltView>) {
    tape::bind(
        history::replayed(t, revisions, new_root, message),
        |t: TapeView, replayed: Option<Oid>|
            match replayed {
                Some(tip) => tape::done(t, (tip, false)),
                None => tape::bind(
                    history::collapsed(t, number, tip, old_root, new_root, message),
                    |t: TapeView, tip: Oid| tape::done(t, (tip, true)),
                ),
            },
    )
}

/// A branch moved from `old_root` to `new_root`.
pub open spec fn carried(
    t: TapeView,
    number: u64,
    message: Seq<char>,
    tip: Oid,
    old_root: Oid,
    new_root: Oid,
) -> (TapeView, Result<Carried, HaltView>) {
    tape::bind(
        history::revisions(t, tip, old_root),
        |t: TapeView, revisions: Seq<Oid>|
            tape::bind(
                moved_tip(t, number, message, tip, old_root, new_root, revisions),
                |t: TapeView, moved: (Oid, bool)|
                    tape::bind(
                        review_diff::patch_hash(t, old_root, tip),
                        |t: TapeView, before: Oid|
                            tape::bind(
                                review_diff::patch_hash(t, new_root, moved.0),
                                |t: TapeView, after: Oid|
                                    tape::bind(
                                        history::revisions(t, moved.0, new_root),
                                        |t: TapeView, own: Seq<Oid>|
                                            tape::done(
                                                t,
                                                Carried {
                                                    new_tip: moved.0,
                                                    revisions: revisions.len() as usize,
                                                    collapsed: moved.1,
                                                    changed: before != after,
                                                    root: execution::first_of(own),
                                                },
                                            ),
                                    ),
                            ),
                    ),
            ),
    )
}

/// Moves a branch from `old_root` to `new_root`.
pub fn carry(
    t: &mut Tape,
    number: u64,
    message: &str,
    tip: Oid,
    old_root: Oid,
    new_root: Oid,
) -> (r: Result<Carried, Halt>)
    ensures
        (final(t)@, tape::outcome(r)) == carried(
            old(t)@,
            number,
            message@,
            tip,
            old_root,
            new_root,
        ),
{
    let revisions = branch_revisions(t, tip, old_root)?;
    let (new_tip, collapsed) = match replay(t, &revisions, new_root, message)? {
        Some(tip) => (tip, false),
        None => (collapse(t, number, tip, old_root, new_root, message)?, true),
    };
    // The justification for force-pushing: the reader sees the same patch
    // afterwards.
    let before = displayed_patch_id(t, old_root, tip)?;
    let after = displayed_patch_id(t, new_root, new_tip)?;
    let own = branch_revisions(t, new_tip, new_root)?;
    let count: usize = revisions.len();
    let root = if own.len() > 0 {
        Some(own[0])
    } else {
        None
    };
    Ok(Carried { new_tip, revisions: count, collapsed, changed: before != after, root })
}

/// The warning about a branch that was made one commit.
pub open spec fn collapse_noted(number: u64) -> Seq<char> {
    "#"@ + text::decimal(number as nat)
        + "'s revision history could not be replayed cleanly, so it was collapsed to a single commit. Those who review it will lose the revision-by-revision view."@
}

/// The warning about a patch that readers see change.
pub open spec fn change_noted(number: u64, landing: Option<u64>) -> Seq<char> {
    let start = "#"@ + text::decimal(number as nat) + "'s diff changed while landing"@;
    let what = match landing {
        Some(landed) => start + " #"@ + text::decimal(landed as nat),
        None => start,
    };
    what
        + "; some inline comments may be marked outdated. This normally means the trunk moved underneath you."@
}

/// The warnings with what there is to say about a moved branch.
pub open spec fn carry_noted(
    warnings: Seq<Seq<char>>,
    number: u64,
    landing: Option<u64>,
    c: Carried,
) -> Seq<Seq<char>> {
    let noted = if c.collapsed {
        warnings.push(collapse_noted(number))
    } else {
        warnings
    };
    if c.changed {
        noted.push(change_noted(number, landing))
    } else {
        noted
    }
}

fn note_carry(warnings: &mut Vec<String>, number: u64, landing: Option<u64>, c: Carried)
    ensures
        final(warnings).deep_view() == carry_noted(old(warnings).deep_view(), number, landing, c),
{
    if c.collapsed {
        let mut warning = "#".to_owned();
        push_decimal(&mut warning, number);
        warning.append(
            "'s revision history could not be replayed cleanly, so it was collapsed to a single commit. Those who review it will lose the revision-by-revision view.",
        );
        put(warnings, warning);
    }
    if c.changed {
        let mut warning = "#".to_owned();
        push_decimal(&mut warning, number);
        warning.append("'s diff changed while landing");
        match landing {
            Some(landed) => {
                warning.append(" #");
                push_decimal(&mut warning, landed);
            },
            None => {},
        }
        warning.append(
            "; some inline comments may be marked outdated. This normally means the trunk moved underneath you.",
        );
        put(warnings, warning);
    }
}

/// Where a pull request stands after a push, to be recorded.
#[derive(Debug, Clone, Copy, PartialEq, Eq, Structural)]
pub struct Recorded {
    pub number: u64,
    pub tip: Oid,
    pub root: Option<Oid>,
}

impl DeepView for Recorded {
    type V = Recorded;

    open spec fn deep_view(&self) -> Recorded {
        *self
    }
}

/// Everything from the `k`th on is recorded.
pub open spec fn record_from(t: TapeView, list: Seq<Recorded>, k: int) -> (
    TapeView,
    Result<(), HaltView>,
)
    decreases list.len() - k,
{
    if k < 0 || k >= list.len() {
        tape::done(t, ())
    } else {
        tape::bind(
            refs::updated(t, list[k].number, list[k].tip),
            |t: TapeView, u: ()|
                tape::bind(
                    match list[k].root {
                        Some(root) => refs::root_updated(t, list[k].number, root),
                        None => tape::done(t, ()),
                    },
                    |t: TapeView, u: ()| record_from(t, list, k + 1),
                ),
        )
    }
}

fn record(t: &mut Tape, list: &Vec<Recorded>) -> (r: Result<(), Halt>)
    ensures
        (final(t)@, tape::outcome(r)) == record_from(old(t)@, list@, 0),
{
    let mut k: usize = 0;
    while k < list.len()
        invariant
            k <= list@.len(),
            record_from(t@, list@, k as int) == record_from(old(t)@, list@, 0),
        decreases list@.len() - k,
    {
        let entry = list[k];
        refs::update(t, entry.number, entry.tip)?;
        match entry.root {
            Some(root) => {
                refs::update_root(t, entry.number, root)?;
            },
            None => {},
        }
        k = k + 1;
    }
    Ok(())
}

/// The name of a branch to the user.
pub open spec fn pr_label(number: u64) -> Seq<char> {
    "#"@ + text::decimal(number as nat)
}

/// The push of a repaired branch.
pub open spec fn repair_push(branch: Seq<char>, tip: Oid, number: u64) -> PushView {
    PushView { label: Some(pr_label(number)), ..forge::forced_push(branch, tip) }
}

/// The deletion of a merged branch.
pub open spec fn landed_push(branch: Seq<char>, number: u64) -> PushView {
    PushView {
        label: Some("delete #"@ + text::decimal(number as nat)),
        ..forge::delete_push(branch)
    }
}

fn repair_spec(branch: &str, tip: Oid, number: u64) -> (r: PushSpec)
    ensures
        r.deep_view() == repair_push(branch@, tip, number),
{
    let mut label = "#".to_owned();
    push_decimal(&mut label, number);
    PushSpec::forced(branch, tip).with_label(label)
}

fn landed_spec(branch: &str, number: u64) -> (r: PushSpec)
    ensures
        r.deep_view() == landed_push(branch@, number),
{
    let mut label = "delete #".to_owned();
    push_decimal(&mut label, number);
    PushSpec::delete(branch).with_label(label)
}

/// The commits of the layers below `n` that did not land.
pub open spec fn unlanded(s: StackView, landed: Seq<bool>, n: int) -> Seq<Oid>
    decreases n,
{
    if n <= 0 {
        Seq::empty()
    } else if landed[n - 1] {
        unlanded(s, landed, n - 1)
    } else {
        unlanded(s, landed, n - 1).push(s.layers[n - 1].commit)
    }
}

fn unlanded_commits(stack: &Stack, landed: &Vec<bool>) -> (r: Vec<Oid>)
    requires
        landed@.len() == stack@.layers.len(),
    ensures
        r@ == unlanded(stack@, landed@, stack@.layers.len() as int),
{
    let mut out: Vec<Oid> = Vec::new();
    let mut i: usize = 0;
    while i < stack.layers.len()
        invariant
            i <= stack.layers@.len() == landed@.len(),
            out@ == unlanded(stack@, landed@, i as int),
        decreases stack.layers@.len() - i,
    {
        assert(stack@.layers[i as int].commit == stack.layers@[i as int].commit);
        if !landed[i] {
            out.push(stack.layers[i].commit);
        }
        i = i + 1;
    }
    out
}

/// The local commits that did not land, rebased onto the trunk.
pub open spec fn tidied(
    t: TapeView,
    s: StackView,
    landed: Seq<bool>,
    trunk: Oid,
    context: Seq<char>,
) -> (TapeView, Result<Seq<Oid>, HaltView>) {
    tape::explained(
        history::commits_rebased(t, unlanded(s, landed, s.layers.len() as int), trunk),
        context,
    )
}

fn tidy(t: &mut Tape, stack: &Stack, landed: &Vec<bool>, trunk: Oid, context: &str) -> (r: Result<
    Vec<Oid>,
    Halt,
>)
    requires
        landed@.len() == stack@.layers.len(),
    ensures
        ({
            let spec = tidied(old(t)@, stack@, landed@, trunk, context@);
            &&& final(t)@ == spec.0
            &&& match r {
                Ok(out) => spec.1 == Ok::<Seq<Oid>, HaltView>(out@),
                Err(h) => spec.1 == Err::<Seq<Oid>, HaltView>(h.deep_view()),
            }
        }),
{
    let commits = unlanded_commits(stack, landed);
    match rebase_commits(t, &commits, trunk) {
        Ok(out) => Ok(out),
        Err(h) => Err(tape::explain(h, context)),
    }
}

/// What a merge on the forge comes to.
pub enum Merged {
    /// The squash commit.
    Squash(Oid),
    /// Why there is none.
    Failed(String),
}

#[verifier::ext_equal]
pub enum MergedView {
    Squash(Oid),
    Failed(Seq<char>),
}

impl DeepView for Merged {
    type V = MergedView;

    open spec fn deep_view(&self) -> MergedView {
        match self {
            Merged::Squash(oid) => MergedView::Squash(*oid),
            Merged::Failed(reason) => MergedView::Failed(reason@),
        }
    }
}

/// The forge is asked to squash-merge a pull request.
pub open spec fn merge_asked(t: TapeView, number: u64, merge: SquashView) -> (
    TapeView,
    Result<MergedView, HaltView>,
) {
    tape::bind(
        tape::ask(t, RequestView::MergePullRequest { number, merge }),
        |t: TapeView, r: ReplyView|
            match r {
                ReplyView::Object(oid) => tape::done(t, MergedView::Squash(oid)),
                ReplyView::Failed(reason) => tape::done(t, MergedView::Failed(reason)),
                _ => tape::refuse(t, tape::MISMATCH@),
            },
    )
}

fn ask_merge(t: &mut Tape, number: u64, merge: SquashMerge) -> (r: Result<Merged, Halt>)
    ensures
        (final(t)@, tape::outcome(r)) == merge_asked(old(t)@, number, merge.deep_view()),
{
    match t.reply(Request::MergePullRequest { number, merge })? {
        Reply::Object(oid) => Ok(Merged::Squash(oid)),
        Reply::Failed(reason) => Ok(Merged::Failed(reason)),
        _ => Err(Halt::Refused(tape::MISMATCH.to_owned())),
    }
}

/// A pull request that got another base, and the one it had.
pub struct Retargeted {
    pub layer: usize,
    pub number: u64,
    pub base: String,
}

#[verifier::ext_equal]
pub struct RetargetedView {
    pub layer: usize,
    pub number: u64,
    pub base: Seq<char>,
}

impl DeepView for Retargeted {
    type V = RetargetedView;

    open spec fn deep_view(&self) -> RetargetedView {
        RetargetedView { layer: self.layer, number: self.number, base: self.base@ }
    }
}

/// The pull requests from the `k`th on get their old bases back, as far as that
/// succeeds.
pub open spec fn rolled_back(t: TapeView, moved: Seq<RetargetedView>, k: int) -> (
    TapeView,
    Result<(), HaltView>,
)
    decreases moved.len() - k,
{
    if k < 0 || k >= moved.len() {
        tape::done(t, ())
    } else {
        tape::bind(
            tape::ask_unit(
                t,
                RequestView::TryUpdatePullRequest {
                    number: moved[k].number,
                    update: forge::base_update(moved[k].base),
                },
            ),
            |t: TapeView, u: ()| rolled_back(t, moved, k + 1),
        )
    }
}

/// Puts pull requests back where they were, so that a failed land is not also a
/// mess.
pub fn rollback(t: &mut Tape, moved: &Vec<Retargeted>) -> (r: Result<(), Halt>)
    ensures
        (final(t)@, tape::outcome(r)) == rolled_back(old(t)@, moved.deep_view(), 0),
{
    let mut k: usize = 0;
    while k < moved.len()
        invariant
            k <= moved@.len(),
            rolled_back(t@, moved.deep_view(), k as int) == rolled_back(
                old(t)@,
                moved.deep_view(),
                0,
            ),
        decreases moved@.len() - k,
    {
        assert(moved.deep_view()[k as int] == moved@[k as int].deep_view());
        t.unit(
            Request::TryUpdatePullRequest {
                number: moved[k].number,
                update: PullRequestUpdate::to_base(moved[k].base.as_str()),
            },
        )?;
        k = k + 1;
    }
    Ok(())
}

/// The error of a merge that failed.
pub open spec fn could_not_merge(number: u64, reason: Seq<char>) -> Seq<char> {
    "could not merge #"@ + text::decimal(number as nat) + ": "@ + reason
}

fn could_not_merge_text(number: u64, reason: &str) -> (r: String)
    ensures
        r@ == could_not_merge(number, reason@),
{
    let mut text = "could not merge #".to_owned();
    push_decimal(&mut text, number);
    text.append(": ");
    text.append(reason);
    text
}

/// The direct dependents from the `k`th on are based on the trunk.
pub open spec fn retarget_from(
    t: TapeView,
    c: ConfigView,
    s: StackView,
    index: usize,
    dependents: Seq<DependentView>,
    k: int,
    moved: Seq<RetargetedView>,
) -> (TapeView, Result<Seq<RetargetedView>, HaltView>)
    decreases dependents.len() - k,
{
    if k < 0 || k >= dependents.len() {
        tape::done(t, moved)
    } else {
        let d = dependents[k];
        if s.layers[d.layer as int].dep != Dep::Layer(index) || d.base == c.trunk {
            retarget_from(t, c, s, index, dependents, k + 1, moved)
        } else {
            tape::bind(
                tape::ask_unit(
                    t,
                    RequestView::UpdatePullRequest {
                        number: d.number,
                        update: forge::base_update(c.trunk),
                    },
                ),
                |t: TapeView, u: ()|
                    retarget_from(
                        t,
                        c,
                        s,
                        index,
                        dependents,
                        k + 1,
                        moved.push(
                            RetargetedView { layer: d.layer, number: d.number, base: d.base },
                        ),
                    ),
            )
        }
    }
}

fn retarget_direct(
    t: &mut Tape,
    config: &Config,
    stack: &Stack,
    index: usize,
    dependents: &Vec<Dependent>,
) -> (r: Result<Vec<Retargeted>, Halt>)
    requires
        in_range(dependents.deep_view(), stack@.layers.len() as int),
    ensures
        (final(t)@, tape::outcome(r)) == retarget_from(
            old(t)@,
            config@,
            stack@,
            index,
            dependents.deep_view(),
            0,
            Seq::empty(),
        ),
{
    let mut moved: Vec<Retargeted> = nothing();
    let mut k: usize = 0;
    while k < dependents.len()
        invariant
            k <= dependents@.len(),
            in_range(dependents.deep_view(), stack@.layers.len() as int),
            retarget_from(
                t@,
                config@,
                stack@,
                index,
                dependents.deep_view(),
                k as int,
                moved.deep_view(),
            ) == retarget_from(
                old(t)@,
                config@,
                stack@,
                index,
                dependents.deep_view(),
                0,
                Seq::empty(),
            ),
        decreases dependents@.len() - k,
    {
        let d = &dependents[k];
        assert(dependents.deep_view()[k as int] == d.deep_view());
        assert(stack@.layers[d.layer as int] == stack.layers@[d.layer as int].deep_view());
        if stack.layers[d.layer].dep == Dep::Layer(index) && !same(
            d.base.as_str(),
            config.trunk.as_str(),
        ) {
            t.unit(
                Request::UpdatePullRequest {
                    number: d.number,
                    update: PullRequestUpdate::to_base(config.trunk.as_str()),
                },
            )?;
            put(
                &mut moved,
                Retargeted { layer: d.layer, number: d.number, base: d.base.clone() },
            );
        }
        k = k + 1;
    }
    Ok(moved)
}

/// What is known while the dependents of a landed layer are repaired.
#[verifier::ext_equal]
pub struct RepairsView {
    /// The old and the new tip of every layer that has moved.
    pub tips: Seq<Option<(Oid, Oid)>>,
    pub specs: Seq<PushView>,
    pub recorded: Seq<Recorded>,
    pub repaired: Seq<RepairView>,
    pub warnings: Seq<Seq<char>>,
}

/// What is known while the dependents of a landed layer are repaired.
pub struct Repairs {
    pub tips: Vec<Option<(Oid, Oid)>>,
    pub specs: Vec<PushSpec>,
    pub recorded: Vec<Recorded>,
    pub repaired: Vec<Repair>,
    pub warnings: Vec<String>,
}

impl DeepView for Repairs {
    type V = RepairsView;

    open spec fn deep_view(&self) -> RepairsView {
        RepairsView {
            tips: self.tips@,
            specs: self.specs.deep_view(),
            recorded: self.recorded@,
            repaired: self.repaired.deep_view(),
            warnings: self.warnings.deep_view(),
        }
    }
}

/// The old and the new tip of what a layer depends on.
pub open spec fn anchor_of(s: StackView, tips: Seq<Option<(Oid, Oid)>>, layer: int) -> Option<
    (Oid, Oid),
> {
    match s.layers[layer].dep {
        Dep::Layer(j) => if j < tips.len() {
            tips[j as int]
        } else {
            None
        },
        _ => None,
    }
}

/// The refusal of a dependent on top of one that was left alone.
pub open spec fn nothing_below(number: u64) -> Seq<char> {
    "#"@ + text::decimal(number as nat)
        + " depends on a pull request that is not open, so it cannot be repaired."@
}

/// The run with one more branch moved.
pub open spec fn with_repair(
    run: RepairsView,
    s: StackView,
    index: usize,
    landing: u64,
    d: DependentView,
    c: Carried,
) -> RepairsView {
    RepairsView {
        tips: run.tips.update(d.layer as int, Some((d.tip, c.new_tip))),
        specs: run.specs.push(repair_push(d.branch, c.new_tip, d.number)),
        recorded: run.recorded.push(
            Recorded { number: d.number, tip: c.new_tip, root: c.root },
        ),
        repaired: run.repaired.push(
            RepairView {
                number: d.number,
                branch: d.branch,
                old_tip: d.tip,
                new_tip: c.new_tip,
                revisions: c.revisions,
                collapsed: c.collapsed,
                retargeted: s.layers[d.layer as int].dep == Dep::Layer(index),
            },
        ),
        warnings: carry_noted(run.warnings, d.number, Some(landing), c),
    }
}

/// The dependents from the `k`th on, each replayed onto the new tip of what it
/// depends on.
pub open spec fn repair_from(
    t: TapeView,
    s: StackView,
    index: usize,
    landing: u64,
    dependents: Seq<DependentView>,
    k: int,
    run: RepairsView,
) -> (TapeView, Result<RepairsView, HaltView>)
    decreases dependents.len() - k,
{
    if k < 0 || k >= dependents.len() {
        tape::done(t, run)
    } else {
        let d = dependents[k];
        match anchor_of(s, run.tips, d.layer as int) {
            None => tape::refuse(t, nothing_below(d.number)),
            Some(roots) => tape::bind(
                carried(
                    t,
                    d.number,
                    trailers::rendered(trailers::for_branch(s.layers[d.layer as int].message)),
                    d.tip,
                    roots.0,
                    roots.1,
                ),
                |t: TapeView, c: Carried|
                    repair_from(
                        t,
                        s,
                        index,
                        landing,
                        dependents,
                        k + 1,
                        with_repair(run, s, index, landing, d, c),
                    ),
            ),
        }
    }
}

/// Repairs the dependents of a landed layer.
///
/// Topological order matters: a dependent of a dependent must be replayed onto
/// its own dependency's *new* tip, not its old one. One on top of a dependent
/// that was left alone has nothing to be replayed onto.
fn repair_dependents(
    t: &mut Tape,
    stack: &Stack,
    index: usize,
    landing: u64,
    dependents: &Vec<Dependent>,
    start: Repairs,
) -> (r: Result<Repairs, Halt>)
    requires
        in_range(dependents.deep_view(), stack@.layers.len() as int),
        start.tips@.len() == stack@.layers.len(),
    ensures
        (final(t)@, tape::outcome(r)) == repair_from(
            old(t)@,
            stack@,
            index,
            landing,
            dependents.deep_view(),
            0,
            start.deep_view(),
        ),
{
    let ghost first = start.deep_view();
    let mut run = start;
    let mut k: usize = 0;
    while k < dependents.len()
        invariant
            k <= dependents@.len(),
            in_range(dependents.deep_view(), stack@.layers.len() as int),
            run.tips@.len() == stack@.layers.len(),
            first == start.deep_view(),
            repair_from(
                t@,
                stack@,
                index,
                landing,
                dependents.deep_view(),
                k as int,
                run.deep_view(),
            ) == repair_from(
                old(t)@,
                stack@,
                index,
                landing,
                dependents.deep_view(),
                0,
                first,
            ),
        decreases dependents@.len() - k,
    {
        let d = &dependents[k];
        assert(dependents.deep_view()[k as int] == d.deep_view());
        let layer = &stack.layers[d.layer];
        assert(stack@.layers[d.layer as int] == layer.deep_view());
        let anchor = match layer.dep {
            Dep::Layer(j) => if j < run.tips.len() {
                run.tips[j]
            } else {
                None
            },
            _ => None,
        };
        match anchor {
            None => {
                let mut reason = "#".to_owned();
                push_decimal(&mut reason, d.number);
                reason.append(
                    " depends on a pull request that is not open, so it cannot be repaired.",
                );
                return Err(Halt::Refused(reason));
            },
            Some(roots) => {
                let message = layer.message.clean_for_branch();
                let c = carry(t, d.number, message.as_str(), d.tip, roots.0, roots.1)?;
                note_carry(&mut run.warnings, d.number, Some(landing), c);
                put(&mut run.specs, repair_spec(d.branch.as_str(), c.new_tip, d.number));
                run.recorded.push(Recorded { number: d.number, tip: c.new_tip, root: c.root });
                run.tips.set(d.layer, Some((d.tip, c.new_tip)));
                put(
                    &mut run.repaired,
                    Repair {
                        number: d.number,
                        branch: d.branch.clone(),
                        old_tip: d.tip,
                        new_tip: c.new_tip,
                        revisions: c.revisions,
                        collapsed: c.collapsed,
                        retargeted: layer.dep == Dep::Layer(index),
                    },
                );
            },
        }
        k = k + 1;
    }
    Ok(run)
}

/// The pull request of a layer that may land: it sits on the trunk, is open and
/// ready, and holds what the local commit does.
pub open spec fn landing_checked(t: TapeView, c: ConfigView, s: StackView, index: int) -> (
    TapeView,
    Result<PrView, HaltView>,
) {
    let layer = s.layers[index];
    match layer.dep {
        Dep::Layer(parent) => tape::refuse(t, stacked_refusal(c, s, index, parent as int)),
        _ => match layer.pr {
            None => tape::refuse(t, no_pr_yet(layer.message.subject)),
            Some(number) => tape::bind(
                synced_pr(t, number, true),
                |t: TapeView, pr: PrView|
                    match not_landable(number, pr.state, pr.draft) {
                        Some(reason) => tape::refuse(t, reason),
                        None => tape::bind(
                            trunk_tip(t, c),
                            |t: TapeView, trunk: Oid|
                                tape::bind(
                                    reviewed(t, layer.commit, trunk, pr.head_oid),
                                    |t: TapeView, u: ()| tape::done(t, pr),
                                ),
                        ),
                    },
            ),
        },
    }
}

fn check_landing(t: &mut Tape, config: &Config, stack: &Stack, index: usize) -> (r: Result<
    PullRequest,
    Halt,
>)
    requires
        index < stack@.layers.len(),
        stack::well_formed(stack@),
    ensures
        (final(t)@, tape::outcome(r)) == landing_checked(
            old(t)@,
            config@,
            stack@,
            index as int,
        ),
        r is Ok ==> stack@.layers[index as int].pr is Some,
{
    let layer = &stack.layers[index];
    assert(stack@.layers[index as int] == layer.deep_view());
    match layer.dep {
        Dep::Layer(parent) => {
            return Err(Halt::Refused(stacked_refusal_text(config, stack, index, parent)));
        },
        _ => {},
    }
    match layer.pr {
        None => Err(Halt::Refused(no_pr_yet_text(layer))),
        Some(number) => {
            let pr = get_synced_pull_request(t, number, true)?;
            match why_not_landable(number, pr.state, pr.draft) {
                Some(reason) => Err(Halt::Refused(reason)),
                None => {
                    let trunk = fetch_trunk(t, config)?;
                    check_merge_equals_cherrypick(t, layer.commit, trunk, pr.head_oid)?;
                    Ok(pr)
                },
            }
        },
    }
}

/// The layer merged, its direct dependents based on the trunk before, or back
/// on their old bases if the merge fails.
pub open spec fn squashed(
    t: TapeView,
    c: ConfigView,
    s: StackView,
    index: usize,
    number: u64,
    pr: PrView,
    opts: LandOptionsView,
    dependents: Seq<DependentView>,
) -> (TapeView, Result<Oid, HaltView>) {
    let layer = s.layers[index as int];
    tape::bind(
        retarget_from(t, c, s, index, dependents, 0, Seq::empty()),
        |t: TapeView, moved: Seq<RetargetedView>|
            tape::bind(
                merge_asked(
                    t,
                    number,
                    SquashView {
                        title: squash_title(layer.message.subject, number),
                        message: squash_body(layer.message, opts.message),
                        expected_head: pr.head_oid,
                    },
                ),
                |t: TapeView, merged: MergedView|
                    match merged {
                        MergedView::Failed(reason) => tape::bind(
                            rolled_back(t, moved, 0),
                            |t: TapeView, u: ()|
                                tape::refuse(t, could_not_merge(number, reason)),
                        ),
                        MergedView::Squash(squash) => tape::bind(
                            tape::ask_unit(t, RequestView::FetchCommit { commit: squash }),
                            |t: TapeView, u: ()| tape::done(t, squash),
                        ),
                    },
            ),
    )
}

fn squash_layer(
    t: &mut Tape,
    config: &Config,
    stack: &Stack,
    index: usize,
    number: u64,
    pr: &PullRequest,
    opts: &LandOptions,
    dependents: &Vec<Dependent>,
) -> (r: Result<Oid, Halt>)
    requires
        index < stack@.layers.len(),
        in_range(dependents.deep_view(), stack@.layers.len() as int),
    ensures
        (final(t)@, tape::outcome(r)) == squashed(
            old(t)@,
            config@,
            stack@,
            index,
            number,
            pr@,
            opts@,
            dependents.deep_view(),
        ),
{
    let layer = &stack.layers[index];
    assert(stack@.layers[index as int] == layer.deep_view());
    let moved = retarget_direct(t, config, stack, index, dependents)?;
    let (title, message) = squash_message(layer, number, opts);
    match ask_merge(t, number, SquashMerge { title, message, expected_head: pr.head_oid })? {
        Merged::Failed(reason) => {
            rollback(t, &moved)?;
            Err(Halt::Refused(could_not_merge_text(number, reason.as_str())))
        },
        Merged::Squash(squash) => {
            t.unit(Request::FetchCommit { commit: squash })?;
            Ok(squash)
        },
    }
}

/// What a failure to rebase the local stack after a single landing is called.
pub const LAYER_LANDED: &'static str =
    "#{number} landed, but the local stack could not be rebased onto it. Run `git rebase --onto <trunk>` manually, then `nspr sync`.";

/// Only one layer has landed.
pub open spec fn only(index: usize, n: nat) -> Seq<bool> {
    Seq::new(n, |i: int| i == index)
}

/// All repaired branches pushed and the merged one deleted in one go, the
/// references brought up to date, and the local commits rebased.
pub open spec fn landing_concluded(
    t: TapeView,
    s: StackView,
    index: usize,
    number: u64,
    pr: PrView,
    opts: LandOptionsView,
    squash: Oid,
    run: RepairsView,
) -> (TapeView, Result<LandOutcomeView, HaltView>) {
    let outcome = LandOutcomeView {
        number,
        title: squash_title(s.layers[index as int].message.subject, number),
        squash,
        repaired: run.repaired,
        warnings: run.warnings,
    };
    tape::bind(
        tape::ask_unit(
            t,
            RequestView::Push { specs: run.specs.push(landed_push(pr.head, number)) },
        ),
        |t: TapeView, u: ()|
            tape::bind(
                record_from(t, run.recorded, 0),
                |t: TapeView, u: ()|
                    tape::bind(
                        refs::removed(t, number),
                        |t: TapeView, u: ()|
                            if opts.keep_local {
                                tape::done(t, outcome)
                            } else {
                                tape::bind(
                                    tidied(
                                        t,
                                        s,
                                        only(index, s.layers.len()),
                                        squash,
                                        LAYER_LANDED@,
                                    ),
                                    |t: TapeView, rebased: Seq<Oid>| tape::done(t, outcome),
                                )
                            },
                    ),
            ),
    )
}

fn conclude_landing(
    t: &mut Tape,
    stack: &Stack,
    index: usize,
    number: u64,
    pr: &PullRequest,
    opts: &LandOptions,
    squash: Oid,
    run: Repairs,
) -> (r: Result<LandOutcome, Halt>)
    requires
        index < stack@.layers.len(),
    ensures
        (final(t)@, tape::outcome(r)) == landing_concluded(
            old(t)@,
            stack@,
            index,
            number,
            pr@,
            opts@,
            squash,
            run.deep_view(),
        ),
{
    let layer = &stack.layers[index];
    assert(stack@.layers[index as int] == layer.deep_view());
    let (title, _) = squash_message(layer, number, opts);
    let mut specs = run.specs;
    put(&mut specs, landed_spec(pr.head.as_str(), number));
    t.unit(Request::Push { specs })?;
    record(t, &run.recorded)?;
    refs::remove(t, number)?;
    if !opts.keep_local {
        let n: usize = stack.layers.len();
        let mut landed: Vec<bool> = Vec::new();
        let mut i: usize = 0;
        while i < n
            invariant
                i <= n,
                landed@.len() == i,
                forall|m: int| 0 <= m < i ==> landed@[m] == (m == index),
            decreases n - i,
        {
            landed.push(i == index);
            i = i + 1;
        }
        assert(landed@ =~= only(index, stack@.layers.len()));
        let _ = tidy(t, stack, &landed, squash, LAYER_LANDED)?;
    }
    Ok(LandOutcome { number, title, squash, repaired: run.repaired, warnings: run.warnings })
}

/// Nothing is repaired yet: only the landed layer has moved, to the squash
/// commit.
pub open spec fn no_repairs(
    s: StackView,
    index: usize,
    pr: PrView,
    squash: Oid,
    warnings: Seq<Seq<char>>,
) -> RepairsView {
    RepairsView {
        tips: Seq::new(
            s.layers.len(),
            |i: int|
                if i == index {
                    Some((pr.head_oid, squash))
                } else {
                    None
                },
        ),
        specs: Seq::empty(),
        recorded: Seq::empty(),
        repaired: Seq::empty(),
        warnings,
    }
}

fn start_repairs(
    stack: &Stack,
    index: usize,
    pr: &PullRequest,
    squash: Oid,
    warnings: Vec<String>,
) -> (r: Repairs)
    ensures
        r.deep_view() == no_repairs(stack@, index, pr@, squash, warnings.deep_view()),
        r.tips@.len() == stack@.layers.len(),
{
    let n: usize = stack.layers.len();
    let mut tips: Vec<Option<(Oid, Oid)>> = Vec::new();
    let mut i: usize = 0;
    while i < n
        invariant
            i <= n,
            tips@.len() == i,
            forall|m: int|
                0 <= m < i ==> (#[trigger] tips@[m]) == (if m == index {
                    Some((pr.head_oid, squash))
                } else {
                    None
                }),
        decreases n - i,
    {
        tips.push(
            if i == index {
                Some((pr.head_oid, squash))
            } else {
                None
            },
        );
        i = i + 1;
    }
    assert(tips@ =~= no_repairs(stack@, index, pr@, squash, warnings.deep_view()).tips);
    let recorded: Vec<Recorded> = Vec::new();
    assert(recorded@ =~= Seq::<Recorded>::empty());
    Repairs { tips, specs: nothing(), recorded, repaired: nothing(), warnings }
}

/// A layer landed and its dependents repaired.
pub open spec fn layer_landed(
    t: TapeView,
    c: ConfigView,
    s: StackView,
    index: usize,
    opts: LandOptionsView,
) -> (TapeView, Result<LandOutcomeView, HaltView>) {
    tape::bind(
        tape::ask_unit(t, RequestView::CheckClean),
        |t: TapeView, u: ()|
            tape::bind(
                upgrade::legacy_rejected(t, c, s),
                |t: TapeView, u: ()|
                    tape::bind(
                        landing_checked(t, c, s, index as int),
                        |t: TapeView, pr: PrView|
                            landing(t, c, s, index, s.layers[index as int].pr->0, pr, opts),
                    ),
            ),
    )
}

/// The part of a landing that changes things.
pub open spec fn landing(
    t: TapeView,
    c: ConfigView,
    s: StackView,
    index: usize,
    number: u64,
    pr: PrView,
    opts: LandOptionsView,
) -> (TapeView, Result<LandOutcomeView, HaltView>) {
    tape::bind(
        snapshot_from(t, c, s, stack::dependents(s, index as int), 0, empty_snapshot()),
        |t: TapeView, snap: SnapshotView|
            tape::bind(
                squashed(t, c, s, index, number, pr, opts, snap.dependents),
                |t: TapeView, squash: Oid|
                    tape::bind(
                        repair_from(
                            t,
                            s,
                            index,
                            number,
                            snap.dependents,
                            0,
                            no_repairs(s, index, pr, squash, snap.warnings),
                        ),
                        |t: TapeView, run: RepairsView|
                            landing_concluded(t, s, index, number, pr, opts, squash, run),
                    ),
            ),
    )
}

/// Squash-merges layer `index` and repairs its dependents.
///
/// The caller must re-discover the stack afterwards: the local commits are
/// rebased onto the squash commit, so their ids change and the landed layer is
/// gone.
pub fn land_layer(
    t: &mut Tape,
    config: &Config,
    stack: &Stack,
    index: usize,
    opts: &LandOptions,
) -> (r: Result<LandOutcome, Halt>)
    requires
        index < stack@.layers.len(),
        stack::well_formed(stack@),
    ensures
        (final(t)@, tape::outcome(r)) == layer_landed(old(t)@, config@, stack@, index, opts@),
{
    t.unit(Request::CheckClean)?;
    reject_if_legacy_spr(t, config, stack)?;
    let pr = check_landing(t, config, stack, index)?;
    assert(stack@.layers[index as int].pr == stack.layers@[index as int].pr);
    let number = match stack.layers[index].pr {
        Some(number) => number,
        None => 0,
    };
    let snap = snapshot_dependents(t, config, stack, index)?;
    let squash = squash_layer(
        t,
        config,
        stack,
        index,
        number,
        &pr,
        opts,
        &snap.dependents,
    )?;
    let start = start_repairs(stack, index, &pr, squash, snap.warnings);
    let run = repair_dependents(t, stack, index, number, &snap.dependents, start)?;
    conclude_landing(t, stack, index, number, &pr, opts, squash, run)
}

/// The lowest layer from `i` on that sits on the trunk and has a pull request.
pub open spec fn landable_from(s: StackView, i: int) -> Option<usize>
    decreases s.layers.len() - i,
{
    if i < 0 || i >= s.layers.len() {
        None
    } else if s.layers[i].dep == Dep::Main && s.layers[i].pr is Some {
        Some(i as usize)
    } else {
        landable_from(s, i + 1)
    }
}

/// The lowest layer that is ready to land, if any.
pub fn next_landable(stack: &Stack) -> (r: Option<usize>)
    ensures
        r == landable_from(stack@, 0),
        r matches Some(k) ==> k < stack@.layers.len() && stack@.layers[k as int].dep == Dep::Main,
{
    let mut i: usize = 0;
    while i < stack.layers.len()
        invariant
            i <= stack.layers@.len(),
            landable_from(stack@, i as int) == landable_from(stack@, 0),
        decreases stack.layers@.len() - i,
    {
        assert(stack@.layers[i as int] == stack.layers@[i as int].deep_view());
        if stack.layers[i].dep == Dep::Main && stack.layers[i].pr.is_some() {
            return Some(i);
        }
        i = i + 1;
    }
    None
}

/// A layer's pull request while all layers land.
#[derive(Debug, Clone)]
pub struct LayerPr {
    pub number: u64,
    pub branch: String,
    pub base: String,
    pub tip: Oid,
    pub state: PrState,
    pub draft: bool,
    pub auto_merge_warning: Option<String>,
    /// If this layer depends on another layer of the stack, the remote tip of
    /// that dependency that `tip` is currently anchored on.
    pub anchor_tip: Option<Oid>,
}

#[verifier::ext_equal]
pub struct LayerPrView {
    pub number: u64,
    pub branch: Seq<char>,
    pub base: Seq<char>,
    pub tip: Oid,
    pub state: PrState,
    pub draft: bool,
    pub auto_merge_warning: Option<Seq<char>>,
    pub anchor_tip: Option<Oid>,
}

impl DeepView for LayerPr {
    type V = LayerPrView;

    open spec fn deep_view(&self) -> LayerPrView {
        LayerPrView {
            number: self.number,
            branch: self.branch@,
            base: self.base@,
            tip: self.tip,
            state: self.state,
            draft: self.draft,
            auto_merge_warning: self.auto_merge_warning.deep_view(),
            anchor_tip: self.anchor_tip,
        }
    }
}

impl Duplicate for LayerPr {
    fn duplicate(&self) -> (r: Self) {
        LayerPr {
            number: self.number,
            branch: self.branch.clone(),
            base: self.base.clone(),
            tip: self.tip,
            state: self.state,
            draft: self.draft,
            auto_merge_warning: self.auto_merge_warning.duplicate(),
            anchor_tip: self.anchor_tip,
        }
    }
}

/// A pull request as it stands before anything lands.
pub open spec fn layer_pr(c: ConfigView, number: u64, pr: PrView, anchor_tip: Option<Oid>) -> LayerPrView {
    LayerPrView {
        number,
        branch: pr.head,
        base: pr.base,
        tip: pr.head_oid,
        state: pr.state,
        draft: pr.draft,
        auto_merge_warning: if pr.state == PrState::Open {
            guardrails::auto_merge_noted(pr, c.trunk)
        } else {
            None
        },
        anchor_tip,
    }
}

/// The tip of what layer `i` depends on, if that is a layer with a pull request.
pub open spec fn dep_tip(s: StackView, prs: Seq<Option<LayerPrView>>, i: int) -> Option<Oid> {
    match s.layers[i].dep {
        Dep::Layer(j) => match prs[j as int] {
            Some(pr) => Some(pr.tip),
            None => None,
        },
        _ => None,
    }
}

/// Some of the given layers from the `k`th on has a pull request.
pub open spec fn any_pr(s: StackView, layers: Seq<usize>, k: int) -> bool
    decreases layers.len() - k,
{
    0 <= k < layers.len() && (s.layers[layers[k] as int].pr is Some || any_pr(s, layers, k + 1))
}

fn has_any_pr(stack: &Stack, layers: &Vec<usize>) -> (r: bool)
    requires
        forall|m: int| 0 <= m < layers@.len() ==> (#[trigger] layers@[m]) < stack@.layers.len(),
    ensures
        r == any_pr(stack@, layers@, 0),
{
    let mut k: usize = 0;
    while k < layers.len()
        invariant
            k <= layers@.len(),
            forall|m: int| 0 <= m < layers@.len() ==> (#[trigger] layers@[m]) < stack@.layers.len(),
            any_pr(stack@, layers@, k as int) == any_pr(stack@, layers@, 0),
        decreases layers@.len() - k,
    {
        let i: usize = layers[k];
        assert(stack@.layers[i as int] == stack.layers@[i as int].deep_view());
        if stack.layers[i].pr.is_some() {
            return true;
        }
        k = k + 1;
    }
    false
}

/// The refusal of a gap in the stack.
pub open spec fn gap(subject: Seq<char>) -> Seq<char> {
    "`"@ + subject
        + "` has no pull request yet, but a layer above it does; run `nspr diff` first so it can be retargeted"@
}

/// The pull requests of the layers from `i` on.
pub open spec fn survey_from(
    t: TapeView,
    c: ConfigView,
    s: StackView,
    i: int,
    prs: Seq<Option<LayerPrView>>,
) -> (TapeView, Result<Seq<Option<LayerPrView>>, HaltView>)
    decreases s.layers.len() - i,
{
    if i < 0 || i >= s.layers.len() {
        tape::done(t, prs)
    } else {
        match s.layers[i].pr {
            Some(number) => tape::bind(
                synced_pr(t, number, i == 0),
                |t: TapeView, pr: PrView|
                    survey_from(
                        t,
                        c,
                        s,
                        i + 1,
                        prs.push(Some(layer_pr(c, number, pr, dep_tip(s, prs, i)))),
                    ),
            ),
            None => if any_pr(s, stack::dependents(s, i), 0) {
                tape::refuse(t, gap(s.layers[i].message.subject))
            } else {
                survey_from(t, c, s, i + 1, prs.push(None))
            },
        }
    }
}

/// Reads the pull requests of all layers before anything is changed.
fn survey(t: &mut Tape, config: &Config, stack: &Stack) -> (r: Result<Vec<Option<LayerPr>>, Halt>)
    requires
        stack::well_formed(stack@),
    ensures
        (final(t)@, tape::outcome(r)) == survey_from(
            old(t)@,
            config@,
            stack@,
            0,
            Seq::empty(),
        ),
        r matches Ok(prs) ==> prs@.len() == stack@.layers.len(),
{
    let mut prs: Vec<Option<LayerPr>> = nothing();
    let mut i: usize = 0;
    while i < stack.layers.len()
        invariant
            i <= stack.layers@.len(),
            prs@.len() == i,
            stack::well_formed(stack@),
            survey_from(t@, config@, stack@, i as int, prs.deep_view()) == survey_from(
                old(t)@,
                config@,
                stack@,
                0,
                Seq::empty(),
            ),
        decreases stack.layers@.len() - i,
    {
        let layer = &stack.layers[i];
        assert(stack@.layers[i as int] == layer.deep_view());
        match layer.pr {
            Some(number) => {
                let pr = get_synced_pull_request(t, number, i == 0)?;
                let anchor_tip = match layer.dep {
                    Dep::Layer(j) => {
                        assert(prs.deep_view()[j as int] == prs@[j as int].deep_view());
                        match &prs[j] {
                            Some(below) => Some(below.tip),
                            None => None,
                        }
                    },
                    _ => None,
                };
                let auto_merge_warning = if pr.state == PrState::Open {
                    auto_merge_warning(&pr, config.trunk.as_str())
                } else {
                    None
                };
                let entry = LayerPr {
                    number,
                    branch: pr.head,
                    base: pr.base,
                    tip: pr.head_oid,
                    state: pr.state,
                    draft: pr.draft,
                    auto_merge_warning,
                    anchor_tip,
                };
                put(&mut prs, Some(entry));
            },
            None => {
                let above = stack.dependents_of(i);
                if has_any_pr(stack, &above) {
                    let mut reason = "`".to_owned();
                    reason.append(layer.subject());
                    reason.append(
                        "` has no pull request yet, but a layer above it does; run `nspr diff` first so it can be retargeted",
                    );
                    return Err(Halt::Refused(reason));
                }
                put(&mut prs, None);
            },
        }
        i = i + 1;
    }
    Ok(prs)
}

/// What is known while the layers that did not land are repaired.
#[verifier::ext_equal]
pub struct MendView {
    pub prs: Seq<Option<LayerPrView>>,
    pub specs: Seq<PushView>,
    pub recorded: Seq<Recorded>,
    pub repaired: Seq<RepairView>,
    pub warnings: Seq<Seq<char>>,
}

/// What is known while the layers that did not land are repaired.
pub struct Mend {
    pub prs: Vec<Option<LayerPr>>,
    pub specs: Vec<PushSpec>,
    pub recorded: Vec<Recorded>,
    pub repaired: Vec<Repair>,
    pub warnings: Vec<String>,
}

impl DeepView for Mend {
    type V = MendView;

    open spec fn deep_view(&self) -> MendView {
        MendView {
            prs: self.prs.deep_view(),
            specs: self.specs.deep_view(),
            recorded: self.recorded@,
            repaired: self.repaired.deep_view(),
            warnings: self.warnings.deep_view(),
        }
    }
}

/// What the branch of a layer on top of layer `dep` belongs on.
pub open spec fn new_root(
    prs: Seq<Option<LayerPrView>>,
    landed: Seq<bool>,
    trunk: Oid,
    dep: int,
) -> Option<Oid> {
    if landed[dep] {
        Some(trunk)
    } else {
        match prs[dep] {
            Some(pr) => Some(pr.tip),
            None => None,
        }
    }
}

/// The branch of layer `d` moved to where it belongs.
pub open spec fn moved_to(
    t: TapeView,
    c: ConfigView,
    s: StackView,
    direct: bool,
    d: int,
    m: MendView,
    pr: LayerPrView,
    old_root: Oid,
    root: Oid,
) -> (TapeView, Result<MendView, HaltView>) {
    tape::bind(
        if direct && pr.base != c.trunk {
            tape::ask_unit(
                t,
                RequestView::UpdatePullRequest {
                    number: pr.number,
                    update: forge::base_update(c.trunk),
                },
            )
        } else {
            tape::done(t, ())
        },
        |t: TapeView, u: ()|
            tape::bind(
                carried(
                    t,
                    pr.number,
                    trailers::rendered(trailers::for_branch(s.layers[d].message)),
                    pr.tip,
                    old_root,
                    root,
                ),
                |t: TapeView, moved: Carried|
                    tape::done(
                        t,
                        MendView {
                            prs: m.prs.update(
                                d,
                                Some(
                                    LayerPrView {
                                        base: if direct {
                                            c.trunk
                                        } else {
                                            pr.base
                                        },
                                        tip: moved.new_tip,
                                        auto_merge_warning: None,
                                        anchor_tip: Some(root),
                                        ..pr
                                    },
                                ),
                            ),
                            specs: m.specs.push(repair_push(pr.branch, moved.new_tip, pr.number)),
                            recorded: m.recorded.push(
                                Recorded {
                                    number: pr.number,
                                    tip: moved.new_tip,
                                    root: moved.root,
                                },
                            ),
                            repaired: m.repaired.push(
                                RepairView {
                                    number: pr.number,
                                    branch: pr.branch,
                                    old_tip: pr.tip,
                                    new_tip: moved.new_tip,
                                    revisions: moved.revisions,
                                    collapsed: moved.collapsed,
                                    retargeted: direct,
                                },
                            ),
                            warnings: carry_noted(
                                guardrails::with_note(m.warnings, pr.auto_merge_warning),
                                pr.number,
                                None,
                                moved,
                            ),
                        },
                    ),
            ),
    )
}

/// Layer `d` repaired, if it sits on a layer that has landed or moved.
pub open spec fn mended(
    t: TapeView,
    c: ConfigView,
    s: StackView,
    landed: Seq<bool>,
    trunk: Oid,
    d: int,
    m: MendView,
) -> (TapeView, Result<MendView, HaltView>) {
    match s.layers[d].dep {
        Dep::Layer(dep) => match (m.prs[d], new_root(m.prs, landed, trunk, dep as int)) {
            (Some(pr), Some(root)) => if landed[d] {
                tape::done(t, m)
            } else if pr.state != PrState::Open {
                tape::done(t, MendView { warnings: m.warnings.push(left_alone(pr.number)), ..m })
            } else {
                match pr.anchor_tip {
                    Some(old_root) => if old_root == root {
                        tape::done(t, m)
                    } else {
                        moved_to(t, c, s, landed[dep as int], d, m, pr, old_root, root)
                    },
                    None => tape::done(t, m),
                }
            },
            _ => tape::done(t, m),
        },
        _ => tape::done(t, m),
    }
}

/// The layers from `d` on repaired.
pub open spec fn mend_from(
    t: TapeView,
    c: ConfigView,
    s: StackView,
    landed: Seq<bool>,
    trunk: Oid,
    d: int,
    m: MendView,
) -> (TapeView, Result<MendView, HaltView>)
    decreases s.layers.len() - d,
{
    if d < 0 || d >= s.layers.len() {
        tape::done(t, m)
    } else {
        tape::bind(
            mended(t, c, s, landed, trunk, d, m),
            |t: TapeView, m: MendView| mend_from(t, c, s, landed, trunk, d + 1, m),
        )
    }
}

fn move_layer(
    t: &mut Tape,
    config: &Config,
    stack: &Stack,
    direct: bool,
    d: usize,
    m: &mut Mend,
    pr: &LayerPr,
    old_root: Oid,
    root: Oid,
) -> (r: Result<(), Halt>)
    requires
        d < stack@.layers.len() == old(m).prs@.len(),
    ensures
        ({
            let spec = moved_to(
                old(t)@,
                config@,
                stack@,
                direct,
                d as int,
                old(m).deep_view(),
                pr.deep_view(),
                old_root,
                root,
            );
            &&& final(t)@ == spec.0
            &&& match r {
                Ok(_) => spec.1 == Ok::<MendView, HaltView>(final(m).deep_view())
                    && final(m).prs@.len() == stack@.layers.len(),
                Err(h) => spec.1 == Err::<MendView, HaltView>(h.deep_view()),
            }
        }),
{
    let layer = &stack.layers[d];
    assert(stack@.layers[d as int] == layer.deep_view());
    note(&mut m.warnings, pr.auto_merge_warning.duplicate());
    if direct && !same(pr.base.as_str(), config.trunk.as_str()) {
        t.unit(
            Request::UpdatePullRequest {
                number: pr.number,
                update: PullRequestUpdate::to_base(config.trunk.as_str()),
            },
        )?;
    }
    let message = layer.message.clean_for_branch();
    let moved = carry(t, pr.number, message.as_str(), pr.tip, old_root, root)?;
    note_carry(&mut m.warnings, pr.number, None, moved);
    put(&mut m.specs, repair_spec(pr.branch.as_str(), moved.new_tip, pr.number));
    m.recorded.push(Recorded { number: pr.number, tip: moved.new_tip, root: moved.root });
    let base = if direct {
        config.trunk.clone()
    } else {
        pr.base.clone()
    };
    let mut now = pr.duplicate();
    now.base = base;
    now.tip = moved.new_tip;
    now.auto_merge_warning = None;
    now.anchor_tip = Some(root);
    replace(&mut m.prs, d, Some(now));
    put(
        &mut m.repaired,
        Repair {
            number: pr.number,
            branch: pr.branch.clone(),
            old_tip: pr.tip,
            new_tip: moved.new_tip,
            revisions: moved.revisions,
            collapsed: moved.collapsed,
            retargeted: direct,
        },
    );
    Ok(())
}

fn mend_layer(
    t: &mut Tape,
    config: &Config,
    stack: &Stack,
    landed: &Vec<bool>,
    trunk: Oid,
    d: usize,
    m: &mut Mend,
) -> (r: Result<(), Halt>)
    requires
        d < stack@.layers.len() == old(m).prs@.len(),
        landed@.len() == stack@.layers.len(),
        stack::well_formed(stack@),
    ensures
        ({
            let spec = mended(
                old(t)@,
                config@,
                stack@,
                landed@,
                trunk,
                d as int,
                old(m).deep_view(),
            );
            &&& final(t)@ == spec.0
            &&& match r {
                Ok(_) => spec.1 == Ok::<MendView, HaltView>(final(m).deep_view())
                    && final(m).prs@.len() == stack@.layers.len(),
                Err(h) => spec.1 == Err::<MendView, HaltView>(h.deep_view()),
            }
        }),
{
    assert(stack@.layers[d as int] == stack.layers@[d as int].deep_view());
    let dep: usize = match stack.layers[d].dep {
        Dep::Layer(dep) => dep,
        _ => {
            return Ok(());
        },
    };
    assert(m.prs.deep_view()[dep as int] == m.prs@[dep as int].deep_view());
    assert(m.prs.deep_view()[d as int] == m.prs@[d as int].deep_view());
    if landed[d] {
        return Ok(());
    }
    let direct = landed[dep];
    let root = if direct {
        trunk
    } else {
        match &m.prs[dep] {
            Some(below) => below.tip,
            None => {
                return Ok(());
            },
        }
    };
    let pr = match &m.prs[d] {
        Some(pr) => pr.duplicate(),
        None => {
            return Ok(());
        },
    };
    if pr.state != PrState::Open {
        put(&mut m.warnings, left_alone_text(pr.number));
        return Ok(());
    }
    match pr.anchor_tip {
        Some(old_root) => {
            if old_root == root {
                return Ok(());
            }
            move_layer(t, config, stack, direct, d, m, &pr, old_root, root)
        },
        None => Ok(()),
    }
}

/// How the landing of all layers stands.
#[verifier::ext_equal]
pub struct LandingView {
    /// The tip of the trunk.
    pub trunk: Oid,
    pub prs: Seq<Option<LayerPrView>>,
    pub landed: Seq<bool>,
    /// The merged branches that are still to be deleted.
    pub deletes: Seq<(u64, Seq<char>)>,
    pub outcomes: Seq<LandOutcomeView>,
    /// Why it went no further.
    pub stop: Option<Seq<char>>,
}

/// How the landing of all layers stands.
pub struct Landing {
    /// The tip of the trunk.
    pub trunk: Oid,
    pub prs: Vec<Option<LayerPr>>,
    pub landed: Vec<bool>,
    /// The merged branches that are still to be deleted.
    pub deletes: Vec<(u64, String)>,
    pub outcomes: Vec<LandOutcome>,
    /// Why it went no further.
    pub stop: Option<String>,
}

impl DeepView for Landing {
    type V = LandingView;

    open spec fn deep_view(&self) -> LandingView {
        LandingView {
            trunk: self.trunk,
            prs: self.prs.deep_view(),
            landed: self.landed@,
            deletes: self.deletes.deep_view(),
            outcomes: self.outcomes.deep_view(),
            stop: self.stop.deep_view(),
        }
    }
}

/// The state is one of a stack of `n` layers, and a layer has landed only if
/// there is an outcome.
pub open spec fn stands(st: LandingView, n: int) -> bool {
    &&& st.prs.len() == n
    &&& st.landed.len() == n
    &&& forall|k: int| 0 <= k < n && #[trigger] st.landed[k] ==> st.outcomes.len() > 0
}

/// The pushes with the deletions from the `k`th on added.
pub open spec fn with_deletes(specs: Seq<PushView>, deletes: Seq<(u64, Seq<char>)>, k: int) -> Seq<
    PushView,
>
    decreases deletes.len() - k,
{
    if k < 0 || k >= deletes.len() {
        specs
    } else {
        with_deletes(specs.push(landed_push(deletes[k].1, deletes[k].0)), deletes, k + 1)
    }
}

/// The references of the landed pull requests from the `k`th on dropped.
pub open spec fn forget_from(t: TapeView, deletes: Seq<(u64, Seq<char>)>, k: int) -> (
    TapeView,
    Result<(), HaltView>,
)
    decreases deletes.len() - k,
{
    if k < 0 || k >= deletes.len() {
        tape::done(t, ())
    } else {
        tape::bind(
            refs::removed(t, deletes[k].0),
            |t: TapeView, u: ()| forget_from(t, deletes, k + 1),
        )
    }
}

/// The last outcome with what a repair adds to it.
pub open spec fn with_mend(outcomes: Seq<LandOutcomeView>, m: MendView) -> Seq<LandOutcomeView> {
    let last = outcomes.last();
    outcomes.update(
        outcomes.len() - 1,
        LandOutcomeView {
            repaired: last.repaired + m.repaired,
            warnings: m.warnings,
            ..last
        },
    )
}

/// Every layer that did not land repaired, and every merged branch deleted, in
/// one push.
pub open spec fn remaining_repaired(t: TapeView, c: ConfigView, s: StackView, st: LandingView) -> (
    TapeView,
    Result<LandingView, HaltView>,
) {
    tape::bind(
        mend_from(
            t,
            c,
            s,
            st.landed,
            st.trunk,
            0,
            MendView {
                prs: st.prs,
                specs: Seq::empty(),
                recorded: Seq::empty(),
                repaired: Seq::empty(),
                warnings: st.outcomes.last().warnings,
            },
        ),
        |t: TapeView, m: MendView|
            tape::bind(
                tape::push_any(t, with_deletes(m.specs, st.deletes, 0)),
                |t: TapeView, u: ()|
                    tape::bind(
                        record_from(t, m.recorded, 0),
                        |t: TapeView, u: ()|
                            tape::bind(
                                forget_from(t, st.deletes, 0),
                                |t: TapeView, u: ()|
                                    tape::done(
                                        t,
                                        LandingView {
                                            prs: m.prs,
                                            deletes: Seq::empty(),
                                            outcomes: with_mend(st.outcomes, m),
                                            ..st
                                        },
                                    ),
                            ),
                    ),
            ),
    )
}

fn add_deletes(specs: &mut Vec<PushSpec>, deletes: &Vec<(u64, String)>)
    ensures
        final(specs).deep_view() == with_deletes(old(specs).deep_view(), deletes.deep_view(), 0),
{
    let mut k: usize = 0;
    while k < deletes.len()
        invariant
            k <= deletes@.len(),
            with_deletes(specs.deep_view(), deletes.deep_view(), k as int) == with_deletes(
                old(specs).deep_view(),
                deletes.deep_view(),
                0,
            ),
        decreases deletes@.len() - k,
    {
        assert(deletes.deep_view()[k as int] == deletes@[k as int].deep_view());
        put(specs, landed_spec(deletes[k].1.as_str(), deletes[k].0));
        k = k + 1;
    }
}

fn forget(t: &mut Tape, deletes: &Vec<(u64, String)>) -> (r: Result<(), Halt>)
    ensures
        (final(t)@, tape::outcome(r)) == forget_from(old(t)@, deletes.deep_view(), 0),
{
    let mut k: usize = 0;
    while k < deletes.len()
        invariant
            k <= deletes@.len(),
            forget_from(t@, deletes.deep_view(), k as int) == forget_from(
                old(t)@,
                deletes.deep_view(),
                0,
            ),
        decreases deletes@.len() - k,
    {
        assert(deletes.deep_view()[k as int] == deletes@[k as int].deep_view());
        refs::remove(t, deletes[k].0)?;
        k = k + 1;
    }
    Ok(())
}

fn extend(repairs: &mut Vec<Repair>, more: &Vec<Repair>)
    ensures
        final(repairs).deep_view() == old(repairs).deep_view() + more.deep_view(),
{
    let mut k: usize = 0;
    assert(repairs.deep_view() =~= old(repairs).deep_view() + more.deep_view().take(0));
    while k < more.len()
        invariant
            k <= more@.len(),
            repairs.deep_view() == old(repairs).deep_view() + more.deep_view().take(k as int),
        decreases more@.len() - k,
    {
        assert(more.deep_view()[k as int] == more@[k as int].deep_view());
        assert(more.deep_view().take(k + 1) =~= more.deep_view().take(k as int).push(
            more.deep_view()[k as int],
        ));
        put(repairs, more[k].duplicate());
        assert(repairs.deep_view() =~= old(repairs).deep_view() + more.deep_view().take(k + 1));
        k = k + 1;
    }
    assert(more.deep_view().take(k as int) =~= more.deep_view());
}

/// Repairs the layers that did not land and deletes the merged branches.
fn repair_remaining_dependents(t: &mut Tape, config: &Config, stack: &Stack, st: &mut Landing) -> (r:
    Result<(), Halt>)
    requires
        stack::well_formed(stack@),
        stands(old(st).deep_view(), stack@.layers.len() as int),
        old(st).outcomes@.len() > 0,
    ensures
        ({
            let spec = remaining_repaired(old(t)@, config@, stack@, old(st).deep_view());
            &&& final(t)@ == spec.0
            &&& match r {
                Ok(_) => spec.1 == Ok::<LandingView, HaltView>(final(st).deep_view()) && stands(
                    final(st).deep_view(),
                    stack@.layers.len() as int,
                ) && final(st).outcomes@.len() == old(st).outcomes@.len(),
                Err(h) => spec.1 == Err::<LandingView, HaltView>(h.deep_view()),
            }
        }),
{
    let ghost st0 = st.deep_view();
    let last: usize = st.outcomes.len() - 1;
    assert(st0.outcomes.last() == st.outcomes@[last as int].deep_view());
    let recorded: Vec<Recorded> = Vec::new();
    assert(recorded@ =~= Seq::<Recorded>::empty());
    let mut m = Mend {
        prs: st.prs.duplicate(),
        specs: nothing(),
        recorded,
        repaired: nothing(),
        warnings: st.outcomes[last].warnings.duplicate(),
    };
    let ghost m0 = m.deep_view();
    assert(st.prs.deep_view().len() == st.prs@.len());
    assert(m.prs.deep_view().len() == m.prs@.len());
    let n: usize = stack.layers.len();
    let mut d: usize = 0;
    while d < n
        invariant
            d <= n == stack@.layers.len(),
            m.prs@.len() == n,
            stack::well_formed(stack@),
            st.deep_view() == st0,
            *st == *old(st),
            st.landed@.len() == n,
            st0.landed == st.landed@,
            st0.trunk == st.trunk,
            mend_from(
                t@,
                config@,
                stack@,
                st0.landed,
                st0.trunk,
                d as int,
                m.deep_view(),
            ) == mend_from(old(t)@, config@, stack@, st0.landed, st0.trunk, 0, m0),
            m0 == (MendView {
                prs: st0.prs,
                specs: Seq::empty(),
                recorded: Seq::empty(),
                repaired: Seq::empty(),
                warnings: st0.outcomes.last().warnings,
            }),
        decreases n - d,
    {
        mend_layer(t, config, stack, &st.landed, st.trunk, d, &mut m)?;
        d = d + 1;
    }
    let mut specs = m.specs.duplicate();
    add_deletes(&mut specs, &st.deletes);
    t.push_if_any(&specs)?;
    record(t, &m.recorded)?;
    forget(t, &st.deletes)?;
    let mut outcome = st.outcomes[last].duplicate();
    extend(&mut outcome.repaired, &m.repaired);
    outcome.warnings = m.warnings.duplicate();
    replace(&mut st.outcomes, last, outcome);
    assert(st.outcomes.deep_view() == with_mend(st0.outcomes, m.deep_view()));
    st.prs = m.prs;
    st.deletes = nothing();
    Ok(())
}

/// Why the landing goes no further at a layer.
pub open spec fn stopped_at(number: u64, reason: Seq<char>) -> Seq<char> {
    "stopped at #"@ + text::decimal(number as nat) + ": "@ + reason
}

/// A layer that cannot land: a refusal as long as nothing has landed, and a
/// warning afterwards.
pub open spec fn held(t: TapeView, st: LandingView, number: u64, reason: Seq<char>) -> (
    TapeView,
    Result<LandingView, HaltView>,
) {
    if st.outcomes.len() == 0 {
        tape::refuse(t, reason)
    } else {
        tape::done(t, LandingView { stop: Some(stopped_at(number, reason)), ..st })
    }
}

fn hold(st: &mut Landing, number: u64, reason: &str) -> (r: Result<(), Halt>)
    ensures
        match r {
            Ok(_) => old(st).outcomes@.len() > 0 && final(st).deep_view() == (LandingView {
                stop: Some(stopped_at(number, reason@)),
                ..old(st).deep_view()
            }),
            Err(h) => old(st).outcomes@.len() == 0 && h.deep_view() == HaltView::Refused(reason@),
        },
{
    if st.outcomes.len() == 0 {
        return Err(Halt::Refused(reason.to_owned()));
    }
    let mut text = "stopped at #".to_owned();
    push_decimal(&mut text, number);
    text.append(": ");
    text.append(reason);
    st.stop = Some(text);
    Ok(())
}

/// A layer that is passed over, unless nothing has landed.
pub open spec fn passed(t: TapeView, st: LandingView, reason: Seq<char>) -> (
    TapeView,
    Result<LandingView, HaltView>,
) {
    if st.outcomes.len() == 0 {
        tape::refuse(t, reason)
    } else {
        tape::done(t, st)
    }
}

/// The pull requests of some layers, and those among them that got another
/// base.
#[verifier::ext_equal]
pub struct RebasedView {
    pub prs: Seq<Option<LayerPrView>>,
    pub moved: Seq<RetargetedView>,
}

/// The pull requests of some layers, and those among them that got another
/// base.
pub struct Rebased {
    pub prs: Vec<Option<LayerPr>>,
    pub moved: Vec<Retargeted>,
}

impl DeepView for Rebased {
    type V = RebasedView;

    open spec fn deep_view(&self) -> RebasedView {
        RebasedView { prs: self.prs.deep_view(), moved: self.moved.deep_view() }
    }
}

/// The open pull requests of the given layers from the `k`th on are based on
/// the trunk.
pub open spec fn onto_trunk_from(
    t: TapeView,
    c: ConfigView,
    layers: Seq<usize>,
    k: int,
    b: RebasedView,
) -> (TapeView, Result<RebasedView, HaltView>)
    decreases layers.len() - k,
{
    if k < 0 || k >= layers.len() {
        tape::done(t, b)
    } else {
        let i = layers[k];
        match b.prs[i as int] {
            Some(pr) => if pr.state == PrState::Open && pr.base != c.trunk {
                tape::bind(
                    tape::ask_unit(
                        t,
                        RequestView::UpdatePullRequest {
                            number: pr.number,
                            update: forge::base_update(c.trunk),
                        },
                    ),
                    |t: TapeView, u: ()|
                        onto_trunk_from(
                            t,
                            c,
                            layers,
                            k + 1,
                            RebasedView {
                                prs: b.prs.update(
                                    i as int,
                                    Some(LayerPrView { base: c.trunk, ..pr }),
                                ),
                                moved: b.moved.push(
                                    RetargetedView { layer: i, number: pr.number, base: pr.base },
                                ),
                            },
                        ),
                )
            } else {
                onto_trunk_from(t, c, layers, k + 1, b)
            },
            None => onto_trunk_from(t, c, layers, k + 1, b),
        }
    }
}

/// Every retargeted pull request is one of a stack of `n` layers.
pub open spec fn moved_within(moved: Seq<RetargetedView>, n: int) -> bool {
    forall|k: int| 0 <= k < moved.len() ==> (#[trigger] moved[k]).layer < n
}

fn retarget_onto_trunk(
    t: &mut Tape,
    config: &Config,
    layers: &Vec<usize>,
    prs: &Vec<Option<LayerPr>>,
) -> (r: Result<Rebased, Halt>)
    requires
        forall|m: int| 0 <= m < layers@.len() ==> (#[trigger] layers@[m]) < prs@.len(),
    ensures
        (final(t)@, tape::outcome(r)) == onto_trunk_from(
            old(t)@,
            config@,
            layers@,
            0,
            RebasedView { prs: prs.deep_view(), moved: Seq::empty() },
        ),
        r matches Ok(b) ==> b.prs@.len() == prs@.len() && moved_within(
            b.moved.deep_view(),
            prs@.len() as int,
        ),
{
    let mut b = Rebased { prs: prs.duplicate(), moved: nothing() };
    assert(b.prs.deep_view().len() == b.prs@.len());
    assert(prs.deep_view().len() == prs@.len());
    let mut k: usize = 0;
    while k < layers.len()
        invariant
            k <= layers@.len(),
            b.prs@.len() == prs@.len(),
            moved_within(b.moved.deep_view(), prs@.len() as int),
            forall|m: int| 0 <= m < layers@.len() ==> (#[trigger] layers@[m]) < prs@.len(),
            onto_trunk_from(t@, config@, layers@, k as int, b.deep_view()) == onto_trunk_from(
                old(t)@,
                config@,
                layers@,
                0,
                RebasedView { prs: prs.deep_view(), moved: Seq::empty() },
            ),
        decreases layers@.len() - k,
    {
        let i: usize = layers[k];
        assert(b.prs.deep_view()[i as int] == b.prs@[i as int].deep_view());
        let pr = b.prs[i].duplicate();
        match pr {
            Some(pr) => {
                if pr.state == PrState::Open && !same(pr.base.as_str(), config.trunk.as_str()) {
                    let number = pr.number;
                    t.unit(
                        Request::UpdatePullRequest {
                            number,
                            update: PullRequestUpdate::to_base(config.trunk.as_str()),
                        },
                    )?;
                    let old_base = pr.base.clone();
                    let mut now = pr;
                    now.base = config.trunk.clone();
                    replace(&mut b.prs, i, Some(now));
                    put(&mut b.moved, Retargeted { layer: i, number, base: old_base });
                }
            },
            None => {},
        }
        k = k + 1;
    }
    Ok(b)
}

/// The pull requests with the bases that those from the `k`th on had before.
pub open spec fn restored(
    prs: Seq<Option<LayerPrView>>,
    moved: Seq<RetargetedView>,
    k: int,
) -> Seq<Option<LayerPrView>>
    decreases moved.len() - k,
{
    if k < 0 || k >= moved.len() {
        prs
    } else {
        let i = moved[k].layer as int;
        restored(
            match prs[i] {
                Some(pr) => prs.update(i, Some(LayerPrView { base: moved[k].base, ..pr })),
                None => prs,
            },
            moved,
            k + 1,
        )
    }
}

fn restore(prs: &mut Vec<Option<LayerPr>>, moved: &Vec<Retargeted>)
    requires
        moved_within(moved.deep_view(), old(prs)@.len() as int),
    ensures
        final(prs).deep_view() == restored(old(prs).deep_view(), moved.deep_view(), 0),
        final(prs)@.len() == old(prs)@.len(),
{
    let mut k: usize = 0;
    while k < moved.len()
        invariant
            k <= moved@.len(),
            prs@.len() == old(prs)@.len(),
            moved_within(moved.deep_view(), prs@.len() as int),
            restored(prs.deep_view(), moved.deep_view(), k as int) == restored(
                old(prs).deep_view(),
                moved.deep_view(),
                0,
            ),
        decreases moved@.len() - k,
    {
        assert(moved.deep_view()[k as int] == moved@[k as int].deep_view());
        let i: usize = moved[k].layer;
        assert(prs.deep_view()[i as int] == prs@[i as int].deep_view());
        match prs[i].duplicate() {
            Some(pr) => {
                let mut now = pr;
                now.base = moved[k].base.clone();
                replace(prs, i, Some(now));
            },
            None => {},
        }
        k = k + 1;
    }
}

/// The state after a layer has landed.
pub open spec fn with_landed(
    st: LandingView,
    prs: Seq<Option<LayerPrView>>,
    i: int,
    pr: LayerPrView,
    title: Seq<char>,
    squash: Oid,
) -> LandingView {
    LandingView {
        trunk: squash,
        prs: match prs[i] {
            Some(now) => prs.update(i, Some(LayerPrView { state: PrState::Merged, ..now })),
            None => prs,
        },
        landed: st.landed.update(i, true),
        deletes: st.deletes.push((pr.number, pr.branch)),
        outcomes: st.outcomes.push(
            LandOutcomeView {
                number: pr.number,
                title,
                squash,
                repaired: Seq::empty(),
                warnings: Seq::empty(),
            },
        ),
        stop: st.stop,
    }
}

/// Layer `i`, which is known to be what was reviewed, and its direct dependents
/// based on the trunk, and the layer merged.
pub open spec fn land_one(
    t: TapeView,
    c: ConfigView,
    s: StackView,
    opts: LandOptionsView,
    i: int,
    st: LandingView,
) -> (TapeView, Result<LandingView, HaltView>) {
    match st.prs[i] {
        None => tape::done(t, st),
        Some(pr) => {
            let m = s.layers[i].message;
            let title = squash_title(m.subject, pr.number);
            tape::bind(
                onto_trunk_from(
                    t,
                    c,
                    seq![i as usize] + stack::direct_dependents(s, i as usize),
                    0,
                    RebasedView { prs: st.prs, moved: Seq::empty() },
                ),
                |t: TapeView, b: RebasedView|
                    tape::bind(
                        merge_asked(
                            t,
                            pr.number,
                            SquashView {
                                title,
                                message: squash_body(m, opts.message),
                                expected_head: pr.tip,
                            },
                        ),
                        |t: TapeView, merged: MergedView|
                            match merged {
                                MergedView::Failed(reason) => tape::bind(
                                    rolled_back(t, b.moved, 0),
                                    |t: TapeView, u: ()|
                                        merge_failed(
                                            t,
                                            LandingView { prs: restored(b.prs, b.moved, 0), ..st },
                                            pr.number,
                                            reason,
                                        ),
                                ),
                                MergedView::Squash(squash) => tape::bind(
                                    tape::ask_unit(t, RequestView::FetchCommit { commit: squash }),
                                    |t: TapeView, u: ()|
                                        tape::done(
                                            t,
                                            with_landed(st, b.prs, i, pr, title, squash),
                                        ),
                                ),
                            },
                    ),
            )
        },
    }
}

/// A layer that the forge did not merge.
pub open spec fn merge_failed(t: TapeView, st: LandingView, number: u64, reason: Seq<char>) -> (
    TapeView,
    Result<LandingView, HaltView>,
) {
    if st.outcomes.len() == 0 {
        tape::refuse(t, could_not_merge(number, reason))
    } else {
        tape::done(t, LandingView { stop: Some(stopped_at(number, reason)), ..st })
    }
}

fn merge_layer(
    t: &mut Tape,
    config: &Config,
    stack: &Stack,
    opts: &LandOptions,
    i: usize,
    st: &mut Landing,
) -> (r: Result<(), Halt>)
    requires
        i < stack@.layers.len(),
        stands(old(st).deep_view(), stack@.layers.len() as int),
        old(st).prs@[i as int] is Some,
    ensures
        ({
            let spec = land_one(
                old(t)@,
                config@,
                stack@,
                opts@,
                i as int,
                old(st).deep_view(),
            );
            &&& final(t)@ == spec.0
            &&& match r {
                Ok(_) => spec.1 == Ok::<LandingView, HaltView>(final(st).deep_view()) && stands(
                    final(st).deep_view(),
                    stack@.layers.len() as int,
                ) && final(st).outcomes@.len() > 0,
                Err(h) => spec.1 == Err::<LandingView, HaltView>(h.deep_view()),
            }
        }),
{
    let ghost st0 = st.deep_view();
    let n: usize = stack.layers.len();
    assert(stack@.layers.len() == n);
    assert(st.prs.deep_view().len() == st.prs@.len());
    assert(st0.prs[i as int] == st.prs@[i as int].deep_view());
    let layer = &stack.layers[i];
    assert(stack@.layers[i as int] == layer.deep_view());
    let pr = match &st.prs[i] {
        Some(pr) => pr.duplicate(),
        None => {
            return Ok(());
        },
    };
    let mut layers: Vec<usize> = Vec::new();
    layers.push(i);
    let mut direct = stack.direct_dependents_of(i);
    layers.append(&mut direct);
    assert(layers@ =~= seq![i] + stack::direct_dependents(stack@, i));
    let b = retarget_onto_trunk(t, config, &layers, &st.prs)?;
    let (title, message) = squash_message(layer, pr.number, opts);
    let merge = SquashMerge { title: title.clone(), message, expected_head: pr.tip };
    match ask_merge(t, pr.number, merge)? {
        Merged::Failed(reason) => {
            rollback(t, &b.moved)?;
            let mut prs = b.prs;
            restore(&mut prs, &b.moved);
            st.prs = prs;
            assert(st.outcomes.deep_view().len() == st.outcomes@.len());
            assert(st.prs.deep_view().len() == st.prs@.len());
            if st.outcomes.len() == 0 {
                return Err(
                    Halt::Refused(could_not_merge_text(pr.number, reason.as_str())),
                );
            }
            hold(st, pr.number, reason.as_str())?;
            assert(st.outcomes.deep_view().len() == st.outcomes@.len());
            Ok(())
        },
        Merged::Squash(squash) => {
            t.unit(Request::FetchCommit { commit: squash })?;
            let mut prs = b.prs;
            assert(prs.deep_view()[i as int] == prs@[i as int].deep_view());
            match prs[i].duplicate() {
                Some(now) => {
                    let mut now = now;
                    now.state = PrState::Merged;
                    replace(&mut prs, i, Some(now));
                },
                None => {},
            }
            assert(prs.deep_view().len() == prs@.len());
            st.prs = prs;
            st.landed.set(i, true);
            st.trunk = squash;
            put(&mut st.deletes, (pr.number, pr.branch));
            let outcome = LandOutcome {
                number: pr.number,
                title,
                squash,
                repaired: nothing(),
                warnings: nothing(),
            };
            put(&mut st.outcomes, outcome);
            Ok(())
        },
    }
}

/// The branch holds the reviewed patch relative to what it was anchored on, and
/// differs from the trunk only because of what landed below it.
pub open spec fn reanchors(t: TapeView, s: StackView, i: int, pr: LayerPrView, trunk: Oid, tree: Oid) -> (
    TapeView,
    Result<bool, HaltView>,
) {
    if s.layers[i].dep is Layer && pr.anchor_tip is Some {
        tape::bind(
            tape::ask_object(t, RequestView::MergeBase { a: pr.anchor_tip->0, b: pr.tip }),
            |t: TapeView, old_base: Oid|
                tape::bind(
                    tape::ask_object(t, RequestView::TreeOf { commit: old_base }),
                    |t: TapeView, base: Oid|
                        tape::bind(
                            tape::ask_object(t, RequestView::TreeOf { commit: trunk }),
                            |t: TapeView, ours: Oid|
                                tape::bind(
                                    tape::ask_object(t, RequestView::TreeOf { commit: pr.tip }),
                                    |t: TapeView, theirs: Oid|
                                        tape::bind(
                                            tape::ask_merge(
                                                t,
                                                RequestView::MergeTrees { base, ours, theirs },
                                            ),
                                            |t: TapeView, merge: MergeView|
                                                tape::done(t, merge == MergeView::Clean(tree)),
                                        ),
                                ),
                        ),
                ),
        )
    } else {
        tape::done(t, false)
    }
}

fn may_reanchor(t: &mut Tape, stack: &Stack, i: usize, pr: &LayerPr, trunk: Oid, tree: Oid) -> (r:
    Result<bool, Halt>)
    requires
        i < stack@.layers.len(),
    ensures
        (final(t)@, tape::outcome(r)) == reanchors(
            old(t)@,
            stack@,
            i as int,
            pr.deep_view(),
            trunk,
            tree,
        ),
        r == Ok::<bool, Halt>(true) ==> stack@.layers[i as int].dep is Layer,
{
    assert(stack@.layers[i as int] == stack.layers@[i as int].deep_view());
    match stack.layers[i].dep {
        Dep::Layer(_) => {},
        _ => {
            return Ok(false);
        },
    }
    match pr.anchor_tip {
        None => Ok(false),
        Some(anchor) => {
            let old_base = t.object(Request::MergeBase { a: anchor, b: pr.tip })?;
            let base = t.object(Request::TreeOf { commit: old_base })?;
            let ours = t.object(Request::TreeOf { commit: trunk })?;
            let theirs = t.object(Request::TreeOf { commit: pr.tip })?;
            let merge = t.merge(Request::MergeTrees { base, ours, theirs })?;
            Ok(comes_to(&merge, tree))
        },
    }
}

/// The state with another tip for layer `i`.
pub open spec fn with_tip(st: LandingView, i: int, tip: Oid) -> LandingView {
    match st.prs[i] {
        Some(pr) => LandingView {
            prs: st.prs.update(i, Some(LayerPrView { tip, ..pr })),
            ..st
        },
        None => st,
    }
}

/// What is below layer `i` is brought up to date before it lands.
pub open spec fn land_repaired(
    t: TapeView,
    c: ConfigView,
    s: StackView,
    opts: LandOptionsView,
    i: int,
    st: LandingView,
    number: u64,
) -> (TapeView, Result<LandingView, HaltView>) {
    tape::bind(
        remaining_repaired(t, c, s, st),
        |t: TapeView, st: LandingView|
            tape::bind(
                synced_pr(t, number, true),
                |t: TapeView, pr: PrView| land_one(t, c, s, opts, i, with_tip(st, i, pr.head_oid)),
            ),
    )
}

/// Layer `i`, which may land as far as its pull request goes.
pub open spec fn land_ready(
    t: TapeView,
    c: ConfigView,
    s: StackView,
    opts: LandOptionsView,
    i: int,
    st: LandingView,
    pr: LayerPrView,
) -> (TapeView, Result<LandingView, HaltView>) {
    tape::bind(
        tape::ask_merge(
            t,
            RequestView::CherryPick {
                commit: s.layers[i].commit,
                onto: st.trunk,
                first_parent: false,
            },
        ),
        |t: TapeView, picked: MergeView|
            match picked {
                MergeView::Conflicts(_) => held(t, st, pr.number, NO_LONGER_APPLIES@),
                MergeView::Clean(tree) => tape::bind(
                    tape::ask_merge(
                        t,
                        RequestView::MergeCommits { ours: st.trunk, theirs: pr.tip },
                    ),
                    |t: TapeView, merged: MergeView|
                        if merged == MergeView::Clean(tree) {
                            land_one(t, c, s, opts, i, st)
                        } else {
                            tape::bind(
                                reanchors(t, s, i, pr, st.trunk, tree),
                                |t: TapeView, ok: bool|
                                    if ok {
                                        land_repaired(t, c, s, opts, i, st, pr.number)
                                    } else {
                                        held(t, st, pr.number, NOT_REVIEWED@)
                                    },
                            )
                        },
                ),
            },
    )
}

/// What layer `i` depends on is on the trunk.
pub open spec fn dep_landed(s: StackView, landed: Seq<bool>, i: int) -> bool {
    match s.layers[i].dep {
        Dep::Main => true,
        Dep::Layer(dep) => landed[dep as int],
        Dep::ExternalPr(_) => false,
    }
}

/// The turn of layer `i`.
pub open spec fn land_next(
    t: TapeView,
    c: ConfigView,
    s: StackView,
    opts: LandOptionsView,
    i: int,
    st: LandingView,
) -> (TapeView, Result<LandingView, HaltView>) {
    if !dep_landed(s, st.landed, i) {
        tape::done(t, st)
    } else {
        match st.prs[i] {
            None => passed(t, st, no_pr_yet(s.layers[i].message.subject)),
            Some(pr) => match not_landable(pr.number, pr.state, pr.draft) {
                Some(reason) => passed(t, st, reason),
                None => land_ready(t, c, s, opts, i, st, pr),
            },
        }
    }
}

/// The turns of the layers from `i` on.
pub open spec fn land_from(
    t: TapeView,
    c: ConfigView,
    s: StackView,
    opts: LandOptionsView,
    i: int,
    st: LandingView,
) -> (TapeView, Result<LandingView, HaltView>)
    decreases s.layers.len() - i,
{
    if i < 0 || i >= s.layers.len() {
        tape::done(t, st)
    } else {
        tape::bind(
            land_next(t, c, s, opts, i, st),
            |t: TapeView, st: LandingView| land_from(t, c, s, opts, i + 1, st),
        )
    }
}

fn take_turn(
    t: &mut Tape,
    config: &Config,
    stack: &Stack,
    opts: &LandOptions,
    i: usize,
    st: &mut Landing,
) -> (r: Result<(), Halt>)
    requires
        i < stack@.layers.len(),
        stack::well_formed(stack@),
        stands(old(st).deep_view(), stack@.layers.len() as int),
    ensures
        ({
            let spec = land_next(
                old(t)@,
                config@,
                stack@,
                opts@,
                i as int,
                old(st).deep_view(),
            );
            &&& final(t)@ == spec.0
            &&& match r {
                Ok(_) => {
                    &&& spec.1 == Ok::<LandingView, HaltView>(final(st).deep_view())
                    &&& stands(final(st).deep_view(), stack@.layers.len() as int)
                    &&& old(st).outcomes@.len() > 0 ==> final(st).outcomes@.len() > 0
                    &&& stack@.layers[i as int].dep == Dep::Main ==> final(st).outcomes@.len() > 0
                },
                Err(h) => spec.1 == Err::<LandingView, HaltView>(h.deep_view()),
            }
        }),
{
    let ghost st0 = st.deep_view();
    let layer = &stack.layers[i];
    assert(stack@.layers[i as int] == layer.deep_view());
    assert(st.prs.deep_view().len() == st.prs@.len());
    assert(st.outcomes.deep_view().len() == st.outcomes@.len());
    let ready = match layer.dep {
        Dep::Main => true,
        Dep::Layer(dep) => st.landed[dep],
        Dep::ExternalPr(_) => false,
    };
    if !ready {
        return Ok(());
    }
    assert(st0.prs[i as int] == st.prs@[i as int].deep_view());
    let pr = match &st.prs[i] {
        Some(pr) => pr.duplicate(),
        None => {
            if st.outcomes.len() == 0 {
                return Err(Halt::Refused(no_pr_yet_text(layer)));
            }
            return Ok(());
        },
    };
    match why_not_landable(pr.number, pr.state, pr.draft) {
        Some(reason) => {
            if st.outcomes.len() == 0 {
                return Err(Halt::Refused(reason));
            }
            return Ok(());
        },
        None => {},
    }
    let picked = t.merge(
        Request::CherryPick { commit: layer.commit, onto: st.trunk, first_parent: false },
    )?;
    let tree = match picked {
        Merge::Conflicts(_) => {
            hold(st, pr.number, NO_LONGER_APPLIES)?;
            assert(st.outcomes.deep_view().len() == st.outcomes@.len());
            return Ok(());
        },
        Merge::Clean(tree) => tree,
    };
    let merged = t.merge(Request::MergeCommits { ours: st.trunk, theirs: pr.tip })?;
    if !comes_to(&merged, tree) {
        if !may_reanchor(t, stack, i, &pr, st.trunk, tree)? {
            hold(st, pr.number, NOT_REVIEWED)?;
            assert(st.outcomes.deep_view().len() == st.outcomes@.len());
            return Ok(());
        }
        return land_after_repair(t, config, stack, opts, i, st, pr.number);
    }
    merge_layer(t, config, stack, opts, i, st)
}

fn land_after_repair(
    t: &mut Tape,
    config: &Config,
    stack: &Stack,
    opts: &LandOptions,
    i: usize,
    st: &mut Landing,
    number: u64,
) -> (r: Result<(), Halt>)
    requires
        i < stack@.layers.len(),
        stack::well_formed(stack@),
        stands(old(st).deep_view(), stack@.layers.len() as int),
        old(st).outcomes@.len() > 0,
    ensures
        ({
            let spec = land_repaired(
                old(t)@,
                config@,
                stack@,
                opts@,
                i as int,
                old(st).deep_view(),
                number,
            );
            &&& final(t)@ == spec.0
            &&& match r {
                Ok(_) => spec.1 == Ok::<LandingView, HaltView>(final(st).deep_view()) && stands(
                    final(st).deep_view(),
                    stack@.layers.len() as int,
                ) && final(st).outcomes@.len() > 0,
                Err(h) => spec.1 == Err::<LandingView, HaltView>(h.deep_view()),
            }
        }),
{
    repair_remaining_dependents(t, config, stack, st)?;
    let pr = get_synced_pull_request(t, number, true)?;
    assert(st.prs.deep_view().len() == st.prs@.len());
    assert(st.prs.deep_view()[i as int] == st.prs@[i as int].deep_view());
    match st.prs[i].duplicate() {
        Some(now) => {
            let mut now = now;
            now.tip = pr.head_oid;
            replace(&mut st.prs, i, Some(now));
            assert(st.prs@[i as int] is Some);
            merge_layer(t, config, stack, opts, i, st)
        },
        None => Ok(()),
    }
}

/// What a failure to rebase the local stack after all landings is called.
pub const ALL_LANDED: &'static str =
    "pull requests landed, but the local stack could not be rebased onto the trunk. Run `git rebase --onto <trunk>` manually, then `nspr sync`.";

/// The last outcome with the reason why the landing went no further.
pub open spec fn with_stop(outcomes: Seq<LandOutcomeView>, stop: Option<Seq<char>>) -> Seq<
    LandOutcomeView,
> {
    let last = outcomes.last();
    outcomes.update(
        outcomes.len() - 1,
        LandOutcomeView { warnings: guardrails::with_note(last.warnings, stop), ..last },
    )
}

/// What did not land is repaired once onto the final squash commit.
pub open spec fn all_concluded(
    t: TapeView,
    c: ConfigView,
    s: StackView,
    opts: LandOptionsView,
    st: LandingView,
) -> (TapeView, Result<Seq<LandOutcomeView>, HaltView>) {
    tape::bind(
        remaining_repaired(t, c, s, st),
        |t: TapeView, st: LandingView|
            {
                let outcomes = with_stop(st.outcomes, st.stop);
                if opts.keep_local {
                    tape::done(t, outcomes)
                } else {
                    tape::bind(
                        tidied(t, s, st.landed, st.trunk, ALL_LANDED@),
                        |t: TapeView, rebased: Seq<Oid>| tape::done(t, outcomes),
                    )
                }
            },
    )
}

fn conclude_all(t: &mut Tape, config: &Config, stack: &Stack, opts: &LandOptions, st: Landing) -> (r:
    Result<Vec<LandOutcome>, Halt>)
    requires
        stack::well_formed(stack@),
        stands(st.deep_view(), stack@.layers.len() as int),
        st.outcomes@.len() > 0,
    ensures
        (final(t)@, tape::outcome(r)) == all_concluded(
            old(t)@,
            config@,
            stack@,
            opts@,
            st.deep_view(),
        ),
        r matches Ok(outcomes) ==> outcomes@.len() > 0,
{
    let mut st = st;
    repair_remaining_dependents(t, config, stack, &mut st)?;
    let ghost before = st.outcomes.deep_view();
    let last: usize = st.outcomes.len() - 1;
    assert(before.last() == st.outcomes@[last as int].deep_view());
    let mut outcome = st.outcomes[last].duplicate();
    note(&mut outcome.warnings, st.stop.duplicate());
    let mut outcomes = st.outcomes;
    replace(&mut outcomes, last, outcome);
    assert(outcomes.deep_view() == with_stop(before, st.stop.deep_view()));
    if !opts.keep_local {
        let _ = tidy(t, stack, &st.landed, st.trunk, ALL_LANDED)?;
    }
    Ok(outcomes)
}

/// Nothing has landed yet.
pub open spec fn landing_start(s: StackView, trunk: Oid, prs: Seq<Option<LayerPrView>>) -> LandingView {
    LandingView {
        trunk,
        prs,
        landed: Seq::new(s.layers.len(), |i: int| false),
        deletes: Seq::empty(),
        outcomes: Seq::empty(),
        stop: None,
    }
}

/// All ready layers landed, one after the other.
pub open spec fn run_landed(t: TapeView, c: ConfigView, s: StackView, opts: LandOptionsView) -> (
    TapeView,
    Result<Seq<LandOutcomeView>, HaltView>,
) {
    tape::bind(
        trunk_tip(t, c),
        |t: TapeView, trunk: Oid|
            tape::bind(
                survey_from(t, c, s, 0, Seq::empty()),
                |t: TapeView, prs: Seq<Option<LayerPrView>>|
                    tape::bind(
                        land_from(t, c, s, opts, 0, landing_start(s, trunk, prs)),
                        |t: TapeView, st: LandingView| all_concluded(t, c, s, opts, st),
                    ),
            ),
    )
}

/// All ready layers landed from the bottom up.
pub open spec fn all_landed(t: TapeView, c: ConfigView, s: StackView, opts: LandOptionsView) -> (
    TapeView,
    Result<Seq<LandOutcomeView>, HaltView>,
) {
    tape::bind(
        tape::ask_unit(t, RequestView::CheckClean),
        |t: TapeView, u: ()|
            tape::bind(
                upgrade::legacy_rejected(t, c, s),
                |t: TapeView, u: ()|
                    if s.layers.len() == 0 {
                        tape::refuse(
                            t,
                            "nothing to land: no commits ahead of `"@ + c.trunk + "`"@,
                        )
                    } else if landable_from(s, 0) is None {
                        tape::bind(
                            layer_landed(t, c, s, 0, opts),
                            |t: TapeView, outcome: LandOutcomeView| tape::done(t, seq![outcome]),
                        )
                    } else {
                        run_landed(t, c, s, opts)
                    },
            ),
    )
}

/// Squash-merges all ready layers from the bottom up, preserving their existing
/// head commits (and green checks) whenever the forge can merge them cleanly
/// into the trunk, and only repairing any remaining unmerged layers once at the
/// end.
pub fn land_all(t: &mut Tape, config: &Config, stack: &Stack, opts: &LandOptions) -> (r: Result<
    Vec<LandOutcome>,
    Halt,
>)
    requires
        stack::well_formed(stack@),
    ensures
        (final(t)@, tape::outcome(r)) == all_landed(old(t)@, config@, stack@, opts@),
        r matches Ok(outcomes) ==> outcomes@.len() > 0,
{
    t.unit(Request::CheckClean)?;
    reject_if_legacy_spr(t, config, stack)?;
    assert(stack@.layers.len() == stack.layers@.len());
    if stack.layers.len() == 0 {
        let mut reason = "nothing to land: no commits ahead of `".to_owned();
        reason.append(config.trunk.as_str());
        reason.append("`");
        return Err(Halt::Refused(reason));
    }
    let first: usize = match next_landable(stack) {
        None => {
            let outcome = land_layer(t, config, stack, 0, opts)?;
            let mut outcomes: Vec<LandOutcome> = nothing();
            put(&mut outcomes, outcome);
            assert(outcomes.deep_view() =~= seq![outcome.deep_view()]);
            return Ok(outcomes);
        },
        Some(first) => first,
    };
    let ghost t1 = t@;
    let trunk = fetch_trunk(t, config)?;
    let prs = survey(t, config, stack)?;
    let n: usize = stack.layers.len();
    let mut landed: Vec<bool> = Vec::new();
    let mut k: usize = 0;
    while k < n
        invariant
            k <= n,
            landed@.len() == k,
            forall|m: int| 0 <= m < k ==> !(#[trigger] landed@[m]),
        decreases n - k,
    {
        landed.push(false);
        k = k + 1;
    }
    assert(landed@ =~= Seq::new(stack@.layers.len(), |i: int| false));
    assert(prs.deep_view().len() == prs@.len());
    let mut st = Landing {
        trunk,
        prs,
        landed,
        deletes: nothing(),
        outcomes: nothing(),
        stop: None,
    };
    let ghost start = st.deep_view();
    let ghost t2 = t@;
    assert(start == landing_start(stack@, trunk, prs.deep_view()));
    let mut i: usize = 0;
    while i < n
        invariant
            i <= n == stack@.layers.len(),
            stack::well_formed(stack@),
            stands(st.deep_view(), n as int),
            st.outcomes@.len() == 0 ==> forall|m: int|
                0 <= m < i ==> (#[trigger] stack@.layers[m]).dep != Dep::Main,
            land_from(t@, config@, stack@, opts@, i as int, st.deep_view()) == land_from(
                t2,
                config@,
                stack@,
                opts@,
                0,
                start,
            ),
            land_from(t2, config@, stack@, opts@, 0, start).1 matches Err(h) ==> all_landed(
                old(t)@,
                config@,
                stack@,
                opts@,
            ) == (
                land_from(t2, config@, stack@, opts@, 0, start).0,
                Err::<Seq<LandOutcomeView>, HaltView>(h),
            ),
        decreases n - i,
    {
        take_turn(t, config, stack, opts, i, &mut st)?;
        i = i + 1;
    }
    assert(st.outcomes@.len() > 0) by {
        if st.outcomes@.len() == 0 {
            assert(stack@.layers[first as int].dep == Dep::Main);
        }
    }
    conclude_all(t, config, stack, opts, st)
}

pub broadcast proof fn lemma_caught_up_only(
    from: TapeView,
    t: TapeView,
    number: u64,
    recorded: Oid,
    pr: PrView,
    k: int,
    allowed: spec_fn(RequestView) -> bool,
)
    requires
        #[trigger] tape::only(from, t, allowed),
        tape::may_look(allowed),
    ensures
        tape::only(from, (#[trigger] caught_up(t, number, recorded, pr, k)).0, allowed),
    decreases ATTEMPTS - k,
{
    broadcast use tape::lemma_only_ask;

    if k < ATTEMPTS {
        let (t1, r) = tape::ask_unit(t, RequestView::Sleep { millis: delay(k) });
        if r is Ok {
            let (t2, again) = tape::ask_pr(t1, RequestView::GetPullRequest { number });
            if again is Ok {
                lemma_caught_up_only(from, t2, number, recorded, again->Ok_0, k + 1, allowed);
            }
        }
    }
}

pub broadcast proof fn lemma_with_head_only(
    from: TapeView,
    t: TapeView,
    pr: PrView,
    allowed: spec_fn(RequestView) -> bool,
)
    requires
        #[trigger] tape::only(from, t, allowed),
        tape::may_look(allowed),
    ensures
        tape::only(from, (#[trigger] with_head(t, pr)).0, allowed),
{
    broadcast use tape::lemma_only_ask;

}

pub broadcast proof fn lemma_synced_pr_only(
    from: TapeView,
    t: TapeView,
    number: u64,
    wait: bool,
    allowed: spec_fn(RequestView) -> bool,
)
    requires
        #[trigger] tape::only(from, t, allowed),
        tape::may_look(allowed),
    ensures
        tape::only(from, (#[trigger] synced_pr(t, number, wait)).0, allowed),
{
    broadcast use {tape::lemma_only_ask, lemma_caught_up_only, lemma_with_head_only};

}

pub broadcast proof fn lemma_trunk_tip_only(
    from: TapeView,
    t: TapeView,
    c: ConfigView,
    allowed: spec_fn(RequestView) -> bool,
)
    requires
        #[trigger] tape::only(from, t, allowed),
        tape::may_look(allowed),
    ensures
        tape::only(from, (#[trigger] trunk_tip(t, c)).0, allowed),
{
    broadcast use tape::lemma_only_ask;

}

pub broadcast proof fn lemma_reviewed_only(
    from: TapeView,
    t: TapeView,
    commit: Oid,
    trunk: Oid,
    head: Oid,
    allowed: spec_fn(RequestView) -> bool,
)
    requires
        #[trigger] tape::only(from, t, allowed),
        tape::may_look(allowed),
    ensures
        tape::only(from, (#[trigger] reviewed(t, commit, trunk, head)).0, allowed),
{
    broadcast use tape::lemma_only_ask;

}

pub broadcast proof fn lemma_snapshot_from_only(
    from: TapeView,
    t: TapeView,
    c: ConfigView,
    s: StackView,
    layers: Seq<usize>,
    k: int,
    snap: SnapshotView,
    allowed: spec_fn(RequestView) -> bool,
)
    requires
        #[trigger] tape::only(from, t, allowed),
        tape::may_look(allowed),
    ensures
        tape::only(from, (#[trigger] snapshot_from(t, c, s, layers, k, snap)).0, allowed),
    decreases layers.len() - k,
{
    broadcast use {tape::lemma_only_ask, lemma_synced_pr_only};

    if 0 <= k < layers.len() {
        let layer = s.layers[layers[k] as int];
        match layer.pr {
            None => {},
            Some(number) => {
                let (t1, pr) = synced_pr(t, number, false);
                if pr is Ok {
                    lemma_snapshot_from_only(
                        from,
                        t1,
                        c,
                        s,
                        layers,
                        k + 1,
                        with_dependent(c, layers[k], number, pr->Ok_0, snap),
                        allowed,
                    );
                }
            },
        }
    }
}

pub broadcast proof fn lemma_moved_tip_only(
    from: TapeView,
    t: TapeView,
    number: u64,
    message: Seq<char>,
    tip: Oid,
    old_root: Oid,
    new_root: Oid,
    revisions: Seq<Oid>,
    allowed: spec_fn(RequestView) -> bool,
)
    requires
        #[trigger] tape::only(from, t, allowed),
        tape::may_look(allowed),
    ensures
        tape::only(from, (#[trigger] moved_tip(t, number, message, tip, old_root, new_root, revisions)).0, allowed),
{
    broadcast use {tape::lemma_only_ask, history::group_history_only, history::lemma_collapsed_only};

}

pub broadcast proof fn lemma_carried_only(
    from: TapeView,
    t: TapeView,
    number: u64,
    message: Seq<char>,
    tip: Oid,
    old_root: Oid,
    new_root: Oid,
    allowed: spec_fn(RequestView) -> bool,
)
    requires
        #[trigger] tape::only(from, t, allowed),
        tape::may_look(allowed),
    ensures
        tape::only(from, (#[trigger] carried(t, number, message, tip, old_root, new_root)).0, allowed),
{
    broadcast use {tape::lemma_only_ask, history::group_history_only, history::lemma_collapsed_only, lemma_moved_tip_only};

}

pub broadcast proof fn lemma_rolled_back_only(
    from: TapeView,
    t: TapeView,
    moved: Seq<RetargetedView>,
    k: int,
    allowed: spec_fn(RequestView) -> bool,
)
    requires
        #[trigger] tape::only(from, t, allowed),
        tape::may_do_all_but_push_and_merge(allowed),
    ensures
        tape::only(from, (#[trigger] rolled_back(t, moved, k)).0, allowed),
    decreases moved.len() - k,
{
    broadcast use tape::lemma_only_ask;

    assert(tape::may_look(allowed));
    if 0 <= k < moved.len() {
        let (t1, r) = tape::ask_unit(
            t,
            RequestView::TryUpdatePullRequest {
                number: moved[k].number,
                update: forge::base_update(moved[k].base),
            },
        );
        if r is Ok {
            lemma_rolled_back_only(from, t1, moved, k + 1, allowed);
        }
    }
}

pub broadcast proof fn lemma_retarget_from_only(
    from: TapeView,
    t: TapeView,
    c: ConfigView,
    s: StackView,
    index: usize,
    dependents: Seq<DependentView>,
    k: int,
    moved: Seq<RetargetedView>,
    allowed: spec_fn(RequestView) -> bool,
)
    requires
        #[trigger] tape::only(from, t, allowed),
        tape::may_do_all_but_push_and_merge(allowed),
    ensures
        tape::only(from, (#[trigger] retarget_from(t, c, s, index, dependents, k, moved)).0, allowed),
    decreases dependents.len() - k,
{
    broadcast use tape::lemma_only_ask;

    assert(tape::may_look(allowed));
    if 0 <= k < dependents.len() {
        let d = dependents[k];
        if s.layers[d.layer as int].dep != Dep::Layer(index) || d.base == c.trunk {
            lemma_retarget_from_only(from, t, c, s, index, dependents, k + 1, moved, allowed);
        } else {
            let (t1, r) = tape::ask_unit(
                t,
                RequestView::UpdatePullRequest {
                    number: d.number,
                    update: forge::base_update(c.trunk),
                },
            );
            if r is Ok {
                lemma_retarget_from_only(
                    from,
                    t1,
                    c,
                    s,
                    index,
                    dependents,
                    k + 1,
                    moved.push(RetargetedView { layer: d.layer, number: d.number, base: d.base }),
                    allowed,
                );
            }
        }
    }
}

pub broadcast proof fn lemma_repair_from_only(
    from: TapeView,
    t: TapeView,
    s: StackView,
    index: usize,
    landing: u64,
    dependents: Seq<DependentView>,
    k: int,
    run: RepairsView,
    allowed: spec_fn(RequestView) -> bool,
)
    requires
        #[trigger] tape::only(from, t, allowed),
        tape::may_look(allowed),
    ensures
        tape::only(from, (#[trigger] repair_from(t, s, index, landing, dependents, k, run)).0, allowed),
    decreases dependents.len() - k,
{
    broadcast use {tape::lemma_only_ask, lemma_carried_only};

    if 0 <= k < dependents.len() {
        let d = dependents[k];
        match anchor_of(s, run.tips, d.layer as int) {
            None => {},
            Some(roots) => {
                let (t1, c) = carried(
                    t,
                    d.number,
                    trailers::rendered(trailers::for_branch(s.layers[d.layer as int].message)),
                    d.tip,
                    roots.0,
                    roots.1,
                );
                if c is Ok {
                    lemma_repair_from_only(
                        from,
                        t1,
                        s,
                        index,
                        landing,
                        dependents,
                        k + 1,
                        with_repair(run, s, index, landing, d, c->Ok_0),
                        allowed,
                    );
                }
            },
        }
    }
}

pub broadcast proof fn lemma_landing_checked_only(
    from: TapeView,
    t: TapeView,
    c: ConfigView,
    s: StackView,
    index: int,
    allowed: spec_fn(RequestView) -> bool,
)
    requires
        #[trigger] tape::only(from, t, allowed),
        tape::may_look(allowed),
    ensures
        tape::only(from, (#[trigger] landing_checked(t, c, s, index)).0, allowed),
{
    broadcast use {tape::lemma_only_ask, lemma_synced_pr_only, lemma_trunk_tip_only, lemma_reviewed_only};

}

/// A layer that may not be landed is refused before anything is changed, and so
/// is one with a dependent that cannot follow.
pub proof fn law_refusals_come_first(
    t: TapeView,
    c: ConfigView,
    s: StackView,
    index: int,
    layers: Seq<usize>,
    snap: SnapshotView,
)
    ensures
        tape::only(
            t,
            landing_checked(t, c, s, index).0,
            |q: RequestView| !tape::touches_forge(q) && !tape::touches_local(q),
        ),
        tape::only(
            t,
            snapshot_from(t, c, s, layers, 0, snap).0,
            |q: RequestView| !tape::touches_forge(q) && !tape::touches_local(q),
        ),
{
    let look = |q: RequestView| !tape::touches_forge(q) && !tape::touches_local(q);
    tape::lemma_only_start(t, look);
    assert(tape::may_look(look));
    lemma_landing_checked_only(t, t, c, s, index, look);
    lemma_snapshot_from_only(t, t, c, s, layers, 0, snap, look);
}

/// What a squash merge is asked for.
pub open spec fn squash_request(
    s: StackView,
    index: usize,
    number: u64,
    pr: PrView,
    opts: LandOptionsView,
) -> RequestView {
    let layer = s.layers[index as int];
    RequestView::MergePullRequest {
        number,
        merge: SquashView {
            title: squash_title(layer.message.subject, number),
            message: squash_body(layer.message, opts.message),
            expected_head: pr.head_oid,
        },
    }
}

pub proof fn lemma_squashed_only(
    from: TapeView,
    t: TapeView,
    c: ConfigView,
    s: StackView,
    index: usize,
    number: u64,
    pr: PrView,
    opts: LandOptionsView,
    dependents: Seq<DependentView>,
    allowed: spec_fn(RequestView) -> bool,
)
    requires
        tape::only(from, t, allowed),
        tape::may_do_all_but_push_and_merge(allowed),
        allowed(squash_request(s, index, number, pr, opts)),
    ensures
        tape::only(
            from,
            squashed(t, c, s, index, number, pr, opts, dependents).0,
            allowed,
        ),
{
    broadcast use {
        tape::lemma_only_ask,
        lemma_retarget_from_only,
        lemma_rolled_back_only,
    };

    assert(tape::may_look(allowed));
}

/// Only the layer itself is merged, only at the head that was looked at, and
/// always with the title and the message of its commit. The pull requests on top
/// of it get the trunk as their base before the merge, and nothing is pushed
/// until after it: above all the merged branch is not deleted before.
pub proof fn law_squash_is_explicit(
    t: TapeView,
    c: ConfigView,
    s: StackView,
    index: usize,
    number: u64,
    pr: PrView,
    opts: LandOptionsView,
    dependents: Seq<DependentView>,
)
    ensures
        tape::only(
            t,
            squashed(t, c, s, index, number, pr, opts, dependents).0,
            |q: RequestView|
                !(q is Push) && (q is MergePullRequest ==> q == squash_request(
                    s,
                    index,
                    number,
                    pr,
                    opts,
                )),
        ),
        tape::only(
            t,
            retarget_from(t, c, s, index, dependents, 0, Seq::empty()).0,
            |q: RequestView| !(q is Push) && !(q is MergePullRequest),
        ),
{
    let careful = |q: RequestView|
        !(q is Push) && (q is MergePullRequest ==> q == squash_request(s, index, number, pr, opts));
    tape::lemma_only_start(t, careful);
    assert(tape::may_do_all_but_push_and_merge(careful));
    lemma_squashed_only(t, t, c, s, index, number, pr, opts, dependents, careful);
    let before = |q: RequestView| !(q is Push) && !(q is MergePullRequest);
    tape::lemma_only_start(t, before);
    assert(tape::may_do_all_but_push_and_merge(before));
    lemma_retarget_from_only(t, t, c, s, index, dependents, 0, Seq::empty(), before);
}

/// Repairing the branches on top of a merged one changes nothing yet: all of it
/// is worked out before the one push, which also deletes the merged branch.
pub proof fn law_repairs_are_worked_out_first(
    t: TapeView,
    s: StackView,
    index: usize,
    landing: u64,
    dependents: Seq<DependentView>,
    run: RepairsView,
)
    ensures
        tape::only(
            t,
            repair_from(t, s, index, landing, dependents, 0, run).0,
            |q: RequestView| !tape::touches_forge(q) && !tape::touches_local(q),
        ),
{
    let look = |q: RequestView| !tape::touches_forge(q) && !tape::touches_local(q);
    tape::lemma_only_start(t, look);
    assert(tape::may_look(look));
    lemma_repair_from_only(t, t, s, index, landing, dependents, 0, run, look);
}

/// After a merge that failed, every base that was changed is changed back.
pub proof fn law_failed_merge_is_rolled_back(t: TapeView, moved: Seq<RetargetedView>, k: int)
    requires
        0 <= k <= moved.len(),
    ensures
        rolled_back(t, moved, k).1 is Ok ==> rolled_back(t, moved, k).0.asked == t.asked + Seq::new(
            (moved.len() - k) as nat,
            |i: int|
                RequestView::TryUpdatePullRequest {
                    number: moved[k + i].number,
                    update: forge::base_update(moved[k + i].base),
                },
        ),
    decreases moved.len() - k,
{
    if k < moved.len() {
        let q = RequestView::TryUpdatePullRequest {
            number: moved[k].number,
            update: forge::base_update(moved[k].base),
        };
        let (t1, r) = tape::ask_unit(t, q);
        if r is Ok {
            law_failed_merge_is_rolled_back(t1, moved, k + 1);
            assert(rolled_back(t, moved, k) == rolled_back(t1, moved, k + 1));
            let all = Seq::new(
                (moved.len() - k) as nat,
                |i: int|
                    RequestView::TryUpdatePullRequest {
                        number: moved[k + i].number,
                        update: forge::base_update(moved[k + i].base),
                    },
            );
            let rest = Seq::new(
                (moved.len() - (k + 1)) as nat,
                |i: int|
                    RequestView::TryUpdatePullRequest {
                        number: moved[k + 1 + i].number,
                        update: forge::base_update(moved[k + 1 + i].base),
                    },
            );
            assert(t.asked.push(q) + rest =~= t.asked + all);
        }
    }
}

/// The hash of the patch that a world displays for a branch.
pub open spec fn patch_in(
    world: spec_fn(RequestView) -> ReplyView,
    base_tip: Oid,
    head: Oid,
) -> ReplyView {
    let fork = world(RequestView::MergeBase { a: base_tip, b: head })->Object_0;
    world(
        RequestView::PatchId {
            from: rest::tree_in(world, fork),
            to: rest::tree_in(world, head),
        },
    )
}

/// A branch that is carried over to a squash commit is shown with the very patch
/// that it had, or a warning says that it is not. `world` gives what is asked about
/// commits and trees.
pub proof fn law_carried_is_diff_neutral(
    t: TapeView,
    number: u64,
    message: Seq<char>,
    tip: Oid,
    old_root: Oid,
    new_root: Oid,
    warnings: Seq<Seq<char>>,
    landing: Option<u64>,
    world: spec_fn(RequestView) -> ReplyView,
)
    requires
        rest::hears_steady(
            t,
            carried(t, number, message, tip, old_root, new_root).0,
            world,
        ),
    ensures
        carried(t, number, message, tip, old_root, new_root).1 matches Ok(c) ==> {
            &&& c.changed == (patch_in(world, old_root, tip) != patch_in(
                world,
                new_root,
                c.new_tip,
            ))
            &&& c.changed ==> carry_noted(warnings, number, landing, c).len() > warnings.len()
            &&& !c.changed && !c.collapsed ==> carry_noted(warnings, number, landing, c)
                == warnings
        },
{
    let any = |q: RequestView| true;
    assert(tape::may_look(any));
    let (end, r) = carried(t, number, message, tip, old_root, new_root);
    if r is Ok {
        let (t1, revisions) = history::revisions(t, tip, old_root);
        let (t2, moved) = moved_tip(
            t1,
            number,
            message,
            tip,
            old_root,
            new_root,
            revisions->Ok_0,
        );
        let moved = moved->Ok_0;
        let (t3, before) = review_diff::patch_hash(t2, old_root, tip);
        let (t4, after) = review_diff::patch_hash(t3, new_root, moved.0);
        let (t5, own) = history::revisions(t4, moved.0, new_root);
        assert(t5 == end);
        tape::lemma_only_start(t, any);
        history::lemma_revisions_only(t, t, tip, old_root, Seq::empty(), any);
        lemma_moved_tip_only(
            t,
            t1,
            number,
            message,
            tip,
            old_root,
            new_root,
            revisions->Ok_0,
            any,
        );
        review_diff::lemma_patch_hash_only(t, t2, old_root, tip, any);
        tape::lemma_only_start(t3, any);
        review_diff::lemma_patch_hash_only(t3, t3, new_root, moved.0, any);
        tape::lemma_only_start(t4, any);
        history::lemma_revisions_only(t4, t4, moved.0, new_root, Seq::empty(), any);
        tape::lemma_only_trans(t3, t4, end, any);
        rest::lemma_shown(t, t2, old_root, tip, end, world);
        rest::lemma_shown(t, t3, new_root, moved.0, end, world);
    }
}

/// The squash commit says nothing of a dependency, and keeps the link to its pull
/// request, subject and body.
pub proof fn law_squash_drops_the_dependency(m: MessageView)
    ensures
        ({
            let kept = trailers::without_trailer(m, DEPENDS_ON@);
            &&& trailers::trailer_value(kept, DEPENDS_ON@) is None
            &&& trailers::trailer_value(kept, PULL_REQUEST@) == trailers::trailer_value(
                m,
                PULL_REQUEST@,
            )
            &&& kept.subject == m.subject
            &&& kept.body == m.body
            &&& squash_body(m, None) == text::trim(
                trailers::rendered(MessageView { subject: Seq::empty(), ..kept }),
            )
        }),
{
    trailers::law_get_after_remove(m, DEPENDS_ON@);
    assert forall|k: Seq<char>| trailers::key_matches(k, DEPENDS_ON@) implies !#[trigger] trailers::key_matches(
        k,
        PULL_REQUEST@,
    ) by {
        trailers::lemma_keys_apart(k);
    }
    trailers::law_remove_keeps_others(m, DEPENDS_ON@, PULL_REQUEST@);
}

} // verus!
