//! The sync engine: which pull requests of a stack are out of line with the
//! local commits.
//!
//! # The push gate
//!
//! A layer is only pushed when it needs to be. The test is not "did the tree
//! change" (amending a commit low in a stack changes *every* descendant's tree)
//! but "did the **patch that readers see** change". Skipping untouched layers
//! preserves their CI results and, where stale reviews are dismissed, their
//! approvals.

use vstd::prelude::*;

use crate::data::{nothing, put, Duplicate};
use crate::discovery::{Trees, TreesView};
use crate::forge;
use crate::forge::{PrState, PrView, PullRequest};
use crate::history;
use crate::history::{find_root_commit, rebase_tree_onto};
use crate::oid;
use crate::oid::Oid;
use crate::pr_body;
use crate::pr_body::strip_warning;
use crate::review_diff;
use crate::review_diff::displayed_patch_id;
use crate::stack;
use crate::stack::{Dep, Stack, StackView};
use crate::tape;
use crate::tape::{Halt, HaltView, Merge, MergeView, Request, RequestView, Tape, TapeView};
use crate::text;
use crate::text::{push_decimal, same, trim_text};
use crate::trailers;
use crate::trailers::{CommitMessage, MessageView, PULL_REQUEST};

verus! {

/// Default message for a push that does not change the displayed patch.
pub const AUTO_UPDATE_MESSAGE: &'static str = "[nspr] update";

#[derive(Debug, Clone)]
pub struct SyncOptions {
    /// Push every layer, even ones whose patch is unchanged.
    pub sync_all: bool,
    /// Use this message instead of prompting.
    pub message: Option<String>,
    /// Overwrite the pull request title/body from the local commit message.
    pub update_message: bool,
    /// Open new pull requests as drafts.
    pub draft: bool,
    /// Set when the repository requires branches to be up to date before
    /// merging. Only then is a "behind" layer worth refreshing; see
    /// [`PullRequest::needs_refresh`].
    pub refresh_when_behind: bool,
    /// Only sync this specific layer index.
    pub only_layer: Option<usize>,
    /// Whether to push incremental commits (`true`) or rewrite each branch as a
    /// single commit with force-pushes (`false`).
    pub preserve_commit_history: bool,
    /// The user was already asked which layers without a trailer belong to a
    /// pull request that is open.
    pub relink_asked: bool,
}

#[verifier::ext_equal]
pub struct OptionsView {
    pub sync_all: bool,
    pub message: Option<Seq<char>>,
    pub update_message: bool,
    pub draft: bool,
    pub refresh_when_behind: bool,
    pub only_layer: Option<usize>,
    pub preserve_commit_history: bool,
    pub relink_asked: bool,
}

impl View for SyncOptions {
    type V = OptionsView;

    open spec fn view(&self) -> OptionsView {
        OptionsView {
            sync_all: self.sync_all,
            message: self.message.deep_view(),
            update_message: self.update_message,
            draft: self.draft,
            refresh_when_behind: self.refresh_when_behind,
            only_layer: self.only_layer,
            preserve_commit_history: self.preserve_commit_history,
            relink_asked: self.relink_asked,
        }
    }
}

/// The options when nothing is asked for.
pub open spec fn default_options() -> OptionsView {
    OptionsView {
        sync_all: false,
        message: None,
        update_message: false,
        draft: false,
        refresh_when_behind: false,
        only_layer: None,
        preserve_commit_history: true,
        relink_asked: false,
    }
}

impl Default for SyncOptions {
    fn default() -> (r: Self)
        ensures
            r@ == default_options(),
    {
        SyncOptions {
            sync_all: false,
            message: None,
            update_message: false,
            draft: false,
            refresh_when_behind: false,
            only_layer: None,
            preserve_commit_history: true,
            relink_asked: false,
        }
    }
}

impl SyncOptions {
    pub fn duplicate(&self) -> (r: Self)
        ensures
            r@ == self@,
    {
        SyncOptions {
            sync_all: self.sync_all,
            message: self.message.duplicate(),
            update_message: self.update_message,
            draft: self.draft,
            refresh_when_behind: self.refresh_when_behind,
            only_layer: self.only_layer,
            preserve_commit_history: self.preserve_commit_history,
            relink_asked: self.relink_asked,
        }
    }
}

/// Supplies the "what changed?" message shown on update commits, and the answer
/// to whether a commit goes on with a pull request that is already open.
pub trait Prompter {
    fn update_message(&self, subject: &str) -> Result<String, String>;

    fn confirm_relink_existing_pr(
        &self,
        subject: &str,
        existing_pr_number: u64,
        existing_pr_title: &str,
        branch: &str,
    ) -> Result<bool, String>;
}

/// Never prompts; always returns the same message, and always goes on with a
/// pull request that is already open. For non-interactive invocations.
pub struct FixedPrompter(pub String);

impl Prompter for FixedPrompter {
    fn update_message(&self, _subject: &str) -> (r: Result<String, String>)
        ensures
            r matches Ok(message) && message@ == self.0@,
    {
        Ok(self.0.clone())
    }

    fn confirm_relink_existing_pr(
        &self,
        _subject: &str,
        _existing_pr_number: u64,
        _existing_pr_title: &str,
        _branch: &str,
    ) -> (r: Result<bool, String>)
        ensures
            r matches Ok(relink) && relink,
    {
        Ok(true)
    }
}

#[derive(Debug, Clone, Copy, PartialEq, Eq, Structural)]
pub enum LayerAction {
    Created,
    /// Pushed because the displayed patch changed.
    Updated,
    /// Pushed only to refresh a stale or conflicted view.
    Refreshed,
    /// Nothing to do.
    Skipped,
}

/// Which layers need pushing, and why.
#[derive(Debug, Clone)]
pub struct Decision {
    /// The layer's own patch differs from what the reader currently sees.
    pub patch_changed: Vec<bool>,
    /// The layer's local commit message differs from the initial commit on its
    /// branch.
    pub message_changed: Vec<bool>,
    /// The title or the description of the pull request differs from the
    /// initial commit on its branch.
    pub github_message_edited: Vec<bool>,
    /// The layer's branch history must be rewritten (force-pushed) because its
    /// commit message changed or its base branch was rewritten.
    pub rewrite_history: Vec<bool>,
    /// The layer will be pushed. A layer can need a push without its patch
    /// having changed.
    pub push: Vec<bool>,
}

#[verifier::ext_equal]
pub struct DecisionView {
    pub patch_changed: Seq<bool>,
    pub message_changed: Seq<bool>,
    pub github_message_edited: Seq<bool>,
    pub rewrite_history: Seq<bool>,
    pub push: Seq<bool>,
}

impl DeepView for Decision {
    type V = DecisionView;

    open spec fn deep_view(&self) -> DecisionView {
        DecisionView {
            patch_changed: self.patch_changed@,
            message_changed: self.message_changed@,
            github_message_edited: self.github_message_edited@,
            rewrite_history: self.rewrite_history@,
            push: self.push@,
        }
    }
}

/// The pull requests of the layers from `i` on, after those of the layers
/// before them, each with its commits at hand.
pub open spec fn gather_from(
    t: TapeView,
    s: StackView,
    i: int,
    prs: Seq<Option<PrView>>,
) -> (TapeView, Result<Seq<Option<PrView>>, HaltView>)
    decreases s.layers.len() - i,
{
    if i < 0 || i >= s.layers.len() {
        tape::done(t, prs)
    } else {
        match s.layers[i].pr {
            None => gather_from(t, s, i + 1, prs.push(None)),
            Some(number) => tape::bind(
                tape::ask_pr(t, RequestView::GetPullRequest { number }),
                |t: TapeView, pr: PrView|
                    tape::bind(
                        tape::ask_unit(t, RequestView::FetchCommit { commit: pr.head_oid }),
                        |t: TapeView, u: ()|
                            tape::bind(
                                if pr.base_oid != oid::zero_oid() {
                                    tape::ask_unit(
                                        t,
                                        RequestView::FetchCommit { commit: pr.base_oid },
                                    )
                                } else {
                                    tape::done(t, ())
                                },
                                |t: TapeView, u: ()| gather_from(t, s, i + 1, prs.push(Some(pr))),
                            ),
                    ),
            ),
        }
    }
}

/// The pull requests of all layers.
pub open spec fn gathered(t: TapeView, s: StackView) -> (
    TapeView,
    Result<Seq<Option<PrView>>, HaltView>,
) {
    gather_from(t, s, 0, Seq::empty())
}

/// Fetches the current state of every existing pull request.
pub fn gather(t: &mut Tape, stack: &Stack) -> (r: Result<Vec<Option<PullRequest>>, Halt>)
    ensures
        (final(t)@, tape::outcome(r)) == gathered(old(t)@, stack@),
        r matches Ok(prs) ==> prs@.len() == stack@.layers.len(),
{
    let mut prs: Vec<Option<PullRequest>> = nothing();
    let mut i: usize = 0;
    while i < stack.layers.len()
        invariant
            i <= stack.layers@.len(),
            prs@.len() == i,
            gather_from(t@, stack@, i as int, prs.deep_view()) == gathered(old(t)@, stack@),
        decreases stack.layers@.len() - i,
    {
        assert(stack@.layers[i as int].pr == stack.layers@[i as int].pr);
        match stack.layers[i].pr {
            None => {
                put(&mut prs, None);
            },
            Some(number) => {
                let pr = t.pr(Request::GetPullRequest { number })?;
                t.unit(Request::FetchCommit { commit: pr.head_oid })?;
                if pr.base_oid != Oid::zero() {
                    t.unit(Request::FetchCommit { commit: pr.base_oid })?;
                }
                put(&mut prs, Some(pr));
            },
        }
        i = i + 1;
    }
    Ok(prs)
}

/// Why a pull request takes no more work.
pub open spec fn unusable(pr: PrView) -> Option<Seq<char>> {
    match pr.state {
        PrState::Closed => Some(
            "pull request #"@ + text::decimal(pr.number as nat) + " is closed. Remove its `"@
                + PULL_REQUEST@ + ":` trailer to open a new one."@,
        ),
        PrState::Merged => Some(
            "pull request #"@ + text::decimal(pr.number as nat)
                + " has already been merged. Run `nspr sync` to drop it from the stack, or remove its `"@
                + PULL_REQUEST@
                + ":` trailer to submit what is left as a new pull request."@,
        ),
        PrState::Open => None,
    }
}

/// Why the first pull request from `i` on that takes no more work does not.
pub open spec fn first_unusable(prs: Seq<Option<PrView>>, i: int) -> Option<Seq<char>>
    decreases prs.len() - i,
{
    if i < 0 || i >= prs.len() {
        None
    } else {
        match prs[i] {
            Some(pr) => match unusable(pr) {
                Some(reason) => Some(reason),
                None => first_unusable(prs, i + 1),
            },
            None => first_unusable(prs, i + 1),
        }
    }
}

fn unusable_text(pr: &PullRequest) -> (r: Option<String>)
    ensures
        r.deep_view() == unusable(pr@),
{
    match pr.state {
        PrState::Open => None,
        PrState::Closed => {
            let mut reason = "pull request #".to_owned();
            push_decimal(&mut reason, pr.number);
            reason.append(" is closed. Remove its `");
            reason.append(PULL_REQUEST);
            reason.append(":` trailer to open a new one.");
            Some(reason)
        },
        // Detected by state, never by commit: a squash merge creates a commit
        // with a brand new id, so the local commit is nowhere in the trunk's
        // history even though its content is.
        PrState::Merged => {
            let mut reason = "pull request #".to_owned();
            push_decimal(&mut reason, pr.number);
            reason.append(
                " has already been merged. Run `nspr sync` to drop it from the stack, or remove its `",
            );
            reason.append(PULL_REQUEST);
            reason.append(":` trailer to submit what is left as a new pull request.");
            Some(reason)
        },
    }
}

/// Refuses to push to a pull request that is no longer accepting work.
///
/// Separate from [`gather`] because the status wants to *show* a closed or
/// merged pull request rather than fail on it.
pub fn reject_unusable(prs: &Vec<Option<PullRequest>>) -> (r: Result<(), String>)
    ensures
        match r {
            Ok(()) => first_unusable(prs.deep_view(), 0) is None,
            Err(reason) => first_unusable(prs.deep_view(), 0) == Some(reason@),
        },
{
    let mut i: usize = 0;
    while i < prs.len()
        invariant
            i <= prs@.len(),
            first_unusable(prs.deep_view(), i as int) == first_unusable(prs.deep_view(), 0),
        decreases prs@.len() - i,
    {
        assert(prs.deep_view()[i as int] == prs@[i as int].deep_view());
        match &prs[i] {
            Some(pr) => match unusable_text(pr) {
                Some(reason) => {
                    return Err(reason);
                },
                None => {},
            },
            None => {},
        }
        i = i + 1;
    }
    Ok(())
}

/// The title or the description of a pull request says something different from
/// a message.
pub open spec fn message_differs(pr: PrView, m: MessageView) -> bool {
    pr.title != m.subject || text::trim(pr_body::without_warning(pr.body)) != m.body
}

/// Whether the title or the description of a pull request says something
/// different from a message.
pub fn pr_message_differs_from(pr: &PullRequest, message: &CommitMessage) -> (r: bool)
    ensures
        r == message_differs(pr@, message@),
{
    !same(pr.title.as_str(), message.subject.as_str()) || !same(
        trim_text(strip_warning(pr.body.as_str()).as_str()).as_str(),
        message.body.as_str(),
    )
}

/// What was found out about one layer.
#[derive(Debug, Clone, Copy, PartialEq, Eq, Structural)]
pub struct LayerCheck {
    pub patch_changed: bool,
    pub message_changed: bool,
    pub github_message_edited: bool,
    pub rewrite: bool,
    pub push: bool,
    /// What the branch of the layer sits on right now.
    pub anchor: Option<Oid>,
    /// The branch sits on an older trunk, and it can stay there.
    pub settled: bool,
}

impl DeepView for LayerCheck {
    type V = LayerCheck;

    open spec fn deep_view(&self) -> LayerCheck {
        *self
    }
}

/// What is known of a layer that is left alone.
pub open spec fn unchecked() -> LayerCheck {
    LayerCheck {
        patch_changed: false,
        message_changed: false,
        github_message_edited: false,
        rewrite: false,
        push: false,
        anchor: None,
        settled: false,
    }
}

/// The commit that the base branch of layer `i` is at on the forge.
pub open spec fn remote_base_tip(s: StackView, prs: Seq<Option<PrView>>, i: int) -> Option<Oid> {
    match s.layers[i].dep {
        Dep::Layer(j) => match prs[j as int] {
            Some(pr) => Some(pr.head_oid),
            None => None,
        },
        _ => Some(s.base),
    }
}

/// The layer is one of those that are synced.
pub open spec fn in_scope(opts: OptionsView, i: int) -> bool {
    opts.only_layer matches Some(only) ==> only == i
}

/// Moving the base branch to `new_base_tree` without pushing the layer would
/// make the forge report a merge conflict, or merge to something other than
/// `desired`.
pub open spec fn would_diverge(
    t: TapeView,
    old_base_tip: Oid,
    old_head_tip: Oid,
    new_base_tree: Oid,
    desired: Oid,
) -> (TapeView, Result<bool, HaltView>) {
    tape::bind(
        tape::ask_object(t, RequestView::TreeOf { commit: old_base_tip }),
        |t: TapeView, old_base_tree: Oid|
            if old_base_tree == new_base_tree {
                tape::done(t, false)
            } else {
                tape::bind(
                    tape::ask_object(t, RequestView::MergeBase { a: old_base_tip, b: old_head_tip }),
                    |t: TapeView, base: Oid|
                        tape::bind(
                            tape::ask_object(t, RequestView::TreeOf { commit: base }),
                            |t: TapeView, base_tree: Oid|
                                tape::bind(
                                    tape::ask_object(
                                        t,
                                        RequestView::TreeOf { commit: old_head_tip },
                                    ),
                                    |t: TapeView, head_tree: Oid|
                                        tape::bind(
                                            tape::ask_merge(
                                                t,
                                                RequestView::MergeTrees {
                                                    base: base_tree,
                                                    ours: new_base_tree,
                                                    theirs: head_tree,
                                                },
                                            ),
                                            |t: TapeView, merge: MergeView|
                                                tape::done(
                                                    t,
                                                    match merge {
                                                        MergeView::Clean(tree) => tree != desired,
                                                        MergeView::Conflicts(_) => true,
                                                    },
                                                ),
                                        ),
                                ),
                        ),
                )
            },
    )
}

fn would_conflict_or_diverge_on_forge(
    t: &mut Tape,
    old_base_tip: Oid,
    old_head_tip: Oid,
    new_base_tree: Oid,
    desired_effective_tree: Oid,
) -> (r: Result<bool, Halt>)
    ensures
        (final(t)@, tape::outcome(r)) == would_diverge(
            old(t)@,
            old_base_tip,
            old_head_tip,
            new_base_tree,
            desired_effective_tree,
        ),
{
    let old_base_tree = t.object(Request::TreeOf { commit: old_base_tip })?;
    if old_base_tree == new_base_tree {
        return Ok(false);
    }
    let base = t.object(Request::MergeBase { a: old_base_tip, b: old_head_tip })?;
    let base_tree = t.object(Request::TreeOf { commit: base })?;
    let head_tree = t.object(Request::TreeOf { commit: old_head_tip })?;
    match t.merge(
        Request::MergeTrees { base: base_tree, ours: new_base_tree, theirs: head_tree },
    )? {
        Merge::Clean(tree) => Ok(tree != desired_effective_tree),
        Merge::Conflicts(_) => Ok(true),
    }
}

/// What the first commit of the branch of a pull request tells: what it sits
/// on, and what is different about its message.
pub open spec fn root_check(
    t: TapeView,
    pr: PrView,
    message: MessageView,
    preserve: bool,
    root: Option<Oid>,
) -> (TapeView, Result<LayerCheck, HaltView>) {
    match root {
        None => tape::done(t, unchecked()),
        Some(root) => tape::bind(
            tape::ask_maybe_object(t, RequestView::TryParentOf { commit: root }),
            |t: TapeView, anchor: Option<Oid>|
                tape::bind(
                    tape::ask_text(t, RequestView::MessageOf { commit: root }),
                    |t: TapeView, current: Seq<char>|
                        {
                            let wanted = trailers::rendered(trailers::for_branch(message));
                            let changed = text::trim(current) != text::trim(wanted);
                            tape::done(
                                t,
                                LayerCheck {
                                    message_changed: changed,
                                    github_message_edited: message_differs(
                                        pr,
                                        trailers::parsed(current),
                                    ),
                                    rewrite: changed || (!preserve && root != pr.head_oid),
                                    anchor,
                                    ..unchecked()
                                },
                            )
                        },
                ),
        ),
    }
}

fn check_root(
    t: &mut Tape,
    pr: &PullRequest,
    message: &CommitMessage,
    preserve: bool,
    root: Option<Oid>,
) -> (r: Result<LayerCheck, Halt>)
    ensures
        (final(t)@, tape::outcome(r)) == root_check(old(t)@, pr@, message@, preserve, root),
{
    match root {
        None => Ok(
            LayerCheck {
                patch_changed: false,
                message_changed: false,
                github_message_edited: false,
                rewrite: false,
                push: false,
                anchor: None,
                settled: false,
            },
        ),
        Some(root) => {
            let anchor = t.maybe_object(Request::TryParentOf { commit: root })?;
            let current = t.text(Request::MessageOf { commit: root })?;
            let wanted = message.clean_for_branch();
            let changed = !same(
                trim_text(current.as_str()).as_str(),
                trim_text(wanted.as_str()).as_str(),
            );
            let edited = pr_message_differs_from(pr, &CommitMessage::parse(current.as_str()));
            Ok(
                LayerCheck {
                    patch_changed: false,
                    message_changed: changed,
                    github_message_edited: edited,
                    rewrite: changed || (!preserve && root != pr.head_oid),
                    push: false,
                    anchor,
                    settled: false,
                },
            )
        },
    }
}

/// The branch is behind its base branch, where that matters.
pub open spec fn behind_base(
    t: TapeView,
    pr: PrView,
    base_tip: Oid,
    anchor: Option<Oid>,
    matters: bool,
) -> (TapeView, Result<bool, HaltView>) {
    if !matters {
        tape::done(t, false)
    } else if anchor != Some(base_tip) {
        tape::done(t, true)
    } else {
        tape::bind(
            tape::ask_flag(
                t,
                RequestView::MayBeAncestor { ancestor: base_tip, descendant: pr.head_oid },
            ),
            |t: TapeView, held: bool| tape::done(t, !held),
        )
    }
}

fn is_behind_base(
    t: &mut Tape,
    pr: &PullRequest,
    base_tip: Oid,
    anchor: Option<Oid>,
    matters: bool,
) -> (r: Result<bool, Halt>)
    ensures
        (final(t)@, tape::outcome(r)) == behind_base(old(t)@, pr@, base_tip, anchor, matters),
{
    if !matters {
        return Ok(false);
    }
    let on_base = match anchor {
        Some(commit) => commit == base_tip,
        None => false,
    };
    if !on_base {
        return Ok(true);
    }
    let held = t.flag(
        Request::MayBeAncestor { ancestor: base_tip, descendant: pr.head_oid },
    )?;
    Ok(!held)
}

/// The trunk has moved on from what the branch sits on, which is where the two part,
/// and the layer's content can be expressed there all the same. Moving such a branch
/// forward would rewrite it and everything above it for nothing.
pub open spec fn may_stay(
    t: TapeView,
    anchor: Option<Oid>,
    base_tip: Oid,
    head: Oid,
    dep_tree: Oid,
    effective: Oid,
    wanted: bool,
) -> (TapeView, Result<bool, HaltView>) {
    if !wanted || anchor is None || anchor == Some(base_tip) {
        tape::done(t, false)
    } else {
        tape::bind(
            tape::ask_maybe_object(t, RequestView::MergeBaseIfAny { a: base_tip, b: head }),
            |t: TapeView, fork: Option<Oid>|
                if fork != anchor {
                    tape::done(t, false)
                } else {
                    tape::bind(
                        history::tree_rebased(t, dep_tree, anchor->0, effective),
                        |t: TapeView, tree: Option<Oid>| tape::done(t, tree is Some),
                    )
                },
        )
    }
}

fn can_stay(
    t: &mut Tape,
    anchor: Option<Oid>,
    base_tip: Oid,
    head: Oid,
    dep_tree: Oid,
    effective: Oid,
    wanted: bool,
) -> (r: Result<bool, Halt>)
    ensures
        (final(t)@, tape::outcome(r)) == may_stay(
            old(t)@,
            anchor,
            base_tip,
            head,
            dep_tree,
            effective,
            wanted,
        ),
{
    if !wanted {
        return Ok(false);
    }
    match anchor {
        None => Ok(false),
        Some(anchor) => {
            if anchor == base_tip {
                return Ok(false);
            }
            match t.maybe_object(Request::MergeBaseIfAny { a: base_tip, b: head })? {
                Some(fork) => {
                    if fork != anchor {
                        return Ok(false);
                    }
                },
                None => {
                    return Ok(false);
                },
            }
            let tree = rebase_tree_onto(t, dep_tree, anchor, effective)?;
            Ok(tree.is_some())
        },
    }
}

/// A branch on the trunk is left on an older one unless there is a reason to
/// move it.
pub open spec fn may_settle(s: StackView, opts: OptionsView, i: int) -> bool {
    !(s.layers[i].dep is Layer) && opts.preserve_commit_history && !opts.sync_all
        && !opts.refresh_when_behind
}

/// Compares what a pull request displays *right now* against what it ought to
/// display. The target is the local tree of the dependency, never its remote
/// tip, which may be several amends out of date.
pub open spec fn pr_check(
    t: TapeView,
    pr: PrView,
    message: MessageView,
    base_tip: Oid,
    dep_tree: Oid,
    effective: Oid,
    opts: OptionsView,
    settles: bool,
) -> (TapeView, Result<LayerCheck, HaltView>) {
    tape::bind(
        history::root_commit(t, pr, base_tip),
        |t: TapeView, root: Option<Oid>|
            tape::bind(
                root_check(t, pr, message, opts.preserve_commit_history, root),
                |t: TapeView, check: LayerCheck|
                    tape::bind(
                        review_diff::patch_hash(t, base_tip, pr.head_oid),
                        |t: TapeView, shown: Oid|
                            tape::bind(
                                tape::ask_object(
                                    t,
                                    RequestView::PatchId { from: dep_tree, to: effective },
                                ),
                                |t: TapeView, desired: Oid|
                                    tape::bind(
                                        would_diverge(t, base_tip, pr.head_oid, dep_tree, effective),
                                        |t: TapeView, diverges: bool|
                                            tape::bind(
                                                behind_base(
                                                    t,
                                                    pr,
                                                    base_tip,
                                                    check.anchor,
                                                    opts.refresh_when_behind,
                                                ),
                                                |t: TapeView, behind: bool|
                                                    tape::bind(
                                                        may_stay(
                                                            t,
                                                            check.anchor,
                                                            base_tip,
                                                            pr.head_oid,
                                                            dep_tree,
                                                            effective,
                                                            settles,
                                                        ),
                                                        |t: TapeView, settled: bool|
                                                            tape::done(
                                                                t,
                                                                LayerCheck {
                                                                    patch_changed: shown
                                                                        != desired,
                                                                    push: shown != desired
                                                                        || check.message_changed
                                                                        || check.rewrite
                                                                        || diverges
                                                                        || opts.sync_all
                                                                        || forge::worth_refreshing(
                                                                    pr,
                                                                        opts.refresh_when_behind,
                                                                    ) || behind,
                                                                    settled,
                                                                    ..check
                                                                },
                                                            ),
                                                    ),
                                            ),
                                    ),
                            ),
                    ),
            ),
    )
}

#[verifier::rlimit(40)]
fn check_pr(
    t: &mut Tape,
    pr: &PullRequest,
    message: &CommitMessage,
    base_tip: Oid,
    dep_tree: Oid,
    effective: Oid,
    opts: &SyncOptions,
    settles: bool,
) -> (r: Result<LayerCheck, Halt>)
    ensures
        (final(t)@, tape::outcome(r)) == pr_check(
            old(t)@,
            pr@,
            message@,
            base_tip,
            dep_tree,
            effective,
            opts@,
            settles,
        ),
{
    let root = find_root_commit(t, pr, base_tip)?;
    let check = check_root(t, pr, message, opts.preserve_commit_history, root)?;
    let shown = displayed_patch_id(t, base_tip, pr.head_oid)?;
    let desired = t.object(Request::PatchId { from: dep_tree, to: effective })?;
    let diverges = would_conflict_or_diverge_on_forge(
        t,
        base_tip,
        pr.head_oid,
        dep_tree,
        effective,
    )?;
    let behind = is_behind_base(t, pr, base_tip, check.anchor, opts.refresh_when_behind)?;
    let settled = can_stay(t, check.anchor, base_tip, pr.head_oid, dep_tree, effective, settles)?;
    let patch_changed = shown != desired;
    Ok(
        LayerCheck {
            patch_changed,
            push: patch_changed || check.message_changed || check.rewrite || diverges
                || opts.sync_all || pr.needs_refresh(opts.refresh_when_behind) || behind,
            message_changed: check.message_changed,
            github_message_edited: check.github_message_edited,
            rewrite: check.rewrite,
            anchor: check.anchor,
            settled,
        },
    )
}

/// What is to be said of layer `i` by itself.
pub open spec fn layer_check(
    t: TapeView,
    s: StackView,
    prs: Seq<Option<PrView>>,
    trees: TreesView,
    opts: OptionsView,
    i: int,
) -> (TapeView, Result<LayerCheck, HaltView>) {
    if !in_scope(opts, i) {
        tape::done(t, unchecked())
    } else {
        match prs[i] {
            // Nothing exists yet; it must be created.
            None => tape::done(t, LayerCheck { push: true, ..unchecked() }),
            Some(pr) => match remote_base_tip(s, prs, i) {
                // The dependency has no pull request yet, so there is nothing
                // meaningful to compare against.
                None => tape::done(
                    t,
                    LayerCheck { patch_changed: true, push: true, ..unchecked() },
                ),
                Some(base_tip) => pr_check(
                    t,
                    pr,
                    s.layers[i].message,
                    base_tip,
                    trees.dep[i],
                    trees.effective[i],
                    opts,
                    may_settle(s, opts, i),
                ),
            },
        }
    }
}

fn plain_check(patch_changed: bool, push: bool) -> (r: LayerCheck)
    ensures
        r == (LayerCheck { patch_changed, push, ..unchecked() }),
{
    LayerCheck {
        patch_changed,
        message_changed: false,
        github_message_edited: false,
        rewrite: false,
        push,
        anchor: None,
        settled: false,
    }
}

/// The pull requests belong to the layers of the stack, and so do the trees.
pub open spec fn fits(s: StackView, prs: Seq<Option<PrView>>, trees: TreesView) -> bool {
    stack::well_formed(s) && prs.len() == s.layers.len() && trees.effective.len() == s.layers.len()
        && trees.dep.len() == s.layers.len()
}

fn base_tip_on_forge(stack: &Stack, prs: &Vec<Option<PullRequest>>, i: usize) -> (r: Option<Oid>)
    requires
        i < stack@.layers.len(),
        prs@.len() == stack@.layers.len(),
        stack::well_formed(stack@),
    ensures
        r == remote_base_tip(stack@, prs.deep_view(), i as int),
{
    assert(stack@.layers[i as int].dep == stack.layers@[i as int].dep);
    match stack.layers[i].dep {
        Dep::Layer(j) => {
            assert(prs.deep_view()[j as int] == prs@[j as int].deep_view());
            match &prs[j] {
                Some(pr) => Some(pr.head_oid),
                None => None,
            }
        },
        _ => Some(stack.base),
    }
}

fn check_layer(
    t: &mut Tape,
    stack: &Stack,
    prs: &Vec<Option<PullRequest>>,
    trees: &Trees,
    opts: &SyncOptions,
    i: usize,
) -> (r: Result<LayerCheck, Halt>)
    requires
        i < stack@.layers.len(),
        fits(stack@, prs.deep_view(), trees.deep_view()),
    ensures
        (final(t)@, tape::outcome(r)) == layer_check(
            old(t)@,
            stack@,
            prs.deep_view(),
            trees.deep_view(),
            opts@,
            i as int,
        ),
{
    match opts.only_layer {
        Some(only) => if i != only {
            return Ok(plain_check(false, false));
        },
        None => {},
    }
    assert(prs.deep_view()[i as int] == prs@[i as int].deep_view());
    assert(stack@.layers[i as int].message == stack.layers@[i as int].message@);
    assert(stack@.layers[i as int].dep == stack.layers@[i as int].dep);
    let on_layer = match stack.layers[i].dep {
        Dep::Layer(_) => true,
        _ => false,
    };
    let settles = !on_layer && opts.preserve_commit_history && !opts.sync_all
        && !opts.refresh_when_behind;
    match &prs[i] {
        None => Ok(plain_check(false, true)),
        Some(pr) => match base_tip_on_forge(stack, prs, i) {
            None => Ok(plain_check(true, true)),
            Some(base_tip) => check_pr(
                t,
                pr,
                &stack.layers[i].message,
                base_tip,
                trees.dep[i],
                trees.effective[i],
                opts,
                settles,
            ),
        },
    }
}

/// What is to be said of the layers from `i` on, after those before them.
pub open spec fn checks_from(
    t: TapeView,
    s: StackView,
    prs: Seq<Option<PrView>>,
    trees: TreesView,
    opts: OptionsView,
    i: int,
    checks: Seq<LayerCheck>,
) -> (TapeView, Result<Seq<LayerCheck>, HaltView>)
    decreases s.layers.len() - i,
{
    if i < 0 || i >= s.layers.len() {
        tape::done(t, checks)
    } else {
        tape::bind(
            layer_check(t, s, prs, trees, opts, i),
            |t: TapeView, check: LayerCheck|
                checks_from(t, s, prs, trees, opts, i + 1, checks.push(check)),
        )
    }
}

/// The branch of a pull request carries the given content of its layer: as it
/// is, or as it is on the older trunk that the branch sits on.
pub open spec fn carries(t: TapeView, s: StackView, pr: PrView, effective: Oid) -> (
    TapeView,
    Result<bool, HaltView>,
) {
    tape::bind(
        tape::ask_object(t, RequestView::TreeOf { commit: pr.head_oid }),
        |t: TapeView, tree: Oid|
            if tree == effective {
                tape::done(t, true)
            } else {
                tape::bind(
                    tape::ask_maybe_object(
                        t,
                        RequestView::MergeBaseIfAny { a: s.base, b: pr.head_oid },
                    ),
                    |t: TapeView, trunk: Option<Oid>|
                        if trunk is None || trunk == Some(s.base) {
                            tape::done(t, false)
                        } else {
                            tape::bind(
                                tape::ask_object(t, RequestView::TreeOf { commit: s.base }),
                                |t: TapeView, base_tree: Oid|
                                    tape::bind(
                                        history::tree_rebased(t, base_tree, trunk->0, effective),
                                        |t: TapeView, older: Option<Oid>|
                                            tape::done(t, older == Some(tree)),
                                    ),
                            )
                        },
                )
            },
    )
}

fn carries_content(t: &mut Tape, stack: &Stack, pr: &PullRequest, effective: Oid) -> (r: Result<
    bool,
    Halt,
>)
    ensures
        (final(t)@, tape::outcome(r)) == carries(old(t)@, stack@, pr@, effective),
{
    let tree = t.object(Request::TreeOf { commit: pr.head_oid })?;
    if tree == effective {
        return Ok(true);
    }
    let trunk = match t.maybe_object(Request::MergeBaseIfAny { a: stack.base, b: pr.head_oid })? {
        None => {
            return Ok(false);
        },
        Some(trunk) => trunk,
    };
    if trunk == stack.base {
        return Ok(false);
    }
    let base_tree = t.object(Request::TreeOf { commit: stack.base })?;
    match rebase_tree_onto(t, base_tree, trunk, effective)? {
        Some(older) => Ok(older == tree),
        None => Ok(false),
    }
}

/// A push of layer `i` is only safe once the remote tip of its dependency
/// carries the dependency's own content; where it does not, the dependency is
/// pushed too. From the layer below `n` down to the lowest, so that it
/// cascades.
pub open spec fn restack_below(
    t: TapeView,
    s: StackView,
    prs: Seq<Option<PrView>>,
    trees: TreesView,
    n: int,
    push: Seq<bool>,
) -> (TapeView, Result<Seq<bool>, HaltView>)
    decreases n,
{
    if n <= 0 {
        tape::done(t, push)
    } else if !push[n - 1] {
        restack_below(t, s, prs, trees, n - 1, push)
    } else {
        match s.layers[n - 1].dep {
            Dep::Layer(j) => match prs[j as int] {
                None => restack_below(t, s, prs, trees, n - 1, push.update(j as int, true)),
                Some(pr) => tape::bind(
                    carries(t, s, pr, trees.effective[j as int]),
                    |t: TapeView, up_to_date: bool|
                        restack_below(
                            t,
                            s,
                            prs,
                            trees,
                            n - 1,
                            if up_to_date {
                                push
                            } else {
                                push.update(j as int, true)
                            },
                        ),
                ),
            },
            _ => restack_below(t, s, prs, trees, n - 1, push),
        }
    }
}

/// What the branch of layer `i` will have to sit on is not what it sits on
/// right now.
pub open spec fn base_moved(
    s: StackView,
    prs: Seq<Option<PrView>>,
    check: LayerCheck,
    push: Seq<bool>,
    i: int,
) -> bool {
    match s.layers[i].dep {
        Dep::Layer(j) => push[j as int] || (match prs[j as int] {
            Some(pr) => Some(pr.head_oid),
            None => None,
        }) != check.anchor,
        _ => check.anchor != Some(s.base) && !check.settled,
    }
}

/// One layer of [`rewrites_from`]: whether it is rewritten and whether it is
/// pushed.
pub open spec fn rewrite_of(
    s: StackView,
    prs: Seq<Option<PrView>>,
    opts: OptionsView,
    checks: Seq<LayerCheck>,
    i: int,
    rewrite: Seq<bool>,
    push: Seq<bool>,
) -> (bool, bool) {
    if !in_scope(opts, i) || prs[i] is None {
        (rewrite[i], push[i])
    } else {
        let cascades = match s.layers[i].dep {
            Dep::Layer(j) => rewrite[j as int],
            _ => false,
        };
        let pushed = push[i] || cascades;
        (
            rewrite[i] || cascades || (pushed && (!opts.preserve_commit_history || base_moved(
                s,
                prs,
                checks[i],
                push,
                i,
            ))),
            pushed,
        )
    }
}

/// Every branch of a pull request keeps exactly one parent per commit. Where a
/// pushed layer sits on something that moves, its revisions are replayed onto
/// the new base, and so are those of the layers above it. Where it does not, a
/// commit is appended and the layers above are left alone. Without a history to
/// preserve, every pushed branch is rewritten.
pub open spec fn rewrites_from(
    s: StackView,
    prs: Seq<Option<PrView>>,
    opts: OptionsView,
    checks: Seq<LayerCheck>,
    i: int,
    rewrite: Seq<bool>,
    push: Seq<bool>,
) -> (Seq<bool>, Seq<bool>)
    decreases s.layers.len() - i,
{
    if i < 0 || i >= s.layers.len() {
        (rewrite, push)
    } else {
        let (r, p) = rewrite_of(s, prs, opts, checks, i, rewrite, push);
        rewrites_from(s, prs, opts, checks, i + 1, rewrite.update(i, r), push.update(i, p))
    }
}

/// The decision that the checks and the layers to be pushed come to.
pub open spec fn decision_of(
    s: StackView,
    prs: Seq<Option<PrView>>,
    opts: OptionsView,
    checks: Seq<LayerCheck>,
    push: Seq<bool>,
) -> DecisionView {
    let (rewrite, push) = rewrites_from(
        s,
        prs,
        opts,
        checks,
        0,
        checks.map_values(|c: LayerCheck| c.rewrite),
        push,
    );
    DecisionView {
        patch_changed: checks.map_values(|c: LayerCheck| c.patch_changed),
        message_changed: checks.map_values(|c: LayerCheck| c.message_changed),
        github_message_edited: checks.map_values(|c: LayerCheck| c.github_message_edited),
        rewrite_history: rewrite,
        push,
    }
}

/// Which layers are pushed, and how.
pub open spec fn decided(
    t: TapeView,
    s: StackView,
    prs: Seq<Option<PrView>>,
    trees: TreesView,
    opts: OptionsView,
) -> (TapeView, Result<DecisionView, HaltView>) {
    tape::bind(
        checks_from(t, s, prs, trees, opts, 0, Seq::empty()),
        |t: TapeView, checks: Seq<LayerCheck>|
            tape::bind(
                restack_below(
                    t,
                    s,
                    prs,
                    trees,
                    s.layers.len() as int,
                    checks.map_values(|c: LayerCheck| c.push),
                ),
                |t: TapeView, push: Seq<bool>|
                    tape::done(t, decision_of(s, prs, opts, checks, push)),
            ),
    )
}

fn check_layers(
    t: &mut Tape,
    stack: &Stack,
    prs: &Vec<Option<PullRequest>>,
    trees: &Trees,
    opts: &SyncOptions,
) -> (r: Result<Vec<LayerCheck>, Halt>)
    requires
        fits(stack@, prs.deep_view(), trees.deep_view()),
    ensures
        ({
            let spec = checks_from(
                old(t)@,
                stack@,
                prs.deep_view(),
                trees.deep_view(),
                opts@,
                0,
                Seq::empty(),
            );
            &&& final(t)@ == spec.0
            &&& match r {
                Ok(checks) => spec.1 == Ok::<Seq<LayerCheck>, HaltView>(checks@) && checks@.len()
                    == stack@.layers.len(),
                Err(h) => spec.1 == Err::<Seq<LayerCheck>, HaltView>(h.deep_view()),
            }
        }),
{
    let mut checks: Vec<LayerCheck> = Vec::new();
    let mut i: usize = 0;
    assert(checks@ =~= Seq::<LayerCheck>::empty());
    while i < stack.layers.len()
        invariant
            i <= stack.layers@.len(),
            checks@.len() == i,
            fits(stack@, prs.deep_view(), trees.deep_view()),
            checks_from(
                t@,
                stack@,
                prs.deep_view(),
                trees.deep_view(),
                opts@,
                i as int,
                checks@,
            ) == checks_from(
                old(t)@,
                stack@,
                prs.deep_view(),
                trees.deep_view(),
                opts@,
                0,
                Seq::empty(),
            ),
        decreases stack.layers@.len() - i,
    {
        let check = check_layer(t, stack, prs, trees, opts, i)?;
        checks.push(check);
        i = i + 1;
    }
    Ok(checks)
}

#[verifier::loop_isolation(false)]
fn restack(
    t: &mut Tape,
    stack: &Stack,
    prs: &Vec<Option<PullRequest>>,
    trees: &Trees,
    wanted: Vec<bool>,
) -> (r: Result<Vec<bool>, Halt>)
    requires
        fits(stack@, prs.deep_view(), trees.deep_view()),
        wanted@.len() == stack@.layers.len(),
    ensures
        ({
            let spec = restack_below(
                old(t)@,
                stack@,
                prs.deep_view(),
                trees.deep_view(),
                stack@.layers.len() as int,
                wanted@,
            );
            &&& final(t)@ == spec.0
            &&& match r {
                Ok(push) => spec.1 == Ok::<Seq<bool>, HaltView>(push@) && push@.len()
                    == stack@.layers.len(),
                Err(h) => spec.1 == Err::<Seq<bool>, HaltView>(h.deep_view()),
            }
        }),
{
    let ghost before = wanted@;
    let mut push = wanted;
    let mut n: usize = stack.layers.len();
    while n > 0
        invariant
            n <= stack.layers@.len(),
            push@.len() == stack.layers@.len(),
            fits(stack@, prs.deep_view(), trees.deep_view()),
            restack_below(
                t@,
                stack@,
                prs.deep_view(),
                trees.deep_view(),
                n as int,
                push@,
            ) == restack_below(
                old(t)@,
                stack@,
                prs.deep_view(),
                trees.deep_view(),
                stack@.layers.len() as int,
                before,
            ),
        decreases n,
    {
        let i: usize = n - 1;
        assert(stack@.layers[i as int].dep == stack.layers@[i as int].dep);
        if push[i] {
            match stack.layers[i].dep {
                Dep::Layer(j) => {
                    assert(prs.deep_view()[j as int] == prs@[j as int].deep_view());
                    let up_to_date = match &prs[j] {
                        None => false,
                        Some(pr) => carries_content(t, stack, pr, trees.effective[j])?,
                    };
                    if !up_to_date {
                        push.set(j, true);
                    }
                },
                _ => {},
            }
        }
        n = n - 1;
    }
    Ok(push)
}

fn has_base_moved(
    stack: &Stack,
    prs: &Vec<Option<PullRequest>>,
    check: LayerCheck,
    push: &Vec<bool>,
    i: usize,
) -> (r: bool)
    requires
        i < stack@.layers.len(),
        prs@.len() == stack@.layers.len(),
        push@.len() == stack@.layers.len(),
        stack::well_formed(stack@),
    ensures
        r == base_moved(stack@, prs.deep_view(), check, push@, i as int),
{
    let target = base_tip_on_forge(stack, prs, i);
    assert(stack@.layers[i as int].dep == stack.layers@[i as int].dep);
    let elsewhere = match (target, check.anchor) {
        (Some(a), Some(b)) => a != b,
        (None, None) => false,
        _ => true,
    };
    match stack.layers[i].dep {
        Dep::Layer(j) => push[j] || elsewhere,
        _ => elsewhere && !check.settled,
    }
}

fn decide_rewrites(
    stack: &Stack,
    prs: &Vec<Option<PullRequest>>,
    opts: &SyncOptions,
    checks: &Vec<LayerCheck>,
    rewrite: &mut Vec<bool>,
    push: &mut Vec<bool>,
)
    requires
        stack::well_formed(stack@),
        prs@.len() == stack@.layers.len(),
        checks@.len() == stack@.layers.len(),
        old(rewrite)@.len() == stack@.layers.len(),
        old(push)@.len() == stack@.layers.len(),
    ensures
        (final(rewrite)@, final(push)@) == rewrites_from(
            stack@,
            prs.deep_view(),
            opts@,
            checks@,
            0,
            old(rewrite)@,
            old(push)@,
        ),
        final(rewrite)@.len() == stack@.layers.len(),
        final(push)@.len() == stack@.layers.len(),
{
    let mut i: usize = 0;
    while i < stack.layers.len()
        invariant
            i <= stack.layers@.len(),
            stack::well_formed(stack@),
            prs@.len() == stack.layers@.len(),
            checks@.len() == stack.layers@.len(),
            rewrite@.len() == stack.layers@.len(),
            push@.len() == stack.layers@.len(),
            rewrites_from(stack@, prs.deep_view(), opts@, checks@, i as int, rewrite@, push@)
                == rewrites_from(
                stack@,
                prs.deep_view(),
                opts@,
                checks@,
                0,
                old(rewrite)@,
                old(push)@,
            ),
        decreases stack.layers@.len() - i,
    {
        assert(prs.deep_view()[i as int] == prs@[i as int].deep_view());
        assert(stack@.layers[i as int].dep == stack.layers@[i as int].dep);
        let scoped = match opts.only_layer {
            Some(only) => i == only,
            None => true,
        };
        if scoped && prs[i].is_some() {
            let cascades = match stack.layers[i].dep {
                Dep::Layer(j) => rewrite[j],
                _ => false,
            };
            let moved = has_base_moved(stack, prs, checks[i], push, i);
            let pushed = push[i] || cascades;
            let rewritten = rewrite[i] || cascades || (pushed && (!opts.preserve_commit_history
                || moved));
            rewrite.set(i, rewritten);
            push.set(i, pushed);
        } else {
            assert(rewrite@.update(i as int, rewrite@[i as int]) =~= rewrite@);
            assert(push@.update(i as int, push@[i as int]) =~= push@);
        }
        i = i + 1;
    }
}

/// Decides which layers to push, and how.
pub fn decide(
    t: &mut Tape,
    stack: &Stack,
    prs: &Vec<Option<PullRequest>>,
    trees: &Trees,
    opts: &SyncOptions,
) -> (r: Result<Decision, Halt>)
    requires
        fits(stack@, prs.deep_view(), trees.deep_view()),
    ensures
        (final(t)@, tape::outcome(r)) == decided(
            old(t)@,
            stack@,
            prs.deep_view(),
            trees.deep_view(),
            opts@,
        ),
        r matches Ok(d) ==> decides_for(d.deep_view(), stack@),
{
    let checks = check_layers(t, stack, prs, trees, opts)?;
    let mut patch_changed: Vec<bool> = Vec::new();
    let mut message_changed: Vec<bool> = Vec::new();
    let mut github_message_edited: Vec<bool> = Vec::new();
    let mut rewrite_history: Vec<bool> = Vec::new();
    let mut wanted: Vec<bool> = Vec::new();
    let mut i: usize = 0;
    while i < checks.len()
        invariant
            i <= checks@.len(),
            patch_changed@ == checks@.take(i as int).map_values(|c: LayerCheck| c.patch_changed),
            message_changed@ == checks@.take(i as int).map_values(
                |c: LayerCheck| c.message_changed,
            ),
            github_message_edited@ == checks@.take(i as int).map_values(
                |c: LayerCheck| c.github_message_edited,
            ),
            rewrite_history@ == checks@.take(i as int).map_values(|c: LayerCheck| c.rewrite),
            wanted@ == checks@.take(i as int).map_values(|c: LayerCheck| c.push),
        decreases checks@.len() - i,
    {
        patch_changed.push(checks[i].patch_changed);
        message_changed.push(checks[i].message_changed);
        github_message_edited.push(checks[i].github_message_edited);
        rewrite_history.push(checks[i].rewrite);
        wanted.push(checks[i].push);
        i = i + 1;
    }
    assert(checks@.take(i as int) =~= checks@);
    let mut push = restack(t, stack, prs, trees, wanted)?;
    decide_rewrites(stack, prs, opts, &checks, &mut rewrite_history, &mut push);
    Ok(Decision { patch_changed, message_changed, github_message_edited, rewrite_history, push })
}

/// The decision says something of each layer.
pub open spec fn decides_for(d: DecisionView, s: StackView) -> bool {
    d.patch_changed.len() == s.layers.len() && d.message_changed.len() == s.layers.len()
        && d.github_message_edited.len() == s.layers.len() && d.rewrite_history.len()
        == s.layers.len() && d.push.len() == s.layers.len()
}

pub broadcast proof fn lemma_gather_from_only(
    from: TapeView,
    t: TapeView,
    s: StackView,
    i: int,
    prs: Seq<Option<PrView>>,
    allowed: spec_fn(RequestView) -> bool,
)
    requires
        #[trigger] tape::only(from, t, allowed),
        tape::may_look(allowed),
    ensures
        tape::only(from, (#[trigger] gather_from(t, s, i, prs)).0, allowed),
    decreases s.layers.len() - i,
{
    broadcast use tape::lemma_only_ask;

    if 0 <= i < s.layers.len() {
        match s.layers[i].pr {
            None => lemma_gather_from_only(from, t, s, i + 1, prs.push(None), allowed),
            Some(number) => {
                let (t1, pr) = tape::ask_pr(t, RequestView::GetPullRequest { number });
                if pr is Ok {
                    let pr = pr->Ok_0;
                    let (t2, r2) = tape::ask_unit(
                        t1,
                        RequestView::FetchCommit { commit: pr.head_oid },
                    );
                    let (t3, r3) = if pr.base_oid != oid::zero_oid() {
                        tape::ask_unit(t2, RequestView::FetchCommit { commit: pr.base_oid })
                    } else {
                        tape::done(t2, ())
                    };
                    if r2 is Ok && r3 is Ok {
                        lemma_gather_from_only(from, t3, s, i + 1, prs.push(Some(pr)), allowed);
                    }
                }
            },
        }
    }
}

pub broadcast proof fn lemma_gathered_only(
    from: TapeView,
    t: TapeView,
    s: StackView,
    allowed: spec_fn(RequestView) -> bool,
)
    requires
        #[trigger] tape::only(from, t, allowed),
        tape::may_look(allowed),
    ensures
        tape::only(from, (#[trigger] gathered(t, s)).0, allowed),
{
    broadcast use {tape::lemma_only_ask, lemma_gather_from_only};

}

pub broadcast proof fn lemma_would_diverge_only(
    from: TapeView,
    t: TapeView,
    old_base_tip: Oid,
    old_head_tip: Oid,
    new_base_tree: Oid,
    desired: Oid,
    allowed: spec_fn(RequestView) -> bool,
)
    requires
        #[trigger] tape::only(from, t, allowed),
        tape::may_look(allowed),
    ensures
        tape::only(from, (#[trigger] would_diverge(t, old_base_tip, old_head_tip, new_base_tree, desired)).0, allowed),
{
    broadcast use tape::lemma_only_ask;

}

pub broadcast proof fn lemma_root_check_only(
    from: TapeView,
    t: TapeView,
    pr: PrView,
    message: MessageView,
    preserve: bool,
    root: Option<Oid>,
    allowed: spec_fn(RequestView) -> bool,
)
    requires
        #[trigger] tape::only(from, t, allowed),
        tape::may_look(allowed),
    ensures
        tape::only(from, (#[trigger] root_check(t, pr, message, preserve, root)).0, allowed),
{
    broadcast use tape::lemma_only_ask;

}

pub broadcast proof fn lemma_behind_base_only(
    from: TapeView,
    t: TapeView,
    pr: PrView,
    base_tip: Oid,
    anchor: Option<Oid>,
    matters: bool,
    allowed: spec_fn(RequestView) -> bool,
)
    requires
        #[trigger] tape::only(from, t, allowed),
        tape::may_look(allowed),
    ensures
        tape::only(from, (#[trigger] behind_base(t, pr, base_tip, anchor, matters)).0, allowed),
{
    broadcast use tape::lemma_only_ask;

}

pub broadcast proof fn lemma_may_stay_only(
    from: TapeView,
    t: TapeView,
    anchor: Option<Oid>,
    base_tip: Oid,
    head: Oid,
    dep_tree: Oid,
    effective: Oid,
    wanted: bool,
    allowed: spec_fn(RequestView) -> bool,
)
    requires
        #[trigger] tape::only(from, t, allowed),
        tape::may_look(allowed),
    ensures
        tape::only(from, (#[trigger] may_stay(t, anchor, base_tip, head, dep_tree, effective, wanted)).0, allowed),
{
    broadcast use {tape::lemma_only_ask, history::group_history_only};

}

pub broadcast proof fn lemma_pr_check_only(
    from: TapeView,
    t: TapeView,
    pr: PrView,
    message: MessageView,
    base_tip: Oid,
    dep_tree: Oid,
    effective: Oid,
    opts: OptionsView,
    settles: bool,
    allowed: spec_fn(RequestView) -> bool,
)
    requires
        #[trigger] tape::only(from, t, allowed),
        tape::may_look(allowed),
    ensures
        tape::only(from, (#[trigger] pr_check(t, pr, message, base_tip, dep_tree, effective, opts, settles)).0, allowed),
{
    broadcast use {tape::lemma_only_ask, history::group_history_only, lemma_root_check_only, lemma_would_diverge_only, lemma_behind_base_only, lemma_may_stay_only};

}

pub broadcast proof fn lemma_layer_check_only(
    from: TapeView,
    t: TapeView,
    s: StackView,
    prs: Seq<Option<PrView>>,
    trees: TreesView,
    opts: OptionsView,
    i: int,
    allowed: spec_fn(RequestView) -> bool,
)
    requires
        #[trigger] tape::only(from, t, allowed),
        tape::may_look(allowed),
    ensures
        tape::only(from, (#[trigger] layer_check(t, s, prs, trees, opts, i)).0, allowed),
{
    broadcast use {tape::lemma_only_ask, lemma_pr_check_only};

}

pub broadcast proof fn lemma_checks_from_only(
    from: TapeView,
    t: TapeView,
    s: StackView,
    prs: Seq<Option<PrView>>,
    trees: TreesView,
    opts: OptionsView,
    i: int,
    checks: Seq<LayerCheck>,
    allowed: spec_fn(RequestView) -> bool,
)
    requires
        #[trigger] tape::only(from, t, allowed),
        tape::may_look(allowed),
    ensures
        tape::only(from, (#[trigger] checks_from(t, s, prs, trees, opts, i, checks)).0, allowed),
    decreases s.layers.len() - i,
{
    broadcast use {tape::lemma_only_ask, lemma_layer_check_only};

    if 0 <= i < s.layers.len() {
        let (t1, check) = layer_check(t, s, prs, trees, opts, i);
        if check is Ok {
            lemma_checks_from_only(
                from,
                t1,
                s,
                prs,
                trees,
                opts,
                i + 1,
                checks.push(check->Ok_0),
                allowed,
            );
        }
    }
}

pub broadcast proof fn lemma_carries_only(
    from: TapeView,
    t: TapeView,
    s: StackView,
    pr: PrView,
    effective: Oid,
    allowed: spec_fn(RequestView) -> bool,
)
    requires
        #[trigger] tape::only(from, t, allowed),
        tape::may_look(allowed),
    ensures
        tape::only(from, (#[trigger] carries(t, s, pr, effective)).0, allowed),
{
    broadcast use {tape::lemma_only_ask, history::group_history_only};

}

pub broadcast proof fn lemma_restack_below_only(
    from: TapeView,
    t: TapeView,
    s: StackView,
    prs: Seq<Option<PrView>>,
    trees: TreesView,
    n: int,
    push: Seq<bool>,
    allowed: spec_fn(RequestView) -> bool,
)
    requires
        #[trigger] tape::only(from, t, allowed),
        tape::may_look(allowed),
    ensures
        tape::only(from, (#[trigger] restack_below(t, s, prs, trees, n, push)).0, allowed),
    decreases n,
{
    broadcast use {tape::lemma_only_ask, lemma_carries_only};

    if n > 0 {
        if !push[n - 1] {
            lemma_restack_below_only(from, t, s, prs, trees, n - 1, push, allowed);
        } else {
            match s.layers[n - 1].dep {
                Dep::Layer(j) => match prs[j as int] {
                    None => lemma_restack_below_only(
                        from,
                        t,
                        s,
                        prs,
                        trees,
                        n - 1,
                        push.update(j as int, true),
                        allowed,
                    ),
                    Some(pr) => {
                        let (t1, r) = carries(t, s, pr, trees.effective[j as int]);
                        if r is Ok {
                            lemma_restack_below_only(
                                from,
                                t1,
                                s,
                                prs,
                                trees,
                                n - 1,
                                if r->Ok_0 {
                                    push
                                } else {
                                    push.update(j as int, true)
                                },
                                allowed,
                            );
                        }
                    },
                },
                _ => lemma_restack_below_only(from, t, s, prs, trees, n - 1, push, allowed),
            }
        }
    }
}

pub broadcast proof fn lemma_decided_only(
    from: TapeView,
    t: TapeView,
    s: StackView,
    prs: Seq<Option<PrView>>,
    trees: TreesView,
    opts: OptionsView,
    allowed: spec_fn(RequestView) -> bool,
)
    requires
        #[trigger] tape::only(from, t, allowed),
        tape::may_look(allowed),
    ensures
        tape::only(from, (#[trigger] decided(t, s, prs, trees, opts)).0, allowed),
{
    broadcast use {tape::lemma_only_ask, lemma_checks_from_only, lemma_restack_below_only};

}

/// Whatever there is to say against a layer has it pushed.
pub proof fn lemma_pr_check(
    t: TapeView,
    pr: PrView,
    message: MessageView,
    base_tip: Oid,
    dep_tree: Oid,
    effective: Oid,
    opts: OptionsView,
    settles: bool,
)
    ensures
        pr_check(t, pr, message, base_tip, dep_tree, effective, opts, settles).1 matches Ok(check)
            ==> (check.patch_changed || check.message_changed || check.rewrite || opts.sync_all
            || forge::worth_refreshing(pr, opts.refresh_when_behind) ==> check.push),
{
    if pr_check(t, pr, message, base_tip, dep_tree, effective, opts, settles).1 is Ok {
        let (t1, root) = history::root_commit(t, pr, base_tip);
        let (t2, check) = root_check(t1, pr, message, opts.preserve_commit_history, root->Ok_0);
        let (t3, shown) = review_diff::patch_hash(t2, base_tip, pr.head_oid);
        let (t4, desired) = tape::ask_object(
            t3,
            RequestView::PatchId { from: dep_tree, to: effective },
        );
        let (t5, diverges) = would_diverge(t4, base_tip, pr.head_oid, dep_tree, effective);
        let (t6, behind) = behind_base(
            t5,
            pr,
            base_tip,
            (check->Ok_0).anchor,
            opts.refresh_when_behind,
        );
        let (t7, settled) = may_stay(
            t6,
            (check->Ok_0).anchor,
            base_tip,
            pr.head_oid,
            dep_tree,
            effective,
            settles,
        );
    }
}

/// A layer is pushed whenever what readers see of it would change: its patch, its
/// message or its history. It is created where it has no pull request, and one
/// that is not to be synced is left alone.
pub proof fn law_changes_are_pushed(
    t: TapeView,
    s: StackView,
    prs: Seq<Option<PrView>>,
    trees: TreesView,
    opts: OptionsView,
    i: int,
)
    ensures
        layer_check(t, s, prs, trees, opts, i).1 matches Ok(check) ==> (check.patch_changed
            || check.message_changed || check.rewrite ==> check.push) && (in_scope(opts, i)
            && prs[i] is None ==> check.push) && (!in_scope(opts, i) ==> !check.push),
{
    match prs[i] {
        Some(pr) => match remote_base_tip(s, prs, i) {
            Some(base_tip) => lemma_pr_check(
                t,
                pr,
                s.layers[i].message,
                base_tip,
                trees.dep[i],
                trees.effective[i],
                opts,
                may_settle(s, opts, i),
            ),
            None => {},
        },
        None => {},
    }
}

proof fn lemma_checks_from(
    t: TapeView,
    s: StackView,
    prs: Seq<Option<PrView>>,
    trees: TreesView,
    opts: OptionsView,
    i: int,
    checks: Seq<LayerCheck>,
)
    requires
        0 <= i <= s.layers.len(),
        checks.len() == i,
        forall|k: int|
            0 <= k < i ==> ((#[trigger] checks[k]).rewrite ==> checks[k].push) && (!in_scope(opts, k)
                ==> !checks[k].push) && (in_scope(opts, k) && prs[k] is None ==> checks[k].push),
    ensures
        checks_from(t, s, prs, trees, opts, i, checks).1 matches Ok(all) ==> all.len()
            == s.layers.len() && (forall|k: int|
            0 <= k < all.len() ==> ((#[trigger] all[k]).rewrite ==> all[k].push) && (!in_scope(
                opts,
                k,
            ) ==> !all[k].push) && (in_scope(opts, k) && prs[k] is None ==> all[k].push)),
    decreases s.layers.len() - i,
{
    if i < s.layers.len() {
        let (t1, check) = layer_check(t, s, prs, trees, opts, i);
        law_changes_are_pushed(t, s, prs, trees, opts, i);
        if check is Ok {
            lemma_checks_from(t1, s, prs, trees, opts, i + 1, checks.push(check->Ok_0));
        }
    }
}

/// Pushing what a pushed layer sits on only ever adds layers, and adds none where
/// no pushed layer sits on another one.
proof fn lemma_restack_below(
    t: TapeView,
    s: StackView,
    prs: Seq<Option<PrView>>,
    trees: TreesView,
    n: int,
    push: Seq<bool>,
)
    requires
        stack::well_formed(s),
        0 <= n <= s.layers.len(),
        push.len() == s.layers.len(),
    ensures
        restack_below(t, s, prs, trees, n, push).1 matches Ok(all) ==> all.len() == push.len() && (
        forall|k: int| 0 <= k < push.len() && #[trigger] push[k] ==> all[k]) && ((forall|k: int|
            0 <= k < push.len() && #[trigger] push[k] ==> !(s.layers[k].dep is Layer)) ==> all
            == push),
    decreases n,
{
    if n > 0 {
        if !push[n - 1] {
            lemma_restack_below(t, s, prs, trees, n - 1, push);
        } else {
            match s.layers[n - 1].dep {
                Dep::Layer(j) => {
                    assert(j < n - 1);
                    match prs[j as int] {
                        None => lemma_restack_below(
                            t,
                            s,
                            prs,
                            trees,
                            n - 1,
                            push.update(j as int, true),
                        ),
                        Some(pr) => {
                            let (t1, r) = carries(t, s, pr, trees.effective[j as int]);
                            if r is Ok {
                                let next = if r->Ok_0 {
                                    push
                                } else {
                                    push.update(j as int, true)
                                };
                                lemma_restack_below(t1, s, prs, trees, n - 1, next);
                                assert(restack_below(t, s, prs, trees, n, push) == restack_below(
                                    t1,
                                    s,
                                    prs,
                                    trees,
                                    n - 1,
                                    next,
                                ));
                            }
                        },
                    }
                    if restack_below(t, s, prs, trees, n, push).1 is Ok {
                        let all = restack_below(t, s, prs, trees, n, push).1->Ok_0;
                        assert forall|k: int| 0 <= k < push.len() && #[trigger] push[k] implies all[k] by {
                            assert(push.update(j as int, true)[k]);
                        }
                    }
                },
                _ => lemma_restack_below(t, s, prs, trees, n - 1, push),
            }
        }
    }
}

/// Two decisions agree on layer `k`.
spec fn agree(r: Seq<bool>, p: Seq<bool>, rewrite: Seq<bool>, push: Seq<bool>, k: int) -> bool {
    r[k] == rewrite[k] && p[k] == push[k]
}

/// Nothing is to be done for layer `k`.
spec fn idle(rewrite: Seq<bool>, push: Seq<bool>, k: int) -> bool {
    !push[k] && !rewrite[k]
}

/// Layer `k` is rewritten and pushed if what it sits on is rewritten.
pub open spec fn follows(s: StackView, r: Seq<bool>, p: Seq<bool>, k: int) -> bool {
    s.layers[k].dep matches Dep::Layer(j) ==> (r[j as int] ==> r[k] && p[k])
}

proof fn lemma_rewrites_from(
    s: StackView,
    prs: Seq<Option<PrView>>,
    opts: OptionsView,
    checks: Seq<LayerCheck>,
    i: int,
    rewrite: Seq<bool>,
    push: Seq<bool>,
)
    requires
        stack::well_formed(s),
        0 <= i <= s.layers.len(),
        rewrite.len() == s.layers.len(),
        push.len() == s.layers.len(),
    ensures
        ({
            let (r, p) = rewrites_from(s, prs, opts, checks, i, rewrite, push);
            &&& r.len() == s.layers.len() && p.len() == s.layers.len()
            &&& forall|k: int| 0 <= k < i ==> #[trigger] agree(r, p, rewrite, push, k)
            &&& forall|k: int|
                0 <= k < s.layers.len() && !in_scope(opts, k) ==> #[trigger] p[k] == push[k]
            &&& forall|k: int| 0 <= k < s.layers.len() && push[k] ==> #[trigger] p[k]
            &&& forall|k: int|
                i <= k < s.layers.len() && in_scope(opts, k) && prs[k] is Some
                    ==> #[trigger] follows(s, r, p, k)
            &&& (forall|k: int| 0 <= k < s.layers.len() ==> #[trigger] idle(rewrite, push, k)) ==> r
                == rewrite && p == push
        }),
    decreases s.layers.len() - i,
{
    if i < s.layers.len() {
        let (one, pushed) = rewrite_of(s, prs, opts, checks, i, rewrite, push);
        let next = rewrite.update(i, one);
        let more = push.update(i, pushed);
        assert(s.layers[i].dep matches Dep::Layer(j) ==> j < i);
        lemma_rewrites_from(s, prs, opts, checks, i + 1, next, more);
        let (r, p) = rewrites_from(s, prs, opts, checks, i, rewrite, push);
        let (upper, later) = rewrites_from(s, prs, opts, checks, i + 1, next, more);
        assert(r == upper && p == later);
        assert forall|k: int| 0 <= k < s.layers.len() && push[k] implies #[trigger] p[k] by {
            assert(more[k]);
        }
        assert forall|k: int| 0 <= k < s.layers.len() && !in_scope(opts, k) implies #[trigger] p[k]
            == push[k] by {
            assert(more[k] == push[k]);
        }
        assert forall|k: int|
            i <= k < s.layers.len() && in_scope(opts, k) && prs[k] is Some implies #[trigger] follows(
            s,
            r,
            p,
            k,
        ) by {
            if k == i {
                assert(agree(upper, later, next, more, i));
                if s.layers[i].dep is Layer {
                    let j = s.layers[i].dep->Layer_0 as int;
                    assert(agree(upper, later, next, more, j));
                }
            }
        }
        assert forall|k: int| 0 <= k < i implies #[trigger] agree(r, p, rewrite, push, k) by {
            assert(agree(upper, later, next, more, k));
        }
        if forall|k: int| 0 <= k < s.layers.len() ==> #[trigger] idle(rewrite, push, k) {
            assert(idle(rewrite, push, i));
            if s.layers[i].dep is Layer {
                let j = s.layers[i].dep->Layer_0 as int;
                assert(idle(rewrite, push, j));
            }
            assert(next =~= rewrite);
            assert(more =~= push);
        }
    }
}

/// Where no layer has anything against it, nothing is pushed.
pub proof fn law_untouched_stack_is_left_alone(
    t: TapeView,
    s: StackView,
    prs: Seq<Option<PrView>>,
    trees: TreesView,
    opts: OptionsView,
)
    requires
        fits(s, prs, trees),
    ensures
        ({
            let checks = checks_from(t, s, prs, trees, opts, 0, Seq::empty()).1;
            let decision = decided(t, s, prs, trees, opts).1;
            checks is Ok && decision is Ok && (forall|i: int|
                0 <= i < (checks->Ok_0).len() ==> !(#[trigger] (checks->Ok_0)[i]).push)
                ==> forall|i: int|
                0 <= i < s.layers.len() ==> !#[trigger] (decision->Ok_0).push[i]
        }),
{
    lemma_checks_from(t, s, prs, trees, opts, 0, Seq::empty());
    let (t1, checks) = checks_from(t, s, prs, trees, opts, 0, Seq::empty());
    if checks is Ok && (forall|i: int|
        0 <= i < (checks->Ok_0).len() ==> !(#[trigger] (checks->Ok_0)[i]).push) {
        let checks = checks->Ok_0;
        let push = checks.map_values(|c: LayerCheck| c.push);
        let rewrite = checks.map_values(|c: LayerCheck| c.rewrite);
        lemma_restack_below(t1, s, prs, trees, s.layers.len() as int, push);
        assert forall|k: int| 0 <= k < s.layers.len() implies #[trigger] idle(rewrite, push, k) by {
            assert(!checks[k].push);
        }
        assert forall|k: int| 0 <= k < push.len() implies !#[trigger] push[k] by {
            assert(idle(rewrite, push, k));
        }
        lemma_rewrites_from(s, prs, opts, checks, 0, rewrite, push);
    }
}

/// A layer that sits on a rewritten one is rewritten and pushed as well, and so
/// on upwards.
pub proof fn law_rewrites_cascade(
    t: TapeView,
    s: StackView,
    prs: Seq<Option<PrView>>,
    trees: TreesView,
    opts: OptionsView,
)
    requires
        fits(s, prs, trees),
    ensures
        decided(t, s, prs, trees, opts).1 matches Ok(d) ==> forall|i: int|
            0 <= i < s.layers.len() && in_scope(opts, i) && prs[i] is Some ==> #[trigger] follows(
                s,
                d.rewrite_history,
                d.push,
                i,
            ),
{
    lemma_checks_from(t, s, prs, trees, opts, 0, Seq::empty());
    let (t1, checks) = checks_from(t, s, prs, trees, opts, 0, Seq::empty());
    if checks is Ok {
        let checks = checks->Ok_0;
        let push = checks.map_values(|c: LayerCheck| c.push);
        let rewrite = checks.map_values(|c: LayerCheck| c.rewrite);
        lemma_restack_below(t1, s, prs, trees, s.layers.len() as int, push);
        let (t2, all) = restack_below(t1, s, prs, trees, s.layers.len() as int, push);
        if all is Ok {
            lemma_rewrites_from(s, prs, opts, checks, 0, rewrite, all->Ok_0);
        }
    }
}

/// Where a single layer is synced and it sits on the trunk, no other layer is
/// pushed.
pub proof fn law_single_layer_goes_alone(
    t: TapeView,
    s: StackView,
    prs: Seq<Option<PrView>>,
    trees: TreesView,
    opts: OptionsView,
    layer: usize,
)
    requires
        fits(s, prs, trees),
        layer < s.layers.len(),
        opts.only_layer == Some(layer),
        !(s.layers[layer as int].dep is Layer),
    ensures
        decided(t, s, prs, trees, opts).1 matches Ok(d) ==> forall|i: int|
            0 <= i < s.layers.len() && i != layer ==> !#[trigger] d.push[i],
{
    lemma_checks_from(t, s, prs, trees, opts, 0, Seq::empty());
    let (t1, checks) = checks_from(t, s, prs, trees, opts, 0, Seq::empty());
    if checks is Ok {
        let checks = checks->Ok_0;
        let push = checks.map_values(|c: LayerCheck| c.push);
        let rewrite = checks.map_values(|c: LayerCheck| c.rewrite);
        assert forall|k: int| 0 <= k < push.len() && #[trigger] push[k] implies !(
        s.layers[k].dep is Layer) by {
            assert(checks[k].push);
        }
        lemma_restack_below(t1, s, prs, trees, s.layers.len() as int, push);
        lemma_rewrites_from(s, prs, opts, checks, 0, rewrite, push);
        if decided(t, s, prs, trees, opts).1 is Ok {
            let d = decided(t, s, prs, trees, opts).1->Ok_0;
            assert forall|i: int| 0 <= i < s.layers.len() && i != layer implies !#[trigger] d.push[i] by {
                assert(!in_scope(opts, i));
                assert(!checks[i].push);
                assert(!push[i]);
            }
        }
    }
}

/// A decision says something of each layer.
pub proof fn lemma_decides_for(
    t: TapeView,
    s: StackView,
    prs: Seq<Option<PrView>>,
    trees: TreesView,
    opts: OptionsView,
)
    requires
        fits(s, prs, trees),
    ensures
        decided(t, s, prs, trees, opts).1 matches Ok(d) ==> decides_for(d, s),
{
    let (t1, checks) = checks_from(t, s, prs, trees, opts, 0, Seq::empty());
    lemma_checks_from(t, s, prs, trees, opts, 0, Seq::empty());
    if checks is Ok {
        let checks = checks->Ok_0;
        let push = checks.map_values(|c: LayerCheck| c.push);
        let rewrite = checks.map_values(|c: LayerCheck| c.rewrite);
        let (t2, all) = restack_below(t1, s, prs, trees, s.layers.len() as int, push);
        lemma_restack_below(t1, s, prs, trees, s.layers.len() as int, push);
        if all is Ok {
            lemma_rewrites_from(s, prs, opts, checks, 0, rewrite, all->Ok_0);
        }
    }
}

/// Every layer without a pull request is pushed, unless another one alone is synced.
pub proof fn law_new_layers_are_pushed(
    t: TapeView,
    s: StackView,
    prs: Seq<Option<PrView>>,
    trees: TreesView,
    opts: OptionsView,
)
    requires
        fits(s, prs, trees),
    ensures
        decided(t, s, prs, trees, opts).1 matches Ok(d) ==> forall|i: int|
            0 <= i < s.layers.len() && in_scope(opts, i) && prs[i] is None ==> #[trigger] d.push[i],
{
    let (t1, checks) = checks_from(t, s, prs, trees, opts, 0, Seq::empty());
    lemma_checks_from(t, s, prs, trees, opts, 0, Seq::empty());
    if checks is Ok {
        let checks = checks->Ok_0;
        let push = checks.map_values(|c: LayerCheck| c.push);
        let rewrite = checks.map_values(|c: LayerCheck| c.rewrite);
        let (t2, all) = restack_below(t1, s, prs, trees, s.layers.len() as int, push);
        lemma_restack_below(t1, s, prs, trees, s.layers.len() as int, push);
        if all is Ok {
            lemma_rewrites_from(s, prs, opts, checks, 0, rewrite, all->Ok_0);
            assert forall|i: int|
                0 <= i < s.layers.len() && in_scope(opts, i) && prs[i] is None implies push[i] by {
                assert(checks[i].push);
            }
        }
    }
}

/// What is gathered has a place for each layer, which is empty where the layer has no
/// pull request.
pub proof fn lemma_gathered(t: TapeView, s: StackView, i: int, prs: Seq<Option<PrView>>)
    requires
        0 <= i <= s.layers.len(),
        prs.len() == i,
        forall|k: int| 0 <= k < i ==> ((#[trigger] prs[k]) is None <==> s.layers[k].pr is None),
    ensures
        gather_from(t, s, i, prs).1 matches Ok(all) ==> all.len() == s.layers.len() && (forall|k: int|
            0 <= k < all.len() ==> ((#[trigger] all[k]) is None <==> s.layers[k].pr is None)),
    decreases s.layers.len() - i,
{
    if i < s.layers.len() {
        match s.layers[i].pr {
            None => lemma_gathered(t, s, i + 1, prs.push(None)),
            Some(number) => {
                let (t1, pr) = tape::ask_pr(t, RequestView::GetPullRequest { number });
                if pr is Ok {
                    let pr = pr->Ok_0;
                    let (t2, r2) = tape::ask_unit(
                        t1,
                        RequestView::FetchCommit { commit: pr.head_oid },
                    );
                    let (t3, r3) = if pr.base_oid != oid::zero_oid() {
                        tape::ask_unit(t2, RequestView::FetchCommit { commit: pr.base_oid })
                    } else {
                        tape::done(t2, ())
                    };
                    if r2 is Ok && r3 is Ok {
                        lemma_gathered(t3, s, i + 1, prs.push(Some(pr)));
                        assert(gather_from(t, s, i, prs) == gather_from(
                            t3,
                            s,
                            i + 1,
                            prs.push(Some(pr)),
                        ));
                    }
                }
            },
        }
    }
}

/// What is decided of layer `k` follows from what was found: it is left alone only where
/// nothing was found against it, and, where it is synced, what it sits on is not rewritten;
/// a branch that is pushed without being rewritten sits where it is to sit; and what a
/// pushed layer depends on is pushed too where it has no pull request.
pub open spec fn warranted(
    s: StackView,
    prs: Seq<Option<PrView>>,
    opts: OptionsView,
    checks: Seq<LayerCheck>,
    d: DecisionView,
    k: int,
) -> bool {
    &&& !d.push[k] ==> !checks[k].push
    &&& d.message_changed[k] == checks[k].message_changed
    &&& in_scope(opts, k) && prs[k] is None ==> d.push[k]
    &&& d.push[k] && (s.layers[k].dep matches Dep::Layer(j) && prs[j as int] is None)
        ==> d.push[s.layers[k].dep->Layer_0 as int]
    &&& in_scope(opts, k) && prs[k] is Some ==> follows(s, d.rewrite_history, d.push, k)
    &&& in_scope(opts, k) && prs[k] is Some && d.push[k] && !d.rewrite_history[k] ==> {
        &&& opts.preserve_commit_history
        &&& !checks[k].rewrite
        &&& !base_moved(s, prs, checks[k], d.push, k)
    }
}

proof fn lemma_kept(
    s: StackView,
    prs: Seq<Option<PrView>>,
    opts: OptionsView,
    checks: Seq<LayerCheck>,
    i: int,
    rewrite: Seq<bool>,
    push: Seq<bool>,
)
    requires
        stack::well_formed(s),
        0 <= i <= s.layers.len(),
        rewrite.len() == s.layers.len(),
        push.len() == s.layers.len(),
    ensures
        ({
            let (r, p) = rewrites_from(s, prs, opts, checks, i, rewrite, push);
            forall|k: int|
                i <= k < s.layers.len() && in_scope(opts, k) && prs[k] is Some && p[k] && !(
                #[trigger] r[k]) ==> {
                    &&& opts.preserve_commit_history
                    &&& !rewrite[k]
                    &&& !base_moved(s, prs, checks[k], p, k)
                }
        }),
    decreases s.layers.len() - i,
{
    if i < s.layers.len() {
        let (one, pushed) = rewrite_of(s, prs, opts, checks, i, rewrite, push);
        let next = rewrite.update(i, one);
        let more = push.update(i, pushed);
        assert(s.layers[i].dep matches Dep::Layer(j) ==> j < i);
        lemma_rewrites_from(s, prs, opts, checks, i + 1, next, more);
        lemma_kept(s, prs, opts, checks, i + 1, next, more);
        let (r, p) = rewrites_from(s, prs, opts, checks, i + 1, next, more);
        assert(agree(r, p, next, more, i));
        if s.layers[i].dep is Layer {
            let j = s.layers[i].dep->Layer_0 as int;
            assert(agree(r, p, next, more, j));
        }
        assert forall|k: int|
            i <= k < s.layers.len() && in_scope(opts, k) && prs[k] is Some && p[k] && !(
                #[trigger] r[k]) implies {
            &&& opts.preserve_commit_history
            &&& !rewrite[k]
            &&& !base_moved(s, prs, checks[k], p, k)
        } by {
            if k > i {
                assert(!next[k]);
            }
        }
    }
}

/// Where one layer alone is synced, what is pushed is beneath it.
pub open spec fn beneath(s: StackView, x: int, k: int) -> bool
    decreases x,
{
    x == k || (match s.layers[x].dep {
        Dep::Layer(j) => 0 <= j < x && beneath(s, j as int, k),
        _ => false,
    })
}

/// What something beneath depends on is beneath as well.
pub proof fn lemma_beneath(s: StackView, x: int, k: int)
    requires
        stack::well_formed(s),
        0 <= x < s.layers.len(),
        beneath(s, x, k),
        s.layers[k].dep is Layer,
    ensures
        beneath(s, x, s.layers[k].dep->Layer_0 as int),
        0 <= k <= x,
    decreases x,
{
    if x == k {
        let j = s.layers[k].dep->Layer_0 as int;
        assert(j < k);
        assert(beneath(s, j, j));
    } else {
        lemma_beneath(s, s.layers[x].dep->Layer_0 as int, k);
    }
}

/// What a pushed layer depends on is pushed where it has no pull request, and nothing is
/// pushed but what is beneath.
proof fn lemma_restacked(
    t: TapeView,
    s: StackView,
    prs: Seq<Option<PrView>>,
    trees: TreesView,
    n: int,
    push: Seq<bool>,
    only: Option<usize>,
)
    requires
        stack::well_formed(s),
        0 <= n <= s.layers.len(),
        push.len() == s.layers.len(),
        forall|k: int| n <= k < s.layers.len() && #[trigger] push[k] ==> needs_pushed(s, prs, push, k),
        only matches Some(x) ==> x < s.layers.len() && (forall|k: int|
            0 <= k < s.layers.len() && #[trigger] push[k] ==> beneath(s, x as int, k)
                && push[x as int]),
    ensures
        restack_below(t, s, prs, trees, n, push).1 matches Ok(all) ==> all.len() == push.len() && (
        forall|k: int|
            0 <= k < s.layers.len() && #[trigger] all[k] ==> needs_pushed(s, prs, all, k)) && (
        only matches Some(x) ==> forall|k: int|
            0 <= k < s.layers.len() && #[trigger] all[k] ==> beneath(s, x as int, k)
                && all[x as int]),
    decreases n,
{
    if n > 0 {
        if !push[n - 1] {
            lemma_restacked(t, s, prs, trees, n - 1, push, only);
        } else {
            match s.layers[n - 1].dep {
                Dep::Layer(j) => {
                    assert(j < n - 1);
                    if only is Some {
                        let x = only->0 as int;
                        assert(beneath(s, x, n - 1));
                        lemma_beneath(s, x, n - 1);
                    }
                    let more = push.update(j as int, true);
                    assert forall|k: int|
                        n - 1 <= k < s.layers.len() && #[trigger] more[k] implies needs_pushed(
                        s,
                        prs,
                        more,
                        k,
                    ) by {
                        assert(push[k]);
                        if k >= n {
                            assert(needs_pushed(s, prs, push, k));
                        }
                    }
                    assert forall|k: int| 0 <= k < s.layers.len() && #[trigger] more[k] && only is Some implies
                        beneath(s, only->0 as int, k) && more[only->0 as int] by {
                        assert(k == j || push[k]);
                        assert(push[n - 1]);
                    }
                    match prs[j as int] {
                        None => lemma_restacked(t, s, prs, trees, n - 1, more, only),
                        Some(pr) => {
                            let (t1, up_to_date) = carries(t, s, pr, trees.effective[j as int]);
                            if up_to_date is Ok {
                                if up_to_date->Ok_0 {
                                    assert(needs_pushed(s, prs, push, n - 1));
                                    lemma_restacked(t1, s, prs, trees, n - 1, push, only);
                                } else {
                                    lemma_restacked(t1, s, prs, trees, n - 1, more, only);
                                }
                            }
                        },
                    }
                },
                _ => {
                    assert(needs_pushed(s, prs, push, n - 1));
                    lemma_restacked(t, s, prs, trees, n - 1, push, only);
                },
            }
        }
    }
}

/// Where one layer alone is synced, the pass over the rewrites pushes only what was to be
/// pushed.
proof fn lemma_unscoped(
    s: StackView,
    prs: Seq<Option<PrView>>,
    opts: OptionsView,
    checks: Seq<LayerCheck>,
    i: int,
    rewrite: Seq<bool>,
    push: Seq<bool>,
)
    requires
        stack::well_formed(s),
        0 <= i <= s.layers.len(),
        rewrite.len() == s.layers.len(),
        push.len() == s.layers.len(),
        opts.only_layer is Some,
        forall|k: int| 0 <= k < s.layers.len() && !in_scope(opts, k) ==> !#[trigger] rewrite[k],
    ensures
        rewrites_from(s, prs, opts, checks, i, rewrite, push).1 == push,
    decreases s.layers.len() - i,
{
    if i < s.layers.len() {
        let (one, pushed) = rewrite_of(s, prs, opts, checks, i, rewrite, push);
        if in_scope(opts, i) && prs[i] is Some && s.layers[i].dep is Layer {
            let j = s.layers[i].dep->Layer_0 as int;
            assert(j < i);
            assert(!in_scope(opts, j));
            assert(!rewrite[j]);
        }
        assert(pushed == push[i]);
        let next = rewrite.update(i, one);
        let more = push.update(i, pushed);
        assert(more =~= push);
        assert forall|k: int| 0 <= k < s.layers.len() && !in_scope(opts, k) implies !#[trigger] next[k] by {
            assert(!rewrite[k]);
        }
        lemma_unscoped(s, prs, opts, checks, i + 1, next, more);
    }
}

/// What layer `k` depends on is pushed where it has no pull request.
pub open spec fn needs_pushed(
    s: StackView,
    prs: Seq<Option<PrView>>,
    push: Seq<bool>,
    k: int,
) -> bool {
    match s.layers[k].dep {
        Dep::Layer(j) => prs[j as int] is None ==> push[j as int],
        _ => true,
    }
}

/// Where one layer alone is synced, nothing is pushed but what is beneath it, and
/// nothing at all unless it is.
pub open spec fn goes_alone(s: StackView, opts: OptionsView, d: DecisionView) -> bool {
    opts.only_layer matches Some(x) ==> forall|k: int|
        0 <= k < s.layers.len() && #[trigger] d.push[k] ==> x < s.layers.len() && beneath(
            s,
            x as int,
            k,
        ) && d.push[x as int]
}

/// Every decision follows from what was found.
pub proof fn law_decision_is_warranted(
    t: TapeView,
    s: StackView,
    prs: Seq<Option<PrView>>,
    trees: TreesView,
    opts: OptionsView,
)
    requires
        fits(s, prs, trees),
    ensures
        decided(t, s, prs, trees, opts).1 matches Ok(d) ==> ({
            let checks = checks_from(t, s, prs, trees, opts, 0, Seq::empty()).1;
            &&& checks is Ok
            &&& (checks->Ok_0).len() == s.layers.len()
            &&& decides_for(d, s)
            &&& goes_alone(s, opts, d)
            &&& forall|k: int|
                0 <= k < s.layers.len() ==> #[trigger] warranted(
                    s,
                    prs,
                    opts,
                    checks->Ok_0,
                    d,
                    k,
                )
        }),
{
    lemma_checks_from(t, s, prs, trees, opts, 0, Seq::empty());
    lemma_decides_for(t, s, prs, trees, opts);
    let (t1, checks) = checks_from(t, s, prs, trees, opts, 0, Seq::empty());
    if checks is Ok {
        let checks = checks->Ok_0;
        let push = checks.map_values(|c: LayerCheck| c.push);
        let rewrite = checks.map_values(|c: LayerCheck| c.rewrite);
        let (t2, all) = restack_below(t1, s, prs, trees, s.layers.len() as int, push);
        lemma_restack_below(t1, s, prs, trees, s.layers.len() as int, push);
        if all is Ok {
            let all = all->Ok_0;
            lemma_rewrites_from(s, prs, opts, checks, 0, rewrite, all);
            lemma_kept(s, prs, opts, checks, 0, rewrite, all);
            let d = decided(t, s, prs, trees, opts).1->Ok_0;
            let only = match opts.only_layer {
                Some(x) => if x < s.layers.len() {
                    Some(x)
                } else {
                    None
                },
                None => None,
            };
            assert forall|k: int| 0 <= k < s.layers.len() && #[trigger] push[k] && only is Some implies
                beneath(s, only->0 as int, k) && push[only->0 as int] by {
                assert(checks[k].push);
                assert(in_scope(opts, k));
                assert(k == only->0);
            }
            lemma_restacked(t1, s, prs, trees, s.layers.len() as int, push, only);
            if opts.only_layer is Some {
                assert forall|k: int| 0 <= k < s.layers.len() && !in_scope(opts, k) implies !#[trigger] rewrite[k] by {
                    assert(!checks[k].push);
                }
                lemma_unscoped(s, prs, opts, checks, 0, rewrite, all);
            }
            assert(goes_alone(s, opts, d)) by {
                if only is Some {
                    let x = only->0 as int;
                    assert forall|k: int| 0 <= k < s.layers.len() && #[trigger] d.push[k] implies beneath(
                        s,
                        x,
                        k,
                    ) && d.push[x] by {
                        if k != x {
                            assert(!in_scope(opts, k));
                            assert(all[k]);
                        }
                    }
                } else if opts.only_layer is Some {
                    assert forall|k: int| 0 <= k < push.len() implies !#[trigger] push[k] by {
                        assert(!in_scope(opts, k));
                        assert(!checks[k].push);
                    }
                    assert(all == push);
                }
            }
            assert forall|k: int| 0 <= k < s.layers.len() implies #[trigger] warranted(
                s,
                prs,
                opts,
                checks,
                d,
                k,
            ) by {
                assert(push[k] == checks[k].push);
                assert(rewrite[k] == checks[k].rewrite);
                if in_scope(opts, k) && prs[k] is Some {
                    assert(follows(s, d.rewrite_history, d.push, k));
                }
                if d.push[k] && s.layers[k].dep is Layer {
                    let j = s.layers[k].dep->Layer_0 as int;
                    assert(j < k);
                    if prs[j] is None {
                        if in_scope(opts, j) {
                            assert(checks[j].push);
                            assert(push[j]);
                            assert(all[j]);
                        } else if all[k] {
                            assert(needs_pushed(s, prs, all, k));
                        } else {
                            assert(!checks[j].rewrite);
                        }
                        assert(d.push[j]);
                    }
                }
                if in_scope(opts, k) && prs[k] is None {
                    assert(checks[k].push);
                }
            }
        }
    }
}

/// Where in a conversation layer `k` was looked at.
pub proof fn lemma_check_of(
    t: TapeView,
    s: StackView,
    prs: Seq<Option<PrView>>,
    trees: TreesView,
    opts: OptionsView,
    i: int,
    checks: Seq<LayerCheck>,
    k: int,
) -> (at: TapeView)
    requires
        0 <= i <= k < s.layers.len(),
        checks.len() == i,
        checks_from(t, s, prs, trees, opts, i, checks).1 is Ok,
    ensures
        ({
            let (end, all) = checks_from(t, s, prs, trees, opts, i, checks);
            let (after, check) = layer_check(at, s, prs, trees, opts, k);
            &&& (all->Ok_0).len() == s.layers.len()
            &&& forall|m: int| 0 <= m < i ==> (all->Ok_0)[m] == #[trigger] checks[m]
            &&& check == Ok::<LayerCheck, HaltView>((all->Ok_0)[k])
            &&& tape::only(t, at, |q: RequestView| !tape::touches_forge(q) && !tape::touches_local(q))
            &&& tape::only(
                after,
                end,
                |q: RequestView| !tape::touches_forge(q) && !tape::touches_local(q),
            )
        }),
    decreases s.layers.len() - i,
{
    let look = |q: RequestView| !tape::touches_forge(q) && !tape::touches_local(q);
    assert(tape::may_look(look));
    let (t1, check) = layer_check(t, s, prs, trees, opts, i);
    let next = checks.push(check->Ok_0);
    let (end, all) = checks_from(t1, s, prs, trees, opts, i + 1, next);
    assert(checks_from(t, s, prs, trees, opts, i, checks) == (end, all));
    tape::lemma_only_start(t, look);
    tape::lemma_only_start(t1, look);
    lemma_checks_from_only(t1, t1, s, prs, trees, opts, i + 1, next, look);
    lemma_layer_check_only(t, t, s, prs, trees, opts, i, look);
    if i == k {
        if i + 1 < s.layers.len() {
            let other = lemma_check_of(t1, s, prs, trees, opts, i + 1, next, i + 1);
            assert(next[i] == (all->Ok_0)[i]);
            assert forall|m: int| 0 <= m < i implies (all->Ok_0)[m] == #[trigger] checks[m] by {
                assert(next[m] == checks[m]);
            }
        }
        t
    } else {
        let at = lemma_check_of(t1, s, prs, trees, opts, i + 1, next, k);
        tape::lemma_only_trans(t, t1, at, look);
        assert forall|m: int| 0 <= m < i implies (all->Ok_0)[m] == #[trigger] checks[m] by {
            assert(next[m] == checks[m]);
        }
        at
    }
}

} // verus!
