//! Carrying a decision out: new commits, one push, and what the pull requests
//! are told.
//!
//! Layers are processed bottom-up so each one can be told the resulting tip of
//! the layer it depends on.

use vstd::prelude::*;

use crate::config;
use crate::config::{Config, ConfigView};
use crate::data::{nothing, put, Duplicate};
use crate::discovery::{Trees, TreesView};
use crate::engine;
use crate::engine::{
    Decision, DecisionView, LayerAction, OptionsView, SyncOptions, AUTO_UPDATE_MESSAGE,
};
use crate::forge;
use crate::forge::{
    CreatePr, CreateView, PrView, PullRequest, PullRequestUpdate, PushSpec, PushView, UpdateView,
};
use crate::history;
use crate::history::{
    branch_revisions, find_root_commit, rebase_tree_onto, replay, rewrite_messages,
    synthesize_initial_commit, synthesize_update_commit,
};
use crate::oid;
use crate::oid::Oid;
use crate::pr_body;
use crate::pr_body::splice_warning;
use crate::refs;
use crate::stack;
use crate::stack::{Dep, Layer, LayerView, Stack, StackView};
use crate::tape;
use crate::tape::{Halt, HaltView, MergeView, ReplyView, Request, RequestView, Tape, TapeView};
use crate::text;
use crate::text::{push_decimal, same};
use crate::trailers;
use crate::trailers::{CommitMessage, MessageView, DEPENDS_ON, PULL_REQUEST};

verus! {

/// What happened to one layer.
#[derive(Debug, Clone)]
pub struct LayerOutcome {
    pub index: usize,
    pub number: u64,
    pub branch: String,
    pub tip: Oid,
    pub action: LayerAction,
    /// The base branch the pull request now targets.
    pub base: String,
    /// Whether the base of the pull request had to be changed.
    pub retargeted: bool,
}

#[verifier::ext_equal]
pub struct OutcomeView {
    pub index: usize,
    pub number: u64,
    pub branch: Seq<char>,
    pub tip: Oid,
    pub action: LayerAction,
    pub base: Seq<char>,
    pub retargeted: bool,
}

impl DeepView for LayerOutcome {
    type V = OutcomeView;

    open spec fn deep_view(&self) -> OutcomeView {
        OutcomeView {
            index: self.index,
            number: self.number,
            branch: self.branch@,
            tip: self.tip,
            action: self.action,
            base: self.base@,
            retargeted: self.retargeted,
        }
    }
}

impl Duplicate for LayerOutcome {
    fn duplicate(&self) -> (r: Self) {
        LayerOutcome {
            index: self.index,
            number: self.number,
            branch: self.branch.clone(),
            tip: self.tip,
            action: self.action,
            base: self.base.clone(),
            retargeted: self.retargeted,
        }
    }
}

/// Everything that is given when a decision is carried out.
pub struct Context<'a> {
    pub config: &'a Config,
    pub stack: &'a Stack,
    pub prs: &'a Vec<Option<PullRequest>>,
    pub trees: &'a Trees,
    pub decision: &'a Decision,
    pub opts: &'a SyncOptions,
}

#[verifier::ext_equal]
pub struct ContextView {
    pub config: ConfigView,
    pub stack: StackView,
    pub prs: Seq<Option<PrView>>,
    pub trees: TreesView,
    pub decision: DecisionView,
    pub opts: OptionsView,
}

impl<'a> View for Context<'a> {
    type V = ContextView;

    open spec fn view(&self) -> ContextView {
        ContextView {
            config: self.config@,
            stack: self.stack@,
            prs: self.prs.deep_view(),
            trees: self.trees.deep_view(),
            decision: self.decision.deep_view(),
            opts: self.opts@,
        }
    }
}

/// All parts speak of the same layers.
pub open spec fn coherent(cx: ContextView) -> bool {
    engine::fits(cx.stack, cx.prs, cx.trees) && engine::decides_for(cx.decision, cx.stack)
}

/// Where the branches of the layers go, one after the other.
pub struct Placement {
    pub tips: Vec<Oid>,
    pub branches: Vec<String>,
    pub base_branches: Vec<String>,
    /// The first commits of branches that get a new one.
    pub new_roots: Vec<Option<Oid>>,
    /// The pull requests whose base was changed before the push.
    pub retargeted_early: Vec<bool>,
    /// The branches that wait for their pull request to get its new base.
    pub held: Vec<bool>,
    /// The pull requests that were turned into drafts.
    pub undraft: Vec<String>,
    /// The branch names that are taken.
    pub reserved: Vec<String>,
    pub push_specs: Vec<PushSpec>,
    /// Some layer is left behind its new base.
    pub staged: bool,
}

#[verifier::ext_equal]
pub struct PlacementView {
    pub tips: Seq<Oid>,
    pub branches: Seq<Seq<char>>,
    pub base_branches: Seq<Seq<char>>,
    pub new_roots: Seq<Option<Oid>>,
    pub retargeted_early: Seq<bool>,
    pub held: Seq<bool>,
    pub undraft: Seq<Seq<char>>,
    pub reserved: Seq<Seq<char>>,
    pub push_specs: Seq<PushView>,
    pub staged: bool,
}

impl View for Placement {
    type V = PlacementView;

    open spec fn view(&self) -> PlacementView {
        PlacementView {
            tips: self.tips@,
            branches: self.branches.deep_view(),
            base_branches: self.base_branches.deep_view(),
            new_roots: self.new_roots@,
            retargeted_early: self.retargeted_early@,
            held: self.held@,
            undraft: self.undraft.deep_view(),
            reserved: self.reserved.deep_view(),
            push_specs: self.push_specs.deep_view(),
            staged: self.staged,
        }
    }
}

impl DeepView for Placement {
    type V = PlacementView;

    open spec fn deep_view(&self) -> PlacementView {
        self@
    }
}

/// The first `n` layers have their places.
pub open spec fn placed(p: PlacementView, n: int) -> bool {
    p.tips.len() == n && p.branches.len() == n && p.base_branches.len() == n && p.new_roots.len()
        == n && p.retargeted_early.len() == n && p.held.len() == n
}

/// What layer `i` sits on: the commit and the branch.
pub open spec fn base_of(cx: ContextView, p: PlacementView, i: int) -> (Oid, Seq<char>) {
    match cx.stack.layers[i].dep {
        Dep::Layer(j) => (p.tips[j as int], p.branches[j as int]),
        _ => (cx.stack.base, cx.config.trunk),
    }
}

/// What became of the branch of one layer.
#[verifier::ext_equal]
pub struct SpotView {
    pub tip: Oid,
    pub branch: Seq<char>,
    pub root: Option<Oid>,
    pub early: bool,
    /// The pull request was turned into a draft.
    pub drafted: Option<Seq<char>>,
    pub push: Option<PushView>,
    pub staged: bool,
    /// The branch waits for its pull request to get its new base.
    pub held: bool,
}

/// What became of the branch of one layer.
pub struct Spot {
    pub tip: Oid,
    pub branch: String,
    pub root: Option<Oid>,
    pub early: bool,
    pub drafted: Option<String>,
    pub push: Option<PushSpec>,
    pub staged: bool,
    pub held: bool,
}

impl DeepView for Spot {
    type V = SpotView;

    open spec fn deep_view(&self) -> SpotView {
        SpotView {
            tip: self.tip,
            branch: self.branch@,
            root: self.root,
            early: self.early,
            drafted: self.drafted.deep_view(),
            push: self.push.deep_view(),
            staged: self.staged,
            held: self.held,
        }
    }
}

/// A branch that stays where it is.
pub open spec fn stay(tip: Oid, branch: Seq<char>) -> SpotView {
    SpotView {
        tip,
        branch,
        root: None,
        early: false,
        drafted: None,
        push: None,
        staged: false,
        held: false,
    }
}

/// The placement with one more layer.
pub open spec fn with_spot(p: PlacementView, base_branch: Seq<char>, spot: SpotView) -> PlacementView {
    PlacementView {
        tips: p.tips.push(spot.tip),
        branches: p.branches.push(spot.branch),
        base_branches: p.base_branches.push(base_branch),
        new_roots: p.new_roots.push(spot.root),
        retargeted_early: p.retargeted_early.push(spot.early),
        held: p.held.push(spot.held),
        undraft: match spot.drafted {
            Some(node_id) => p.undraft.push(node_id),
            None => p.undraft,
        },
        reserved: p.reserved,
        push_specs: match spot.push {
            Some(spec) => p.push_specs.push(spec),
            None => p.push_specs,
        },
        staged: p.staged || spot.staged,
    }
}

/// A name is one of those given.
pub open spec fn among(names: Seq<Seq<char>>, name: Seq<char>) -> bool {
    exists|k: int| 0 <= k < names.len() && #[trigger] names[k] == name
}

/// The name that is asked for at the given attempt.
pub open spec fn attempt_name(preferred: Seq<char>, attempt: nat) -> Seq<char> {
    if attempt == 0 {
        preferred
    } else {
        preferred + "-"@ + text::decimal(attempt)
    }
}

/// A branch name that is free on the remote and not taken by another layer
/// either.
pub open spec fn free_branch(
    t: TapeView,
    preferred: Seq<char>,
    attempt: nat,
    reserved: Seq<Seq<char>>,
) -> (TapeView, Result<Seq<char>, HaltView>)
    decreases t.replies.len() - t.asked.len(),
{
    let (t1, name) = tape::ask_text(
        t,
        RequestView::UnusedBranchName { preferred: attempt_name(preferred, attempt) },
    );
    match name {
        Err(h) => (t1, Err(h)),
        Ok(name) => if among(reserved, name) {
            free_branch(t1, preferred, attempt + 1, reserved)
        } else {
            tape::done(t1, name)
        },
    }
}

pub fn is_among(names: &Vec<String>, name: &str) -> (r: bool)
    ensures
        r == among(names.deep_view(), name@),
{
    let mut k: usize = 0;
    while k < names.len()
        invariant
            k <= names@.len(),
            forall|m: int| 0 <= m < k ==> #[trigger] names.deep_view()[m] != name@,
        decreases names@.len() - k,
    {
        assert(names.deep_view()[k as int] == names@[k as int]@);
        if same(names[k].as_str(), name) {
            return true;
        }
        k = k + 1;
    }
    false
}

fn find_free_branch(t: &mut Tape, preferred: &str, reserved: &Vec<String>) -> (r: Result<
    String,
    Halt,
>)
    ensures
        (final(t)@, tape::outcome(r)) == free_branch(
            old(t)@,
            preferred@,
            0,
            reserved.deep_view(),
        ),
{
    let mut attempt: u64 = 0;
    loop
        invariant
            attempt <= t@.asked.len(),
            free_branch(t@, preferred@, attempt as nat, reserved.deep_view()) == free_branch(
                old(t)@,
                preferred@,
                0,
                reserved.deep_view(),
            ),
        decreases t@.replies.len() - t@.asked.len(),
    {
        let mut wanted = preferred.to_owned();
        if attempt > 0 {
            wanted.append("-");
            push_decimal(&mut wanted, attempt);
        }
        let name = t.text(Request::UnusedBranchName { preferred: wanted })?;
        if !is_among(reserved, name.as_str()) {
            return Ok(name);
        }
        let count: usize = t.asked.len();
        assert(t.asked.deep_view().len() == count);
        attempt = attempt + 1;
    }
}

/// The branch of a layer that has no pull request yet: one commit on a branch
/// with a name of its own. What it sits on may be parked behind its own base,
/// in which case the content is brought there.
pub open spec fn new_branch(
    t: TapeView,
    cx: ContextView,
    p: PlacementView,
    i: int,
    parent_tip: Oid,
) -> (TapeView, Result<SpotView, HaltView>) {
    let layer = cx.stack.layers[i];
    let desired = cx.trees.effective[i];
    tape::bind(
        free_branch(
            t,
            config::preferred_branch(cx.config, layer.message.subject),
            0,
            p.reserved,
        ),
        |t: TapeView, branch: Seq<char>|
            tape::bind(
                history::tree_rebased(t, cx.trees.dep[i], parent_tip, desired),
                |t: TapeView, tree: Option<Oid>|
                    tape::bind(
                        history::derived(
                            t,
                            layer.commit,
                            trailers::rendered(trailers::for_branch(layer.message)),
                            match tree {
                                Some(tree) => tree,
                                None => desired,
                            },
                            parent_tip,
                        ),
                        |t: TapeView, tip: Oid|
                            tape::done(
                                t,
                                SpotView {
                                    root: Some(tip),
                                    push: Some(forge::forward_push(branch, tip)),
                                    ..stay(tip, branch)
                                },
                            ),
                    ),
            ),
    )
}

fn place_new_branch(
    t: &mut Tape,
    cx: &Context,
    p: &Placement,
    i: usize,
    parent_tip: Oid,
) -> (r: Result<Spot, Halt>)
    requires
        coherent(cx@),
        i < cx@.stack.layers.len(),
    ensures
        (final(t)@, tape::outcome(r)) == new_branch(old(t)@, cx@, p@, i as int, parent_tip),
{
    let layer = &cx.stack.layers[i];
    assert(cx@.stack.layers[i as int] == layer.deep_view());
    let desired = cx.trees.effective[i];
    let preferred = cx.config.branch_name_for(layer.subject());
    let branch = find_free_branch(t, preferred.as_str(), &p.reserved)?;
    let tree = match rebase_tree_onto(t, cx.trees.dep[i], parent_tip, desired)? {
        Some(tree) => tree,
        None => desired,
    };
    let message = layer.message.clean_for_branch();
    let tip = synthesize_initial_commit(t, parent_tip, tree, layer.commit, message.as_str())?;
    let push = PushSpec::fast_forward(branch.as_str(), tip);
    Ok(
        Spot {
            tip,
            branch,
            root: Some(tip),
            early: false,
            drafted: None,
            push: Some(push),
            staged: false,
            held: false,
        },
    )
}

/// Where the branch of a pull request starts: the parent of its first commit.
pub open spec fn branch_start(t: TapeView, pr: PrView, fallback: Oid) -> (
    TapeView,
    Result<Oid, HaltView>,
) {
    tape::bind(
        history::root_commit(t, pr, fallback),
        |t: TapeView, root: Option<Oid>|
            match root {
                Some(root) => tape::ask_object(t, RequestView::ParentOf { commit: root }),
                None => tape::done(t, fallback),
            },
    )
}

fn find_branch_start(t: &mut Tape, pr: &PullRequest, fallback: Oid) -> (r: Result<Oid, Halt>)
    ensures
        (final(t)@, tape::outcome(r)) == branch_start(old(t)@, pr@, fallback),
{
    match find_root_commit(t, pr, fallback)? {
        Some(root) => t.object(Request::ParentOf { commit: root }),
        None => Ok(fallback),
    }
}

/// The base of the pull request can be changed before the push: the new base is
/// on the way from the current one to the head, so that the displayed diff can
/// only shrink.
pub open spec fn may_retarget_early(
    t: TapeView,
    pr: PrView,
    base_branch: Seq<char>,
    target: Option<Oid>,
    current: Oid,
    start: Oid,
) -> (TapeView, Result<bool, HaltView>) {
    if pr.base == base_branch {
        tape::done(t, false)
    } else {
        match target {
            None => tape::done(t, false),
            Some(target) => tape::bind(
                tape::ask_flag(
                    t,
                    RequestView::IsAncestor { ancestor: target, descendant: pr.head_oid },
                ),
                |t: TapeView, in_head: bool|
                    if !in_head {
                        tape::done(t, false)
                    } else {
                        tape::bind(
                            tape::ask_flag(
                                t,
                                RequestView::IsAncestor { ancestor: current, descendant: target },
                            ),
                            |t: TapeView, above: bool|
                                if above {
                                    tape::done(t, true)
                                } else {
                                    tape::ask_flag(
                                        t,
                                        RequestView::IsAncestor {
                                            ancestor: start,
                                            descendant: target,
                                        },
                                    )
                                },
                        )
                    },
            ),
        }
    }
}

fn can_retarget_early(
    t: &mut Tape,
    pr: &PullRequest,
    base_branch: &str,
    target: Option<Oid>,
    current: Oid,
    start: Oid,
) -> (r: Result<bool, Halt>)
    ensures
        (final(t)@, tape::outcome(r)) == may_retarget_early(
            old(t)@,
            pr@,
            base_branch@,
            target,
            current,
            start,
        ),
{
    if same(pr.base.as_str(), base_branch) {
        return Ok(false);
    }
    match target {
        None => Ok(false),
        Some(target) => {
            if !t.flag(Request::IsAncestor { ancestor: target, descendant: pr.head_oid })? {
                return Ok(false);
            }
            if t.flag(Request::IsAncestor { ancestor: current, descendant: target })? {
                return Ok(true);
            }
            t.flag(Request::IsAncestor { ancestor: start, descendant: target })
        },
    }
}

/// Changes the base of a pull request, as a draft where that is wanted; the
/// result is the pull request if it was turned into a draft.
pub open spec fn retarget_early(
    t: TapeView,
    c: ConfigView,
    pr: PrView,
    base_branch: Seq<char>,
) -> (TapeView, Result<Option<Seq<char>>, HaltView>) {
    let drafts = c.draft_while_retargeting && !pr.draft;
    tape::bind(
        if drafts {
            tape::ask_unit(t, RequestView::SetDraft { node_id: pr.node_id, draft: true })
        } else {
            tape::done(t, ())
        },
        |t: TapeView, u: ()|
            tape::bind(
                tape::ask_unit(
                    t,
                    RequestView::UpdatePullRequest {
                        number: pr.number,
                        update: forge::base_update(base_branch),
                    },
                ),
                |t: TapeView, u: ()|
                    tape::done(
                        t,
                        if drafts {
                            Some(pr.node_id)
                        } else {
                            None
                        },
                    ),
            ),
    )
}

fn change_base_early(t: &mut Tape, config: &Config, pr: &PullRequest, base_branch: &str) -> (r: Result<
    Option<String>,
    Halt,
>)
    ensures
        (final(t)@, tape::outcome(r)) == retarget_early(old(t)@, config@, pr@, base_branch@),
{
    let drafts = config.draft_while_retargeting && !pr.draft;
    if drafts {
        t.unit(Request::SetDraft { node_id: pr.node_id.clone(), draft: true })?;
    }
    t.unit(
        Request::UpdatePullRequest {
            number: pr.number,
            update: PullRequestUpdate::to_base(base_branch),
        },
    )?;
    if drafts {
        Ok(Some(pr.node_id.clone()))
    } else {
        Ok(None)
    }
}

/// The first of the branches from `k` on with the given name.
pub open spec fn branch_index(branches: Seq<Seq<char>>, name: Seq<char>, k: int) -> Option<int>
    decreases branches.len() - k,
{
    if k < 0 || k >= branches.len() {
        None
    } else if branches[k] == name {
        Some(k)
    } else {
        branch_index(branches, name, k + 1)
    }
}

fn find_branch(branches: &Vec<String>, name: &str) -> (r: Option<usize>)
    ensures
        match r {
            Some(k) => k < branches@.len() && branch_index(branches.deep_view(), name@, 0) == Some(
                k as int,
            ),
            None => branch_index(branches.deep_view(), name@, 0) is None,
        },
{
    let mut k: usize = 0;
    while k < branches.len()
        invariant
            k <= branches@.len(),
            branch_index(branches.deep_view(), name@, k as int) == branch_index(
                branches.deep_view(),
                name@,
                0,
            ),
        decreases branches@.len() - k,
    {
        assert(branches.deep_view()[k as int] == branches@[k as int]@);
        if same(branches[k].as_str(), name) {
            return Some(k);
        }
        k = k + 1;
    }
    None
}

/// What the base branch of a pull request holds both before and after the push:
/// its tip, or where another layer of this stack moves it, the point from which
/// the two tips part.
pub open spec fn steady_base(t: TapeView, p: PlacementView, pr: PrView, current: Oid) -> (
    TapeView,
    Result<Oid, HaltView>,
) {
    match branch_index(p.branches, pr.base, 0) {
        Some(k) => tape::ask_object(t, RequestView::MergeBase { a: current, b: p.tips[k] }),
        None => tape::done(t, current),
    }
}

/// Where the branch of a layer must sit while its pull request is retargeted.
///
/// The displayed diff of a pull request is the difference between its head and
/// the merge base of its two branches, on **every** push and not only at the
/// end of a run. So re-anchoring a head onto a base branch that the pull request
/// does not target yet would briefly display all that the new base has and the
/// old one lacks. The merge base of the old and the new base branch is an
/// ancestor of both: there the displayed diff is the layer's own patch before
/// the base changes and after it.
pub open spec fn safe_anchor(
    t: TapeView,
    pr: PrView,
    base_branch: Seq<char>,
    early: bool,
    old_base: Oid,
    new_base: Oid,
) -> (TapeView, Result<Oid, HaltView>) {
    if early || pr.base == base_branch {
        tape::done(t, new_base)
    } else {
        tape::bind(
            tape::ask_flag(
                t,
                RequestView::IsAncestor { ancestor: new_base, descendant: old_base },
            ),
            |t: TapeView, contained: bool|
                if contained {
                    tape::done(t, new_base)
                } else {
                    tape::ask_object(t, RequestView::MergeBase { a: old_base, b: new_base })
                },
        )
    }
}

fn find_safe_anchor(
    t: &mut Tape,
    pr: &PullRequest,
    base_branch: &str,
    early: bool,
    old_base: Oid,
    new_base: Oid,
) -> (r: Result<Oid, Halt>)
    ensures
        (final(t)@, tape::outcome(r)) == safe_anchor(
            old(t)@,
            pr@,
            base_branch@,
            early,
            old_base,
            new_base,
        ),
{
    if early || same(pr.base.as_str(), base_branch) {
        return Ok(new_base);
    }
    // Nothing the new base has is missing from the old one, so the diff cannot
    // grow no matter which order the two operations happen in.
    if t.flag(Request::IsAncestor { ancestor: new_base, descendant: old_base })? {
        return Ok(new_base);
    }
    t.object(Request::MergeBase { a: old_base, b: new_base })
}

/// The message of an update commit. The user is only asked when readers will
/// actually see something different.
pub open spec fn update_text(
    t: TapeView,
    opts: OptionsView,
    patch_changed: bool,
    subject: Seq<char>,
) -> (TapeView, Result<Seq<char>, HaltView>) {
    match opts.message {
        Some(message) => tape::done(t, message),
        None => if patch_changed {
            tape::ask_text(t, RequestView::AskMessage { subject })
        } else {
            tape::done(t, AUTO_UPDATE_MESSAGE@)
        },
    }
}

fn update_message_for(t: &mut Tape, opts: &SyncOptions, patch_changed: bool, subject: &str) -> (r:
    Result<String, Halt>)
    ensures
        (final(t)@, tape::outcome(r)) == update_text(old(t)@, opts@, patch_changed, subject@),
{
    match &opts.message {
        Some(message) => Ok(message.clone()),
        None => if patch_changed {
            t.text(Request::AskMessage { subject: subject.to_owned() })
        } else {
            Ok(AUTO_UPDATE_MESSAGE.to_owned())
        },
    }
}

/// One more commit on top of `tip` that carries the layer's content.
pub open spec fn appended(t: TapeView, cx: ContextView, i: int, tip: Oid, tree: Oid) -> (
    TapeView,
    Result<Oid, HaltView>,
) {
    let layer = cx.stack.layers[i];
    tape::bind(
        update_text(t, cx.opts, cx.decision.patch_changed[i], layer.message.subject),
        |t: TapeView, message: Seq<char>|
            history::update_commit(t, tip, tree, layer.commit, message),
    )
}

fn append_commit(t: &mut Tape, cx: &Context, i: usize, tip: Oid, tree: Oid) -> (r: Result<Oid, Halt>)
    requires
        coherent(cx@),
        i < cx@.stack.layers.len(),
    ensures
        (final(t)@, tape::outcome(r)) == appended(old(t)@, cx@, i as int, tip, tree),
{
    let layer = &cx.stack.layers[i];
    assert(cx@.stack.layers[i as int] == layer.deep_view());
    let message = update_message_for(
        t,
        cx.opts,
        cx.decision.patch_changed[i],
        layer.subject(),
    )?;
    synthesize_update_commit(t, tip, tree, layer.commit, message.as_str())
}

/// The revisions of a branch replayed on top of `anchor`, or where that cannot
/// be done a single commit there.
pub open spec fn reanchored(
    t: TapeView,
    cx: ContextView,
    i: int,
    pr: PrView,
    start: Oid,
    anchor: Oid,
    tree: Oid,
) -> (TapeView, Result<Oid, HaltView>) {
    let layer = cx.stack.layers[i];
    let message = trailers::rendered(trailers::for_branch(layer.message));
    tape::bind(
        history::revisions(t, pr.head_oid, start),
        |t: TapeView, revisions: Seq<Oid>|
            tape::bind(
                history::replayed(t, revisions, anchor, message),
                |t: TapeView, tip: Option<Oid>|
                    match tip {
                        Some(tip) => tape::done(t, tip),
                        None => history::derived(t, layer.commit, message, tree, anchor),
                    },
            ),
    )
}

fn reanchor(
    t: &mut Tape,
    cx: &Context,
    i: usize,
    pr: &PullRequest,
    start: Oid,
    anchor: Oid,
    tree: Oid,
) -> (r: Result<Oid, Halt>)
    requires
        coherent(cx@),
        i < cx@.stack.layers.len(),
    ensures
        (final(t)@, tape::outcome(r)) == reanchored(
            old(t)@,
            cx@,
            i as int,
            pr@,
            start,
            anchor,
            tree,
        ),
{
    let layer = &cx.stack.layers[i];
    assert(cx@.stack.layers[i as int] == layer.deep_view());
    let message = layer.message.clean_for_branch();
    let revisions = branch_revisions(t, pr.head_oid, start)?;
    match replay(t, &revisions, anchor, message.as_str())? {
        Some(tip) => Ok(tip),
        None => synthesize_initial_commit(t, anchor, tree, layer.commit, message.as_str()),
    }
}

/// The first element.
pub open spec fn first_of(s: Seq<Oid>) -> Option<Oid> {
    if s.len() > 0 {
        Some(s[0])
    } else {
        None
    }
}

/// The branch rewritten on top of `anchor`: its revisions replayed, one more
/// commit where they do not come to the layer's content.
pub open spec fn rewritten(
    t: TapeView,
    cx: ContextView,
    i: int,
    pr: PrView,
    start: Oid,
    anchor: Oid,
    tree: Oid,
) -> (TapeView, Result<(Oid, Option<Oid>), HaltView>) {
    tape::bind(
        reanchored(t, cx, i, pr, start, anchor, tree),
        |t: TapeView, tip: Oid|
            tape::bind(
                tape::ask_object(t, RequestView::TreeOf { commit: tip }),
                |t: TapeView, reached: Oid|
                    tape::bind(
                        if reached != tree {
                            appended(t, cx, i, tip, tree)
                        } else {
                            tape::done(t, tip)
                        },
                        |t: TapeView, tip: Oid|
                            tape::bind(
                                history::revisions(t, tip, anchor),
                                |t: TapeView, revisions: Seq<Oid>|
                                    tape::done(t, (tip, first_of(revisions))),
                            ),
                    ),
            ),
    )
}

fn rewrite_branch(
    t: &mut Tape,
    cx: &Context,
    i: usize,
    pr: &PullRequest,
    start: Oid,
    anchor: Oid,
    tree: Oid,
) -> (r: Result<(Oid, Option<Oid>), Halt>)
    requires
        coherent(cx@),
        i < cx@.stack.layers.len(),
    ensures
        (final(t)@, tape::outcome(r)) == rewritten(
            old(t)@,
            cx@,
            i as int,
            pr@,
            start,
            anchor,
            tree,
        ),
{
    let mut tip = reanchor(t, cx, i, pr, start, anchor, tree)?;
    let reached = t.object(Request::TreeOf { commit: tip })?;
    if reached != tree {
        tip = append_commit(t, cx, i, tip, tree)?;
    }
    let revisions = branch_revisions(t, tip, anchor)?;
    let root = if revisions.len() > 0 {
        Some(revisions[0])
    } else {
        None
    };
    Ok((tip, root))
}

/// The commits for the branch of layer `i` on top of `anchor`: the new tip, its
/// first commit if that is new, and whether the branch is rewritten.
pub open spec fn recommitted(
    t: TapeView,
    cx: ContextView,
    i: int,
    pr: PrView,
    start: Oid,
    anchor: Oid,
    tree: Oid,
) -> (TapeView, Result<(Oid, Option<Oid>, bool), HaltView>) {
    let layer = cx.stack.layers[i];
    // A branch that is moved off its current history is rewritten whether or
    // not anything else asked for that.
    let rewrite = cx.decision.rewrite_history[i] || anchor != start;
    if !cx.opts.preserve_commit_history {
        tape::bind(
            history::derived(
                t,
                layer.commit,
                trailers::rendered(trailers::for_branch(layer.message)),
                tree,
                anchor,
            ),
            |t: TapeView, tip: Oid| tape::done(t, (tip, Some(tip), true)),
        )
    } else if rewrite {
        tape::bind(
            rewritten(t, cx, i, pr, start, anchor, tree),
            |t: TapeView, r: (Oid, Option<Oid>)| tape::done(t, (r.0, r.1, true)),
        )
    } else {
        tape::bind(
            appended(t, cx, i, pr.head_oid, tree),
            |t: TapeView, tip: Oid| tape::done(t, (tip, None::<Oid>, false)),
        )
    }
}

fn recommit(
    t: &mut Tape,
    cx: &Context,
    i: usize,
    pr: &PullRequest,
    start: Oid,
    anchor: Oid,
    tree: Oid,
) -> (r: Result<(Oid, Option<Oid>, bool), Halt>)
    requires
        coherent(cx@),
        i < cx@.stack.layers.len(),
    ensures
        (final(t)@, tape::outcome(r)) == recommitted(
            old(t)@,
            cx@,
            i as int,
            pr@,
            start,
            anchor,
            tree,
        ),
{
    let layer = &cx.stack.layers[i];
    assert(cx@.stack.layers[i as int] == layer.deep_view());
    let rewrite = cx.decision.rewrite_history[i] || anchor != start;
    if !cx.opts.preserve_commit_history {
        let message = layer.message.clean_for_branch();
        let tip = synthesize_initial_commit(t, anchor, tree, layer.commit, message.as_str())?;
        return Ok((tip, Some(tip), true));
    }
    if rewrite {
        let (tip, root) = rewrite_branch(t, cx, i, pr, start, anchor, tree)?;
        Ok((tip, root, true))
    } else {
        let tip = append_commit(t, cx, i, pr.head_oid, tree)?;
        Ok((tip, None, false))
    }
}

/// Where the branch of layer `i` sat before the pushes of this run.
pub open spec fn fallback_base(cx: ContextView, i: int) -> Oid {
    match engine::remote_base_tip(cx.stack, cx.prs, i) {
        Some(tip) => tip,
        None => cx.stack.base,
    }
}

/// What the forge compares the head of a pull request against right now.
pub open spec fn current_base(pr: PrView, start: Oid) -> Oid {
    if pr.base_oid != oid::zero_oid() {
        pr.base_oid
    } else {
        start
    }
}

/// Where the branch of layer `i` belongs: on top of its dependency, or where it
/// is if that is an older trunk and nothing asks for it to move.
pub open spec fn home_of(cx: ContextView, i: int, start: Oid, parent_tip: Oid) -> Oid {
    if !(cx.stack.layers[i].dep is Layer) && cx.opts.preserve_commit_history
        && !cx.decision.rewrite_history[i] {
        start
    } else {
        parent_tip
    }
}

/// Layer `i` depends on a layer whose branch is held back.
pub open spec fn on_held(cx: ContextView, p: PlacementView, i: int) -> bool {
    match cx.stack.layers[i].dep {
        Dep::Layer(j) => p.held[j as int],
        _ => false,
    }
}

/// The branch of a pull request that is pushed.
///
/// Re-anchoring and retargeting cannot be done atomically, so when they
/// disagree the branch is parked at their merge base until the pull request
/// points somewhere that makes the forward move safe.
pub open spec fn moved_branch(
    t: TapeView,
    cx: ContextView,
    p: PlacementView,
    i: int,
    pr: PrView,
    parent_tip: Oid,
    base_branch: Seq<char>,
) -> (TapeView, Result<SpotView, HaltView>) {
    let desired = cx.trees.effective[i];
    tape::bind(
        branch_start(t, pr, fallback_base(cx, i)),
        |t: TapeView, start: Oid|
            tape::bind(
                may_retarget_early(
                    t,
                    pr,
                    base_branch,
                    engine::remote_base_tip(cx.stack, cx.prs, i),
                    current_base(pr, start),
                    start,
                ),
                |t: TapeView, early: bool|
                    tape::bind(
                        if early {
                            retarget_early(t, cx.config, pr, base_branch)
                        } else {
                            tape::done(t, None)
                        },
                        |t: TapeView, drafted: Option<Seq<char>>|
                            tape::bind(
                                steady_base(t, p, pr, current_base(pr, start)),
                                |t: TapeView, old_base: Oid|
                                    tape::bind(
                                        safe_anchor(
                                            t,
                                            pr,
                                            base_branch,
                                            early,
                                            old_base,
                                            home_of(cx, i, start, parent_tip),
                                        ),
                                        |t: TapeView, anchor: Oid|
                                            tape::bind(
                                                history::tree_rebased(
                                                    t,
                                                    cx.trees.dep[i],
                                                    anchor,
                                                    desired,
                                                ),
                                                |t: TapeView, tree: Option<Oid>|
                                                    match tree {
                                                        Some(tree) => parked_or_moved(
                                                            t,
                                                            cx,
                                                            p,
                                                            i,
                                                            pr,
                                                            start,
                                                            parent_tip,
                                                            early,
                                                            drafted,
                                                            (anchor, tree),
                                                        ),
                                                        // Replaying can conflict where
                                                        // the forward move would not;
                                                        // declining is no loss.
                                                        None => moved_commits(
                                                            t,
                                                            cx,
                                                            i,
                                                            pr,
                                                            start,
                                                            early,
                                                            drafted,
                                                            (parent_tip, desired),
                                                            false,
                                                        ),
                                                    },
                                            ),
                                    ),
                            ),
                    ),
            ),
    )
}

/// A branch that would be parked where it is, with the content it has, needs no
/// push at all before its pull request has its new base; and neither does one
/// on top of such a branch.
pub open spec fn parked_or_moved(
    t: TapeView,
    cx: ContextView,
    p: PlacementView,
    i: int,
    pr: PrView,
    start: Oid,
    parent_tip: Oid,
    early: bool,
    drafted: Option<Seq<char>>,
    place: (Oid, Oid),
) -> (TapeView, Result<SpotView, HaltView>) {
    let parked = place.0 != home_of(cx, i, start, parent_tip);
    if place.0 == start && (parked || on_held(cx, p, i)) {
        tape::bind(
            tape::ask_object(t, RequestView::TreeOf { commit: pr.head_oid }),
            |t: TapeView, current: Oid|
                if current == place.1 {
                    tape::done(
                        t,
                        SpotView {
                            early,
                            drafted,
                            staged: true,
                            held: true,
                            ..stay(pr.head_oid, pr.head)
                        },
                    )
                } else {
                    moved_commits(t, cx, i, pr, start, early, drafted, place, parked)
                },
        )
    } else {
        moved_commits(t, cx, i, pr, start, early, drafted, place, parked)
    }
}

/// The end of [`moved_branch`]: the commits and the push.
pub open spec fn moved_commits(
    t: TapeView,
    cx: ContextView,
    i: int,
    pr: PrView,
    start: Oid,
    early: bool,
    drafted: Option<Seq<char>>,
    place: (Oid, Oid),
    staged: bool,
) -> (TapeView, Result<SpotView, HaltView>) {
    tape::bind(
        recommitted(t, cx, i, pr, start, place.0, place.1),
        |t: TapeView, r: (Oid, Option<Oid>, bool)|
            tape::done(
                t,
                SpotView {
                    tip: r.0,
                    branch: pr.head,
                    root: r.1,
                    early,
                    drafted,
                    push: Some(
                        if r.2 {
                            forge::forced_push(pr.head, r.0)
                        } else {
                            forge::forward_push(pr.head, r.0)
                        },
                    ),
                    staged,
                    held: false,
                },
            ),
    )
}

fn move_commits(
    t: &mut Tape,
    cx: &Context,
    i: usize,
    pr: &PullRequest,
    start: Oid,
    early: bool,
    drafted: Option<String>,
    place: (Oid, Oid),
    staged: bool,
) -> (r: Result<Spot, Halt>)
    requires
        coherent(cx@),
        i < cx@.stack.layers.len(),
    ensures
        (final(t)@, tape::outcome(r)) == moved_commits(
            old(t)@,
            cx@,
            i as int,
            pr@,
            start,
            early,
            drafted.deep_view(),
            place,
            staged,
        ),
{
    let (tip, root, force) = recommit(t, cx, i, pr, start, place.0, place.1)?;
    let push = if force {
        PushSpec::forced(pr.head.as_str(), tip)
    } else {
        PushSpec::fast_forward(pr.head.as_str(), tip)
    };
    Ok(
        Spot {
            tip,
            branch: pr.head.clone(),
            root,
            early,
            drafted,
            push: Some(push),
            staged,
            held: false,
        },
    )
}

fn park_or_move(
    t: &mut Tape,
    cx: &Context,
    p: &Placement,
    i: usize,
    pr: &PullRequest,
    start: Oid,
    parent_tip: Oid,
    early: bool,
    drafted: Option<String>,
    place: (Oid, Oid),
) -> (r: Result<Spot, Halt>)
    requires
        coherent(cx@),
        i < cx@.stack.layers.len(),
        placed(p@, i as int),
    ensures
        (final(t)@, tape::outcome(r)) == parked_or_moved(
            old(t)@,
            cx@,
            p@,
            i as int,
            pr@,
            start,
            parent_tip,
            early,
            drafted.deep_view(),
            place,
        ),
{
    assert(cx@.stack.layers[i as int].dep == cx.stack.layers@[i as int].dep);
    let rests = match cx.stack.layers[i].dep {
        Dep::Layer(j) => p.held[j],
        _ => false,
    };
    let parked = place.0 != home(cx, i, start, parent_tip);
    if place.0 == start && (parked || rests) {
        let current = t.object(Request::TreeOf { commit: pr.head_oid })?;
        if current == place.1 {
            return Ok(
                Spot {
                    tip: pr.head_oid,
                    branch: pr.head.clone(),
                    root: None,
                    early,
                    drafted,
                    push: None,
                    staged: true,
                    held: true,
                },
            );
        }
    }
    move_commits(t, cx, i, pr, start, early, drafted, place, parked)
}

fn home(cx: &Context, i: usize, start: Oid, parent_tip: Oid) -> (r: Oid)
    requires
        coherent(cx@),
        i < cx@.stack.layers.len(),
    ensures
        r == home_of(cx@, i as int, start, parent_tip),
{
    assert(cx@.stack.layers[i as int].dep == cx.stack.layers@[i as int].dep);
    let on_layer = match cx.stack.layers[i].dep {
        Dep::Layer(_) => true,
        _ => false,
    };
    if !on_layer && cx.opts.preserve_commit_history && !cx.decision.rewrite_history[i] {
        start
    } else {
        parent_tip
    }
}

fn move_branch(
    t: &mut Tape,
    cx: &Context,
    p: &Placement,
    i: usize,
    pr: &PullRequest,
    parent_tip: Oid,
    base_branch: &str,
) -> (r: Result<Spot, Halt>)
    requires
        coherent(cx@),
        i < cx@.stack.layers.len(),
        placed(p@, i as int),
    ensures
        (final(t)@, tape::outcome(r)) == moved_branch(
            old(t)@,
            cx@,
            p@,
            i as int,
            pr@,
            parent_tip,
            base_branch@,
        ),
{
    let desired = cx.trees.effective[i];
    let target = remote_base(cx, i);
    let fallback = match target {
        Some(tip) => tip,
        None => cx.stack.base,
    };
    let start = find_branch_start(t, pr, fallback)?;
    let current = if pr.base_oid != Oid::zero() {
        pr.base_oid
    } else {
        start
    };
    let early = can_retarget_early(t, pr, base_branch, target, current, start)?;
    let drafted = if early {
        change_base_early(t, cx.config, pr, base_branch)?
    } else {
        None
    };
    let old_base = match find_branch(&p.branches, pr.base.as_str()) {
        Some(k) => t.object(Request::MergeBase { a: current, b: p.tips[k] })?,
        None => current,
    };
    let anchor = find_safe_anchor(
        t,
        pr,
        base_branch,
        early,
        old_base,
        home(cx, i, start, parent_tip),
    )?;
    match rebase_tree_onto(t, cx.trees.dep[i], anchor, desired)? {
        Some(tree) => park_or_move(
            t,
            cx,
            p,
            i,
            pr,
            start,
            parent_tip,
            early,
            drafted,
            (anchor, tree),
        ),
        None => move_commits(t, cx, i, pr, start, early, drafted, (parent_tip, desired), false),
    }
}

fn remote_base(cx: &Context, i: usize) -> (r: Option<Oid>)
    requires
        coherent(cx@),
        i < cx@.stack.layers.len(),
    ensures
        r == engine::remote_base_tip(cx@.stack, cx@.prs, i as int),
{
    assert(cx@.stack.layers[i as int].dep == cx.stack.layers@[i as int].dep);
    match cx.stack.layers[i].dep {
        Dep::Layer(j) => {
            assert(cx@.prs[j as int] == cx.prs@[j as int].deep_view());
            match &cx.prs[j] {
                Some(pr) => Some(pr.head_oid),
                None => None,
            }
        },
        _ => Some(cx.stack.base),
    }
}

/// Where the branch of layer `i` goes.
pub open spec fn spot_of(
    t: TapeView,
    cx: ContextView,
    p: PlacementView,
    i: int,
    parent_tip: Oid,
    base_branch: Seq<char>,
) -> (TapeView, Result<SpotView, HaltView>) {
    match cx.prs[i] {
        None => if cx.decision.push[i] {
            new_branch(t, cx, p, i, parent_tip)
        } else {
            tape::done(t, stay(cx.stack.base, Seq::empty()))
        },
        Some(pr) => if cx.decision.push[i] {
            moved_branch(t, cx, p, i, pr, parent_tip, base_branch)
        } else {
            tape::done(t, stay(pr.head_oid, pr.head))
        },
    }
}

/// The branch names that are taken once layer `i` has its place.
pub open spec fn reserve(cx: ContextView, i: int, p: PlacementView, spot: SpotView) -> PlacementView {
    if cx.prs[i] is None && cx.decision.push[i] {
        PlacementView { reserved: p.reserved.push(spot.branch), ..p }
    } else {
        p
    }
}

/// A branch that is pushed to where it belongs may hold the new commits of the
/// layers below. One of those whose pull request still has that branch as its
/// base would be closed as merged by the push, and so it gets its own base
/// first.
pub open spec fn rescued_from(t: TapeView, cx: ContextView, spot: SpotView, k: int, p: PlacementView) -> (
    TapeView,
    Result<PlacementView, HaltView>,
)
    decreases p.base_branches.len() - k,
{
    if k < 0 || k >= p.base_branches.len() || k >= cx.prs.len() || spot.push is None
        || spot.staged {
        tape::done(t, p)
    } else if !endangered(cx, spot, k, p) {
        rescued_from(t, cx, spot, k + 1, p)
    } else {
        let (t1, next) = saved_one(t, cx, spot, k, p);
        match next {
            Err(h) => (t1, Err(h)),
            Ok(next) => rescued_from(t1, cx, spot, k + 1, next),
        }
    }
}

/// The pull request of layer `k` gets its base before the push, where the pushed
/// branch holds the layer's tip.
pub open spec fn saved_one(t: TapeView, cx: ContextView, spot: SpotView, k: int, p: PlacementView) -> (
    TapeView,
    Result<PlacementView, HaltView>,
) {
    tape::bind(
        tape::ask_flag(
            t,
            RequestView::IsAncestor { ancestor: p.tips[k], descendant: spot.tip },
        ),
        |t: TapeView, held: bool|
            if held {
                tape::bind(
                    retarget_early(t, cx.config, cx.prs[k]->0, p.base_branches[k]),
                    |t: TapeView, drafted: Option<Seq<char>>| tape::done(t, rescued(p, k, drafted)),
                )
            } else {
                tape::done(t, p)
            },
    )
}

/// The placement after the pull request of layer `k` got its base early.
pub open spec fn rescued(p: PlacementView, k: int, drafted: Option<Seq<char>>) -> PlacementView {
    PlacementView {
        retargeted_early: p.retargeted_early.update(k, true),
        undraft: match drafted {
            Some(node_id) => p.undraft.push(node_id),
            None => p.undraft,
        },
        ..p
    }
}

/// The pull request of layer `k` still has the pushed branch as its base.
pub open spec fn endangered(cx: ContextView, spot: SpotView, k: int, p: PlacementView) -> bool {
    match cx.prs[k] {
        Some(pr) => pr.base == spot.branch && pr.base != p.base_branches[k]
            && !p.retargeted_early[k],
        None => false,
    }
}

/// The places of the layers from `i` on, after those of the layers before them.
pub open spec fn place_from(t: TapeView, cx: ContextView, i: int, p: PlacementView) -> (
    TapeView,
    Result<PlacementView, HaltView>,
)
    decreases cx.stack.layers.len() - i,
{
    if i < 0 || i >= cx.stack.layers.len() {
        tape::done(t, p)
    } else {
        let base = base_of(cx, p, i);
        tape::bind(
            spot_of(t, cx, p, i, base.0, base.1),
            |t: TapeView, spot: SpotView|
                tape::bind(
                    rescued_from(t, cx, spot, 0, p),
                    |t: TapeView, p: PlacementView|
                        place_from(t, cx, i + 1, with_spot(reserve(cx, i, p, spot), base.1, spot)),
                ),
        )
    }
}

/// The head branches of the pull requests before `n`.
pub open spec fn heads_before(prs: Seq<Option<PrView>>, n: int) -> Seq<Seq<char>>
    decreases n,
{
    if n <= 0 {
        Seq::empty()
    } else {
        match prs[n - 1] {
            Some(pr) => heads_before(prs, n - 1).push(pr.head),
            None => heads_before(prs, n - 1),
        }
    }
}

/// The placement of no layer: only the names of the existing branches are
/// taken.
pub open spec fn empty_placement(cx: ContextView) -> PlacementView {
    PlacementView {
        tips: Seq::empty(),
        branches: Seq::empty(),
        base_branches: Seq::empty(),
        new_roots: Seq::empty(),
        retargeted_early: Seq::empty(),
        held: Seq::empty(),
        undraft: Seq::empty(),
        reserved: heads_before(cx.prs, cx.prs.len() as int),
        push_specs: Seq::empty(),
        staged: false,
    }
}

pub fn heads_of(prs: &Vec<Option<PullRequest>>) -> (r: Vec<String>)
    ensures
        r.deep_view() == heads_before(prs.deep_view(), prs@.len() as int),
{
    let mut heads: Vec<String> = nothing();
    let mut i: usize = 0;
    while i < prs.len()
        invariant
            i <= prs@.len(),
            heads.deep_view() == heads_before(prs.deep_view(), i as int),
        decreases prs@.len() - i,
    {
        assert(prs.deep_view()[i as int] == prs@[i as int].deep_view());
        match &prs[i] {
            Some(pr) => {
                put(&mut heads, pr.head.clone());
            },
            None => {},
        }
        i = i + 1;
    }
    heads
}

fn start_placement(cx: &Context) -> (r: Placement)
    ensures
        r@ == empty_placement(cx@),
{
    let r = Placement {
        tips: Vec::new(),
        branches: nothing(),
        base_branches: nothing(),
        new_roots: Vec::new(),
        retargeted_early: Vec::new(),
        held: Vec::new(),
        undraft: nothing(),
        reserved: heads_of(cx.prs),
        push_specs: nothing(),
        staged: false,
    };
    assert(r.tips@ =~= Seq::<Oid>::empty());
    assert(r.new_roots@ =~= Seq::<Option<Oid>>::empty());
    assert(r.retargeted_early@ =~= Seq::<bool>::empty());
    assert(r.held@ =~= Seq::<bool>::empty());
    r
}

fn find_spot(
    t: &mut Tape,
    cx: &Context,
    p: &Placement,
    i: usize,
    parent_tip: Oid,
    base_branch: &str,
) -> (r: Result<Spot, Halt>)
    requires
        coherent(cx@),
        i < cx@.stack.layers.len(),
        placed(p@, i as int),
    ensures
        (final(t)@, tape::outcome(r)) == spot_of(
            old(t)@,
            cx@,
            p@,
            i as int,
            parent_tip,
            base_branch@,
        ),
{
    assert(cx@.prs[i as int] == cx.prs@[i as int].deep_view());
    match &cx.prs[i] {
        None => if cx.decision.push[i] {
            place_new_branch(t, cx, p, i, parent_tip)
        } else {
            let r = Spot {
                tip: cx.stack.base,
                branch: String::new(),
                root: None,
                early: false,
                drafted: None,
                push: None,
                staged: false,
                held: false,
            };
            Ok(r)
        },
        Some(pr) => if cx.decision.push[i] {
            move_branch(t, cx, p, i, pr, parent_tip, base_branch)
        } else {
            Ok(
                Spot {
                    tip: pr.head_oid,
                    branch: pr.head.clone(),
                    root: None,
                    early: false,
                    drafted: None,
                    push: None,
                    staged: false,
                    held: false,
                },
            )
        },
    }
}

fn take_spot(p: &mut Placement, base_branch: String, spot: Spot)
    ensures
        final(p)@ == with_spot(old(p)@, base_branch@, spot.deep_view()),
{
    p.tips.push(spot.tip);
    put(&mut p.branches, spot.branch);
    put(&mut p.base_branches, base_branch);
    p.new_roots.push(spot.root);
    p.retargeted_early.push(spot.early);
    p.held.push(spot.held);
    match spot.drafted {
        Some(node_id) => {
            put(&mut p.undraft, node_id);
        },
        None => {},
    }
    match spot.push {
        Some(spec) => {
            put(&mut p.push_specs, spec);
        },
        None => {},
    }
    if spot.staged {
        p.staged = true;
    }
}

fn rescue_bases(t: &mut Tape, cx: &Context, spot: &Spot, p: &mut Placement) -> (r: Result<
    (),
    Halt,
>)
    requires
        placed(old(p)@, old(p)@.tips.len() as int),
        old(p)@.tips.len() <= cx@.prs.len(),
    ensures
        ({
            let spec = rescued_from(old(t)@, cx@, spot.deep_view(), 0, old(p)@);
            &&& final(t)@ == spec.0
            &&& match r {
                Ok(_) => spec.1 == Ok::<PlacementView, HaltView>(final(p)@),
                Err(h) => spec.1 == Err::<PlacementView, HaltView>(h.deep_view()),
            }
        }),
        placed(final(p)@, old(p)@.tips.len() as int),
{
    let n: usize = p.base_branches.len();
    assert(p@.base_branches.len() == n);
    if spot.push.is_none() || spot.staged {
        return Ok(());
    }
    let mut k: usize = 0;
    while k < n
        invariant
            k <= n <= cx.prs@.len(),
            placed(p@, n as int),
            n == old(p)@.tips.len(),
            spot.deep_view().push is Some,
            !spot.deep_view().staged,
            rescued_from(t@, cx@, spot.deep_view(), k as int, p@) == rescued_from(
                old(t)@,
                cx@,
                spot.deep_view(),
                0,
                old(p)@,
            ),
        decreases n - k,
    {
        assert(cx@.prs[k as int] == cx.prs@[k as int].deep_view());
        match &cx.prs[k] {
            Some(pr) => {
                assert(p@.base_branches[k as int] == p.base_branches@[k as int]@);
                if same(pr.base.as_str(), spot.branch.as_str()) && !same(
                    pr.base.as_str(),
                    p.base_branches[k].as_str(),
                ) && !p.retargeted_early[k] {
                    let tip = p.tips[k];
                    if t.flag(Request::IsAncestor { ancestor: tip, descendant: spot.tip })? {
                        let drafted = change_base_early(
                            t,
                            cx.config,
                            pr,
                            p.base_branches[k].as_str(),
                        )?;
                        p.retargeted_early.set(k, true);
                        match drafted {
                            Some(node_id) => {
                                put(&mut p.undraft, node_id);
                            },
                            None => {},
                        }
                    }
                }
            },
            None => {},
        }
        k = k + 1;
    }
    Ok(())
}

fn place_layers(t: &mut Tape, cx: &Context) -> (r: Result<Placement, Halt>)
    requires
        coherent(cx@),
    ensures
        (final(t)@, tape::outcome(r)) == place_from(old(t)@, cx@, 0, empty_placement(cx@)),
        r matches Ok(p) ==> placed(p@, cx@.stack.layers.len() as int),
{
    let mut p = start_placement(cx);
    let mut i: usize = 0;
    while i < cx.stack.layers.len()
        invariant
            i <= cx.stack.layers@.len(),
            coherent(cx@),
            placed(p@, i as int),
            place_from(t@, cx@, i as int, p@) == place_from(
                old(t)@,
                cx@,
                0,
                empty_placement(cx@),
            ),
        decreases cx.stack.layers@.len() - i,
    {
        assert(cx@.stack.layers[i as int].dep == cx.stack.layers@[i as int].dep);
        assert(cx@.prs[i as int] == cx.prs@[i as int].deep_view());
        let (parent_tip, base_branch) = match cx.stack.layers[i].dep {
            Dep::Layer(j) => (p.tips[j], p.branches[j].clone()),
            _ => (cx.stack.base, cx.config.trunk.clone()),
        };
        let spot = find_spot(t, cx, &p, i, parent_tip, base_branch.as_str())?;
        rescue_bases(t, cx, &spot, &mut p)?;
        if cx.prs[i].is_none() && cx.decision.push[i] {
            put(&mut p.reserved, spot.branch.clone());
        }
        take_spot(&mut p, base_branch, spot);
        i = i + 1;
    }
    Ok(p)
}

/// The pull requests from `i` on whose base is about to change are turned into
/// drafts, which are exempt from automatic review requests.
pub open spec fn draft_from(t: TapeView, cx: ContextView, i: int, p: PlacementView) -> (
    TapeView,
    Result<PlacementView, HaltView>,
)
    decreases cx.prs.len() - i,
{
    if i < 0 || i >= cx.prs.len() {
        tape::done(t, p)
    } else {
        match cx.prs[i] {
            None => draft_from(t, cx, i + 1, p),
            Some(pr) => if pr.draft || pr.base == p.base_branches[i] || p.retargeted_early[i] {
                draft_from(t, cx, i + 1, p)
            } else {
                tape::bind(
                    tape::ask_unit(t, RequestView::SetDraft { node_id: pr.node_id, draft: true }),
                    |t: TapeView, u: ()|
                        draft_from(
                            t,
                            cx,
                            i + 1,
                            PlacementView { undraft: p.undraft.push(pr.node_id), ..p },
                        ),
                )
            },
        }
    }
}

fn draft_retargeted(t: &mut Tape, cx: &Context, p: &mut Placement) -> (r: Result<(), Halt>)
    requires
        coherent(cx@),
        placed(old(p)@, cx@.stack.layers.len() as int),
    ensures
        ({
            let spec = draft_from(old(t)@, cx@, 0, old(p)@);
            &&& final(t)@ == spec.0
            &&& match r {
                Ok(_) => spec.1 == Ok::<PlacementView, HaltView>(final(p)@) && placed(
                    final(p)@,
                    cx@.stack.layers.len() as int,
                ),
                Err(h) => spec.1 == Err::<PlacementView, HaltView>(h.deep_view()),
            }
        }),
{
    let mut i: usize = 0;
    while i < cx.prs.len()
        invariant
            i <= cx.prs@.len() == cx@.stack.layers.len(),
            placed(p@, cx@.stack.layers.len() as int),
            draft_from(t@, cx@, i as int, p@) == draft_from(old(t)@, cx@, 0, old(p)@),
        decreases cx.prs@.len() - i,
    {
        assert(cx@.prs[i as int] == cx.prs@[i as int].deep_view());
        match &cx.prs[i] {
            Some(pr) => {
                assert(p@.base_branches[i as int] == p.base_branches@[i as int]@);
                if !(pr.draft || same(pr.base.as_str(), p.base_branches[i].as_str())
                    || p.retargeted_early[i]) {
                    t.unit(Request::SetDraft { node_id: pr.node_id.clone(), draft: true })?;
                    put(&mut p.undraft, pr.node_id.clone());
                }
            },
            None => {},
        }
        i = i + 1;
    }
    Ok(())
}

/// What is told to the forge, layer by layer.
pub struct Progress {
    pub stack: Stack,
    pub messages: Vec<CommitMessage>,
    pub outcomes: Vec<LayerOutcome>,
}

#[verifier::ext_equal]
pub struct ProgressView {
    pub stack: StackView,
    pub messages: Seq<MessageView>,
    pub outcomes: Seq<OutcomeView>,
}

impl View for Progress {
    type V = ProgressView;

    open spec fn view(&self) -> ProgressView {
        ProgressView {
            stack: self.stack@,
            messages: self.messages.deep_view(),
            outcomes: self.outcomes.deep_view(),
        }
    }
}

impl DeepView for Progress {
    type V = ProgressView;

    open spec fn deep_view(&self) -> ProgressView {
        self@
    }
}

/// The stack with a pull request for layer `i`.
pub open spec fn with_pr(s: StackView, i: int, number: u64) -> StackView {
    StackView {
        layers: s.layers.update(i, LayerView { pr: Some(number), ..s.layers[i] }),
        ..s
    }
}

/// The canonical `Depends-On:` value for a layer, if it declared one.
///
/// Layers with no trailer are left alone: the implicit "previous layer" rule is
/// the common case and spelling it out on every commit would be noise.
pub open spec fn canonical_dep(c: ConfigView, s: StackView, i: int) -> Option<Seq<char>> {
    if s.layers[i].dep_spec is None {
        None
    } else {
        match s.layers[i].dep {
            Dep::Main => Some(c.trunk),
            Dep::Layer(j) => match s.layers[j as int].pr {
                Some(n) => Some("#"@ + text::decimal(n as nat)),
                None => None,
            },
            // Still unresolved, so there is nothing better to write.
            Dep::ExternalPr(_) => None,
        }
    }
}

fn canonical_dep_text(config: &Config, stack: &Stack, i: usize) -> (r: Option<String>)
    requires
        i < stack@.layers.len(),
        stack::well_formed(stack@),
    ensures
        r.deep_view() == canonical_dep(config@, stack@, i as int),
{
    let layer = &stack.layers[i];
    assert(stack@.layers[i as int] == layer.deep_view());
    if layer.dep_spec.is_none() {
        return None;
    }
    match layer.dep {
        Dep::Main => Some(config.trunk.clone()),
        Dep::Layer(j) => {
            assert(stack@.layers[j as int].pr == stack.layers@[j as int].pr);
            match stack.layers[j].pr {
                Some(n) => {
                    let mut value = "#".to_owned();
                    push_decimal(&mut value, n);
                    Some(value)
                },
                None => None,
            }
        },
        Dep::ExternalPr(_) => None,
    }
}

/// The message of layer `i` with its dependency written in the canonical form.
pub open spec fn dep_recorded(c: ConfigView, s: StackView, i: int, m: MessageView) -> MessageView {
    match canonical_dep(c, s, i) {
        Some(value) => if trailers::trailer_value(m, DEPENDS_ON@) != Some(value) {
            trailers::with_trailer(m, DEPENDS_ON@, value)
        } else {
            m
        },
        None => m,
    }
}

/// What an existing pull request is to be changed to.
pub open spec fn pr_update(
    cx: ContextView,
    i: int,
    pr: PrView,
    base_branch: Seq<char>,
    early: bool,
    warn: bool,
) -> UpdateView {
    let message = cx.stack.layers[i].message;
    let rewrites = cx.opts.update_message || cx.decision.message_changed[i];
    let body = pr_body::with_warning(
        if rewrites {
            message.body
        } else {
            pr.body
        },
        warn,
    );
    UpdateView {
        title: if rewrites && pr.title != message.subject {
            Some(message.subject)
        } else {
            None
        },
        body: if pr.body != body {
            Some(body)
        } else {
            None
        },
        base: if pr.base != base_branch && !early {
            Some(base_branch)
        } else {
            None
        },
        state: None,
    }
}

fn update_for(
    cx: &Context,
    i: usize,
    pr: &PullRequest,
    base_branch: &str,
    early: bool,
    warn: bool,
) -> (r: PullRequestUpdate)
    requires
        coherent(cx@),
        i < cx@.stack.layers.len(),
    ensures
        r.deep_view() == pr_update(cx@, i as int, pr@, base_branch@, early, warn),
{
    let layer = &cx.stack.layers[i];
    assert(cx@.stack.layers[i as int] == layer.deep_view());
    let rewrites = cx.opts.update_message || cx.decision.message_changed[i];
    let body = if rewrites {
        splice_warning(layer.message.body.as_str(), warn)
    } else {
        splice_warning(pr.body.as_str(), warn)
    };
    let title = if rewrites && !same(pr.title.as_str(), layer.subject()) {
        Some(layer.message.subject.clone())
    } else {
        None
    };
    let body = if !same(pr.body.as_str(), body.as_str()) {
        Some(body)
    } else {
        None
    };
    let base = if !same(pr.base.as_str(), base_branch) && !early {
        Some(base_branch.to_owned())
    } else {
        None
    };
    PullRequestUpdate { title, body, base, state: None }
}

/// What happens to an existing pull request.
pub open spec fn action_of(cx: ContextView, i: int, update: UpdateView) -> LayerAction {
    if !cx.decision.push[i] {
        if update == forge::no_update() {
            LayerAction::Skipped
        } else {
            LayerAction::Updated
        }
    } else if cx.decision.patch_changed[i] || cx.decision.message_changed[i] {
        LayerAction::Updated
    } else {
        LayerAction::Refreshed
    }
}

/// The end of the round for one layer: its dependency is recorded in the
/// message and its tip in a reference.
pub open spec fn announced_one(
    t: TapeView,
    cx: ContextView,
    i: int,
    st: ProgressView,
    o: OutcomeView,
) -> (TapeView, Result<ProgressView, HaltView>) {
    tape::bind(
        refs::updated(t, o.number, o.tip),
        |t: TapeView, u: ()|
            tape::done(
                t,
                ProgressView {
                    messages: st.messages.update(
                        i,
                        dep_recorded(cx.config, st.stack, i, st.messages[i]),
                    ),
                    outcomes: st.outcomes.push(o),
                    ..st
                },
            ),
    )
}

/// A new pull request for layer `i`.
pub open spec fn created(
    t: TapeView,
    cx: ContextView,
    p: PlacementView,
    warn: bool,
    i: int,
    st: ProgressView,
) -> (TapeView, Result<ProgressView, HaltView>) {
    let message = cx.stack.layers[i].message;
    tape::bind(
        tape::ask_number(
            t,
            RequestView::CreatePullRequest {
                pr: CreateView {
                    title: message.subject,
                    body: pr_body::with_warning(message.body, warn),
                    base: p.base_branches[i],
                    head: p.branches[i],
                    draft: cx.opts.draft,
                },
            },
        ),
        |t: TapeView, number: u64|
            tape::bind(
                refs::root_updated(t, number, p.tips[i]),
                |t: TapeView, u: ()|
                    announced_one(
                        t,
                        cx,
                        i,
                        ProgressView {
                            stack: with_pr(st.stack, i, number),
                            messages: st.messages.update(
                                i,
                                trailers::with_trailer(
                                    st.messages[i],
                                    PULL_REQUEST@,
                                    config::pr_url(cx.config, number),
                                ),
                            ),
                            ..st
                        },
                        OutcomeView {
                            index: i as usize,
                            number,
                            branch: p.branches[i],
                            tip: p.tips[i],
                            action: LayerAction::Created,
                            base: p.base_branches[i],
                            retargeted: false,
                        },
                    ),
            ),
    )
}

/// The existing pull request of layer `i`.
pub open spec fn refreshed(
    t: TapeView,
    cx: ContextView,
    p: PlacementView,
    warn: bool,
    i: int,
    pr: PrView,
    st: ProgressView,
) -> (TapeView, Result<ProgressView, HaltView>) {
    let update = pr_update(cx, i, pr, p.base_branches[i], p.retargeted_early[i], warn);
    tape::bind(
        match p.new_roots[i] {
            Some(root) => refs::root_updated(t, pr.number, root),
            None => tape::done(t, ()),
        },
        |t: TapeView, u: ()|
            tape::bind(
                if update != forge::no_update() {
                    tape::ask_unit(
                        t,
                        RequestView::UpdatePullRequest { number: pr.number, update },
                    )
                } else {
                    tape::done(t, ())
                },
                |t: TapeView, u: ()|
                    announced_one(
                        t,
                        cx,
                        i,
                        st,
                        OutcomeView {
                            index: i as usize,
                            number: pr.number,
                            branch: p.branches[i],
                            tip: p.tips[i],
                            action: action_of(cx, i, update),
                            base: p.base_branches[i],
                            retargeted: pr.base != p.base_branches[i],
                        },
                    ),
            ),
    )
}

/// The layers from `i` on are announced to the forge: new pull requests are
/// opened and existing ones brought up to date.
pub open spec fn announce_from(
    t: TapeView,
    cx: ContextView,
    p: PlacementView,
    warn: bool,
    i: int,
    st: ProgressView,
) -> (TapeView, Result<ProgressView, HaltView>)
    decreases cx.stack.layers.len() - i,
{
    if i < 0 || i >= cx.stack.layers.len() {
        tape::done(t, st)
    } else {
        match cx.prs[i] {
            None => if cx.decision.push[i] {
                tape::bind(
                    created(t, cx, p, warn, i, st),
                    |t: TapeView, st: ProgressView| announce_from(t, cx, p, warn, i + 1, st),
                )
            } else {
                announce_from(t, cx, p, warn, i + 1, st)
            },
            Some(pr) => tape::bind(
                refreshed(t, cx, p, warn, i, pr, st),
                |t: TapeView, st: ProgressView| announce_from(t, cx, p, warn, i + 1, st),
            ),
        }
    }
}

/// The progress fits the stack that it started from.
pub open spec fn on_track(cx: ContextView, st: ProgressView) -> bool {
    stack::well_formed(st.stack) && st.stack.layers.len() == cx.stack.layers.len()
        && st.messages.len() == cx.stack.layers.len()
}

fn finish_layer(t: &mut Tape, cx: &Context, i: usize, st: &mut Progress, o: LayerOutcome) -> (r: Result<
    (),
    Halt,
>)
    requires
        i < cx@.stack.layers.len(),
        on_track(cx@, old(st)@),
    ensures
        ({
            let spec = announced_one(old(t)@, cx@, i as int, old(st)@, o.deep_view());
            &&& final(t)@ == spec.0
            &&& match r {
                Ok(_) => spec.1 == Ok::<ProgressView, HaltView>(final(st)@) && on_track(
                    cx@,
                    final(st)@,
                ),
                Err(h) => spec.1 == Err::<ProgressView, HaltView>(h.deep_view()),
            }
        }),
{
    refs::update(t, o.number, o.tip)?;
    let ghost before = st@;
    let mut message = st.messages[i].duplicate();
    assert(before.messages[i as int] == message@);
    match canonical_dep_text(cx.config, &st.stack, i) {
        Some(value) => {
            let recorded = match message.get(DEPENDS_ON) {
                Some(current) => same(current, value.as_str()),
                None => false,
            };
            if !recorded {
                message.set(DEPENDS_ON, value.as_str());
            }
        },
        None => {},
    }
    crate::data::replace(&mut st.messages, i, message);
    put(&mut st.outcomes, o);
    Ok(())
}

fn announce_layer(
    t: &mut Tape,
    cx: &Context,
    p: &Placement,
    warn: bool,
    i: usize,
    st: &mut Progress,
) -> (r: Result<(), Halt>)
    requires
        coherent(cx@),
        i < cx@.stack.layers.len(),
        placed(p@, cx@.stack.layers.len() as int),
        on_track(cx@, old(st)@),
        cx@.prs[i as int] is Some || cx@.decision.push[i as int],
    ensures
        ({
            let spec = match cx@.prs[i as int] {
                Some(pr) => refreshed(old(t)@, cx@, p@, warn, i as int, pr, old(st)@),
                None => created(old(t)@, cx@, p@, warn, i as int, old(st)@),
            };
            &&& final(t)@ == spec.0
            &&& match r {
                Ok(_) => spec.1 == Ok::<ProgressView, HaltView>(final(st)@) && on_track(
                    cx@,
                    final(st)@,
                ),
                Err(h) => spec.1 == Err::<ProgressView, HaltView>(h.deep_view()),
            }
        }),
{
    let base_branch = p.base_branches[i].clone();
    let branch = p.branches[i].clone();
    let tip = p.tips[i];
    let layer = &cx.stack.layers[i];
    assert(cx@.stack.layers[i as int] == layer.deep_view());
    assert(cx@.prs[i as int] == cx.prs@[i as int].deep_view());
    assert(p@.base_branches[i as int] == base_branch@);
    assert(p@.branches[i as int] == branch@);
    match &cx.prs[i] {
        None => {
            let number = t.number(
                Request::CreatePullRequest {
                    pr: CreatePr {
                        title: layer.message.subject.clone(),
                        body: splice_warning(layer.message.body.as_str(), warn),
                        base: base_branch.clone(),
                        head: branch.clone(),
                        draft: cx.opts.draft,
                    },
                },
            )?;
            refs::update_root(t, number, tip)?;
            let ghost before = st@;
            let mut message = st.messages[i].duplicate();
            assert(before.messages[i as int] == message@);
            message.set(PULL_REQUEST, cx.config.pull_request_url(number).as_str());
            crate::data::replace(&mut st.messages, i, message);
            let mut changed = st.stack.layers[i].duplicate();
            assert(before.stack.layers[i as int] == changed.deep_view());
            changed.pr = Some(number);
            crate::data::replace(&mut st.stack.layers, i, changed);
            assert(st@.stack == with_pr(before.stack, i as int, number));
            finish_layer(
                t,
                cx,
                i,
                st,
                LayerOutcome {
                    index: i,
                    number,
                    branch,
                    tip,
                    action: LayerAction::Created,
                    base: base_branch,
                    retargeted: false,
                },
            )
        },
        Some(pr) => {
            match p.new_roots[i] {
                Some(root) => {
                    refs::update_root(t, pr.number, root)?;
                },
                None => {},
            }
            let update = update_for(
                cx,
                i,
                pr,
                base_branch.as_str(),
                p.retargeted_early[i],
                warn,
            );
            let nothing_new = update.is_empty();
            let action = if !cx.decision.push[i] {
                if nothing_new {
                    LayerAction::Skipped
                } else {
                    LayerAction::Updated
                }
            } else if cx.decision.patch_changed[i] || cx.decision.message_changed[i] {
                LayerAction::Updated
            } else {
                LayerAction::Refreshed
            };
            if !nothing_new {
                t.unit(Request::UpdatePullRequest { number: pr.number, update })?;
            }
            let retargeted = !same(pr.base.as_str(), base_branch.as_str());
            finish_layer(
                t,
                cx,
                i,
                st,
                LayerOutcome {
                    index: i,
                    number: pr.number,
                    branch,
                    tip,
                    action,
                    base: base_branch,
                    retargeted,
                },
            )
        },
    }
}

/// The progress before anything is announced.
pub open spec fn start_of(cx: ContextView) -> ProgressView {
    ProgressView {
        stack: cx.stack,
        messages: cx.stack.layers.map_values(|l: LayerView| l.message),
        outcomes: Seq::empty(),
    }
}

pub fn messages_of(stack: &Stack) -> (r: Vec<CommitMessage>)
    ensures
        r.deep_view() == stack@.layers.map_values(|l: LayerView| l.message),
{
    let mut messages: Vec<CommitMessage> = nothing();
    let mut i: usize = 0;
    let ghost all = stack@.layers.map_values(|l: LayerView| l.message);
    assert(all.take(0) =~= Seq::<MessageView>::empty());
    while i < stack.layers.len()
        invariant
            i <= stack.layers@.len(),
            all == stack@.layers.map_values(|l: LayerView| l.message),
            messages.deep_view() == all.take(i as int),
        decreases stack.layers@.len() - i,
    {
        put(&mut messages, stack.layers[i].message.clone());
        assert(all.take(i as int).push(all[i as int]) =~= all.take(i + 1));
        i = i + 1;
    }
    assert(all.take(i as int) =~= all);
    messages
}

fn announce_layers(t: &mut Tape, cx: &Context, p: &Placement, warn: bool) -> (r: Result<Progress, Halt>)
    requires
        coherent(cx@),
        placed(p@, cx@.stack.layers.len() as int),
    ensures
        (final(t)@, tape::outcome(r)) == announce_from(
            old(t)@,
            cx@,
            p@,
            warn,
            0,
            start_of(cx@),
        ),
        r matches Ok(st) ==> on_track(cx@, st@),
{
    let mut st = Progress {
        stack: cx.stack.duplicate(),
        messages: messages_of(cx.stack),
        outcomes: nothing(),
    };
    let mut i: usize = 0;
    while i < cx.stack.layers.len()
        invariant
            i <= cx.stack.layers@.len(),
            coherent(cx@),
            placed(p@, cx@.stack.layers.len() as int),
            on_track(cx@, st@),
            announce_from(t@, cx@, p@, warn, i as int, st@) == announce_from(
                old(t)@,
                cx@,
                p@,
                warn,
                0,
                start_of(cx@),
            ),
        decreases cx.stack.layers@.len() - i,
    {
        assert(cx@.prs[i as int] == cx.prs@[i as int].deep_view());
        if cx.prs[i].is_some() || cx.decision.push[i] {
            announce_layer(t, cx, p, warn, i, &mut st)?;
        }
        i = i + 1;
    }
    Ok(st)
}

/// The drafts from `k` on are marked ready again.
pub open spec fn undraft_from(t: TapeView, nodes: Seq<Seq<char>>, k: int) -> (
    TapeView,
    Result<(), HaltView>,
)
    decreases nodes.len() - k,
{
    if k < 0 || k >= nodes.len() {
        tape::done(t, ())
    } else {
        tape::bind(
            tape::ask_unit(t, RequestView::SetDraft { node_id: nodes[k], draft: false }),
            |t: TapeView, u: ()| undraft_from(t, nodes, k + 1),
        )
    }
}

fn undraft_all(t: &mut Tape, nodes: &Vec<String>) -> (r: Result<(), Halt>)
    ensures
        (final(t)@, tape::outcome(r)) == undraft_from(old(t)@, nodes.deep_view(), 0),
{
    let mut k: usize = 0;
    while k < nodes.len()
        invariant
            k <= nodes@.len(),
            undraft_from(t@, nodes.deep_view(), k as int) == undraft_from(
                old(t)@,
                nodes.deep_view(),
                0,
            ),
        decreases nodes@.len() - k,
    {
        assert(nodes.deep_view()[k as int] == nodes@[k as int]@);
        t.unit(Request::SetDraft { node_id: nodes[k].clone(), draft: false })?;
        k = k + 1;
    }
    Ok(())
}

/// The commits of the layers, each with the message it is to have.
pub open spec fn rewrites(s: StackView, messages: Seq<MessageView>) -> Seq<(Oid, Seq<char>)> {
    Seq::new(s.layers.len(), |i: int| (s.layers[i].commit, trailers::rendered(messages[i])))
}

/// Every layer has the message it is to have.
pub open spec fn messages_match(s: StackView, messages: Seq<MessageView>) -> bool {
    forall|i: int| #![trigger s.layers[i]]
        0 <= i < s.layers.len() ==> trailers::rendered(s.layers[i].message) == trailers::rendered(
            messages[i],
        )
}

/// The stack with the given commits and messages, each on top of the one before
/// it.
pub open spec fn recommitted_stack(
    s: StackView,
    commits: Seq<Oid>,
    messages: Seq<MessageView>,
) -> StackView {
    StackView {
        layers: Seq::new(
            s.layers.len(),
            |i: int|
                LayerView {
                    commit: commits[i],
                    parent: if i == 0 {
                        s.base
                    } else {
                        commits[i - 1]
                    },
                    message: messages[i],
                    ..s.layers[i]
                },
        ),
        ..s
    }
}

/// The stack with the given messages written into the local history.
pub open spec fn messages_edited(t: TapeView, s: StackView, messages: Seq<MessageView>) -> (
    TapeView,
    Result<StackView, HaltView>,
) {
    if messages_match(s, messages) {
        tape::done(t, s)
    } else {
        tape::bind(
            history::messages_rewritten(t, s.base, rewrites(s, messages)),
            |t: TapeView, commits: Seq<Oid>| tape::done(t, recommitted_stack(s, commits, messages)),
        )
    }
}

/// The commits of the layers, each with the message it is to have.
pub fn pair_messages(stack: &Stack, messages: &Vec<CommitMessage>) -> (r: Vec<(Oid, String)>)
    requires
        messages@.len() == stack@.layers.len(),
    ensures
        r.deep_view() == rewrites(stack@, messages.deep_view()),
{
    let mut pairs: Vec<(Oid, String)> = nothing();
    let ghost all = rewrites(stack@, messages.deep_view());
    let mut i: usize = 0;
    while i < stack.layers.len()
        invariant
            i <= stack.layers@.len() == messages@.len(),
            all == rewrites(stack@, messages.deep_view()),
            pairs.deep_view() == all.take(i as int),
        decreases stack.layers@.len() - i,
    {
        let layer = &stack.layers[i];
        assert(stack@.layers[i as int] == layer.deep_view());
        assert(messages.deep_view()[i as int] == messages@[i as int]@);
        put(&mut pairs, (layer.commit, messages[i].render()));
        assert(all.take(i as int).push(all[i as int]) =~= all.take(i + 1));
        i = i + 1;
    }
    assert(all.take(i as int) =~= all);
    pairs
}

/// Writes the updated commit messages back to the local history and brings the
/// in-memory stack in line with the resulting commit ids.
///
/// Commits whose message is unchanged are left alone (and everything below the
/// first change), so this is a no-op in the common case where nothing needed
/// recording.
pub fn apply_message_edits(t: &mut Tape, stack: &Stack, messages: &Vec<CommitMessage>) -> (r: Result<
    Stack,
    Halt,
>)
    requires
        messages@.len() == stack@.layers.len(),
        stack::well_formed(stack@),
    ensures
        (final(t)@, tape::outcome(r)) == messages_edited(old(t)@, stack@, messages.deep_view()),
        r matches Ok(s) ==> stack::well_formed(s@) && s@.layers.len() == stack@.layers.len(),
{
    let mut unchanged = true;
    let mut i: usize = 0;
    while i < stack.layers.len()
        invariant
            i <= stack.layers@.len() == messages@.len(),
            unchanged == forall|k: int| #![trigger stack@.layers[k]]
                0 <= k < i ==> trailers::rendered(stack@.layers[k].message) == trailers::rendered(
                    messages.deep_view()[k],
                ),
        decreases stack.layers@.len() - i,
    {
        let layer = &stack.layers[i];
        assert(stack@.layers[i as int] == layer.deep_view());
        assert(messages.deep_view()[i as int] == messages@[i as int]@);
        let wanted = messages[i].render();
        if !same(layer.message.render().as_str(), wanted.as_str()) {
            unchanged = false;
        }
        i = i + 1;
    }
    if unchanged {
        return Ok(stack.duplicate());
    }
    let pairs = pair_messages(stack, messages);
    let commits = rewrite_messages(t, stack.base, &pairs)?;
    let mut layers: Vec<Layer> = nothing();
    let ghost new = recommitted_stack(stack@, commits@, messages.deep_view());
    let mut k: usize = 0;
    while k < stack.layers.len()
        invariant
            k <= stack.layers@.len() == messages@.len(),
            commits@.len() == stack.layers@.len(),
            new == recommitted_stack(stack@, commits@, messages.deep_view()),
            layers.deep_view() == new.layers.take(k as int),
        decreases stack.layers@.len() - k,
    {
        let mut layer = stack.layers[k].duplicate();
        layer.commit = commits[k];
        layer.parent = if k == 0 {
            stack.base
        } else {
            commits[k - 1]
        };
        layer.message = messages[k].clone();
        put(&mut layers, layer);
        assert(new.layers.take(k as int).push(new.layers[k as int]) =~= new.layers.take(k + 1));
        k = k + 1;
    }
    assert(new.layers.take(k as int) =~= new.layers);
    assert forall|m: int| #![trigger new.layers[m]] 0 <= m < new.layers.len() implies (
    match new.layers[m].dep {
        Dep::Layer(j) => j < m,
        _ => true,
    }) by {
        assert(new.layers[m].dep == stack@.layers[m].dep);
    }
    Ok(Stack { base: stack.base, layers })
}

/// The pull requests do not say how they must be merged, where that matters.
pub open spec fn warns(t: TapeView, opts: OptionsView) -> (TapeView, Result<bool, HaltView>) {
    if opts.preserve_commit_history {
        tape::bind(
            tape::ask_settings(t, RequestView::MergeSettings),
            |t: TapeView, settings: forge::RepoMergeSettings|
                tape::done(t, !forge::squash_only(settings)),
        )
    } else {
        tape::done(t, false)
    }
}

/// What carrying a decision out comes to.
pub struct Executed {
    pub stack: Stack,
    pub outcomes: Vec<LayerOutcome>,
    /// Some layer was left behind its new base.
    pub staged: bool,
}

#[verifier::ext_equal]
pub struct ExecutedView {
    pub stack: StackView,
    pub outcomes: Seq<OutcomeView>,
    pub staged: bool,
}

impl DeepView for Executed {
    type V = ExecutedView;

    open spec fn deep_view(&self) -> ExecutedView {
        ExecutedView {
            stack: self.stack@,
            outcomes: self.outcomes.deep_view(),
            staged: self.staged,
        }
    }
}

/// The end of a run: drafts are marked ready again, the messages are written
/// into the local history, and the chains are registered.
pub open spec fn concluded(t: TapeView, p: PlacementView, st: ProgressView) -> (
    TapeView,
    Result<ExecutedView, HaltView>,
) {
    tape::bind(
        undraft_from(t, p.undraft, 0),
        |t: TapeView, u: ()|
            tape::bind(
                messages_edited(t, st.stack, st.messages),
                |t: TapeView, s: StackView|
                    tape::bind(
                        tape::ask_unit(t, RequestView::SyncStacks { chains: stack::chains(s) }),
                        |t: TapeView, u: ()|
                            tape::done(
                                t,
                                ExecutedView { stack: s, outcomes: st.outcomes, staged: p.staged },
                            ),
                    ),
            ),
    )
}

/// All new and updated branches are pushed at once, and then the pull requests
/// are told.
pub open spec fn pushed(t: TapeView, cx: ContextView, p: PlacementView) -> (
    TapeView,
    Result<ExecutedView, HaltView>,
) {
    tape::bind(
        if p.push_specs.len() > 0 {
            tape::ask_unit(t, RequestView::Push { specs: p.push_specs })
        } else {
            tape::done(t, ())
        },
        |t: TapeView, u: ()|
            tape::bind(
                warns(t, cx.opts),
                |t: TapeView, warn: bool|
                    tape::bind(
                        announce_from(t, cx, p, warn, 0, start_of(cx)),
                        |t: TapeView, st: ProgressView| concluded(t, p, st),
                    ),
            ),
    )
}

/// A decision carried out.
pub open spec fn executed(t: TapeView, cx: ContextView) -> (
    TapeView,
    Result<ExecutedView, HaltView>,
) {
    tape::bind(
        place_from(t, cx, 0, empty_placement(cx)),
        |t: TapeView, p: PlacementView|
            tape::bind(
                if cx.config.draft_while_retargeting {
                    draft_from(t, cx, 0, p)
                } else {
                    tape::done(t, p)
                },
                |t: TapeView, p: PlacementView| pushed(t, cx, p),
            ),
    )
}

/// Carries a decision out: makes the commits bottom-up, so that every layer
/// sees its dependency's *new* tip, pushes them all at once, and tells the pull
/// requests.
pub fn execute(t: &mut Tape, cx: &Context) -> (r: Result<Executed, Halt>)
    requires
        coherent(cx@),
    ensures
        (final(t)@, tape::outcome(r)) == executed(old(t)@, cx@),
        r matches Ok(e) ==> stack::well_formed(e.stack@) && e.stack@.layers.len()
            == cx@.stack.layers.len(),
{
    let mut p = place_layers(t, cx)?;
    // Drafts are exempt from automatic review requests, so turning a pull
    // request into a draft across a retarget is a second line of defence for
    // anybody who wants one.
    if cx.config.draft_while_retargeting {
        draft_retargeted(t, cx, &mut p)?;
    }
    if p.push_specs.len() > 0 {
        let specs = p.push_specs.duplicate();
        t.unit(Request::Push { specs })?;
    }
    let warn = if cx.opts.preserve_commit_history {
        let settings = t.settings(Request::MergeSettings)?;
        !settings.is_squash_only()
    } else {
        false
    };
    let st = announce_layers(t, cx, &p, warn)?;
    undraft_all(t, &p.undraft)?;
    let stack = apply_message_edits(t, &st.stack, &st.messages)?;
    let chains = stack.pr_chains();
    t.unit(Request::SyncStacks { chains })?;
    Ok(Executed { stack, outcomes: st.outcomes, staged: p.staged })
}

pub broadcast proof fn lemma_free_branch_only(
    from: TapeView,
    t: TapeView,
    preferred: Seq<char>,
    attempt: nat,
    reserved: Seq<Seq<char>>,
    allowed: spec_fn(RequestView) -> bool,
)
    requires
        #[trigger] tape::only(from, t, allowed),
        tape::may_look(allowed),
    ensures
        tape::only(from, (#[trigger] free_branch(t, preferred, attempt, reserved)).0, allowed),
    decreases t.replies.len() - t.asked.len(),
{
    broadcast use tape::lemma_only_ask;

    let (t1, name) = tape::ask_text(
        t,
        RequestView::UnusedBranchName { preferred: attempt_name(preferred, attempt) },
    );
    if name is Ok && among(reserved, name->Ok_0) {
        lemma_free_branch_only(from, t1, preferred, attempt + 1, reserved, allowed);
    }
}

pub broadcast proof fn lemma_new_branch_only(
    from: TapeView,
    t: TapeView,
    cx: ContextView,
    p: PlacementView,
    i: int,
    parent_tip: Oid,
    allowed: spec_fn(RequestView) -> bool,
)
    requires
        #[trigger] tape::only(from, t, allowed),
        tape::may_look(allowed),
    ensures
        tape::only(from, (#[trigger] new_branch(t, cx, p, i, parent_tip)).0, allowed),
{
    broadcast use {tape::lemma_only_ask, history::group_history_only, lemma_free_branch_only};

}

pub broadcast proof fn lemma_branch_start_only(
    from: TapeView,
    t: TapeView,
    pr: PrView,
    fallback: Oid,
    allowed: spec_fn(RequestView) -> bool,
)
    requires
        #[trigger] tape::only(from, t, allowed),
        tape::may_look(allowed),
    ensures
        tape::only(from, (#[trigger] branch_start(t, pr, fallback)).0, allowed),
{
    broadcast use {tape::lemma_only_ask, history::group_history_only};

}

pub broadcast proof fn lemma_may_retarget_early_only(
    from: TapeView,
    t: TapeView,
    pr: PrView,
    base_branch: Seq<char>,
    target: Option<Oid>,
    current: Oid,
    start: Oid,
    allowed: spec_fn(RequestView) -> bool,
)
    requires
        #[trigger] tape::only(from, t, allowed),
        tape::may_look(allowed),
    ensures
        tape::only(from, (#[trigger] may_retarget_early(t, pr, base_branch, target, current, start)).0, allowed),
{
    broadcast use {tape::lemma_only_ask, history::group_history_only};

}

pub broadcast proof fn lemma_retarget_early_only(
    from: TapeView,
    t: TapeView,
    c: ConfigView,
    pr: PrView,
    base_branch: Seq<char>,
    allowed: spec_fn(RequestView) -> bool,
)
    requires
        #[trigger] tape::only(from, t, allowed),
        tape::may_follow_up(allowed),
    ensures
        tape::only(from, (#[trigger] retarget_early(t, c, pr, base_branch)).0, allowed),
{
    broadcast use {tape::lemma_only_ask, history::group_history_only};

    assert(tape::may_look(allowed) && tape::may_write(allowed));
}

pub broadcast proof fn lemma_steady_base_only(
    from: TapeView,
    t: TapeView,
    p: PlacementView,
    pr: PrView,
    current: Oid,
    allowed: spec_fn(RequestView) -> bool,
)
    requires
        #[trigger] tape::only(from, t, allowed),
        tape::may_look(allowed),
    ensures
        tape::only(from, (#[trigger] steady_base(t, p, pr, current)).0, allowed),
{
    broadcast use {tape::lemma_only_ask, history::group_history_only};

}

pub broadcast proof fn lemma_safe_anchor_only(
    from: TapeView,
    t: TapeView,
    pr: PrView,
    base_branch: Seq<char>,
    early: bool,
    old_base: Oid,
    new_base: Oid,
    allowed: spec_fn(RequestView) -> bool,
)
    requires
        #[trigger] tape::only(from, t, allowed),
        tape::may_look(allowed),
    ensures
        tape::only(from, (#[trigger] safe_anchor(t, pr, base_branch, early, old_base, new_base)).0, allowed),
{
    broadcast use {tape::lemma_only_ask, history::group_history_only};

}

pub broadcast proof fn lemma_update_text_only(
    from: TapeView,
    t: TapeView,
    opts: OptionsView,
    patch_changed: bool,
    subject: Seq<char>,
    allowed: spec_fn(RequestView) -> bool,
)
    requires
        #[trigger] tape::only(from, t, allowed),
        tape::may_look(allowed),
    ensures
        tape::only(from, (#[trigger] update_text(t, opts, patch_changed, subject)).0, allowed),
{
    broadcast use {tape::lemma_only_ask, history::group_history_only};

}

pub broadcast proof fn lemma_appended_only(
    from: TapeView,
    t: TapeView,
    cx: ContextView,
    i: int,
    tip: Oid,
    tree: Oid,
    allowed: spec_fn(RequestView) -> bool,
)
    requires
        #[trigger] tape::only(from, t, allowed),
        tape::may_look(allowed),
    ensures
        tape::only(from, (#[trigger] appended(t, cx, i, tip, tree)).0, allowed),
{
    broadcast use {tape::lemma_only_ask, history::group_history_only, lemma_update_text_only};

}

pub broadcast proof fn lemma_reanchored_only(
    from: TapeView,
    t: TapeView,
    cx: ContextView,
    i: int,
    pr: PrView,
    start: Oid,
    anchor: Oid,
    tree: Oid,
    allowed: spec_fn(RequestView) -> bool,
)
    requires
        #[trigger] tape::only(from, t, allowed),
        tape::may_look(allowed),
    ensures
        tape::only(from, (#[trigger] reanchored(t, cx, i, pr, start, anchor, tree)).0, allowed),
{
    broadcast use {tape::lemma_only_ask, history::group_history_only};

}

pub broadcast proof fn lemma_rewritten_only(
    from: TapeView,
    t: TapeView,
    cx: ContextView,
    i: int,
    pr: PrView,
    start: Oid,
    anchor: Oid,
    tree: Oid,
    allowed: spec_fn(RequestView) -> bool,
)
    requires
        #[trigger] tape::only(from, t, allowed),
        tape::may_look(allowed),
    ensures
        tape::only(from, (#[trigger] rewritten(t, cx, i, pr, start, anchor, tree)).0, allowed),
{
    broadcast use {tape::lemma_only_ask, history::group_history_only, lemma_reanchored_only, lemma_appended_only};

}

pub broadcast proof fn lemma_recommitted_only(
    from: TapeView,
    t: TapeView,
    cx: ContextView,
    i: int,
    pr: PrView,
    start: Oid,
    anchor: Oid,
    tree: Oid,
    allowed: spec_fn(RequestView) -> bool,
)
    requires
        #[trigger] tape::only(from, t, allowed),
        tape::may_look(allowed),
    ensures
        tape::only(from, (#[trigger] recommitted(t, cx, i, pr, start, anchor, tree)).0, allowed),
{
    broadcast use {tape::lemma_only_ask, history::group_history_only, lemma_rewritten_only, lemma_appended_only};

}

pub broadcast proof fn lemma_moved_commits_only(
    from: TapeView,
    t: TapeView,
    cx: ContextView,
    i: int,
    pr: PrView,
    start: Oid,
    early: bool,
    drafted: Option<Seq<char>>,
    place: (Oid, Oid),
    staged: bool,
    allowed: spec_fn(RequestView) -> bool,
)
    requires
        #[trigger] tape::only(from, t, allowed),
        tape::may_look(allowed),
    ensures
        tape::only(from, (#[trigger] moved_commits(t, cx, i, pr, start, early, drafted, place, staged)).0, allowed),
{
    broadcast use {tape::lemma_only_ask, history::group_history_only, lemma_recommitted_only};

}

pub broadcast proof fn lemma_parked_or_moved_only(
    from: TapeView,
    t: TapeView,
    cx: ContextView,
    p: PlacementView,
    i: int,
    pr: PrView,
    start: Oid,
    parent_tip: Oid,
    early: bool,
    drafted: Option<Seq<char>>,
    place: (Oid, Oid),
    allowed: spec_fn(RequestView) -> bool,
)
    requires
        #[trigger] tape::only(from, t, allowed),
        tape::may_look(allowed),
    ensures
        tape::only(from, (#[trigger] parked_or_moved(t, cx, p, i, pr, start, parent_tip, early, drafted, place)).0, allowed),
{
    broadcast use {tape::lemma_only_ask, history::group_history_only, lemma_moved_commits_only};

}

pub broadcast proof fn lemma_moved_branch_only(
    from: TapeView,
    t: TapeView,
    cx: ContextView,
    p: PlacementView,
    i: int,
    pr: PrView,
    parent_tip: Oid,
    base_branch: Seq<char>,
    allowed: spec_fn(RequestView) -> bool,
)
    requires
        #[trigger] tape::only(from, t, allowed),
        tape::may_follow_up(allowed),
    ensures
        tape::only(from, (#[trigger] moved_branch(t, cx, p, i, pr, parent_tip, base_branch)).0, allowed),
{
    broadcast use {tape::lemma_only_ask, history::group_history_only, lemma_branch_start_only, lemma_may_retarget_early_only, lemma_retarget_early_only, lemma_steady_base_only, lemma_safe_anchor_only, lemma_parked_or_moved_only, lemma_moved_commits_only};

    assert(tape::may_look(allowed) && tape::may_write(allowed));
}

pub broadcast proof fn lemma_spot_of_only(
    from: TapeView,
    t: TapeView,
    cx: ContextView,
    p: PlacementView,
    i: int,
    parent_tip: Oid,
    base_branch: Seq<char>,
    allowed: spec_fn(RequestView) -> bool,
)
    requires
        #[trigger] tape::only(from, t, allowed),
        tape::may_follow_up(allowed),
    ensures
        tape::only(from, (#[trigger] spot_of(t, cx, p, i, parent_tip, base_branch)).0, allowed),
{
    broadcast use {tape::lemma_only_ask, history::group_history_only, lemma_new_branch_only, lemma_moved_branch_only};

    assert(tape::may_look(allowed) && tape::may_write(allowed));
}

pub broadcast proof fn lemma_rescued_from_only(
    from: TapeView,
    t: TapeView,
    cx: ContextView,
    spot: SpotView,
    k: int,
    p: PlacementView,
    allowed: spec_fn(RequestView) -> bool,
)
    requires
        #[trigger] tape::only(from, t, allowed),
        tape::may_follow_up(allowed),
    ensures
        tape::only(from, (#[trigger] rescued_from(t, cx, spot, k, p)).0, allowed),
    decreases p.base_branches.len() - k,
{
    broadcast use {tape::lemma_only_ask, history::group_history_only, lemma_retarget_early_only};

    assert(tape::may_look(allowed) && tape::may_write(allowed));
    if k < 0 || k >= p.base_branches.len() || k >= cx.prs.len() || spot.push is None
        || spot.staged {
    } else if !endangered(cx, spot, k, p) {
        lemma_rescued_from_only(from, t, cx, spot, k + 1, p, allowed);
    } else {
        let (t1, next) = saved_one(t, cx, spot, k, p);
        assert(tape::only(from, t1, allowed));
        if next is Ok {
            lemma_rescued_from_only(from, t1, cx, spot, k + 1, next->Ok_0, allowed);
        }
    }
}

pub broadcast proof fn lemma_place_from_only(
    from: TapeView,
    t: TapeView,
    cx: ContextView,
    i: int,
    p: PlacementView,
    allowed: spec_fn(RequestView) -> bool,
)
    requires
        #[trigger] tape::only(from, t, allowed),
        tape::may_follow_up(allowed),
    ensures
        tape::only(from, (#[trigger] place_from(t, cx, i, p)).0, allowed),
    decreases cx.stack.layers.len() - i,
{
    broadcast use {tape::lemma_only_ask, history::group_history_only, lemma_spot_of_only, lemma_rescued_from_only};

    assert(tape::may_look(allowed) && tape::may_write(allowed));
    if 0 <= i < cx.stack.layers.len() {
        let base = base_of(cx, p, i);
        let (t1, spot) = spot_of(t, cx, p, i, base.0, base.1);
        if spot is Ok {
            let (t2, saved) = rescued_from(t1, cx, spot->Ok_0, 0, p);
            if saved is Ok {
                lemma_place_from_only(
                    from,
                    t2,
                    cx,
                    i + 1,
                    with_spot(reserve(cx, i, saved->Ok_0, spot->Ok_0), base.1, spot->Ok_0),
                    allowed,
                );
            }
        }
    }
}

pub broadcast proof fn lemma_draft_from_only(
    from: TapeView,
    t: TapeView,
    cx: ContextView,
    i: int,
    p: PlacementView,
    allowed: spec_fn(RequestView) -> bool,
)
    requires
        #[trigger] tape::only(from, t, allowed),
        tape::may_follow_up(allowed),
    ensures
        tape::only(from, (#[trigger] draft_from(t, cx, i, p)).0, allowed),
    decreases cx.prs.len() - i,
{
    broadcast use {tape::lemma_only_ask, history::group_history_only};

    assert(tape::may_look(allowed) && tape::may_write(allowed));
    if 0 <= i < cx.prs.len() {
        match cx.prs[i] {
            None => lemma_draft_from_only(from, t, cx, i + 1, p, allowed),
            Some(pr) => if pr.draft || pr.base == p.base_branches[i] || p.retargeted_early[i] {
                lemma_draft_from_only(from, t, cx, i + 1, p, allowed);
            } else {
                let (t1, r) = tape::ask_unit(
                    t,
                    RequestView::SetDraft { node_id: pr.node_id, draft: true },
                );
                if r is Ok {
                    lemma_draft_from_only(
                        from,
                        t1,
                        cx,
                        i + 1,
                        PlacementView { undraft: p.undraft.push(pr.node_id), ..p },
                        allowed,
                    );
                }
            },
        }
    }
}

/// Requests are allowed that open pull requests, as drafts or not.
pub open spec fn may_open(allowed: spec_fn(RequestView) -> bool, draft: bool) -> bool {
    forall|pr: CreateView|
        pr.draft == draft ==> #[trigger] allowed(RequestView::CreatePullRequest { pr })
}

pub broadcast proof fn lemma_announced_one_only(
    from: TapeView,
    t: TapeView,
    cx: ContextView,
    i: int,
    st: ProgressView,
    o: OutcomeView,
    allowed: spec_fn(RequestView) -> bool,
)
    requires
        #[trigger] tape::only(from, t, allowed),
        tape::may_follow_up(allowed),
    ensures
        tape::only(from, (#[trigger] announced_one(t, cx, i, st, o)).0, allowed),
{
    broadcast use {tape::lemma_only_ask, history::group_history_only};

    assert(tape::may_look(allowed) && tape::may_write(allowed));
}

pub broadcast proof fn lemma_created_only(
    from: TapeView,
    t: TapeView,
    cx: ContextView,
    p: PlacementView,
    warn: bool,
    i: int,
    st: ProgressView,
    allowed: spec_fn(RequestView) -> bool,
)
    requires
        #[trigger] tape::only(from, t, allowed),
        tape::may_follow_up(allowed),
        may_open(allowed, cx.opts.draft),
    ensures
        tape::only(from, (#[trigger] created(t, cx, p, warn, i, st)).0, allowed),
{
    broadcast use {tape::lemma_only_ask, history::group_history_only, lemma_announced_one_only};

    assert(tape::may_look(allowed) && tape::may_write(allowed));
}

pub broadcast proof fn lemma_refreshed_only(
    from: TapeView,
    t: TapeView,
    cx: ContextView,
    p: PlacementView,
    warn: bool,
    i: int,
    pr: PrView,
    st: ProgressView,
    allowed: spec_fn(RequestView) -> bool,
)
    requires
        #[trigger] tape::only(from, t, allowed),
        tape::may_follow_up(allowed),
    ensures
        tape::only(from, (#[trigger] refreshed(t, cx, p, warn, i, pr, st)).0, allowed),
{
    broadcast use {tape::lemma_only_ask, history::group_history_only, lemma_announced_one_only};

    assert(tape::may_look(allowed) && tape::may_write(allowed));
}

pub broadcast proof fn lemma_announce_from_only(
    from: TapeView,
    t: TapeView,
    cx: ContextView,
    p: PlacementView,
    warn: bool,
    i: int,
    st: ProgressView,
    allowed: spec_fn(RequestView) -> bool,
)
    requires
        #[trigger] tape::only(from, t, allowed),
        tape::may_follow_up(allowed),
        may_open(allowed, cx.opts.draft),
    ensures
        tape::only(from, (#[trigger] announce_from(t, cx, p, warn, i, st)).0, allowed),
    decreases cx.stack.layers.len() - i,
{
    broadcast use {tape::lemma_only_ask, history::group_history_only, lemma_created_only, lemma_refreshed_only};

    assert(tape::may_look(allowed) && tape::may_write(allowed));
    if 0 <= i < cx.stack.layers.len() {
        match cx.prs[i] {
            None => if cx.decision.push[i] {
                let (t1, r) = created(t, cx, p, warn, i, st);
                if r is Ok {
                    lemma_announce_from_only(from, t1, cx, p, warn, i + 1, r->Ok_0, allowed);
                }
            } else {
                lemma_announce_from_only(from, t, cx, p, warn, i + 1, st, allowed);
            },
            Some(pr) => {
                let (t1, r) = refreshed(t, cx, p, warn, i, pr, st);
                if r is Ok {
                    lemma_announce_from_only(from, t1, cx, p, warn, i + 1, r->Ok_0, allowed);
                }
            },
        }
    }
}

pub broadcast proof fn lemma_undraft_from_only(
    from: TapeView,
    t: TapeView,
    nodes: Seq<Seq<char>>,
    k: int,
    allowed: spec_fn(RequestView) -> bool,
)
    requires
        #[trigger] tape::only(from, t, allowed),
        tape::may_follow_up(allowed),
    ensures
        tape::only(from, (#[trigger] undraft_from(t, nodes, k)).0, allowed),
    decreases nodes.len() - k,
{
    broadcast use {tape::lemma_only_ask, history::group_history_only};

    assert(tape::may_look(allowed) && tape::may_write(allowed));
    if 0 <= k < nodes.len() {
        let (t1, r) = tape::ask_unit(
            t,
            RequestView::SetDraft { node_id: nodes[k], draft: false },
        );
        if r is Ok {
            lemma_undraft_from_only(from, t1, nodes, k + 1, allowed);
        }
    }
}

pub broadcast proof fn lemma_messages_edited_only(
    from: TapeView,
    t: TapeView,
    s: StackView,
    messages: Seq<MessageView>,
    allowed: spec_fn(RequestView) -> bool,
)
    requires
        #[trigger] tape::only(from, t, allowed),
        tape::may_write(allowed),
    ensures
        tape::only(from, (#[trigger] messages_edited(t, s, messages)).0, allowed),
{
    broadcast use {tape::lemma_only_ask, history::group_history_only, history::lemma_messages_rewritten_only};

    assert(tape::may_look(allowed));
}

pub broadcast proof fn lemma_concluded_only(
    from: TapeView,
    t: TapeView,
    p: PlacementView,
    st: ProgressView,
    allowed: spec_fn(RequestView) -> bool,
)
    requires
        #[trigger] tape::only(from, t, allowed),
        tape::may_follow_up(allowed),
    ensures
        tape::only(from, (#[trigger] concluded(t, p, st)).0, allowed),
{
    broadcast use {tape::lemma_only_ask, history::group_history_only, lemma_undraft_from_only, lemma_messages_edited_only};

    assert(tape::may_look(allowed) && tape::may_write(allowed));
}

pub proof fn lemma_executed_only(
    from: TapeView,
    t: TapeView,
    cx: ContextView,
    allowed: spec_fn(RequestView) -> bool,
)
    requires
        tape::only(from, t, allowed),
        tape::may_follow_up(allowed),
        may_open(allowed, cx.opts.draft),
        forall|specs: Seq<PushView>| #[trigger] allowed(RequestView::Push { specs }),
    ensures
        tape::only(from, executed(t, cx).0, allowed),
{
    broadcast use {
        tape::lemma_only_ask,
        lemma_place_from_only,
        lemma_draft_from_only,
        lemma_announce_from_only,
        lemma_concluded_only,
    };

    assert(tape::may_look(allowed));
}

/// A commit bears the content of layer `i`: its tree, or that tree brought to
/// where the branch has to wait.
pub open spec fn has_content(t: TapeView, cx: ContextView, i: int, tip: Oid) -> bool {
    exists|tree: Oid|
        #[trigger] tape::bears(t, tip, tree) && history::brought(
            t,
            cx.trees.dep[i],
            cx.trees.effective[i],
            tree,
        )
}

proof fn lemma_content_stays(from: TapeView, to: TapeView, cx: ContextView, i: int, tip: Oid)
    requires
        tape::only(from, to, |q: RequestView| true),
        has_content(from, cx, i, tip),
    ensures
        has_content(to, cx, i, tip),
{
    tape::lemma_said_stays(from, to, |q: RequestView| true);
    let tree = choose|tree: Oid|
        #[trigger] tape::bears(from, tip, tree) && history::brought(
            from,
            cx.trees.dep[i],
            cx.trees.effective[i],
            tree,
        );
    lemma_brought_stays(from, to, cx.trees.dep[i], cx.trees.effective[i], tree);
    assert(tape::bears(to, tip, tree));
}

proof fn lemma_brought_stays(from: TapeView, to: TapeView, dep: Oid, desired: Oid, tree: Oid)
    requires
        tape::only(from, to, |q: RequestView| true),
        history::brought(from, dep, desired, tree),
    ensures
        history::brought(to, dep, desired, tree),
{
    tape::lemma_said_stays(from, to, |q: RequestView| true);
    if tree != desired {
        let ours = choose|ours: Oid|
            #[trigger] tape::told(
                from,
                RequestView::MergeTrees { base: dep, ours, theirs: desired },
                ReplyView::Merged(MergeView::Clean(tree)),
            );
        assert(tape::told(
            to,
            RequestView::MergeTrees { base: dep, ours, theirs: desired },
            ReplyView::Merged(MergeView::Clean(tree)),
        ));
    }
}

/// The commits for a branch end in one that bears the given tree. The branch is
/// rewritten exactly where its history is not to be kept, where that was decided,
/// or where it leaves the place that it starts from; otherwise the new tip was
/// confirmed to be a descendant of the old one.
pub proof fn law_recommitted(
    t: TapeView,
    cx: ContextView,
    i: int,
    pr: PrView,
    start: Oid,
    anchor: Oid,
    tree: Oid,
)
    ensures
        recommitted(t, cx, i, pr, start, anchor, tree).1 matches Ok((tip, root, forced))
            ==> tape::bears(recommitted(t, cx, i, pr, start, anchor, tree).0, tip, tree) && forced
            == (!cx.opts.preserve_commit_history || cx.decision.rewrite_history[i] || anchor
            != start) && (!forced ==> tape::told(
            recommitted(t, cx, i, pr, start, anchor, tree).0,
            RequestView::IsDescendant { descendant: tip, ancestor: pr.head_oid },
            ReplyView::Flag(true),
        )),
{
    broadcast use {
        tape::lemma_only_ask,
        history::group_history_only,
        lemma_reanchored_only,
        lemma_appended_only,
    };

    if recommitted(t, cx, i, pr, start, anchor, tree).1 is Ok {
        let layer = cx.stack.layers[i];
        let any = |q: RequestView| true;
        if !cx.opts.preserve_commit_history {
            history::lemma_derived(
                t,
                layer.commit,
                trailers::rendered(trailers::for_branch(layer.message)),
                tree,
                anchor,
            );
        } else if cx.decision.rewrite_history[i] || anchor != start {
            let (t1, tip) = reanchored(t, cx, i, pr, start, anchor, tree);
            let (t2, reached) = tape::ask_object(t1, RequestView::TreeOf { commit: tip->Ok_0 });
            tape::lemma_told(t1, RequestView::TreeOf { commit: tip->Ok_0 });
            let (t3, last) = if reached->Ok_0 != tree {
                appended(t2, cx, i, tip->Ok_0, tree)
            } else {
                tape::done(t2, tip->Ok_0)
            };
            if reached->Ok_0 != tree {
                lemma_appended(t2, cx, i, tip->Ok_0, tree);
            }
            assert(tape::bears(t3, last->Ok_0, tree));
            tape::lemma_only_start(t3, any);
            tape::lemma_said_stays(t3, history::revisions(t3, last->Ok_0, anchor).0, any);
        } else {
            lemma_appended(t, cx, i, pr.head_oid, tree);
        }
    }
}

proof fn lemma_appended(t: TapeView, cx: ContextView, i: int, tip: Oid, tree: Oid)
    ensures
        appended(t, cx, i, tip, tree).1 matches Ok(next) ==> tape::bears(
            appended(t, cx, i, tip, tree).0,
            next,
            tree,
        ) && tape::told(
            appended(t, cx, i, tip, tree).0,
            RequestView::IsDescendant { descendant: next, ancestor: tip },
            ReplyView::Flag(true),
        ),
{
    if appended(t, cx, i, tip, tree).1 is Ok {
        let layer = cx.stack.layers[i];
        let (t1, message) = update_text(
            t,
            cx.opts,
            cx.decision.patch_changed[i],
            layer.message.subject,
        );
        history::law_update_moves_forward(t1, tip, tree, layer.commit, message->Ok_0);
    }
}

/// The new tip of layer `i` was confirmed to be a descendant of the head that its
/// pull request has, if it has one.
pub open spec fn moves_forward(t: TapeView, cx: ContextView, i: int, tip: Oid) -> bool {
    match cx.prs[i] {
        Some(pr) => tape::told(
            t,
            RequestView::IsDescendant { descendant: tip, ancestor: pr.head_oid },
            ReplyView::Flag(true),
        ),
        None => true,
    }
}

/// The branch of layer `i` with its push.
spec fn is_spot(t: TapeView, cx: ContextView, p: PlacementView, i: int, spot: SpotView) -> bool {
    &&& match cx.prs[i] {
        Some(pr) => spot.branch == pr.head && (!cx.decision.push[i] ==> spot.tip == pr.head_oid
            && !spot.held),
        None => cx.decision.push[i] ==> !among(p.reserved, spot.branch),
    }
    &&& match spot.push {
        Some(push) => cx.decision.push[i] && push.branch == spot.branch && push.oid == Some(spot.tip)
            && (push.force ==> cx.prs[i] is Some) && (!push.force ==> moves_forward(
            t,
            cx,
            i,
            spot.tip,
        )) && has_content(t, cx, i, spot.tip),
        None => cx.decision.push[i] ==> spot.held && spot.tip == (cx.prs[i]->0).head_oid,
    }
}

proof fn lemma_moved_commits(
    from: TapeView,
    t: TapeView,
    cx: ContextView,
    p: PlacementView,
    i: int,
    pr: PrView,
    start: Oid,
    early: bool,
    drafted: Option<Seq<char>>,
    place: (Oid, Oid),
    staged: bool,
)
    requires
        cx.prs[i] == Some(pr),
        cx.decision.push[i],
        history::brought(t, cx.trees.dep[i], cx.trees.effective[i], place.1),
    ensures
        ({
            let (after, r) = moved_commits(t, cx, i, pr, start, early, drafted, place, staged);
            r matches Ok(spot) ==> is_spot(after, cx, p, i, spot)
        }),
{
    broadcast use lemma_recommitted_only;

    let (after, r) = moved_commits(t, cx, i, pr, start, early, drafted, place, staged);
    if r is Ok {
        law_recommitted(t, cx, i, pr, start, place.0, place.1);
        let (t1, made) = recommitted(t, cx, i, pr, start, place.0, place.1);
        tape::lemma_only_start(t, |q: RequestView| true);
        lemma_brought_stays(t, t1, cx.trees.dep[i], cx.trees.effective[i], place.1);
        assert(tape::bears(after, (r->Ok_0).tip, place.1));
    }
}

proof fn lemma_moved_branch(
    t: TapeView,
    cx: ContextView,
    p: PlacementView,
    i: int,
    pr: PrView,
    parent_tip: Oid,
    base_branch: Seq<char>,
)
    requires
        cx.prs[i] == Some(pr),
        cx.decision.push[i],
    ensures
        ({
            let (after, r) = moved_branch(t, cx, p, i, pr, parent_tip, base_branch);
            r matches Ok(spot) ==> is_spot(after, cx, p, i, spot)
        }),
{
    broadcast use tape::lemma_only_ask;

    let any = |q: RequestView| true;
    if moved_branch(t, cx, p, i, pr, parent_tip, base_branch).1 is Ok {
        let desired = cx.trees.effective[i];
        let (t1, start) = branch_start(t, pr, fallback_base(cx, i));
        let start = start->Ok_0;
        let (t2, early) = may_retarget_early(
            t1,
            pr,
            base_branch,
            engine::remote_base_tip(cx.stack, cx.prs, i),
            current_base(pr, start),
            start,
        );
        let early = early->Ok_0;
        let (t3, drafted) = if early {
            retarget_early(t2, cx.config, pr, base_branch)
        } else {
            tape::done(t2, None)
        };
        let drafted = drafted->Ok_0;
        let (t4, old_base) = steady_base(t3, p, pr, current_base(pr, start));
        let (t5, anchor) = safe_anchor(
            t4,
            pr,
            base_branch,
            early,
            old_base->Ok_0,
            home_of(cx, i, start, parent_tip),
        );
        let anchor = anchor->Ok_0;
        let (t6, tree) = history::tree_rebased(t5, cx.trees.dep[i], anchor, desired);
        history::lemma_tree_rebased(t5, cx.trees.dep[i], anchor, desired);
        match tree->Ok_0 {
            Some(tree) => {
                let place = (anchor, tree);
                let parked = place.0 != home_of(cx, i, start, parent_tip);
                lemma_moved_commits(t, t6, cx, p, i, pr, start, early, drafted, place, parked);
                let (t7, current) = tape::ask_object(t6, RequestView::TreeOf { commit: pr.head_oid });
                tape::lemma_only_start(t6, any);
                lemma_brought_stays(t6, t7, cx.trees.dep[i], desired, tree);
                lemma_moved_commits(t, t7, cx, p, i, pr, start, early, drafted, place, parked);
            },
            None => {
                lemma_moved_commits(
                    t,
                    t6,
                    cx,
                    p,
                    i,
                    pr,
                    start,
                    early,
                    drafted,
                    (parent_tip, desired),
                    false,
                );
            },
        }
    }
}

proof fn lemma_free_branch(t: TapeView, preferred: Seq<char>, attempt: nat, reserved: Seq<Seq<char>>)
    ensures
        free_branch(t, preferred, attempt, reserved).1 matches Ok(name) ==> !among(reserved, name),
    decreases t.replies.len() - t.asked.len(),
{
    let (t1, name) = tape::ask_text(
        t,
        RequestView::UnusedBranchName { preferred: attempt_name(preferred, attempt) },
    );
    if name is Ok && among(reserved, name->Ok_0) {
        lemma_free_branch(t1, preferred, attempt + 1, reserved);
    }
}

proof fn lemma_spot_of(
    t: TapeView,
    cx: ContextView,
    p: PlacementView,
    i: int,
    parent_tip: Oid,
    base_branch: Seq<char>,
)
    ensures
        ({
            let (after, r) = spot_of(t, cx, p, i, parent_tip, base_branch);
            r matches Ok(spot) ==> is_spot(after, cx, p, i, spot)
        }),
{
    broadcast use history::group_history_only;

    let any = |q: RequestView| true;
    let (after, r) = spot_of(t, cx, p, i, parent_tip, base_branch);
    if r is Ok && cx.decision.push[i] {
        match cx.prs[i] {
            Some(pr) => lemma_moved_branch(t, cx, p, i, pr, parent_tip, base_branch),
            None => {
                let layer = cx.stack.layers[i];
                let desired = cx.trees.effective[i];
                let preferred = config::preferred_branch(cx.config, layer.message.subject);
                lemma_free_branch(t, preferred, 0, p.reserved);
                let (t1, branch) = free_branch(t, preferred, 0, p.reserved);
                let (t2, tree) = history::tree_rebased(t1, cx.trees.dep[i], parent_tip, desired);
                history::lemma_tree_rebased(t1, cx.trees.dep[i], parent_tip, desired);
                let tree = match tree->Ok_0 {
                    Some(tree) => tree,
                    None => desired,
                };
                let message = trailers::rendered(trailers::for_branch(layer.message));
                history::lemma_derived(t2, layer.commit, message, tree, parent_tip);
                tape::lemma_only_start(t2, any);
                lemma_brought_stays(t2, after, cx.trees.dep[i], desired, tree);
                assert(tape::bears(after, (r->Ok_0).tip, tree));
            },
        }
    }
}

/// Layer `i` has a branch.
pub open spec fn has_branch(cx: ContextView, i: int) -> bool {
    cx.prs[i] is Some || cx.decision.push[i]
}

/// No two pull requests have the same head branch.
pub open spec fn distinct_heads(prs: Seq<Option<PrView>>) -> bool {
    forall|i: int, j: int|
        0 <= i < j < prs.len() && (#[trigger] prs[i]) is Some && (#[trigger] prs[j]) is Some
            ==> (prs[i]->0).head != (prs[j]->0).head
}

/// A push takes the branch of layer `i` to the layer's new tip, which bears the
/// layer's content. A branch that is new needs no force, and without force a branch
/// only moves forward.
pub open spec fn pushes_layer(t: TapeView, cx: ContextView, p: PlacementView, i: int, push: PushView) -> bool {
    &&& cx.decision.push[i]
    &&& push.branch == p.branches[i]
    &&& push.oid == Some(p.tips[i])
    &&& push.force ==> cx.prs[i] is Some
    &&& !push.force ==> moves_forward(t, cx, i, p.tips[i])
    &&& has_content(t, cx, i, p.tips[i])
}

/// A push is for one of the first `n` layers.
pub open spec fn pushes_some(t: TapeView, cx: ContextView, p: PlacementView, n: int, push: PushView) -> bool {
    exists|i: int| 0 <= i < n && #[trigger] pushes_layer(t, cx, p, i, push)
}

/// The places of the first `n` layers are in order:
///
/// - a layer sits on the branch of the layer that it depends on, or on the trunk;
/// - a pull request keeps its branch, and one that is not pushed its tip;
/// - the branches differ, and so does what is pushed;
/// - whatever is pushed is the branch of a layer that is to be pushed, taken to a
///   commit that bears the layer's content, and taken forward unless it is forced.
pub open spec fn well_placed(t: TapeView, cx: ContextView, p: PlacementView, n: int) -> bool {
    &&& placed(p, n)
    &&& forall|i: int|
        0 <= i < n ==> #[trigger] p.base_branches[i] == match cx.stack.layers[i].dep {
            Dep::Layer(j) => p.branches[j as int],
            _ => cx.config.trunk,
        }
    &&& forall|i: int|
        0 <= i < n && (#[trigger] cx.prs[i]) is Some ==> p.branches[i] == (cx.prs[i]->0).head && (
        !cx.decision.push[i] ==> p.tips[i] == (cx.prs[i]->0).head_oid)
    &&& forall|k: int|
        0 <= k < p.push_specs.len() ==> pushes_some(t, cx, p, n, #[trigger] p.push_specs[k])
    &&& distinct_heads(cx.prs) ==> forall|i: int, j: int|
        0 <= i < j < n && has_branch(cx, i) && has_branch(cx, j) ==> #[trigger] p.branches[i]
            != #[trigger] p.branches[j]
    &&& distinct_heads(cx.prs) ==> forall|k: int, m: int|
        0 <= k < m < p.push_specs.len() ==> (#[trigger] p.push_specs[k]).branch != (
        #[trigger] p.push_specs[m]).branch
}

/// All names that are in use are taken.
spec fn names_taken(cx: ContextView, p: PlacementView, n: int) -> bool {
    &&& forall|i: int|
        0 <= i < cx.prs.len() && (#[trigger] cx.prs[i]) is Some ==> among(
            p.reserved,
            (cx.prs[i]->0).head,
        )
    &&& forall|i: int| 0 <= i < n && has_branch(cx, i) ==> among(p.reserved, #[trigger] p.branches[i])
    &&& forall|i: int, j: int|
        0 <= i < n && cx.prs[i] is None && cx.decision.push[i] && 0 <= j < cx.prs.len() && (
        #[trigger] cx.prs[j]) is Some ==> #[trigger] p.branches[i] != (cx.prs[j]->0).head
}

pub proof fn lemma_heads_before(prs: Seq<Option<PrView>>, n: int, i: int)
    requires
        0 <= i < n <= prs.len(),
        prs[i] is Some,
    ensures
        among(heads_before(prs, n), (prs[i]->0).head),
    decreases n,
{
    let heads = heads_before(prs, n);
    if i == n - 1 {
        assert(heads[heads.len() - 1] == (prs[i]->0).head);
    } else {
        lemma_heads_before(prs, n - 1, i);
        let before = heads_before(prs, n - 1);
        let k = choose|k: int| 0 <= k < before.len() && #[trigger] before[k] == (prs[i]->0).head;
        assert(heads[k] == (prs[i]->0).head);
    }
}

/// Giving other layers their base early changes no place.
pub proof fn lemma_rescued_from(t: TapeView, cx: ContextView, spot: SpotView, k: int, p: PlacementView)
    requires
        p.retargeted_early.len() == p.base_branches.len(),
    ensures
        rescued_from(t, cx, spot, k, p).1 matches Ok(q) ==> q.tips == p.tips && q.branches
            == p.branches && q.base_branches == p.base_branches && q.new_roots == p.new_roots
            && q.retargeted_early.len() == p.retargeted_early.len() && q.held == p.held
            && q.reserved == p.reserved && q.push_specs == p.push_specs && q.staged == p.staged,
    decreases p.base_branches.len() - k,
{
    if k < 0 || k >= p.base_branches.len() || k >= cx.prs.len() || spot.push is None
        || spot.staged {
    } else if !endangered(cx, spot, k, p) {
        lemma_rescued_from(t, cx, spot, k + 1, p);
    } else {
        let (t1, next) = saved_one(t, cx, spot, k, p);
        if next is Ok {
            lemma_rescued_from(t1, cx, spot, k + 1, next->Ok_0);
            assert(rescued_from(t, cx, spot, k, p) == rescued_from(
                t1,
                cx,
                spot,
                k + 1,
                next->Ok_0,
            ));
        } else {
            assert(rescued_from(t, cx, spot, k, p).1 is Err);
        }
    }
}

/// One more layer with its place.
proof fn lemma_with_spot(
    from: TapeView,
    t: TapeView,
    cx: ContextView,
    i: int,
    p: PlacementView,
    spot: SpotView,
)
    requires
        coherent(cx),
        0 <= i < cx.stack.layers.len(),
        tape::only(from, t, |q: RequestView| true),
        well_placed(from, cx, p, i),
        names_taken(cx, p, i),
        is_spot(t, cx, p, i, spot),
    ensures
        well_placed(t, cx, with_spot(reserve(cx, i, p, spot), base_of(cx, p, i).1, spot), i + 1),
        names_taken(cx, with_spot(reserve(cx, i, p, spot), base_of(cx, p, i).1, spot), i + 1),
{
    let q = with_spot(reserve(cx, i, p, spot), base_of(cx, p, i).1, spot);
    let n = i + 1;
    assert(cx.stack.layers[i].dep matches Dep::Layer(j) ==> j < i);
    assert forall|m: int| 0 <= m < n implies #[trigger] q.base_branches[m] == (
    match cx.stack.layers[m].dep {
        Dep::Layer(j) => q.branches[j as int],
        _ => cx.config.trunk,
    }) by {
        assert(cx.stack.layers[m].dep matches Dep::Layer(j) ==> j < m);
        if m < i {
            assert(p.base_branches[m] == q.base_branches[m]);
        }
    }
    assert forall|m: int| 0 <= m < i implies q.branches[m] == p.branches[m] && q.tips[m]
        == p.tips[m] by {}
    assert forall|name: Seq<char>| among(p.reserved, name) implies among(q.reserved, name) by {
        let k = choose|k: int| 0 <= k < p.reserved.len() && #[trigger] p.reserved[k] == name;
        assert(q.reserved[k] == name);
    }
    assert forall|m: int| 0 <= m < n && (#[trigger] cx.prs[m]) is Some implies q.branches[m] == (
    cx.prs[m]->0).head && (!cx.decision.push[m] ==> q.tips[m] == (cx.prs[m]->0).head_oid) by {
        if m < i {
            assert(p.branches[m] == (cx.prs[m]->0).head);
        }
    }
    if cx.prs[i] is None && cx.decision.push[i] {
        assert(q.reserved[p.reserved.len() as int] == spot.branch);
    }
    assert forall|m: int| 0 <= m < n && has_branch(cx, m) implies among(
        q.reserved,
        #[trigger] q.branches[m],
    ) by {
        if m < i {
            assert(among(p.reserved, p.branches[m]));
        }
    }
    assert forall|k: int| 0 <= k < q.push_specs.len() implies pushes_some(
        t,
        cx,
        q,
        n,
        #[trigger] q.push_specs[k],
    ) by {
        if k < p.push_specs.len() {
            assert(pushes_some(from, cx, p, i, p.push_specs[k]));
            let m = choose|m: int|
                0 <= m < i && #[trigger] pushes_layer(from, cx, p, m, p.push_specs[k]);
            lemma_content_stays(from, t, cx, m, p.tips[m]);
            tape::lemma_said_stays(from, t, |q: RequestView| true);
            assert(moves_forward(from, cx, m, p.tips[m]) ==> moves_forward(t, cx, m, p.tips[m]));
            assert(pushes_layer(t, cx, q, m, q.push_specs[k]));
        } else {
            assert(pushes_layer(t, cx, q, i, q.push_specs[k]));
        }
    }
    if distinct_heads(cx.prs) {
        assert forall|a: int, b: int|
            0 <= a < b < n && has_branch(cx, a) && has_branch(cx, b) implies #[trigger] q.branches[a]
            != #[trigger] q.branches[b] by {
            if b < i {
                assert(p.branches[a] != p.branches[b]);
            } else {
                assert(among(p.reserved, p.branches[a]));
                if cx.prs[i] is Some {
                    if cx.prs[a] is Some {
                        assert((cx.prs[a]->0).head != (cx.prs[b]->0).head);
                    } else {
                        assert(p.branches[a] != (cx.prs[i]->0).head);
                    }
                }
            }
        }
        assert forall|k: int, m: int| 0 <= k < m < q.push_specs.len() implies (
        #[trigger] q.push_specs[k]).branch != (#[trigger] q.push_specs[m]).branch by {
            if m < p.push_specs.len() {
                assert(p.push_specs[k].branch != p.push_specs[m].branch);
            } else {
                assert(pushes_some(from, cx, p, i, p.push_specs[k]));
                let a = choose|a: int|
                    0 <= a < i && #[trigger] pushes_layer(from, cx, p, a, p.push_specs[k]);
                assert(q.branches[a] != q.branches[i]);
            }
        }
    }
}

proof fn lemma_spot_stays(
    from: TapeView,
    to: TapeView,
    cx: ContextView,
    p: PlacementView,
    i: int,
    spot: SpotView,
)
    requires
        tape::only(from, to, |q: RequestView| true),
        is_spot(from, cx, p, i, spot),
    ensures
        is_spot(to, cx, p, i, spot),
{
    tape::lemma_said_stays(from, to, |q: RequestView| true);
    if spot.push is Some {
        lemma_content_stays(from, to, cx, i, spot.tip);
    }
}

proof fn lemma_place_from(t: TapeView, cx: ContextView, i: int, p: PlacementView)
    requires
        coherent(cx),
        0 <= i <= cx.stack.layers.len(),
        well_placed(t, cx, p, i),
        names_taken(cx, p, i),
    ensures
        place_from(t, cx, i, p).1 matches Ok(q) ==> well_placed(
            place_from(t, cx, i, p).0,
            cx,
            q,
            cx.stack.layers.len() as int,
        ),
    decreases cx.stack.layers.len() - i,
{
    broadcast use {lemma_spot_of_only, lemma_rescued_from_only};

    if i < cx.stack.layers.len() {
        let any = |q: RequestView| true;
        let base = base_of(cx, p, i);
        let (t1, spot) = spot_of(t, cx, p, i, base.0, base.1);
        lemma_spot_of(t, cx, p, i, base.0, base.1);
        tape::lemma_only_start(t, any);
        if spot is Ok {
            let spot = spot->Ok_0;
            tape::lemma_only_start(t1, any);
            let (t2, saved) = rescued_from(t1, cx, spot, 0, p);
            lemma_rescued_from(t1, cx, spot, 0, p);
            if saved is Ok {
                let saved = saved->Ok_0;
                lemma_spot_stays(t1, t2, cx, p, i, spot);
                assert(tape::only(t, t2, any));
                assert(well_placed(t, cx, saved, i)) by {
                    assert forall|k: int| 0 <= k < saved.push_specs.len() implies pushes_some(
                        t,
                        cx,
                        saved,
                        i,
                        #[trigger] saved.push_specs[k],
                    ) by {
                        assert(pushes_some(t, cx, p, i, p.push_specs[k]));
                        let m = choose|m: int|
                            0 <= m < i && #[trigger] pushes_layer(t, cx, p, m, p.push_specs[k]);
                        assert(pushes_layer(t, cx, saved, m, saved.push_specs[k]));
                    }
                }
                assert(names_taken(cx, saved, i));
                lemma_with_spot(t, t2, cx, i, saved, spot);
                lemma_place_from(
                    t2,
                    cx,
                    i + 1,
                    with_spot(reserve(cx, i, saved, spot), base.1, spot),
                );
            }
        }
    }
}

/// Wherever all layers have their places, they are in order.
pub proof fn law_well_placed(t: TapeView, cx: ContextView)
    requires
        coherent(cx),
    ensures
        place_from(t, cx, 0, empty_placement(cx)).1 matches Ok(p) ==> well_placed(
            place_from(t, cx, 0, empty_placement(cx)).0,
            cx,
            p,
            cx.stack.layers.len() as int,
        ),
{
    let p = empty_placement(cx);
    assert forall|i: int| 0 <= i < cx.prs.len() && (#[trigger] cx.prs[i]) is Some implies among(
        p.reserved,
        (cx.prs[i]->0).head,
    ) by {
        lemma_heads_before(cx.prs, cx.prs.len() as int, i);
    }
    lemma_place_from(t, cx, 0, p);
}

/// Where no layer is to be pushed, nothing is asked for to find the places,
/// nothing is pushed, and every layer stays as it is.
pub proof fn law_nothing_to_push(t: TapeView, cx: ContextView)
    requires
        coherent(cx),
        forall|i: int| 0 <= i < cx.stack.layers.len() ==> !#[trigger] cx.decision.push[i],
    ensures
        ({
            let (after, r) = place_from(t, cx, 0, empty_placement(cx));
            &&& after == t
            &&& r matches Ok(p) && p.push_specs.len() == 0 && p.undraft.len() == 0 && !p.staged
                && stays(p)
        }),
{
    lemma_nothing_from(t, cx, 0, empty_placement(cx));
}

/// No branch got a first commit, and no pull request a base.
pub open spec fn stays(p: PlacementView) -> bool {
    &&& forall|k: int| 0 <= k < p.new_roots.len() ==> (#[trigger] p.new_roots[k]) is None
    &&& forall|k: int| 0 <= k < p.retargeted_early.len() ==> !#[trigger] p.retargeted_early[k]
}

proof fn lemma_nothing_from(t: TapeView, cx: ContextView, i: int, p: PlacementView)
    requires
        0 <= i,
        stays(p),
        forall|k: int| 0 <= k < cx.stack.layers.len() ==> !#[trigger] cx.decision.push[k],
    ensures
        ({
            let (after, r) = place_from(t, cx, i, p);
            &&& after == t
            &&& r matches Ok(q) && q.push_specs == p.push_specs && q.undraft == p.undraft
                && q.staged == p.staged && stays(q)
        }),
    decreases cx.stack.layers.len() - i,
{
    if i < cx.stack.layers.len() {
        assert(!cx.decision.push[i]);
        let base = base_of(cx, p, i);
        let (t1, spot) = spot_of(t, cx, p, i, base.0, base.1);
        let spot = spot->Ok_0;
        assert(rescued_from(t, cx, spot, 0, p) == (t, Ok::<PlacementView, HaltView>(p)));
        lemma_nothing_from(t, cx, i + 1, with_spot(reserve(cx, i, p, spot), base.1, spot));
    }
}

/// A run pushes at most once: nothing is pushed before every layer has its
/// commits, and nothing after the pull requests have been told.
pub proof fn law_one_push(t: TapeView, cx: ContextView, p: PlacementView, warn: bool)
    ensures
        tape::only(t, place_from(t, cx, 0, empty_placement(cx)).0, |q: RequestView| !(q is Push)),
        tape::only(t, draft_from(t, cx, 0, p).0, |q: RequestView| !(q is Push)),
        tape::only(
            t,
            announce_from(t, cx, p, warn, 0, start_of(cx)).0,
            |q: RequestView| !(q is Push),
        ),
        forall|st: ProgressView|
            tape::only(t, (#[trigger] concluded(t, p, st)).0, |q: RequestView| !(q is Push)),
{
    broadcast use {
        lemma_place_from_only,
        lemma_draft_from_only,
        lemma_announce_from_only,
        lemma_concluded_only,
    };

    let quiet = |q: RequestView| !(q is Push);
    assert(tape::may_do_all_but_push(quiet));
    tape::lemma_only_start(t, quiet);
}

/// Layer `i` has got a pull request, and its message names it.
pub open spec fn linked(c: ConfigView, st: ProgressView, i: int) -> bool {
    match st.stack.layers[i].pr {
        Some(number) => trailers::trailer_value(st.messages[i], PULL_REQUEST@) == Some(
            config::pr_url(c, number),
        ),
        None => false,
    }
}

/// The first `n` layers have been announced: those that got a pull request are
/// linked to it, and no other layer changed its pull request.
pub open spec fn announced(cx: ContextView, st: ProgressView, n: int) -> bool {
    &&& st.stack.layers.len() == cx.stack.layers.len()
    &&& st.messages.len() == cx.stack.layers.len()
    &&& forall|i: int|
        0 <= i < n && i < cx.stack.layers.len() && (#[trigger] cx.prs[i]) is None
            && cx.decision.push[i] ==> linked(cx.config, st, i)
    &&& forall|i: int|
        0 <= i < cx.stack.layers.len() && (i >= n || cx.prs[i] is Some || !cx.decision.push[i])
            ==> (#[trigger] st.stack.layers[i]).pr == cx.stack.layers[i].pr
}

/// Recording a dependency keeps the link to the pull request.
proof fn lemma_dep_recorded(c: ConfigView, s: StackView, i: int, m: MessageView)
    ensures
        trailers::trailer_value(dep_recorded(c, s, i, m), PULL_REQUEST@) == trailers::trailer_value(
            m,
            PULL_REQUEST@,
        ),
{
    assert forall|k: Seq<char>| trailers::key_matches(k, DEPENDS_ON@) implies !#[trigger] trailers::key_matches(
        k,
        PULL_REQUEST@,
    ) by {
        trailers::lemma_keys_apart(k);
    }
    match canonical_dep(c, s, i) {
        Some(value) => trailers::law_set_keeps_others(m, DEPENDS_ON@, value, PULL_REQUEST@),
        None => {},
    }
}

proof fn lemma_announced_one(t: TapeView, cx: ContextView, i: int, st: ProgressView, o: OutcomeView)
    requires
        0 <= i < st.messages.len(),
    ensures
        announced_one(t, cx, i, st, o).1 matches Ok(after) ==> after.stack == st.stack
            && after.messages.len() == st.messages.len() && (forall|k: int|
            0 <= k < st.messages.len() ==> trailers::trailer_value(
                #[trigger] after.messages[k],
                PULL_REQUEST@,
            ) == trailers::trailer_value(st.messages[k], PULL_REQUEST@)),
{
    lemma_dep_recorded(cx.config, st.stack, i, st.messages[i]);
}

proof fn lemma_created(
    t: TapeView,
    cx: ContextView,
    p: PlacementView,
    warn: bool,
    i: int,
    st: ProgressView,
)
    requires
        coherent(cx),
        0 <= i < cx.stack.layers.len(),
        cx.prs[i] is None,
        cx.decision.push[i],
        announced(cx, st, i),
    ensures
        created(t, cx, p, warn, i, st).1 matches Ok(after) ==> announced(cx, after, i + 1),
{
    if created(t, cx, p, warn, i, st).1 is Ok {
        let message = cx.stack.layers[i].message;
        let q = RequestView::CreatePullRequest {
            pr: CreateView {
                title: message.subject,
                body: pr_body::with_warning(message.body, warn),
                base: p.base_branches[i],
                head: p.branches[i],
                draft: cx.opts.draft,
            },
        };
        let (t1, number) = tape::ask_number(t, q);
        let number = number->Ok_0;
        let (t2, r) = refs::root_updated(t1, number, p.tips[i]);
        let url = config::pr_url(cx.config, number);
        let mid = ProgressView {
            stack: with_pr(st.stack, i, number),
            messages: st.messages.update(
                i,
                trailers::with_trailer(st.messages[i], PULL_REQUEST@, url),
            ),
            ..st
        };
        let o = OutcomeView {
            index: i as usize,
            number,
            branch: p.branches[i],
            tip: p.tips[i],
            action: LayerAction::Created,
            base: p.base_branches[i],
            retargeted: false,
        };
        lemma_announced_one(t2, cx, i, mid, o);
        trailers::law_get_after_set(st.messages[i], PULL_REQUEST@, url);
        let after = created(t, cx, p, warn, i, st).1->Ok_0;
        assert(announced_one(t2, cx, i, mid, o).1 == Ok::<ProgressView, HaltView>(after));
        assert forall|k: int|
            0 <= k < i + 1 && k < cx.stack.layers.len() && (#[trigger] cx.prs[k]) is None
                && cx.decision.push[k] implies linked(cx.config, after, k) by {
            if k < i {
                assert(linked(cx.config, st, k));
            }
            assert(trailers::trailer_value(after.messages[k], PULL_REQUEST@)
                == trailers::trailer_value(mid.messages[k], PULL_REQUEST@));
        }
        assert forall|k: int|
            0 <= k < cx.stack.layers.len() && (k >= i + 1 || cx.prs[k] is Some
                || !cx.decision.push[k]) implies (#[trigger] after.stack.layers[k]).pr
            == cx.stack.layers[k].pr by {
            assert(st.stack.layers[k].pr == cx.stack.layers[k].pr);
        }
    }
}

proof fn lemma_refreshed(
    t: TapeView,
    cx: ContextView,
    p: PlacementView,
    warn: bool,
    i: int,
    pr: PrView,
    st: ProgressView,
)
    requires
        coherent(cx),
        0 <= i < cx.stack.layers.len(),
        cx.prs[i] is Some,
        announced(cx, st, i),
    ensures
        refreshed(t, cx, p, warn, i, pr, st).1 matches Ok(after) ==> announced(cx, after, i + 1),
{
    if refreshed(t, cx, p, warn, i, pr, st).1 is Ok {
        let update = pr_update(cx, i, pr, p.base_branches[i], p.retargeted_early[i], warn);
        let (t1, r1) = match p.new_roots[i] {
            Some(root) => refs::root_updated(t, pr.number, root),
            None => tape::done(t, ()),
        };
        let (t2, r2) = if update != forge::no_update() {
            tape::ask_unit(t1, RequestView::UpdatePullRequest { number: pr.number, update })
        } else {
            tape::done(t1, ())
        };
        let o = OutcomeView {
            index: i as usize,
            number: pr.number,
            branch: p.branches[i],
            tip: p.tips[i],
            action: action_of(cx, i, update),
            base: p.base_branches[i],
            retargeted: pr.base != p.base_branches[i],
        };
        lemma_announced_one(t2, cx, i, st, o);
        let after = refreshed(t, cx, p, warn, i, pr, st).1->Ok_0;
        assert(announced_one(t2, cx, i, st, o).1 == Ok::<ProgressView, HaltView>(after));
        assert forall|k: int|
            0 <= k < i + 1 && k < cx.stack.layers.len() && (#[trigger] cx.prs[k]) is None
                && cx.decision.push[k] implies linked(cx.config, after, k) by {
            assert(linked(cx.config, st, k));
            assert(trailers::trailer_value(after.messages[k], PULL_REQUEST@)
                == trailers::trailer_value(st.messages[k], PULL_REQUEST@));
        }
        assert forall|k: int|
            0 <= k < cx.stack.layers.len() && (k >= i + 1 || cx.prs[k] is Some
                || !cx.decision.push[k]) implies (#[trigger] after.stack.layers[k]).pr
            == cx.stack.layers[k].pr by {
            assert(st.stack.layers[k].pr == cx.stack.layers[k].pr);
        }
    }
}

proof fn lemma_announce_from(
    t: TapeView,
    cx: ContextView,
    p: PlacementView,
    warn: bool,
    i: int,
    st: ProgressView,
)
    requires
        coherent(cx),
        0 <= i <= cx.stack.layers.len(),
        announced(cx, st, i),
    ensures
        announce_from(t, cx, p, warn, i, st).1 matches Ok(after) ==> announced(
            cx,
            after,
            cx.stack.layers.len() as int,
        ),
    decreases cx.stack.layers.len() - i,
{
    if i < cx.stack.layers.len() {
        match cx.prs[i] {
            None => if cx.decision.push[i] {
                let (t1, r) = created(t, cx, p, warn, i, st);
                lemma_created(t, cx, p, warn, i, st);
                if r is Ok {
                    lemma_announce_from(t1, cx, p, warn, i + 1, r->Ok_0);
                }
            } else {
                assert(announced(cx, st, i + 1));
                lemma_announce_from(t, cx, p, warn, i + 1, st);
            },
            Some(pr) => {
                let (t1, r) = refreshed(t, cx, p, warn, i, pr, st);
                lemma_refreshed(t, cx, p, warn, i, pr, st);
                if r is Ok {
                    lemma_announce_from(t1, cx, p, warn, i + 1, r->Ok_0);
                }
            },
        }
    }
}

/// Once all layers are announced, every layer that was pushed without a pull
/// request has one, and its message names it; no other layer changed its pull
/// request.
pub proof fn law_announced(t: TapeView, cx: ContextView, p: PlacementView, warn: bool)
    requires
        coherent(cx),
    ensures
        announce_from(t, cx, p, warn, 0, start_of(cx)).1 matches Ok(st) ==> announced(
            cx,
            st,
            cx.stack.layers.len() as int,
        ),
{
    lemma_announce_from(t, cx, p, warn, 0, start_of(cx));
}

pub proof fn lemma_draft_keeps_places(t: TapeView, cx: ContextView, i: int, p: PlacementView)
    ensures
        draft_from(t, cx, i, p).1 matches Ok(q) ==> q == (PlacementView { undraft: q.undraft, ..p }),
    decreases cx.prs.len() - i,
{
    if 0 <= i < cx.prs.len() {
        match cx.prs[i] {
            None => lemma_draft_keeps_places(t, cx, i + 1, p),
            Some(pr) => if pr.draft || pr.base == p.base_branches[i] || p.retargeted_early[i] {
                lemma_draft_keeps_places(t, cx, i + 1, p);
            } else {
                let (t1, r) = tape::ask_unit(
                    t,
                    RequestView::SetDraft { node_id: pr.node_id, draft: true },
                );
                if r is Ok {
                    lemma_draft_keeps_places(
                        t1,
                        cx,
                        i + 1,
                        PlacementView { undraft: p.undraft.push(pr.node_id), ..p },
                    );
                }
            },
        }
    }
}

/// Since `from` the only push, if there is any, was that of the given branches.
pub open spec fn pushed_only(from: TapeView, to: TapeView, specs: Seq<PushView>) -> bool {
    &&& forall|k: int|
        from.asked.len() <= k < to.asked.len() && (#[trigger] to.asked[k]) is Push ==> to.asked[k]
            == (RequestView::Push { specs })
    &&& forall|k: int, m: int|
        from.asked.len() <= k < m < to.asked.len() && (#[trigger] to.asked[k]) is Push ==> !((
        #[trigger] to.asked[m]) is Push)
}

proof fn lemma_pushed_only(
    from: TapeView,
    before: TapeView,
    after: TapeView,
    to: TapeView,
    specs: Seq<PushView>,
)
    requires
        tape::only(from, before, |q: RequestView| !(q is Push)),
        after == before || after.asked == before.asked.push(RequestView::Push { specs }),
        tape::only(after, to, |q: RequestView| !(q is Push)),
    ensures
        pushed_only(from, to, specs),
{
    let quiet = |q: RequestView| !(q is Push);
    assert forall|k: int|
        from.asked.len() <= k < to.asked.len() && (#[trigger] to.asked[k]) is Push implies k
        == before.asked.len() && to.asked[k] == (RequestView::Push { specs }) by {
        if k >= after.asked.len() {
            assert(quiet(to.asked[k]));
        } else {
            assert(to.asked[k] == after.asked[k]);
            if k < before.asked.len() {
                assert(after.asked[k] == before.asked[k]);
                assert(quiet(before.asked[k]));
            }
        }
    }
}

/// Whatever a run pushes, it pushes at once, and it is what the places of the
/// layers say; where they cannot all be found, nothing is pushed.
pub proof fn law_pushed_as_placed(t: TapeView, cx: ContextView)
    ensures
        match place_from(t, cx, 0, empty_placement(cx)).1 {
            Ok(p) => pushed_only(t, executed(t, cx).0, p.push_specs),
            Err(_) => tape::only(t, executed(t, cx).0, |q: RequestView| !(q is Push)),
        },
{
    broadcast use {
        tape::lemma_only_ask,
        lemma_place_from_only,
        lemma_draft_from_only,
        lemma_announce_from_only,
        lemma_concluded_only,
    };

    let quiet = |q: RequestView| !(q is Push);
    assert(tape::may_do_all_but_push(quiet));
    tape::lemma_only_start(t, quiet);
    let (t1, p) = place_from(t, cx, 0, empty_placement(cx));
    assert(tape::only(t, t1, quiet));
    if p is Ok {
        let p = p->Ok_0;
        let (t2, q) = if cx.config.draft_while_retargeting {
            draft_from(t1, cx, 0, p)
        } else {
            tape::done(t1, p)
        };
        lemma_draft_keeps_places(t1, cx, 0, p);
        assert(tape::only(t, t2, quiet));
        let to = executed(t, cx).0;
        if q is Ok {
            let q = q->Ok_0;
            assert(to == pushed(t2, cx, q).0);
            let (t3, r) = if q.push_specs.len() > 0 {
                tape::ask_unit(t2, RequestView::Push { specs: q.push_specs })
            } else {
                tape::done(t2, ())
            };
            tape::lemma_only_start(t3, quiet);
            if r is Ok {
                let (t4, warn) = warns(t3, cx.opts);
                assert(tape::only(t3, t4, quiet));
                if warn is Ok {
                    let (t5, st) = announce_from(t4, cx, q, warn->Ok_0, 0, start_of(cx));
                    assert(tape::only(t3, t5, quiet));
                    if st is Ok {
                        assert(tape::only(t3, concluded(t5, q, st->Ok_0).0, quiet));
                    }
                }
            }
            assert(tape::only(t3, to, quiet));
            lemma_pushed_only(t, t2, t3, to, p.push_specs);
        } else {
            tape::lemma_only_start(t2, quiet);
            lemma_pushed_only(t, t2, t2, to, p.push_specs);
        }
    }
}

} // verus!
