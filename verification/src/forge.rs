//! What a forge knows of a repository: its pull requests, its branches and its
//! settings.

use vstd::prelude::*;

use crate::data::Duplicate;
use crate::oid::Oid;

verus! {

#[derive(Debug, Clone, Copy, PartialEq, Eq, Structural)]
pub enum PrState {
    Open,
    Closed,
    Merged,
}

/// The forge's verdict on whether a pull request can be merged.
#[derive(Debug, Clone, Copy, PartialEq, Eq, Structural)]
pub enum Mergeable {
    Mergeable,
    Conflicting,
    Unknown,
}

/// How a pull request stands to its base branch, as far as it matters here.
#[derive(Debug, Clone, Copy, PartialEq, Eq, Structural)]
pub enum MergeState {
    Clean,
    /// The head branch is behind its base.
    Behind,
    Blocked,
    Dirty,
    Unknown,
}

#[derive(Debug, Clone)]
pub struct PullRequest {
    pub number: u64,
    /// The forge's own name for the pull request.
    pub node_id: String,
    pub state: PrState,
    pub title: String,
    pub body: String,
    pub base: String,
    pub head: String,
    pub base_oid: Oid,
    pub head_oid: Oid,
    pub mergeable: Mergeable,
    pub merge_state: MergeState,
    /// Auto-merge would merge this pull request into its *base branch*, not the
    /// trunk, silently flattening a stack.
    pub auto_merge: bool,
    pub draft: bool,
}

#[verifier::ext_equal]
pub struct PrView {
    pub number: u64,
    pub node_id: Seq<char>,
    pub state: PrState,
    pub title: Seq<char>,
    pub body: Seq<char>,
    pub base: Seq<char>,
    pub head: Seq<char>,
    pub base_oid: Oid,
    pub head_oid: Oid,
    pub mergeable: Mergeable,
    pub merge_state: MergeState,
    pub auto_merge: bool,
    pub draft: bool,
}

impl DeepView for PullRequest {
    type V = PrView;

    open spec fn deep_view(&self) -> PrView {
        PrView {
            number: self.number,
            node_id: self.node_id@,
            state: self.state,
            title: self.title@,
            body: self.body@,
            base: self.base@,
            head: self.head@,
            base_oid: self.base_oid,
            head_oid: self.head_oid,
            mergeable: self.mergeable,
            merge_state: self.merge_state,
            auto_merge: self.auto_merge,
            draft: self.draft,
        }
    }
}

impl View for PullRequest {
    type V = PrView;

    open spec fn view(&self) -> PrView {
        self.deep_view()
    }
}

impl Duplicate for PullRequest {
    fn duplicate(&self) -> (r: Self) {
        PullRequest {
            number: self.number,
            node_id: self.node_id.clone(),
            state: self.state,
            title: self.title.clone(),
            body: self.body.clone(),
            base: self.base.clone(),
            head: self.head.clone(),
            base_oid: self.base_oid,
            head_oid: self.head_oid,
            mergeable: self.mergeable,
            merge_state: self.merge_state,
            auto_merge: self.auto_merge,
            draft: self.draft,
        }
    }
}

/// The displayed diff of a pull request is stale enough to be worth refreshing
/// even if the patch itself has not changed.
pub open spec fn worth_refreshing(pr: PrView, require_up_to_date: bool) -> bool {
    pr.mergeable == Mergeable::Conflicting || (require_up_to_date && pr.merge_state
        == MergeState::Behind)
}

impl PullRequest {
    pub fn is_open(&self) -> (r: bool)
        ensures
            r == (self@.state == PrState::Open),
    {
        self.state == PrState::Open
    }

    /// Whether the displayed diff is stale enough to be worth refreshing even
    /// if the patch itself has not changed.
    ///
    /// A conflict always warrants a refresh. Being behind deliberately does
    /// **not**, unless the repository requires branches to be up to date: in a
    /// stack, every layer above an amended one is behind by construction, and
    /// its displayed diff is still correct.
    pub fn needs_refresh(&self, require_up_to_date: bool) -> (r: bool)
        ensures
            r == worth_refreshing(self@, require_up_to_date),
    {
        self.mergeable == Mergeable::Conflicting || (require_up_to_date && self.merge_state
            == MergeState::Behind)
    }
}

#[derive(Debug, Clone)]
pub struct CreatePr {
    pub title: String,
    pub body: String,
    pub base: String,
    pub head: String,
    pub draft: bool,
}

#[verifier::ext_equal]
pub struct CreateView {
    pub title: Seq<char>,
    pub body: Seq<char>,
    pub base: Seq<char>,
    pub head: Seq<char>,
    pub draft: bool,
}

impl DeepView for CreatePr {
    type V = CreateView;

    open spec fn deep_view(&self) -> CreateView {
        CreateView {
            title: self.title@,
            body: self.body@,
            base: self.base@,
            head: self.head@,
            draft: self.draft,
        }
    }
}

/// What a pull request is to be changed to; `None` leaves a property alone.
#[derive(Debug, Clone)]
pub struct PullRequestUpdate {
    pub title: Option<String>,
    pub body: Option<String>,
    pub base: Option<String>,
    pub state: Option<PrState>,
}

#[verifier::ext_equal]
pub struct UpdateView {
    pub title: Option<Seq<char>>,
    pub body: Option<Seq<char>>,
    pub base: Option<Seq<char>>,
    pub state: Option<PrState>,
}

impl DeepView for PullRequestUpdate {
    type V = UpdateView;

    open spec fn deep_view(&self) -> UpdateView {
        UpdateView {
            title: self.title.deep_view(),
            body: self.body.deep_view(),
            base: self.base.deep_view(),
            state: self.state,
        }
    }
}

/// The update that changes nothing.
pub open spec fn no_update() -> UpdateView {
    UpdateView { title: None, body: None, base: None, state: None }
}

/// The update that moves a pull request to another base branch.
pub open spec fn base_update(base: Seq<char>) -> UpdateView {
    UpdateView { base: Some(base), ..no_update() }
}

impl Default for PullRequestUpdate {
    fn default() -> (r: Self)
        ensures
            r.deep_view() == no_update(),
    {
        PullRequestUpdate { title: None, body: None, base: None, state: None }
    }
}

impl PullRequestUpdate {
    /// Whether the update changes nothing.
    pub fn is_empty(&self) -> (r: bool)
        ensures
            r == (self.deep_view() == no_update()),
    {
        self.title.is_none() && self.body.is_none() && self.base.is_none() && self.state.is_none()
    }

    /// The update that moves a pull request to another base branch.
    pub fn to_base(base: &str) -> (r: Self)
        ensures
            r.deep_view() == base_update(base@),
    {
        PullRequestUpdate { title: None, body: None, base: Some(base.to_owned()), state: None }
    }
}

/// A squash merge request.
///
/// Title and message are **always** set explicitly: the history of a head
/// branch is full of revision commits, so a repository configured to collect
/// commit messages would otherwise paste that noise onto the trunk.
/// `expected_head` is a compare-and-swap guard.
#[derive(Debug, Clone)]
pub struct SquashMerge {
    pub title: String,
    pub message: String,
    pub expected_head: Oid,
}

#[verifier::ext_equal]
pub struct SquashView {
    pub title: Seq<char>,
    pub message: Seq<char>,
    pub expected_head: Oid,
}

impl DeepView for SquashMerge {
    type V = SquashView;

    open spec fn deep_view(&self) -> SquashView {
        SquashView {
            title: self.title@,
            message: self.message@,
            expected_head: self.expected_head,
        }
    }
}

/// What is to happen to one remote branch.
#[derive(Debug, Clone)]
pub struct PushSpec {
    pub branch: String,
    /// `None` deletes the branch.
    pub oid: Option<Oid>,
    /// Whether the branch may move to a commit that does not descend from its
    /// current one.
    pub force: bool,
    /// How to name the branch to the user.
    pub label: Option<String>,
    /// What the push is for.
    pub context: Option<String>,
}

#[verifier::ext_equal]
pub struct PushView {
    pub branch: Seq<char>,
    pub oid: Option<Oid>,
    pub force: bool,
    pub label: Option<Seq<char>>,
    pub context: Option<Seq<char>>,
}

impl DeepView for PushSpec {
    type V = PushView;

    open spec fn deep_view(&self) -> PushView {
        PushView {
            branch: self.branch@,
            oid: self.oid,
            force: self.force,
            label: self.label.deep_view(),
            context: self.context.deep_view(),
        }
    }
}

impl Duplicate for PushSpec {
    fn duplicate(&self) -> (r: Self) {
        PushSpec {
            branch: self.branch.clone(),
            oid: self.oid,
            force: self.force,
            label: self.label.duplicate(),
            context: self.context.duplicate(),
        }
    }
}

/// Moves a branch forward to a commit.
pub open spec fn forward_push(branch: Seq<char>, oid: Oid) -> PushView {
    PushView { branch, oid: Some(oid), force: false, label: None, context: None }
}

/// Moves a branch to a commit, wherever it stands.
pub open spec fn forced_push(branch: Seq<char>, oid: Oid) -> PushView {
    PushView { branch, oid: Some(oid), force: true, label: None, context: None }
}

/// Deletes a branch.
pub open spec fn delete_push(branch: Seq<char>) -> PushView {
    PushView { branch, oid: None, force: false, label: None, context: None }
}

impl PushSpec {
    pub fn fast_forward(branch: &str, oid: Oid) -> (r: Self)
        ensures
            r.deep_view() == forward_push(branch@, oid),
    {
        PushSpec { branch: branch.to_owned(), oid: Some(oid), force: false, label: None, context: None }
    }

    pub fn forced(branch: &str, oid: Oid) -> (r: Self)
        ensures
            r.deep_view() == forced_push(branch@, oid),
    {
        PushSpec { branch: branch.to_owned(), oid: Some(oid), force: true, label: None, context: None }
    }

    pub fn delete(branch: &str) -> (r: Self)
        ensures
            r.deep_view() == delete_push(branch@),
    {
        PushSpec { branch: branch.to_owned(), oid: None, force: false, label: None, context: None }
    }

    /// The same push, named to the user by `label`.
    pub fn with_label(self, label: String) -> (r: Self)
        ensures
            r.deep_view() == (PushView { label: Some(label@), ..self.deep_view() }),
    {
        PushSpec { label: Some(label), ..self }
    }
}

/// Branch protection settings that affect how to behave.
#[derive(Debug, Clone, Copy, PartialEq, Eq, Structural)]
pub struct Protection {
    /// If set, every push to a layer dismisses that layer's approvals.
    pub dismiss_stale_reviews: bool,
    /// If set, stacks serialise badly and every layer re-runs CI.
    pub require_up_to_date: bool,
}

impl Default for Protection {
    fn default() -> (r: Self)
        ensures
            r == (Protection { dismiss_stale_reviews: false, require_up_to_date: false }),
    {
        Protection { dismiss_stale_reviews: false, require_up_to_date: false }
    }
}

/// How a repository lets pull requests be merged.
#[derive(Debug, Clone, Copy, PartialEq, Eq, Structural)]
pub struct RepoMergeSettings {
    pub allow_squash_merge: bool,
    pub allow_merge_commit: bool,
    pub allow_rebase_merge: bool,
    /// The default squash message is the title and the description of the pull
    /// request.
    pub squash_uses_pr_description: bool,
}

/// A pull request can only be merged by squashing it under its own title and
/// description.
pub open spec fn squash_only(s: RepoMergeSettings) -> bool {
    s.allow_squash_merge && !s.allow_merge_commit && !s.allow_rebase_merge
        && s.squash_uses_pr_description
}

impl Default for RepoMergeSettings {
    fn default() -> (r: Self)
        ensures
            squash_only(r),
    {
        RepoMergeSettings {
            allow_squash_merge: true,
            allow_merge_commit: false,
            allow_rebase_merge: false,
            squash_uses_pr_description: true,
        }
    }
}

impl RepoMergeSettings {
    pub fn is_squash_only(self) -> (r: bool)
        ensures
            r == squash_only(self),
    {
        self.allow_squash_merge && !self.allow_merge_commit && !self.allow_rebase_merge
            && self.squash_uses_pr_description
    }
}

/// A comment on a pull request.
#[derive(Debug, Clone)]
pub struct Comment {
    pub id: u64,
    pub body: String,
}

#[verifier::ext_equal]
pub struct CommentView {
    pub id: u64,
    pub body: Seq<char>,
}

impl DeepView for Comment {
    type V = CommentView;

    open spec fn deep_view(&self) -> CommentView {
        CommentView { id: self.id, body: self.body@ }
    }
}

impl Duplicate for Comment {
    fn duplicate(&self) -> (r: Self) {
        Comment { id: self.id, body: self.body.clone() }
    }
}

#[derive(Debug, Clone, Copy, PartialEq, Eq, Structural)]
pub enum ReviewDecision {
    Approved,
    ChangesRequested,
    ReviewRequired,
}

/// An open pull request as a listing shows it.
#[derive(Debug, Clone, PartialEq, Eq)]
pub struct ListedPr {
    pub number: u64,
    pub title: String,
    pub state: PrState,
    pub draft: bool,
    pub base: String,
    pub head: String,
    pub review_decision: Option<ReviewDecision>,
    pub url: String,
}

#[verifier::ext_equal]
pub struct ListedView {
    pub number: u64,
    pub title: Seq<char>,
    pub state: PrState,
    pub draft: bool,
    pub base: Seq<char>,
    pub head: Seq<char>,
    pub review_decision: Option<ReviewDecision>,
    pub url: Seq<char>,
}

impl DeepView for ListedPr {
    type V = ListedView;

    open spec fn deep_view(&self) -> ListedView {
        ListedView {
            number: self.number,
            title: self.title@,
            state: self.state,
            draft: self.draft,
            base: self.base@,
            head: self.head@,
            review_decision: self.review_decision,
            url: self.url@,
        }
    }
}

impl Duplicate for ListedPr {
    fn duplicate(&self) -> (r: Self) {
        ListedPr {
            number: self.number,
            title: self.title.clone(),
            state: self.state,
            draft: self.draft,
            base: self.base.clone(),
            head: self.head.clone(),
            review_decision: self.review_decision,
            url: self.url.clone(),
        }
    }
}

impl DeepView for PrState {
    type V = PrState;

    open spec fn deep_view(&self) -> PrState {
        *self
    }
}

impl Duplicate for PrState {
    fn duplicate(&self) -> (r: Self) {
        *self
    }
}

impl DeepView for Mergeable {
    type V = Mergeable;

    open spec fn deep_view(&self) -> Mergeable {
        *self
    }
}

impl Duplicate for Mergeable {
    fn duplicate(&self) -> (r: Self) {
        *self
    }
}

impl DeepView for MergeState {
    type V = MergeState;

    open spec fn deep_view(&self) -> MergeState {
        *self
    }
}

impl Duplicate for MergeState {
    fn duplicate(&self) -> (r: Self) {
        *self
    }
}

impl DeepView for Protection {
    type V = Protection;

    open spec fn deep_view(&self) -> Protection {
        *self
    }
}

impl Duplicate for Protection {
    fn duplicate(&self) -> (r: Self) {
        *self
    }
}

impl DeepView for RepoMergeSettings {
    type V = RepoMergeSettings;

    open spec fn deep_view(&self) -> RepoMergeSettings {
        *self
    }
}

impl Duplicate for RepoMergeSettings {
    fn duplicate(&self) -> (r: Self) {
        *self
    }
}

impl DeepView for ReviewDecision {
    type V = ReviewDecision;

    open spec fn deep_view(&self) -> ReviewDecision {
        *self
    }
}

impl Duplicate for ReviewDecision {
    fn duplicate(&self) -> (r: Self) {
        *self
    }
}

} // verus!
