//! Workflows as conversations.
//!
//! A workflow is a function over a tape. Whenever it needs something from the
//! outside it puts a request on the tape and reads the reply that stands there
//! for it. Where the tape ends, the workflow halts: its caller carries the last
//! request out, appends the reply and runs the workflow from its beginning
//! again. As a workflow does nothing but ask, it takes the same way over the
//! replies that are already there, and no request is carried out twice.

use vstd::prelude::*;

use crate::forge;
use crate::data::Duplicate;
use crate::forge::{
    Comment, CreatePr, ListedPr, Protection, PullRequest, PullRequestUpdate, PushSpec, RepoMergeSettings,
    SquashMerge,
};
use crate::oid::Oid;

verus! {

/// What a merge comes to.
#[derive(Debug, Clone)]
pub enum Merge {
    /// The merged tree.
    Clean(Oid),
    /// The files in conflict.
    Conflicts(Vec<String>),
}

#[verifier::ext_equal]
pub enum MergeView {
    Clean(Oid),
    Conflicts(Seq<Seq<char>>),
}

impl DeepView for Merge {
    type V = MergeView;

    open spec fn deep_view(&self) -> MergeView {
        match self {
            Merge::Clean(tree) => MergeView::Clean(*tree),
            Merge::Conflicts(files) => MergeView::Conflicts(files.deep_view()),
        }
    }
}

impl Duplicate for Merge {
    fn duplicate(&self) -> (r: Self) {
        match self {
            Merge::Clean(tree) => Merge::Clean(*tree),
            Merge::Conflicts(files) => Merge::Conflicts(files.duplicate()),
        }
    }
}

/// What a workflow asks of the outside.
#[derive(Debug, Clone)]
pub enum Request {
    /// Refuses to go on if there are uncommitted changes.
    CheckClean,
    /// The commits reachable from `HEAD` but not from `base`, oldest first.
    CommitsSince { base: Oid },
    /// The message of a commit.
    MessageOf { commit: Oid },
    /// The only parent of a commit.
    ParentOf { commit: Oid },
    /// The first parent of a commit, if it has any.
    FirstParentOf { commit: Oid },
    /// The only parent of a commit, if that can be told.
    TryParentOf { commit: Oid },
    /// The first parent of a commit, if it has any, or why that cannot be told.
    TryFirstParentOf { commit: Oid },
    /// Whether a commit has more than one parent.
    IsMerge { commit: Oid },
    /// Whether a commit is in the local object database.
    HasCommit { commit: Oid },
    /// The tree of a commit.
    TreeOf { commit: Oid },
    /// An unambiguous short name of a commit.
    ShortId { commit: Oid },
    /// The object that the user means by the name of a commit, if there is one.
    FindCommit { name: String },
    /// Whether a commit is the other one or an ancestor of it.
    IsAncestor { ancestor: Oid, descendant: Oid },
    /// The same, where a commit that is not at hand is no ancestor.
    MayBeAncestor { ancestor: Oid, descendant: Oid },
    /// Whether a commit is the other one or an ancestor of it, or why that cannot be told.
    TryIsAncestor { ancestor: Oid, descendant: Oid },
    /// Whether a commit is a proper descendant of the other one.
    IsDescendant { descendant: Oid, ancestor: Oid },
    /// The best common ancestor of two commits.
    MergeBase { a: Oid, b: Oid },
    /// The best common ancestor of two commits, if they have one.
    MergeBaseIfAny { a: Oid, b: Oid },
    /// The three-way merge of trees.
    MergeTrees { base: Oid, ours: Oid, theirs: Oid },
    /// The merge of two commits.
    MergeCommits { ours: Oid, theirs: Oid },
    /// The patch of a commit, relative to its only or to its first parent, applied on top of another commit.
    CherryPick { commit: Oid, onto: Oid, first_parent: bool },
    /// A stable hash of the patch between two trees.
    PatchId { from: Oid, to: Oid },
    /// The lines of the patch between two trees.
    DiffLines { from: Oid, to: Oid },
    /// A new commit made now in the name of the author of another one.
    DeriveCommit { attribution: Oid, message: String, tree: Oid, parent: Oid },
    /// A new commit with the author and the committer of another one.
    CopyCommit { original: Oid, message: String, tree: Oid, parent: Oid },
    /// Runs the hook for a rewritten commit.
    PostRewrite { old: Oid, new: Oid },
    /// Points the current branch at a commit with the same tree.
    MoveHead { commit: Oid },
    /// Checks a commit out and points the current branch at it.
    CheckoutHead { commit: Oid },
    /// Checks a local branch out.
    CheckoutBranch { branch: String },
    /// Points a reference at a commit.
    SetReference { name: String, oid: Oid, reason: String },
    /// What a reference points at, if it exists.
    ReferenceTarget { name: String },
    /// The commit that a reference leads to, if it does.
    ResolveReference { name: String },
    /// Deletes a reference if it exists.
    DeleteReference { name: String },
    /// The pull request with a number.
    GetPullRequest { number: u64 },
    /// Opens a pull request.
    CreatePullRequest { pr: CreatePr },
    /// Changes a pull request.
    UpdatePullRequest { number: u64, update: PullRequestUpdate },
    /// Changes a pull request, and goes on if that fails.
    TryUpdatePullRequest { number: u64, update: PullRequestUpdate },
    /// Squash-merges a pull request: the commit on the trunk, or why it failed.
    MergePullRequest { number: u64, merge: SquashMerge },
    /// Turns a pull request into a draft, or a draft into a pull request.
    SetDraft { node_id: String, draft: bool },
    /// How a branch is protected, if it is.
    BranchProtection { branch: String },
    /// The tip of a remote branch, if it exists.
    BranchOid { branch: String },
    /// The tip of a remote branch, or why it cannot be told.
    TryBranchOid { branch: String },
    /// Pushes to any number of branches at once.
    Push { specs: Vec<PushSpec> },
    /// A branch name that is free on the remote, close to a preferred one.
    UnusedBranchName { preferred: String },
    /// Makes a commit available locally.
    FetchCommit { commit: Oid },
    /// The comments that the user has on a pull request.
    OwnComments { number: u64 },
    /// Posts a comment.
    CreateComment { number: u64, body: String },
    /// Rewrites a comment.
    UpdateComment { id: u64, body: String },
    /// Deletes a comment.
    DeleteComment { id: u64 },
    /// The pull request with a head branch, if there is one.
    FindByHead { head: String },
    /// Registers chains of pull requests, each from the bottom up.
    SyncStacks { chains: Vec<Vec<u64>> },
    /// The registered chains of pull requests, with their numbers.
    ListStacks,
    /// Registers a new chain of pull requests.
    CreateStack { chain: Vec<u64> },
    /// Puts pull requests on top of a registered chain.
    ExtendStack { id: u64, chain: Vec<u64> },
    /// How the repository lets pull requests be merged.
    MergeSettings,
    /// Waits.
    Sleep { millis: u64 },
    /// What the user says has changed.
    AskMessage { subject: String },
    /// Whether the user wants to go on with a pull request that is already open.
    ConfirmRelink { subject: String, number: u64, title: String, branch: String },
    /// Decides who answers questions from here on: the user, or nobody.
    Prompting { interactive: bool },
    /// Shows a text on standard output.
    Print { text: String },
    /// Shows a text on standard error.
    PrintError { text: String },
    /// The open pull requests, of one author or of all.
    ListPullRequests { author: Option<String> },
    /// The registered chains that a pull request is in, or why that cannot be told.
    StacksOf { number: u64 },
    /// Dissolves a registered chain, and goes on if that fails.
    Unstack { id: u64 },
    /// Sends the changes of a pull request to the forge.
    SendUpdate { number: u64, update: PullRequestUpdate },
}

#[verifier::ext_equal]
pub enum RequestView {
    CheckClean,
    CommitsSince { base: Oid },
    MessageOf { commit: Oid },
    ParentOf { commit: Oid },
    FirstParentOf { commit: Oid },
    TryParentOf { commit: Oid },
    TryFirstParentOf { commit: Oid },
    IsMerge { commit: Oid },
    HasCommit { commit: Oid },
    TreeOf { commit: Oid },
    ShortId { commit: Oid },
    FindCommit { name: Seq<char> },
    IsAncestor { ancestor: Oid, descendant: Oid },
    MayBeAncestor { ancestor: Oid, descendant: Oid },
    TryIsAncestor { ancestor: Oid, descendant: Oid },
    IsDescendant { descendant: Oid, ancestor: Oid },
    MergeBase { a: Oid, b: Oid },
    MergeBaseIfAny { a: Oid, b: Oid },
    MergeTrees { base: Oid, ours: Oid, theirs: Oid },
    MergeCommits { ours: Oid, theirs: Oid },
    CherryPick { commit: Oid, onto: Oid, first_parent: bool },
    PatchId { from: Oid, to: Oid },
    DiffLines { from: Oid, to: Oid },
    DeriveCommit { attribution: Oid, message: Seq<char>, tree: Oid, parent: Oid },
    CopyCommit { original: Oid, message: Seq<char>, tree: Oid, parent: Oid },
    PostRewrite { old: Oid, new: Oid },
    MoveHead { commit: Oid },
    CheckoutHead { commit: Oid },
    CheckoutBranch { branch: Seq<char> },
    SetReference { name: Seq<char>, oid: Oid, reason: Seq<char> },
    ReferenceTarget { name: Seq<char> },
    ResolveReference { name: Seq<char> },
    DeleteReference { name: Seq<char> },
    GetPullRequest { number: u64 },
    CreatePullRequest { pr: forge::CreateView },
    UpdatePullRequest { number: u64, update: forge::UpdateView },
    TryUpdatePullRequest { number: u64, update: forge::UpdateView },
    MergePullRequest { number: u64, merge: forge::SquashView },
    SetDraft { node_id: Seq<char>, draft: bool },
    BranchProtection { branch: Seq<char> },
    BranchOid { branch: Seq<char> },
    TryBranchOid { branch: Seq<char> },
    Push { specs: Seq<forge::PushView> },
    UnusedBranchName { preferred: Seq<char> },
    FetchCommit { commit: Oid },
    OwnComments { number: u64 },
    CreateComment { number: u64, body: Seq<char> },
    UpdateComment { id: u64, body: Seq<char> },
    DeleteComment { id: u64 },
    FindByHead { head: Seq<char> },
    SyncStacks { chains: Seq<Seq<u64>> },
    ListStacks,
    CreateStack { chain: Seq<u64> },
    ExtendStack { id: u64, chain: Seq<u64> },
    MergeSettings,
    Sleep { millis: u64 },
    AskMessage { subject: Seq<char> },
    ConfirmRelink { subject: Seq<char>, number: u64, title: Seq<char>, branch: Seq<char> },
    Prompting { interactive: bool },
    Print { text: Seq<char> },
    PrintError { text: Seq<char> },
    ListPullRequests { author: Option<Seq<char>> },
    StacksOf { number: u64 },
    Unstack { id: u64 },
    SendUpdate { number: u64, update: forge::UpdateView },
}

impl DeepView for Request {
    type V = RequestView;

    open spec fn deep_view(&self) -> RequestView {
        match self {
            Request::CheckClean => RequestView::CheckClean,
            Request::CommitsSince { base } => RequestView::CommitsSince { base: *base },
            Request::MessageOf { commit } => RequestView::MessageOf { commit: *commit },
            Request::ParentOf { commit } => RequestView::ParentOf { commit: *commit },
            Request::FirstParentOf { commit } => RequestView::FirstParentOf { commit: *commit },
            Request::TryParentOf { commit } => RequestView::TryParentOf { commit: *commit },
            Request::TryFirstParentOf { commit } => RequestView::TryFirstParentOf { commit: *commit },
            Request::IsMerge { commit } => RequestView::IsMerge { commit: *commit },
            Request::HasCommit { commit } => RequestView::HasCommit { commit: *commit },
            Request::TreeOf { commit } => RequestView::TreeOf { commit: *commit },
            Request::ShortId { commit } => RequestView::ShortId { commit: *commit },
            Request::FindCommit { name } => RequestView::FindCommit { name: name.deep_view() },
            Request::IsAncestor { ancestor, descendant } => RequestView::IsAncestor { ancestor: *ancestor, descendant: *descendant },
            Request::MayBeAncestor { ancestor, descendant } => RequestView::MayBeAncestor { ancestor: *ancestor, descendant: *descendant },
            Request::TryIsAncestor { ancestor, descendant } => RequestView::TryIsAncestor { ancestor: *ancestor, descendant: *descendant },
            Request::IsDescendant { descendant, ancestor } => RequestView::IsDescendant { descendant: *descendant, ancestor: *ancestor },
            Request::MergeBase { a, b } => RequestView::MergeBase { a: *a, b: *b },
            Request::MergeBaseIfAny { a, b } => RequestView::MergeBaseIfAny { a: *a, b: *b },
            Request::MergeTrees { base, ours, theirs } => RequestView::MergeTrees { base: *base, ours: *ours, theirs: *theirs },
            Request::MergeCommits { ours, theirs } => RequestView::MergeCommits { ours: *ours, theirs: *theirs },
            Request::CherryPick { commit, onto, first_parent } => RequestView::CherryPick { commit: *commit, onto: *onto, first_parent: *first_parent },
            Request::PatchId { from, to } => RequestView::PatchId { from: *from, to: *to },
            Request::DiffLines { from, to } => RequestView::DiffLines { from: *from, to: *to },
            Request::DeriveCommit { attribution, message, tree, parent } => RequestView::DeriveCommit { attribution: *attribution, message: message.deep_view(), tree: *tree, parent: *parent },
            Request::CopyCommit { original, message, tree, parent } => RequestView::CopyCommit { original: *original, message: message.deep_view(), tree: *tree, parent: *parent },
            Request::PostRewrite { old, new } => RequestView::PostRewrite { old: *old, new: *new },
            Request::MoveHead { commit } => RequestView::MoveHead { commit: *commit },
            Request::CheckoutHead { commit } => RequestView::CheckoutHead { commit: *commit },
            Request::CheckoutBranch { branch } => RequestView::CheckoutBranch { branch: branch.deep_view() },
            Request::SetReference { name, oid, reason } => RequestView::SetReference { name: name.deep_view(), oid: *oid, reason: reason.deep_view() },
            Request::ReferenceTarget { name } => RequestView::ReferenceTarget { name: name.deep_view() },
            Request::ResolveReference { name } => RequestView::ResolveReference { name: name.deep_view() },
            Request::DeleteReference { name } => RequestView::DeleteReference { name: name.deep_view() },
            Request::GetPullRequest { number } => RequestView::GetPullRequest { number: *number },
            Request::CreatePullRequest { pr } => RequestView::CreatePullRequest { pr: pr.deep_view() },
            Request::UpdatePullRequest { number, update } => RequestView::UpdatePullRequest { number: *number, update: update.deep_view() },
            Request::TryUpdatePullRequest { number, update } => RequestView::TryUpdatePullRequest { number: *number, update: update.deep_view() },
            Request::MergePullRequest { number, merge } => RequestView::MergePullRequest { number: *number, merge: merge.deep_view() },
            Request::SetDraft { node_id, draft } => RequestView::SetDraft { node_id: node_id.deep_view(), draft: *draft },
            Request::BranchProtection { branch } => RequestView::BranchProtection { branch: branch.deep_view() },
            Request::BranchOid { branch } => RequestView::BranchOid { branch: branch.deep_view() },
            Request::TryBranchOid { branch } => RequestView::TryBranchOid { branch: branch.deep_view() },
            Request::Push { specs } => RequestView::Push { specs: specs.deep_view() },
            Request::UnusedBranchName { preferred } => RequestView::UnusedBranchName { preferred: preferred.deep_view() },
            Request::FetchCommit { commit } => RequestView::FetchCommit { commit: *commit },
            Request::OwnComments { number } => RequestView::OwnComments { number: *number },
            Request::CreateComment { number, body } => RequestView::CreateComment { number: *number, body: body.deep_view() },
            Request::UpdateComment { id, body } => RequestView::UpdateComment { id: *id, body: body.deep_view() },
            Request::DeleteComment { id } => RequestView::DeleteComment { id: *id },
            Request::FindByHead { head } => RequestView::FindByHead { head: head.deep_view() },
            Request::SyncStacks { chains } => RequestView::SyncStacks { chains: chains.deep_view() },
            Request::ListStacks => RequestView::ListStacks,
            Request::CreateStack { chain } => RequestView::CreateStack { chain: chain.deep_view() },
            Request::ExtendStack { id, chain } => RequestView::ExtendStack { id: *id, chain: chain.deep_view() },
            Request::MergeSettings => RequestView::MergeSettings,
            Request::Sleep { millis } => RequestView::Sleep { millis: *millis },
            Request::AskMessage { subject } => RequestView::AskMessage { subject: subject.deep_view() },
            Request::ConfirmRelink { subject, number, title, branch } => RequestView::ConfirmRelink { subject: subject.deep_view(), number: *number, title: title.deep_view(), branch: branch.deep_view() },
            Request::Prompting { interactive } => RequestView::Prompting { interactive: *interactive },
            Request::Print { text } => RequestView::Print { text: text.deep_view() },
            Request::PrintError { text } => RequestView::PrintError { text: text.deep_view() },
            Request::ListPullRequests { author } => RequestView::ListPullRequests { author: author.deep_view() },
            Request::StacksOf { number } => RequestView::StacksOf { number: *number },
            Request::Unstack { id } => RequestView::Unstack { id: *id },
            Request::SendUpdate { number, update } => RequestView::SendUpdate { number: *number, update: update.deep_view() },
        }
    }
}

/// What the outside replies.
#[derive(Debug, Clone)]
pub enum Reply {
    /// It is done.
    Done,
    /// Yes or no.
    Flag(bool),
    /// An object.
    Object(Oid),
    /// An object, or nothing.
    MaybeObject(Option<Oid>),
    /// Objects.
    Objects(Vec<Oid>),
    /// A number.
    Number(u64),
    /// A text.
    Text(String),
    /// A pull request.
    Pr(PullRequest),
    /// A pull request, or nothing.
    MaybePr(Option<PullRequest>),
    /// A merge.
    Merged(Merge),
    /// How a branch is protected.
    Protected(Option<Protection>),
    /// The settings of the repository.
    Settings(RepoMergeSettings),
    /// Comments.
    Comments(Vec<Comment>),
    /// Registered chains with their numbers.
    Stacks(Vec<(u64, Vec<u64>)>),
    /// Open pull requests.
    Listed(Vec<ListedPr>),
    /// The lines of a patch, each with the mark that says where it comes from.
    Lines(Vec<(char, String)>),
    /// It failed, and why.
    Failed(String),
}

#[verifier::ext_equal]
pub enum ReplyView {
    Done,
    Flag(bool),
    Object(Oid),
    MaybeObject(Option<Oid>),
    Objects(Seq<Oid>),
    Number(u64),
    Text(Seq<char>),
    Pr(forge::PrView),
    MaybePr(Option<forge::PrView>),
    Merged(MergeView),
    Protected(Option<Protection>),
    Settings(RepoMergeSettings),
    Comments(Seq<forge::CommentView>),
    Stacks(Seq<(u64, Seq<u64>)>),
    Listed(Seq<forge::ListedView>),
    Lines(Seq<(char, Seq<char>)>),
    Failed(Seq<char>),
}

impl DeepView for Reply {
    type V = ReplyView;

    open spec fn deep_view(&self) -> ReplyView {
        match self {
            Reply::Done => ReplyView::Done,
            Reply::Flag(x) => ReplyView::Flag(*x),
            Reply::Object(x) => ReplyView::Object(*x),
            Reply::MaybeObject(x) => ReplyView::MaybeObject(*x),
            Reply::Objects(x) => ReplyView::Objects(x.deep_view()),
            Reply::Number(x) => ReplyView::Number(*x),
            Reply::Text(x) => ReplyView::Text(x.deep_view()),
            Reply::Pr(x) => ReplyView::Pr(x.deep_view()),
            Reply::MaybePr(x) => ReplyView::MaybePr(x.deep_view()),
            Reply::Merged(x) => ReplyView::Merged(x.deep_view()),
            Reply::Protected(x) => ReplyView::Protected(*x),
            Reply::Settings(x) => ReplyView::Settings(*x),
            Reply::Comments(x) => ReplyView::Comments(x.deep_view()),
            Reply::Stacks(x) => ReplyView::Stacks(x.deep_view()),
            Reply::Listed(x) => ReplyView::Listed(x.deep_view()),
            Reply::Lines(x) => ReplyView::Lines(x.deep_view()),
            Reply::Failed(x) => ReplyView::Failed(x.deep_view()),
        }
    }
}

impl Duplicate for Reply {
    fn duplicate(&self) -> (r: Self) {
        match self {
            Reply::Done => Reply::Done,
            Reply::Flag(x) => Reply::Flag(*x),
            Reply::Object(x) => Reply::Object(*x),
            Reply::MaybeObject(x) => Reply::MaybeObject(*x),
            Reply::Objects(x) => Reply::Objects(x.duplicate()),
            Reply::Number(x) => Reply::Number(*x),
            Reply::Text(x) => Reply::Text(x.duplicate()),
            Reply::Pr(x) => Reply::Pr(x.duplicate()),
            Reply::MaybePr(x) => Reply::MaybePr(x.duplicate()),
            Reply::Merged(x) => Reply::Merged(x.duplicate()),
            Reply::Protected(x) => Reply::Protected(*x),
            Reply::Settings(x) => Reply::Settings(*x),
            Reply::Comments(x) => Reply::Comments(x.duplicate()),
            Reply::Stacks(x) => Reply::Stacks(x.duplicate()),
            Reply::Listed(x) => Reply::Listed(x.duplicate()),
            Reply::Lines(x) => Reply::Lines(x.duplicate()),
            Reply::Failed(x) => Reply::Failed(x.duplicate()),
        }
    }
}

/// Why a workflow has no result.
#[derive(Debug, Clone, PartialEq, Eq)]
pub enum Halt {
    /// The last request on the tape has no reply yet.
    Pending,
    /// The workflow refuses to go on, for the reason given.
    Refused(String),
}

#[verifier::ext_equal]
pub enum HaltView {
    Pending,
    Refused(Seq<char>),
}

impl DeepView for Halt {
    type V = HaltView;

    open spec fn deep_view(&self) -> HaltView {
        match self {
            Halt::Pending => HaltView::Pending,
            Halt::Refused(reason) => HaltView::Refused(reason@),
        }
    }
}

/// The refusal of a reply that does not answer its request.
pub const MISMATCH: &'static str = "internal error: a reply does not answer its request";

/// What a workflow comes to.
pub open spec fn outcome<T: DeepView>(r: Result<T, Halt>) -> Result<T::V, HaltView> {
    match r {
        Ok(t) => Ok(t.deep_view()),
        Err(h) => Err(h.deep_view()),
    }
}

/// The replies so far, and the requests put to them.
#[verifier::ext_equal]
pub struct TapeView {
    pub replies: Seq<ReplyView>,
    pub asked: Seq<RequestView>,
}

/// The replies so far, and the requests put to them.
pub struct Tape {
    pub replies: Vec<Reply>,
    pub asked: Vec<Request>,
}

impl View for Tape {
    type V = TapeView;

    open spec fn view(&self) -> TapeView {
        TapeView { replies: self.replies.deep_view(), asked: self.asked.deep_view() }
    }
}

/// One request: the tape with it, and the reply that stands there for it.
pub open spec fn ask(t: TapeView, q: RequestView) -> (TapeView, Result<ReplyView, HaltView>) {
    let after = TapeView { asked: t.asked.push(q), ..t };
    if t.asked.len() < t.replies.len() {
        (after, Ok(t.replies[t.asked.len() as int]))
    } else {
        (after, Err(HaltView::Pending))
    }
}

/// One part of a workflow after the other.
pub open spec fn bind<A, B>(
    first: (TapeView, Result<A, HaltView>),
    rest: spec_fn(TapeView, A) -> (TapeView, Result<B, HaltView>),
) -> (TapeView, Result<B, HaltView>) {
    match first.1 {
        Ok(a) => rest(first.0, a),
        Err(h) => (first.0, Err(h)),
    }
}

/// The end of a workflow.
pub open spec fn done<A>(t: TapeView, a: A) -> (TapeView, Result<A, HaltView>) {
    (t, Ok(a))
}

/// The end of a workflow that refuses to go on.
pub open spec fn refuse<A>(t: TapeView, reason: Seq<char>) -> (TapeView, Result<A, HaltView>) {
    (t, Err(HaltView::Refused(reason)))
}

pub open spec fn ask_unit(t: TapeView, q: RequestView) -> (TapeView, Result<(), HaltView>) {
    bind(
        ask(t, q),
        |t: TapeView, r: ReplyView|
            match r {
                ReplyView::Done => done(t, ()),
                ReplyView::Failed(reason) => refuse(t, reason),
                _ => refuse(t, MISMATCH@),
            },
    )
}

pub open spec fn ask_flag(t: TapeView, q: RequestView) -> (TapeView, Result<bool, HaltView>) {
    bind(
        ask(t, q),
        |t: TapeView, r: ReplyView|
            match r {
                ReplyView::Flag(x) => done(t, x),
                ReplyView::Failed(reason) => refuse(t, reason),
                _ => refuse(t, MISMATCH@),
            },
    )
}

pub open spec fn ask_object(t: TapeView, q: RequestView) -> (TapeView, Result<Oid, HaltView>) {
    bind(
        ask(t, q),
        |t: TapeView, r: ReplyView|
            match r {
                ReplyView::Object(x) => done(t, x),
                ReplyView::Failed(reason) => refuse(t, reason),
                _ => refuse(t, MISMATCH@),
            },
    )
}

pub open spec fn ask_maybe_object(t: TapeView, q: RequestView) -> (TapeView, Result<Option<Oid>, HaltView>) {
    bind(
        ask(t, q),
        |t: TapeView, r: ReplyView|
            match r {
                ReplyView::MaybeObject(x) => done(t, x),
                ReplyView::Failed(reason) => refuse(t, reason),
                _ => refuse(t, MISMATCH@),
            },
    )
}

pub open spec fn ask_objects(t: TapeView, q: RequestView) -> (TapeView, Result<Seq<Oid>, HaltView>) {
    bind(
        ask(t, q),
        |t: TapeView, r: ReplyView|
            match r {
                ReplyView::Objects(x) => done(t, x),
                ReplyView::Failed(reason) => refuse(t, reason),
                _ => refuse(t, MISMATCH@),
            },
    )
}

pub open spec fn ask_number(t: TapeView, q: RequestView) -> (TapeView, Result<u64, HaltView>) {
    bind(
        ask(t, q),
        |t: TapeView, r: ReplyView|
            match r {
                ReplyView::Number(x) => done(t, x),
                ReplyView::Failed(reason) => refuse(t, reason),
                _ => refuse(t, MISMATCH@),
            },
    )
}

pub open spec fn ask_text(t: TapeView, q: RequestView) -> (TapeView, Result<Seq<char>, HaltView>) {
    bind(
        ask(t, q),
        |t: TapeView, r: ReplyView|
            match r {
                ReplyView::Text(x) => done(t, x),
                ReplyView::Failed(reason) => refuse(t, reason),
                _ => refuse(t, MISMATCH@),
            },
    )
}

pub open spec fn ask_pr(t: TapeView, q: RequestView) -> (TapeView, Result<forge::PrView, HaltView>) {
    bind(
        ask(t, q),
        |t: TapeView, r: ReplyView|
            match r {
                ReplyView::Pr(x) => done(t, x),
                ReplyView::Failed(reason) => refuse(t, reason),
                _ => refuse(t, MISMATCH@),
            },
    )
}

pub open spec fn ask_maybe_pr(t: TapeView, q: RequestView) -> (TapeView, Result<Option<forge::PrView>, HaltView>) {
    bind(
        ask(t, q),
        |t: TapeView, r: ReplyView|
            match r {
                ReplyView::MaybePr(x) => done(t, x),
                ReplyView::Failed(reason) => refuse(t, reason),
                _ => refuse(t, MISMATCH@),
            },
    )
}

pub open spec fn ask_merge(t: TapeView, q: RequestView) -> (TapeView, Result<MergeView, HaltView>) {
    bind(
        ask(t, q),
        |t: TapeView, r: ReplyView|
            match r {
                ReplyView::Merged(x) => done(t, x),
                ReplyView::Failed(reason) => refuse(t, reason),
                _ => refuse(t, MISMATCH@),
            },
    )
}

pub open spec fn ask_protection(t: TapeView, q: RequestView) -> (TapeView, Result<Option<Protection>, HaltView>) {
    bind(
        ask(t, q),
        |t: TapeView, r: ReplyView|
            match r {
                ReplyView::Protected(x) => done(t, x),
                ReplyView::Failed(reason) => refuse(t, reason),
                _ => refuse(t, MISMATCH@),
            },
    )
}

pub open spec fn ask_settings(t: TapeView, q: RequestView) -> (TapeView, Result<RepoMergeSettings, HaltView>) {
    bind(
        ask(t, q),
        |t: TapeView, r: ReplyView|
            match r {
                ReplyView::Settings(x) => done(t, x),
                ReplyView::Failed(reason) => refuse(t, reason),
                _ => refuse(t, MISMATCH@),
            },
    )
}

pub open spec fn ask_comments(t: TapeView, q: RequestView) -> (TapeView, Result<Seq<forge::CommentView>, HaltView>) {
    bind(
        ask(t, q),
        |t: TapeView, r: ReplyView|
            match r {
                ReplyView::Comments(x) => done(t, x),
                ReplyView::Failed(reason) => refuse(t, reason),
                _ => refuse(t, MISMATCH@),
            },
    )
}

pub open spec fn ask_stacks(t: TapeView, q: RequestView) -> (TapeView, Result<Seq<(u64, Seq<u64>)>, HaltView>) {
    bind(
        ask(t, q),
        |t: TapeView, r: ReplyView|
            match r {
                ReplyView::Stacks(x) => done(t, x),
                ReplyView::Failed(reason) => refuse(t, reason),
                _ => refuse(t, MISMATCH@),
            },
    )
}

pub open spec fn ask_listed(t: TapeView, q: RequestView) -> (TapeView, Result<Seq<forge::ListedView>, HaltView>) {
    bind(
        ask(t, q),
        |t: TapeView, r: ReplyView|
            match r {
                ReplyView::Listed(x) => done(t, x),
                ReplyView::Failed(reason) => refuse(t, reason),
                _ => refuse(t, MISMATCH@),
            },
    )
}

pub open spec fn ask_lines(t: TapeView, q: RequestView) -> (TapeView, Result<Seq<(char, Seq<char>)>, HaltView>) {
    bind(
        ask(t, q),
        |t: TapeView, r: ReplyView|
            match r {
                ReplyView::Lines(x) => done(t, x),
                ReplyView::Failed(reason) => refuse(t, reason),
                _ => refuse(t, MISMATCH@),
            },
    )
}

fn mismatch() -> (r: Halt)
    ensures
        r.deep_view() == HaltView::Refused(MISMATCH@),
{
    Halt::Refused(MISMATCH.to_owned())
}

impl Tape {
    /// A tape with the given replies, to run a workflow over.
    pub fn new(replies: Vec<Reply>) -> (r: Tape)
        ensures
            r@ == (TapeView { replies: replies.deep_view(), asked: Seq::empty() }),
    {
        let asked: Vec<Request> = Vec::new();
        assert(asked.deep_view() =~= Seq::<RequestView>::empty());
        Tape { replies, asked }
    }

    /// Puts a request and reads its reply.
    pub fn reply(&mut self, q: Request) -> (r: Result<Reply, Halt>)
        ensures
            (final(self)@, outcome(r)) == ask(old(self)@, q.deep_view()),
    {
        let i = self.asked.len();
        crate::data::put(&mut self.asked, q);
        if i < self.replies.len() {
            Ok(self.replies[i].duplicate())
        } else {
            Err(Halt::Pending)
        }
    }

    pub fn unit(&mut self, q: Request) -> (r: Result<(), Halt>)
        ensures
            (final(self)@, outcome(r)) == ask_unit(old(self)@, q.deep_view()),
    {
        match self.reply(q)? {
            Reply::Done => Ok(()),
            Reply::Failed(reason) => Err(Halt::Refused(reason)),
            _ => Err(mismatch()),
        }
    }

    pub fn flag(&mut self, q: Request) -> (r: Result<bool, Halt>)
        ensures
            (final(self)@, outcome(r)) == ask_flag(old(self)@, q.deep_view()),
    {
        match self.reply(q)? {
            Reply::Flag(x) => Ok(x),
            Reply::Failed(reason) => Err(Halt::Refused(reason)),
            _ => Err(mismatch()),
        }
    }

    pub fn object(&mut self, q: Request) -> (r: Result<Oid, Halt>)
        ensures
            (final(self)@, outcome(r)) == ask_object(old(self)@, q.deep_view()),
    {
        match self.reply(q)? {
            Reply::Object(x) => Ok(x),
            Reply::Failed(reason) => Err(Halt::Refused(reason)),
            _ => Err(mismatch()),
        }
    }

    pub fn maybe_object(&mut self, q: Request) -> (r: Result<Option<Oid>, Halt>)
        ensures
            (final(self)@, outcome(r)) == ask_maybe_object(old(self)@, q.deep_view()),
    {
        match self.reply(q)? {
            Reply::MaybeObject(x) => Ok(x),
            Reply::Failed(reason) => Err(Halt::Refused(reason)),
            _ => Err(mismatch()),
        }
    }

    pub fn objects(&mut self, q: Request) -> (r: Result<Vec<Oid>, Halt>)
        ensures
            (final(self)@, outcome(r)) == ask_objects(old(self)@, q.deep_view()),
    {
        match self.reply(q)? {
            Reply::Objects(x) => Ok(x),
            Reply::Failed(reason) => Err(Halt::Refused(reason)),
            _ => Err(mismatch()),
        }
    }

    pub fn number(&mut self, q: Request) -> (r: Result<u64, Halt>)
        ensures
            (final(self)@, outcome(r)) == ask_number(old(self)@, q.deep_view()),
    {
        match self.reply(q)? {
            Reply::Number(x) => Ok(x),
            Reply::Failed(reason) => Err(Halt::Refused(reason)),
            _ => Err(mismatch()),
        }
    }

    pub fn text(&mut self, q: Request) -> (r: Result<String, Halt>)
        ensures
            (final(self)@, outcome(r)) == ask_text(old(self)@, q.deep_view()),
    {
        match self.reply(q)? {
            Reply::Text(x) => Ok(x),
            Reply::Failed(reason) => Err(Halt::Refused(reason)),
            _ => Err(mismatch()),
        }
    }

    pub fn pr(&mut self, q: Request) -> (r: Result<PullRequest, Halt>)
        ensures
            (final(self)@, outcome(r)) == ask_pr(old(self)@, q.deep_view()),
    {
        match self.reply(q)? {
            Reply::Pr(x) => Ok(x),
            Reply::Failed(reason) => Err(Halt::Refused(reason)),
            _ => Err(mismatch()),
        }
    }

    pub fn maybe_pr(&mut self, q: Request) -> (r: Result<Option<PullRequest>, Halt>)
        ensures
            (final(self)@, outcome(r)) == ask_maybe_pr(old(self)@, q.deep_view()),
    {
        match self.reply(q)? {
            Reply::MaybePr(x) => Ok(x),
            Reply::Failed(reason) => Err(Halt::Refused(reason)),
            _ => Err(mismatch()),
        }
    }

    pub fn merge(&mut self, q: Request) -> (r: Result<Merge, Halt>)
        ensures
            (final(self)@, outcome(r)) == ask_merge(old(self)@, q.deep_view()),
    {
        match self.reply(q)? {
            Reply::Merged(x) => Ok(x),
            Reply::Failed(reason) => Err(Halt::Refused(reason)),
            _ => Err(mismatch()),
        }
    }

    pub fn protection(&mut self, q: Request) -> (r: Result<Option<Protection>, Halt>)
        ensures
            (final(self)@, outcome(r)) == ask_protection(old(self)@, q.deep_view()),
    {
        match self.reply(q)? {
            Reply::Protected(x) => Ok(x),
            Reply::Failed(reason) => Err(Halt::Refused(reason)),
            _ => Err(mismatch()),
        }
    }

    pub fn settings(&mut self, q: Request) -> (r: Result<RepoMergeSettings, Halt>)
        ensures
            (final(self)@, outcome(r)) == ask_settings(old(self)@, q.deep_view()),
    {
        match self.reply(q)? {
            Reply::Settings(x) => Ok(x),
            Reply::Failed(reason) => Err(Halt::Refused(reason)),
            _ => Err(mismatch()),
        }
    }

    pub fn comments(&mut self, q: Request) -> (r: Result<Vec<Comment>, Halt>)
        ensures
            (final(self)@, outcome(r)) == ask_comments(old(self)@, q.deep_view()),
    {
        match self.reply(q)? {
            Reply::Comments(x) => Ok(x),
            Reply::Failed(reason) => Err(Halt::Refused(reason)),
            _ => Err(mismatch()),
        }
    }

    pub fn stacks(&mut self, q: Request) -> (r: Result<Vec<(u64, Vec<u64>)>, Halt>)
        ensures
            (final(self)@, outcome(r)) == ask_stacks(old(self)@, q.deep_view()),
    {
        match self.reply(q)? {
            Reply::Stacks(x) => Ok(x),
            Reply::Failed(reason) => Err(Halt::Refused(reason)),
            _ => Err(mismatch()),
        }
    }

    pub fn listed(&mut self, q: Request) -> (r: Result<Vec<ListedPr>, Halt>)
        ensures
            (final(self)@, outcome(r)) == ask_listed(old(self)@, q.deep_view()),
    {
        match self.reply(q)? {
            Reply::Listed(x) => Ok(x),
            Reply::Failed(reason) => Err(Halt::Refused(reason)),
            _ => Err(mismatch()),
        }
    }

    pub fn lines(&mut self, q: Request) -> (r: Result<Vec<(char, String)>, Halt>)
        ensures
            (final(self)@, outcome(r)) == ask_lines(old(self)@, q.deep_view()),
    {
        match self.reply(q)? {
            Reply::Lines(x) => Ok(x),
            Reply::Failed(reason) => Err(Halt::Refused(reason)),
            _ => Err(mismatch()),
        }
    }
}

/// A push, where there is anything to push.
pub open spec fn push_any(t: TapeView, specs: Seq<forge::PushView>) -> (
    TapeView,
    Result<(), HaltView>,
) {
    if specs.len() > 0 {
        ask_unit(t, RequestView::Push { specs })
    } else {
        done(t, ())
    }
}

impl Tape {
    /// Pushes, where there is anything to push.
    pub fn push_if_any(&mut self, specs: &Vec<PushSpec>) -> (r: Result<(), Halt>)
        ensures
            (final(self)@, outcome(r)) == push_any(old(self)@, specs.deep_view()),
    {
        assert(specs.deep_view().len() == specs@.len());
        if specs.len() > 0 {
            self.unit(Request::Push { specs: specs.duplicate() })
        } else {
            Ok(())
        }
    }
}

/// A part of a workflow whose refusal is explained.
pub open spec fn explained<A>(part: (TapeView, Result<A, HaltView>), context: Seq<char>) -> (
    TapeView,
    Result<A, HaltView>,
) {
    match part.1 {
        Err(HaltView::Refused(reason)) => (
            part.0,
            Err(HaltView::Refused(context + ": "@ + reason)),
        ),
        _ => part,
    }
}

/// Explains a refusal.
pub fn explain(h: Halt, context: &str) -> (r: Halt)
    ensures
        r.deep_view() == (match h.deep_view() {
            HaltView::Refused(reason) => HaltView::Refused(context@ + ": "@ + reason),
            HaltView::Pending => HaltView::Pending,
        }),
{
    match h {
        Halt::Refused(reason) => {
            let mut text = context.to_owned();
            text.append(": ");
            text.append(reason.as_str());
            Halt::Refused(text)
        },
        Halt::Pending => Halt::Pending,
    }
}

/// A part of a workflow that may refuse without harm: its result, if it has one.
pub open spec fn tolerated<A>(part: (TapeView, Result<A, HaltView>)) -> (
    TapeView,
    Result<Option<A>, HaltView>,
) {
    match part.1 {
        Ok(a) => (part.0, Ok(Some(a))),
        Err(HaltView::Refused(_)) => (part.0, Ok(None)),
        Err(HaltView::Pending) => (part.0, Err(HaltView::Pending)),
    }
}

/// Passes over a refusal, but not over a reply that is still to come.
pub fn tolerate<T>(part: Result<T, Halt>) -> (r: Result<Option<T>, Halt>)
    ensures
        match part {
            Ok(x) => r == Ok::<Option<T>, Halt>(Some(x)),
            Err(Halt::Refused(_)) => r == Ok::<Option<T>, Halt>(None),
            Err(Halt::Pending) => r == Err::<Option<T>, Halt>(Halt::Pending),
        },
{
    match part {
        Ok(x) => Ok(Some(x)),
        Err(Halt::Refused(_)) => Ok(None),
        Err(Halt::Pending) => Err(Halt::Pending),
    }
}

/// A request that changes something on the forge.
pub open spec fn touches_forge(q: RequestView) -> bool {
    match q {
        RequestView::CreatePullRequest { .. } => true,
        RequestView::UpdatePullRequest { .. } => true,
        RequestView::TryUpdatePullRequest { .. } => true,
        RequestView::MergePullRequest { .. } => true,
        RequestView::SetDraft { .. } => true,
        RequestView::Push { .. } => true,
        RequestView::CreateComment { .. } => true,
        RequestView::UpdateComment { .. } => true,
        RequestView::DeleteComment { .. } => true,
        RequestView::SyncStacks { .. } => true,
        RequestView::CreateStack { .. } => true,
        RequestView::ExtendStack { .. } => true,
        RequestView::Unstack { .. } => true,
        RequestView::SendUpdate { .. } => true,
        _ => false,
    }
}

/// A request that moves the local checkout, a branch or another reference.
pub open spec fn touches_local(q: RequestView) -> bool {
    match q {
        RequestView::PostRewrite { .. } => true,
        RequestView::MoveHead { .. } => true,
        RequestView::CheckoutHead { .. } => true,
        RequestView::CheckoutBranch { .. } => true,
        RequestView::SetReference { .. } => true,
        RequestView::DeleteReference { .. } => true,
        _ => false,
    }
}

/// From one point of a conversation to another, only requests of the given kind
/// were made.
pub open spec fn only(from: TapeView, to: TapeView, allowed: spec_fn(RequestView) -> bool) -> bool {
    &&& to.replies == from.replies
    &&& from.asked.len() <= to.asked.len()
    &&& forall|k: int| 0 <= k < from.asked.len() ==> #[trigger] to.asked[k] == from.asked[k]
    &&& forall|k: int| from.asked.len() <= k < to.asked.len() ==> allowed(#[trigger] to.asked[k])
}

/// Requests are allowed that change neither the forge nor the local repository.
pub open spec fn may_look(allowed: spec_fn(RequestView) -> bool) -> bool {
    forall|q: RequestView| !touches_forge(q) && !touches_local(q) ==> #[trigger] allowed(q)
}

/// Requests are allowed that do not change the forge.
pub open spec fn may_write(allowed: spec_fn(RequestView) -> bool) -> bool {
    forall|q: RequestView| !touches_forge(q) ==> #[trigger] allowed(q)
}

/// Where nothing was asked, nothing else was.
pub proof fn lemma_only_start(t: TapeView, allowed: spec_fn(RequestView) -> bool)
    ensures
        only(t, t, allowed),
{
}

/// One more request of the kind.
pub broadcast proof fn lemma_only_ask(
    from: TapeView,
    t: TapeView,
    q: RequestView,
    allowed: spec_fn(RequestView) -> bool,
)
    requires
        #[trigger] only(from, t, allowed),
        allowed(q),
    ensures
        only(from, (#[trigger] ask(t, q)).0, allowed),
{
    let after = ask(t, q).0;
    assert forall|k: int| 0 <= k < from.asked.len() implies #[trigger] after.asked[k]
        == from.asked[k] by {
        assert(t.asked[k] == from.asked[k]);
    }
    assert forall|k: int| from.asked.len() <= k < after.asked.len() implies allowed(
        #[trigger] after.asked[k],
    ) by {
        if k < t.asked.len() {
            assert(allowed(t.asked[k]));
        }
    }
}

/// A request that keeps pull requests up to date: it opens and merges none, closes and
/// reopens none, and pushes nothing.
pub open spec fn follows_up(q: RequestView) -> bool {
    match q {
        RequestView::UpdatePullRequest { number, update } => update.state is None,
        RequestView::SetDraft { .. } => true,
        RequestView::SyncStacks { .. } => true,
        _ => !touches_forge(q),
    }
}

/// Requests are allowed that keep pull requests up to date.
pub open spec fn may_follow_up(allowed: spec_fn(RequestView) -> bool) -> bool {
    forall|q: RequestView| follows_up(q) ==> #[trigger] allowed(q)
}

/// Requests are allowed other than pushes.
pub open spec fn may_do_all_but_push(allowed: spec_fn(RequestView) -> bool) -> bool {
    forall|q: RequestView| !(q is Push) ==> #[trigger] allowed(q)
}

/// A request was made and got the reply.
pub open spec fn told(t: TapeView, q: RequestView, r: ReplyView) -> bool {
    exists|k: int|
        0 <= k < t.asked.len() && k < t.replies.len() && #[trigger] t.asked[k] == q && t.replies[k]
            == r
}

/// A request with its reply says which tree a commit has: the commit was made of
/// it, or its tree was asked for.
pub open spec fn says_tree(q: RequestView, r: ReplyView, commit: Oid, tree: Oid) -> bool {
    match q {
        RequestView::DeriveCommit { tree: given, .. } => given == tree && r == ReplyView::Object(
            commit,
        ),
        RequestView::TreeOf { commit: asked } => asked == commit && r == ReplyView::Object(tree),
        _ => false,
    }
}

/// The conversation says which tree a commit has.
pub open spec fn bears(t: TapeView, commit: Oid, tree: Oid) -> bool {
    exists|k: int|
        0 <= k < t.asked.len() && k < t.replies.len() && says_tree(
            #[trigger] t.asked[k],
            t.replies[k],
            commit,
            tree,
        )
}

/// What was said stays said.
pub proof fn lemma_said_stays(from: TapeView, to: TapeView, allowed: spec_fn(RequestView) -> bool)
    requires
        only(from, to, allowed),
    ensures
        forall|q: RequestView, r: ReplyView| told(from, q, r) ==> #[trigger] told(to, q, r),
        forall|commit: Oid, tree: Oid|
            bears(from, commit, tree) ==> #[trigger] bears(to, commit, tree),
{
    assert forall|q: RequestView, r: ReplyView| told(from, q, r) implies #[trigger] told(to, q, r) by {
        let k = choose|k: int|
            0 <= k < from.asked.len() && k < from.replies.len() && #[trigger] from.asked[k] == q
                && from.replies[k] == r;
        assert(to.asked[k] == q);
    }
    assert forall|commit: Oid, tree: Oid| bears(from, commit, tree) implies #[trigger] bears(
        to,
        commit,
        tree,
    ) by {
        let k = choose|k: int|
            0 <= k < from.asked.len() && k < from.replies.len() && says_tree(
                #[trigger] from.asked[k],
                from.replies[k],
                commit,
                tree,
            );
        assert(says_tree(to.asked[k], to.replies[k], commit, tree));
    }
}

/// A request that got a reply was told it.
pub proof fn lemma_told(t: TapeView, q: RequestView)
    requires
        t.asked.len() < t.replies.len(),
    ensures
        told(ask(t, q).0, q, t.replies[t.asked.len() as int]),
        forall|commit: Oid, tree: Oid|
            says_tree(q, t.replies[t.asked.len() as int], commit, tree) ==> #[trigger] bears(
                ask(t, q).0,
                commit,
                tree,
            ),
{
    let k = t.asked.len() as int;
    let after = ask(t, q).0;
    assert(after.asked[k] == q);
}

/// Requests are allowed other than pushes and merges.
pub open spec fn may_do_all_but_push_and_merge(allowed: spec_fn(RequestView) -> bool) -> bool {
    forall|q: RequestView| !(q is Push) && !(q is MergePullRequest) ==> #[trigger] allowed(q)
}

/// One stretch of a conversation after another.
pub proof fn lemma_only_trans(
    from: TapeView,
    mid: TapeView,
    to: TapeView,
    allowed: spec_fn(RequestView) -> bool,
)
    requires
        only(from, mid, allowed),
        only(mid, to, allowed),
    ensures
        only(from, to, allowed),
{
    assert forall|k: int| 0 <= k < from.asked.len() implies #[trigger] to.asked[k]
        == from.asked[k] by {
        assert(to.asked[k] == mid.asked[k]);
    }
    assert forall|k: int| from.asked.len() <= k < to.asked.len() implies allowed(
        #[trigger] to.asked[k],
    ) by {
        if k < mid.asked.len() {
            assert(to.asked[k] == mid.asked[k]);
        }
    }
}

} // verus!
