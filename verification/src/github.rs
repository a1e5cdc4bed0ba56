//! What GitHub's answers mean, and what is sent to it.
//!
//! Talking to GitHub is left to the caller. A reply that carries both data and
//! errors is good as long as the data that is needed came back: one unreadable
//! field should not cost the user their command.

use vstd::prelude::*;

use crate::data::{has_number, nothing, put, Duplicate};
use crate::execution;
use crate::forge::{
    Comment, CommentView, ListedPr, ListedView, MergeState, Mergeable, PrState, Protection,
    PullRequest, PullRequestUpdate, PrView, PushSpec, PushView, RepoMergeSettings, ReviewDecision,
    UpdateView,
};
use crate::oid;
use crate::oid::Oid;
use crate::paint;
use crate::paint::Paint;
use crate::tape;
use crate::tape::{Halt, HaltView, Reply, ReplyView, Request, RequestView, Tape, TapeView};
use crate::text;
use crate::text::{join_texts, push_decimal, same};

verus! {

/// The refspec of a push: a leading `+` allows anything, and without it the
/// remote rejects what is not a fast-forward.
pub open spec fn refspec_of(spec: PushView) -> Seq<char> {
    match spec.oid {
        None => ":refs/heads/"@ + spec.branch,
        Some(o) => if spec.force {
            "+"@ + oid::oid_hex(o) + ":refs/heads/"@ + spec.branch
        } else {
            oid::oid_hex(o) + ":refs/heads/"@ + spec.branch
        },
    }
}

/// Writes a push as a refspec.
///
/// `force` is honoured by *omitting* the leading `+`: the remote then rejects
/// anything that is not a fast-forward, which is what everything but rewriting
/// relies on. Refusing here instead would only catch the cases that are already
/// known.
pub fn refspec(spec: &PushSpec) -> (r: String)
    ensures
        r@ == refspec_of(spec.deep_view()),
{
    match spec.oid {
        None => {
            let mut out = ":refs/heads/".to_owned();
            out.append(spec.branch.as_str());
            out
        },
        Some(o) => if spec.force {
            let mut out = "+".to_owned();
            out.append(o.text().as_str());
            out.append(":refs/heads/");
            out.append(spec.branch.as_str());
            out
        } else {
            let mut out = o.text();
            out.append(":refs/heads/");
            out.append(spec.branch.as_str());
            out
        },
    }
}

/// A push is forced exactly if its refspec starts with `+`.
pub proof fn law_only_forced_pushes_get_a_plus(spec: PushView)
    ensures
        text::starts_with(refspec_of(spec), "+"@) <==> spec.oid is Some && spec.force,
{
    reveal_strlit("+");
    reveal_strlit(":refs/heads/");
    let r = refspec_of(spec);
    match spec.oid {
        None => {
            assert(r[0] == ':');
            assert(r.take(1)[0] == ':');
        },
        Some(o) => {
            if spec.force {
                assert(r.take(1) =~= "+"@);
            } else {
                oid::law_oid_round_trip(o);
                let hex = oid::oid_hex(o);
                assert(r[0] == hex[0]);
                assert(text::is_hex_digit(hex[0]));
                assert(r.take(1)[0] == hex[0]);
            }
        },
    }
}

/// How a branch is named to the user.
pub open spec fn push_target(spec: PushView) -> Seq<char> {
    match spec.label {
        Some(label) => label,
        None => spec.branch,
    }
}

/// What a push is for, from the `k`th of several on.
pub open spec fn context_from(specs: Seq<PushView>, k: int) -> Option<Seq<char>>
    decreases specs.len() - k,
{
    if k < 0 || k >= specs.len() {
        None
    } else if specs[k].context is Some {
        specs[k].context
    } else {
        context_from(specs, k + 1)
    }
}

/// Some push has a label or says what it is for.
pub open spec fn has_metadata(specs: Seq<PushView>) -> bool {
    exists|k: int|
        0 <= k < specs.len() && ((#[trigger] specs[k]).label is Some || specs[k].context is Some)
}

/// What a push is called, if there is more to say than its refspecs.
pub open spec fn push_described(specs: Seq<PushView>) -> Option<Seq<char>> {
    let targets = text::join(specs.map_values(|s: PushView| push_target(s)), ", "@);
    if !has_metadata(specs) {
        None
    } else {
        match context_from(specs, 0) {
            Some(context) => Some("push ("@ + context + "): "@ + targets),
            None => Some("push: "@ + targets),
        }
    }
}

/// Describes a push by the labels of its branches and by what it is for.
pub fn describe_push(specs: &Vec<PushSpec>) -> (r: Option<String>)
    ensures
        r.deep_view() == push_described(specs.deep_view()),
{
    let ghost v = specs.deep_view();
    let mut targets: Vec<String> = Vec::new();
    let mut context: Option<String> = None;
    let mut labelled = false;
    let mut k: usize = 0;
    while k < specs.len()
        invariant
            k <= specs@.len(),
            v == specs.deep_view(),
            v.len() == specs@.len(),
            targets@.len() == k,
            forall|m: int| 0 <= m < k ==> (#[trigger] targets@[m])@ == push_target(v[m]),
            labelled == exists|m: int|
                0 <= m < k && ((#[trigger] v[m]).label is Some || v[m].context is Some),
            context_from(v, 0) == (match context {
                Some(c) => Some(c@),
                None => context_from(v, k as int),
            }),
            context is Some ==> labelled,
        decreases specs@.len() - k,
    {
        let spec = &specs[k];
        assert(v[k as int] == spec.deep_view());
        match &spec.label {
            Some(label) => {
                labelled = true;
                targets.push(label.clone());
            },
            None => {
                targets.push(spec.branch.clone());
            },
        }
        match &spec.context {
            Some(c) => {
                labelled = true;
                if context.is_none() {
                    context = Some(c.clone());
                }
            },
            None => {},
        }
        k = k + 1;
    }
    if !labelled {
        return None;
    }
    assert(text::views(targets@) =~= v.map_values(|s: PushView| push_target(s)));
    let all = join_texts(&targets, ", ");
    match context {
        Some(c) => {
            let mut out = "push (".to_owned();
            out.append(c.as_str());
            out.append("): ");
            out.append(all.as_str());
            Some(out)
        },
        None => {
            let mut out = "push: ".to_owned();
            out.append(all.as_str());
            Some(out)
        },
    }
}

/// What GitHub's name of a state means.
pub open spec fn state_meant(state: Seq<char>) -> PrState {
    if state == "OPEN"@ {
        PrState::Open
    } else if state == "MERGED"@ {
        PrState::Merged
    } else {
        PrState::Closed
    }
}

pub fn pr_state_from(state: &str) -> (r: PrState)
    ensures
        r == state_meant(state@),
{
    if same(state, "OPEN") {
        PrState::Open
    } else if same(state, "MERGED") {
        PrState::Merged
    } else {
        PrState::Closed
    }
}

/// What GitHub's verdict on mergeability means. One that is still being computed
/// is no verdict.
pub open spec fn mergeable_meant(mergeable: Option<Seq<char>>) -> Mergeable {
    if mergeable == Some("MERGEABLE"@) {
        Mergeable::Mergeable
    } else if mergeable == Some("CONFLICTING"@) {
        Mergeable::Conflicting
    } else {
        Mergeable::Unknown
    }
}

pub fn mergeable_from(mergeable: Option<&str>) -> (r: Mergeable)
    ensures
        r == mergeable_meant(text::view_of(mergeable)),
{
    match mergeable {
        Some(m) => if same(m, "MERGEABLE") {
            Mergeable::Mergeable
        } else if same(m, "CONFLICTING") {
            Mergeable::Conflicting
        } else {
            Mergeable::Unknown
        },
        None => Mergeable::Unknown,
    }
}

/// What GitHub's name of a merge state means. A failing check that is not
/// required and a pre-receive hook still let a pull request be merged.
pub open spec fn merge_state_meant(status: Option<Seq<char>>) -> MergeState {
    if status == Some("CLEAN"@) || status == Some("UNSTABLE"@) || status == Some("HAS_HOOKS"@) {
        MergeState::Clean
    } else if status == Some("BEHIND"@) {
        MergeState::Behind
    } else if status == Some("BLOCKED"@) || status == Some("DRAFT"@) {
        MergeState::Blocked
    } else if status == Some("DIRTY"@) {
        MergeState::Dirty
    } else {
        MergeState::Unknown
    }
}

pub fn merge_state_from(status: Option<&str>) -> (r: MergeState)
    ensures
        r == merge_state_meant(text::view_of(status)),
{
    match status {
        Some(s) => if same(s, "CLEAN") || same(s, "UNSTABLE") || same(s, "HAS_HOOKS") {
            MergeState::Clean
        } else if same(s, "BEHIND") {
            MergeState::Behind
        } else if same(s, "BLOCKED") || same(s, "DRAFT") {
            MergeState::Blocked
        } else if same(s, "DIRTY") {
            MergeState::Dirty
        } else {
            MergeState::Unknown
        },
        None => MergeState::Unknown,
    }
}

/// What GitHub's name of a review decision means.
pub open spec fn decision_meant(s: Option<Seq<char>>) -> Option<ReviewDecision> {
    if s == Some("APPROVED"@) {
        Some(ReviewDecision::Approved)
    } else if s == Some("CHANGES_REQUESTED"@) {
        Some(ReviewDecision::ChangesRequested)
    } else if s == Some("REVIEW_REQUIRED"@) {
        Some(ReviewDecision::ReviewRequired)
    } else {
        None
    }
}

pub fn review_decision_from(s: Option<&str>) -> (r: Option<ReviewDecision>)
    ensures
        r == decision_meant(text::view_of(s)),
{
    match s {
        Some(s) => if same(s, "APPROVED") {
            Some(ReviewDecision::Approved)
        } else if same(s, "CHANGES_REQUESTED") {
            Some(ReviewDecision::ChangesRequested)
        } else if same(s, "REVIEW_REQUIRED") {
            Some(ReviewDecision::ReviewRequired)
        } else {
            None
        },
        None => None,
    }
}

/// A pull request among the results of a search.
#[derive(Debug, Clone)]
pub struct SearchPrNode {
    pub number: u64,
    pub title: String,
    pub state: String,
    pub is_draft: bool,
    pub base_ref_name: String,
    pub head_ref_name: String,
    pub review_decision: Option<String>,
    pub url: String,
}

#[verifier::ext_equal]
pub struct SearchView {
    pub number: u64,
    pub title: Seq<char>,
    pub state: Seq<char>,
    pub is_draft: bool,
    pub base_ref_name: Seq<char>,
    pub head_ref_name: Seq<char>,
    pub review_decision: Option<Seq<char>>,
    pub url: Seq<char>,
}

impl DeepView for SearchPrNode {
    type V = SearchView;

    open spec fn deep_view(&self) -> SearchView {
        SearchView {
            number: self.number,
            title: self.title@,
            state: self.state@,
            is_draft: self.is_draft,
            base_ref_name: self.base_ref_name@,
            head_ref_name: self.head_ref_name@,
            review_decision: self.review_decision.deep_view(),
            url: self.url@,
        }
    }
}

/// The result of a search as a listing shows it.
pub open spec fn listed_meant(node: SearchView) -> ListedView {
    ListedView {
        number: node.number,
        title: node.title,
        state: state_meant(node.state),
        draft: node.is_draft,
        base: node.base_ref_name,
        head: node.head_ref_name,
        review_decision: decision_meant(node.review_decision),
        url: node.url,
    }
}

pub fn listed_pr_from(node: SearchPrNode) -> (r: ListedPr)
    ensures
        r.deep_view() == listed_meant(node.deep_view()),
{
    let state = pr_state_from(node.state.as_str());
    let review_decision = match &node.review_decision {
        Some(s) => review_decision_from(Some(s.as_str())),
        None => None,
    };
    ListedPr {
        number: node.number,
        title: node.title,
        state,
        draft: node.is_draft,
        base: node.base_ref_name,
        head: node.head_ref_name,
        review_decision,
        url: node.url,
    }
}

/// The search for open pull requests, of one author or of all.
pub open spec fn open_query(owner: Seq<char>, repo: Seq<char>, author: Option<Seq<char>>) -> Seq<
    char,
> {
    match author {
        Some(login) => "repo:"@ + owner + "/"@ + repo + " is:pr is:open author:"@ + login
            + " archived:false"@,
        None => "repo:"@ + owner + "/"@ + repo + " is:pr is:open archived:false"@,
    }
}

pub fn open_prs_query(owner: &str, repo: &str, author: Option<&str>) -> (r: String)
    ensures
        r@ == open_query(owner@, repo@, text::view_of(author)),
{
    let mut query = "repo:".to_owned();
    query.append(owner);
    query.append("/");
    query.append(repo);
    match author {
        Some(login) => {
            query.append(" is:pr is:open author:");
            query.append(login);
            query.append(" archived:false");
        },
        None => {
            query.append(" is:pr is:open archived:false");
        },
    }
    query
}

/// The search for pull requests with a head branch.
pub open spec fn head_query_of(owner: Seq<char>, repo: Seq<char>, head: Seq<char>) -> Seq<char> {
    "repo:"@ + owner + "/"@ + repo + " is:pr head:\""@ + head + "\""@
}

pub fn head_query(owner: &str, repo: &str, head: &str) -> (r: String)
    ensures
        r@ == head_query_of(owner@, repo@, head@),
{
    let mut query = "repo:".to_owned();
    query.append(owner);
    query.append("/");
    query.append(repo);
    query.append(" is:pr head:\"");
    query.append(head);
    query.append("\"");
    query
}

/// The first open result from the `k`th on.
pub open spec fn open_from(nodes: Seq<SearchView>, k: int) -> Option<u64>
    decreases nodes.len() - k,
{
    if k < 0 || k >= nodes.len() {
        None
    } else if nodes[k].state == "OPEN"@ {
        Some(nodes[k].number)
    } else {
        open_from(nodes, k + 1)
    }
}

/// The pull request that is meant by a head branch: the first open one, or else
/// the first one.
pub open spec fn head_pr(nodes: Seq<SearchView>) -> Option<u64> {
    match open_from(nodes, 0) {
        Some(number) => Some(number),
        None => if nodes.len() > 0 {
            Some(nodes[0].number)
        } else {
            None
        },
    }
}

pub fn choose_by_head(nodes: &Vec<SearchPrNode>) -> (r: Option<u64>)
    ensures
        r == head_pr(nodes.deep_view()),
{
    let mut k: usize = 0;
    while k < nodes.len()
        invariant
            k <= nodes@.len(),
            open_from(nodes.deep_view(), k as int) == open_from(nodes.deep_view(), 0),
        decreases nodes@.len() - k,
    {
        assert(nodes.deep_view()[k as int] == nodes@[k as int].deep_view());
        if same(nodes[k].state.as_str(), "OPEN") {
            return Some(nodes[k].number);
        }
        k = k + 1;
    }
    assert(nodes.deep_view().len() == nodes@.len());
    if nodes.len() > 0 {
        assert(nodes.deep_view()[0] == nodes@[0].deep_view());
        Some(nodes[0].number)
    } else {
        None
    }
}

/// A pull request as GitHub describes it.
#[derive(Debug, Clone)]
pub struct PullRequestNode {
    pub id: String,
    pub number: u64,
    pub state: String,
    pub title: String,
    pub body: String,
    pub is_draft: bool,
    pub base_ref_name: String,
    pub head_ref_name: String,
    /// Current tip of the base branch, not the merge base.
    pub base_ref_oid: String,
    pub head_ref_oid: String,
    pub mergeable: Option<String>,
    pub merge_state_status: Option<String>,
    /// Auto-merge is armed.
    pub auto_merge_request: bool,
}

#[verifier::ext_equal]
pub struct NodeView {
    pub id: Seq<char>,
    pub number: u64,
    pub state: Seq<char>,
    pub title: Seq<char>,
    pub body: Seq<char>,
    pub is_draft: bool,
    pub base_ref_name: Seq<char>,
    pub head_ref_name: Seq<char>,
    pub base_ref_oid: Seq<char>,
    pub head_ref_oid: Seq<char>,
    pub mergeable: Option<Seq<char>>,
    pub merge_state_status: Option<Seq<char>>,
    pub auto_merge_request: bool,
}

impl DeepView for PullRequestNode {
    type V = NodeView;

    open spec fn deep_view(&self) -> NodeView {
        NodeView {
            id: self.id@,
            number: self.number,
            state: self.state@,
            title: self.title@,
            body: self.body@,
            is_draft: self.is_draft,
            base_ref_name: self.base_ref_name@,
            head_ref_name: self.head_ref_name@,
            base_ref_oid: self.base_ref_oid@,
            head_ref_oid: self.head_ref_oid@,
            mergeable: self.mergeable.deep_view(),
            merge_state_status: self.merge_state_status.deep_view(),
            auto_merge_request: self.auto_merge_request,
        }
    }
}

#[derive(Debug, Clone)]
pub struct RepositoryNode {
    pub pull_request: Option<PullRequestNode>,
}

#[derive(Debug, Clone)]
pub struct QueryData {
    pub repository: Option<RepositoryNode>,
}

/// The envelope of a reply.
#[derive(Debug, Clone)]
pub struct GqlResponse {
    pub data: Option<QueryData>,
    /// The messages of the errors.
    pub errors: Vec<String>,
}

/// What is said about errors: `": a; b"`, or nothing at all when there is
/// nothing to report.
pub open spec fn errors_said(errors: Seq<Seq<char>>) -> Seq<char> {
    if errors.len() == 0 {
        Seq::empty()
    } else {
        ": "@ + text::join(errors, "; "@)
    }
}

pub fn error_suffix(errors: &Vec<String>) -> (r: String)
    ensures
        r@ == errors_said(errors.deep_view()),
{
    assert(errors.deep_view().len() == errors@.len());
    if errors.len() == 0 {
        let none = String::new();
        assert(none@ =~= Seq::<char>::empty());
        return none;
    }
    assert(text::views(errors@) =~= errors.deep_view());
    let mut out = ": ".to_owned();
    out.append(join_texts(errors, "; ").as_str());
    out
}

/// The pull request in a reply, or what is missing.
pub open spec fn node_in(response: GqlResponse, number: u64) -> Result<NodeView, Seq<char>> {
    let suffix = errors_said(response.errors.deep_view());
    match response.data {
        None => Err(
            "GitHub's reply had no `data` member"@ + suffix
                + ". Unless GitHub is having an outage this is an nspr bug: the GraphQL envelope was not the shape we expected."@,
        ),
        Some(data) => match data.repository {
            None => Err(
                "GitHub did not return the repository"@ + suffix
                    + ". Check that the remote points where you think it does and that your token can read it."@,
            ),
            Some(repository) => match repository.pull_request {
                None => Err(
                    "GitHub has no pull request #"@ + text::decimal(number as nat)
                        + " in this repository"@ + suffix
                        + ". Check the `Pull-Request:` trailer on the commit."@,
                ),
                Some(node) => Ok(node.deep_view()),
            },
        },
    }
}

/// Pulls the pull request out of a reply, tolerating errors that left it intact.
///
/// The envelope is peeled one level at a time because the levels fail for
/// different reasons and only one of them is the user's fault.
pub fn pull_request_node(response: GqlResponse, number: u64) -> (r: Result<PullRequestNode, String>)
    ensures
        match r {
            Ok(node) => node_in(response, number) == Ok::<NodeView, Seq<char>>(node.deep_view()),
            Err(reason) => node_in(response, number) == Err::<NodeView, Seq<char>>(reason@),
        },
{
    let suffix = error_suffix(&response.errors);
    match response.data {
        None => {
            let mut reason = "GitHub's reply had no `data` member".to_owned();
            reason.append(suffix.as_str());
            reason.append(
                ". Unless GitHub is having an outage this is an nspr bug: the GraphQL envelope was not the shape we expected.",
            );
            Err(reason)
        },
        Some(data) => match data.repository {
            None => {
                let mut reason = "GitHub did not return the repository".to_owned();
                reason.append(suffix.as_str());
                reason.append(
                    ". Check that the remote points where you think it does and that your token can read it.",
                );
                Err(reason)
            },
            Some(repository) => match repository.pull_request {
                None => {
                    let mut reason = "GitHub has no pull request #".to_owned();
                    push_decimal(&mut reason, number);
                    reason.append(" in this repository");
                    reason.append(suffix.as_str());
                    reason.append(". Check the `Pull-Request:` trailer on the commit.");
                    Err(reason)
                },
                Some(node) => Ok(node),
            },
        },
    }
}

/// The error of a reply without data to a search.
pub open spec fn search_failed(errors: Seq<Seq<char>>, query: Seq<char>) -> Seq<char> {
    "GitHub's reply had no `data` member"@ + errors_said(errors) + ". Search query: "@ + query
}

pub fn search_error(errors: &Vec<String>, query: &str) -> (r: String)
    ensures
        r@ == search_failed(errors.deep_view(), query@),
{
    let mut reason = "GitHub's reply had no `data` member".to_owned();
    reason.append(error_suffix(errors).as_str());
    reason.append(". Search query: ");
    reason.append(query);
    reason
}

/// The pull request that GitHub describes, with the given tips.
pub open spec fn pr_meant(node: NodeView, base_oid: Oid, head_oid: Oid) -> PrView {
    PrView {
        number: node.number,
        node_id: node.id,
        state: state_meant(node.state),
        title: node.title,
        body: node.body,
        base: node.base_ref_name,
        head: node.head_ref_name,
        base_oid,
        head_oid,
        mergeable: mergeable_meant(node.mergeable),
        merge_state: merge_state_meant(node.merge_state_status),
        auto_merge: node.auto_merge_request,
        draft: node.is_draft,
    }
}

/// The error of a tip that is no object name.
pub open spec fn bad_oid(text: Seq<char>) -> Seq<char> {
    "`"@ + text + "` is not the name of a git object"@
}

fn read_tip(name: &str) -> (r: Result<Oid, String>)
    ensures
        match r {
            Ok(o) => oid::names_object(name@) && oid::oid_value(o) == oid::hex_value(
                oid::filled(name@),
            ),
            Err(reason) => !oid::names_object(name@) && reason@ == bad_oid(name@),
        },
{
    match Oid::parse(name) {
        Some(o) => Ok(o),
        None => {
            let mut reason = "`".to_owned();
            reason.append(name);
            reason.append("` is not the name of a git object");
            Err(reason)
        },
    }
}

/// Reads a pull request as GitHub describes it.
pub fn pull_request_from(node: PullRequestNode) -> (r: Result<PullRequest, String>)
    ensures
        match r {
            Ok(pr) => {
                &&& oid::names_object(node.base_ref_oid@)
                &&& oid::names_object(node.head_ref_oid@)
                &&& oid::oid_value(pr.base_oid) == oid::hex_value(oid::filled(node.base_ref_oid@))
                &&& oid::oid_value(pr.head_oid) == oid::hex_value(oid::filled(node.head_ref_oid@))
                &&& pr@ == pr_meant(node.deep_view(), pr.base_oid, pr.head_oid)
            },
            Err(reason) => if !oid::names_object(node.base_ref_oid@) {
                reason@ == bad_oid(node.base_ref_oid@)
            } else {
                !oid::names_object(node.head_ref_oid@) && reason@ == bad_oid(node.head_ref_oid@)
            },
        },
{
    let base_oid = match read_tip(node.base_ref_oid.as_str()) {
        Ok(o) => o,
        Err(reason) => {
            return Err(reason);
        },
    };
    let head_oid = match read_tip(node.head_ref_oid.as_str()) {
        Ok(o) => o,
        Err(reason) => {
            return Err(reason);
        },
    };
    let mergeable = match &node.mergeable {
        Some(m) => mergeable_from(Some(m.as_str())),
        None => Mergeable::Unknown,
    };
    let merge_state = match &node.merge_state_status {
        Some(s) => merge_state_from(Some(s.as_str())),
        None => MergeState::Unknown,
    };
    Ok(
        PullRequest {
            number: node.number,
            node_id: node.id,
            state: pr_state_from(node.state.as_str()),
            title: node.title,
            body: node.body,
            base: node.base_ref_name,
            head: node.head_ref_name,
            base_oid,
            head_oid,
            mergeable,
            merge_state,
            auto_merge: node.auto_merge_request,
            draft: node.is_draft,
        },
    )
}

/// What to make of a merge that was declined with a status.
pub open spec fn advice(status: Option<u16>) -> Seq<char> {
    if status == Some(409u16) {
        "the head branch moved since nspr read it, or the pull request no longer merges cleanly. Run `nspr diff`, then try again."@
    } else if status == Some(405u16) {
        "GitHub declined: squash merging may be disabled for this repository, or a required review or check is still outstanding."@
    } else {
        "the merge request failed."@
    }
}

/// The error of a merge that was declined.
pub open spec fn merge_declined(number: u64, status: Option<u16>) -> Seq<char> {
    "could not squash-merge #"@ + text::decimal(number as nat) + ": "@ + advice(status)
}

pub fn merge_error(number: u64, status: Option<u16>) -> (r: String)
    ensures
        r@ == merge_declined(number, status),
{
    let mut reason = "could not squash-merge #".to_owned();
    push_decimal(&mut reason, number);
    reason.append(": ");
    match status {
        Some(code) => if code == 409 {
            reason.append(
                "the head branch moved since nspr read it, or the pull request no longer merges cleanly. Run `nspr diff`, then try again.",
            );
        } else if code == 405 {
            reason.append(
                "GitHub declined: squash merging may be disabled for this repository, or a required review or check is still outstanding.",
            );
        } else {
            reason.append("the merge request failed.");
        },
        None => {
            reason.append("the merge request failed.");
        },
    }
    reason
}

/// The error of a merge that did not happen.
pub open spec fn not_merged(number: u64, message: Option<Seq<char>>) -> Seq<char> {
    "GitHub did not merge #"@ + text::decimal(number as nat) + ": "@ + (match message {
        Some(message) => message,
        None => "no reason given"@,
    })
}

/// The error of a merge whose commit is not known.
pub open spec fn merged_unseen(number: u64) -> Seq<char> {
    "#"@ + text::decimal(number as nat)
        + " was merged but GitHub did not report the resulting commit, so the dependent branches cannot be repaired. Run `nspr sync`."@
}

/// Reads the answer to a merge request: the commit on the trunk.
pub fn merge_result(number: u64, merged: bool, message: Option<String>, sha: Option<String>) -> (r:
    Result<Oid, String>)
    ensures
        match r {
            Ok(o) => merged && sha is Some && oid::names_object(sha->0@) && oid::oid_value(o)
                == oid::hex_value(oid::filled(sha->0@)),
            Err(reason) => if !merged {
                reason@ == not_merged(number, message.deep_view())
            } else if sha is None {
                reason@ == merged_unseen(number)
            } else {
                !oid::names_object(sha->0@) && reason@ == bad_oid(sha->0@)
            },
        },
{
    if !merged {
        let mut reason = "GitHub did not merge #".to_owned();
        push_decimal(&mut reason, number);
        reason.append(": ");
        match &message {
            Some(message) => {
                reason.append(message.as_str());
            },
            None => {
                reason.append("no reason given");
            },
        }
        return Err(reason);
    }
    match &sha {
        None => {
            let mut reason = "#".to_owned();
            push_decimal(&mut reason, number);
            reason.append(
                " was merged but GitHub did not report the resulting commit, so the dependent branches cannot be repaired. Run `nspr sync`.",
            );
            Err(reason)
        },
        Some(sha) => read_tip(sha.as_str()),
    }
}

/// The protection of a branch, as far as there are rules.
pub open spec fn protection_meant(dismiss_stale_reviews: Option<bool>, strict: Option<bool>) -> Protection {
    Protection {
        dismiss_stale_reviews: dismiss_stale_reviews == Some(true),
        require_up_to_date: strict == Some(true),
    }
}

/// What is known of the protection of a branch, from whether stale reviews are
/// dismissed and whether branches must be up to date, as far as there are such
/// rules.
pub fn protection_from(dismiss_stale_reviews: Option<bool>, strict: Option<bool>) -> (r: Protection)
    ensures
        r == protection_meant(dismiss_stale_reviews, strict),
{
    Protection {
        dismiss_stale_reviews: match dismiss_stale_reviews {
            Some(yes) => yes,
            None => false,
        },
        require_up_to_date: match strict {
            Some(yes) => yes,
            None => false,
        },
    }
}

/// Whether a status says that something is not there, or not for the user to
/// read. Protection only tunes warnings, so not knowing must never be fatal:
/// most contributors cannot read it at all.
pub fn is_unreadable(status: Option<u16>) -> (r: bool)
    ensures
        r == (status == Some(403u16) || status == Some(404u16)),
{
    match status {
        Some(code) => code == 403 || code == 404,
        None => false,
    }
}

/// How a repository lets pull requests be merged, as its settings say.
pub open spec fn settings_meant(
    allow_squash_merge: bool,
    allow_merge_commit: bool,
    allow_rebase_merge: bool,
    title: Seq<char>,
    message: Seq<char>,
) -> RepoMergeSettings {
    RepoMergeSettings {
        allow_squash_merge,
        allow_merge_commit,
        allow_rebase_merge,
        squash_uses_pr_description: title == "PR_TITLE"@ && message != "COMMIT_MESSAGES"@,
    }
}

/// How a repository lets pull requests be merged, from its settings.
pub fn merge_settings_from(
    allow_squash_merge: bool,
    allow_merge_commit: bool,
    allow_rebase_merge: bool,
    title: &str,
    message: &str,
) -> (r: RepoMergeSettings)
    ensures
        r == settings_meant(
            allow_squash_merge,
            allow_merge_commit,
            allow_rebase_merge,
            title@,
            message@,
        ),
{
    RepoMergeSettings {
        allow_squash_merge,
        allow_merge_commit,
        allow_rebase_merge,
        squash_uses_pr_description: same(title, "PR_TITLE") && !same(message, "COMMIT_MESSAGES"),
    }
}

/// A comment and who wrote it.
pub struct Authored {
    pub login: String,
    pub comment: Comment,
}

/// The comments of one author among the first `n`.
pub open spec fn comments_by(all: Seq<Authored>, login: Seq<char>, n: int) -> Seq<CommentView>
    decreases n,
{
    if n <= 0 {
        Seq::empty()
    } else if all[n - 1].login@ == login {
        comments_by(all, login, n - 1).push(all[n - 1].comment.deep_view())
    } else {
        comments_by(all, login, n - 1)
    }
}

/// Picks the comments of one author.
pub fn own_comments(all: &Vec<Authored>, login: &str) -> (r: Vec<Comment>)
    ensures
        r.deep_view() == comments_by(all@, login@, all@.len() as int),
{
    let mut out: Vec<Comment> = nothing();
    let mut i: usize = 0;
    while i < all.len()
        invariant
            i <= all@.len(),
            out.deep_view() == comments_by(all@, login@, i as int),
        decreases all@.len() - i,
    {
        if same(all[i].login.as_str(), login) {
            put(&mut out, all[i].comment.duplicate());
        }
        i = i + 1;
    }
    out
}

/// The mutation that turns a pull request into a draft, or a draft into a pull
/// request.
pub open spec fn mutation_meant(draft: bool) -> Seq<char> {
    if draft {
        "mutation($id: ID!) { convertPullRequestToDraft(input: {pullRequestId: $id}) { pullRequest { number } } }"@
    } else {
        "mutation($id: ID!) { markPullRequestReadyForReview(input: {pullRequestId: $id}) { pullRequest { number } } }"@
    }
}

/// The mutation that turns a pull request into a draft, or a draft into a pull
/// request.
pub fn draft_mutation(draft: bool) -> (r: &'static str)
    ensures
        r@ == mutation_meant(draft),
{
    if draft {
        "mutation($id: ID!) { convertPullRequestToDraft(input: {pullRequestId: $id}) { pullRequest { number } } }"
    } else {
        "mutation($id: ID!) { markPullRequestReadyForReview(input: {pullRequestId: $id}) { pullRequest { number } } }"
    }
}

/// The first name from an attempt on that no remote branch has.
pub open spec fn unused_from(t: TapeView, preferred: Seq<char>, attempt: nat) -> (
    TapeView,
    Result<Seq<char>, HaltView>,
)
    decreases t.replies.len() - t.asked.len(),
{
    let name = execution::attempt_name(preferred, attempt);
    let (t1, tip) = tape::ask_maybe_object(t, RequestView::BranchOid { branch: name });
    match tip {
        Err(h) => (t1, Err(h)),
        Ok(None) => tape::done(t1, name),
        Ok(Some(_)) => unused_from(t1, preferred, attempt + 1),
    }
}

/// Finds a branch name that is free on the remote: the preferred one, or else
/// the one with the smallest number behind it.
pub fn unused_branch_name(t: &mut Tape, preferred: &str) -> (r: Result<String, Halt>)
    ensures
        (final(t)@, tape::outcome(r)) == unused_from(old(t)@, preferred@, 0),
{
    let mut attempt: u64 = 0;
    loop
        invariant
            attempt <= t@.asked.len(),
            unused_from(t@, preferred@, attempt as nat) == unused_from(old(t)@, preferred@, 0),
        decreases t@.replies.len() - t@.asked.len(),
    {
        let mut name = preferred.to_owned();
        if attempt > 0 {
            name.append("-");
            push_decimal(&mut name, attempt);
        }
        match t.maybe_object(Request::BranchOid { branch: name.clone() })? {
            None => {
                return Ok(name);
            },
            Some(_) => {},
        }
        let count: usize = t.asked.len();
        assert(t.asked.deep_view().len() == count);
        attempt = attempt + 1;
    }
}

/// The name at an attempt is free whenever it is asked for.
pub open spec fn surely_free<F: Fn(&str) -> bool>(taken: F, preferred: Seq<char>, attempt: nat) -> bool {
    forall|name: &str, yes: bool| #[trigger]
        call_ensures(taken, (name,), yes) && name@ == execution::attempt_name(preferred, attempt)
            ==> !yes
}

/// The name at an attempt was found to be taken or not.
pub open spec fn answered<F: Fn(&str) -> bool>(
    taken: F,
    preferred: Seq<char>,
    attempt: nat,
    yes: bool,
) -> bool {
    exists|name: &str| #[trigger]
        call_ensures(taken, (name,), yes) && name@ == execution::attempt_name(preferred, attempt)
}

/// The first name, starting with the preferred one, that is not taken.
pub fn unused_name<F: Fn(&str) -> bool>(preferred: &str, taken: F) -> (r: String)
    requires
        forall|name: &str| call_requires(taken, (name,)),
        exists|n: u64| surely_free(taken, preferred@, n as nat),
    ensures
        exists|k: u64|
            {
                &&& r@ == execution::attempt_name(preferred@, k as nat)
                &&& #[trigger] answered(taken, preferred@, k as nat, false)
                &&& forall|j: nat| j < k ==> #[trigger] answered(taken, preferred@, j, true)
            },
{
    let ghost last = choose|n: u64| surely_free(taken, preferred@, n as nat);
    let mut attempt: u64 = 0;
    loop
        invariant
            attempt <= last,
            forall|name: &str| call_requires(taken, (name,)),
            surely_free(taken, preferred@, last as nat),
            forall|j: nat| j < attempt ==> #[trigger] answered(taken, preferred@, j, true),
        decreases last - attempt,
    {
        let mut name = preferred.to_owned();
        if attempt > 0 {
            name.append("-");
            push_decimal(&mut name, attempt);
        }
        let yes = taken(name.as_str());
        assert(answered(taken, preferred@, attempt as nat, yes));
        if !yes {
            return name;
        }
        attempt = attempt + 1;
    }
}

/// A registered chain shares a pull request with a list.
pub open spec fn shares(chain: Seq<u64>, desired: Seq<u64>) -> bool {
    exists|i: int| 0 <= i < chain.len() && desired.contains(#[trigger] chain[i])
}

/// The registered chains among the first `n` that share a pull request with a
/// list.
pub open spec fn overlapping(remote: Seq<(u64, Seq<u64>)>, desired: Seq<u64>, n: int) -> Seq<
    (u64, Seq<u64>),
>
    decreases n,
{
    if n <= 0 {
        Seq::empty()
    } else if shares(remote[n - 1].1, desired) {
        overlapping(remote, desired, n - 1).push(remote[n - 1])
    } else {
        overlapping(remote, desired, n - 1)
    }
}

/// The registered chains among the first `n` but those with a number.
pub open spec fn without_stack(remote: Seq<(u64, Seq<u64>)>, id: u64, n: int) -> Seq<
    (u64, Seq<u64>),
>
    decreases n,
{
    if n <= 0 {
        Seq::empty()
    } else if remote[n - 1].0 == id {
        without_stack(remote, id, n - 1)
    } else {
        without_stack(remote, id, n - 1).push(remote[n - 1])
    }
}

/// The registered chains, the first one from the `k`th on with the number of a
/// new one replaced by it.
pub open spec fn with_stack(remote: Seq<(u64, Seq<u64>)>, now: (u64, Seq<u64>), k: int) -> Seq<
    (u64, Seq<u64>),
>
    decreases remote.len() - k,
{
    if k < 0 || k >= remote.len() {
        remote
    } else if remote[k].0 == now.0 {
        remote.update(k, now)
    } else {
        with_stack(remote, now, k + 1)
    }
}

pub open spec fn begins_with(list: Seq<u64>, start: Seq<u64>) -> bool {
    start.len() <= list.len() && list.take(start.len() as int) == start
}

pub open spec fn finishes_with(list: Seq<u64>, end: Seq<u64>) -> bool {
    end.len() <= list.len() && list.skip(list.len() - end.len()) == end
}

/// What the user is told about a registered chain.
pub open spec fn stack_note(done: Seq<char>, id: u64, count: nat, colors: bool) -> Seq<char> {
    paint::painted(
        "github stack: "@ + done + " stack #"@ + text::decimal(id as nat) + " ("@ + text::decimal(
            count,
        ) + " PRs)"@,
        paint::dimmed(),
        colors,
    ) + "\n"@
}

fn stack_note_text(done: &str, id: u64, count: usize, colors: bool) -> (r: String)
    ensures
        r@ == stack_note(done@, id, count as nat, colors),
{
    let mut note = "github stack: ".to_owned();
    note.append(done);
    note.append(" stack #");
    push_decimal(&mut note, id);
    note.append(" (");
    push_decimal(&mut note, count as u64);
    note.append(" PRs)");
    let mut out = paint::paint(note.as_str(), Paint::dimmed(), colors);
    out.append("\n");
    out
}

/// One registered chain, or none if the forge did not do what was asked.
pub open spec fn one_stack(t: TapeView, q: RequestView) -> (
    TapeView,
    Result<Option<(u64, Seq<u64>)>, HaltView>,
) {
    tape::bind(
        tape::ask(t, q),
        |t: TapeView, r: ReplyView|
            match r {
                ReplyView::Stacks(list) => if list.len() == 1 {
                    tape::done(t, Some(list[0]))
                } else {
                    tape::refuse(t, tape::MISMATCH@)
                },
                ReplyView::Failed(_) => tape::done(t, None),
                _ => tape::refuse(t, tape::MISMATCH@),
            },
    )
}

fn ask_one_stack(t: &mut Tape, q: Request) -> (r: Result<Option<(u64, Vec<u64>)>, Halt>)
    ensures
        (final(t)@, tape::outcome(r)) == one_stack(old(t)@, q.deep_view()),
{
    match t.reply(q)? {
        Reply::Stacks(list) => {
            assert(list.deep_view().len() == list@.len());
            if list.len() == 1 {
                assert(list.deep_view()[0] == list@[0].deep_view());
                let stack = list[0].duplicate();
                Ok(Some(stack))
            } else {
                Err(Halt::Refused(tape::MISMATCH.to_owned()))
            }
        },
        Reply::Failed(_) => Ok(None),
        _ => Err(Halt::Refused(tape::MISMATCH.to_owned())),
    }
}

/// The overlapping chains from the `k`th on dissolved.
pub open spec fn unstack_from(
    t: TapeView,
    gone: Seq<(u64, Seq<u64>)>,
    k: int,
    remote: Seq<(u64, Seq<u64>)>,
) -> (TapeView, Result<Seq<(u64, Seq<u64>)>, HaltView>)
    decreases gone.len() - k,
{
    if k < 0 || k >= gone.len() {
        tape::done(t, remote)
    } else {
        tape::bind(
            tape::ask_unit(t, RequestView::Unstack { id: gone[k].0 }),
            |t: TapeView, u: ()|
                unstack_from(
                    t,
                    gone,
                    k + 1,
                    without_stack(remote, gone[k].0, remote.len() as int),
                ),
        )
    }
}

/// A chain registered anew, and everything that overlaps it dissolved before.
pub open spec fn restacked(
    t: TapeView,
    desired: Seq<u64>,
    gone: Seq<(u64, Seq<u64>)>,
    remote: Seq<(u64, Seq<u64>)>,
    colors: bool,
) -> (TapeView, Result<Seq<(u64, Seq<u64>)>, HaltView>) {
    tape::bind(
        unstack_from(t, gone, 0, remote),
        |t: TapeView, remote: Seq<(u64, Seq<u64>)>|
            tape::bind(
                one_stack(t, RequestView::CreateStack { chain: desired }),
                |t: TapeView, created: Option<(u64, Seq<u64>)>|
                    match created {
                        Some(stack) => tape::bind(
                            tape::ask_unit(
                                t,
                                RequestView::PrintError {
                                    text: stack_note("created"@, stack.0, desired.len(), colors),
                                },
                            ),
                            |t: TapeView, u: ()| tape::done(t, remote.push(stack)),
                        ),
                        None => tape::done(t, remote),
                    },
            ),
    )
}

/// One chain registered: nothing is done if it is, one that it continues is
/// extended, and otherwise it is registered anew.
pub open spec fn chain_synced(
    t: TapeView,
    desired: Seq<u64>,
    remote: Seq<(u64, Seq<u64>)>,
    colors: bool,
) -> (TapeView, Result<Seq<(u64, Seq<u64>)>, HaltView>) {
    let found = overlapping(remote, desired, remote.len() as int);
    let current = found[0].1;
    if found.len() == 1 && (current == desired || finishes_with(current, desired)) {
        tape::done(t, remote)
    } else if found.len() == 1 && begins_with(desired, current) {
        tape::bind(
            one_stack(
                t,
                RequestView::ExtendStack {
                    id: found[0].0,
                    chain: desired.skip(current.len() as int),
                },
            ),
            |t: TapeView, updated: Option<(u64, Seq<u64>)>|
                match updated {
                    Some(stack) => tape::bind(
                        tape::ask_unit(
                            t,
                            RequestView::PrintError {
                                text: stack_note("updated"@, stack.0, desired.len(), colors),
                            },
                        ),
                        |t: TapeView, u: ()| tape::done(t, with_stack(remote, stack, 0)),
                    ),
                    None => restacked(t, desired, found, remote, colors),
                },
        )
    } else {
        restacked(t, desired, found, remote, colors)
    }
}

/// The chains from the `k`th on registered, as far as they have at least two
/// pull requests.
pub open spec fn chains_synced(
    t: TapeView,
    chains: Seq<Seq<u64>>,
    k: int,
    remote: Seq<(u64, Seq<u64>)>,
    colors: bool,
) -> (TapeView, Result<(), HaltView>)
    decreases chains.len() - k,
{
    if k < 0 || k >= chains.len() {
        tape::done(t, ())
    } else if chains[k].len() < 2 {
        chains_synced(t, chains, k + 1, remote, colors)
    } else {
        tape::bind(
            chain_synced(t, chains[k], remote, colors),
            |t: TapeView, remote: Seq<(u64, Seq<u64>)>|
                chains_synced(t, chains, k + 1, remote, colors),
        )
    }
}

/// Some chain has at least two pull requests.
pub open spec fn any_chain(chains: Seq<Seq<u64>>) -> bool {
    exists|k: int| 0 <= k < chains.len() && (#[trigger] chains[k]).len() >= 2
}

/// The chains registered with the forge, where it takes them.
pub open spec fn stacks_synced(t: TapeView, chains: Seq<Seq<u64>>, colors: bool) -> (
    TapeView,
    Result<(), HaltView>,
) {
    if !any_chain(chains) {
        tape::done(t, ())
    } else {
        tape::bind(
            tape::ask(t, RequestView::ListStacks),
            |t: TapeView, r: ReplyView|
                match r {
                    ReplyView::Stacks(remote) => chains_synced(t, chains, 0, remote, colors),
                    ReplyView::Failed(_) => tape::done(t, ()),
                    _ => tape::refuse(t, tape::MISMATCH@),
                },
        )
    }
}

fn shares_any(chain: &Vec<u64>, desired: &Vec<u64>) -> (r: bool)
    ensures
        r == shares(chain@, desired@),
{
    let mut i: usize = 0;
    while i < chain.len()
        invariant
            i <= chain@.len(),
            forall|m: int| 0 <= m < i ==> !desired@.contains(#[trigger] chain@[m]),
        decreases chain@.len() - i,
    {
        if has_number(desired, chain[i]) {
            assert(desired@.contains(chain@[i as int]));
            return true;
        }
        i = i + 1;
    }
    false
}

/// Whether a list stands in another one from a position on.
fn stands_in(list: &Vec<u64>, part: &Vec<u64>, from: usize) -> (r: bool)
    requires
        from + part@.len() <= list@.len(),
    ensures
        r == (list@.subrange(from as int, from + part@.len()) == part@),
{
    let ghost range = list@.subrange(from as int, from + part@.len());
    let n: usize = list.len();
    let mut i: usize = 0;
    while i < part.len()
        invariant
            i <= part@.len(),
            n == list@.len(),
            from + part@.len() <= list@.len(),
            range == list@.subrange(from as int, from + part@.len()),
            forall|m: int| 0 <= m < i ==> range[m] == part@[m],
        decreases part@.len() - i,
    {
        if list[from + i] != part[i] {
            assert(range[i as int] != part@[i as int]);
            return false;
        }
        i = i + 1;
    }
    assert(range =~= part@);
    true
}

fn starts_list(list: &Vec<u64>, start: &Vec<u64>) -> (r: bool)
    ensures
        r == begins_with(list@, start@),
{
    if start.len() > list.len() {
        return false;
    }
    assert(list@.take(start@.len() as int) =~= list@.subrange(0, start@.len() as int));
    stands_in(list, start, 0)
}

fn ends_list(list: &Vec<u64>, end: &Vec<u64>) -> (r: bool)
    ensures
        r == finishes_with(list@, end@),
{
    if end.len() > list.len() {
        return false;
    }
    let from: usize = list.len() - end.len();
    assert(list@.skip(from as int) =~= list@.subrange(from as int, from + end@.len()));
    stands_in(list, end, from)
}

fn find_overlapping(remote: &Vec<(u64, Vec<u64>)>, desired: &Vec<u64>) -> (r: Vec<(u64, Vec<u64>)>)
    ensures
        r.deep_view() == overlapping(remote.deep_view(), desired@, remote@.len() as int),
{
    let mut out: Vec<(u64, Vec<u64>)> = nothing();
    let mut i: usize = 0;
    while i < remote.len()
        invariant
            i <= remote@.len(),
            out.deep_view() == overlapping(remote.deep_view(), desired@, i as int),
        decreases remote@.len() - i,
    {
        assert(remote.deep_view()[i as int] == remote@[i as int].deep_view());
        assert(remote@[i as int].1.deep_view() =~= remote@[i as int].1@);
        if shares_any(&remote[i].1, desired) {
            put(&mut out, remote[i].duplicate());
        }
        i = i + 1;
    }
    out
}

fn remove_stack(remote: &Vec<(u64, Vec<u64>)>, id: u64) -> (r: Vec<(u64, Vec<u64>)>)
    ensures
        r.deep_view() == without_stack(remote.deep_view(), id, remote@.len() as int),
{
    let mut out: Vec<(u64, Vec<u64>)> = nothing();
    let mut i: usize = 0;
    while i < remote.len()
        invariant
            i <= remote@.len(),
            out.deep_view() == without_stack(remote.deep_view(), id, i as int),
        decreases remote@.len() - i,
    {
        assert(remote.deep_view()[i as int] == remote@[i as int].deep_view());
        if remote[i].0 != id {
            put(&mut out, remote[i].duplicate());
        }
        i = i + 1;
    }
    out
}

fn replace_stack(remote: &mut Vec<(u64, Vec<u64>)>, now: (u64, Vec<u64>))
    ensures
        final(remote).deep_view() == with_stack(old(remote).deep_view(), now.deep_view(), 0),
{
    let mut k: usize = 0;
    let n: usize = remote.len();
    while k < n
        invariant
            k <= n == remote@.len(),
            remote.deep_view() == old(remote).deep_view(),
            with_stack(remote.deep_view(), now.deep_view(), k as int) == with_stack(
                old(remote).deep_view(),
                now.deep_view(),
                0,
            ),
        decreases n - k,
    {
        assert(remote.deep_view()[k as int] == remote@[k as int].deep_view());
        if remote[k].0 == now.0 {
            crate::data::replace(remote, k, now);
            return;
        }
        k = k + 1;
    }
}

fn restack(
    t: &mut Tape,
    desired: &Vec<u64>,
    gone: &Vec<(u64, Vec<u64>)>,
    remote: &mut Vec<(u64, Vec<u64>)>,
    colors: bool,
) -> (r: Result<(), Halt>)
    ensures
        ({
            let spec = restacked(
                old(t)@,
                desired@,
                gone.deep_view(),
                old(remote).deep_view(),
                colors,
            );
            &&& final(t)@ == spec.0
            &&& match r {
                Ok(_) => spec.1 == Ok::<Seq<(u64, Seq<u64>)>, HaltView>(final(remote).deep_view()),
                Err(h) => spec.1 == Err::<Seq<(u64, Seq<u64>)>, HaltView>(h.deep_view()),
            }
        }),
{
    assert(desired.deep_view() =~= desired@);
    let mut k: usize = 0;
    while k < gone.len()
        invariant
            k <= gone@.len(),
            unstack_from(t@, gone.deep_view(), k as int, remote.deep_view()) == unstack_from(
                old(t)@,
                gone.deep_view(),
                0,
                old(remote).deep_view(),
            ),
        decreases gone@.len() - k,
    {
        assert(gone.deep_view()[k as int] == gone@[k as int].deep_view());
        assert(remote.deep_view().len() == remote@.len());
        t.unit(Request::Unstack { id: gone[k].0 })?;
        let left = remove_stack(remote, gone[k].0);
        *remote = left;
        k = k + 1;
    }
    match ask_one_stack(t, Request::CreateStack { chain: desired.duplicate() })? {
        Some(stack) => {
            t.unit(
                Request::PrintError {
                    text: stack_note_text("created", stack.0, desired.len(), colors),
                },
            )?;
            put(remote, stack);
        },
        None => {},
    }
    Ok(())
}

fn sync_chain(
    t: &mut Tape,
    desired: &Vec<u64>,
    remote: &mut Vec<(u64, Vec<u64>)>,
    colors: bool,
) -> (r: Result<(), Halt>)
    ensures
        ({
            let spec = chain_synced(old(t)@, desired@, old(remote).deep_view(), colors);
            &&& final(t)@ == spec.0
            &&& match r {
                Ok(_) => spec.1 == Ok::<Seq<(u64, Seq<u64>)>, HaltView>(final(remote).deep_view()),
                Err(h) => spec.1 == Err::<Seq<(u64, Seq<u64>)>, HaltView>(h.deep_view()),
            }
        }),
{
    let found = find_overlapping(remote, desired);
    assert(remote.deep_view().len() == remote@.len());
    assert(found.deep_view().len() == found@.len());
    if found.len() == 1 {
        assert(found.deep_view()[0] == found@[0].deep_view());
        let current = &found[0].1;
        assert(current.deep_view() =~= current@);
        if ends_list(current, desired) {
            return Ok(());
        }
        proof {
            if current@ == desired@ {
                assert(current@.skip(0) =~= current@);
            }
        }
        if starts_list(desired, current) {
            let mut delta: Vec<u64> = Vec::new();
            let n: usize = desired.len();
            let mut i: usize = current.len();
            let ghost rest = desired@.skip(current@.len() as int);
            while i < n
                invariant
                    current@.len() <= i <= n == desired@.len(),
                    delta@ == desired@.subrange(current@.len() as int, i as int),
                decreases n - i,
            {
                delta.push(desired[i]);
                assert(delta@ =~= desired@.subrange(current@.len() as int, i + 1));
                i = i + 1;
            }
            assert(delta.deep_view() =~= rest);
            match ask_one_stack(t, Request::ExtendStack { id: found[0].0, chain: delta })? {
                Some(stack) => {
                    t.unit(
                        Request::PrintError {
                            text: stack_note_text("updated", stack.0, desired.len(), colors),
                        },
                    )?;
                    replace_stack(remote, stack);
                    return Ok(());
                },
                None => {},
            }
        }
    }
    restack(t, desired, &found, remote, colors)
}

/// Registers chains of pull requests with GitHub, each from the bottom up. What
/// GitHub does not take is left alone: nothing depends on it.
pub fn sync_stacks(t: &mut Tape, chains: &Vec<Vec<u64>>, colors: bool) -> (r: Result<(), Halt>)
    ensures
        (final(t)@, tape::outcome(r)) == stacks_synced(old(t)@, chains.deep_view(), colors),
{
    let mut any = false;
    let mut k: usize = 0;
    while k < chains.len()
        invariant
            k <= chains@.len(),
            any == exists|m: int| 0 <= m < k && (#[trigger] chains.deep_view()[m]).len() >= 2,
        decreases chains@.len() - k,
    {
        assert(chains.deep_view()[k as int] == chains@[k as int].deep_view());
        assert(chains@[k as int].deep_view().len() == chains@[k as int]@.len());
        if chains[k].len() >= 2 {
            any = true;
        }
        k = k + 1;
    }
    if !any {
        return Ok(());
    }
    let mut remote = match t.reply(Request::ListStacks)? {
        Reply::Stacks(remote) => remote,
        Reply::Failed(_) => {
            return Ok(());
        },
        _ => {
            return Err(Halt::Refused(tape::MISMATCH.to_owned()));
        },
    };
    let ghost t1 = t@;
    let ghost first = remote.deep_view();
    let mut k: usize = 0;
    while k < chains.len()
        invariant
            k <= chains@.len(),
            stacks_synced(old(t)@, chains.deep_view(), colors) == chains_synced(
                t1,
                chains.deep_view(),
                0,
                first,
                colors,
            ),
            chains_synced(
                t@,
                chains.deep_view(),
                k as int,
                remote.deep_view(),
                colors,
            ) == chains_synced(t1, chains.deep_view(), 0, first, colors),
        decreases chains@.len() - k,
    {
        assert(chains.deep_view()[k as int] == chains@[k as int].deep_view());
        assert(chains@[k as int].deep_view() =~= chains@[k as int]@);
        if chains[k].len() >= 2 {
            sync_chain(t, &chains[k], &mut remote, colors)?;
        }
        k = k + 1;
    }
    Ok(())
}

/// The registered chains from the `k`th on dissolved.
pub open spec fn dissolved_from(t: TapeView, stacks: Seq<(u64, Seq<u64>)>, k: int) -> (
    TapeView,
    Result<(), HaltView>,
)
    decreases stacks.len() - k,
{
    if k < 0 || k >= stacks.len() {
        tape::done(t, ())
    } else {
        tape::bind(
            tape::ask_unit(t, RequestView::Unstack { id: stacks[k].0 }),
            |t: TapeView, u: ()| dissolved_from(t, stacks, k + 1),
        )
    }
}

/// A pull request in no registered chain any more, as far as that can be told.
pub open spec fn unstacked(t: TapeView, number: u64) -> (TapeView, Result<(), HaltView>) {
    tape::bind(
        tape::ask(t, RequestView::StacksOf { number }),
        |t: TapeView, r: ReplyView|
            match r {
                ReplyView::Stacks(stacks) => dissolved_from(t, stacks, 0),
                ReplyView::Failed(_) => tape::done(t, ()),
                _ => tape::refuse(t, tape::MISMATCH@),
            },
    )
}

fn unstack_pr_if_stacked(t: &mut Tape, number: u64) -> (r: Result<(), Halt>)
    ensures
        (final(t)@, tape::outcome(r)) == unstacked(old(t)@, number),
{
    let stacks = match t.reply(Request::StacksOf { number })? {
        Reply::Stacks(stacks) => stacks,
        Reply::Failed(_) => {
            return Ok(());
        },
        _ => {
            return Err(Halt::Refused(tape::MISMATCH.to_owned()));
        },
    };
    let ghost t1 = t@;
    let mut k: usize = 0;
    while k < stacks.len()
        invariant
            k <= stacks@.len(),
            unstacked(old(t)@, number) == dissolved_from(t1, stacks.deep_view(), 0),
            dissolved_from(t@, stacks.deep_view(), k as int) == dissolved_from(
                t1,
                stacks.deep_view(),
                0,
            ),
        decreases stacks@.len() - k,
    {
        assert(stacks.deep_view()[k as int] == stacks@[k as int].deep_view());
        t.unit(Request::Unstack { id: stacks[k].0 })?;
        k = k + 1;
    }
    Ok(())
}

/// The refusal to mark a pull request as merged.
pub open spec fn no_direct_merge(number: u64) -> Seq<char> {
    "#"@ + text::decimal(number as nat)
        + " cannot be marked merged directly; land it instead."@
}

/// A pull request changed. One that gets another base leaves its chain first.
pub open spec fn pr_updated(t: TapeView, number: u64, update: UpdateView) -> (
    TapeView,
    Result<(), HaltView>,
) {
    if update == crate::forge::no_update() {
        tape::done(t, ())
    } else {
        tape::bind(
            if update.base is Some {
                unstacked(t, number)
            } else {
                tape::done(t, ())
            },
            |t: TapeView, u: ()|
                if update.state == Some(PrState::Merged) {
                    tape::refuse(t, no_direct_merge(number))
                } else {
                    tape::ask_unit(t, RequestView::SendUpdate { number, update })
                },
        )
    }
}

/// Changes a pull request.
///
/// Merging is not a state that can be set; it is what landing does.
pub fn update_pull_request(t: &mut Tape, number: u64, update: PullRequestUpdate) -> (r: Result<
    (),
    Halt,
>)
    ensures
        (final(t)@, tape::outcome(r)) == pr_updated(old(t)@, number, update.deep_view()),
{
    if update.is_empty() {
        return Ok(());
    }
    if update.base.is_some() {
        unstack_pr_if_stacked(t, number)?;
    }
    match update.state {
        Some(state) => if state == PrState::Merged {
            let mut reason = "#".to_owned();
            push_decimal(&mut reason, number);
            reason.append(" cannot be marked merged directly; land it instead.");
            return Err(Halt::Refused(reason));
        },
        None => {},
    }
    t.unit(Request::SendUpdate { number, update })
}

} // verus!
