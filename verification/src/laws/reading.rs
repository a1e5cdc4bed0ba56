//! What is promised of what is read from the forge and told to it.

use vstd::prelude::*;

use crate::cli;
use crate::engine::AUTO_UPDATE_MESSAGE;
use crate::execution;
use crate::forge::{CommentView, MergeState, Mergeable, PrState, ReviewDecision, UpdateView};
use crate::github;
use crate::github::{Authored, NodeView, SearchView};
use crate::laws::listing;
use crate::oid::Oid;
use crate::tape;
use crate::tape::{ReplyView, RequestView, TapeView};
use crate::text;

verus! {

proof fn lemma_state_names()
    ensures
        "OPEN"@.len() == 4,
        "MERGED"@.len() == 6 && "MERGED"@[0] == 'M',
        "CLOSED"@.len() == 6 && "CLOSED"@[0] == 'C',
{
    reveal_strlit("OPEN");
    reveal_strlit("MERGED");
    reveal_strlit("CLOSED");
}

/// A pull request counts as open or as merged exactly if the forge says so, and one that
/// the forge calls closed is closed.
pub proof fn law_states_are_told_apart(state: Seq<char>)
    ensures
        github::state_meant(state) == PrState::Open <==> state == "OPEN"@,
        github::state_meant(state) == PrState::Merged <==> state == "MERGED"@,
        github::state_meant("CLOSED"@) == PrState::Closed,
{
    lemma_state_names();
}

proof fn lemma_verdict_names()
    ensures
        "MERGEABLE"@.len() == 9,
        "CONFLICTING"@.len() == 11,
        "CLEAN"@.len() == 5 && "CLEAN"@[0] == 'C',
        "UNSTABLE"@.len() == 8,
        "HAS_HOOKS"@.len() == 9,
        "BEHIND"@.len() == 6,
        "BLOCKED"@.len() == 7,
        "DRAFT"@.len() == 5 && "DRAFT"@[0] == 'D' && "DRAFT"@[1] == 'R',
        "DIRTY"@.len() == 5 && "DIRTY"@[0] == 'D' && "DIRTY"@[1] == 'I',
        "APPROVED"@.len() == 8,
        "CHANGES_REQUESTED"@.len() == 17,
        "REVIEW_REQUIRED"@.len() == 15,
{
    reveal_strlit("MERGEABLE");
    reveal_strlit("CONFLICTING");
    reveal_strlit("CLEAN");
    reveal_strlit("UNSTABLE");
    reveal_strlit("HAS_HOOKS");
    reveal_strlit("BEHIND");
    reveal_strlit("BLOCKED");
    reveal_strlit("DRAFT");
    reveal_strlit("DIRTY");
    reveal_strlit("APPROVED");
    reveal_strlit("CHANGES_REQUESTED");
    reveal_strlit("REVIEW_REQUIRED");
}

/// Each verdict of the forge is taken for what it is, and for nothing else.
pub proof fn law_verdicts_are_told_apart(said: Option<Seq<char>>)
    ensures
        github::mergeable_meant(said) == Mergeable::Mergeable <==> said == Some("MERGEABLE"@),
        github::mergeable_meant(said) == Mergeable::Conflicting <==> said == Some("CONFLICTING"@),
        github::merge_state_meant(said) == MergeState::Behind <==> said == Some("BEHIND"@),
        github::merge_state_meant(said) == MergeState::Dirty <==> said == Some("DIRTY"@),
        github::merge_state_meant(said) == MergeState::Blocked <==> said == Some("BLOCKED"@)
            || said == Some("DRAFT"@),
        github::merge_state_meant(said) == MergeState::Clean <==> said == Some("CLEAN"@) || said
            == Some("UNSTABLE"@) || said == Some("HAS_HOOKS"@),
        github::decision_meant(said) == Some(ReviewDecision::Approved) <==> said == Some(
            "APPROVED"@,
        ),
        github::decision_meant(said) == Some(ReviewDecision::ChangesRequested) <==> said == Some(
            "CHANGES_REQUESTED"@,
        ),
        github::decision_meant(said) == Some(ReviewDecision::ReviewRequired) <==> said == Some(
            "REVIEW_REQUIRED"@,
        ),
{
    lemma_verdict_names();
}

/// A pull request is read as the forge describes it.
pub proof fn law_pull_request_is_read_as_described(node: NodeView, base_oid: Oid, head_oid: Oid)
    ensures
        ({
            let pr = github::pr_meant(node, base_oid, head_oid);
            &&& pr.number == node.number
            &&& pr.node_id == node.id
            &&& pr.title == node.title
            &&& pr.body == node.body
            &&& pr.base == node.base_ref_name
            &&& pr.head == node.head_ref_name
            &&& pr.base_oid == base_oid
            &&& pr.head_oid == head_oid
            &&& pr.draft == node.is_draft
            &&& pr.auto_merge == node.auto_merge_request
            &&& pr.state == PrState::Open <==> node.state == "OPEN"@
            &&& pr.state == PrState::Merged <==> node.state == "MERGED"@
            &&& pr.mergeable == Mergeable::Conflicting <==> node.mergeable == Some("CONFLICTING"@)
            &&& pr.merge_state == MergeState::Behind <==> node.merge_state_status == Some(
                "BEHIND"@,
            )
        }),
{
    lemma_state_names();
    lemma_verdict_names();
}

/// A pull request is listed as the search describes it.
pub proof fn law_pull_request_is_listed_as_described(node: SearchView)
    ensures
        ({
            let pr = github::listed_meant(node);
            &&& pr.number == node.number
            &&& pr.title == node.title
            &&& pr.base == node.base_ref_name
            &&& pr.head == node.head_ref_name
            &&& pr.draft == node.is_draft
            &&& pr.url == node.url
            &&& pr.state == PrState::Open <==> node.state == "OPEN"@
            &&& pr.review_decision == Some(ReviewDecision::Approved) <==> node.review_decision
                == Some("APPROVED"@)
            &&& pr.review_decision == Some(ReviewDecision::ChangesRequested)
                <==> node.review_decision == Some("CHANGES_REQUESTED"@)
        }),
{
    lemma_state_names();
    lemma_verdict_names();
}

proof fn lemma_open_from(nodes: Seq<SearchView>, k: int)
    requires
        0 <= k <= nodes.len(),
    ensures
        match github::open_from(nodes, k) {
            Some(number) => exists|i: int|
                k <= i < nodes.len() && (#[trigger] nodes[i]).number == number && nodes[i].state
                    == "OPEN"@,
            None => forall|i: int| k <= i < nodes.len() ==> (#[trigger] nodes[i]).state != "OPEN"@,
        },
    decreases nodes.len() - k,
{
    if k < nodes.len() {
        lemma_open_from(nodes, k + 1);
        if nodes[k].state == "OPEN"@ {
            assert(nodes[k].number == nodes[k].number);
        }
    }
}

/// The pull request that is found by its head branch is one of the results, and an open
/// one if there is any; there is none only where there is no result.
pub proof fn law_open_pull_request_is_preferred(nodes: Seq<SearchView>)
    ensures
        match github::head_pr(nodes) {
            Some(number) => exists|i: int|
                0 <= i < nodes.len() && (#[trigger] nodes[i]).number == number && (nodes[i].state
                    == "OPEN"@ || forall|m: int|
                    0 <= m < nodes.len() ==> (#[trigger] nodes[m]).state != "OPEN"@),
            None => nodes.len() == 0,
        },
{
    lemma_open_from(nodes, 0);
    if nodes.len() > 0 {
        assert(nodes[0].number == nodes[0].number);
    }
}

/// A branch name that is found to be free is the preferred one or one with a number behind
/// it, and the remote said that there is no such branch.
pub proof fn law_free_name_is_free(t: TapeView, preferred: Seq<char>, attempt: nat)
    ensures
        ({
            let (to, r) = github::unused_from(t, preferred, attempt);
            r matches Ok(name) ==> {
                &&& tape::told(to, RequestView::BranchOid { branch: name }, ReplyView::MaybeObject(None))
                &&& name == preferred || exists|n: nat|
                    n > 0 && name == preferred + "-"@ + #[trigger] text::decimal(n)
            }
        }),
    decreases t.replies.len() - t.asked.len(),
{
    let name = execution::attempt_name(preferred, attempt);
    let q = RequestView::BranchOid { branch: name };
    let (t1, tip) = tape::ask_maybe_object(t, q);
    if tip is Ok {
        tape::lemma_told(t, q);
        if tip->Ok_0 is Some {
            law_free_name_is_free(t1, preferred, attempt + 1);
        } else {
            assert(tape::told(t1, q, ReplyView::MaybeObject(None)));
            if attempt > 0 {
                assert(name =~= preferred + "-"@ + text::decimal(attempt));
            } else {
                assert(name =~= preferred);
            }
        }
    }
}

/// The comments of one author are exactly those that this author wrote.
pub proof fn law_own_comments_are_ones_own(all: Seq<Authored>, login: Seq<char>, n: int)
    requires
        0 <= n <= all.len(),
    ensures
        forall|k: int|
            0 <= k < n && (#[trigger] all[k]).login@ == login ==> github::comments_by(
                all,
                login,
                n,
            ).contains(all[k].comment.deep_view()),
        forall|x: int|
            0 <= x < github::comments_by(all, login, n).len() ==> written_by(
                all,
                login,
                #[trigger] github::comments_by(all, login, n)[x],
            ),
    decreases n,
{
    if n > 0 {
        law_own_comments_are_ones_own(all, login, n - 1);
        let before = github::comments_by(all, login, n - 1);
        let now = github::comments_by(all, login, n);
        assert forall|k: int| 0 <= k < n && (#[trigger] all[k]).login@ == login implies now.contains(
            all[k].comment.deep_view(),
        ) by {
            let c = all[k].comment.deep_view();
            if k < n - 1 {
                assert(before.contains(c));
                let x = choose|x: int| 0 <= x < before.len() && before[x] == c;
                assert(now[x] == c);
            } else {
                assert(now[before.len() as int] == c);
            }
        }
        assert forall|x: int| 0 <= x < now.len() implies written_by(
            all,
            login,
            #[trigger] now[x],
        ) by {
            if x < before.len() {
                assert(now[x] == before[x]);
            } else {
                assert(all[n - 1].comment.deep_view() == now[x]);
            }
        }
    }
}

/// The comment is one that the author wrote.
pub open spec fn written_by(all: Seq<Authored>, login: Seq<char>, c: CommentView) -> bool {
    exists|k: int|
        0 <= k < all.len() && (#[trigger] all[k]).login@ == login && all[k].comment.deep_view()
            == c
}

/// A registered chain with the number shares a pull request with the list.
pub open spec fn in_the_way(remote: Seq<(u64, Seq<u64>)>, desired: Seq<u64>, id: u64) -> bool {
    exists|k: int|
        0 <= k < remote.len() && (#[trigger] remote[k]).0 == id && exists|i: int|
            0 <= i < remote[k].1.len() && desired.contains(#[trigger] remote[k].1[i])
}

/// What registering a chain may ask for: the chain itself as a new one, what is missing at
/// the end of a registered one, or that one in the way is dissolved.
pub open spec fn registers(remote: Seq<(u64, Seq<u64>)>, desired: Seq<u64>, q: RequestView) -> bool {
    match q {
        RequestView::CreateStack { chain } => chain == desired,
        RequestView::ExtendStack { id, chain } => exists|k: int|
            0 <= k < remote.len() && (#[trigger] remote[k]).0 == id && remote[k].1 + chain
                == desired,
        RequestView::Unstack { id } => in_the_way(remote, desired, id),
        RequestView::PrintError { .. } => true,
        _ => false,
    }
}

proof fn lemma_overlapping(remote: Seq<(u64, Seq<u64>)>, desired: Seq<u64>, n: int)
    requires
        0 <= n <= remote.len(),
    ensures
        forall|x: int|
            0 <= x < github::overlapping(remote, desired, n).len() ==> one_of(
                remote,
                #[trigger] github::overlapping(remote, desired, n)[x],
            ) && github::shares(github::overlapping(remote, desired, n)[x].1, desired),
    decreases n,
{
    if n > 0 {
        lemma_overlapping(remote, desired, n - 1);
        let before = github::overlapping(remote, desired, n - 1);
        let now = github::overlapping(remote, desired, n);
        assert forall|x: int| 0 <= x < now.len() implies one_of(remote, #[trigger] now[x])
            && github::shares(now[x].1, desired) by {
            if x < before.len() {
                assert(now[x] == before[x]);
            } else {
                assert(remote[n - 1] == now[x]);
            }
        }
    }
}

spec fn one_of(remote: Seq<(u64, Seq<u64>)>, stack: (u64, Seq<u64>)) -> bool {
    exists|k: int| 0 <= k < remote.len() && #[trigger] remote[k] == stack
}

proof fn lemma_unstack_only(
    from: TapeView,
    t: TapeView,
    gone: Seq<(u64, Seq<u64>)>,
    k: int,
    left: Seq<(u64, Seq<u64>)>,
    remote: Seq<(u64, Seq<u64>)>,
    desired: Seq<u64>,
)
    requires
        0 <= k <= gone.len(),
        tape::only(from, t, |q: RequestView| registers(remote, desired, q)),
        forall|x: int|
            0 <= x < gone.len() ==> in_the_way(remote, desired, (#[trigger] gone[x]).0),
    ensures
        tape::only(
            from,
            github::unstack_from(t, gone, k, left).0,
            |q: RequestView| registers(remote, desired, q),
        ),
    decreases gone.len() - k,
{
    broadcast use tape::lemma_only_ask;

    if k < gone.len() {
        let (t1, r) = tape::ask_unit(t, RequestView::Unstack { id: gone[k].0 });
        if r is Ok {
            lemma_unstack_only(
                from,
                t1,
                gone,
                k + 1,
                github::without_stack(left, gone[k].0, left.len() as int),
                remote,
                desired,
            );
        }
    }
}

/// Registering a chain asks for that chain and for no other one: it is registered as it
/// is, or a registered one that it goes on with gets what is missing. Only chains in the
/// way are dissolved. Nothing is asked where it is registered already.
pub proof fn law_chain_is_registered_as_it_is(
    t: TapeView,
    desired: Seq<u64>,
    remote: Seq<(u64, Seq<u64>)>,
    colors: bool,
)
    ensures
        tape::only(
            t,
            github::chain_synced(t, desired, remote, colors).0,
            |q: RequestView| registers(remote, desired, q),
        ),
{
    broadcast use tape::lemma_only_ask;

    let allowed = |q: RequestView| registers(remote, desired, q);
    tape::lemma_only_start(t, allowed);
    let found = github::overlapping(remote, desired, remote.len() as int);
    lemma_overlapping(remote, desired, remote.len() as int);
    assert forall|x: int| 0 <= x < found.len() implies in_the_way(
        remote,
        desired,
        (#[trigger] found[x]).0,
    ) by {
        let k = choose|k: int| 0 <= k < remote.len() && #[trigger] remote[k] == found[x];
        let i = choose|i: int| 0 <= i < found[x].1.len() && desired.contains(#[trigger] found[x].1[i]);
        assert(desired.contains(remote[k].1[i]));
    }
    let current = found[0].1;
    if found.len() == 1 && (current == desired || github::finishes_with(current, desired)) {
    } else if found.len() == 1 && github::begins_with(desired, current) {
        let chain = desired.skip(current.len() as int);
        let q = RequestView::ExtendStack { id: found[0].0, chain };
        assert(current + chain =~= desired);
        let k = choose|k: int| 0 <= k < remote.len() && #[trigger] remote[k] == found[0];
        assert(remote[k].1 + chain == desired);
        assert(allowed(q));
        let (t1, updated) = github::one_stack(t, q);
        assert(tape::only(t, t1, allowed));
        lemma_unstack_only(t, t1, found, 0, remote, remote, desired);
    } else {
        lemma_unstack_only(t, t, found, 0, remote, remote, desired);
    }
}

proof fn lemma_dissolved_only(
    from: TapeView,
    t: TapeView,
    stacks: Seq<(u64, Seq<u64>)>,
    k: int,
    allowed: spec_fn(RequestView) -> bool,
)
    requires
        tape::only(from, t, allowed),
        forall|id: u64| #[trigger] allowed(RequestView::Unstack { id }),
    ensures
        tape::only(from, github::dissolved_from(t, stacks, k).0, allowed),
    decreases stacks.len() - k,
{
    broadcast use tape::lemma_only_ask;

    if 0 <= k < stacks.len() {
        let (t1, r) = tape::ask_unit(t, RequestView::Unstack { id: stacks[k].0 });
        if r is Ok {
            lemma_dissolved_only(from, t1, stacks, k + 1, allowed);
        }
    }
}

/// Changing a pull request sends exactly the change that is asked for, to that pull
/// request; one that would mark it as merged is never sent. Only a new base takes it out
/// of its chain.
pub proof fn law_update_is_sent_as_it_is(t: TapeView, number: u64, update: UpdateView)
    ensures
        tape::only(
            t,
            github::pr_updated(t, number, update).0,
            |q: RequestView|
                match q {
                    RequestView::SendUpdate { number: n, update: u } => n == number && u == update
                        && update.state != Some(PrState::Merged),
                    RequestView::StacksOf { number: n } => n == number && update.base is Some,
                    RequestView::Unstack { .. } => update.base is Some,
                    _ => false,
                },
        ),
        github::pr_updated(t, number, update).1 is Ok ==> update == (UpdateView {
            title: None,
            body: None,
            base: None,
            state: None,
        }) || tape::told(
            github::pr_updated(t, number, update).0,
            RequestView::SendUpdate { number, update },
            ReplyView::Done,
        ),
{
    broadcast use tape::lemma_only_ask;

    let allowed = |q: RequestView|
        match q {
            RequestView::SendUpdate { number: n, update: u } => n == number && u == update
                && update.state != Some(PrState::Merged),
            RequestView::StacksOf { number: n } => n == number && update.base is Some,
            RequestView::Unstack { .. } => update.base is Some,
            _ => false,
        };
    tape::lemma_only_start(t, allowed);
    if update != crate::forge::no_update() {
        let (t1, r) = if update.base is Some {
            github::unstacked(t, number)
        } else {
            tape::done(t, ())
        };
        if update.base is Some {
            let q = RequestView::StacksOf { number };
            let (ta, reply) = tape::ask(t, q);
            assert(allowed(q));
            if reply is Ok {
                if let ReplyView::Stacks(stacks) = reply->Ok_0 {
                    lemma_dissolved_only(t, ta, stacks, 0, allowed);
                }
            }
        }
        assert(tape::only(t, t1, allowed));
        let send = RequestView::SendUpdate { number, update };
        if r is Ok && update.state != Some(PrState::Merged) {
            let (t2, r2) = tape::ask_unit(t1, send);
            if r2 is Ok {
                tape::lemma_told(t1, send);
                assert(tape::told(t2, send, ReplyView::Done));
            }
        }
    }
}

/// A pull request is made a draft by the one mutation of the forge and ready by the other
/// one.
pub proof fn law_mutations_are_told_apart()
    ensures
        listing::holds(github::mutation_meant(true), "convertPullRequestToDraft"@),
        listing::holds(github::mutation_meant(false), "markPullRequestReadyForReview"@),
        github::mutation_meant(true) != github::mutation_meant(false),
{
    reveal_strlit(
        "mutation($id: ID!) { convertPullRequestToDraft(input: {pullRequestId: $id}) { pullRequest { number } } }",
    );
    reveal_strlit(
        "mutation($id: ID!) { markPullRequestReadyForReview(input: {pullRequestId: $id}) { pullRequest { number } } }",
    );
    reveal_strlit("mutation($id: ID!) { ");
    reveal_strlit("convertPullRequestToDraft");
    reveal_strlit("markPullRequestReadyForReview");
    reveal_strlit("(input: {pullRequestId: $id}) { pullRequest { number } } }");
    let lead = "mutation($id: ID!) { "@;
    let rest = "(input: {pullRequestId: $id}) { pullRequest { number } } }"@;
    assert(github::mutation_meant(true) =~= lead + "convertPullRequestToDraft"@ + rest);
    assert(github::mutation_meant(false) =~= lead + "markPullRequestReadyForReview"@ + rest);
    assert(github::mutation_meant(true).len() != github::mutation_meant(false).len());
}

/// A rule counts exactly if it is there and on.
pub proof fn law_rules_count_where_they_are_on(dismiss: Option<bool>, strict: Option<bool>)
    ensures
        github::protection_meant(dismiss, strict).dismiss_stale_reviews <==> dismiss is Some
            && dismiss->0,
        github::protection_meant(dismiss, strict).require_up_to_date <==> strict is Some
            && strict->0,
{
}

/// The settings of a repository are read as they are; squash commits say what the pull
/// request says exactly if their title is its title and their message is not made of the
/// messages of its commits.
pub proof fn law_merge_settings_are_read_as_they_are(
    squash: bool,
    merge: bool,
    rebase: bool,
    title: Seq<char>,
    message: Seq<char>,
)
    ensures
        ({
            let s = github::settings_meant(squash, merge, rebase, title, message);
            &&& s.allow_squash_merge == squash
            &&& s.allow_merge_commit == merge
            &&& s.allow_rebase_merge == rebase
            &&& s.squash_uses_pr_description <==> title == "PR_TITLE"@ && message
                != "COMMIT_MESSAGES"@
        }),
{
}

/// What the user answers is taken as it is; only where it is blank, the default stands in
/// for it.
pub proof fn law_answers_are_taken_as_they_are(answer: Seq<char>)
    ensures
        text::trim(answer).len() > 0 ==> cli::answer_taken(answer) == answer,
        text::trim(answer).len() == 0 ==> cli::answer_taken(answer) == AUTO_UPDATE_MESSAGE@,
{
}

} // verus!
