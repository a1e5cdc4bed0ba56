//! What is promised of what follows on a command, and of what it goes by.

use vstd::prelude::*;

use crate::commands;
use crate::discovery;
use crate::engine;
use crate::engine::OptionsView;
use crate::execution;
use crate::forge::{PrView, RepoMergeSettings, UpdateView};
use crate::github;
use crate::laws::reading;
use crate::oid::Oid;
use crate::session;
use crate::session::SessionView;
use crate::stack::StackView;
use crate::tape;
use crate::tape::{ReplyView, RequestView, TapeView};

verus! {

/// The description of a pull request gets the warning exactly if the commits of its branch
/// are kept while the repository lets it be merged in another way than by squashing under
/// its title and description.
pub proof fn law_warning_is_put_where_it_is_due(t: TapeView, opts: OptionsView)
    ensures
        ({
            let (to, r) = execution::warns(t, opts);
            r matches Ok(warn) ==> {
                &&& !opts.preserve_commit_history ==> !warn && to == t
                &&& opts.preserve_commit_history ==> exists|s: RepoMergeSettings|
                    warn == !(s.allow_squash_merge && !s.allow_merge_commit
                        && !s.allow_rebase_merge && s.squash_uses_pr_description)
                        && #[trigger] tape::told(
                        to,
                        RequestView::MergeSettings,
                        ReplyView::Settings(s),
                    )
            }
        }),
{
    let (to, r) = execution::warns(t, opts);
    if r is Ok && opts.preserve_commit_history {
        let q = RequestView::MergeSettings;
        let (t1, settings) = tape::ask_settings(t, q);
        tape::lemma_told(t, q);
        assert(tape::told(to, q, ReplyView::Settings(settings->Ok_0)));
    }
}

/// A branch counts as behind its base only where that matters: where it starts from
/// another commit than the tip of its base, or git says that it does not hold that tip.
pub proof fn law_behind_is_told_where_it_matters(
    t: TapeView,
    pr: PrView,
    base_tip: Oid,
    anchor: Option<Oid>,
    matters: bool,
)
    ensures
        ({
            let (to, r) = engine::behind_base(t, pr, base_tip, anchor, matters);
            r matches Ok(behind) ==> {
                &&& !matters ==> !behind && to == t
                &&& matters && anchor != Some(base_tip) ==> behind && to == t
                &&& matters && anchor == Some(base_tip) ==> tape::told(
                    to,
                    RequestView::MayBeAncestor { ancestor: base_tip, descendant: pr.head_oid },
                    ReplyView::Flag(!behind),
                )
            }
        }),
{
    let q = RequestView::MayBeAncestor { ancestor: base_tip, descendant: pr.head_oid };
    let (to, r) = engine::behind_base(t, pr, base_tip, anchor, matters);
    if r is Ok && matters && anchor == Some(base_tip) {
        let (t1, held) = tape::ask_flag(t, q);
        tape::lemma_told(t, q);
        assert(tape::told(to, q, ReplyView::Flag(held->Ok_0)));
    }
}

/// A layer may stay on an older trunk only if it sits on the trunk, its history is kept,
/// and neither the user nor the repository wants it brought up to date.
pub proof fn law_may_stay_only_where_nobody_minds(s: StackView, opts: OptionsView, i: int)
    ensures
        engine::may_settle(s, opts, i) <==> !(s.layers[i].dep is Layer)
            && opts.preserve_commit_history && !opts.sync_all && !opts.refresh_when_behind,
{
}

/// What follows on a close is a `diff` of what is left if something was moved, and
/// otherwise only what hangs on the stack is brought up to date.
pub proof fn law_close_is_followed_up(t: TapeView, se: SessionView, moved: bool)
    ensures
        moved ==> commands::close_followed(t, se, moved) == commands::restacked(t, se),
        !moved ==> commands::close_followed(t, se, moved) == commands::metadata_refreshed(t, se),
{
}

/// A `diff` that follows on another command asks nobody anything, opens no drafts, and is
/// about the whole stack.
pub proof fn law_follow_up_is_quiet(t: TapeView, se: SessionView)
    ensures
        ({
            let args = commands::quiet_diff();
            let (t1, r) = session::said(t, "Restacking...\n"@);
            &&& args.no_prompt && !args.draft && !args.all && !args.cherry_pick
            &&& !args.update_message && args.message is None
            &&& r is Ok ==> commands::restacked(t, se) == session::diffed(t1, se, args, false)
        }),
{
}

/// After a `sync` that moved the stack, what is left of it is brought up to date.
pub proof fn law_sync_is_followed_up(t: TapeView, se: SessionView)
    ensures
        ({
            let (t1, short) = tape::ask_text(t, RequestView::ShortId { commit: se.trunk_oid });
            let (t2, said) = session::said(t1, "Rebased onto "@ + short->Ok_0 + ".\n"@);
            let (t3, left) = discovery::discovered(t2, se.trunk_oid, se.config.trunk);
            short is Ok && said is Ok && left is Ok && (left->Ok_0).layers.len() > 0
                ==> commands::sync_followed(t, se, true) == commands::restacked(t3, se)
        }),
        commands::sync_followed(t, se, false).0.asked == t.asked.push(
            RequestView::Print { text: "Already up to date with "@ + se.config.trunk + ".\n"@ },
        ),
{
}

/// A pull request of the stack is based on a branch.
pub open spec fn based_on(prs: Seq<Option<PrView>>, i: int, branch: Seq<char>, number: u64) -> bool {
    0 <= i < prs.len() && (prs[i] matches Some(pr) && pr.base == branch && pr.number == number)
}

/// When a pull request is closed whose commit is not in the stack any more, exactly those
/// that are based on its branch are told the base that it had, and the result says whether
/// there were any.
pub proof fn law_what_sat_on_a_stray_moves_down(
    t: TapeView,
    prs: Seq<Option<PrView>>,
    k: int,
    branch: Seq<char>,
    base: Seq<char>,
    any: bool,
)
    requires
        0 <= k <= prs.len(),
    ensures
        ({
            let (to, r) = commands::rebased_from(t, prs, k, branch, base, any);
            &&& tape::only(
                t,
                to,
                |q: RequestView|
                    q matches RequestView::UpdatePullRequest { number, update } && update == (
                    UpdateView { title: None, body: None, base: Some(base), state: None })
                        && exists|i: int| #[trigger] based_on(prs, i, branch, number),
            )
            &&& r matches Ok(moved) ==> (moved <==> any || exists|i: int|
                k <= i < prs.len() && (#[trigger] prs[i] matches Some(pr) && pr.base == branch))
        }),
    decreases prs.len() - k,
{
    broadcast use tape::lemma_only_ask;

    let allowed = |q: RequestView|
        q matches RequestView::UpdatePullRequest { number, update } && update == (UpdateView {
            title: None,
            body: None,
            base: Some(base),
            state: None,
        }) && exists|i: int| #[trigger] based_on(prs, i, branch, number);
    tape::lemma_only_start(t, allowed);
    if k < prs.len() {
        match prs[k] {
            Some(pr) => if pr.base == branch {
                let q = RequestView::UpdatePullRequest {
                    number: pr.number,
                    update: UpdateView { title: None, body: None, base: Some(base), state: None },
                };
                assert(q->UpdatePullRequest_number == pr.number);
                assert(based_on(prs, k, branch, q->UpdatePullRequest_number));
                assert(allowed(q));
                let (t1, r) = tape::ask_unit(t, q);
                assert(tape::only(t, t1, allowed));
                if r is Ok {
                    law_what_sat_on_a_stray_moves_down(t1, prs, k + 1, branch, base, true);
                    assert(commands::rebased_from(t, prs, k, branch, base, any)
                        == commands::rebased_from(t1, prs, k + 1, branch, base, true));
                    tape::lemma_only_trans(
                        t,
                        t1,
                        commands::rebased_from(t, prs, k, branch, base, any).0,
                        allowed,
                    );
                    assert(prs[k] is Some);
                }
            } else {
                law_what_sat_on_a_stray_moves_down(t, prs, k + 1, branch, base, any);
            },
            None => law_what_sat_on_a_stray_moves_down(t, prs, k + 1, branch, base, any),
        }
    }
}

/// Only chains of at least two pull requests are registered, and only as they are.
pub proof fn law_only_chains_are_registered(
    t: TapeView,
    chains: Seq<Seq<u64>>,
    k: int,
    remote: Seq<(u64, Seq<u64>)>,
    colors: bool,
)
    requires
        0 <= k <= chains.len(),
    ensures
        tape::only(
            t,
            github::chains_synced(t, chains, k, remote, colors).0,
            |q: RequestView|
                q matches RequestView::CreateStack { chain } ==> exists|i: int|
                    0 <= i < chains.len() && #[trigger] chains[i] == chain && chain.len() >= 2,
        ),
    decreases chains.len() - k,
{
    let allowed = |q: RequestView|
        q matches RequestView::CreateStack { chain } ==> exists|i: int|
            0 <= i < chains.len() && #[trigger] chains[i] == chain && chain.len() >= 2;
    tape::lemma_only_start(t, allowed);
    if k < chains.len() {
        if chains[k].len() < 2 {
            law_only_chains_are_registered(t, chains, k + 1, remote, colors);
        } else {
            let (t1, now) = github::chain_synced(t, chains[k], remote, colors);
            reading::law_chain_is_registered_as_it_is(t, chains[k], remote, colors);
            let own = |q: RequestView| reading::registers(remote, chains[k], q);
            assert forall|x: int| t.asked.len() <= x < t1.asked.len() implies allowed(
                #[trigger] t1.asked[x],
            ) by {
                assert(own(t1.asked[x]));
            }
            assert(tape::only(t, t1, allowed));
            if now is Ok {
                law_only_chains_are_registered(t1, chains, k + 1, now->Ok_0, colors);
                tape::lemma_only_trans(
                    t,
                    t1,
                    github::chains_synced(t, chains, k, remote, colors).0,
                    allowed,
                );
            }
        }
    }
}

} // verus!
