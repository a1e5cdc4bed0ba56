//! What is promised of the warnings before a push, and of the settings behind them.

use vstd::prelude::*;

use crate::config;
use crate::config::{ConfigView, PreserveCommitHistory, Settings};
use crate::forge::{PrView, Protection, RepoMergeSettings};
use crate::guardrails;
use crate::stack::StackView;
use crate::tape;
use crate::tape::{ReplyView, RequestView, TapeView};
use crate::text;

verus! {

/// A warning about a pull request: it names its number right away.
pub open spec fn is_about(warning: Seq<char>, number: u64, rest: Seq<char>) -> bool {
    warning == "#"@ + text::decimal(number as nat) + rest
}

proof fn lemma_noted_grows(list: Seq<Seq<char>>, note: Option<Seq<char>>, x: Seq<char>)
    ensures
        list.contains(x) ==> guardrails::with_note(list, note).contains(x),
        note == Some(x) ==> guardrails::with_note(list, note).contains(x),
        guardrails::with_note(list, note).contains(x) ==> list.contains(x) || note == Some(x),
{
    let now = guardrails::with_note(list, note);
    if list.contains(x) {
        let k = choose|k: int| 0 <= k < list.len() && list[k] == x;
        assert(now[k] == x);
    }
    if note is Some {
        assert(now[list.len() as int] == note->0);
    }
    if now.contains(x) {
        let k = choose|k: int| 0 <= k < now.len() && now[k] == x;
        if k < list.len() {
            assert(list[k] == x);
        }
    }
}

/// The `i`th pull request is a reason for the warning: it would be merged automatically
/// into something else than the trunk, or it is about to be pushed and the forge said of
/// its base that this dismisses approvals.
pub open spec fn warrants(
    t: TapeView,
    c: ConfigView,
    prs: Seq<Option<PrView>>,
    pushing: Seq<bool>,
    i: int,
    x: Seq<char>,
) -> bool {
    prs[i] matches Some(pr) && {
        ||| pr.auto_merge && pr.base != c.trunk && guardrails::auto_merge_noted(pr, c.trunk)
            == Some(x)
        ||| i < pushing.len() && pushing[i] && x == guardrails::dismissal(pr) && exists|p: Protection|
            p.dismiss_stale_reviews && #[trigger] tape::told(
                t,
                RequestView::BranchProtection { branch: pr.base },
                ReplyView::Protected(Some(p)),
            )
    }
}

proof fn lemma_noted(
    t: TapeView,
    c: ConfigView,
    prs: Seq<Option<PrView>>,
    pushing: Seq<bool>,
    i: int,
    list: Seq<Seq<char>>,
    x: Seq<char>,
)
    requires
        0 <= i <= prs.len(),
    ensures
        ({
            let (to, r) = guardrails::prs_noted(t, c, prs, pushing, i, list);
            &&& tape::only(t, to, |q: RequestView| true)
            &&& r matches Ok(all) ==> {
                &&& list.contains(x) ==> all.contains(x)
                &&& all.contains(x) ==> list.contains(x) || exists|m: int|
                    i <= m < prs.len() && #[trigger] warrants(to, c, prs, pushing, m, x)
                &&& forall|m: int|
                    i <= m < prs.len() && (#[trigger] prs[m] matches Some(pr) && pr.auto_merge
                        && pr.base != c.trunk && guardrails::auto_merge_noted(pr, c.trunk) == Some(
                        x,
                    )) ==> all.contains(x)
            }
        }),
    decreases prs.len() - i,
{
    broadcast use tape::lemma_only_ask;

    let any = |q: RequestView| true;
    tape::lemma_only_start(t, any);
    if i < prs.len() {
        match prs[i] {
            None => lemma_noted(t, c, prs, pushing, i + 1, list, x),
            Some(pr) => {
                let note = guardrails::auto_merge_noted(pr, c.trunk);
                let noted = guardrails::with_note(list, note);
                lemma_noted_grows(list, note, x);
                if !guardrails::is_pushed(pushing, i) {
                    lemma_noted(t, c, prs, pushing, i + 1, noted, x);
                    let to = guardrails::prs_noted(t, c, prs, pushing, i, list).0;
                    if note == Some(x) {
                        assert(warrants(to, c, prs, pushing, i, x));
                    }
                } else {
                    let q = RequestView::BranchProtection { branch: pr.base };
                    let (t1, p) = tape::ask_protection(t, q);
                    assert(tape::only(t, t1, any));
                    if p is Ok {
                        let p = p->Ok_0;
                        let more = if p is Some && p->0.dismiss_stale_reviews {
                            noted.push(guardrails::dismissal(pr))
                        } else {
                            noted
                        };
                        assert(noted.contains(x) ==> more.contains(x)) by {
                            if noted.contains(x) {
                                let k = choose|k: int| 0 <= k < noted.len() && noted[k] == x;
                                assert(more[k] == x);
                            }
                        }
                        assert(more.contains(x) ==> noted.contains(x) || (p is Some
                            && p->0.dismiss_stale_reviews && x == guardrails::dismissal(pr))) by {
                            if more.contains(x) {
                                let k = choose|k: int| 0 <= k < more.len() && more[k] == x;
                                if k < noted.len() {
                                    assert(noted[k] == x);
                                }
                            }
                        }
                        lemma_noted(t1, c, prs, pushing, i + 1, more, x);
                        let (to, r) = guardrails::prs_noted(t1, c, prs, pushing, i + 1, more);
                        assert(guardrails::prs_noted(t, c, prs, pushing, i, list) == (to, r));
                        tape::lemma_only_trans(t, t1, to, any);
                        tape::lemma_told(t, q);
                        assert(tape::told(t1, q, ReplyView::Protected(p)));
                        tape::lemma_said_stays(t1, to, any);
                        if p is Some {
                            assert(tape::told(to, q, ReplyView::Protected(Some(p->0))));
                        }
                        if note == Some(x) {
                            assert(warrants(to, c, prs, pushing, i, x));
                        }
                        if p is Some && p->0.dismiss_stale_reviews && x == guardrails::dismissal(
                            pr,
                        ) {
                            assert(warrants(to, c, prs, pushing, i, x));
                        }
                    }
                }
            },
        }
    }
}

/// Before a push the user is warned of every pull request that would be merged by itself
/// into something else than the trunk, and no warning about a pull request is without its
/// reason. Branches are refreshed for being behind exactly if the forge said that the
/// trunk requires branches to be up to date.
pub proof fn law_warnings_have_reasons(
    t: TapeView,
    c: ConfigView,
    s: StackView,
    prs: Seq<Option<PrView>>,
    pushing: Seq<bool>,
    x: Seq<char>,
)
    ensures
        ({
            let (to, r) = guardrails::probed(t, c, s, prs, pushing);
            r matches Ok(g) ==> {
                &&& forall|m: int|
                    0 <= m < prs.len() && (#[trigger] prs[m] matches Some(pr) && pr.auto_merge
                        && pr.base != c.trunk && guardrails::auto_merge_noted(pr, c.trunk) == Some(
                        x,
                    )) ==> g.warnings.contains(x)
                &&& g.warnings.contains(x) ==> {
                    ||| x == guardrails::serialised(c.trunk) && g.refresh_when_behind
                        && s.layers.len() > 1
                    ||| exists|settings: RepoMergeSettings|
                        guardrails::settings_noted(c.preserve_commit_history, settings) == Some(x)
                            && #[trigger] tape::told(
                            to,
                            RequestView::MergeSettings,
                            ReplyView::Settings(settings),
                        )
                    ||| exists|m: int|
                        0 <= m < prs.len() && #[trigger] warrants(to, c, prs, pushing, m, x)
                }
                &&& g.refresh_when_behind && s.layers.len() > 1 ==> g.warnings.contains(
                    guardrails::serialised(c.trunk),
                )
                &&& exists|p: Option<Protection>|
                    g.refresh_when_behind == (p is Some && p->0.require_up_to_date)
                        && #[trigger] tape::told(
                        to,
                        RequestView::BranchProtection { branch: c.trunk },
                        ReplyView::Protected(p),
                    )
            }
        }),
{
    broadcast use tape::lemma_only_ask;

    let any = |q: RequestView| true;
    let (to, r) = guardrails::probed(t, c, s, prs, pushing);
    if r is Ok {
        let q1 = RequestView::MergeSettings;
        let (t1, settings) = tape::ask_settings(t, q1);
        let settings = settings->Ok_0;
        let q2 = RequestView::BranchProtection { branch: c.trunk };
        let (t2, p) = tape::ask_protection(t1, q2);
        let p = p->Ok_0;
        let note = guardrails::settings_noted(c.preserve_commit_history, settings);
        let first = guardrails::with_note(Seq::empty(), note);
        lemma_noted_grows(Seq::empty(), note, x);
        lemma_noted(t2, c, prs, pushing, 0, first, x);
        let (t3, list) = guardrails::prs_noted(t2, c, prs, pushing, 0, first);
        let list = list->Ok_0;
        assert(t3 == to);
        tape::lemma_told(t, q1);
        tape::lemma_told(t1, q2);
        assert(tape::told(t1, q1, ReplyView::Settings(settings)));
        assert(tape::told(t2, q2, ReplyView::Protected(p)));
        tape::lemma_only_start(t1, any);
        assert(tape::only(t1, t2, any));
        tape::lemma_only_trans(t1, t2, to, any);
        tape::lemma_said_stays(t1, to, any);
        tape::lemma_said_stays(t2, to, any);
        assert(tape::told(to, q1, ReplyView::Settings(settings)));
        assert(tape::told(to, q2, ReplyView::Protected(p)));
        let g = r->Ok_0;
        if g.refresh_when_behind && s.layers.len() > 1 {
            assert(g.warnings[list.len() as int] == guardrails::serialised(c.trunk));
        }
        assert(list.contains(x) ==> g.warnings.contains(x)) by {
            if list.contains(x) {
                let k = choose|k: int| 0 <= k < list.len() && list[k] == x;
                assert(g.warnings[k] == x);
            }
        }
        assert(g.warnings.contains(x) ==> list.contains(x) || (x == guardrails::serialised(c.trunk)
            && g.refresh_when_behind && s.layers.len() > 1)) by {
            if g.warnings.contains(x) {
                let k = choose|k: int| 0 <= k < g.warnings.len() && g.warnings[k] == x;
                if k < list.len() {
                    assert(list[k] == x);
                }
            }
        }
    }
}

/// The warning about auto-merge names the pull request and both branches.
pub proof fn law_auto_merge_is_warned_about(pr: PrView, trunk: Seq<char>)
    ensures
        guardrails::auto_merge_noted(pr, trunk) is Some <==> pr.auto_merge && pr.base != trunk,
        guardrails::auto_merge_noted(pr, trunk) matches Some(x) ==> exists|rest: Seq<char>|
            #[trigger] is_about(x, pr.number, rest),
{
    if pr.auto_merge && pr.base != trunk {
        let x = guardrails::auto_merge_noted(pr, trunk)->0;
        let rest = " has auto-merge enabled. It will merge into `"@ + pr.base + "`, not `"@ + trunk
            + "`, flattening it into the layer below. Turn it off unless that is what you want."@;
        assert(x =~= "#"@ + text::decimal(pr.number as nat) + rest);
        assert(is_about(x, pr.number, rest));
    }
}

/// The commits of a branch are kept exactly if the user says so, or leaves it to the tool
/// and the repository lets pull requests be merged by squashing alone.
pub proof fn law_history_is_kept_as_set(p: PreserveCommitHistory, s: RepoMergeSettings)
    ensures
        p == PreserveCommitHistory::True ==> config::preserve_resolved(p, s),
        p == PreserveCommitHistory::False ==> !config::preserve_resolved(p, s),
        p == PreserveCommitHistory::Auto ==> config::preserve_resolved(p, s) == (
        s.allow_squash_merge && !s.allow_merge_commit && !s.allow_rebase_merge
            && s.squash_uses_pr_description),
{
}

/// What is set is what counts, and what is not set is as documented: the trunk is the
/// default branch of the remote or else `main`, branches go under `users/`, the stack
/// tables and the registered chains are on, and drafts while retargeting are off.
pub proof fn law_settings_count(s: Settings, login: Seq<char>, remote: Seq<char>)
    ensures
        config::config_detected(s, login, remote) matches Ok(c) ==> {
            &&& c.login == login
            &&& s.trunk.deep_view() matches Some(trunk) ==> trunk.len() == 0 || c.trunk == trunk
            &&& (s.trunk is None || s.trunk->0@.len() == 0) && s.remote_head is None ==> c.trunk
                == "main"@
            &&& s.branch_prefix.deep_view() matches Some(prefix) ==> prefix.len() == 0
                || c.branch_prefix == prefix
            &&& s.branch_prefix is None ==> c.branch_prefix == "users/"@ + login + "/"@
            &&& s.stack_comments matches Some(on) ==> c.stack_comments == on
            &&& s.stack_comments is None ==> c.stack_comments
            &&& s.emit_gh_stack_metadata matches Some(on) ==> c.emit_gh_stack_metadata == on
            &&& s.emit_gh_stack_metadata is None ==> c.emit_gh_stack_metadata
            &&& s.draft_while_retargeting matches Some(on) ==> c.draft_while_retargeting == on
            &&& s.draft_while_retargeting is None ==> !c.draft_while_retargeting
            &&& s.preserve_commit_history is None ==> c.preserve_commit_history
                == PreserveCommitHistory::Auto
        },
{
}

} // verus!
