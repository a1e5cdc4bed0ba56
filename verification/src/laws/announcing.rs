//! What is promised of the pull requests that a `diff` opens and brings up to date, and of
//! what it reports.

use vstd::prelude::*;

use crate::cli::DiffArgsView;
use crate::engine::LayerAction;
use crate::execution;
use crate::execution::{ContextView, OutcomeView, PlacementView, ProgressView};
use crate::forge::{PrView, UpdateView};
use crate::pr_body;
use crate::session;
use crate::stack::StackView;
use crate::syncing;
use crate::tape;
use crate::tape::{RequestView, TapeView};
use crate::text;
use crate::trailers;

verus! {

/// A new pull request says what the commit says, and is opened from the branch of the
/// layer against the branch that it is put on. Its number goes into the message of the
/// commit and into the report.
pub proof fn law_new_pull_request_says_what_the_commit_says(
    t: TapeView,
    cx: ContextView,
    p: PlacementView,
    warn: bool,
    i: int,
    st: ProgressView,
)
    requires
        0 <= i < st.messages.len(),
        i <= usize::MAX,
        st.messages.len() == st.stack.layers.len(),
    ensures
        ({
            let (to, r) = execution::created(t, cx, p, warn, i, st);
            let m = cx.stack.layers[i].message;
            let n = t.asked.len() as int;
            &&& to.asked.len() > n
            &&& to.asked[n] is CreatePullRequest
            &&& ({
                let pr = to.asked[n]->CreatePullRequest_pr;
                &&& pr.title == m.subject
                &&& pr.body == pr_body::with_warning(m.body, warn)
                &&& pr.head == p.branches[i]
                &&& pr.base == p.base_branches[i]
                &&& pr.draft == cx.opts.draft
            })
            &&& r matches Ok(after) ==> {
                &&& t.replies[n] is Number
                &&& after.outcomes.len() == st.outcomes.len() + 1
                &&& after.outcomes.last().number == t.replies[n]->Number_0
                &&& after.outcomes.last().action == LayerAction::Created
                &&& after.outcomes.last().index == i
                &&& after.stack.layers[i].pr == Some(t.replies[n]->Number_0)
            }
        }),
{
    broadcast use tape::lemma_only_ask;

    let m = cx.stack.layers[i].message;
    let q = RequestView::CreatePullRequest {
        pr: crate::forge::CreateView {
            title: m.subject,
            body: pr_body::with_warning(m.body, warn),
            base: p.base_branches[i],
            head: p.branches[i],
            draft: cx.opts.draft,
        },
    };
    let n = t.asked.len() as int;
    let any = |q: RequestView| true;
    let (to, r) = execution::created(t, cx, p, warn, i, st);
    let (t1, number) = tape::ask_number(t, q);
    assert(t1.asked[n] == q);
    tape::lemma_only_start(t1, any);
    assert(tape::only(t1, to, any));
    assert(to.asked[n] == q);
}

/// What a pull request says after a change.
pub open spec fn changed(pr: PrView, u: UpdateView) -> PrView {
    PrView {
        title: match u.title {
            Some(title) => title,
            None => pr.title,
        },
        body: match u.body {
            Some(body) => body,
            None => pr.body,
        },
        base: match u.base {
            Some(base) => base,
            None => pr.base,
        },
        ..pr
    }
}

/// A pull request that is brought up to date says what the commit says where the commit
/// was reworded or the user asked for that, and what it said before otherwise; either way
/// the warning is there exactly as it has to be. It gets the base that it is put on, and
/// its state stays.
pub proof fn law_pull_request_is_brought_up_to_date(
    cx: ContextView,
    i: int,
    pr: PrView,
    base_branch: Seq<char>,
    warn: bool,
)
    ensures
        ({
            let u = execution::pr_update(cx, i, pr, base_branch, false, warn);
            let now = changed(pr, u);
            let m = cx.stack.layers[i].message;
            &&& u.state is None
            &&& now.base == base_branch
            &&& cx.opts.update_message || cx.decision.message_changed[i] ==> now.title == m.subject
                && now.body == pr_body::with_warning(m.body, warn)
            &&& !cx.opts.update_message && !cx.decision.message_changed[i] ==> now.title
                == pr.title && now.body == pr_body::with_warning(pr.body, warn)
            &&& execution::pr_update(cx, i, now, base_branch, false, warn) == (UpdateView {
                title: None,
                body: None,
                base: None,
                state: None,
            }) || now.body != pr_body::with_warning(now.body, warn)
        }),
{
}

/// A layer is reported as left alone exactly if nothing is pushed for it and its pull
/// request is told nothing; and one that is pushed is reported as updated exactly if its
/// patch or its message changed.
pub proof fn law_report_tells_what_was_done(cx: ContextView, i: int, update: UpdateView)
    ensures
        ({
            let action = execution::action_of(cx, i, update);
            let nothing = UpdateView { title: None, body: None, base: None, state: None };
            &&& action != LayerAction::Created
            &&& action == LayerAction::Skipped <==> !cx.decision.push[i] && update == nothing
            &&& action == LayerAction::Refreshed <==> cx.decision.push[i]
                && !cx.decision.patch_changed[i] && !cx.decision.message_changed[i]
        }),
{
}

/// Of two rounds, the more telling one is reported: a layer was created if the first one
/// created it, it was left alone only if both left it alone, and it was updated if either
/// updated it and none created it.
pub proof fn law_two_rounds_are_reported_as_one(first: LayerAction, second: LayerAction)
    requires
        second != LayerAction::Created,
    ensures
        ({
            let both = syncing::both_actions(first, second);
            &&& both == LayerAction::Created <==> first == LayerAction::Created
            &&& both == LayerAction::Skipped <==> first == LayerAction::Skipped && second
                == LayerAction::Skipped
            &&& both == LayerAction::Updated <==> first != LayerAction::Created && (first
                == LayerAction::Updated || second == LayerAction::Updated)
        }),
{
}

/// The counts in the last line of a `diff` are those of the outcomes: as many as have the
/// action, and as many as got another base.
pub proof fn law_counts_are_right(outcomes: Seq<OutcomeView>, action: LayerAction, n: int)
    requires
        0 <= n <= outcomes.len(),
    ensures
        session::acted(outcomes, action, n) == outcomes.take(n).filter(
            |o: OutcomeView| o.action == action,
        ).len(),
        session::moved(outcomes, n) == outcomes.take(n).filter(
            |o: OutcomeView| o.retargeted,
        ).len(),
    decreases n,
{
    reveal(Seq::filter);
    if n > 0 {
        law_counts_are_right(outcomes, action, n - 1);
        assert(outcomes.take(n).drop_last() =~= outcomes.take(n - 1));
        assert(outcomes.take(n).last() == outcomes[n - 1]);
    }
}

/// What was done to no layer is not counted in the last line of a `diff`, and all that was
/// done is, by its number.
pub proof fn law_last_line_counts(outcomes: Seq<OutcomeView>)
    ensures
        ({
            let n = outcomes.len() as int;
            let parts = session::counted(outcomes);
            let says = |count: nat, what: Seq<char>| parts.contains(text::decimal(count) + what);
            &&& session::acted(outcomes, LayerAction::Created, n) > 0 ==> says(
                session::acted(outcomes, LayerAction::Created, n),
                " created"@,
            )
            &&& session::acted(outcomes, LayerAction::Updated, n) > 0 ==> says(
                session::acted(outcomes, LayerAction::Updated, n),
                " updated"@,
            )
            &&& session::acted(outcomes, LayerAction::Refreshed, n) > 0 ==> says(
                session::acted(outcomes, LayerAction::Refreshed, n),
                " restacked"@,
            )
            &&& session::moved(outcomes, n) > 0 ==> says(
                session::moved(outcomes, n),
                " retargeted"@,
            )
            &&& parts.len() == 0 <==> session::acted(outcomes, LayerAction::Created, n) == 0
                && session::acted(outcomes, LayerAction::Updated, n) == 0 && session::acted(
                outcomes,
                LayerAction::Refreshed,
                n,
            ) == 0 && session::moved(outcomes, n) == 0
        }),
{
    let n = outcomes.len() as int;
    let c1 = session::acted(outcomes, LayerAction::Created, n);
    let c2 = session::acted(outcomes, LayerAction::Updated, n);
    let c3 = session::acted(outcomes, LayerAction::Refreshed, n);
    let c4 = session::moved(outcomes, n);
    let p0 = Seq::<Seq<char>>::empty();
    let p1 = session::with_count(p0, c1, " created"@);
    let p2 = session::with_count(p1, c2, " updated"@);
    let p3 = session::with_count(p2, c3, " restacked"@);
    let p4 = session::with_count(p3, c4, " retargeted"@);
    lemma_with_count(p0, c1, " created"@);
    lemma_with_count(p1, c2, " updated"@);
    lemma_with_count(p2, c3, " restacked"@);
    lemma_with_count(p3, c4, " retargeted"@);
}

proof fn lemma_with_count(parts: Seq<Seq<char>>, count: nat, what: Seq<char>)
    ensures
        count > 0 ==> session::with_count(parts, count, what).contains(text::decimal(count) + what),
        forall|x: Seq<char>| #[trigger]
            parts.contains(x) ==> session::with_count(parts, count, what).contains(x),
        session::with_count(parts, count, what).len() >= parts.len(),
        count == 0 ==> session::with_count(parts, count, what) == parts,
        count > 0 ==> session::with_count(parts, count, what).len() > 0,
{
    let now = session::with_count(parts, count, what);
    if count > 0 {
        assert(now[parts.len() as int] == text::decimal(count) + what);
    }
    assert forall|x: Seq<char>| #[trigger] parts.contains(x) implies now.contains(x) by {
        let k = choose|k: int| 0 <= k < parts.len() && parts[k] == x;
        assert(now[k] == x);
    }
}

/// The options of a `diff` are what the user asked for, and nothing that the user did not
/// ask for is on.
pub proof fn law_options_are_the_users(args: DiffArgsView, only_layer: Option<usize>)
    ensures
        ({
            let opts = session::diff_options(args, only_layer);
            &&& opts.sync_all == args.all
            &&& opts.message == args.message
            &&& opts.update_message == args.update_message
            &&& opts.draft == args.draft
            &&& opts.only_layer == only_layer
            &&& !opts.refresh_when_behind
            &&& !opts.relink_asked
        }),
{
}

/// A `diff` of a single commit makes just the topmost commit depend on the trunk: its
/// message then names the trunk, still says what it said, and all others stay.
pub proof fn law_only_the_top_is_freed(s: StackView, trunk: Seq<char>, i: int)
    requires
        0 <= i < s.layers.len(),
    ensures
        ({
            let messages = session::independent(s, trunk);
            let m = s.layers[i].message;
            &&& messages.len() == s.layers.len()
            &&& i < s.layers.len() - 1 ==> messages[i] == m
            &&& i == s.layers.len() - 1 ==> {
                &&& trailers::trailer_value(messages[i], trailers::DEPENDS_ON@) == Some(trunk)
                &&& messages[i].subject == m.subject
                &&& messages[i].body == m.body
            }
        }),
{
    trailers::law_get_after_set(s.layers[i].message, trailers::DEPENDS_ON@, trunk);
    assert(s.layers.map_values(|l: crate::stack::LayerView| l.message).last()
        == s.layers.last().message);
}

} // verus!
