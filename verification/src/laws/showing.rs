//! What `status` promises.

use vstd::prelude::*;

use crate::config::ConfigView;
use crate::discovery;
use crate::engine;
use crate::engine::{DecisionView, LayerAction};
use crate::execution::OutcomeView;
use crate::forge::{MergeState, Mergeable, PrState, PrView};
use crate::pr_body;
use crate::stack::{Dep, StackView};
use crate::status;
use crate::status::{Drawing, LayerState, LayerStatusView};
use crate::tape;
use crate::tape::{ReplyView, RequestView, TapeView};
use crate::text;

verus! {

/// The pull requests are those that the forge showed for the first `n` layers.
pub open spec fn as_shown(t: TapeView, s: StackView, prs: Seq<Option<PrView>>, n: int) -> bool {
    &&& prs.len() == n
    &&& forall|i: int|
        0 <= i < n ==> match #[trigger] prs[i] {
            Some(pr) => s.layers[i].pr is Some && tape::told(
                t,
                RequestView::GetPullRequest { number: s.layers[i].pr->0 },
                ReplyView::Pr(pr),
            ),
            None => s.layers[i].pr is None,
        }
}

proof fn lemma_as_shown_still(from: TapeView, to: TapeView, s: StackView, prs: Seq<Option<PrView>>, n: int)
    requires
        as_shown(from, s, prs, n),
        tape::only(from, to, |q: RequestView| true),
    ensures
        as_shown(to, s, prs, n),
{
    tape::lemma_said_stays(from, to, |q: RequestView| true);
}

pub proof fn lemma_gather_from(t: TapeView, s: StackView, i: int, prs: Seq<Option<PrView>>)
    requires
        0 <= i <= s.layers.len(),
        as_shown(t, s, prs, i),
    ensures
        engine::gather_from(t, s, i, prs).1 matches Ok(all) ==> as_shown(
            engine::gather_from(t, s, i, prs).0,
            s,
            all,
            s.layers.len() as int,
        ),
    decreases s.layers.len() - i,
{
    broadcast use tape::lemma_only_ask;

    let any = |q: RequestView| true;
    if i < s.layers.len() {
        match s.layers[i].pr {
            None => lemma_gather_from(t, s, i + 1, prs.push(None)),
            Some(number) => {
                let q = RequestView::GetPullRequest { number };
                let (t1, pr) = tape::ask_pr(t, q);
                if pr is Ok {
                    let pr = pr->Ok_0;
                    tape::lemma_told(t, q);
                    assert(tape::told(t1, q, ReplyView::Pr(pr)));
                    let (t2, r2) = tape::ask_unit(
                        t1,
                        RequestView::FetchCommit { commit: pr.head_oid },
                    );
                    if r2 is Ok {
                        let (t3, r3) = if pr.base_oid != crate::oid::zero_oid() {
                            tape::ask_unit(t2, RequestView::FetchCommit { commit: pr.base_oid })
                        } else {
                            tape::done(t2, ())
                        };
                        if r3 is Ok {
                            tape::lemma_only_start(t, any);
                            tape::lemma_only_start(t1, any);
                            assert(tape::only(t, t3, any));
                            assert(tape::only(t1, t3, any));
                            tape::lemma_said_stays(t1, t3, any);
                            lemma_as_shown_still(t, t3, s, prs, i);
                            lemma_gather_from(t3, s, i + 1, prs.push(Some(pr)));
                        }
                    }
                }
            },
        }
    }
}

/// What is shown of a layer is what the forge says of its pull request.
pub open spec fn tells(l: LayerStatusView, s: StackView, i: int, pr: Option<PrView>) -> bool {
    let layer = s.layers[i];
    &&& l.index == i
    &&& l.subject == layer.message.subject
    &&& l.number == layer.pr
    &&& l.dep == layer.dep
    &&& l.landable <==> layer.dep == Dep::Main && layer.pr is Some
    &&& l.state == LayerState::New <==> pr is None
    &&& match pr {
        Some(pr) => {
            &&& l.state == LayerState::Merged <==> pr.state == PrState::Merged
            &&& l.state == LayerState::Closed <==> pr.state == PrState::Closed
            &&& l.branch == Some(pr.head)
            &&& l.base == Some(pr.base)
            &&& l.draft == pr.draft
            &&& l.auto_merge == pr.auto_merge
            &&& l.conflicting <==> pr.mergeable == Mergeable::Conflicting
            &&& l.behind <==> pr.merge_state == MergeState::Behind
            &&& l.message_differs <==> pr.title != layer.message.subject || text::trim(
                pr_body::without_warning(pr.body),
            ) != layer.message.body
        },
        None => l.branch is None && l.base is None && !l.draft && !l.auto_merge && !l.conflicting
            && !l.behind && !l.message_differs,
    }
}

proof fn lemma_statuses(
    t: TapeView,
    c: ConfigView,
    s: StackView,
    prs: Seq<Option<PrView>>,
    d: DecisionView,
    update_message: bool,
    i: int,
    layers: Seq<LayerStatusView>,
)
    requires
        0 <= i <= s.layers.len() <= usize::MAX,
        layers.len() == i,
        forall|k: int| 0 <= k < i ==> tells(#[trigger] layers[k], s, k, prs[k]),
    ensures
        status::statuses_from(t, c, s, prs, d, update_message, i, layers).1 matches Ok(shown)
            ==> shown.layers.len() == s.layers.len() && shown.trunk == c.trunk && forall|k: int|
            0 <= k < s.layers.len() ==> tells(#[trigger] shown.layers[k], s, k, prs[k]),
    decreases s.layers.len() - i,
{
    if i < s.layers.len() {
        let (t1, state) = status::layer_state(t, c, s, prs, d, update_message, i);
        if state is Ok {
            let next = layers.push(status::status_of(c, s, prs, i, state->Ok_0));
            assert(tells(next[i], s, i, prs[i]));
            lemma_statuses(t1, c, s, prs, d, update_message, i + 1, next);
        }
    }
}

/// The status of a stack tells what the forge says of each pull request. Above all a layer
/// is shown as merged exactly if its pull request is merged, as closed exactly if it is
/// closed without a merge, and as new exactly if it has none.
pub proof fn law_status_tells_what_the_forge_says(t: TapeView, c: ConfigView, s: StackView, i: int)
    requires
        0 <= i < s.layers.len() <= usize::MAX,
    ensures
        status::stack_status(t, c, s).1 matches Ok(shown) ==> shown.layers.len() == s.layers.len()
            && match s.layers[i].pr {
            None => tells(shown.layers[i], s, i, None),
            Some(number) => exists|pr: PrView|
                tells(shown.layers[i], s, i, Some(pr)) && #[trigger] tape::told(
                    status::stack_status(t, c, s).0,
                    RequestView::GetPullRequest { number },
                    ReplyView::Pr(pr),
                ),
        },
{
    broadcast use {
        tape::lemma_only_ask,
        engine::lemma_decided_only,
        status::lemma_statuses_from_only,
    };

    let any = |q: RequestView| true;
    let (to, r) = status::stack_status(t, c, s);
    if r is Ok {
        let (t1, trees) = discovery::trees_of(t, s);
        let (t2, prs) = engine::gathered(t1, s);
        let prs = prs->Ok_0;
        lemma_gather_from(t1, s, 0, Seq::empty());
        let (t3, settings) = tape::ask_settings(t2, RequestView::MergeSettings);
        let (t4, d) = engine::decided(
            t3,
            s,
            prs,
            trees->Ok_0,
            status::status_options(c, settings->Ok_0),
        );
        assert(status::statuses_from(t4, c, s, prs, d->Ok_0, false, 0, Seq::empty()) == (to, r));
        lemma_statuses(t4, c, s, prs, d->Ok_0, false, 0, Seq::empty());
        tape::lemma_only_start(t2, any);
        assert(tape::only(t2, to, any));
        lemma_as_shown_still(t2, to, s, prs, s.layers.len() as int);
        assert(tells((r->Ok_0).layers[i], s, i, prs[i]));
        if prs[i] is Some {
            assert(tape::told(
                to,
                RequestView::GetPullRequest { number: s.layers[i].pr->0 },
                ReplyView::Pr(prs[i]->0),
            ));
        }
    }
}

proof fn lemma_labels()
    ensures
        "new"@.len() == 3,
        "ok"@.len() == 2,
        "modified"@.len() == 8,
        "restack"@.len() == 7,
        "spr (run `nspr upgrade`)"@.len() == 24,
        "merged"@.len() == 6,
        "merged"@[0] == 'm',
        "closed"@.len() == 6,
        "closed"@[0] == 'c',
        "created"@.len() == 7,
        "created"@[0] == 'c',
        "updated"@.len() == 7,
        "updated"@[0] == 'u',
        "restacked"@.len() == 9,
{
    reveal_strlit("new");
    reveal_strlit("ok");
    reveal_strlit("modified");
    reveal_strlit("restack");
    reveal_strlit("spr (run `nspr upgrade`)");
    reveal_strlit("merged");
    reveal_strlit("closed");
    reveal_strlit("created");
    reveal_strlit("updated");
    reveal_strlit("restacked");
}

/// Without colours, the word for a layer tells its state: each state has a word of its
/// own.
pub proof fn law_words_tell_states(layer: LayerStatusView, how: Drawing)
    requires
        !how.use_color,
    ensures
        ({
            let word = status::state_cell(layer, None, how);
            &&& word == "new"@ <==> layer.state == LayerState::New
            &&& word == "ok"@ <==> layer.state == LayerState::Current
            &&& word == "modified"@ <==> layer.state == LayerState::Modified
            &&& word == "restack"@ <==> layer.state == LayerState::NeedsRestack
            &&& word == "merged"@ <==> layer.state == LayerState::Merged
            &&& word == "closed"@ <==> layer.state == LayerState::Closed
            &&& word == "spr (run `nspr upgrade`)"@ <==> layer.state == LayerState::LegacySpr
        }),
{
    lemma_labels();
}

/// Without colours, the word for a layer after a `diff` tells what was done to it.
pub proof fn law_words_tell_actions(layer: LayerStatusView, outcomes: Seq<OutcomeView>, how: Drawing)
    requires
        !how.use_color,
        status::outcome_of(Some(outcomes), layer.index) is Some,
    ensures
        ({
            let word = status::state_cell(layer, Some(outcomes), how);
            let action = (status::outcome_of(Some(outcomes), layer.index)->0).action;
            &&& word == "created"@ <==> action == LayerAction::Created
            &&& word == "updated"@ <==> action == LayerAction::Updated
            &&& word == "restacked"@ <==> action == LayerAction::Refreshed
            &&& word == "ok"@ <==> action == LayerAction::Skipped
        }),
{
    lemma_labels();
}

proof fn lemma_with_badge(list: Seq<Seq<char>>, holds: bool, badge: Seq<char>, wanted: Seq<char>)
    ensures
        list.contains(wanted) ==> status::with_badge(list, holds, badge).contains(wanted),
        holds && badge == wanted ==> status::with_badge(list, holds, badge).contains(wanted),
        status::with_badge(list, holds, badge).contains(wanted) ==> list.contains(wanted) || (holds
            && badge == wanted),
{
    let next = status::with_badge(list, holds, badge);
    if list.contains(wanted) {
        let k = choose|k: int| 0 <= k < list.len() && list[k] == wanted;
        assert(next[k] == wanted);
    }
    if holds {
        assert(next[list.len() as int] == badge);
    }
    if next.contains(wanted) {
        let k = choose|k: int| 0 <= k < next.len() && next[k] == wanted;
        if k < list.len() {
            assert(list[k] == wanted);
        }
    }
}

proof fn lemma_badge_words()
    ensures
        "draft"@.len() == 5 && "draft"@[0] == 'd',
        "conflicts"@.len() == 9 && "conflicts"@[0] == 'c',
        "behind"@.len() == 6 && "behind"@[0] == 'b' && "behind"@[1] == 'e',
        "AUTO-MERGE"@.len() == 10 && "AUTO-MERGE"@[0] == 'A',
        "rebased "@.len() == 8 && "rebased "@[0] == 'r',
        "retarget "@.len() == 9 && "retarget "@[0] == 'r',
        "base: "@.len() == 6 && "base: "@[0] == 'b' && "base: "@[1] == 'a',
        "update message"@.len() == 14 && "update message"@[0] == 'u',
        "message differs"@.len() == 15 && "message differs"@[0] == 'm',
        "landable"@.len() == 8 && "landable"@[0] == 'l',
{
    reveal_strlit("draft");
    reveal_strlit("conflicts");
    reveal_strlit("behind");
    reveal_strlit("AUTO-MERGE");
    reveal_strlit("rebased ");
    reveal_strlit("retarget ");
    reveal_strlit("base: ");
    reveal_strlit("update message");
    reveal_strlit("message differs");
    reveal_strlit("landable");
}

proof fn lemma_badge(
    trunk: Seq<char>,
    layer: LayerStatusView,
    outcomes: Option<Seq<OutcomeView>>,
    how: Drawing,
    wanted: Seq<char>,
)
    requires
        !how.use_color,
        wanted.len() > 0,
        wanted[0] != 'r',
        wanted[0] == 'b' ==> wanted.len() > 1 && wanted[1] == 'e',
    ensures
        status::badges_of(trunk, layer, outcomes, how).contains(wanted) <==> {
            ||| layer.draft && wanted == "draft"@
            ||| layer.conflicting && wanted == "conflicts"@
            ||| layer.behind && wanted == "behind"@
            ||| layer.auto_merge && wanted == "AUTO-MERGE"@
            ||| layer.message_differs && how.update_message && wanted == "update message"@
            ||| layer.message_differs && !how.update_message && wanted == "message differs"@
            ||| layer.landable && wanted == "landable"@
        },
{
    lemma_badge_words();
    let e = Seq::<Seq<char>>::empty();
    let b1 = status::with_badge(e, layer.draft, "draft"@);
    lemma_with_badge(e, layer.draft, "draft"@, wanted);
    let b2 = status::with_badge(b1, layer.conflicting, "conflicts"@);
    lemma_with_badge(b1, layer.conflicting, "conflicts"@, wanted);
    let b3 = status::with_badge(b2, layer.behind, "behind"@);
    lemma_with_badge(b2, layer.behind, "behind"@, wanted);
    let b4 = status::with_badge(b3, layer.auto_merge, "AUTO-MERGE"@);
    lemma_with_badge(b3, layer.auto_merge, "AUTO-MERGE"@, wanted);
    let base = status::base_badge(trunk, layer, outcomes, how);
    let b5 = match base {
        Some(badge) => b4.push(badge),
        None => b4,
    };
    if base is Some {
        let badge = base->0;
        assert(badge[0] == 'r' || (badge[0] == 'b' && badge[1] == 'a'));
        assert(badge != wanted);
        lemma_with_badge(b4, true, badge, wanted);
    }
    let told = if how.update_message {
        "update message"@
    } else {
        "message differs"@
    };
    let b6 = status::with_badge(b5, layer.message_differs, told);
    lemma_with_badge(b5, layer.message_differs, told, wanted);
    lemma_with_badge(b6, layer.landable, "landable"@, wanted);
}

/// Without colours, each badge of a layer is there exactly if what it says is so.
pub proof fn law_badges_tell(
    trunk: Seq<char>,
    layer: LayerStatusView,
    outcomes: Option<Seq<OutcomeView>>,
    how: Drawing,
)
    requires
        !how.use_color,
    ensures
        ({
            let badges = status::badges_of(trunk, layer, outcomes, how);
            &&& badges.contains("draft"@) <==> layer.draft
            &&& badges.contains("conflicts"@) <==> layer.conflicting
            &&& badges.contains("behind"@) <==> layer.behind
            &&& badges.contains("AUTO-MERGE"@) <==> layer.auto_merge
            &&& badges.contains("landable"@) <==> layer.landable
            &&& badges.contains("message differs"@) <==> layer.message_differs
                && !how.update_message
            &&& badges.contains("update message"@) <==> layer.message_differs
                && how.update_message
        }),
{
    lemma_badge_words();
    lemma_badge(trunk, layer, outcomes, how, "draft"@);
    lemma_badge(trunk, layer, outcomes, how, "conflicts"@);
    lemma_badge(trunk, layer, outcomes, how, "behind"@);
    lemma_badge(trunk, layer, outcomes, how, "AUTO-MERGE"@);
    lemma_badge(trunk, layer, outcomes, how, "landable"@);
    lemma_badge(trunk, layer, outcomes, how, "message differs"@);
    lemma_badge(trunk, layer, outcomes, how, "update message"@);
}

} // verus!
