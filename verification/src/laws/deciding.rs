//! What is promised of which layers are pushed.

use vstd::prelude::*;

use crate::discovery::TreesView;
use crate::engine;
use crate::engine::{LayerCheck, OptionsView};
use crate::forge::{MergeState, Mergeable, PrView};
use crate::stack::StackView;
use crate::tape;
use crate::tape::{ReplyView, RequestView, TapeView};
use crate::text;
use crate::trailers;
use crate::trailers::MessageView;

verus! {

/// There is reason enough to push layer `i` without looking at what it holds: the user
/// wants everything pushed, it has no pull request, or the forge says that its pull
/// request cannot be merged as it is.
pub open spec fn due(prs: Seq<Option<PrView>>, opts: OptionsView, i: int) -> bool {
    match prs[i] {
        None => true,
        Some(pr) => opts.sync_all || pr.mergeable == Mergeable::Conflicting || (
        opts.refresh_when_behind && pr.merge_state == MergeState::Behind),
    }
}

proof fn lemma_checks(
    t: TapeView,
    s: StackView,
    prs: Seq<Option<PrView>>,
    trees: TreesView,
    opts: OptionsView,
    i: int,
    checks: Seq<LayerCheck>,
)
    requires
        0 <= i <= s.layers.len(),
        checks.len() == i,
        forall|k: int|
            0 <= k < i && engine::in_scope(opts, k) && due(prs, opts, k) ==> (
            #[trigger] checks[k]).push,
    ensures
        engine::checks_from(t, s, prs, trees, opts, i, checks).1 matches Ok(all) ==> all.len()
            == s.layers.len() && forall|k: int|
            0 <= k < all.len() && engine::in_scope(opts, k) && due(prs, opts, k) ==> (
            #[trigger] all[k]).push,
    decreases s.layers.len() - i,
{
    if i < s.layers.len() {
        let (t1, check) = engine::layer_check(t, s, prs, trees, opts, i);
        if check is Ok {
            match prs[i] {
                Some(pr) => match engine::remote_base_tip(s, prs, i) {
                    Some(base_tip) => engine::lemma_pr_check(
                        t,
                        pr,
                        s.layers[i].message,
                        base_tip,
                        trees.dep[i],
                        trees.effective[i],
                        opts,
                        engine::may_settle(s, opts, i),
                    ),
                    None => {},
                },
                None => {},
            }
            let more = checks.push(check->Ok_0);
            assert forall|k: int|
                0 <= k < i + 1 && engine::in_scope(opts, k) && due(prs, opts, k) implies (
            #[trigger] more[k]).push by {
                if k < i {
                    assert(more[k] == checks[k]);
                }
            }
            lemma_checks(t1, s, prs, trees, opts, i + 1, more);
        }
    }
}

/// A layer that is due is pushed: with `--all` every one that is worked on, and always one
/// without a pull request and one that the forge cannot merge as it is.
pub proof fn law_due_layers_are_pushed(
    t: TapeView,
    s: StackView,
    prs: Seq<Option<PrView>>,
    trees: TreesView,
    opts: OptionsView,
    i: int,
)
    requires
        engine::fits(s, prs, trees),
        0 <= i < s.layers.len(),
        opts.only_layer matches Some(one) ==> one == i,
        due(prs, opts, i),
    ensures
        engine::decided(t, s, prs, trees, opts).1 matches Ok(d) ==> d.push[i],
{
    engine::law_decision_is_warranted(t, s, prs, trees, opts);
    let (to, r) = engine::decided(t, s, prs, trees, opts);
    if r is Ok {
        let checks = engine::checks_from(t, s, prs, trees, opts, 0, Seq::empty()).1->Ok_0;
        lemma_checks(t, s, prs, trees, opts, 0, Seq::empty());
        assert(engine::warranted(s, prs, opts, checks, r->Ok_0, i));
        assert(checks[i].push);
    }
}

/// The message of a branch counts as changed exactly if its first commit says something
/// else than the local commit, apart from trailers that do not go into a branch and from
/// space around it; and the pull request counts as edited on the web exactly if it says
/// something else than that first commit.
pub proof fn law_changed_messages_are_noticed(
    t: TapeView,
    pr: PrView,
    m: MessageView,
    preserve: bool,
    root: crate::oid::Oid,
)
    ensures
        ({
            let (to, r) = engine::root_check(t, pr, m, preserve, Some(root));
            r matches Ok(check) ==> exists|current: Seq<char>|
                #[trigger] tape::told(
                    to,
                    RequestView::MessageOf { commit: root },
                    ReplyView::Text(current),
                ) && {
                    &&& check.message_changed <==> text::trim(current) != text::trim(
                        trailers::rendered(trailers::for_branch(m)),
                    )
                    &&& check.github_message_edited <==> pr.title != trailers::parsed(
                        current,
                    ).subject || text::trim(crate::pr_body::without_warning(pr.body))
                        != trailers::parsed(current).body
                    &&& check.message_changed ==> check.rewrite
                    &&& !preserve && root != pr.head_oid ==> check.rewrite
                    &&& check.rewrite ==> check.message_changed || !preserve
                }
        }),
{
    let (to, r) = engine::root_check(t, pr, m, preserve, Some(root));
    if r is Ok {
        let (t1, anchor) = tape::ask_maybe_object(t, RequestView::TryParentOf { commit: root });
        let q = RequestView::MessageOf { commit: root };
        let (t2, current) = tape::ask_text(t1, q);
        tape::lemma_told(t1, q);
        assert(to == t2);
        assert(tape::told(to, q, ReplyView::Text(current->Ok_0)));
    }
}

} // verus!
