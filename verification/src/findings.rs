//! What was found of a pull request, in terms of the world it was found in.

use vstd::prelude::*;

use crate::engine;
use crate::engine::{LayerCheck, OptionsView};
use crate::forge::PrView;
use crate::history;
use crate::lineage;
use crate::oid::Oid;
use crate::refs;
use crate::rest;
use crate::review_diff;
use crate::tape;
use crate::tape::{MergeView, ReplyView, RequestView, TapeView};
use crate::text;
use crate::trailers;
use crate::trailers::MessageView;

verus! {

/// The first commit of a branch says what it is to say.
pub open spec fn says(
    world: spec_fn(RequestView) -> ReplyView,
    root: Oid,
    wanted: Seq<char>,
) -> bool {
    text::trim(world(RequestView::MessageOf { commit: root })->Text_0) == text::trim(wanted)
}

/// What is said on the branch of a layer.
pub open spec fn branch_text(message: MessageView) -> Seq<char> {
    trailers::rendered(trailers::for_branch(message))
}

/// A patch can be put on another tree.
pub open spec fn fits_on(
    world: spec_fn(RequestView) -> ReplyView,
    tree: Oid,
    dep: Oid,
    content: Oid,
) -> bool {
    tree == dep || (world(RequestView::MergeTrees { base: dep, ours: tree, theirs: content })
        matches ReplyView::Merged(MergeView::Clean(_)))
}

/// What the check of a pull request means, with the first commit of its branch.
pub open spec fn means(
    world: spec_fn(RequestView) -> ReplyView,
    pr: PrView,
    message: MessageView,
    base_tip: Oid,
    dep: Oid,
    content: Oid,
    preserve: bool,
    settles: bool,
    root: Option<Oid>,
    check: LayerCheck,
) -> bool {
    let fork = world(RequestView::MergeBase { a: base_tip, b: pr.head_oid })->Object_0;
    &&& world(RequestView::TreeOf { commit: pr.head_oid }) is Object
    &&& !check.push ==> {
        &&& rest::displays(world, base_tip, pr.head_oid, dep, content)
        &&& rest::tree_in(world, base_tip) == dep || rest::merges_in(
            world,
            fork,
            pr.head_oid,
            dep,
            content,
        )
        &&& !check.message_changed
        &&& !check.rewrite
    }
    &&& match root {
        None => check.anchor is None,
        Some(root) => {
            &&& lineage::reaches(world, root, pr.head_oid)
            &&& check.anchor matches Some(anchor) ==> lineage::stems(world, root, anchor)
            &&& check.message_changed == !says(world, root, branch_text(message))
            &&& check.rewrite == (check.message_changed || (!preserve && root != pr.head_oid))
        },
    }
    &&& check.settled ==> {
        &&& settles
        &&& check.anchor is Some
        &&& world(RequestView::MergeBase { a: base_tip, b: pr.head_oid }) == ReplyView::Object(
            check.anchor->0,
        )
        &&& fits_on(world, rest::tree_in(world, check.anchor->0), dep, content)
    }
}

/// The first commit of a branch comes before its head.
pub proof fn lemma_root(
    from: TapeView,
    t: TapeView,
    pr: PrView,
    base_tip: Oid,
    to: TapeView,
    world: spec_fn(RequestView) -> ReplyView,
)
    requires
        lineage::has_history(world),
        from.asked.len() <= t.asked.len(),
        rest::hears_steady(from, to, world),
        tape::only(history::root_commit(t, pr, base_tip).0, to, |q: RequestView| true),
    ensures
        history::root_commit(t, pr, base_tip).1 matches Ok(Some(root)) ==> lineage::reaches(
            world,
            root,
            pr.head_oid,
        ),
        t.asked.len() <= history::root_commit(t, pr, base_tip).0.asked.len(),
{
    let any = |q: RequestView| true;
    assert(tape::may_look(any));
    let (end, r) = history::root_commit(t, pr, base_tip);
    let q0 = RequestView::ReferenceTarget { name: refs::root_ref(pr.number) };
    let (t0, recorded) = tape::ask_maybe_object(t, q0);
    tape::lemma_only_start(t, any);
    history::lemma_root_commit_only(t, t, pr, base_tip, any);
    if r is Ok {
        lineage::lemma_self(world, pr.head_oid);
        match recorded->Ok_0 {
            Some(root) => {
                let q1 = RequestView::MayBeAncestor { ancestor: root, descendant: pr.head_oid };
                let (t1, held) = tape::ask_flag(t0, q1);
                tape::lemma_only_start(t1, any);
                assert(tape::only(t1, end, any)) by {
                    broadcast use history::group_history_only;
                }
                tape::lemma_only_trans(t1, end, to, any);
                rest::lemma_steady_reply(from, t0, q1, to, world);
                if !held->Ok_0 {
                    lineage::lemma_walk(
                        from,
                        t1,
                        pr.head_oid,
                        base_tip,
                        None,
                        pr.head_oid,
                        to,
                        world,
                    );
                }
            },
            None => {
                lineage::lemma_walk(from, t0, pr.head_oid, base_tip, None, pr.head_oid, to, world);
            },
        }
    }
}

/// What a rebased tree is, where it can be told.
pub proof fn lemma_rebased(
    from: TapeView,
    t: TapeView,
    dep: Oid,
    onto: Oid,
    content: Oid,
    to: TapeView,
    world: spec_fn(RequestView) -> ReplyView,
)
    requires
        from.asked.len() <= t.asked.len(),
        rest::hears_steady(from, to, world),
        history::tree_rebased(t, dep, onto, content).1 is Ok,
        tape::only(history::tree_rebased(t, dep, onto, content).0, to, |q: RequestView| true),
    ensures
        ({
            let ours = rest::tree_in(world, onto);
            let merge = RequestView::MergeTrees { base: dep, ours, theirs: content };
            &&& match history::tree_rebased(t, dep, onto, content).1->Ok_0 {
                Some(tree) => if ours == dep {
                    tree == content
                } else {
                    world(merge) == ReplyView::Merged(MergeView::Clean(tree)) && tape::told(
                        to,
                        merge,
                        ReplyView::Merged(MergeView::Clean(tree)),
                    )
                },
                None => ours != dep && (world(merge) matches ReplyView::Merged(m) && m is Conflicts
                    && tape::told(to, merge, ReplyView::Merged(m))),
            }
        }),
        t.asked.len() < history::tree_rebased(t, dep, onto, content).0.asked.len(),
{
    let any = |q: RequestView| true;
    let (end, r) = history::tree_rebased(t, dep, onto, content);
    let q1 = RequestView::TreeOf { commit: onto };
    let (t1, ours) = tape::ask_object(t, q1);
    let ours = ours->Ok_0;
    let q2 = RequestView::MergeTrees { base: dep, ours, theirs: content };
    tape::lemma_only_start(t1, any);
    tape::lemma_only_ask(t1, t1, q2, any);
    assert(tape::only(t1, end, any));
    tape::lemma_only_trans(t1, end, to, any);
    rest::lemma_steady_reply(from, t, q1, to, world);
    if ours != dep {
        rest::lemma_steady_reply(from, t1, q2, to, world);
        tape::lemma_told(t1, q2);
        tape::lemma_said_stays(end, to, any);
    }
}

/// What the check of a pull request means.
#[verifier::rlimit(30)]
pub proof fn lemma_means(
    from: TapeView,
    t: TapeView,
    pr: PrView,
    message: MessageView,
    base_tip: Oid,
    dep: Oid,
    content: Oid,
    opts: OptionsView,
    settles: bool,
    to: TapeView,
    world: spec_fn(RequestView) -> ReplyView,
)
    requires
        lineage::has_history(world),
        from.asked.len() <= t.asked.len(),
        rest::hears_steady(from, to, world),
        engine::pr_check(t, pr, message, base_tip, dep, content, opts, settles).1 is Ok,
        tape::only(
            engine::pr_check(t, pr, message, base_tip, dep, content, opts, settles).0,
            to,
            |q: RequestView| true,
        ),
    ensures
        history::root_commit(t, pr, base_tip).1 is Ok,
        tape::only(history::root_commit(t, pr, base_tip).0, to, |q: RequestView| true),
        tape::told(
            engine::pr_check(t, pr, message, base_tip, dep, content, opts, settles).0,
            RequestView::TreeOf { commit: base_tip },
            ReplyView::Object(rest::tree_in(world, base_tip)),
        ),
        means(
            world,
            pr,
            message,
            base_tip,
            dep,
            content,
            opts.preserve_commit_history,
            settles,
            history::root_commit(t, pr, base_tip).1->Ok_0,
            engine::pr_check(t, pr, message, base_tip, dep, content, opts, settles).1->Ok_0,
        ),
{
    let any = |q: RequestView| true;
    assert(tape::may_look(any));
    let (end, r) = engine::pr_check(t, pr, message, base_tip, dep, content, opts, settles);
    let (t1, root) = history::root_commit(t, pr, base_tip);
    let root = root->Ok_0;
    let (t2, check) = engine::root_check(t1, pr, message, opts.preserve_commit_history, root);
    let check = check->Ok_0;
    let (t3, shown) = review_diff::patch_hash(t2, base_tip, pr.head_oid);
    let qd = RequestView::PatchId { from: dep, to: content };
    let (t4, desired) = tape::ask_object(t3, qd);
    let (t5, diverges) = engine::would_diverge(t4, base_tip, pr.head_oid, dep, content);
    let (t6, behind) = engine::behind_base(
        t5,
        pr,
        base_tip,
        check.anchor,
        opts.refresh_when_behind,
    );
    let (t7, settled) = engine::may_stay(
        t6,
        check.anchor,
        base_tip,
        pr.head_oid,
        dep,
        content,
        settles,
    );
    assert(end == t7);
    tape::lemma_only_start(t1, any);
    tape::lemma_only_start(t2, any);
    tape::lemma_only_start(t3, any);
    tape::lemma_only_start(t4, any);
    tape::lemma_only_start(t5, any);
    tape::lemma_only_start(t6, any);
    engine::lemma_may_stay_only(
        t6,
        t6,
        check.anchor,
        base_tip,
        pr.head_oid,
        dep,
        content,
        settles,
        any,
    );
    tape::lemma_only_trans(t6, t7, to, any);
    engine::lemma_behind_base_only(
        t5,
        t5,
        pr,
        base_tip,
        check.anchor,
        opts.refresh_when_behind,
        any,
    );
    tape::lemma_only_trans(t5, t6, to, any);
    engine::lemma_would_diverge_only(t4, t4, base_tip, pr.head_oid, dep, content, any);
    tape::lemma_only_trans(t4, t5, to, any);
    tape::lemma_only_ask(t3, t3, qd, any);
    tape::lemma_only_trans(t3, t4, to, any);
    review_diff::lemma_patch_hash_only(t2, t2, base_tip, pr.head_oid, any);
    tape::lemma_only_trans(t2, t3, to, any);
    engine::lemma_root_check_only(
        t1,
        t1,
        pr,
        message,
        opts.preserve_commit_history,
        root,
        any,
    );
    tape::lemma_only_trans(t1, t2, to, any);
    lemma_root(from, t, pr, base_tip, to, world);
    lemma_root_check(from, t1, pr, message, opts.preserve_commit_history, root, to, world);
    rest::lemma_shown(from, t2, base_tip, pr.head_oid, to, world);
    rest::lemma_steady_reply(from, t3, qd, to, world);
    lemma_not_diverging(from, t4, base_tip, pr.head_oid, dep, content, to, world);
    tape::lemma_only_trans(t5, t6, t7, any);
    tape::lemma_said_stays(t5, t7, any);
    lemma_settled(
        from,
        t6,
        check.anchor,
        base_tip,
        pr.head_oid,
        dep,
        content,
        settles,
        to,
        world,
    );
}

proof fn lemma_root_check(
    from: TapeView,
    t: TapeView,
    pr: PrView,
    message: MessageView,
    preserve: bool,
    root: Option<Oid>,
    to: TapeView,
    world: spec_fn(RequestView) -> ReplyView,
)
    requires
        lineage::has_history(world),
        from.asked.len() <= t.asked.len(),
        rest::hears_steady(from, to, world),
        engine::root_check(t, pr, message, preserve, root).1 is Ok,
        tape::only(
            engine::root_check(t, pr, message, preserve, root).0,
            to,
            |q: RequestView| true,
        ),
    ensures
        ({
            let check = engine::root_check(t, pr, message, preserve, root).1->Ok_0;
            match root {
                None => check.anchor is None && !check.message_changed && !check.rewrite,
                Some(root) => {
                    &&& check.anchor matches Some(anchor) ==> lineage::stems(world, root, anchor)
                    &&& check.message_changed == !says(world, root, branch_text(message))
                    &&& check.rewrite == (check.message_changed || (!preserve && root
                        != pr.head_oid))
                },
            }
        }),
{
    if root is Some {
        let any = |q: RequestView| true;
        let root = root->0;
        let q1 = RequestView::TryParentOf { commit: root };
        let q2 = RequestView::MessageOf { commit: root };
        let (t1, anchor) = tape::ask_maybe_object(t, q1);
        let (t2, current) = tape::ask_text(t1, q2);
        tape::lemma_only_start(t1, any);
        tape::lemma_only_ask(t1, t1, q2, any);
        tape::lemma_only_trans(t1, t2, to, any);
        rest::lemma_steady_reply(from, t, q1, to, world);
        rest::lemma_steady_reply(from, t1, q2, to, world);
        lineage::lemma_agree(world, root, root);
    }
}

proof fn lemma_not_diverging(
    from: TapeView,
    t: TapeView,
    base_tip: Oid,
    head: Oid,
    dep: Oid,
    content: Oid,
    to: TapeView,
    world: spec_fn(RequestView) -> ReplyView,
)
    requires
        from.asked.len() <= t.asked.len(),
        rest::hears_steady(from, to, world),
        engine::would_diverge(t, base_tip, head, dep, content).1 is Ok,
        tape::only(
            engine::would_diverge(t, base_tip, head, dep, content).0,
            to,
            |q: RequestView| true,
        ),
    ensures
        !(engine::would_diverge(t, base_tip, head, dep, content).1->Ok_0) ==> rest::tree_in(
            world,
            base_tip,
        ) == dep || rest::merges_in(
            world,
            world(RequestView::MergeBase { a: base_tip, b: head })->Object_0,
            head,
            dep,
            content,
        ),
        tape::told(
            engine::would_diverge(t, base_tip, head, dep, content).0,
            RequestView::TreeOf { commit: base_tip },
            ReplyView::Object(rest::tree_in(world, base_tip)),
        ),
{
    broadcast use tape::lemma_only_ask;

    let any = |q: RequestView| true;
    let q1 = RequestView::TreeOf { commit: base_tip };
    let (t1, tree) = tape::ask_object(t, q1);
    let end = engine::would_diverge(t, base_tip, head, dep, content).0;
    tape::lemma_only_start(t1, any);
    assert(tape::only(t1, end, any));
    tape::lemma_only_trans(t1, end, to, any);
    rest::lemma_steady_reply(from, t, q1, to, world);
    tape::lemma_told(t, q1);
    tape::lemma_said_stays(t1, end, any);
    if tree->Ok_0 != dep {
        let q2 = RequestView::MergeBase { a: base_tip, b: head };
        let (t2, fork) = tape::ask_object(t1, q2);
        let q3 = RequestView::TreeOf { commit: fork->Ok_0 };
        let (t3, below) = tape::ask_object(t2, q3);
        let q4 = RequestView::TreeOf { commit: head };
        let (t4, above) = tape::ask_object(t3, q4);
        let q5 = RequestView::MergeTrees { base: below->Ok_0, ours: dep, theirs: above->Ok_0 };
        let (t5, merge) = tape::ask_merge(t4, q5);
        assert(end == t5);
        tape::lemma_only_start(t4, any);
        assert(tape::only(t4, t5, any));
        tape::lemma_only_trans(t4, t5, to, any);
        tape::lemma_only_start(t3, any);
        assert(tape::only(t3, t4, any));
        tape::lemma_only_trans(t3, t4, to, any);
        tape::lemma_only_start(t2, any);
        assert(tape::only(t2, t3, any));
        tape::lemma_only_trans(t2, t3, to, any);
        rest::lemma_steady_reply(from, t1, q2, to, world);
        rest::lemma_steady_reply(from, t2, q3, to, world);
        rest::lemma_steady_reply(from, t3, q4, to, world);
        rest::lemma_steady_reply(from, t4, q5, to, world);
    }
}

proof fn lemma_settled(
    from: TapeView,
    t: TapeView,
    anchor: Option<Oid>,
    base_tip: Oid,
    head: Oid,
    dep: Oid,
    content: Oid,
    wanted: bool,
    to: TapeView,
    world: spec_fn(RequestView) -> ReplyView,
)
    requires
        lineage::has_history(world),
        from.asked.len() <= t.asked.len(),
        rest::hears_steady(from, to, world),
        engine::may_stay(t, anchor, base_tip, head, dep, content, wanted).1 is Ok,
        tape::only(
            engine::may_stay(t, anchor, base_tip, head, dep, content, wanted).0,
            to,
            |q: RequestView| true,
        ),
    ensures
        engine::may_stay(t, anchor, base_tip, head, dep, content, wanted).1->Ok_0 ==> {
            &&& wanted
            &&& anchor is Some
            &&& world(RequestView::MergeBase { a: base_tip, b: head }) == ReplyView::Object(
                anchor->0,
            )
            &&& fits_on(world, rest::tree_in(world, anchor->0), dep, content)
        },
{
    let any = |q: RequestView| true;
    assert(tape::may_look(any));
    let (end, r) = engine::may_stay(t, anchor, base_tip, head, dep, content, wanted);
    if r->Ok_0 {
        let q = RequestView::MergeBaseIfAny { a: base_tip, b: head };
        let (t1, fork) = tape::ask_maybe_object(t, q);
        tape::lemma_only_start(t1, any);
        history::lemma_tree_rebased_only(t1, t1, dep, anchor->0, content, any);
        tape::lemma_only_trans(t1, end, to, any);
        rest::lemma_steady_reply(from, t, q, to, world);
        lineage::lemma_agree(world, base_tip, head);
        lemma_rebased(from, t1, dep, anchor->0, content, to, world);
    }
}

} // verus!
