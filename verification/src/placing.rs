//! Where the branches of a run come to stand, in terms of the world that it leaves
//! behind.

use vstd::prelude::*;

use crate::engine;
use crate::engine::LayerCheck;
use crate::execution;
use crate::execution::{ContextView, PlacementView, SpotView};
use crate::findings;
use crate::forge;
use crate::forge::{PrView, PushView};
use crate::history;
use crate::lineage;
use crate::memory;
use crate::oid::Oid;
use crate::refs;
use crate::rest;
use crate::stack;
use crate::stack::Dep;
use crate::tape;
use crate::tape::{HaltView, MergeView, ReplyView, RequestView, TapeView};
use crate::text;

verus! {

/// The clean-up of a commit message leaves the text as it is.
pub open spec fn clean_text(message: Seq<char>) -> bool {
    match history::prettified(message) {
        Some(pretty) => text::trim(pretty) == text::trim(message),
        None => true,
    }
}

/// What the first commit of the branch of layer `i` is to say.
pub open spec fn root_text(cx: ContextView, i: int) -> Seq<char> {
    findings::branch_text(cx.stack.layers[i].message)
}

/// Nothing that was known by then comes from a commit.
pub open spec fn fresh(
    world: spec_fn(RequestView) -> ReplyView,
    t: TapeView,
    commit: Oid,
) -> bool {
    forall|known: Oid| #[trigger]
        memory::knew(t, t.asked.len() as int, known) ==> !lineage::reaches(world, commit, known)
}

proof fn lemma_fresh(
    world: spec_fn(RequestView) -> ReplyView,
    t: TapeView,
    to: TapeView,
    k: int,
    commit: Oid,
)
    requires
        tape::only(t, to, |q: RequestView| true),
        t.asked.len() <= k,
        memory::is_new(world, to, k, commit),
    ensures
        fresh(world, t, commit),
{
    assert forall|known: Oid| #[trigger] memory::knew(t, t.asked.len() as int, known) implies !lineage::reaches(
        world,
        commit,
        known,
    ) by {
        let m = choose|m: int|
            0 <= m < t.asked.len() && m < t.replies.len() && memory::shows_commit(
                #[trigger] t.asked[m],
                t.replies[m],
                known,
            );
        assert(to.asked[m] == t.asked[m]);
        assert(memory::knew(to, k, known));
    }
}

proof fn lemma_derived(
    start: TapeView,
    t: TapeView,
    attribution: Oid,
    message: Seq<char>,
    tree: Oid,
    parent: Oid,
    before: spec_fn(RequestView) -> ReplyView,
    to: TapeView,
    world: spec_fn(RequestView) -> ReplyView,
)
    requires
        memory::remembers(before, world, to),
        tape::only(start, to, |q: RequestView| true),
        start.asked.len() <= t.asked.len(),
        history::derived(t, attribution, message, tree, parent).1 is Ok,
        tape::only(
            history::derived(t, attribution, message, tree, parent).0,
            to,
            |q: RequestView| true,
        ),
    ensures
        ({
            let commit = history::derived(t, attribution, message, tree, parent).1->Ok_0;
            &&& history::prettified(message) is Some
            &&& memory::has_commit(
                world,
                commit,
                history::prettified(message)->0,
                tree,
                parent,
            )
            &&& fresh(world, start, commit)
        }),
{
    let q = RequestView::DeriveCommit {
        attribution,
        message: history::prettified(message)->0,
        tree,
        parent,
    };
    memory::lemma_recalled(before, world, t, q, to);
    let commit = history::derived(t, attribution, message, tree, parent).1->Ok_0;
    lemma_fresh(world, start, to, t.asked.len() as int, commit);
}

proof fn lemma_appended(
    start: TapeView,
    t: TapeView,
    cx: ContextView,
    i: int,
    tip: Oid,
    tree: Oid,
    before: spec_fn(RequestView) -> ReplyView,
    to: TapeView,
    world: spec_fn(RequestView) -> ReplyView,
)
    requires
        memory::remembers(before, world, to),
        tape::only(start, to, |q: RequestView| true),
        start.asked.len() <= t.asked.len(),
        execution::appended(t, cx, i, tip, tree).1 is Ok,
        tape::only(execution::appended(t, cx, i, tip, tree).0, to, |q: RequestView| true),
    ensures
        ({
            let last = execution::appended(t, cx, i, tip, tree).1->Ok_0;
            &&& rest::tree_in(world, last) == tree
            &&& lineage::stems(world, last, tip)
            &&& fresh(world, start, last)
        }),
{
    let any = |q: RequestView| true;
    let end = execution::appended(t, cx, i, tip, tree).0;
    let (u1, message) = execution::update_text(
        t,
        cx.opts,
        cx.decision.patch_changed[i],
        cx.stack.layers[i].message.subject,
    );
    let (u2, last) = history::derived(
        u1,
        cx.stack.layers[i].commit,
        message->Ok_0,
        tree,
        tip,
    );
    tape::lemma_only_start(u2, any);
    assert(tape::only(u2, end, any)) by {
        broadcast use tape::lemma_only_ask;
    }
    tape::lemma_only_trans(u2, end, to, any);
    lemma_derived(
        start,
        u1,
        cx.stack.layers[i].commit,
        message->Ok_0,
        tree,
        tip,
        before,
        to,
        world,
    );
}

/// What is replayed makes a line.
proof fn lemma_replayed(
    t: TapeView,
    revisions: Seq<Oid>,
    i: int,
    tip: Oid,
    first: Option<Seq<char>>,
    base: Oid,
    root: Oid,
    n: nat,
    wanted: Seq<char>,
    before: spec_fn(RequestView) -> ReplyView,
    to: TapeView,
    world: spec_fn(RequestView) -> ReplyView,
) -> (r: (Oid, nat))
    requires
        memory::remembers(before, world, to),
        match first {
            Some(message) => tip == base && message == wanted,
            None => lineage::line(world, base, root, tip, n) && findings::says(world, root, wanted),
        },
        history::replay_from(t, revisions, i, tip, first).1 matches Ok(Some(_)),
        tape::only(
            history::replay_from(t, revisions, i, tip, first).0,
            to,
            |q: RequestView| true,
        ),
    ensures
        lineage::line(
            world,
            base,
            r.0,
            (history::replay_from(t, revisions, i, tip, first).1->Ok_0)->0,
            r.1,
        ),
        findings::says(world, r.0, wanted),
    decreases revisions.len() - i,
{
    if i < 0 || i >= revisions.len() {
        (root, n)
    } else {
        let any = |q: RequestView| true;
        assert(tape::may_look(any));
        let end = history::replay_from(t, revisions, i, tip, first).0;
        let commit = revisions[i];
        let (t1, first_parent) = tape::ask_flag(t, RequestView::IsMerge { commit });
        let (t2, merge) = tape::ask_merge(
            t1,
            RequestView::CherryPick { commit, onto: tip, first_parent: first_parent->Ok_0 },
        );
        let tree = (merge->Ok_0)->Clean_0;
        let (t3, below) = tape::ask_object(t2, RequestView::TreeOf { commit: tip });
        if tree == below->Ok_0 {
            lemma_replayed(
                t3,
                revisions,
                i + 1,
                tip,
                first,
                base,
                root,
                n,
                wanted,
                before,
                to,
                world,
            )
        } else {
            let (t4, message) = history::replayed_message(t3, commit, first);
            let q = RequestView::CopyCommit {
                original: commit,
                message: message->Ok_0,
                tree,
                parent: tip,
            };
            let (t5, next) = tape::ask_object(t4, q);
            let next = next->Ok_0;
            assert(history::replay_from(t, revisions, i, tip, first) == history::replay_from(
                t5,
                revisions,
                i + 1,
                next,
                None,
            ));
            tape::lemma_only_start(t5, any);
            history::lemma_replay_only(t5, t5, revisions, i + 1, next, None, any);
            tape::lemma_only_trans(t5, end, to, any);
            memory::lemma_recalled(before, world, t4, q, to);
            assert(lineage::stems(world, next, tip));
            let (bottom, length) = if first is Some {
                assert(lineage::line(world, base, next, next, 1));
                (next, 1nat)
            } else {
                assert(n > 0);
                assert(lineage::line(world, base, root, next, n + 1));
                (root, n + 1)
            };
            lemma_replayed(
                t5,
                revisions,
                i + 1,
                next,
                None,
                base,
                bottom,
                length,
                wanted,
                before,
                to,
                world,
            )
        }
    }
}

proof fn lemma_reanchored(
    start: TapeView,
    t: TapeView,
    cx: ContextView,
    i: int,
    pr: PrView,
    origin: Oid,
    anchor: Oid,
    tree: Oid,
    before: spec_fn(RequestView) -> ReplyView,
    to: TapeView,
    world: spec_fn(RequestView) -> ReplyView,
) -> (r: (Oid, nat))
    requires
        memory::remembers(before, world, to),
        tape::only(start, to, |q: RequestView| true),
        start.asked.len() <= t.asked.len(),
        execution::reanchored(t, cx, i, pr, origin, anchor, tree).1 is Ok,
        tape::only(
            execution::reanchored(t, cx, i, pr, origin, anchor, tree).0,
            to,
            |q: RequestView| true,
        ),
    ensures
        lineage::line(
            world,
            anchor,
            r.0,
            execution::reanchored(t, cx, i, pr, origin, anchor, tree).1->Ok_0,
            r.1,
        ),
        clean_text(root_text(cx, i)) ==> findings::says(world, r.0, root_text(cx, i)),
{
    let any = |q: RequestView| true;
    assert(tape::may_look(any));
    let wanted = root_text(cx, i);
    let (end, r) = execution::reanchored(t, cx, i, pr, origin, anchor, tree);
    let (t1, revisions) = history::revisions(t, pr.head_oid, origin);
    let (t2, tip) = history::replayed(t1, revisions->Ok_0, anchor, wanted);
    if tip->Ok_0 is Some {
        lemma_replayed(
            t1,
            revisions->Ok_0,
            0,
            anchor,
            Some(wanted),
            anchor,
            anchor,
            0,
            wanted,
            before,
            to,
            world,
        )
    } else {
        tape::lemma_only_start(t, any);
        history::lemma_revisions_only(t, t, pr.head_oid, origin, Seq::empty(), any);
        history::lemma_replay_only(
            t,
            t1,
            revisions->Ok_0,
            0,
            anchor,
            Some(wanted),
            any,
        );
        lemma_derived(
            start,
            t2,
            cx.stack.layers[i].commit,
            wanted,
            tree,
            anchor,
            before,
            to,
            world,
        );
        assert(lineage::line(world, anchor, r->Ok_0, r->Ok_0, 1));
        (r->Ok_0, 1)
    }
}

/// The branch of layer `i` was written anew on top of `base`.
pub open spec fn anew(
    world: spec_fn(RequestView) -> ReplyView,
    cx: ContextView,
    i: int,
    base: Oid,
    root: Oid,
    tip: Oid,
) -> bool {
    &&& exists|n: nat| #[trigger] lineage::line(world, base, root, tip, n)
    &&& clean_text(root_text(cx, i)) ==> findings::says(world, root, root_text(cx, i))
    &&& !cx.opts.preserve_commit_history ==> root == tip
}

proof fn lemma_rewritten(
    start: TapeView,
    t: TapeView,
    cx: ContextView,
    i: int,
    pr: PrView,
    origin: Oid,
    anchor: Oid,
    tree: Oid,
    before: spec_fn(RequestView) -> ReplyView,
    to: TapeView,
    world: spec_fn(RequestView) -> ReplyView,
)
    requires
        cx.opts.preserve_commit_history,
        lineage::has_history(world),
        memory::remembers(before, world, to),
        tape::only(start, to, |q: RequestView| true),
        start.asked.len() <= t.asked.len(),
        execution::rewritten(t, cx, i, pr, origin, anchor, tree).1 is Ok,
        tape::only(
            execution::rewritten(t, cx, i, pr, origin, anchor, tree).0,
            to,
            |q: RequestView| true,
        ),
    ensures
        ({
            let (tip, root) = execution::rewritten(t, cx, i, pr, origin, anchor, tree).1->Ok_0;
            &&& rest::tree_in(world, tip) == tree
            &&& root matches Some(root) && anew(world, cx, i, anchor, root, tip)
        }),
{
    let any = |q: RequestView| true;
    assert(tape::may_look(any));
    let end = execution::rewritten(t, cx, i, pr, origin, anchor, tree).0;
    let (t1, tip) = execution::reanchored(t, cx, i, pr, origin, anchor, tree);
    let tip = tip->Ok_0;
    let q = RequestView::TreeOf { commit: tip };
    let (t2, reached) = tape::ask_object(t1, q);
    let reached = reached->Ok_0;
    let (t3, last) = if reached != tree {
        execution::appended(t2, cx, i, tip, tree)
    } else {
        tape::done(t2, tip)
    };
    let last = last->Ok_0;
    let (t4, revisions) = history::revisions(t3, last, anchor);
    assert(t4 == end);
    tape::lemma_only_start(t, any);
    execution::lemma_reanchored_only(t, t, cx, i, pr, origin, anchor, tree, any);
    tape::lemma_only_start(t1, any);
    tape::lemma_only_ask(t1, t1, q, any);
    tape::lemma_only_start(t2, any);
    execution::lemma_appended_only(t2, t2, cx, i, tip, tree, any);
    tape::lemma_only_start(t3, any);
    history::lemma_revisions_only(t3, t3, last, anchor, Seq::empty(), any);
    tape::lemma_only_trans(t3, end, to, any);
    tape::lemma_only_trans(t2, t3, to, any);
    tape::lemma_only_trans(t1, t2, to, any);
    let (root, n) = lemma_reanchored(
        start,
        t,
        cx,
        i,
        pr,
        origin,
        anchor,
        tree,
        before,
        to,
        world,
    );
    memory::lemma_steady(before, world, t, to);
    rest::lemma_steady_reply(t, t1, q, to, world);
    if reached != tree {
        lemma_appended(start, t2, cx, i, tip, tree, before, to, world);
        assert(n > 0);
        assert(lineage::stems(world, last, tip));
        assert(lineage::line(world, anchor, root, last, n + 1));
        lineage::lemma_revisions(t, t3, anchor, root, last, n + 1, Seq::empty(), to, world);
    } else {
        lineage::lemma_revisions(t, t3, anchor, root, last, n, Seq::empty(), to, world);
    }
}

/// What the commits for a branch come to: the branch is written anew on top of the
/// anchor, or it got one more commit, which is new.
pub proof fn lemma_recommitted(
    start: TapeView,
    t: TapeView,
    cx: ContextView,
    i: int,
    pr: PrView,
    origin: Oid,
    anchor: Oid,
    tree: Oid,
    before: spec_fn(RequestView) -> ReplyView,
    to: TapeView,
    world: spec_fn(RequestView) -> ReplyView,
)
    requires
        lineage::has_history(world),
        memory::remembers(before, world, to),
        tape::only(start, to, |q: RequestView| true),
        start.asked.len() <= t.asked.len(),
        execution::recommitted(t, cx, i, pr, origin, anchor, tree).1 is Ok,
        tape::only(
            execution::recommitted(t, cx, i, pr, origin, anchor, tree).0,
            to,
            |q: RequestView| true,
        ),
    ensures
        ({
            let (tip, root, forced) = execution::recommitted(
                t,
                cx,
                i,
                pr,
                origin,
                anchor,
                tree,
            ).1->Ok_0;
            &&& rest::tree_in(world, tip) == tree
            &&& forced == (!cx.opts.preserve_commit_history || cx.decision.rewrite_history[i]
                || anchor != origin)
            &&& forced ==> (root matches Some(root) && anew(world, cx, i, anchor, root, tip))
            &&& !forced ==> root is None && lineage::stems(world, tip, pr.head_oid) && fresh(
                world,
                start,
                tip,
            )
        }),
{
    if !cx.opts.preserve_commit_history {
        lemma_derived(
            start,
            t,
            cx.stack.layers[i].commit,
            root_text(cx, i),
            tree,
            anchor,
            before,
            to,
            world,
        );
        let tip = execution::recommitted(t, cx, i, pr, origin, anchor, tree).1->Ok_0.0;
        assert(lineage::line(world, anchor, tip, tip, 1));
    } else if cx.decision.rewrite_history[i] || anchor != origin {
        lemma_rewritten(start, t, cx, i, pr, origin, anchor, tree, before, to, world);
    } else {
        lemma_appended(start, t, cx, i, pr.head_oid, tree, before, to, world);
    }
}

/// How a branch was moved: from where it started, and to which place with which tree.
pub struct Move {
    pub origin: Oid,
    pub at: TapeView,
    pub place: (Oid, Oid),
    pub early: bool,
    pub drafted: Option<Seq<char>>,
}

/// A branch that is not left behind goes where it belongs, or, where that cannot be done
/// without a conflict, onto the tip below with the content it is to have.
proof fn lemma_moved(
    from: TapeView,
    t: TapeView,
    cx: ContextView,
    p: PlacementView,
    i: int,
    pr: PrView,
    parent_tip: Oid,
    base_branch: Seq<char>,
    to: TapeView,
    world: spec_fn(RequestView) -> ReplyView,
) -> (m: Move)
    requires
        from.asked.len() <= t.asked.len(),
        rest::hears_steady(from, to, world),
        execution::moved_branch(t, cx, p, i, pr, parent_tip, base_branch).1 is Ok,
        !(execution::moved_branch(t, cx, p, i, pr, parent_tip, base_branch).1->Ok_0).staged,
        tape::only(
            execution::moved_branch(t, cx, p, i, pr, parent_tip, base_branch).0,
            to,
            |q: RequestView| true,
        ),
    ensures
        execution::moved_branch(t, cx, p, i, pr, parent_tip, base_branch)
            == execution::moved_commits(
            m.at,
            cx,
            i,
            pr,
            m.origin,
            m.early,
            m.drafted,
            m.place,
            false,
        ),
        tape::only(t, m.at, |q: RequestView| true),
        execution::branch_start(t, pr, execution::fallback_base(cx, i)).1 == Ok::<Oid, HaltView>(
            m.origin,
        ),
        tape::only(
            execution::branch_start(t, pr, execution::fallback_base(cx, i)).0,
            to,
            |q: RequestView| true,
        ),
        ({
            let dep = cx.trees.dep[i];
            let content = cx.trees.effective[i];
            let ours = rest::tree_in(world, m.place.0);
            let merge = RequestView::MergeTrees { base: dep, ours, theirs: content };
            ||| {
                &&& m.place.0 == execution::home_of(cx, i, m.origin, parent_tip)
                &&& if ours == dep {
                    m.place.1 == content
                } else {
                    tape::told(to, merge, ReplyView::Merged(MergeView::Clean(m.place.1)))
                }
            }
            ||| m.place == (parent_tip, content) && conflicts(to, dep, content)
        }),
{
    broadcast use tape::lemma_only_ask;

    let any = |q: RequestView| true;
    assert(tape::may_do_all_but_push(any));
    assert(tape::may_look(any));
    let (end, r) = execution::moved_branch(t, cx, p, i, pr, parent_tip, base_branch);
    let dep = cx.trees.dep[i];
    let content = cx.trees.effective[i];
    let fallback = execution::fallback_base(cx, i);
    let (t1, origin) = execution::branch_start(t, pr, fallback);
    let origin = origin->Ok_0;
    let current = execution::current_base(pr, origin);
    let target = engine::remote_base_tip(cx.stack, cx.prs, i);
    let (t2, early) = execution::may_retarget_early(t1, pr, base_branch, target, current, origin);
    let early = early->Ok_0;
    let (t3, drafted) = if early {
        execution::retarget_early(t2, cx.config, pr, base_branch)
    } else {
        tape::done(t2, None)
    };
    let drafted = drafted->Ok_0;
    let (t4, old_base) = execution::steady_base(t3, p, pr, current);
    let home = execution::home_of(cx, i, origin, parent_tip);
    let (t5, anchor) = execution::safe_anchor(
        t4,
        pr,
        base_branch,
        early,
        old_base->Ok_0,
        home,
    );
    let anchor = anchor->Ok_0;
    let (t6, tree) = history::tree_rebased(t5, dep, anchor, content);
    tape::lemma_only_start(t, any);
    execution::lemma_branch_start_only(t, t, pr, fallback, any);
    tape::lemma_only_start(t1, any);
    execution::lemma_may_retarget_early_only(
        t1,
        t1,
        pr,
        base_branch,
        target,
        current,
        origin,
        any,
    );
    execution::lemma_retarget_early_only(t1, t2, cx.config, pr, base_branch, any);
    assert(tape::only(t1, t3, any));
    execution::lemma_steady_base_only(t1, t3, p, pr, current, any);
    execution::lemma_safe_anchor_only(
        t1,
        t4,
        pr,
        base_branch,
        early,
        old_base->Ok_0,
        home,
        any,
    );
    assert(tape::only(t1, t5, any));
    history::lemma_tree_rebased_only(t1, t5, dep, anchor, content, any);
    assert(tape::only(t1, t6, any));
    tape::lemma_only_trans(t, t1, t5, any);
    let (place, at) = match tree->Ok_0 {
        Some(tree) => (
            (anchor, tree),
            if anchor == origin && (anchor != home || execution::on_held(cx, p, i)) {
                tape::ask(t6, RequestView::TreeOf { commit: pr.head_oid }).0
            } else {
                t6
            },
        ),
        None => ((parent_tip, content), t6),
    };
    tape::lemma_only_start(t6, any);
    assert(tape::only(t6, at, any));
    tape::lemma_only_start(at, any);
    execution::lemma_moved_commits_only(
        at,
        at,
        cx,
        i,
        pr,
        origin,
        early,
        drafted,
        place,
        false,
        any,
    );
    assert((end, r) == execution::moved_commits(
        at,
        cx,
        i,
        pr,
        origin,
        early,
        drafted,
        place,
        false,
    ));
    tape::lemma_only_trans(at, end, to, any);
    tape::lemma_only_trans(t6, at, to, any);
    tape::lemma_only_trans(t1, t6, to, any);
    tape::lemma_only_trans(t, t1, t6, any);
    tape::lemma_only_trans(t, t6, at, any);
    findings::lemma_rebased(from, t5, dep, anchor, content, to, world);
    Move { origin, at, place, early, drafted }
}

/// It was found that a patch cannot be put somewhere.
pub open spec fn conflicts(t: TapeView, dep: Oid, content: Oid) -> bool {
    exists|ours: Oid, m: MergeView| #[trigger]
        tape::told(
            t,
            RequestView::MergeTrees { base: dep, ours, theirs: content },
            ReplyView::Merged(m),
        ) && m is Conflicts
}

/// A patch keeps itself wherever it was put.
pub open spec fn keeps(
    world: spec_fn(RequestView) -> ReplyView,
    t: TapeView,
    dep: Oid,
    content: Oid,
) -> bool {
    forall|ours: Oid, tree: Oid| #[trigger]
        tape::told(
            t,
            RequestView::MergeTrees { base: dep, ours, theirs: content },
            ReplyView::Merged(MergeView::Clean(tree)),
        ) ==> world(RequestView::PatchId { from: ours, to: tree }) == world(
            RequestView::PatchId { from: dep, to: content },
        )
}

/// A patch that was put somewhere comes back to its own content.
pub open spec fn comes_back(
    world: spec_fn(RequestView) -> ReplyView,
    t: TapeView,
    dep: Oid,
    content: Oid,
) -> bool {
    forall|ours: Oid, tree: Oid| #[trigger]
        tape::told(
            t,
            RequestView::MergeTrees { base: dep, ours, theirs: content },
            ReplyView::Merged(MergeView::Clean(tree)),
        ) ==> world(RequestView::MergeTrees { base: ours, ours: dep, theirs: tree })
            == ReplyView::Merged(MergeView::Clean(content))
}

/// A placement with more layers.
pub open spec fn extends(p: PlacementView, q: PlacementView) -> bool {
    let n = p.tips.len() as int;
    &&& q.tips.len() >= n && q.tips.take(n) == p.tips
    &&& q.branches.len() >= n && q.branches.take(n) == p.branches
    &&& q.base_branches.len() >= n && q.base_branches.take(n) == p.base_branches
    &&& q.new_roots.len() >= n && q.new_roots.take(n) == p.new_roots
    &&& q.held.len() >= n && q.held.take(n) == p.held
    &&& q.retargeted_early.len() >= n && (forall|k: int|
        0 <= k < n && #[trigger] p.retargeted_early[k] ==> q.retargeted_early[k])
    &&& q.push_specs.len() >= p.push_specs.len()
    &&& q.push_specs.take(p.push_specs.len() as int) == p.push_specs
    &&& p.staged ==> q.staged
}

proof fn lemma_extends_trans(p: PlacementView, q: PlacementView, r: PlacementView)
    requires
        extends(p, q),
        extends(q, r),
        p.tips.len() <= q.tips.len(),
        execution::placed(p, p.tips.len() as int),
        execution::placed(q, q.tips.len() as int),
    ensures
        extends(p, r),
{
    let n = p.tips.len() as int;
    let m = q.tips.len() as int;
    assert(r.tips.take(n) =~= r.tips.take(m).take(n));
    assert(r.branches.take(n) =~= r.branches.take(m).take(n));
    assert(r.base_branches.take(n) =~= r.base_branches.take(m).take(n));
    assert(r.new_roots.take(n) =~= r.new_roots.take(m).take(n));
    assert(r.held.take(n) =~= r.held.take(m).take(n));
    let a = p.push_specs.len() as int;
    let b = q.push_specs.len() as int;
    assert(r.push_specs.take(a) =~= r.push_specs.take(b).take(a));
}

/// A base that was changed early stays so.
proof fn lemma_rescued_early(
    t: TapeView,
    cx: ContextView,
    spot: SpotView,
    k: int,
    p: PlacementView,
)
    requires
        p.retargeted_early.len() == p.base_branches.len(),
        execution::rescued_from(t, cx, spot, k, p).1 is Ok,
    ensures
        ({
            let q = execution::rescued_from(t, cx, spot, k, p).1->Ok_0;
            forall|m: int|
                0 <= m < p.retargeted_early.len() && #[trigger] p.retargeted_early[m]
                    ==> q.retargeted_early[m]
        }),
    decreases p.base_branches.len() - k,
{
    if k < 0 || k >= p.base_branches.len() || k >= cx.prs.len() || spot.push is None
        || spot.staged {
    } else if !execution::endangered(cx, spot, k, p) {
        lemma_rescued_early(t, cx, spot, k + 1, p);
    } else {
        let (t1, next) = execution::saved_one(t, cx, spot, k, p);
        let next = next->Ok_0;
        assert(execution::rescued_from(t, cx, spot, k, p) == execution::rescued_from(
            t1,
            cx,
            spot,
            k + 1,
            next,
        ));
        lemma_rescued_early(t1, cx, spot, k + 1, next);
        let q = execution::rescued_from(t, cx, spot, k, p).1->Ok_0;
        assert forall|m: int|
            0 <= m < p.retargeted_early.len() && #[trigger] p.retargeted_early[m] implies
            q.retargeted_early[m] by {
            assert(next.retargeted_early[m]);
        }
    }
}

/// The layers that have their places keep them.
pub proof fn lemma_extends(t: TapeView, cx: ContextView, i: int, p: PlacementView)
    requires
        0 <= i <= cx.stack.layers.len(),
        execution::placed(p, i),
        execution::place_from(t, cx, i, p).1 is Ok,
    ensures
        ({
            let q = execution::place_from(t, cx, i, p).1->Ok_0;
            execution::placed(q, cx.stack.layers.len() as int) && extends(p, q)
        }),
    decreases cx.stack.layers.len() - i,
{
    if i < cx.stack.layers.len() {
        let base = execution::base_of(cx, p, i);
        let (t1, spot) = execution::spot_of(t, cx, p, i, base.0, base.1);
        let spot = spot->Ok_0;
        let (t2, saved) = execution::rescued_from(t1, cx, spot, 0, p);
        let saved = saved->Ok_0;
        execution::lemma_rescued_from(t1, cx, spot, 0, p);
        let next = execution::with_spot(execution::reserve(cx, i, saved, spot), base.1, spot);
        assert(next.tips.take(i) =~= p.tips);
        assert(next.branches.take(i) =~= p.branches);
        assert(next.base_branches.take(i) =~= p.base_branches);
        assert(next.new_roots.take(i) =~= p.new_roots);
        assert(next.held.take(i) =~= p.held);
        assert(next.push_specs.take(p.push_specs.len() as int) =~= p.push_specs);
        lemma_rescued_early(t1, cx, spot, 0, p);
        assert forall|k: int| 0 <= k < i && #[trigger] p.retargeted_early[k] implies
            next.retargeted_early[k] by {
            assert(saved.retargeted_early[k]);
        }
        lemma_extends(t2, cx, i + 1, next);
        lemma_extends_trans(p, next, execution::place_from(t, cx, i, p).1->Ok_0);
    } else {
        assert(p.tips.take(i) =~= p.tips);
        assert(p.branches.take(i) =~= p.branches);
        assert(p.base_branches.take(i) =~= p.base_branches);
        assert(p.new_roots.take(i) =~= p.new_roots);
        assert(p.held.take(i) =~= p.held);
        assert(p.push_specs.take(p.push_specs.len() as int) =~= p.push_specs);
    }
}

/// While the branches are placed, a pull request is at most given its base.
pub open spec fn calm(
    prs: Seq<Option<PrView>>,
    bases: Seq<Seq<char>>,
    early: Seq<bool>,
    q: RequestView,
) -> bool {
    match q {
        RequestView::SetReference { .. } => false,
        RequestView::CreatePullRequest { .. } => false,
        RequestView::Push { .. } => false,
        RequestView::UpdatePullRequest { number, update } => rebases(prs, bases, early, number, update),
        _ => true,
    }
}

/// A pull request is given the base that is meant for it.
pub open spec fn rebases(
    prs: Seq<Option<PrView>>,
    bases: Seq<Seq<char>>,
    early: Seq<bool>,
    number: u64,
    update: forge::UpdateView,
) -> bool {
    exists|k: int| 0 <= k < prs.len() && #[trigger] is_rebase(prs, bases, early, number, update, k)
}

pub open spec fn is_rebase(
    prs: Seq<Option<PrView>>,
    bases: Seq<Seq<char>>,
    early: Seq<bool>,
    number: u64,
    update: forge::UpdateView,
    k: int,
) -> bool {
    prs[k] matches Some(pr) && number == pr.number && update == forge::base_update(bases[k])
        && early[k]
}

proof fn lemma_retarget_calm(
    from: TapeView,
    t: TapeView,
    cx: ContextView,
    bases: Seq<Seq<char>>,
    early: Seq<bool>,
    k: int,
    pr: PrView,
)
    requires
        tape::only(from, t, |q: RequestView| calm(cx.prs, bases, early, q)),
        0 <= k < cx.prs.len(),
        cx.prs[k] == Some(pr),
        early[k],
    ensures
        tape::only(
            from,
            execution::retarget_early(t, cx.config, pr, bases[k]).0,
            |q: RequestView| calm(cx.prs, bases, early, q),
        ),
{
    let quiet = |q: RequestView| calm(cx.prs, bases, early, q);
    let draft = RequestView::SetDraft { node_id: pr.node_id, draft: true };
    let update = RequestView::UpdatePullRequest {
        number: pr.number,
        update: forge::base_update(bases[k]),
    };
    assert(is_rebase(cx.prs, bases, early, pr.number, forge::base_update(bases[k]), k));
    assert(rebases(cx.prs, bases, early, pr.number, forge::base_update(bases[k])));
    assert(quiet(draft));
    assert(quiet(update));
    tape::lemma_only_ask(from, t, draft, quiet);
    tape::lemma_only_ask(from, t, update, quiet);
    tape::lemma_only_ask(from, tape::ask(t, draft).0, update, quiet);
}

proof fn lemma_moved_calm(
    from: TapeView,
    t: TapeView,
    cx: ContextView,
    p: PlacementView,
    bases: Seq<Seq<char>>,
    early: Seq<bool>,
    i: int,
    pr: PrView,
    parent_tip: Oid,
)
    requires
        tape::only(from, t, |q: RequestView| calm(cx.prs, bases, early, q)),
        0 <= i < cx.prs.len(),
        cx.prs[i] == Some(pr),
        execution::moved_branch(t, cx, p, i, pr, parent_tip, bases[i]).1 matches Ok(spot)
            && (spot.early ==> early[i]),
    ensures
        tape::only(
            from,
            execution::moved_branch(t, cx, p, i, pr, parent_tip, bases[i]).0,
            |q: RequestView| calm(cx.prs, bases, early, q),
        ),
{
    let quiet = |q: RequestView| calm(cx.prs, bases, early, q);
    assert(tape::may_look(quiet));
    let base_branch = bases[i];
    let dep = cx.trees.dep[i];
    let content = cx.trees.effective[i];
    let fallback = execution::fallback_base(cx, i);
    let (t1, origin) = execution::branch_start(t, pr, fallback);
    execution::lemma_branch_start_only(from, t, pr, fallback, quiet);
    if origin is Ok {
        let origin = origin->Ok_0;
        let current = execution::current_base(pr, origin);
        let target = engine::remote_base_tip(cx.stack, cx.prs, i);
        let (t2, soon) = execution::may_retarget_early(
            t1,
            pr,
            base_branch,
            target,
            current,
            origin,
        );
        execution::lemma_may_retarget_early_only(
            from,
            t1,
            pr,
            base_branch,
            target,
            current,
            origin,
            quiet,
        );
        if soon is Ok {
            let soon = soon->Ok_0;
            let (t3, drafted) = if soon {
                execution::retarget_early(t2, cx.config, pr, base_branch)
            } else {
                tape::done(t2, None)
            };
            if soon {
                lemma_retarget_calm(from, t2, cx, bases, early, i, pr);
            }
            if drafted is Ok {
                let drafted = drafted->Ok_0;
                let (t4, old_base) = execution::steady_base(t3, p, pr, current);
                execution::lemma_steady_base_only(from, t3, p, pr, current, quiet);
                if old_base is Ok {
                    let home = execution::home_of(cx, i, origin, parent_tip);
                    let (t5, anchor) = execution::safe_anchor(
                        t4,
                        pr,
                        base_branch,
                        soon,
                        old_base->Ok_0,
                        home,
                    );
                    execution::lemma_safe_anchor_only(
                        from,
                        t4,
                        pr,
                        base_branch,
                        soon,
                        old_base->Ok_0,
                        home,
                        quiet,
                    );
                    if anchor is Ok {
                        let anchor = anchor->Ok_0;
                        let (t6, tree) = history::tree_rebased(t5, dep, anchor, content);
                        history::lemma_tree_rebased_only(from, t5, dep, anchor, content, quiet);
                        if tree is Ok {
                            match tree->Ok_0 {
                                Some(tree) => execution::lemma_parked_or_moved_only(
                                    from,
                                    t6,
                                    cx,
                                    p,
                                    i,
                                    pr,
                                    origin,
                                    parent_tip,
                                    soon,
                                    drafted,
                                    (anchor, tree),
                                    quiet,
                                ),
                                None => execution::lemma_moved_commits_only(
                                    from,
                                    t6,
                                    cx,
                                    i,
                                    pr,
                                    origin,
                                    soon,
                                    drafted,
                                    (parent_tip, content),
                                    false,
                                    quiet,
                                ),
                            }
                        }
                    }
                }
            }
        }
    }
}

pub proof fn lemma_rescued_calm(
    from: TapeView,
    t: TapeView,
    cx: ContextView,
    bases: Seq<Seq<char>>,
    early: Seq<bool>,
    spot: SpotView,
    k: int,
    p: PlacementView,
)
    requires
        tape::only(from, t, |q: RequestView| calm(cx.prs, bases, early, q)),
        p.base_branches.len() <= bases.len(),
        p.base_branches == bases.take(p.base_branches.len() as int),
        p.retargeted_early.len() == p.base_branches.len(),
        execution::rescued_from(t, cx, spot, k, p).1 matches Ok(q) && (forall|m: int|
            0 <= m < p.retargeted_early.len() && #[trigger] q.retargeted_early[m] ==> early[m]),
    ensures
        tape::only(
            from,
            execution::rescued_from(t, cx, spot, k, p).0,
            |q: RequestView| calm(cx.prs, bases, early, q),
        ),
    decreases p.base_branches.len() - k,
{
    if k < 0 || k >= p.base_branches.len() || k >= cx.prs.len() || spot.push is None
        || spot.staged {
    } else if !execution::endangered(cx, spot, k, p) {
        lemma_rescued_calm(from, t, cx, bases, early, spot, k + 1, p);
    } else {
        assert(p.base_branches[k] == bases[k]);
        let quiet = |q: RequestView| calm(cx.prs, bases, early, q);
        let q = RequestView::IsAncestor { ancestor: p.tips[k], descendant: spot.tip };
        tape::lemma_only_ask(from, t, q, quiet);
        let (t1, next) = execution::saved_one(t, cx, spot, k, p);
        let next = next->Ok_0;
        assert(execution::rescued_from(t, cx, spot, k, p) == execution::rescued_from(
            t1,
            cx,
            spot,
            k + 1,
            next,
        ));
        lemma_rescued_early(t1, cx, spot, k + 1, next);
        if tape::ask_flag(t, q).1->Ok_0 {
            assert(next.retargeted_early[k]);
            lemma_retarget_calm(from, tape::ask(t, q).0, cx, bases, early, k, cx.prs[k]->0);
        }
        assert(tape::only(from, t1, quiet));
        lemma_rescued_calm(from, t1, cx, bases, early, spot, k + 1, next);
    }
}

/// One step of the placement.
pub proof fn lemma_spot_calm(
    from: TapeView,
    t: TapeView,
    cx: ContextView,
    p: PlacementView,
    bases: Seq<Seq<char>>,
    early: Seq<bool>,
    i: int,
)
    requires
        tape::only(from, t, |q: RequestView| calm(cx.prs, bases, early, q)),
        0 <= i < cx.prs.len(),
        execution::base_of(cx, p, i).1 == bases[i],
        execution::spot_of(
            t,
            cx,
            p,
            i,
            execution::base_of(cx, p, i).0,
            execution::base_of(cx, p, i).1,
        ).1 matches Ok(spot) && (spot.early ==> early[i]),
    ensures
        tape::only(
            from,
            execution::spot_of(
                t,
                cx,
                p,
                i,
                execution::base_of(cx, p, i).0,
                execution::base_of(cx, p, i).1,
            ).0,
            |q: RequestView| calm(cx.prs, bases, early, q),
        ),
{
    let quiet = |q: RequestView| calm(cx.prs, bases, early, q);
    assert(tape::may_look(quiet));
    let base = execution::base_of(cx, p, i);
    match cx.prs[i] {
        None => execution::lemma_new_branch_only(from, t, cx, p, i, base.0, quiet),
        Some(pr) => if cx.decision.push[i] {
            lemma_moved_calm(from, t, cx, p, bases, early, i, pr, base.0);
        },
    }
}

/// The first commit of a branch can be told from what its reference is.
pub open spec fn rooted_from(
    world: spec_fn(RequestView) -> ReplyView,
    recorded: Option<Oid>,
    t: TapeView,
    pr: PrView,
    stop: Oid,
) -> bool {
    let (end, r) = history::root_commit(t, pr, stop);
    &&& r is Ok
    &&& rest::hears_steady(t, end, world)
    &&& tape::ask_maybe_object(
        t,
        RequestView::ReferenceTarget { name: refs::root_ref(pr.number) },
    ).1 == Ok::<Option<Oid>, HaltView>(recorded)
}

/// Whoever asks the world for the first commit of a branch gets the given one.
pub open spec fn is_root(
    world: spec_fn(RequestView) -> ReplyView,
    recorded: Option<Oid>,
    pr: PrView,
    stop: Oid,
    root: Option<Oid>,
) -> bool {
    forall|t: TapeView| #[trigger]
        rooted_from(world, recorded, t, pr, stop) ==> history::root_commit(t, pr, stop).1 == Ok::<
            Option<Oid>,
            HaltView,
        >(root)
}

/// Two ways to ask for the first commit of a branch agree.
pub proof fn lemma_same_root(
    world: spec_fn(RequestView) -> ReplyView,
    recorded: Option<Oid>,
    t: TapeView,
    pr: PrView,
    stop: Oid,
    u: TapeView,
    pr2: PrView,
    stop2: Oid,
)
    requires
        lineage::has_history(world),
        rooted_from(world, recorded, t, pr, stop),
        rooted_from(world, recorded, u, pr2, stop2),
        pr2.number == pr.number,
        pr2.head_oid == pr.head_oid,
        forall|a: Oid| #[trigger]
            lineage::reaches(world, a, pr.head_oid) ==> lineage::reaches(world, a, stop)
                == lineage::reaches(world, a, stop2) && lineage::told_apart(world, a, stop)
                == lineage::told_apart(world, a, stop2),
    ensures
        history::root_commit(t, pr, stop).1 == history::root_commit(u, pr2, stop2).1,
{
    let any = |q: RequestView| true;
    assert(tape::may_look(any));
    let head = pr.head_oid;
    let q0 = RequestView::ReferenceTarget { name: refs::root_ref(pr.number) };
    let end = history::root_commit(t, pr, stop).0;
    let end2 = history::root_commit(u, pr2, stop2).0;
    let t0 = tape::ask(t, q0).0;
    let u0 = tape::ask(u, q0).0;
    lineage::lemma_self(world, head);
    tape::lemma_only_start(end, any);
    tape::lemma_only_start(end2, any);
    match recorded {
        Some(root) => {
            let q1 = RequestView::MayBeAncestor { ancestor: root, descendant: head };
            let (t1, held) = tape::ask_flag(t0, q1);
            let (u1, held2) = tape::ask_flag(u0, q1);
            tape::lemma_only_start(t1, any);
            tape::lemma_only_start(u1, any);
            assert(tape::only(t1, end, any) && tape::only(u1, end2, any)) by {
                broadcast use history::group_history_only;
            }
            rest::lemma_steady_reply(t, t0, q1, end, world);
            rest::lemma_steady_reply(u, u0, q1, end2, world);
            if !held->Ok_0 {
                lineage::lemma_same_walk(
                    t,
                    t1,
                    end,
                    u,
                    u1,
                    end2,
                    head,
                    stop,
                    stop2,
                    None,
                    head,
                    world,
                );
            }
        },
        None => {
            lineage::lemma_same_walk(
                t,
                t0,
                end,
                u,
                u0,
                end2,
                head,
                stop,
                stop2,
                None,
                head,
                world,
            );
        },
    }
}

pub proof fn lemma_is_root(
    world: spec_fn(RequestView) -> ReplyView,
    recorded: Option<Oid>,
    t: TapeView,
    pr: PrView,
    stop: Oid,
)
    requires
        lineage::has_history(world),
        rooted_from(world, recorded, t, pr, stop),
    ensures
        is_root(world, recorded, pr, stop, history::root_commit(t, pr, stop).1->Ok_0),
{
    assert forall|u: TapeView| #[trigger]
        rooted_from(world, recorded, u, pr, stop) implies history::root_commit(u, pr, stop).1
        == Ok::<Option<Oid>, HaltView>(history::root_commit(t, pr, stop).1->Ok_0) by {
        lemma_same_root(world, recorded, t, pr, stop, u, pr, stop);
    }
}

/// The worlds and the conversation in which a decision is carried out: `start` is where
/// that begins, and `to` where the run ends.
pub struct Ground {
    pub before: spec_fn(RequestView) -> ReplyView,
    pub world: spec_fn(RequestView) -> ReplyView,
    pub start: TapeView,
    pub to: TapeView,
    pub checks: Seq<LayerCheck>,
}

/// What the reference to the first commit of a branch is where the decision is carried
/// out.
pub open spec fn recorded(g: Ground, number: u64) -> Option<Oid> {
    memory::ref_at(g.before, g.to, g.start.asked.len() as int, refs::root_ref(number))
}

/// A commit was known where the decision is carried out.
pub open spec fn aware(g: Ground, commit: Oid) -> bool {
    memory::knew(g.start, g.start.asked.len() as int, commit)
}

/// The check of layer `i` with the first commit of its branch.
pub open spec fn judged_with(g: Ground, cx: ContextView, i: int, root: Option<Oid>) -> bool {
    let pr = cx.prs[i]->0;
    let stop = engine::remote_base_tip(cx.stack, cx.prs, i)->0;
    &&& is_root(g.world, recorded(g, pr.number), pr, stop, root)
    &&& exists|at: TapeView| #[trigger]
        rooted_from(g.world, recorded(g, pr.number), at, pr, stop)
    &&& recorded(g, pr.number) matches Some(commit) ==> aware(g, commit)
    &&& findings::means(
        g.world,
        pr,
        cx.stack.layers[i].message,
        stop,
        cx.trees.dep[i],
        cx.trees.effective[i],
        cx.opts.preserve_commit_history,
        engine::may_settle(cx.stack, cx.opts, i),
        root,
        g.checks[i],
    )
    &&& aware(g, stop)
}

/// Layer `i` was looked at, if it is one of those that are synced.
pub open spec fn judged(g: Ground, cx: ContextView, i: int) -> bool {
    match cx.prs[i] {
        Some(pr) => {
            &&& aware(g, pr.head_oid)
            &&& engine::in_scope(cx.opts, i) ==> {
                &&& engine::remote_base_tip(cx.stack, cx.prs, i) is Some ==> exists|
                    root: Option<Oid>,
                | #[trigger] judged_with(g, cx, i, root)
                &&& engine::remote_base_tip(cx.stack, cx.prs, i) is None ==> g.checks[i].push
            }
        },
        None => true,
    }
}

/// The content of the layers is that of the world.
pub open spec fn trees_of_world(world: spec_fn(RequestView) -> ReplyView, cx: ContextView) -> bool {
    &&& forall|k: int|
        0 <= k < cx.stack.layers.len() ==> #[trigger] cx.trees.effective[k] == rest::content_in(
            world,
            cx.stack,
            k,
        )
    &&& forall|k: int|
        0 <= k < cx.stack.layers.len() ==> #[trigger] cx.trees.dep[k] == rest::dep_in(
            world,
            cx.stack,
            k,
        )
}

/// What is given when a decision is carried out.
pub open spec fn given(g: Ground, cx: ContextView) -> bool {
    &&& execution::coherent(cx)
    &&& lineage::has_history(g.world)
    &&& memory::remembers(g.before, g.world, g.to)
    &&& tape::only(g.start, g.to, |q: RequestView| true)
    &&& trees_of_world(g.world, cx)
    &&& forall|i: int| 0 <= i < cx.stack.layers.len() ==> #[trigger] judged(g, cx, i)
    &&& forall|i: int|
        0 <= i < cx.stack.layers.len() ==> #[trigger] engine::warranted(
            cx.stack,
            cx.prs,
            cx.opts,
            g.checks,
            cx.decision,
            i,
        )
}

/// What is asked of the patch of a layer that is pushed: wherever it was put, it is still
/// itself; and where it could not be put, what the layer sits on carries its own content
/// and the branch is written anew.
pub open spec fn portable(
    world: spec_fn(RequestView) -> ReplyView,
    to: TapeView,
    cx: ContextView,
    base: Oid,
    i: int,
) -> bool {
    let dep = cx.trees.dep[i];
    let content = cx.trees.effective[i];
    &&& keeps(world, to, dep, content)
    &&& conflicts(to, dep, content) ==> rest::tree_in(world, base) == dep && (
    cx.decision.rewrite_history[i] || cx.prs[i] is None || cx.stack.layers[i].dep is Layer)
}

pub open spec fn pushes(push: PushView, branch: Seq<char>, commit: Oid) -> bool {
    push.branch == branch && push.oid == Some(commit)
}

/// The branch of layer `k` got one more commit, and that is new.
pub open spec fn added(g: Ground, cx: ContextView, tip: Oid, k: int) -> bool {
    cx.prs[k] matches Some(pr) && lineage::stems(g.world, tip, pr.head_oid) && fresh(
        g.world,
        g.start,
        tip,
    )
}

/// Layer `k` has its place.
pub open spec fn seated(g: Ground, cx: ContextView, p: PlacementView, k: int) -> bool {
    let base = execution::base_of(cx, p, k).0;
    let tip = p.tips[k];
    let dep = cx.trees.dep[k];
    let content = cx.trees.effective[k];
    let fork = (g.world)(RequestView::MergeBase { a: base, b: tip })->Object_0;
    &&& !p.held[k]
    &&& cx.prs[k] matches Some(pr) ==> p.branches[k] == pr.head
    &&& cx.prs[k] is None && cx.decision.push[k] ==> p.new_roots[k] == Some(tip)
    &&& !cx.decision.push[k] ==> p.new_roots[k] is None && (cx.prs[k] matches Some(pr) ==> tip
        == pr.head_oid)
    &&& cx.decision.push[k] ==> exists|m: int|
        0 <= m < p.push_specs.len() && pushes(#[trigger] p.push_specs[m], p.branches[k], tip)
    &&& engine::in_scope(cx.opts, k) && cx.decision.push[k] ==> {
        &&& rest::displays(g.world, base, tip, dep, content)
        &&& comes_back(g.world, g.to, dep, content) ==> rest::tree_in(g.world, base) == dep
            || rest::merges_in(g.world, fork, tip, dep, content)
        &&& match p.new_roots[k] {
            Some(root) => lineage::reaches(g.world, root, tip) && (clean_text(root_text(cx, k))
                ==> findings::says(g.world, root, root_text(cx, k))) && (!cx.opts.preserve_commit_history ==> root == tip),
            None => added(g, cx, tip, k) && cx.opts.preserve_commit_history
                && !cx.decision.rewrite_history[k],
        }
    }
    &&& engine::in_scope(cx.opts, k) && cx.prs[k] is Some && cx.decision.push[k]
        && !cx.decision.rewrite_history[k] ==> p.new_roots[k] is None
}

/// What a patch that was put on `base` comes to.
proof fn lemma_put(g: Ground, base: Oid, tip: Oid, dep: Oid, content: Oid)
    requires
        keeps(g.world, g.to, dep, content),
        (g.world)(RequestView::MergeBase { a: base, b: tip }) is Object,
        ({
            let fork = (g.world)(RequestView::MergeBase { a: base, b: tip })->Object_0;
            let ours = rest::tree_in(g.world, fork);
            if ours == dep {
                rest::tree_in(g.world, tip) == content
            } else {
                tape::told(
                    g.to,
                    RequestView::MergeTrees { base: dep, ours, theirs: content },
                    ReplyView::Merged(MergeView::Clean(rest::tree_in(g.world, tip))),
                )
            }
        }),
    ensures
        rest::displays(g.world, base, tip, dep, content),
        ({
            let fork = (g.world)(RequestView::MergeBase { a: base, b: tip })->Object_0;
            comes_back(g.world, g.to, dep, content) && rest::tree_in(g.world, fork) != dep
                ==> rest::merges_in(g.world, fork, tip, dep, content)
        }),
{
}

pub proof fn lemma_seat_new(
    t: TapeView,
    cx: ContextView,
    p: PlacementView,
    i: int,
    base: Oid,
    g: Ground,
)
    requires
        given(g, cx),
        0 <= i < cx.stack.layers.len(),
        cx.prs[i] is None,
        portable(g.world, g.to, cx, base, i),
        g.start.asked.len() <= t.asked.len(),
        execution::new_branch(t, cx, p, i, base).1 is Ok,
        tape::only(execution::new_branch(t, cx, p, i, base).0, g.to, |q: RequestView| true),
    ensures
        ({
            let spot = execution::new_branch(t, cx, p, i, base).1->Ok_0;
            let dep = cx.trees.dep[i];
            let content = cx.trees.effective[i];
            let fork = (g.world)(RequestView::MergeBase { a: base, b: spot.tip })->Object_0;
            &&& rest::displays(g.world, base, spot.tip, dep, content)
            &&& comes_back(g.world, g.to, dep, content) ==> rest::tree_in(g.world, base) == dep
                || rest::merges_in(g.world, fork, spot.tip, dep, content)
            &&& lineage::reaches(g.world, spot.tip, spot.tip)
            &&& clean_text(root_text(cx, i)) ==> findings::says(
                g.world,
                spot.tip,
                root_text(cx, i),
            )
        }),
{
    let any = |q: RequestView| true;
    assert(tape::may_look(any));
    let end = execution::new_branch(t, cx, p, i, base).0;
    let dep = cx.trees.dep[i];
    let content = cx.trees.effective[i];
    let preferred = crate::config::preferred_branch(
        cx.config,
        cx.stack.layers[i].message.subject,
    );
    let (t1, branch) = execution::free_branch(t, preferred, 0, p.reserved);
    let (t2, tree) = history::tree_rebased(t1, dep, base, content);
    let put = match tree->Ok_0 {
        Some(tree) => tree,
        None => content,
    };
    let (t3, tip) = history::derived(
        t2,
        cx.stack.layers[i].commit,
        root_text(cx, i),
        put,
        base,
    );
    let tip = tip->Ok_0;
    assert(t3 == end);
    tape::lemma_only_start(t, any);
    execution::lemma_free_branch_only(t, t, preferred, 0, p.reserved, any);
    tape::lemma_only_start(t2, any);
    history::lemma_tree_rebased_only(t, t1, dep, base, content, any);
    history::lemma_derived_only(
        t2,
        t2,
        cx.stack.layers[i].commit,
        root_text(cx, i),
        put,
        base,
        any,
    );
    tape::lemma_only_trans(t2, end, g.to, any);
    memory::lemma_steady(g.before, g.world, t, g.to);
    findings::lemma_rebased(t, t1, dep, base, content, g.to, g.world);
    lemma_derived(
        g.start,
        t2,
        cx.stack.layers[i].commit,
        root_text(cx, i),
        put,
        base,
        g.before,
        g.to,
        g.world,
    );
    assert(lineage::line(g.world, base, tip, tip, 1));
    lineage::lemma_line(g.world, base, tip, tip, 1);
    lemma_put(g, base, tip, dep, content);
}

/// Where the branch of a layer starts, where its check found that it sits right.
pub proof fn lemma_origin(
    t: TapeView,
    cx: ContextView,
    i: int,
    pr: PrView,
    stop: Oid,
    root: Option<Oid>,
    anchor: Oid,
    bases: Seq<Seq<char>>,
    early: Seq<bool>,
    g: Ground,
)
    requires
        lineage::has_history(g.world),
        memory::remembers(g.before, g.world, g.to),
        tape::only(g.start, t, |q: RequestView| calm(cx.prs, bases, early, q)),
        is_root(g.world, recorded(g, pr.number), pr, stop, root),
        root matches Some(root) && lineage::stems(g.world, root, anchor),
        execution::branch_start(t, pr, stop).1 is Ok,
        tape::only(execution::branch_start(t, pr, stop).0, g.to, |q: RequestView| true),
    ensures
        execution::branch_start(t, pr, stop).1 == Ok::<Oid, HaltView>(anchor),
{
    let any = |q: RequestView| true;
    assert(tape::may_look(any));
    let end = execution::branch_start(t, pr, stop).0;
    let (t1, found) = history::root_commit(t, pr, stop);
    tape::lemma_only_start(t1, any);
    assert(tape::only(t1, end, any)) by {
        broadcast use tape::lemma_only_ask;
    }
    tape::lemma_only_trans(t1, end, g.to, any);
    let q0 = RequestView::ReferenceTarget { name: refs::root_ref(pr.number) };
    let (t0, r0) = tape::ask_maybe_object(t, q0);
    rest::lemma_root_goes_on(t, pr, stop);
    tape::lemma_only_trans(t0, t1, g.to, any);
    memory::lemma_recalled(g.before, g.world, t, q0, g.to);
    let m = g.start.asked.len() as int;
    let k = t.asked.len() as int;
    assert forall|x: int| m <= x < k implies !(#[trigger] g.to.asked[x] matches RequestView::SetReference {
        name: set,
        ..
    } && set == refs::root_ref(pr.number)) by {
        assert(t0.asked[x] == t.asked[x]);
        assert(g.to.asked[x] == t0.asked[x]);
        assert(calm(cx.prs, bases, early, t.asked[x]));
    }
    memory::lemma_ref_stays(g.before, g.to, m, k, refs::root_ref(pr.number));
    memory::lemma_steady(g.before, g.world, t, g.to);
    assert(rest::hears_steady(t, t1, g.world)) by {
        assert forall|x: int|
            t.asked.len() <= x < t1.asked.len() && x < t1.replies.len() && rest::steady(
                #[trigger] t1.asked[x],
            ) implies t1.replies[x] == (g.world)(t1.asked[x]) by {
            assert(g.to.asked[x] == t1.asked[x]);
        }
    }
    assert(rooted_from(g.world, recorded(g, pr.number), t, pr, stop));
    let q2 = RequestView::ParentOf { commit: root->0 };
    tape::lemma_only_start(t, any);
    history::lemma_root_commit_only(t, t, pr, stop, any);
    rest::lemma_steady_reply(t, t1, q2, g.to, g.world);
}

/// The branch of a pull request that is pushed.
#[verifier::rlimit(40)]
proof fn lemma_seat_moved(
    t: TapeView,
    cx: ContextView,
    p: PlacementView,
    i: int,
    pr: PrView,
    base: Oid,
    bases: Seq<Seq<char>>,
    early: Seq<bool>,
    g: Ground,
)
    requires
        given(g, cx),
        0 <= i < cx.stack.layers.len(),
        cx.prs[i] == Some(pr),
        cx.decision.push[i],
        engine::in_scope(cx.opts, i),
        portable(g.world, g.to, cx, base, i),
        match cx.stack.layers[i].dep {
            Dep::Layer(j) => !cx.decision.push[j as int] ==> (cx.prs[j as int] matches Some(below)
                && base == below.head_oid),
            _ => base == cx.stack.base,
        },
        tape::only(g.start, t, |q: RequestView| calm(cx.prs, bases, early, q)),
        execution::moved_branch(t, cx, p, i, pr, base, bases[i]).1 is Ok,
        !(execution::moved_branch(t, cx, p, i, pr, base, bases[i]).1->Ok_0).staged,
        tape::only(
            execution::moved_branch(t, cx, p, i, pr, base, bases[i]).0,
            g.to,
            |q: RequestView| true,
        ),
    ensures
        ({
            let spot = execution::moved_branch(t, cx, p, i, pr, base, bases[i]).1->Ok_0;
            let dep = cx.trees.dep[i];
            let content = cx.trees.effective[i];
            let fork = (g.world)(RequestView::MergeBase { a: base, b: spot.tip })->Object_0;
            &&& rest::displays(g.world, base, spot.tip, dep, content)
            &&& comes_back(g.world, g.to, dep, content) ==> rest::tree_in(g.world, base) == dep
                || rest::merges_in(g.world, fork, spot.tip, dep, content)
            &&& match spot.root {
                Some(root) => lineage::reaches(g.world, root, spot.tip) && (clean_text(
                    root_text(cx, i),
                ) ==> findings::says(g.world, root, root_text(cx, i))) && (!cx.opts.preserve_commit_history ==> root == spot.tip),
                None => added(g, cx, spot.tip, i) && cx.opts.preserve_commit_history
                    && !cx.decision.rewrite_history[i],
            }
            &&& !cx.decision.rewrite_history[i] ==> spot.root is None
            &&& spot.branch == pr.head
            &&& spot.push matches Some(push) && pushes(push, pr.head, spot.tip)
            &&& !spot.held
        }),
{
    let any = |q: RequestView| true;
    assert(tape::may_look(any));
    let dep = cx.trees.dep[i];
    let content = cx.trees.effective[i];
    let (end, spot) = execution::moved_branch(t, cx, p, i, pr, base, bases[i]);
    let spot = spot->Ok_0;
    memory::lemma_steady(g.before, g.world, t, g.to);
    let mv = lemma_moved(t, t, cx, p, i, pr, base, bases[i], g.to, g.world);
    let (at, made) = execution::recommitted(
        mv.at,
        cx,
        i,
        pr,
        mv.origin,
        mv.place.0,
        mv.place.1,
    );
    lemma_recommitted(
        g.start,
        mv.at,
        cx,
        i,
        pr,
        mv.origin,
        mv.place.0,
        mv.place.1,
        g.before,
        g.to,
        g.world,
    );
    let tip = spot.tip;
    assert(engine::warranted(cx.stack, cx.prs, cx.opts, g.checks, cx.decision, i));
    assert(judged(g, cx, i));
    if !cx.opts.preserve_commit_history || cx.decision.rewrite_history[i] {
        assert(mv.place.0 == base);
        let root = spot.root->0;
        let n = choose|n: nat| #[trigger] lineage::line(g.world, base, root, tip, n);
        lineage::lemma_line(g.world, base, root, tip, n);
        lemma_put(g, base, tip, dep, content);
    } else {
        let stop = match cx.stack.layers[i].dep {
            Dep::Layer(j) => {
                assert(judged(g, cx, j as int));
                (cx.prs[j as int]->0).head_oid
            },
            _ => cx.stack.base,
        };
        assert(engine::remote_base_tip(cx.stack, cx.prs, i) == Some(stop));
        assert(base == stop);
        let root = choose|root: Option<Oid>| #[trigger] judged_with(g, cx, i, root);
        let anchor = g.checks[i].anchor->0;
        assert(g.checks[i].anchor is Some);
        lemma_origin(t, cx, i, pr, stop, root, anchor, bases, early, g);
        assert(mv.origin == anchor);
        assert(mv.place.0 == anchor);
        assert(lineage::stems(g.world, tip, pr.head_oid));
        if anchor == base {
            lineage::lemma_self(g.world, anchor);
            lineage::lemma_above(g.world, root->0, anchor, anchor);
            lineage::lemma_trans(g.world, anchor, root->0, pr.head_oid);
            lineage::lemma_above(g.world, tip, pr.head_oid, anchor);
            lemma_put(g, base, tip, dep, content);
        } else {
            assert(g.checks[i].settled);
            assert(!lineage::reaches(g.world, tip, base));
            lineage::lemma_grows(g.world, tip, pr.head_oid, base);
            lemma_put(g, base, tip, dep, content);
            assert(cx.trees.dep[i] == rest::dep_in(g.world, cx.stack, i));
        }
    }
}

/// A branch that is moved and not left behind is pushed.
pub proof fn lemma_moved_pushes(
    t: TapeView,
    cx: ContextView,
    p: PlacementView,
    i: int,
    pr: PrView,
    parent_tip: Oid,
    base_branch: Seq<char>,
)
    requires
        execution::moved_branch(t, cx, p, i, pr, parent_tip, base_branch).1 is Ok,
    ensures
        ({
            let spot = execution::moved_branch(t, cx, p, i, pr, parent_tip, base_branch).1->Ok_0;
            &&& spot.branch == pr.head
            &&& !spot.staged ==> !spot.held && (spot.push matches Some(push) && pushes(
                push,
                pr.head,
                spot.tip,
            ))
            // A pull request that keeps its base lets nothing be left behind.
            &&& pr.base == base_branch && !execution::on_held(cx, p, i) ==> !spot.staged
        }),
{
    let dep = cx.trees.dep[i];
    let content = cx.trees.effective[i];
    let (t1, origin) = execution::branch_start(t, pr, execution::fallback_base(cx, i));
    let origin = origin->Ok_0;
    let current = execution::current_base(pr, origin);
    let target = engine::remote_base_tip(cx.stack, cx.prs, i);
    let (t2, early) = execution::may_retarget_early(t1, pr, base_branch, target, current, origin);
    let early = early->Ok_0;
    let (t3, drafted) = if early {
        execution::retarget_early(t2, cx.config, pr, base_branch)
    } else {
        tape::done(t2, None)
    };
    let drafted = drafted->Ok_0;
    let (t4, old_base) = execution::steady_base(t3, p, pr, current);
    let home = execution::home_of(cx, i, origin, parent_tip);
    let (t5, anchor) = execution::safe_anchor(
        t4,
        pr,
        base_branch,
        early,
        old_base->Ok_0,
        home,
    );
    let anchor = anchor->Ok_0;
    let (t6, tree) = history::tree_rebased(t5, dep, anchor, content);
    assert(tree is Ok);
}

/// A placement with one more layer.
pub proof fn lemma_extends_step(
    t: TapeView,
    cx: ContextView,
    i: int,
    p: PlacementView,
    saved: PlacementView,
    spot: SpotView,
)
    requires
        execution::placed(p, i),
        0 <= i,
        execution::rescued_from(t, cx, spot, 0, p).1 == Ok::<PlacementView, HaltView>(saved),
    ensures
        extends(
            p,
            execution::with_spot(
                execution::reserve(cx, i, saved, spot),
                execution::base_of(cx, p, i).1,
                spot,
            ),
        ),
{
    execution::lemma_rescued_from(t, cx, spot, 0, p);
    lemma_rescued_early(t, cx, spot, 0, p);
    let next = execution::with_spot(
        execution::reserve(cx, i, saved, spot),
        execution::base_of(cx, p, i).1,
        spot,
    );
    assert forall|k: int| 0 <= k < i && #[trigger] p.retargeted_early[k] implies
        next.retargeted_early[k] by {
        assert(saved.retargeted_early[k]);
    }
    assert(next.tips.take(i) =~= p.tips);
    assert(next.branches.take(i) =~= p.branches);
    assert(next.base_branches.take(i) =~= p.base_branches);
    assert(next.new_roots.take(i) =~= p.new_roots);
    assert(next.held.take(i) =~= p.held);
    assert(next.push_specs.take(p.push_specs.len() as int) =~= p.push_specs);
}

/// What holds of a place goes on holding while others get theirs.
proof fn lemma_seat_stays(
    g: Ground,
    cx: ContextView,
    p: PlacementView,
    q: PlacementView,
    k: int,
)
    requires
        execution::coherent(cx),
        0 <= k < cx.stack.layers.len(),
        k < p.tips.len(),
        execution::placed(p, p.tips.len() as int),
        extends(p, q),
        seated(g, cx, p, k),
    ensures
        seated(g, cx, q, k),
{
    assert(q.tips[k] == q.tips.take(p.tips.len() as int)[k]);
    assert(q.branches[k] == q.branches.take(p.tips.len() as int)[k]);
    assert(q.new_roots[k] == q.new_roots.take(p.tips.len() as int)[k]);
    assert(q.held[k] == q.held.take(p.tips.len() as int)[k]);
    assert(execution::base_of(cx, q, k) == execution::base_of(cx, p, k)) by {
        match cx.stack.layers[k].dep {
            Dep::Layer(j) => {
                assert(j < k);
                assert(q.tips[j as int] == q.tips.take(p.tips.len() as int)[j as int]);
                assert(q.branches[j as int] == q.branches.take(p.tips.len() as int)[j as int]);
            },
            _ => {},
        }
    }
    if cx.decision.push[k] {
        let m = choose|m: int|
            0 <= m < p.push_specs.len() && pushes(
                #[trigger] p.push_specs[m],
                p.branches[k],
                p.tips[k],
            );
        assert(q.push_specs[m] == q.push_specs.take(p.push_specs.len() as int)[m]);
    }
}

/// All layers get their places, and none is left behind.
#[verifier::rlimit(40)]
pub proof fn lemma_seats(
    t: TapeView,
    cx: ContextView,
    i: int,
    p: PlacementView,
    q: PlacementView,
    g: Ground,
)
    requires
        given(g, cx),
        0 <= i <= cx.stack.layers.len(),
        execution::placed(p, i),
        execution::place_from(t, cx, i, p).1 == Ok::<PlacementView, HaltView>(q),
        !q.staged,
        tape::only(g.start, t, |r: RequestView| calm(cx.prs, q.base_branches, q.retargeted_early, r)),
        tape::only(execution::place_from(t, cx, i, p).0, g.to, |r: RequestView| true),
        forall|k: int| 0 <= k < i ==> #[trigger] seated(g, cx, p, k),
        forall|k: int|
            0 <= k < cx.stack.layers.len() && engine::in_scope(cx.opts, k)
                && #[trigger] cx.decision.push[k] ==> portable(
                g.world,
                g.to,
                cx,
                execution::base_of(cx, q, k).0,
                k,
            ),
    ensures
        forall|k: int| 0 <= k < cx.stack.layers.len() ==> #[trigger] seated(g, cx, q, k),
        tape::only(
            g.start,
            execution::place_from(t, cx, i, p).0,
            |r: RequestView| calm(cx.prs, q.base_branches, q.retargeted_early, r),
        ),
    decreases cx.stack.layers.len() - i,
{
    let any = |r: RequestView| true;
    assert(tape::may_do_all_but_push(any));
    if i < cx.stack.layers.len() {
        let bases = q.base_branches;
        let base = execution::base_of(cx, p, i);
        let (t1, spot) = execution::spot_of(t, cx, p, i, base.0, base.1);
        let spot = spot->Ok_0;
        let (t2, saved) = execution::rescued_from(t1, cx, spot, 0, p);
        let saved = saved->Ok_0;
        execution::lemma_rescued_from(t1, cx, spot, 0, p);
        let next = execution::with_spot(execution::reserve(cx, i, saved, spot), base.1, spot);
        let end = execution::place_from(t, cx, i, p).0;
        assert(execution::place_from(t, cx, i, p) == execution::place_from(t2, cx, i + 1, next));
        lemma_extends(t2, cx, i + 1, next);
        lemma_extends(t, cx, i, p);
        assert(!next.staged);
        assert(bases[i] == bases.take(i + 1)[i]);
        assert(next.base_branches[i] == base.1);
        assert(p.base_branches == bases.take(i));
        let early = q.retargeted_early;
        assert(next.retargeted_early[i] == spot.early);
        lemma_spot_calm(g.start, t, cx, p, bases, early, i);
        assert forall|m: int| 0 <= m < i && #[trigger] saved.retargeted_early[m] implies early[m] by {
            assert(next.retargeted_early[m]);
        }
        lemma_rescued_calm(g.start, t1, cx, bases, early, spot, 0, p);
        tape::lemma_only_start(t1, any);
        tape::lemma_only_start(t2, any);
        execution::lemma_rescued_from_only(t1, t1, cx, spot, 0, p, any);
        execution::lemma_place_from_only(t2, t2, cx, i + 1, next, any);
        tape::lemma_only_trans(t2, end, g.to, any);
        tape::lemma_only_trans(t1, t2, g.to, any);
        assert(execution::base_of(cx, q, i) == base) by {
            match cx.stack.layers[i].dep {
                Dep::Layer(j) => {
                    assert(j < i);
                    assert(q.tips[j as int] == q.tips.take(i)[j as int]);
                    assert(q.branches[j as int] == q.branches.take(i)[j as int]);
                },
                _ => {},
            }
        }
        assert(execution::base_of(cx, next, i) == base) by {
            match cx.stack.layers[i].dep {
                Dep::Layer(j) => {
                    assert(j < i);
                },
                _ => {},
            }
        }
        assert(judged(g, cx, i));
        assert(engine::warranted(cx.stack, cx.prs, cx.opts, g.checks, cx.decision, i));
        if let Some(pr) = cx.prs[i] {
            if cx.decision.push[i] {
                lemma_moved_pushes(t, cx, p, i, pr, base.0, base.1);
            }
        }
        if cx.decision.push[i] && engine::in_scope(cx.opts, i) {
            assert(portable(g.world, g.to, cx, execution::base_of(cx, q, i).0, i));
            match cx.prs[i] {
                None => lemma_seat_new(t, cx, p, i, base.0, g),
                Some(pr) => {
                    match cx.stack.layers[i].dep {
                        Dep::Layer(j) => {
                            assert(seated(g, cx, p, j as int));
                            assert(judged(g, cx, j as int));
                        },
                        _ => {},
                    }
                    lemma_seat_moved(t, cx, p, i, pr, base.0, bases, early, g);
                },
            }
        }
        if cx.decision.push[i] {
            let m = saved.push_specs.len() as int;
            assert(pushes(next.push_specs[m], next.branches[i], next.tips[i]));
        }
        assert(seated(g, cx, next, i));
        assert(extends(p, next)) by {
            lemma_rescued_early(t1, cx, spot, 0, p);
            assert forall|k: int| 0 <= k < i && #[trigger] p.retargeted_early[k] implies
                next.retargeted_early[k] by {
                assert(saved.retargeted_early[k]);
            }
            assert(next.tips.take(i) =~= p.tips);
            assert(next.branches.take(i) =~= p.branches);
            assert(next.base_branches.take(i) =~= p.base_branches);
            assert(next.new_roots.take(i) =~= p.new_roots);
            assert(next.held.take(i) =~= p.held);
            assert(next.push_specs.take(p.push_specs.len() as int) =~= p.push_specs);
        }
        assert forall|k: int| 0 <= k < i + 1 implies #[trigger] seated(g, cx, next, k) by {
            if k < i {
                assert(seated(g, cx, p, k));
                lemma_seat_stays(g, cx, p, next, k);
            }
        }
        lemma_seats(t2, cx, i + 1, next, q, g);
    }
}

} // verus!
