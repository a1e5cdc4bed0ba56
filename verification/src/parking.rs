//! Where branches stand while their pull requests get other bases.

use vstd::prelude::*;

use crate::engine;
use crate::execution;
use crate::execution::{ContextView, PlacementView};
use crate::findings;
use crate::forge::PrView;
use crate::history;
use crate::lineage;
use crate::memory;
use crate::oid;
use crate::oid::Oid;
use crate::placing;
use crate::placing::Ground;
use crate::rest;
use crate::stack::Dep;
use crate::tape;
use crate::tape::{HaltView, MergeView, ReplyView, RequestView, TapeView};
use crate::telling;

verus! {

/// A patch was put on a commit.
pub open spec fn put_on(
    world: spec_fn(RequestView) -> ReplyView,
    to: TapeView,
    commit: Oid,
    tree: Oid,
    dep: Oid,
    content: Oid,
) -> bool {
    let ours = rest::tree_in(world, commit);
    if ours == dep {
        tree == content
    } else {
        tape::told(
            to,
            RequestView::MergeTrees { base: dep, ours, theirs: content },
            ReplyView::Merged(MergeView::Clean(tree)),
        )
    }
}

/// What was put on a commit displays its own patch from there.
pub proof fn lemma_put_on(
    world: spec_fn(RequestView) -> ReplyView,
    to: TapeView,
    base: Oid,
    commit: Oid,
    head: Oid,
    dep: Oid,
    content: Oid,
)
    requires
        placing::keeps(world, to, dep, content),
        put_on(world, to, commit, rest::tree_in(world, head), dep, content),
        world(RequestView::MergeBase { a: base, b: head }) == ReplyView::Object(commit),
    ensures
        rest::displays(world, base, head, dep, content),
{
}

/// How a branch was moved, or why it was not.
pub struct Way {
    pub origin: Oid,
    pub place: (Oid, Oid),
    pub early: bool,
    pub drafted: Option<Seq<char>>,
    pub at: TapeView,
}

/// The pull request keeps the base it has until after the push.
pub open spec fn lingers(pr: PrView, base_branch: Seq<char>, early: bool) -> bool {
    pr.base != base_branch && !early
}

/// How the branch of a pull request is moved.
#[verifier::rlimit(30)]
pub proof fn lemma_way(
    from: TapeView,
    t: TapeView,
    cx: ContextView,
    p: PlacementView,
    i: int,
    pr: PrView,
    parent_tip: Oid,
    base_branch: Seq<char>,
    to: TapeView,
    world: spec_fn(RequestView) -> ReplyView,
) -> (w: Way)
    requires
        lineage::has_history(world),
        from.asked.len() <= t.asked.len(),
        rest::hears_steady(from, to, world),
        !placing::conflicts(to, cx.trees.dep[i], cx.trees.effective[i]),
        execution::moved_branch(t, cx, p, i, pr, parent_tip, base_branch).1 is Ok,
        tape::only(
            execution::moved_branch(t, cx, p, i, pr, parent_tip, base_branch).0,
            to,
            |q: RequestView| true,
        ),
    ensures
        ({
            let (end, spot) = execution::moved_branch(t, cx, p, i, pr, parent_tip, base_branch);
            let spot = spot->Ok_0;
            let home = execution::home_of(cx, i, w.origin, parent_tip);
            let target = engine::remote_base_tip(cx.stack, cx.prs, i);
            let current = execution::current_base(pr, w.origin);
            &&& spot.early == w.early
            &&& execution::branch_start(t, pr, execution::fallback_base(cx, i)).1 == Ok::<
                Oid,
                HaltView,
            >(w.origin)
            &&& tape::only(
                execution::branch_start(t, pr, execution::fallback_base(cx, i)).0,
                to,
                |q: RequestView| true,
            )
            &&& put_on(world, to, w.place.0, w.place.1, cx.trees.dep[i], cx.trees.effective[i])
            &&& !lingers(pr, base_branch, w.early) ==> w.place.0 == home
            &&& lineage::reaches(world, w.place.0, home)
            &&& lingers(pr, base_branch, w.early) ==> lineage::reaches(world, w.place.0, current)
                && (forall|m: int|
                0 <= m < p.branches.len() && m < p.tips.len() && #[trigger] p.branches[m] == pr.base
                    && (forall|x: int| 0 <= x < m ==> #[trigger] p.branches[x] != pr.base)
                    ==> lineage::reaches(world, w.place.0, p.tips[m]))
            &&& w.early ==> (target matches Some(tip) && lineage::reaches(world, tip, pr.head_oid)
                && (lineage::reaches(world, current, tip) || lineage::reaches(
                world,
                w.origin,
                tip,
            )))
            &&& pr.base != base_branch && (target matches Some(tip) && lineage::reaches(
                world,
                tip,
                pr.head_oid,
            ) && lineage::reaches(world, w.origin, tip)) ==> w.early
            &&& spot.held ==> spot.tip == pr.head_oid && spot.root is None && rest::tree_in(
                world,
                pr.head_oid,
            ) == w.place.1 && w.place.0 == w.origin && (w.place.0 != home || execution::on_held(
                cx,
                p,
                i,
            )) && spot.staged && spot.push is None
            &&& !spot.held ==> (end, Ok::<execution::SpotView, HaltView>(spot))
                == execution::moved_commits(
                w.at,
                cx,
                i,
                pr,
                w.origin,
                w.early,
                w.drafted,
                w.place,
                w.place.0 != home,
            ) && tape::only(t, w.at, |q: RequestView| true)
        }),
{
    broadcast use tape::lemma_only_ask;

    let any = |q: RequestView| true;
    assert(tape::may_do_all_but_push(any));
    assert(tape::may_look(any));
    let (end, r) = execution::moved_branch(t, cx, p, i, pr, parent_tip, base_branch);
    let spot = r->Ok_0;
    let dep = cx.trees.dep[i];
    let content = cx.trees.effective[i];
    let fallback = execution::fallback_base(cx, i);
    let (t1, origin) = execution::branch_start(t, pr, fallback);
    let origin = origin->Ok_0;
    let current = execution::current_base(pr, origin);
    let target = engine::remote_base_tip(cx.stack, cx.prs, i);
    let (t2, early) = execution::may_retarget_early(t1, pr, base_branch, target, current, origin);
    let early = early->Ok_0;
    let (t3, drafted) = if early {
        execution::retarget_early(t2, cx.config, pr, base_branch)
    } else {
        tape::done(t2, None)
    };
    let drafted = drafted->Ok_0;
    let (t4, old_base) = execution::steady_base(t3, p, pr, current);
    let old_base = old_base->Ok_0;
    let home = execution::home_of(cx, i, origin, parent_tip);
    let (t5, anchor) = execution::safe_anchor(t4, pr, base_branch, early, old_base, home);
    let anchor = anchor->Ok_0;
    let (t6, tree) = history::tree_rebased(t5, dep, anchor, content);
    tape::lemma_only_start(t, any);
    execution::lemma_branch_start_only(t, t, pr, fallback, any);
    tape::lemma_only_start(t1, any);
    tape::lemma_only_start(t2, any);
    tape::lemma_only_start(t3, any);
    tape::lemma_only_start(t4, any);
    tape::lemma_only_start(t5, any);
    tape::lemma_only_start(t6, any);
    execution::lemma_may_retarget_early_only(
        t1,
        t1,
        pr,
        base_branch,
        target,
        current,
        origin,
        any,
    );
    execution::lemma_retarget_early_only(t2, t2, cx.config, pr, base_branch, any);
    execution::lemma_steady_base_only(t3, t3, p, pr, current, any);
    execution::lemma_safe_anchor_only(t4, t4, pr, base_branch, early, old_base, home, any);
    history::lemma_tree_rebased_only(t5, t5, dep, anchor, content, any);
    assert(tree is Ok);
    let parked = anchor != home;
    match tree->Ok_0 {
        Some(tree) => {
            execution::lemma_parked_or_moved_only(
                t6,
                t6,
                cx,
                p,
                i,
                pr,
                origin,
                parent_tip,
                early,
                drafted,
                (anchor, tree),
                any,
            );
        },
        None => {
            execution::lemma_moved_commits_only(
                t6,
                t6,
                cx,
                i,
                pr,
                origin,
                early,
                drafted,
                (parent_tip, content),
                false,
                any,
            );
        },
    }
    assert(tape::only(t6, end, any));
    tape::lemma_only_trans(t6, end, to, any);
    tape::lemma_only_trans(t5, t6, to, any);
    tape::lemma_only_trans(t4, t5, to, any);
    tape::lemma_only_trans(t3, t4, to, any);
    assert(tape::only(t2, t3, any));
    tape::lemma_only_trans(t2, t3, to, any);
    tape::lemma_only_trans(t1, t2, to, any);
    tape::lemma_only_trans(t, t1, t2, any);
    tape::lemma_only_trans(t, t2, t3, any);
    tape::lemma_only_trans(t, t3, t4, any);
    tape::lemma_only_trans(t, t4, t5, any);
    tape::lemma_only_trans(t, t5, t6, any);
    findings::lemma_rebased(from, t5, dep, anchor, content, to, world);
    assert(tree->Ok_0 is Some) by {
        if tree->Ok_0 is None {
            let ours = rest::tree_in(world, anchor);
            let merge = RequestView::MergeTrees { base: dep, ours, theirs: content };
            assert(tape::told(to, merge, world(merge)));
        }
    }
    let place = (anchor, (tree->Ok_0)->0);
    lemma_early(from, t1, pr, base_branch, target, current, origin, to, world);
    lemma_steady(from, t3, p, pr, current, to, world);
    lemma_anchor(from, t4, pr, base_branch, early, old_base, home, to, world);
    if lingers(pr, base_branch, early) {
        lineage::lemma_trans(world, anchor, old_base, current);
        assert forall|m: int|
            0 <= m < p.branches.len() && m < p.tips.len() && #[trigger] p.branches[m] == pr.base && (
            forall|x: int| 0 <= x < m ==> #[trigger] p.branches[x] != pr.base) implies lineage::reaches(
            world,
            anchor,
            p.tips[m],
        ) by {
            lemma_branch_index(p.branches, pr.base, 0, m);
            lineage::lemma_trans(world, anchor, old_base, p.tips[m]);
        }
    }
    let waits = anchor == origin && (parked || execution::on_held(cx, p, i));
    let q = RequestView::TreeOf { commit: pr.head_oid };
    let at = if waits {
        tape::ask(t6, q).0
    } else {
        t6
    };
    if waits {
        tape::lemma_only_start(at, any);
        assert(tape::only(at, end, any)) by {
            execution::lemma_moved_commits_only(
                at,
                at,
                cx,
                i,
                pr,
                origin,
                early,
                drafted,
                place,
                parked,
                any,
            );
        }
        tape::lemma_only_trans(at, end, to, any);
        rest::lemma_steady_reply(from, t6, q, to, world);
        tape::lemma_only_ask(t, t6, q, any);
    }
    Way { origin, place, early, drafted, at }
}

proof fn lemma_branch_index(branches: Seq<Seq<char>>, name: Seq<char>, k: int, m: int)
    requires
        0 <= k <= m < branches.len(),
        branches[m] == name,
        forall|x: int| 0 <= x < m ==> #[trigger] branches[x] != name,
    ensures
        execution::branch_index(branches, name, k) == Some(m),
    decreases m - k,
{
    if k < m {
        assert(branches[k] != name);
        lemma_branch_index(branches, name, k + 1, m);
    }
}

/// What an early change of the base rests on.
proof fn lemma_early(
    from: TapeView,
    t: TapeView,
    pr: PrView,
    base_branch: Seq<char>,
    target: Option<Oid>,
    current: Oid,
    origin: Oid,
    to: TapeView,
    world: spec_fn(RequestView) -> ReplyView,
)
    requires
        lineage::has_history(world),
        from.asked.len() <= t.asked.len(),
        rest::hears_steady(from, to, world),
        execution::may_retarget_early(t, pr, base_branch, target, current, origin).1 is Ok,
        tape::only(
            execution::may_retarget_early(t, pr, base_branch, target, current, origin).0,
            to,
            |q: RequestView| true,
        ),
    ensures
        execution::may_retarget_early(t, pr, base_branch, target, current, origin).1->Ok_0 == (
        pr.base != base_branch && (target matches Some(tip) && lineage::reaches(
            world,
            tip,
            pr.head_oid,
        ) && (lineage::reaches(world, current, tip) || lineage::reaches(world, origin, tip)))),
{
    broadcast use tape::lemma_only_ask;

    let any = |q: RequestView| true;
    let end = execution::may_retarget_early(t, pr, base_branch, target, current, origin).0;
    if pr.base != base_branch && target is Some {
        let tip = target->0;
        let q1 = RequestView::IsAncestor { ancestor: tip, descendant: pr.head_oid };
        let (t1, in_head) = tape::ask_flag(t, q1);
        tape::lemma_only_start(t1, any);
        assert(tape::only(t1, end, any));
        tape::lemma_only_trans(t1, end, to, any);
        rest::lemma_steady_reply(from, t, q1, to, world);
        lineage::lemma_agree(world, tip, pr.head_oid);
        if in_head->Ok_0 {
            let q2 = RequestView::IsAncestor { ancestor: current, descendant: tip };
            let (t2, above) = tape::ask_flag(t1, q2);
            tape::lemma_only_start(t2, any);
            assert(tape::only(t2, end, any));
            tape::lemma_only_trans(t2, end, to, any);
            rest::lemma_steady_reply(from, t1, q2, to, world);
            lineage::lemma_agree(world, current, tip);
            if !above->Ok_0 {
                let q3 = RequestView::IsAncestor { ancestor: origin, descendant: tip };
                rest::lemma_steady_reply(from, t2, q3, to, world);
                lineage::lemma_agree(world, origin, tip);
            }
        }
    }
}

/// What the base branch holds before and after the push.
proof fn lemma_steady(
    from: TapeView,
    t: TapeView,
    p: PlacementView,
    pr: PrView,
    current: Oid,
    to: TapeView,
    world: spec_fn(RequestView) -> ReplyView,
)
    requires
        lineage::has_history(world),
        from.asked.len() <= t.asked.len(),
        rest::hears_steady(from, to, world),
        execution::steady_base(t, p, pr, current).1 is Ok,
        tape::only(execution::steady_base(t, p, pr, current).0, to, |q: RequestView| true),
    ensures
        ({
            let old_base = execution::steady_base(t, p, pr, current).1->Ok_0;
            &&& lineage::reaches(world, old_base, current)
            &&& execution::branch_index(p.branches, pr.base, 0) matches Some(k)
                ==> lineage::reaches(world, old_base, p.tips[k])
        }),
{
    lineage::lemma_self(world, current);
    if let Some(k) = execution::branch_index(p.branches, pr.base, 0) {
        let q = RequestView::MergeBase { a: current, b: p.tips[k] };
        rest::lemma_steady_reply(from, t, q, to, world);
        lineage::lemma_agree(world, current, p.tips[k]);
    }
}

/// Where a branch can stand.
proof fn lemma_anchor(
    from: TapeView,
    t: TapeView,
    pr: PrView,
    base_branch: Seq<char>,
    early: bool,
    old_base: Oid,
    home: Oid,
    to: TapeView,
    world: spec_fn(RequestView) -> ReplyView,
)
    requires
        lineage::has_history(world),
        from.asked.len() <= t.asked.len(),
        rest::hears_steady(from, to, world),
        execution::safe_anchor(t, pr, base_branch, early, old_base, home).1 is Ok,
        tape::only(
            execution::safe_anchor(t, pr, base_branch, early, old_base, home).0,
            to,
            |q: RequestView| true,
        ),
    ensures
        ({
            let anchor = execution::safe_anchor(t, pr, base_branch, early, old_base, home).1->Ok_0;
            &&& !lingers(pr, base_branch, early) ==> anchor == home
            &&& lineage::reaches(world, anchor, home)
            &&& lingers(pr, base_branch, early) ==> lineage::reaches(world, anchor, old_base)
        }),
{
    broadcast use tape::lemma_only_ask;

    let any = |q: RequestView| true;
    let end = execution::safe_anchor(t, pr, base_branch, early, old_base, home).0;
    lineage::lemma_self(world, home);
    if lingers(pr, base_branch, early) {
        let q1 = RequestView::IsAncestor { ancestor: home, descendant: old_base };
        let (t1, contained) = tape::ask_flag(t, q1);
        tape::lemma_only_start(t1, any);
        assert(tape::only(t1, end, any));
        tape::lemma_only_trans(t1, end, to, any);
        rest::lemma_steady_reply(from, t, q1, to, world);
        lineage::lemma_agree(world, home, old_base);
        if !contained->Ok_0 {
            let q2 = RequestView::MergeBase { a: old_base, b: home };
            rest::lemma_steady_reply(from, t1, q2, to, world);
            lineage::lemma_agree(world, old_base, home);
        }
    }
}

/// The pull request of layer `i` keeps the base it has until after the push.
pub open spec fn lingering(cx: ContextView, p: PlacementView, i: int) -> bool {
    cx.prs[i] matches Some(pr) && lingers(pr, p.base_branches[i], p.retargeted_early[i])
}

/// The first of the branches with the given name.
pub open spec fn is_first(branches: Seq<Seq<char>>, name: Seq<char>, m: int) -> bool {
    &&& 0 <= m < branches.len()
    &&& branches[m] == name
    &&& forall|x: int| 0 <= x < m ==> #[trigger] branches[x] != name
}

/// The branch of layer `i` was written anew on top of a commit that what the layer sits
/// on holds, and that the branch that it is based on holds before and after the push.
pub open spec fn stood(
    g: Ground,
    cx: ContextView,
    p: PlacementView,
    i: int,
    a: Oid,
    root: Oid,
) -> bool {
    let pr = cx.prs[i]->0;
    let tip = p.tips[i];
    &&& exists|n: nat| #[trigger] lineage::line(g.world, a, root, tip, n)
    &&& put_on(
        g.world,
        g.to,
        a,
        rest::tree_in(g.world, tip),
        cx.trees.dep[i],
        cx.trees.effective[i],
    )
    &&& lineage::reaches(g.world, a, execution::base_of(cx, p, i).0)
    &&& lingering(cx, p, i) ==> {
        &&& pr.base_oid != oid::zero_oid() ==> lineage::reaches(g.world, a, pr.base_oid)
        &&& forall|m: int|
            0 <= m < i && #[trigger] is_first(p.branches, pr.base, m) ==> lineage::reaches(
                g.world,
                a,
                p.tips[m],
            )
    }
}

/// A commit is where the branch of layer `i` starts, as far as that was found.
pub open spec fn starts(g: Ground, cx: ContextView, i: int, o: Oid) -> bool {
    forall|root: Oid, a: Oid| #[trigger]
        lineage::stems(g.world, root, a) && placing::judged_with(g, cx, i, Some(root)) ==> o == a
}

/// The branch of layer `i` waits where it is.
pub open spec fn waiting(g: Ground, cx: ContextView, p: PlacementView, i: int, o: Oid) -> bool {
    &&& lineage::reaches(g.world, o, execution::base_of(cx, p, i).0)
    &&& put_on(
        g.world,
        g.to,
        o,
        rest::tree_in(g.world, (cx.prs[i]->0).head_oid),
        cx.trees.dep[i],
        cx.trees.effective[i],
    )
    &&& starts(g, cx, i, o)
}

/// What holds of the place of any layer.
pub open spec fn sits(cx: ContextView, p: PlacementView, k: int) -> bool {
    &&& cx.prs[k] matches Some(pr) ==> p.branches[k] == pr.head
    &&& cx.prs[k] is None && cx.decision.push[k] ==> p.new_roots[k] == Some(p.tips[k])
    &&& !cx.decision.push[k] ==> p.new_roots[k] is None && !p.held[k] && (
    cx.prs[k] matches Some(pr) ==> p.tips[k] == pr.head_oid)
    &&& p.held[k] ==> p.new_roots[k] is None && cx.decision.push[k] && (cx.prs[k] matches Some(pr)
        && p.tips[k] == pr.head_oid)
    &&& cx.decision.push[k] && !p.held[k] ==> telling::among_pushes(p, k)
    &&& !execution::has_branch(cx, k) ==> p.branches[k].len() == 0
}

/// Layer `k` has its place, for now.
pub open spec fn posed(g: Ground, cx: ContextView, p: PlacementView, k: int) -> bool {
    let base = execution::base_of(cx, p, k).0;
    &&& sits(cx, p, k)
    &&& engine::in_scope(cx.opts, k) && cx.decision.push[k] ==> match cx.prs[k] {
        None => rest::displays(
            g.world,
            base,
            p.tips[k],
            cx.trees.dep[k],
            cx.trees.effective[k],
        ),
        Some(pr) => {
            &&& if p.held[k] {
                exists|o: Oid| #[trigger] waiting(g, cx, p, k, o)
            } else {
                match p.new_roots[k] {
                    Some(root) => exists|a: Oid| #[trigger] stood(g, cx, p, k, a, root),
                    None => placing::added(g, cx, p.tips[k], k) && !lingering(cx, p, k)
                        && rest::displays(
                        g.world,
                        base,
                        p.tips[k],
                        cx.trees.dep[k],
                        cx.trees.effective[k],
                    ),
                }
            }
            &&& !cx.decision.rewrite_history[k] ==> p.new_roots[k] is None
        },
    }
}

/// What is asked of a layer that is pushed: its patch conflicts nowhere and keeps itself
/// wherever it was put; and where the branch stays on an older trunk, the pull request is
/// based on the trunk.
pub open spec fn unhindered(
    world: spec_fn(RequestView) -> ReplyView,
    to: TapeView,
    cx: ContextView,
    i: int,
) -> bool {
    &&& placing::keeps(world, to, cx.trees.dep[i], cx.trees.effective[i])
    &&& !placing::conflicts(to, cx.trees.dep[i], cx.trees.effective[i])
    &&& cx.prs[i] matches Some(pr) ==> (!cx.decision.rewrite_history[i] && !(
    cx.stack.layers[i].dep is Layer) && pr.base != cx.config.trunk ==> lineage::reaches(
        world,
        cx.stack.base,
        pr.head_oid,
    ))
}

proof fn lemma_origin_found(
    t: TapeView,
    cx: ContextView,
    i: int,
    pr: PrView,
    bases: Seq<Seq<char>>,
    early: Seq<bool>,
    g: Ground,
    origin: Oid,
)
    requires
        lineage::has_history(g.world),
        memory::remembers(g.before, g.world, g.to),
        tape::only(g.start, t, |q: RequestView| placing::calm(cx.prs, bases, early, q)),
        cx.prs[i] == Some(pr),
        engine::remote_base_tip(cx.stack, cx.prs, i) is Some,
        execution::branch_start(t, pr, execution::fallback_base(cx, i)).1 == Ok::<Oid, HaltView>(
            origin,
        ),
        tape::only(
            execution::branch_start(t, pr, execution::fallback_base(cx, i)).0,
            g.to,
            |q: RequestView| true,
        ),
    ensures
        starts(g, cx, i, origin),
{
    let stop = engine::remote_base_tip(cx.stack, cx.prs, i)->0;
    assert forall|root: Oid, a: Oid| #[trigger]
        lineage::stems(g.world, root, a) && placing::judged_with(
            g,
            cx,
            i,
            Some(root),
        ) implies origin == a by {
        placing::lemma_origin(t, cx, i, pr, stop, Some(root), a, bases, early, g);
    }
}

/// The branch of a pull request that is pushed, or waits.
#[verifier::rlimit(60)]
proof fn lemma_pose_moved(
    t: TapeView,
    cx: ContextView,
    p: PlacementView,
    i: int,
    pr: PrView,
    base: Oid,
    bases: Seq<Seq<char>>,
    early: Seq<bool>,
    g: Ground,
) -> (w: Way)
    requires
        placing::given(g, cx),
        0 <= i < cx.stack.layers.len(),
        p.tips.len() == i,
        p.branches.len() == i,
        p.held.len() == i,
        cx.prs[i] == Some(pr),
        cx.decision.push[i],
        engine::in_scope(cx.opts, i),
        unhindered(g.world, g.to, cx, i),
        execution::base_of(cx, p, i) == (base, bases[i]),
        match cx.stack.layers[i].dep {
            Dep::Layer(j) => !cx.decision.push[j as int] ==> (cx.prs[j as int] matches Some(below)
                && base == below.head_oid) && !p.held[j as int],
            _ => base == cx.stack.base && bases[i] == cx.config.trunk,
        },
        tape::only(g.start, t, |q: RequestView| placing::calm(cx.prs, bases, early, q)),
        execution::moved_branch(t, cx, p, i, pr, base, bases[i]).1 is Ok,
        tape::only(
            execution::moved_branch(t, cx, p, i, pr, base, bases[i]).0,
            g.to,
            |q: RequestView| true,
        ),
    ensures
        ({
            let spot = execution::moved_branch(t, cx, p, i, pr, base, bases[i]).1->Ok_0;
            let dep = cx.trees.dep[i];
            let content = cx.trees.effective[i];
            &&& spot.early == w.early
            &&& spot.branch == pr.head
            &&& !cx.decision.rewrite_history[i] ==> spot.root is None
            &&& if spot.held {
                &&& spot.tip == pr.head_oid && spot.root is None
                &&& lineage::reaches(g.world, w.place.0, base)
                &&& put_on(
                    g.world,
                    g.to,
                    w.place.0,
                    rest::tree_in(g.world, pr.head_oid),
                    dep,
                    content,
                )
                &&& engine::remote_base_tip(cx.stack, cx.prs, i) is Some ==> starts(
                    g,
                    cx,
                    i,
                    w.place.0,
                )
            } else {
                match spot.root {
                    Some(root) => {
                        &&& exists|n: nat| #[trigger]
                            lineage::line(g.world, w.place.0, root, spot.tip, n)
                        &&& put_on(
                            g.world,
                            g.to,
                            w.place.0,
                            rest::tree_in(g.world, spot.tip),
                            dep,
                            content,
                        )
                        &&& lineage::reaches(g.world, w.place.0, base)
                        &&& lingers(pr, bases[i], w.early) ==> {
                            &&& pr.base_oid != oid::zero_oid() ==> lineage::reaches(
                                g.world,
                                w.place.0,
                                pr.base_oid,
                            )
                            &&& forall|m: int|
                                0 <= m < i && #[trigger] is_first(p.branches, pr.base, m)
                                    ==> lineage::reaches(g.world, w.place.0, p.tips[m])
                        }
                    },
                    None => placing::added(g, cx, spot.tip, i) && !lingers(pr, bases[i], w.early)
                        && rest::displays(g.world, base, spot.tip, dep, content),
                }
            }
            &&& w.early ==> (engine::remote_base_tip(cx.stack, cx.prs, i) matches Some(tip)
                && lineage::reaches(g.world, tip, pr.head_oid))
        }),
{
    let any = |q: RequestView| true;
    assert(tape::may_look(any));
    let dep = cx.trees.dep[i];
    let content = cx.trees.effective[i];
    let (end, spot) = execution::moved_branch(t, cx, p, i, pr, base, bases[i]);
    let spot = spot->Ok_0;
    memory::lemma_steady(g.before, g.world, t, g.to);
    let w = lemma_way(t, t, cx, p, i, pr, base, bases[i], g.to, g.world);
    placing::lemma_moved_pushes(t, cx, p, i, pr, base, bases[i]);
    if engine::remote_base_tip(cx.stack, cx.prs, i) is Some {
        lemma_origin_found(t, cx, i, pr, bases, early, g, w.origin);
    }
    assert(engine::warranted(cx.stack, cx.prs, cx.opts, g.checks, cx.decision, i));
    assert(placing::judged(g, cx, i));
    let home = execution::home_of(cx, i, w.origin, base);
    assert forall|m: int| 0 <= m < i && #[trigger] is_first(p.branches, pr.base, m) && lingers(
        pr,
        bases[i],
        w.early,
    ) implies lineage::reaches(g.world, w.place.0, p.tips[m]) by {}
    if !spot.held {
        placing::lemma_recommitted(
            g.start,
            w.at,
            cx,
            i,
            pr,
            w.origin,
            w.place.0,
            w.place.1,
            g.before,
            g.to,
            g.world,
        );
    }
    if !cx.opts.preserve_commit_history || cx.decision.rewrite_history[i] {
        assert(home == base);
    } else {
        let stop = match cx.stack.layers[i].dep {
            Dep::Layer(j) => (cx.prs[j as int]->0).head_oid,
            _ => cx.stack.base,
        };
        assert(engine::remote_base_tip(cx.stack, cx.prs, i) == Some(stop));
        assert(base == stop);
        let root = choose|root: Option<Oid>| #[trigger] placing::judged_with(g, cx, i, root);
        assert(placing::judged_with(g, cx, i, root));
        let anchor = g.checks[i].anchor->0;
        assert(g.checks[i].anchor is Some);
        assert(lineage::stems(g.world, root->0, anchor));
        assert(w.origin == anchor);
        lineage::lemma_self(g.world, anchor);
        lineage::lemma_above(g.world, root->0, anchor, anchor);
        lineage::lemma_trans(g.world, anchor, root->0, pr.head_oid);
        if anchor != base {
            assert(g.checks[i].settled);
            assert(!lineage::reaches(g.world, base, pr.head_oid)) by {
                lineage::lemma_agree(g.world, base, pr.head_oid);
            }
        }
        assert(w.place.0 == anchor && home == anchor);
        assert(!spot.held);
        let tip = spot.tip;
        if anchor == base {
            lineage::lemma_above(g.world, tip, pr.head_oid, anchor);
        } else {
            assert(!lineage::reaches(g.world, tip, base));
            lineage::lemma_grows(g.world, tip, pr.head_oid, base);
        }
        lemma_put_on(g.world, g.to, base, anchor, tip, dep, content);
    }
    w
}

/// What holds of a place goes on holding while others get theirs.
proof fn lemma_pose_stays(
    g: Ground,
    cx: ContextView,
    p: PlacementView,
    q: PlacementView,
    k: int,
)
    requires
        execution::coherent(cx),
        0 <= k < cx.stack.layers.len(),
        k < p.tips.len(),
        execution::placed(p, p.tips.len() as int),
        placing::extends(p, q),
        posed(g, cx, p, k),
    ensures
        posed(g, cx, q, k),
{
    let n = p.tips.len() as int;
    assert(q.tips[k] == q.tips.take(n)[k]);
    assert(q.branches[k] == q.branches.take(n)[k]);
    assert(q.base_branches[k] == q.base_branches.take(n)[k]);
    assert(q.new_roots[k] == q.new_roots.take(n)[k]);
    assert(q.held[k] == q.held.take(n)[k]);
    assert(execution::base_of(cx, q, k) == execution::base_of(cx, p, k)) by {
        match cx.stack.layers[k].dep {
            Dep::Layer(j) => {
                assert(j < k);
                assert(q.tips[j as int] == q.tips.take(n)[j as int]);
                assert(q.branches[j as int] == q.branches.take(n)[j as int]);
            },
            _ => {},
        }
    }
    if cx.decision.push[k] && !p.held[k] {
        let m = choose|m: int|
            0 <= m < p.push_specs.len() && placing::pushes(
                #[trigger] p.push_specs[m],
                p.branches[k],
                p.tips[k],
            );
        assert(q.push_specs[m] == q.push_specs.take(p.push_specs.len() as int)[m]);
    }
    if engine::in_scope(cx.opts, k) && cx.decision.push[k] && cx.prs[k] is Some {
        if p.held[k] {
            let o = choose|o: Oid| #[trigger] waiting(g, cx, p, k, o);
            assert(waiting(g, cx, q, k, o));
        } else if p.new_roots[k] is Some {
            let root = p.new_roots[k]->0;
            let a = choose|a: Oid| #[trigger] stood(g, cx, p, k, a, root);
            assert(stood(g, cx, q, k, a, root)) by {
                let pr = cx.prs[k]->0;
                assert forall|m: int| 0 <= m < k && #[trigger] is_first(q.branches, pr.base, m)
                    && lingering(cx, q, k) implies lineage::reaches(g.world, a, q.tips[m]) by {
                    assert(q.tips[m] == q.tips.take(n)[m]);
                    assert(q.branches[m] == q.branches.take(n)[m]);
                    assert forall|x: int| 0 <= x < m implies #[trigger] p.branches[x] != pr.base by {
                        assert(q.branches[x] == q.branches.take(n)[x]);
                    }
                    assert(is_first(p.branches, pr.base, m));
                }
            }
        }
    }
}

/// All layers have their places for now.
#[verifier::rlimit(60)]
pub proof fn lemma_poses(
    t: TapeView,
    cx: ContextView,
    i: int,
    p: PlacementView,
    q: PlacementView,
    g: Ground,
)
    requires
        placing::given(g, cx),
        0 <= i <= cx.stack.layers.len(),
        execution::placed(p, i),
        execution::place_from(t, cx, i, p).1 == Ok::<PlacementView, HaltView>(q),
        tape::only(
            g.start,
            t,
            |r: RequestView| placing::calm(cx.prs, q.base_branches, q.retargeted_early, r),
        ),
        tape::only(execution::place_from(t, cx, i, p).0, g.to, |r: RequestView| true),
        forall|k: int| 0 <= k < i ==> #[trigger] posed(g, cx, p, k),
        forall|k: int|
            0 <= k < cx.stack.layers.len() && engine::in_scope(cx.opts, k)
                && #[trigger] cx.decision.push[k] ==> unhindered(g.world, g.to, cx, k) && (
            cx.prs[k] is Some && q.held[k] ==> engine::remote_base_tip(cx.stack, cx.prs, k) is Some),
    ensures
        forall|k: int| 0 <= k < cx.stack.layers.len() ==> #[trigger] posed(g, cx, q, k),
    decreases cx.stack.layers.len() - i,
{
    let any = |r: RequestView| true;
    assert(tape::may_do_all_but_push(any));
    if i < cx.stack.layers.len() {
        let bases = q.base_branches;
        let early = q.retargeted_early;
        let base = execution::base_of(cx, p, i);
        let (t1, spot) = execution::spot_of(t, cx, p, i, base.0, base.1);
        let spot = spot->Ok_0;
        let (t2, saved) = execution::rescued_from(t1, cx, spot, 0, p);
        let saved = saved->Ok_0;
        execution::lemma_rescued_from(t1, cx, spot, 0, p);
        let next = execution::with_spot(execution::reserve(cx, i, saved, spot), base.1, spot);
        let end = execution::place_from(t, cx, i, p).0;
        assert(execution::place_from(t, cx, i, p) == execution::place_from(t2, cx, i + 1, next));
        placing::lemma_extends(t2, cx, i + 1, next);
        placing::lemma_extends(t, cx, i, p);
        assert(bases[i] == bases.take(i + 1)[i]);
        assert(next.base_branches[i] == base.1);
        assert(p.base_branches == bases.take(i));
        assert(next.retargeted_early[i] == spot.early);
        placing::lemma_spot_calm(g.start, t, cx, p, bases, early, i);
        assert forall|m: int| 0 <= m < i && #[trigger] saved.retargeted_early[m] implies early[m] by {
            assert(next.retargeted_early[m]);
        }
        placing::lemma_rescued_calm(g.start, t1, cx, bases, early, spot, 0, p);
        tape::lemma_only_start(t1, any);
        tape::lemma_only_start(t2, any);
        execution::lemma_rescued_from_only(t1, t1, cx, spot, 0, p, any);
        execution::lemma_place_from_only(t2, t2, cx, i + 1, next, any);
        tape::lemma_only_trans(t2, end, g.to, any);
        tape::lemma_only_trans(t1, t2, g.to, any);
        assert(execution::base_of(cx, next, i) == base) by {
            match cx.stack.layers[i].dep {
                Dep::Layer(j) => {
                    assert(j < i);
                },
                _ => {},
            }
        }
        placing::lemma_extends_step(t1, cx, i, p, saved, spot);
        assert(q.held[i] == q.held.take(i + 1)[i]);
        assert(engine::warranted(cx.stack, cx.prs, cx.opts, g.checks, cx.decision, i));
        lemma_pose_one(t, cx, p, i, base, bases, early, g, next, spot);
        assert forall|k: int| 0 <= k < i + 1 implies #[trigger] posed(g, cx, next, k) by {
            if k < i {
                assert(posed(g, cx, p, k));
                lemma_pose_stays(g, cx, p, next, k);
            }
        }
        lemma_poses(t2, cx, i + 1, next, q, g);
    }
}

/// One more layer has its place for now.
#[verifier::rlimit(60)]
proof fn lemma_pose_one(
    t: TapeView,
    cx: ContextView,
    p: PlacementView,
    i: int,
    base: (Oid, Seq<char>),
    bases: Seq<Seq<char>>,
    early: Seq<bool>,
    g: Ground,
    next: PlacementView,
    spot: execution::SpotView,
)
    requires
        placing::given(g, cx),
        0 <= i < cx.stack.layers.len(),
        execution::placed(p, i),
        placing::extends(p, next),
        base == execution::base_of(cx, p, i),
        base == execution::base_of(cx, next, i),
        base.1 == bases[i],
        execution::spot_of(t, cx, p, i, base.0, base.1).1 == Ok::<execution::SpotView, HaltView>(
            spot,
        ),
        tape::only(
            execution::spot_of(t, cx, p, i, base.0, base.1).0,
            g.to,
            |q: RequestView| true,
        ),
        tape::only(g.start, t, |r: RequestView| placing::calm(cx.prs, bases, early, r)),
        execution::placed(next, i + 1),
        next.tips[i] == spot.tip,
        next.branches[i] == spot.branch,
        next.new_roots[i] == spot.root,
        next.held[i] == spot.held,
        next.base_branches[i] == base.1,
        next.retargeted_early[i] == spot.early,
        next.push_specs == (match spot.push {
            Some(spec) => p.push_specs.push(spec),
            None => p.push_specs,
        }),
        forall|k: int| 0 <= k < i ==> #[trigger] posed(g, cx, p, k),
        engine::in_scope(cx.opts, i) && cx.decision.push[i] ==> unhindered(g.world, g.to, cx, i) && (
        cx.prs[i] is Some && spot.held ==> engine::remote_base_tip(cx.stack, cx.prs, i) is Some),
    ensures
        posed(g, cx, next, i),
{
    assert(engine::warranted(cx.stack, cx.prs, cx.opts, g.checks, cx.decision, i));
    if let Some(pr) = cx.prs[i] {
        if cx.decision.push[i] {
            placing::lemma_moved_pushes(t, cx, p, i, pr, base.0, base.1);
            lemma_held(t, cx, p, i, pr, base.0, base.1);
        }
    }
    if cx.decision.push[i] && !spot.held {
        let m = p.push_specs.len() as int;
        assert(placing::pushes(next.push_specs[m], next.branches[i], next.tips[i]));
    }
    if cx.decision.push[i] && engine::in_scope(cx.opts, i) {
        match cx.prs[i] {
            None => {
                assert(placing::portable(g.world, g.to, cx, base.0, i));
                placing::lemma_seat_new(t, cx, p, i, base.0, g);
            },
            Some(pr) => {
                if let Dep::Layer(j) = cx.stack.layers[i].dep {
                    assert(posed(g, cx, p, j as int));
                    assert(engine::warranted(
                        cx.stack,
                        cx.prs,
                        cx.opts,
                        g.checks,
                        cx.decision,
                        j as int,
                    ));
                }
                let w = lemma_pose_moved(t, cx, p, i, pr, base.0, bases, early, g);
                if spot.held {
                    assert(waiting(g, cx, next, i, w.place.0));
                } else if spot.root is Some {
                    let root = spot.root->0;
                    assert(stood(g, cx, next, i, w.place.0, root)) by {
                        assert forall|m: int|
                            0 <= m < i && #[trigger] is_first(next.branches, pr.base, m)
                                && lingering(cx, next, i) implies lineage::reaches(
                            g.world,
                            w.place.0,
                            next.tips[m],
                        ) by {
                            assert(next.tips[m] == next.tips.take(i)[m]);
                            assert(next.branches[m] == next.branches.take(i)[m]);
                            assert forall|x: int| 0 <= x < m implies #[trigger] p.branches[x]
                                != pr.base by {
                                assert(next.branches[x] == next.branches.take(i)[x]);
                            }
                            assert(is_first(p.branches, pr.base, m));
                        }
                    }
                }
            },
        }
    }
}

/// A branch that waits stays where it is.
proof fn lemma_held(
    t: TapeView,
    cx: ContextView,
    p: PlacementView,
    i: int,
    pr: PrView,
    parent_tip: Oid,
    base_branch: Seq<char>,
)
    requires
        execution::moved_branch(t, cx, p, i, pr, parent_tip, base_branch).1 is Ok,
    ensures
        ({
            let spot = execution::moved_branch(t, cx, p, i, pr, parent_tip, base_branch).1->Ok_0;
            &&& spot.held ==> spot.tip == pr.head_oid && spot.root is None && spot.push is None
            &&& !spot.held ==> (spot.push matches Some(push) && placing::pushes(
                push,
                pr.head,
                spot.tip,
            ))
        }),
{
    let (t1, origin) = execution::branch_start(t, pr, execution::fallback_base(cx, i));
    let origin = origin->Ok_0;
    let current = execution::current_base(pr, origin);
    let target = engine::remote_base_tip(cx.stack, cx.prs, i);
    let (t2, early) = execution::may_retarget_early(t1, pr, base_branch, target, current, origin);
    let early = early->Ok_0;
    let (t3, drafted) = if early {
        execution::retarget_early(t2, cx.config, pr, base_branch)
    } else {
        tape::done(t2, None)
    };
    let (t4, old_base) = execution::steady_base(t3, p, pr, current);
    let home = execution::home_of(cx, i, origin, parent_tip);
    let (t5, anchor) = execution::safe_anchor(
        t4,
        pr,
        base_branch,
        early,
        old_base->Ok_0,
        home,
    );
    let (t6, tree) = history::tree_rebased(
        t5,
        cx.trees.dep[i],
        anchor->Ok_0,
        cx.trees.effective[i],
    );
    assert(tree is Ok);
}

} // verus!
