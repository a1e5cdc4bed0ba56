//! What is displayed of a pull request at every moment of a run.

use vstd::prelude::*;

use crate::engine;
use crate::execution;
use crate::execution::{ContextView, PlacementView};
use crate::forge::PrView;
use crate::lineage;
use crate::memory;
use crate::oid;
use crate::oid::Oid;
use crate::parking;
use crate::placing;
use crate::placing::Ground;
use crate::rest;
use crate::stack::Dep;
use crate::tape;
use crate::tape::{HaltView, ReplyView, RequestView, TapeView};
use crate::telling;
use crate::telling::Course;

verus! {

/// Where a branch parts from a commit.
pub open spec fn fork_in(world: spec_fn(RequestView) -> ReplyView, base: Oid, head: Oid) -> Oid {
    world(RequestView::MergeBase { a: base, b: head })->Object_0
}

/// The branch that the pull request of layer `k` is based on comes to hold the layer's
/// tip.
pub open spec fn threatened(
    world: spec_fn(RequestView) -> ReplyView,
    cx: ContextView,
    p: PlacementView,
    k: int,
) -> bool {
    cx.prs[k] matches Some(pr) && pr.base != p.base_branches[k] && exists|m: int|
        k < m < p.tips.len() && #[trigger] p.branches[m] == pr.base && lineage::reaches(
            world,
            p.tips[k],
            p.tips[m],
        )
}

/// Why the base of a pull request is changed before the push.
pub open spec fn explained(
    world: spec_fn(RequestView) -> ReplyView,
    cx: ContextView,
    p: PlacementView,
    k: int,
) -> bool {
    engine::in_scope(cx.opts, k) && p.retargeted_early[k] ==> threatened(world, cx, p, k) || (
    engine::remote_base_tip(cx.stack, cx.prs, k) matches Some(tip) && cx.prs[k] matches Some(pr)
        && lineage::reaches(world, tip, pr.head_oid))
}

/// Whom a rescue is for.
proof fn lemma_rescued_why(
    from: TapeView,
    t: TapeView,
    cx: ContextView,
    spot: execution::SpotView,
    k: int,
    p: PlacementView,
    to: TapeView,
    world: spec_fn(RequestView) -> ReplyView,
)
    requires
        lineage::has_history(world),
        from.asked.len() <= t.asked.len(),
        rest::hears_steady(from, to, world),
        p.retargeted_early.len() == p.base_branches.len(),
        0 <= k,
        execution::rescued_from(t, cx, spot, k, p).1 is Ok,
        tape::only(execution::rescued_from(t, cx, spot, k, p).0, to, |q: RequestView| true),
    ensures
        ({
            let q = execution::rescued_from(t, cx, spot, k, p).1->Ok_0;
            forall|m: int|
                0 <= m < p.retargeted_early.len() && #[trigger] q.retargeted_early[m]
                    && !p.retargeted_early[m] ==> (cx.prs[m] matches Some(pr) && pr.base
                    == spot.branch && pr.base != p.base_branches[m] && lineage::reaches(
                    world,
                    p.tips[m],
                    spot.tip,
                ))
        }),
    decreases p.base_branches.len() - k,
{
    let any = |q: RequestView| true;
    assert(tape::may_do_all_but_push(any));
    if k >= p.base_branches.len() || k >= cx.prs.len() || spot.push is None || spot.staged {
    } else if !execution::endangered(cx, spot, k, p) {
        lemma_rescued_why(from, t, cx, spot, k + 1, p, to, world);
    } else {
        let end = execution::rescued_from(t, cx, spot, k, p).0;
        let q = RequestView::IsAncestor { ancestor: p.tips[k], descendant: spot.tip };
        let (t0, held) = tape::ask_flag(t, q);
        let (t1, next) = execution::saved_one(t, cx, spot, k, p);
        let next = next->Ok_0;
        assert(execution::rescued_from(t, cx, spot, k, p) == execution::rescued_from(
            t1,
            cx,
            spot,
            k + 1,
            next,
        ));
        tape::lemma_only_start(t, any);
        tape::lemma_only_start(t0, any);
        tape::lemma_only_start(t1, any);
        tape::lemma_only_ask(t, t, q, any);
        execution::lemma_retarget_early_only(
            t0,
            t0,
            cx.config,
            cx.prs[k]->0,
            p.base_branches[k],
            any,
        );
        assert(tape::only(t0, t1, any));
        execution::lemma_rescued_from_only(t1, t1, cx, spot, k + 1, next, any);
        tape::lemma_only_trans(t0, t1, end, any);
        tape::lemma_only_trans(t0, end, to, any);
        rest::lemma_steady_reply(from, t, q, to, world);
        lineage::lemma_agree(world, p.tips[k], spot.tip);
        tape::lemma_only_trans(t, t0, t1, any);
        lemma_rescued_why(from, t1, cx, spot, k + 1, next, to, world);
    }
}

/// Every early change of a base is explained.
#[verifier::rlimit(40)]
proof fn lemma_explained(
    t: TapeView,
    cx: ContextView,
    i: int,
    p: PlacementView,
    q: PlacementView,
    g: Ground,
)
    requires
        placing::given(g, cx),
        0 <= i <= cx.stack.layers.len(),
        g.start.asked.len() <= t.asked.len(),
        execution::placed(p, i),
        execution::place_from(t, cx, i, p).1 == Ok::<PlacementView, HaltView>(q),
        tape::only(execution::place_from(t, cx, i, p).0, g.to, |r: RequestView| true),
        forall|k: int| 0 <= k < i ==> #[trigger] explained(g.world, cx, p, k),
        forall|k: int|
            0 <= k < cx.stack.layers.len() && engine::in_scope(cx.opts, k)
                && #[trigger] cx.decision.push[k] ==> parking::unhindered(g.world, g.to, cx, k),
    ensures
        forall|k: int| 0 <= k < cx.stack.layers.len() ==> #[trigger] explained(g.world, cx, q, k),
    decreases cx.stack.layers.len() - i,
{
    let any = |r: RequestView| true;
    assert(tape::may_do_all_but_push(any));
    if i < cx.stack.layers.len() {
        let base = execution::base_of(cx, p, i);
        let (t1, spot) = execution::spot_of(t, cx, p, i, base.0, base.1);
        let spot = spot->Ok_0;
        let (t2, saved) = execution::rescued_from(t1, cx, spot, 0, p);
        let saved = saved->Ok_0;
        execution::lemma_rescued_from(t1, cx, spot, 0, p);
        let next = execution::with_spot(execution::reserve(cx, i, saved, spot), base.1, spot);
        let end = execution::place_from(t, cx, i, p).0;
        assert(execution::place_from(t, cx, i, p) == execution::place_from(t2, cx, i + 1, next));
        tape::lemma_only_start(t, any);
        tape::lemma_only_start(t1, any);
        tape::lemma_only_start(t2, any);
        execution::lemma_spot_of_only(t, t, cx, p, i, base.0, base.1, any);
        execution::lemma_rescued_from_only(t1, t1, cx, spot, 0, p, any);
        execution::lemma_place_from_only(t2, t2, cx, i + 1, next, any);
        tape::lemma_only_trans(t2, end, g.to, any);
        tape::lemma_only_trans(t1, t2, g.to, any);
        memory::lemma_steady(g.before, g.world, t, g.to);
        lemma_rescued_why(t, t1, cx, spot, 0, p, g.to, g.world);
        assert forall|k: int| 0 <= k < i + 1 implies #[trigger] explained(g.world, cx, next, k) by {
            if k < i {
                assert(explained(g.world, cx, p, k));
                if saved.retargeted_early[k] && !p.retargeted_early[k] {
                    assert(next.branches[i] == spot.branch);
                    assert(threatened(g.world, cx, next, k));
                } else if threatened(g.world, cx, p, k) {
                    let m = choose|m: int|
                        k < m < p.tips.len() && #[trigger] p.branches[m] == (cx.prs[k]->0).base
                            && lineage::reaches(g.world, p.tips[k], p.tips[m]);
                    assert(next.branches[m] == p.branches[m]);
                }
            } else if spot.early && engine::in_scope(cx.opts, i) {
                let pr = cx.prs[i]->0;
                assert(cx.decision.push[i]);
                let w = parking::lemma_way(
                    t,
                    t,
                    cx,
                    p,
                    i,
                    pr,
                    base.0,
                    base.1,
                    g.to,
                    g.world,
                );
            }
        }
        lemma_explained(t2, cx, i + 1, next, q, g);
    }
}

/// A round of a run, with what it leaves behind in the conversation.
pub open spec fn under_way(g: Ground, cx: ContextView, c: Course) -> bool {
    &&& placing::given(g, cx)
    &&& execution::executed(g.start, cx).1 is Ok
    &&& telling::ran(g.start, cx, c)
    &&& tape::only(execution::executed(g.start, cx).0, g.to, |q: RequestView| true)
    &&& telling::answered(g.to)
    &&& telling::found(g.before, g.to, g.start, cx)
    &&& telling::distinct_numbers(cx.prs)
    &&& execution::distinct_heads(cx.prs)
}

/// No request opens a pull request that is there.
proof fn lemma_not_opened(g: Ground, cx: ContextView, i: int, pr: PrView, x: int)
    requires
        memory::remembers(g.before, g.world, g.to),
        telling::answered(g.to),
        telling::found(g.before, g.to, g.start, cx),
        0 <= i < cx.prs.len(),
        cx.prs[i] == Some(pr),
        g.start.asked.len() <= x < g.to.asked.len(),
    ensures
        !(g.to.asked[x] is CreatePullRequest && g.to.replies[x] == ReplyView::Number(pr.number)),
{
    assert(cx.prs[i] is Some);
    assert(memory::recalls(g.before, g.world, g.to, x, g.to.asked[x], g.to.replies[x]));
    let m = g.start.asked.len() as int;
    let y = choose|y: int|
        0 <= y < m && y < g.to.replies.len() && memory::names(
            #[trigger] g.to.asked[y],
            g.to.replies[y],
            pr.number,
        );
    assert(memory::names(g.to.asked[y], g.to.replies[y], pr.number));
    if g.to.asked[x] is CreatePullRequest && g.to.replies[x] == ReplyView::Number(pr.number) {
        assert(memory::named(g.to, x, pr.number));
    }
}

/// Nothing is pushed before the push.
proof fn lemma_pre(g: Ground, cx: ContextView, c: Course, x: int)
    requires
        under_way(g, cx, c),
        g.start.asked.len() <= x < c.pre.asked.len(),
    ensures
        !(g.to.asked[x] is Push),
        telling::before_push(cx, telling::places(g.start, cx), g.to.asked[x]),
{
    let p = telling::places(g.start, cx);
    let end = execution::executed(g.start, cx).0;
    let first = |q: RequestView| telling::before_push(cx, p, q);
    assert(first(c.pre.asked[x]));
    assert(c.mid.asked[x] == c.pre.asked[x]);
    assert(end.asked[x] == c.mid.asked[x]);
    assert(g.to.asked[x] == end.asked[x]);
}

/// Nothing is pushed after the push.
proof fn lemma_post(g: Ground, cx: ContextView, c: Course, x: int)
    requires
        under_way(g, cx, c),
        c.mid.asked.len() <= x < execution::executed(g.start, cx).0.asked.len(),
    ensures
        !(g.to.asked[x] is Push),
{
    let end = execution::executed(g.start, cx).0;
    let quiet = |q: RequestView| !(q is Push);
    assert(quiet(end.asked[x]));
    assert(g.to.asked[x] == end.asked[x]);
}

/// The push itself.
proof fn lemma_push(g: Ground, cx: ContextView, c: Course)
    requires
        under_way(g, cx, c),
        c.mid != c.pre,
    ensures
        ({
            let x = c.pre.asked.len() as int;
            &&& c.mid.asked.len() == x + 1
            &&& g.to.asked[x] == (RequestView::Push {
                specs: telling::places(g.start, cx).push_specs,
            })
            &&& g.to.replies[x] == ReplyView::Done
        }),
{
    let p = telling::places(g.start, cx);
    let end = execution::executed(g.start, cx).0;
    let x = c.pre.asked.len() as int;
    let push = RequestView::Push { specs: p.push_specs };
    assert(c.mid.asked[x] == push);
    assert(end.asked[x] == push);
    assert(g.to.asked[x] == push);
    let y = choose|y: int|
        g.start.asked.len() <= y < c.mid.asked.len() && y < c.mid.replies.len()
            && #[trigger] c.mid.asked[y] == push && c.mid.replies[y] == ReplyView::Done;
    if y < x {
        let first = |q: RequestView| telling::before_push(cx, p, q);
        assert(c.mid.asked[y] == c.pre.asked[y]);
        assert(first(c.pre.asked[y]));
    }
}

/// Where a branch is at a moment of a round.
#[verifier::rlimit(30)]
proof fn lemma_tip(g: Ground, cx: ContextView, c: Course, branch: Seq<char>, k: int)
    requires
        under_way(g, cx, c),
        g.start.asked.len() <= k <= execution::executed(g.start, cx).0.asked.len(),
    ensures
        ({
            let start = memory::tip_at(g.before, g.to, g.start.asked.len() as int, branch);
            let now = memory::tip_at(g.before, g.to, k, branch);
            let specs = telling::places(g.start, cx).push_specs;
            &&& k <= c.pre.asked.len() ==> now == start
            &&& k >= c.mid.asked.len() ==> now == match memory::pushed_oid(specs, branch, 0) {
                Some(commit) => commit,
                None => start,
            }
        }),
{
    let m = g.start.asked.len() as int;
    let x = c.pre.asked.len() as int;
    let specs = telling::places(g.start, cx).push_specs;
    if k <= x {
        assert forall|y: int| m <= y < k implies memory::brings(
            #[trigger] g.to.asked[y],
            g.to.replies[y],
            branch,
        ) is None by {
            lemma_pre(g, cx, c, y);
        }
        memory::lemma_tip_stays(g.before, g.to, m, k, branch);
    }
    if k >= c.mid.asked.len() {
        if c.mid != c.pre {
            lemma_push(g, cx, c);
        }
        assert forall|y: int| m <= y < k implies match memory::brings(
            #[trigger] g.to.asked[y],
            g.to.replies[y],
            branch,
        ) {
            Some(commit) => y == x && c.mid != c.pre && memory::pushed_oid(specs, branch, 0)
                == Some(commit),
            None => true,
        } by {
            if y < x {
                lemma_pre(g, cx, c, y);
            } else if y >= c.mid.asked.len() {
                lemma_post(g, cx, c, y);
            }
        }
        match memory::pushed_oid(specs, branch, 0) {
            Some(commit) => {
                assert(specs.len() > 0);
                lemma_was_pushed(g, cx, c);
                memory::lemma_brought(g.to, m, x, k, branch, commit);
            },
            None => {
                memory::lemma_tip_stays(g.before, g.to, m, k, branch);
            },
        }
    }
}

/// Where there is something to push, it is pushed.
proof fn lemma_was_pushed(g: Ground, cx: ContextView, c: Course)
    requires
        under_way(g, cx, c),
        telling::places(g.start, cx).push_specs.len() > 0,
    ensures
        c.mid != c.pre,
{
    let p = telling::places(g.start, cx);
    let push = RequestView::Push { specs: p.push_specs };
    let y = choose|y: int|
        g.start.asked.len() <= y < c.mid.asked.len() && y < c.mid.replies.len()
            && #[trigger] c.mid.asked[y] == push && c.mid.replies[y] == ReplyView::Done;
    if c.mid == c.pre {
        let first = |q: RequestView| telling::before_push(cx, p, q);
        assert(first(c.pre.asked[y]));
    }
}

/// A pull request at a moment of a round.
#[verifier::rlimit(60)]
proof fn lemma_pr_then(g: Ground, cx: ContextView, c: Course, i: int, pr: PrView, k: int)
    requires
        under_way(g, cx, c),
        0 <= i < cx.stack.layers.len(),
        cx.prs[i] == Some(pr),
        g.start.asked.len() <= k <= execution::executed(g.start, cx).0.asked.len(),
    ensures
        ({
            let p = telling::places(g.start, cx);
            let now = memory::pr_at(g.before, g.to, k, pr.number);
            &&& now.head == pr.head && now.number == pr.number
            &&& now.base == pr.base || now.base == p.base_branches[i]
            &&& k <= c.mid.asked.len() && now.base != pr.base ==> p.retargeted_early[i]
            &&& k >= c.mid.asked.len() && p.retargeted_early[i] ==> now.base == p.base_branches[i]
            &&& k <= c.pre.asked.len() ==> now.head_oid == pr.head_oid
            &&& k >= c.mid.asked.len() ==> now.head_oid == (if telling::among_pushes(p, i) {
                p.tips[i]
            } else {
                pr.head_oid
            })
        }),
{
    let p = telling::places(g.start, cx);
    let end = execution::executed(g.start, cx).0;
    let m = g.start.asked.len() as int;
    let old = memory::pr_at(g.before, g.to, m, pr.number);
    let placed = execution::place_from(
        g.start,
        cx,
        0,
        execution::empty_placement(cx),
    ).0;
    assert(cx.prs[i] is Some);
    assert(memory::alike(pr, old));
    assert(execution::has_branch(cx, i));
    telling::lemma_brings(placed, cx, p, i);
    let base = p.base_branches[i];
    let body = crate::pr_body::with_warning(telling::description(cx, i), c.warn);
    let tip = p.tips[i];
    assert forall|x: int| m <= x < k implies memory::mild(
        #[trigger] g.to.asked[x],
        g.to.replies[x],
        pr.number,
        pr.head,
        base,
        body,
        tip,
    ) by {
        telling::lemma_mild_at(g.before, g.world, g.start, cx, c, g.to, i, pr, x);
    }
    memory::lemma_mild(g.before, g.to, m, k, pr.number, pr.head, base, body, tip);
    assert forall|x: int| m <= x < k implies !(#[trigger] g.to.asked[x] is CreatePullRequest
        && g.to.replies[x] == ReplyView::Number(pr.number)) by {
        lemma_not_opened(g, cx, i, pr, x);
    }
    memory::lemma_untold(g.before, g.to, m, k, pr.number);
    let now = memory::pr_at(g.before, g.to, k, pr.number);
    if k <= c.mid.asked.len() && now.base != pr.base {
        assert(p.retargeted_early[i]) by {
            if !p.retargeted_early[i] {
                assert forall|x: int| m <= x < k implies !memory::gives_base(
                    #[trigger] g.to.asked[x],
                    g.to.replies[x],
                    pr.number,
                ) by {
                    lemma_early_only(g, cx, c, i, pr, x);
                }
            }
        }
    }
    if k >= c.mid.asked.len() && p.retargeted_early[i] {
        lemma_told_early(g, cx, c, i, pr);
        let asks = telling::rebase(pr.number, base);
        let x = choose|x: int|
            m <= x < c.mid.asked.len() && x < g.to.replies.len() && #[trigger] g.to.asked[x] == asks
                && g.to.replies[x] == ReplyView::Done;
        assert(memory::gives_base(g.to.asked[x], g.to.replies[x], pr.number));
    }
    if k <= c.pre.asked.len() {
        assert forall|x: int| m <= x < k implies memory::brings(
            #[trigger] g.to.asked[x],
            g.to.replies[x],
            old.head,
        ) is None by {
            lemma_pre(g, cx, c, x);
        }
    }
    if k >= c.mid.asked.len() {
        if telling::among_pushes(p, i) {
            lemma_was_pushed(g, cx, c);
            lemma_push(g, cx, c);
            let x = c.pre.asked.len() as int;
            assert(memory::brings(g.to.asked[x], g.to.replies[x], pr.head) is Some);
        } else {
            assert forall|x: int| m <= x < k implies memory::brings(
                #[trigger] g.to.asked[x],
                g.to.replies[x],
                old.head,
            ) is None by {
                lemma_not_brought(g, cx, c, i, pr, x);
            }
        }
    }
}

/// A branch that is not pushed is brought nothing.
proof fn lemma_not_brought(g: Ground, cx: ContextView, c: Course, i: int, pr: PrView, x: int)
    requires
        under_way(g, cx, c),
        0 <= i < cx.stack.layers.len(),
        cx.prs[i] == Some(pr),
        !telling::among_pushes(telling::places(g.start, cx), i),
        g.start.asked.len() <= x < execution::executed(g.start, cx).0.asked.len(),
    ensures
        memory::brings(g.to.asked[x], g.to.replies[x], pr.head) is None,
{
    let p = telling::places(g.start, cx);
    let placed = execution::place_from(
        g.start,
        cx,
        0,
        execution::empty_placement(cx),
    ).0;
    assert(cx.prs[i] is Some);
    assert(execution::has_branch(cx, i));
    telling::lemma_orderly_at(g.start, cx, c, g.to, x);
    telling::lemma_unpushed(placed, cx, p, i);
}

/// Before the push, a pull request is given a base only early.
proof fn lemma_early_only(g: Ground, cx: ContextView, c: Course, i: int, pr: PrView, x: int)
    requires
        under_way(g, cx, c),
        0 <= i < cx.stack.layers.len(),
        cx.prs[i] == Some(pr),
        !telling::places(g.start, cx).retargeted_early[i],
        g.start.asked.len() <= x < c.mid.asked.len(),
    ensures
        !memory::gives_base(g.to.asked[x], g.to.replies[x], pr.number),
{
    let p = telling::places(g.start, cx);
    if x < c.pre.asked.len() {
        lemma_pre(g, cx, c, x);
        if let RequestView::UpdatePullRequest { number, update } = g.to.asked[x] {
            if number == pr.number {
                assert(placing::rebases(
                    cx.prs,
                    p.base_branches,
                    p.retargeted_early,
                    number,
                    update,
                ));
                let j = choose|j: int|
                    0 <= j < cx.prs.len() && #[trigger] placing::is_rebase(
                        cx.prs,
                        p.base_branches,
                        p.retargeted_early,
                        number,
                        update,
                        j,
                    );
                assert(cx.prs[j] is Some && cx.prs[i] is Some);
                assert(j == i);
            }
        }
    } else {
        assert(c.mid != c.pre);
        lemma_push(g, cx, c);
    }
}

/// An early change of a base is told before the push.
proof fn lemma_told_early(g: Ground, cx: ContextView, c: Course, i: int, pr: PrView)
    requires
        under_way(g, cx, c),
        0 <= i < cx.stack.layers.len(),
        cx.prs[i] == Some(pr),
        telling::places(g.start, cx).retargeted_early[i],
    ensures
        exists|x: int|
            g.start.asked.len() <= x < c.mid.asked.len() && x < g.to.replies.len()
                && #[trigger] g.to.asked[x] == telling::rebase(
                pr.number,
                telling::places(g.start, cx).base_branches[i],
            ) && g.to.replies[x] == ReplyView::Done,
{
    let p = telling::places(g.start, cx);
    let end = execution::executed(g.start, cx).0;
    let asks = telling::rebase(pr.number, p.base_branches[i]);
    assert(telling::early_told(g.start, c.pre, cx, p, cx.stack.layers.len() as int));
    let x = choose|x: int|
        g.start.asked.len() <= x < c.pre.asked.len() && x < c.pre.replies.len()
            && #[trigger] c.pre.asked[x] == asks && c.pre.replies[x] == ReplyView::Done;
    assert(c.mid.asked[x] == asks);
    assert(end.asked[x] == asks);
    assert(g.to.asked[x] == asks);
}

/// What layer `i` is to be based on holds nothing of the branch that the base of the stack
/// does not hold, and nobody pushes to the trunk.
pub open spec fn trunk_aside(g: Ground, cx: ContextView, i: int) -> bool {
    let p = telling::places(g.start, cx);
    let trunk = memory::tip_at(g.before, g.to, g.start.asked.len() as int, cx.config.trunk);
    &&& memory::pushed_oid(p.push_specs, cx.config.trunk, 0) is None
    &&& !(cx.stack.layers[i].dep is Layer) ==> {
        &&& (g.world)(RequestView::MergeBase { a: trunk, b: p.tips[i] }) == (g.world)(
            RequestView::MergeBase { a: cx.stack.base, b: p.tips[i] },
        )
        &&& cx.prs[i] matches Some(pr) ==> (g.world)(
            RequestView::MergeBase { a: trunk, b: pr.head_oid },
        ) == (g.world)(RequestView::MergeBase { a: cx.stack.base, b: pr.head_oid })
    }
}

/// Where the pull request of layer `i` starts from.
pub open spec fn base_then(g: Ground, pr: PrView) -> Oid {
    memory::tip_at(g.before, g.to, g.start.asked.len() as int, pr.base)
}

/// Nothing comes between the pull request of layer `i` and its base: the branch that it is
/// based on does not come to hold its own commits, nor lose where it was put; where its
/// base is changed before the push, the new base holds where the branch parts from the old
/// one; and where the branch waits, it is a line of commits that displays its first one.
pub open spec fn undisturbed(g: Ground, cx: ContextView, i: int) -> bool {
    let p = telling::places(g.start, cx);
    let parent = execution::base_of(cx, p, i).0;
    cx.prs[i] matches Some(pr) ==> {
        let start = base_then(g, pr);
        let fork = fork_in(g.world, start, pr.head_oid);
        &&& !threatened(g.world, cx, p, i)
        &&& pr.base.len() > 0 && pr.base != pr.head
        &&& p.retargeted_early[i] ==> (engine::remote_base_tip(cx.stack, cx.prs, i) matches Some(tip)
            ==> {
            &&& (g.world)(RequestView::MergeBase { a: start, b: pr.head_oid }) is Object
            &&& pr.base_oid == oid::zero_oid() || !lineage::reaches(g.world, pr.base_oid, tip)
                ==> lineage::reaches(g.world, fork, tip)
        })
        &&& p.held[i] ==> engine::remote_base_tip(cx.stack, cx.prs, i) is Some && forall|
            root: Option<Oid>,
        | #[trigger]
            placing::judged_with(g, cx, i, root) ==> (root matches Some(root) && exists|
                a: Oid,
                n: nat,
            | #[trigger]
                lineage::line(g.world, a, root, pr.head_oid, n) && lineage::reaches(
                    g.world,
                    fork,
                    a,
                ))
        &&& p.new_roots[i] matches Some(root) ==> !lineage::reaches(g.world, root, parent)
        &&& parking::lingering(cx, p, i) ==> {
            &&& pr.base_oid != oid::zero_oid()
            &&& p.new_roots[i] matches Some(root) ==> !lineage::reaches(
                g.world,
                root,
                match memory::pushed_oid(p.push_specs, pr.base, 0) {
                    Some(commit) => commit,
                    None => start,
                },
            )
            &&& forall|m: int|
                0 <= m < p.tips.len() && #[trigger] telling::among_pushes(p, m) && p.branches[m]
                    == pr.base ==> {
                    &&& m > i ==> forall|root: Oid, a: Oid|
                        p.new_roots[i] == Some(root) && #[trigger] lineage::stems(g.world, root, a)
                            ==> lineage::reaches(g.world, a, p.tips[m])
                    &&& p.tips[i] == pr.head_oid && !(engine::in_scope(cx.opts, m) && cx.prs[m] is Some
                        && p.new_roots[m] is None) ==> lineage::reaches(
                        g.world,
                        fork,
                        fork_in(g.world, p.tips[m], pr.head_oid),
                    )
                }
        }
    }
}

/// The display of a pull request has not widened: it has the head that it started with
/// and parts from its base no earlier, or its own patch is displayed.
pub open spec fn not_widened(
    world: spec_fn(RequestView) -> ReplyView,
    start: Oid,
    old_head: Oid,
    tip: Oid,
    head: Oid,
    dep: Oid,
    content: Oid,
) -> bool {
    ||| head == old_head && lineage::reaches(
        world,
        fork_in(world, start, old_head),
        fork_in(world, tip, head),
    )
    ||| rest::displays(world, tip, head, dep, content)
}

/// A layer that is left alone displays its own patch on what is below it then.
proof fn lemma_left_alone(g: Ground, cx: ContextView, i: int)
    requires
        placing::given(g, cx),
        engine::goes_alone(cx.stack, cx.opts, cx.decision),
        forall|k: int|
            0 <= k < cx.stack.layers.len() ==> #[trigger] parking::posed(
                g,
                cx,
                telling::places(g.start, cx),
                k,
            ),
        0 <= i < cx.stack.layers.len(),
        engine::in_scope(cx.opts, i),
        !cx.decision.push[i],
    ensures
        cx.prs[i] matches Some(pr) && rest::displays(
            g.world,
            execution::base_of(cx, telling::places(g.start, cx), i).0,
            pr.head_oid,
            cx.trees.dep[i],
            cx.trees.effective[i],
        ),
{
    let p = telling::places(g.start, cx);
    let base = execution::base_of(cx, p, i).0;
    assert(placing::judged(g, cx, i));
    assert(engine::warranted(cx.stack, cx.prs, cx.opts, g.checks, cx.decision, i));
    let pr = cx.prs[i]->0;
    let stop = engine::remote_base_tip(cx.stack, cx.prs, i)->0;
    let root = choose|root: Option<Oid>| #[trigger] placing::judged_with(g, cx, i, root);
    assert(placing::judged_with(g, cx, i, root));
    match cx.stack.layers[i].dep {
        Dep::Layer(j) => {
            let j = j as int;
            assert(parking::posed(g, cx, p, j));
            if cx.decision.push[j] {
                assert(engine::in_scope(cx.opts, j)) by {
                    if let Some(x) = cx.opts.only_layer {
                        assert(cx.decision.push[x as int]);
                    }
                }
                assert(!cx.decision.rewrite_history[j]);
                if !p.held[j] {
                    assert(placing::added(g, cx, base, j));
                    assert(placing::aware(g, pr.head_oid));
                    lineage::lemma_grows(g.world, base, stop, pr.head_oid);
                }
            }
        },
        _ => {},
    }
}

/// Where the branches of the layers are after the push.
proof fn lemma_layer_tip(g: Ground, cx: ContextView, c: Course, m: int, k: int)
    requires
        under_way(g, cx, c),
        0 <= m < cx.stack.layers.len(),
        execution::has_branch(cx, m),
        parking::sits(cx, telling::places(g.start, cx), m),
        c.mid.asked.len() <= k <= execution::executed(g.start, cx).0.asked.len(),
    ensures
        memory::tip_at(g.before, g.to, k, telling::places(g.start, cx).branches[m])
            == telling::places(g.start, cx).tips[m],
{
    let p = telling::places(g.start, cx);
    let placed = execution::place_from(
        g.start,
        cx,
        0,
        execution::empty_placement(cx),
    ).0;
    lemma_tip(g, cx, c, p.branches[m], k);
    telling::lemma_brings(placed, cx, p, m);
    if !telling::among_pushes(p, m) {
        telling::lemma_unpushed(placed, cx, p, m);
        assert(cx.prs[m] is Some);
    }
}

/// What layer `i` is to be based on after the push.
proof fn lemma_new_base(g: Ground, cx: ContextView, c: Course, i: int, k: int)
    requires
        under_way(g, cx, c),
        0 <= i < cx.stack.layers.len(),
        forall|m: int|
            0 <= m < cx.stack.layers.len() ==> #[trigger] parking::posed(
                g,
                cx,
                telling::places(g.start, cx),
                m,
            ),
        cx.stack.layers[i].dep matches Dep::Layer(j) ==> execution::has_branch(cx, j as int),
        trunk_aside(g, cx, i),
        c.mid.asked.len() <= k <= execution::executed(g.start, cx).0.asked.len(),
    ensures
        ({
            let p = telling::places(g.start, cx);
            let tip = memory::tip_at(g.before, g.to, k, p.base_branches[i]);
            let parent = execution::base_of(cx, p, i).0;
            &&& (g.world)(RequestView::MergeBase { a: tip, b: p.tips[i] }) == (g.world)(
                RequestView::MergeBase { a: parent, b: p.tips[i] },
            )
            &&& cx.prs[i] matches Some(pr) ==> (g.world)(
                RequestView::MergeBase { a: tip, b: pr.head_oid },
            ) == (g.world)(RequestView::MergeBase { a: parent, b: pr.head_oid })
        }),
{
    let p = telling::places(g.start, cx);
    match cx.stack.layers[i].dep {
        Dep::Layer(j) => {
            assert(parking::posed(g, cx, p, j as int));
            lemma_layer_tip(g, cx, c, j as int, k);
        },
        _ => {
            lemma_tip(g, cx, c, cx.config.trunk, k);
        },
    }
}

/// What holds at every moment of a round, of a pull request that was there.
pub open spec fn ready(g: Ground, cx: ContextView, c: Course, i: int) -> bool {
    &&& under_way(g, cx, c)
    &&& engine::goes_alone(cx.stack, cx.opts, cx.decision)
    &&& 0 <= i < cx.stack.layers.len()
    &&& engine::in_scope(cx.opts, i)
    &&& forall|m: int|
        0 <= m < cx.stack.layers.len() ==> #[trigger] parking::posed(
            g,
            cx,
            telling::places(g.start, cx),
            m,
        )
    &&& explained(g.world, cx, telling::places(g.start, cx), i)
    &&& undisturbed(g, cx, i)
    &&& trunk_aside(g, cx, i)
    &&& cx.decision.push[i] ==> parking::unhindered(g.world, g.to, cx, i)
}

/// What layer `i` depends on has a branch.
pub proof fn lemma_dep_has_branch(g: Ground, cx: ContextView, i: int)
    requires
        placing::given(g, cx),
        0 <= i < cx.stack.layers.len(),
        engine::in_scope(cx.opts, i),
    ensures
        execution::has_branch(cx, i),
        cx.stack.layers[i].dep matches Dep::Layer(j) ==> execution::has_branch(cx, j as int),
{
    assert(engine::warranted(cx.stack, cx.prs, cx.opts, g.checks, cx.decision, i));
    assert(placing::judged(g, cx, i));
}

/// Before the push.
proof fn lemma_early_moment(g: Ground, cx: ContextView, c: Course, i: int, pr: PrView, k: int)
    requires
        ready(g, cx, c, i),
        cx.prs[i] == Some(pr),
        g.start.asked.len() <= k <= c.pre.asked.len(),
    ensures
        ({
            let now = memory::pr_at(g.before, g.to, k, pr.number);
            let tip = memory::tip_at(g.before, g.to, k, now.base);
            &&& now.head_oid == pr.head_oid
            &&& lineage::reaches(
                g.world,
                fork_in(g.world, base_then(g, pr), pr.head_oid),
                fork_in(g.world, tip, pr.head_oid),
            )
        }),
{
    let p = telling::places(g.start, cx);
    let now = memory::pr_at(g.before, g.to, k, pr.number);
    let tip = memory::tip_at(g.before, g.to, k, now.base);
    let start = base_then(g, pr);
    let fork = fork_in(g.world, start, pr.head_oid);
    lemma_dep_has_branch(g, cx, i);
    lemma_pr_then(g, cx, c, i, pr, k);
    lemma_tip(g, cx, c, now.base, k);
    assert(cx.prs[i] is Some);
    if now.base == pr.base {
        lineage::lemma_self(g.world, fork);
    } else {
        assert(p.retargeted_early[i]);
        let target = engine::remote_base_tip(cx.stack, cx.prs, i)->0;
        lineage::lemma_agree(g.world, target, pr.head_oid);
        lineage::lemma_agree(g.world, pr.head_oid, pr.head_oid);
        assert(placing::judged(g, cx, i));
        let root = choose|root: Option<Oid>| #[trigger] placing::judged_with(g, cx, i, root);
        assert(placing::judged_with(g, cx, i, root));
        assert(fork_in(g.world, tip, pr.head_oid) == target) by {
            match cx.stack.layers[i].dep {
                Dep::Layer(j) => {
                    assert(cx.prs[j as int] is Some);
                    assert(parking::posed(g, cx, p, j as int));
                },
                _ => {},
            }
        }
        if pr.base_oid != oid::zero_oid() && lineage::reaches(g.world, pr.base_oid, target) {
            lineage::lemma_agree(g.world, start, pr.head_oid);
            lineage::lemma_trans(g.world, fork, start, target);
        }
    }
}

/// After the push, with the base that it is to have.
#[verifier::rlimit(30)]
proof fn lemma_settled_moment(g: Ground, cx: ContextView, c: Course, i: int, pr: PrView, k: int)
    requires
        ready(g, cx, c, i),
        cx.prs[i] == Some(pr),
        c.mid.asked.len() <= k <= execution::executed(g.start, cx).0.asked.len(),
        memory::pr_at(g.before, g.to, k, pr.number).base == telling::places(
            g.start,
            cx,
        ).base_branches[i],
    ensures
        ({
            let now = memory::pr_at(g.before, g.to, k, pr.number);
            let tip = memory::tip_at(g.before, g.to, k, now.base);
            &&& now.head_oid == telling::places(g.start, cx).tips[i]
            &&& not_widened(
                g.world,
                base_then(g, pr),
                pr.head_oid,
                tip,
                now.head_oid,
                cx.trees.dep[i],
                cx.trees.effective[i],
            )
        }),
{
    let p = telling::places(g.start, cx);
    let now = memory::pr_at(g.before, g.to, k, pr.number);
    let tip = memory::tip_at(g.before, g.to, k, now.base);
    let parent = execution::base_of(cx, p, i).0;
    let dep = cx.trees.dep[i];
    let content = cx.trees.effective[i];
    lemma_dep_has_branch(g, cx, i);
    lemma_pr_then(g, cx, c, i, pr, k);
    assert(parking::posed(g, cx, p, i));
    lemma_new_base(g, cx, c, i, k);
    assert(now.head_oid == p.tips[i]);
    if !cx.decision.push[i] {
        lemma_left_alone(g, cx, i);
        assert(rest::displays(g.world, tip, pr.head_oid, dep, content));
    } else if p.held[i] {
        lemma_waiting_moment(g, cx, c, i, pr, tip);
    } else if p.new_roots[i] is Some {
        let root = p.new_roots[i]->0;
        let a = choose|a: Oid| #[trigger] parking::stood(g, cx, p, i, a, root);
        let n = choose|n: nat| #[trigger] lineage::line(g.world, a, root, p.tips[i], n);
        lineage::lemma_fork(g.world, a, root, p.tips[i], n, parent);
        parking::lemma_put_on(g.world, g.to, tip, a, p.tips[i], dep, content);
    } else {
        assert(rest::displays(g.world, parent, p.tips[i], dep, content));
        assert(rest::displays(g.world, tip, p.tips[i], dep, content));
    }
}

/// A branch that waits.
proof fn lemma_waiting_moment(g: Ground, cx: ContextView, c: Course, i: int, pr: PrView, tip: Oid)
    requires
        ready(g, cx, c, i),
        cx.prs[i] == Some(pr),
        cx.decision.push[i],
        telling::places(g.start, cx).held[i],
        (g.world)(RequestView::MergeBase { a: tip, b: pr.head_oid }) == (g.world)(
            RequestView::MergeBase {
                a: execution::base_of(cx, telling::places(g.start, cx), i).0,
                b: pr.head_oid,
            },
        ),
    ensures
        not_widened(
            g.world,
            base_then(g, pr),
            pr.head_oid,
            tip,
            pr.head_oid,
            cx.trees.dep[i],
            cx.trees.effective[i],
        ),
{
    let p = telling::places(g.start, cx);
    let parent = execution::base_of(cx, p, i).0;
    let fork = fork_in(g.world, base_then(g, pr), pr.head_oid);
    assert(parking::posed(g, cx, p, i));
    assert(placing::judged(g, cx, i));
    let o = choose|o: Oid| #[trigger] parking::waiting(g, cx, p, i, o);
    let found = choose|root: Option<Oid>| #[trigger] placing::judged_with(g, cx, i, root);
    assert(placing::judged_with(g, cx, i, found));
    let root = found->0;
    let (a, n) = choose|a: Oid, n: nat| #[trigger]
        lineage::line(g.world, a, root, pr.head_oid, n) && lineage::reaches(g.world, fork, a);
    lineage::lemma_bottom(g.world, a, root, pr.head_oid, n);
    assert(o == a);
    lineage::lemma_agree(g.world, pr.head_oid, pr.head_oid);
    if !lineage::reaches(g.world, root, parent) {
        lineage::lemma_fork(g.world, a, root, pr.head_oid, n, parent);
        parking::lemma_put_on(
            g.world,
            g.to,
            tip,
            a,
            pr.head_oid,
            cx.trees.dep[i],
            cx.trees.effective[i],
        );
    } else {
        lineage::lemma_fork_above(g.world, a, root, pr.head_oid, n, parent);
        lineage::lemma_trans(g.world, fork, a, fork_in(g.world, parent, pr.head_oid));
    }
}

/// After the push, with the base that it had.
#[verifier::rlimit(60)]
proof fn lemma_lingering_moment(g: Ground, cx: ContextView, c: Course, i: int, pr: PrView, k: int)
    requires
        ready(g, cx, c, i),
        cx.prs[i] == Some(pr),
        c.mid.asked.len() <= k <= execution::executed(g.start, cx).0.asked.len(),
        memory::pr_at(g.before, g.to, k, pr.number).base == pr.base,
        pr.base != telling::places(g.start, cx).base_branches[i],
    ensures
        ({
            let now = memory::pr_at(g.before, g.to, k, pr.number);
            let tip = memory::tip_at(g.before, g.to, k, now.base);
            not_widened(
                g.world,
                base_then(g, pr),
                pr.head_oid,
                tip,
                now.head_oid,
                cx.trees.dep[i],
                cx.trees.effective[i],
            )
        }),
{
    let p = telling::places(g.start, cx);
    let now = memory::pr_at(g.before, g.to, k, pr.number);
    let tip = memory::tip_at(g.before, g.to, k, pr.base);
    let start = base_then(g, pr);
    let fork = fork_in(g.world, start, pr.head_oid);
    let dep = cx.trees.dep[i];
    let content = cx.trees.effective[i];
    lemma_dep_has_branch(g, cx, i);
    lemma_pr_then(g, cx, c, i, pr, k);
    assert(parking::lingering(cx, p, i));
    lemma_tip(g, cx, c, pr.base, k);
    assert(parking::posed(g, cx, p, i));
    assert(cx.prs[i] is Some);
    lineage::lemma_self(g.world, fork);
    let specs = p.push_specs;
    match memory::pushed_oid(specs, pr.base, 0) {
        None => {
            assert(tip == start);
            if p.tips[i] != pr.head_oid || p.new_roots[i] is Some {
                lemma_stood_moment(g, cx, i, pr, tip);
            }
        },
        Some(commit) => {
            let m = lemma_whose(g, cx, c, pr.base);
            assert(parking::posed(g, cx, p, m));
            lemma_layer_tip(g, cx, c, m, k);
            assert(tip == p.tips[m]);
            if p.new_roots[i] is Some {
                lemma_stood_moment(g, cx, i, pr, tip);
            } else {
                assert(p.tips[i] == pr.head_oid);
                if engine::in_scope(cx.opts, m) && cx.prs[m] is Some && p.new_roots[m] is None {
                    let below = cx.prs[m]->0;
                    assert(start == below.head_oid);
                    if p.held[m] {
                    } else {
                        assert(placing::added(g, cx, p.tips[m], m));
                        assert(placing::judged(g, cx, i));
                        assert(placing::aware(g, pr.head_oid));
                        lineage::lemma_grows(g.world, p.tips[m], start, pr.head_oid);
                    }
                }
            }
        },
    }
}

/// Whose branch is pushed.
proof fn lemma_whose(g: Ground, cx: ContextView, c: Course, branch: Seq<char>) -> (m: int)
    requires
        under_way(g, cx, c),
        memory::pushed_oid(telling::places(g.start, cx).push_specs, branch, 0) is Some,
    ensures
        0 <= m < cx.stack.layers.len(),
        cx.decision.push[m],
        execution::has_branch(cx, m),
        telling::places(g.start, cx).branches[m] == branch,
        telling::among_pushes(telling::places(g.start, cx), m),
{
    let p = telling::places(g.start, cx);
    let n = cx.stack.layers.len() as int;
    let placed = execution::place_from(
        g.start,
        cx,
        0,
        execution::empty_placement(cx),
    ).0;
    let x = lemma_spec_of(p.push_specs, branch, 0);
    assert(execution::pushes_some(placed, cx, p, n, p.push_specs[x]));
    let m = choose|m: int|
        0 <= m < n && #[trigger] execution::pushes_layer(placed, cx, p, m, p.push_specs[x]);
    assert(placing::pushes(p.push_specs[x], p.branches[m], p.tips[m]));
    m
}

proof fn lemma_spec_of(
    specs: Seq<crate::forge::PushView>,
    branch: Seq<char>,
    m: int,
) -> (x: int)
    requires
        0 <= m,
        memory::pushed_oid(specs, branch, m) is Some,
    ensures
        0 <= x < specs.len(),
        specs[x].branch == branch,
    decreases specs.len() - m,
{
    if specs[m].branch == branch && specs[m].oid is Some {
        m
    } else {
        lemma_spec_of(specs, branch, m + 1)
    }
}

/// A branch that was written anew, under the base that it had.
#[verifier::rlimit(30)]
proof fn lemma_stood_moment(g: Ground, cx: ContextView, i: int, pr: PrView, tip: Oid)
    requires
        placing::given(g, cx),
        0 <= i < cx.stack.layers.len(),
        engine::in_scope(cx.opts, i),
        cx.prs[i] == Some(pr),
        telling::found(g.before, g.to, g.start, cx),
        forall|m: int|
            0 <= m < cx.stack.layers.len() ==> #[trigger] parking::posed(
                g,
                cx,
                telling::places(g.start, cx),
                m,
            ),
        undisturbed(g, cx, i),
        parking::lingering(cx, telling::places(g.start, cx), i),
        cx.decision.push[i] ==> parking::unhindered(g.world, g.to, cx, i),
        telling::places(g.start, cx).new_roots[i] is Some || telling::places(g.start, cx).tips[i]
            != pr.head_oid,
        execution::well_placed(
            execution::place_from(g.start, cx, 0, execution::empty_placement(cx)).0,
            cx,
            telling::places(g.start, cx),
            cx.stack.layers.len() as int,
        ),
        execution::distinct_heads(cx.prs),
        match memory::pushed_oid(telling::places(g.start, cx).push_specs, pr.base, 0) {
            None => tip == base_then(g, pr),
            Some(_) => exists|m: int|
                0 <= m < cx.stack.layers.len() && execution::has_branch(cx, m)
                    && #[trigger] telling::among_pushes(telling::places(g.start, cx), m)
                    && telling::places(g.start, cx).branches[m] == pr.base && tip
                    == telling::places(g.start, cx).tips[m] && memory::pushed_oid(
                    telling::places(g.start, cx).push_specs,
                    pr.base,
                    0,
                ) == Some(tip),
        },
    ensures
        rest::displays(
            g.world,
            tip,
            telling::places(g.start, cx).tips[i],
            cx.trees.dep[i],
            cx.trees.effective[i],
        ),
{
    let p = telling::places(g.start, cx);
    let dep = cx.trees.dep[i];
    let content = cx.trees.effective[i];
    assert(cx.prs[i] is Some);
    assert(parking::posed(g, cx, p, i));
    assert(cx.decision.push[i] && !p.held[i]);
    let root = p.new_roots[i]->0;
    let a = choose|a: Oid| #[trigger] parking::stood(g, cx, p, i, a, root);
    let n = choose|n: nat| #[trigger] lineage::line(g.world, a, root, p.tips[i], n);
    lineage::lemma_bottom(g.world, a, root, p.tips[i], n);
    assert(lineage::reaches(g.world, a, tip)) by {
        if memory::pushed_oid(p.push_specs, pr.base, 0) is Some {
            let m = choose|m: int|
                0 <= m < cx.stack.layers.len() && execution::has_branch(cx, m)
                    && #[trigger] telling::among_pushes(p, m) && p.branches[m] == pr.base && tip
                    == p.tips[m] && memory::pushed_oid(p.push_specs, pr.base, 0) == Some(tip);
            if m < i {
                assert forall|x: int|
                    0 <= x < cx.stack.layers.len() && !execution::has_branch(cx, x) implies
                    #[trigger] p.branches[x] != pr.base by {
                    assert(parking::posed(g, cx, p, x));
                }
                lemma_first(g, cx, pr.base, m, i, a);
            } else if m == i {
                assert(p.branches[i] == pr.head);
            }
        }
    }
    lineage::lemma_fork(g.world, a, root, p.tips[i], n, tip);
    parking::lemma_put_on(g.world, g.to, tip, a, p.tips[i], dep, content);
}

/// The branch of an earlier layer holds where a later one was put.
proof fn lemma_first(g: Ground, cx: ContextView, branch: Seq<char>, m: int, i: int, a: Oid)
    requires
        execution::coherent(cx),
        0 <= m < i < cx.stack.layers.len(),
        telling::places(g.start, cx).branches[m] == branch,
        execution::has_branch(cx, m),
        execution::distinct_heads(cx.prs),
        execution::well_placed(
            execution::place_from(g.start, cx, 0, execution::empty_placement(cx)).0,
            cx,
            telling::places(g.start, cx),
            cx.stack.layers.len() as int,
        ),
        forall|x: int|
            0 <= x < i && #[trigger] parking::is_first(telling::places(g.start, cx).branches, branch, x)
                ==> lineage::reaches(g.world, a, telling::places(g.start, cx).tips[x]),
        forall|x: int|
            0 <= x < cx.stack.layers.len() && !execution::has_branch(cx, x)
                ==> #[trigger] telling::places(g.start, cx).branches[x] != branch,
    ensures
        lineage::reaches(g.world, a, telling::places(g.start, cx).tips[m]),
{
    let p = telling::places(g.start, cx);
    assert(parking::is_first(p.branches, branch, m)) by {
        assert forall|x: int| 0 <= x < m implies #[trigger] p.branches[x] != branch by {
            if execution::has_branch(cx, x) {
                assert(p.branches[x] != p.branches[m]);
            }
        }
    }
}

/// A pull request was opened by the first `k` requests.
pub open spec fn opened_by(t: TapeView, k: int, number: u64) -> bool {
    exists|x: int|
        0 <= x < k && #[trigger] t.asked[x] is CreatePullRequest && t.replies[x]
            == ReplyView::Number(number)
}

/// What holds of a pull request from when it is opened.
#[verifier::rlimit(30)]
pub proof fn lemma_new_moment(g: Ground, cx: ContextView, c: Course, i: int, k: int)
    requires
        ready(g, cx, c, i),
        cx.prs[i] is None,
        g.start.asked.len() <= k <= execution::executed(g.start, cx).0.asked.len(),
        opened_by(
            g.to,
            k,
            telling::number_of(cx, (execution::executed(g.start, cx).1->Ok_0).stack, i),
        ),
    ensures
        ({
            let after = (execution::executed(g.start, cx).1->Ok_0).stack;
            let now = memory::pr_at(g.before, g.to, k, telling::number_of(cx, after, i));
            rest::displays(
                g.world,
                memory::tip_at(g.before, g.to, k, now.base),
                now.head_oid,
                cx.trees.dep[i],
                cx.trees.effective[i],
            )
        }),
{
    let p = telling::places(g.start, cx);
    let end = execution::executed(g.start, cx).0;
    let after = (execution::executed(g.start, cx).1->Ok_0).stack;
    let number = telling::number_of(cx, after, i);
    let m = g.start.asked.len() as int;
    let placed = execution::place_from(
        g.start,
        cx,
        0,
        execution::empty_placement(cx),
    ).0;
    lemma_dep_has_branch(g, cx, i);
    assert(cx.decision.push[i]);
    assert(parking::posed(g, cx, p, i));
    assert(telling::among_pushes(p, i)) by {
        assert(!p.held[i]);
    }
    assert(telling::announced(c.mid, end, cx, p, c.warn, after, i));
    let new = telling::opening(cx, p, c.warn, i);
    let asks = RequestView::CreatePullRequest { pr: new };
    let at = choose|x: int|
        c.mid.asked.len() <= x < end.asked.len() && x < end.replies.len()
            && #[trigger] end.asked[x] == asks && end.replies[x] == ReplyView::Number(number);
    assert(g.to.asked[at] == asks);
    let x = choose|x: int|
        0 <= x < k && #[trigger] g.to.asked[x] is CreatePullRequest && g.to.replies[x]
            == ReplyView::Number(number);
    assert(memory::recalls(g.before, g.world, g.to, at, g.to.asked[at], g.to.replies[at]));
    assert(memory::recalls(g.before, g.world, g.to, x, g.to.asked[x], g.to.replies[x]));
    assert(memory::names(g.to.asked[at], g.to.replies[at], number));
    assert(memory::names(g.to.asked[x], g.to.replies[x], number));
    assert(x == at) by {
        if x < at {
            assert(memory::named(g.to, at, number));
        } else if at < x {
            assert(memory::named(g.to, x, number));
        }
    }
    lemma_was_pushed(g, cx, c);
    lemma_push(g, cx, c);
    telling::lemma_brings(placed, cx, p, i);
    let push = c.pre.asked.len() as int;
    assert forall|y: int| m <= y < k implies (memory::brings(
        #[trigger] g.to.asked[y],
        g.to.replies[y],
        new.head,
    ) matches Some(commit) ==> commit == p.tips[i]) by {
        telling::lemma_orderly_at(g.start, cx, c, g.to, y);
    }
    assert forall|y: int| at < y < k implies !memory::touches(
        #[trigger] g.to.asked[y],
        g.to.replies[y],
        number,
    ) by {
        telling::lemma_untouched_at(g.before, g.world, g.start, cx, c, g.to, number, at, y);
    }
    memory::lemma_opened(g.before, g.to, m, push, at, k, number, new, p.tips[i]);
    lemma_new_base(g, cx, c, i, k);
    let parent = execution::base_of(cx, p, i).0;
    assert(rest::displays(
        g.world,
        parent,
        p.tips[i],
        cx.trees.dep[i],
        cx.trees.effective[i],
    ));
}

/// What holds at every moment of a round of a pull request that was there.
pub proof fn lemma_moment(g: Ground, cx: ContextView, c: Course, i: int, pr: PrView, k: int)
    requires
        ready(g, cx, c, i),
        cx.prs[i] == Some(pr),
        g.start.asked.len() <= k <= execution::executed(g.start, cx).0.asked.len(),
    ensures
        ({
            let now = memory::pr_at(g.before, g.to, k, pr.number);
            not_widened(
                g.world,
                base_then(g, pr),
                pr.head_oid,
                memory::tip_at(g.before, g.to, k, now.base),
                now.head_oid,
                cx.trees.dep[i],
                cx.trees.effective[i],
            )
        }),
{
    let p = telling::places(g.start, cx);
    let now = memory::pr_at(g.before, g.to, k, pr.number);
    lemma_pr_then(g, cx, c, i, pr, k);
    assert(c.mid.asked.len() <= c.pre.asked.len() + 1);
    if k <= c.pre.asked.len() {
        lemma_early_moment(g, cx, c, i, pr, k);
    } else if now.base == p.base_branches[i] {
        lemma_settled_moment(g, cx, c, i, pr, k);
    } else {
        lemma_lingering_moment(g, cx, c, i, pr, k);
    }
}

/// What holds at every moment of a round in which the pull request keeps its base and
/// does not wait.
pub proof fn lemma_based_moment(g: Ground, cx: ContextView, c: Course, i: int, pr: PrView, k: int)
    requires
        ready(g, cx, c, i),
        cx.prs[i] == Some(pr),
        pr.base == telling::places(g.start, cx).base_branches[i],
        !telling::places(g.start, cx).held[i],
        g.start.asked.len() <= k <= execution::executed(g.start, cx).0.asked.len(),
    ensures
        ({
            let now = memory::pr_at(g.before, g.to, k, pr.number);
            let tip = memory::tip_at(g.before, g.to, k, now.base);
            ||| now.head_oid == pr.head_oid && tip == base_then(g, pr)
            ||| rest::displays(
                g.world,
                tip,
                now.head_oid,
                cx.trees.dep[i],
                cx.trees.effective[i],
            )
        }),
{
    let p = telling::places(g.start, cx);
    let now = memory::pr_at(g.before, g.to, k, pr.number);
    let tip = memory::tip_at(g.before, g.to, k, now.base);
    lemma_pr_then(g, cx, c, i, pr, k);
    lemma_tip(g, cx, c, now.base, k);
    assert(c.mid.asked.len() <= c.pre.asked.len() + 1);
    if k > c.pre.asked.len() {
        let parent = execution::base_of(cx, p, i).0;
        let dep = cx.trees.dep[i];
        let content = cx.trees.effective[i];
        lemma_dep_has_branch(g, cx, i);
        assert(parking::posed(g, cx, p, i));
        lemma_new_base(g, cx, c, i, k);
        assert(now.head_oid == p.tips[i]);
        if !cx.decision.push[i] {
            lemma_left_alone(g, cx, i);
            assert(rest::displays(g.world, tip, pr.head_oid, dep, content));
        } else if p.new_roots[i] is Some {
            let root = p.new_roots[i]->0;
            let a = choose|a: Oid| #[trigger] parking::stood(g, cx, p, i, a, root);
            let n = choose|n: nat| #[trigger] lineage::line(g.world, a, root, p.tips[i], n);
            lineage::lemma_fork(g.world, a, root, p.tips[i], n, parent);
            parking::lemma_put_on(g.world, g.to, tip, a, p.tips[i], dep, content);
        } else {
            assert(rest::displays(g.world, parent, p.tips[i], dep, content));
            assert(rest::displays(g.world, tip, p.tips[i], dep, content));
        }
    }
}

/// What is asked of the layers of a round that are synced.
pub open spec fn smooth(g: Ground, cx: ContextView) -> bool {
    forall|m: int|
        0 <= m < cx.stack.layers.len() && engine::in_scope(cx.opts, m) ==> {
            &&& #[trigger] undisturbed(g, cx, m)
            &&& trunk_aside(g, cx, m)
            &&& cx.decision.push[m] ==> parking::unhindered(g.world, g.to, cx, m)
        }
}

/// What is known at every moment of a round.
pub proof fn lemma_ready(g: Ground, cx: ContextView, c: Course, i: int)
    requires
        under_way(g, cx, c),
        engine::goes_alone(cx.stack, cx.opts, cx.decision),
        smooth(g, cx),
        0 <= i < cx.stack.layers.len(),
        engine::in_scope(cx.opts, i),
    ensures
        ready(g, cx, c, i),
{
    let any = |r: RequestView| true;
    let p = telling::places(g.start, cx);
    let empty = execution::empty_placement(cx);
    let end = execution::executed(g.start, cx).0;
    let placed = execution::place_from(g.start, cx, 0, empty).0;
    let calm = |r: RequestView| placing::calm(cx.prs, p.base_branches, p.retargeted_early, r);
    tape::lemma_only_start(g.start, calm);
    tape::lemma_only_start(g.start, any);
    tape::lemma_only_trans(placed, end, g.to, any);
    assert forall|k: int|
        0 <= k < cx.stack.layers.len() && engine::in_scope(cx.opts, k)
            && #[trigger] cx.decision.push[k] implies parking::unhindered(g.world, g.to, cx, k) && (
    cx.prs[k] is Some && p.held[k] ==> engine::remote_base_tip(cx.stack, cx.prs, k) is Some) by {
        assert(undisturbed(g, cx, k));
    }
    parking::lemma_poses(g.start, cx, 0, empty, p, g);
    lemma_explained(g.start, cx, 0, empty, p, g);
    assert(undisturbed(g, cx, i));
}

} // verus!
