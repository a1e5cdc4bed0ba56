//! What a run leaves behind is at rest.

use vstd::prelude::*;

use crate::afterwards;
use crate::engine;
use crate::execution;
use crate::execution::ContextView;
use crate::findings;
use crate::forge::{Mergeable, PrView};
use crate::history;
use crate::lineage;
use crate::memory;
use crate::oid::Oid;
use crate::placing;
use crate::placing::Ground;
use crate::pr_body;
use crate::refs;
use crate::rest;
use crate::stack::{Dep, StackView};
use crate::tape;
use crate::tape::{HaltView, ReplyView, RequestView, TapeView};
use crate::telling;
use crate::telling::Course;

verus! {

/// Writing a description twice is writing it once.
pub open spec fn written_once(description: Seq<char>, warn: bool) -> bool {
    let written = pr_body::with_warning(description, warn);
    pr_body::with_warning(written, warn) == written
}

/// What the reference to the first commit of the branch of layer `i` is in the end.
pub proof fn lemma_ref_after(
    g: Ground,
    cx: ContextView,
    c: Course,
    i: int,
)
    requires
        telling::ran(g.start, cx, c),
        execution::coherent(cx),
        memory::remembers(g.before, g.world, g.to),
        g.to == execution::executed(g.start, cx).0,
        telling::answered(g.to),
        0 <= i < cx.prs.len(),
        execution::has_branch(cx, i),
        forall|k: int|
            0 <= k < cx.prs.len() && k != i ==> #[trigger] telling::number_of(
                cx,
                (execution::executed(g.start, cx).1->Ok_0).stack,
                k,
            ) != telling::number_of(cx, (execution::executed(g.start, cx).1->Ok_0).stack, i),
    ensures
        ({
            let after = (execution::executed(g.start, cx).1->Ok_0).stack;
            let number = telling::number_of(cx, after, i);
            let p = telling::places(g.start, cx);
            (g.world)(RequestView::ReferenceTarget { name: refs::root_ref(number) })
                == ReplyView::MaybeObject(
                match p.new_roots[i] {
                    Some(root) => if cx.prs[i] is Some || root == p.tips[i] {
                        Some(root)
                    } else {
                        memory::ref_at(
                            g.before,
                            g.to,
                            g.to.asked.len() as int,
                            refs::root_ref(number),
                        )
                    },
                    None => placing::recorded(g, number),
                },
            )
        }),
{
    let after = (execution::executed(g.start, cx).1->Ok_0).stack;
    let number = telling::number_of(cx, after, i);
    let name = refs::root_ref(number);
    let p = telling::places(g.start, cx);
    let m = g.start.asked.len() as int;
    let n = g.to.asked.len() as int;
    let any = |q: RequestView| true;
    tape::lemma_only_start(g.to, any);
    assert((g.world)(RequestView::ReferenceTarget { name }) == ReplyView::MaybeObject(
        memory::ref_at(g.before, g.to, n, name),
    ));
    assert forall|x: int|
        m <= x < n && (#[trigger] g.to.asked[x] matches RequestView::SetReference { name: set, .. }
            && set == name) implies p.new_roots[i] == Some(g.to.asked[x]->SetReference_oid) by {
        telling::lemma_orderly_at(g.start, cx, c, g.to, x);
        let oid = g.to.asked[x]->SetReference_oid;
        assert(telling::notes(cx, p, after, name, oid));
        let k = choose|k: int|
            0 <= k < cx.prs.len() && #[trigger] telling::is_note(cx, p, after, name, oid, k);
        refs::law_references_differ(telling::number_of(cx, after, k), number);
        assert(k == i);
    }
    assert(telling::announced(c.mid, g.to, cx, p, c.warn, after, i));
    match p.new_roots[i] {
        Some(root) => {
            if cx.prs[i] is Some || root == p.tips[i] {
                let asks = telling::noting(number, root);
                let x = choose|x: int|
                    c.mid.asked.len() <= x < g.to.asked.len() && x < g.to.replies.len()
                        && #[trigger] g.to.asked[x] == asks && g.to.replies[x] == ReplyView::Done;
                memory::lemma_ref_set(g.before, g.to, m, x, n, name, root);
            }
        },
        None => {
            memory::lemma_ref_stays(g.before, g.to, m, n, name);
        },
    }
}

/// A tape that hears a world hears it of commits and trees.
proof fn lemma_hears_steady(
    t: TapeView,
    to: TapeView,
    world: spec_fn(RequestView) -> ReplyView,
)
    requires
        rest::hears(t, to, world),
    ensures
        rest::hears_steady(t, to, world),
{
}

/// Who asks for the first commit of a branch in the world starts from its reference.
proof fn lemma_rooted_in(
    world: spec_fn(RequestView) -> ReplyView,
    u: TapeView,
    pr: PrView,
    stop: Oid,
    recorded: Option<Oid>,
)
    requires
        rest::hears(u, history::root_commit(u, pr, stop).0, world),
        history::root_commit(u, pr, stop).1 is Ok,
        world(RequestView::ReferenceTarget { name: refs::root_ref(pr.number) })
            == ReplyView::MaybeObject(recorded),
    ensures
        placing::rooted_from(world, recorded, u, pr, stop),
{
    let any = |q: RequestView| true;
    let end = history::root_commit(u, pr, stop).0;
    let q0 = RequestView::ReferenceTarget { name: refs::root_ref(pr.number) };
    lemma_hears_steady(u, end, world);
    rest::lemma_root_goes_on(u, pr, stop);
    rest::lemma_reply(u, u, q0, end, world);
}

/// A recorded first commit that the branch holds is found.
proof fn lemma_recorded_root(
    world: spec_fn(RequestView) -> ReplyView,
    u: TapeView,
    pr: PrView,
    stop: Oid,
    root: Oid,
)
    requires
        placing::rooted_from(world, Some(root), u, pr, stop),
        lineage::reaches(world, root, pr.head_oid),
    ensures
        history::root_commit(u, pr, stop).1 == Ok::<Option<Oid>, HaltView>(Some(root)),
{
    let any = |q: RequestView| true;
    assert(tape::may_look(any));
    let end = history::root_commit(u, pr, stop).0;
    let q0 = RequestView::ReferenceTarget { name: refs::root_ref(pr.number) };
    let u0 = tape::ask(u, q0).0;
    let q1 = RequestView::MayBeAncestor { ancestor: root, descendant: pr.head_oid };
    let (u1, held) = tape::ask_flag(u0, q1);
    tape::lemma_only_start(u1, any);
    tape::lemma_only_start(end, any);
    assert(tape::only(u1, end, any)) by {
        broadcast use history::group_history_only;
    }
    rest::lemma_steady_reply(u, u0, q1, end, world);
}

/// A branch that got one more commit has the first commit that it had.
proof fn lemma_root_after_append(
    world: spec_fn(RequestView) -> ReplyView,
    recorded: Option<Oid>,
    t: TapeView,
    pr: PrView,
    stop: Oid,
    u: TapeView,
    pr2: PrView,
)
    requires
        lineage::has_history(world),
        placing::rooted_from(world, recorded, t, pr, stop),
        placing::rooted_from(world, recorded, u, pr2, stop),
        pr2.number == pr.number,
        lineage::stems(world, pr2.head_oid, pr.head_oid),
        !lineage::reaches(world, pr2.head_oid, stop),
        recorded matches Some(x) ==> !lineage::reaches(world, pr2.head_oid, x),
        history::root_commit(t, pr, stop).1 matches Ok(Some(_)),
    ensures
        history::root_commit(u, pr2, stop).1 == history::root_commit(t, pr, stop).1,
{
    let any = |q: RequestView| true;
    assert(tape::may_look(any));
    let head = pr.head_oid;
    let tip = pr2.head_oid;
    let q0 = RequestView::ReferenceTarget { name: refs::root_ref(pr.number) };
    let end = history::root_commit(t, pr, stop).0;
    let end2 = history::root_commit(u, pr2, stop).0;
    let t0 = tape::ask(t, q0).0;
    let u0 = tape::ask(u, q0).0;
    tape::lemma_only_start(end, any);
    tape::lemma_only_start(end2, any);
    lineage::lemma_self(world, tip);
    match recorded {
        Some(root) => {
            lineage::lemma_grows(world, tip, head, root);
            let q1 = RequestView::MayBeAncestor { ancestor: root, descendant: head };
            let q2 = RequestView::MayBeAncestor { ancestor: root, descendant: tip };
            let (t1, held) = tape::ask_flag(t0, q1);
            let (u1, held2) = tape::ask_flag(u0, q2);
            tape::lemma_only_start(t1, any);
            tape::lemma_only_start(u1, any);
            assert(tape::only(t1, end, any) && tape::only(u1, end2, any)) by {
                broadcast use history::group_history_only;
            }
            rest::lemma_steady_reply(t, t0, q1, end, world);
            rest::lemma_steady_reply(u, u0, q2, end2, world);
            assert(held->Ok_0 == held2->Ok_0);
            if !held->Ok_0 {
                lemma_walk_after_append(world, t, t1, end, head, stop, u, u1, end2, tip);
            }
        },
        None => {
            lemma_walk_after_append(world, t, t0, end, head, stop, u, u0, end2, tip);
        },
    }
}

proof fn lemma_walk_after_append(
    world: spec_fn(RequestView) -> ReplyView,
    from: TapeView,
    t: TapeView,
    to: TapeView,
    head: Oid,
    stop: Oid,
    from2: TapeView,
    u: TapeView,
    to2: TapeView,
    tip: Oid,
)
    requires
        lineage::has_history(world),
        from.asked.len() <= t.asked.len(),
        from2.asked.len() <= u.asked.len(),
        rest::hears_steady(from, to, world),
        rest::hears_steady(from2, to2, world),
        lineage::stems(world, tip, head),
        !lineage::reaches(world, tip, stop),
        tape::only(
            history::first_revision_down(t, head, stop, None).0,
            to,
            |q: RequestView| true,
        ),
        tape::only(
            history::first_revision_down(u, tip, stop, None).0,
            to2,
            |q: RequestView| true,
        ),
        history::first_revision_down(t, head, stop, None).1 matches Ok(Some(_)),
        history::first_revision_down(u, tip, stop, None).1 is Ok,
    ensures
        history::first_revision_down(u, tip, stop, None).1 == history::first_revision_down(
            t,
            head,
            stop,
            None,
        ).1,
{
    let any = |q: RequestView| true;
    let end = history::first_revision_down(t, head, stop, None).0;
    let end2 = history::first_revision_down(u, tip, stop, None).0;
    // The old head has not joined the commit below.
    let q = RequestView::TryIsAncestor { ancestor: head, descendant: stop };
    let (t1, joined) = tape::ask(t, q);
    lineage::lemma_walk_goes_on(t, head, stop, None);
    tape::lemma_only_trans(t1, end, to, any);
    rest::lemma_steady_reply(from, t, q, to, world);
    lineage::lemma_agree(world, head, stop);
    lineage::lemma_grows(world, tip, head, stop);
    assert(joined == Ok::<ReplyView, HaltView>(ReplyView::Flag(false)));
    // Nor has the new one, and it leads to the old one.
    let q2 = RequestView::TryIsAncestor { ancestor: tip, descendant: stop };
    let (u1, joined2) = tape::ask(u, q2);
    lineage::lemma_walk_goes_on(u, tip, stop, None);
    tape::lemma_only_trans(u1, end2, to2, any);
    rest::lemma_steady_reply(from2, u, q2, to2, world);
    lineage::lemma_agree(world, tip, stop);
    assert(joined2 == Ok::<ReplyView, HaltView>(ReplyView::Flag(false)));
    let p2 = RequestView::TryFirstParentOf { commit: tip };
    let (u2, parent2) = tape::ask(u1, p2);
    lineage::lemma_walk_goes_further(u, tip, stop, None);
    tape::lemma_only_trans(u2, end2, to2, any);
    rest::lemma_steady_reply(from2, u1, p2, to2, world);
    lineage::lemma_agree(world, tip, tip);
    assert(end2 == history::first_revision_down(u2, head, stop, Some(tip)).0);
    // From there both go the same way.
    let (u3, joined3) = tape::ask(u2, q);
    lineage::lemma_walk_goes_on(u2, head, stop, Some(tip));
    tape::lemma_only_trans(u3, end2, to2, any);
    rest::lemma_steady_reply(from2, u2, q, to2, world);
    assert(joined3 == Ok::<ReplyView, HaltView>(ReplyView::Flag(false)));
    let p = RequestView::TryFirstParentOf { commit: head };
    let (t2, parent) = tape::ask(t1, p);
    let (u4, parent3) = tape::ask(u3, p);
    lineage::lemma_walk_goes_further(t, head, stop, None);
    lineage::lemma_walk_goes_further(u2, head, stop, Some(tip));
    tape::lemma_only_trans(t2, end, to, any);
    tape::lemma_only_trans(u4, end2, to2, any);
    rest::lemma_steady_reply(from, t1, p, to, world);
    rest::lemma_steady_reply(from2, u3, p, to2, world);
    assert(parent->Ok_0 == parent3->Ok_0);
    if let ReplyView::MaybeObject(Some(below)) = parent->Ok_0 {
        lineage::lemma_self(world, below);
        assert(history::first_revision_down(t, head, stop, None)
            == history::first_revision_down(t2, below, stop, Some(head)));
        assert(history::first_revision_down(u2, head, stop, Some(tip))
            == history::first_revision_down(u4, below, stop, Some(head)));
        lineage::lemma_same_walk(
            from,
            t2,
            to,
            from2,
            u4,
            to2,
            below,
            stop,
            stop,
            Some(head),
            below,
            world,
        );
    }
}

/// No two layers have the same pull request.
proof fn lemma_numbers_differ(
    g: Ground,
    t: TapeView,
    s: StackView,
    cx: ContextView,
    c: Course,
    again: StackView,
    i: int,
)
    requires
        afterwards::is_last(g, t, s, cx, c, again),
        cx.opts.only_layer is None,
        0 <= i < cx.stack.layers.len(),
    ensures
        forall|k: int|
            0 <= k < cx.prs.len() && k != i ==> #[trigger] telling::number_of(
                cx,
                (execution::executed(g.start, cx).1->Ok_0).stack,
                k,
            ) != telling::number_of(cx, (execution::executed(g.start, cx).1->Ok_0).stack, i),
{
    let after = (execution::executed(g.start, cx).1->Ok_0).stack;
    assert forall|k: int| 0 <= k < cx.prs.len() && k != i implies #[trigger] telling::number_of(
        cx,
        after,
        k,
    ) != telling::number_of(cx, after, i) by {
        afterwards::lemma_base_after(g, t, s, cx, c, again, k);
        afterwards::lemma_base_after(g, t, s, cx, c, again, i);
        afterwards::lemma_pr_after(g, t, s, cx, c, again, k);
        afterwards::lemma_pr_after(g, t, s, cx, c, again, i);
        if k < i {
            assert(rest::pr_in(g.world, again, k).head != rest::pr_in(g.world, again, i).head);
        } else {
            assert(rest::pr_in(g.world, again, i).head != rest::pr_in(g.world, again, k).head);
        }
    }
}

/// All layers have their places.
pub open spec fn all_seated(g: Ground, cx: ContextView) -> bool {
    forall|k: int|
        0 <= k < cx.stack.layers.len() ==> #[trigger] placing::seated(
            g,
            cx,
            telling::places(g.start, cx),
            k,
        )
}

/// The first commit that the branch of an appended layer has is the one it had.
proof fn lemma_appended_root(
    g: Ground,
    cx: ContextView,
    i: int,
    u: TapeView,
    pr2: PrView,
    base: Oid,
)
    requires
        placing::given(g, cx),
        all_seated(g, cx),
        cx.opts.only_layer is None,
        0 <= i < cx.stack.layers.len(),
        cx.decision.push[i],
        telling::places(g.start, cx).new_roots[i] is None,
        base == execution::base_of(cx, telling::places(g.start, cx), i).0,
        pr2.number == (cx.prs[i]->0).number,
        pr2.head_oid == telling::places(g.start, cx).tips[i],
        placing::rooted_from(
            g.world,
            placing::recorded(g, (cx.prs[i]->0).number),
            u,
            pr2,
            base,
        ),
    ensures
        history::root_commit(u, pr2, base).1 matches Ok(Some(root)) && findings::says(
            g.world,
            root,
            placing::root_text(cx, i),
        ),
{
    let p = telling::places(g.start, cx);
    assert(placing::seated(g, cx, p, i));
    assert(placing::judged(g, cx, i));
    assert(engine::warranted(cx.stack, cx.prs, cx.opts, g.checks, cx.decision, i));
    let pr = cx.prs[i]->0;
    let tip = p.tips[i];
    match cx.stack.layers[i].dep {
        Dep::Layer(j) => {
            assert(placing::judged(g, cx, j as int));
            assert(placing::seated(g, cx, p, j as int));
        },
        _ => {},
    }
    assert(engine::remote_base_tip(cx.stack, cx.prs, i) == Some(base));
    let root = choose|root: Option<Oid>| #[trigger] placing::judged_with(g, cx, i, root);
    assert(placing::judged_with(g, cx, i, root));
    let recorded = placing::recorded(g, pr.number);
    let at = choose|at: TapeView| #[trigger]
        placing::rooted_from(g.world, recorded, at, pr, base);
    assert(placing::rooted_from(g.world, recorded, at, pr, base));
    assert(placing::added(g, cx, tip, i));
    assert(placing::aware(g, base));
    lemma_root_after_append(g.world, recorded, at, pr, base, u, pr2);
}

/// The first commit that the branch of a layer that is left alone has is the one it had.
proof fn lemma_root_left_alone(
    g: Ground,
    t: TapeView,
    s: StackView,
    cx: ContextView,
    c: Course,
    again: StackView,
    i: int,
    u: TapeView,
    pr2: PrView,
    base: Oid,
)
    requires
        afterwards::is_last(g, t, s, cx, c, again),
        all_seated(g, cx),
        cx.opts.only_layer is None,
        0 <= i < cx.stack.layers.len(),
        !cx.decision.push[i],
        base == execution::base_of(cx, telling::places(g.start, cx), i).0,
        pr2.number == (cx.prs[i]->0).number,
        pr2.head_oid == (cx.prs[i]->0).head_oid,
        placing::rooted_from(
            g.world,
            placing::recorded(g, (cx.prs[i]->0).number),
            u,
            pr2,
            base,
        ),
    ensures
        history::root_commit(u, pr2, base).1 matches Ok(Some(root)) ==> findings::says(
            g.world,
            root,
            placing::root_text(cx, i),
        ) && (!cx.opts.preserve_commit_history ==> root == pr2.head_oid),
{
    afterwards::lemma_left_alone(g, t, s, cx, c, again, i);
    let pr = cx.prs[i]->0;
    let stop = engine::remote_base_tip(cx.stack, cx.prs, i)->0;
    let root = choose|root: Option<Oid>| #[trigger] placing::judged_with(g, cx, i, root);
    assert(placing::judged_with(g, cx, i, root));
    let recorded = placing::recorded(g, pr.number);
    let at = choose|at: TapeView| #[trigger]
        placing::rooted_from(g.world, recorded, at, pr, stop);
    assert(placing::rooted_from(g.world, recorded, at, pr, stop));
    assert forall|a: Oid| #[trigger] lineage::reaches(g.world, a, pr.head_oid) implies
        lineage::reaches(g.world, a, stop) == lineage::reaches(g.world, a, base)
        && lineage::told_apart(g.world, a, stop) == lineage::told_apart(g.world, a, base) by {
        if base != stop {
            lineage::lemma_grows(g.world, base, stop, a);
        }
    }
    placing::lemma_same_root(g.world, recorded, at, pr, stop, u, pr2, base);
}

/// The first commit of the branch of layer `i` is as it is to be.
pub proof fn lemma_root_rests(
    g: Ground,
    t: TapeView,
    s: StackView,
    cx: ContextView,
    c: Course,
    again: StackView,
    i: int,
)
    requires
        afterwards::is_last(g, t, s, cx, c, again),
        all_seated(g, cx),
        cx.opts.only_layer is None,
        0 <= i < cx.stack.layers.len(),
        cx.decision.push[i] ==> placing::clean_text(placing::root_text(cx, i)),
    ensures
        rest::root_rests(
            g.world,
            rest::pr_in(g.world, again, i),
            rest::base_tip_in(g.world, again, i),
            again.layers[i].message,
            cx.opts.preserve_commit_history,
        ),
{
    let p = telling::places(g.start, cx);
    let after = (execution::executed(g.start, cx).1->Ok_0).stack;
    let pr2 = rest::pr_in(g.world, again, i);
    let base = rest::base_tip_in(g.world, again, i);
    afterwards::lemma_base_after(g, t, s, cx, c, again, i);
    afterwards::lemma_pr_after(g, t, s, cx, c, again, i);
    lemma_numbers_differ(g, t, s, cx, c, again, i);
    lemma_ref_after(g, cx, c, i);
    assert(placing::seated(g, cx, p, i));
    assert(findings::branch_text(again.layers[i].message) == placing::root_text(cx, i));
    let recorded = match p.new_roots[i] {
        Some(root) => Some(root),
        None => placing::recorded(g, pr2.number),
    };
    assert forall|u: TapeView| #[trigger]
        rest::hears(u, history::root_commit(u, pr2, base).0, g.world) implies (
    history::root_commit(u, pr2, base).1 matches Ok(Some(root)) ==> findings::says(
        g.world,
        root,
        findings::branch_text(again.layers[i].message),
    ) && (!cx.opts.preserve_commit_history ==> root == pr2.head_oid)) by {
        if history::root_commit(u, pr2, base).1 is Ok {
            lemma_rooted_in(g.world, u, pr2, base, recorded);
            if p.new_roots[i] is Some {
                lemma_recorded_root(g.world, u, pr2, base, p.new_roots[i]->0);
            } else if cx.decision.push[i] {
                lemma_appended_root(g, cx, i, u, pr2, base);
            } else {
                lemma_root_left_alone(g, t, s, cx, c, again, i, u, pr2, base);
            }
        }
    }
}

/// What is asked of the descriptions and the patches for a run to leave nothing to do:
/// no pull request conflicts; writing a description twice is writing it once; the clean-up
/// of a commit message leaves what is written as it is; a patch that was put elsewhere
/// comes back to its own content; and a branch that had the content of its layer has it
/// still.
pub open spec fn settles_down(
    world: spec_fn(RequestView) -> ReplyView,
    to: TapeView,
    cx: ContextView,
    again: StackView,
    i: int,
) -> bool {
    let pr = rest::pr_in(world, again, i);
    let dep = cx.trees.dep[i];
    let content = cx.trees.effective[i];
    &&& pr.mergeable != Mergeable::Conflicting
    &&& written_once(
        telling::description(cx, i),
        rest::warn_in(world, cx.opts.preserve_commit_history),
    )
    &&& cx.decision.push[i] ==> placing::clean_text(placing::root_text(cx, i))
    &&& cx.decision.push[i] && cx.stack.layers[i].dep is Layer ==> placing::comes_back(
        world,
        to,
        dep,
        content,
    )
    &&& cx.prs[i] matches Some(old) ==> (rest::tree_in(world, old.head_oid) == content
        ==> rest::tree_in(world, pr.head_oid) == content)
}

/// Layer `i` is at rest in the end.
pub proof fn lemma_rests(
    g: Ground,
    t: TapeView,
    s: StackView,
    cx: ContextView,
    c: Course,
    again: StackView,
    i: int,
)
    requires
        afterwards::is_last(g, t, s, cx, c, again),
        all_seated(g, cx),
        cx.opts.only_layer is None,
        cx.opts.preserve_commit_history == rest::preserve_in(g.world, cx.config),
        forall|k: int|
            0 <= k < cx.stack.layers.len() ==> #[trigger] settles_down(
                g.world,
                g.to,
                cx,
                again,
                k,
            ),
        0 <= i < cx.stack.layers.len(),
    ensures
        rest::rests(g.world, cx.config, again, i),
{
    let p = telling::places(g.start, cx);
    let after = (execution::executed(g.start, cx).1->Ok_0).stack;
    let dep = cx.trees.dep[i];
    let content = cx.trees.effective[i];
    let pr = rest::pr_in(g.world, again, i);
    let base = rest::base_tip_in(g.world, again, i);
    afterwards::lemma_base_after(g, t, s, cx, c, again, i);
    afterwards::lemma_pr_after(g, t, s, cx, c, again, i);
    afterwards::lemma_same_content(g.world, cx.stack, after, again, i);
    assert(dep == rest::dep_in(g.world, cx.stack, i));
    assert(content == rest::content_in(g.world, cx.stack, i));
    afterwards::lemma_displayed(g, t, s, cx, c, again, i);
    assert(settles_down(g.world, g.to, cx, again, i));
    lemma_root_rests(g, t, s, cx, c, again, i);
    assert(placing::seated(g, cx, p, i));
    let fork = (g.world)(RequestView::MergeBase { a: base, b: pr.head_oid })->Object_0;
    assert(rest::tree_in(g.world, base) == dep || rest::merges_in(
        g.world,
        fork,
        pr.head_oid,
        dep,
        content,
    )) by {
        if !cx.decision.push[i] {
            afterwards::lemma_left_alone(g, t, s, cx, c, again, i);
            let root = choose|root: Option<Oid>| #[trigger] placing::judged_with(g, cx, i, root);
            assert(placing::judged_with(g, cx, i, root));
            if let Dep::Layer(j) = cx.stack.layers[i].dep {
                afterwards::lemma_base_after(g, t, s, cx, c, again, j as int);
                afterwards::lemma_pr_after(g, t, s, cx, c, again, j as int);
                assert(settles_down(g.world, g.to, cx, again, j as int));
                assert(cx.trees.effective[j as int] == rest::content_in(
                    g.world,
                    cx.stack,
                    j as int,
                ));
            }
        }
    }
}

} // verus!
