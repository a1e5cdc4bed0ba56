//! The laws of a whole run.

use vstd::prelude::*;

use crate::afterwards;
use crate::afterwards::Last;
use crate::config;
use crate::config::ConfigView;
use crate::engine;
use crate::engine::OptionsView;
use crate::execution;
use crate::memory;
use crate::lineage;
use crate::placing;
use crate::rest;
use crate::stack;
use crate::standing;
use crate::stack::{Dep, StackView};
use crate::syncing;
use crate::tape;
use crate::tape::{ReplyView, RequestView, TapeView};
use crate::telling;

verus! {

/// Where the rounds of a run begin.
pub proof fn lemma_linked(
    before: spec_fn(RequestView) -> ReplyView,
    world: spec_fn(RequestView) -> ReplyView,
    t: TapeView,
    c: ConfigView,
    s: StackView,
    opts: OptionsView,
)
    requires
        stack::well_formed(s),
        syncing::synced(t, c, s, opts).1 is Ok,
        memory::remembers(before, world, syncing::synced(t, c, s, opts).0),
    ensures
        ({
            let (t1, stack, full) = afterwards::linked(t, c, s, opts);
            let to = syncing::synced(t, c, s, opts).0;
            &&& stack::well_formed(stack)
            &&& syncing::synced(t, c, s, opts) == syncing::rounds(t1, c, stack, full)
            &&& full.preserve_commit_history == rest::preserve_in(world, c)
            &&& full.only_layer == opts.only_layer
            &&& syncing::round(t1, c, stack, full, true).1 is Ok
            &&& tape::only(
                syncing::round(t1, c, stack, full, true).0,
                to,
                |q: RequestView| true,
            )
        }),
{
    let any = |q: RequestView| true;
    let to = syncing::synced(t, c, s, opts).0;
    let (a1, resolved) = syncing::externals_from(t, s, 0);
    let resolved = resolved->Ok_0;
    syncing::law_externals_become_trunk(t, s);
    assert(stack::well_formed(resolved)) by {
        assert forall|m: int| #![trigger resolved.layers[m]] 0 <= m < resolved.layers.len() implies (
        match resolved.layers[m].dep {
            Dep::Layer(j) => j < m,
            _ => true,
        }) by {
            assert(resolved.layers[m].dep == s.layers[m].dep || resolved.layers[m].dep
                == Dep::Main);
        }
    }
    let (a2, stack) = syncing::relinked(a1, c, opts, resolved);
    syncing::lemma_relinked(a1, c, opts, resolved);
    let (t1, stack, full) = afterwards::linked(t, c, s, opts);
    assert(syncing::synced(t, c, s, opts) == syncing::rounds(t1, c, stack, full));
    rest::lemma_rounds(t1, c, stack, full);
    memory::lemma_recalled(before, world, a2, RequestView::MergeSettings, to);
}

/// A round in which nothing is left behind is the last one.
proof fn lemma_single(
    before: spec_fn(RequestView) -> ReplyView,
    world: spec_fn(RequestView) -> ReplyView,
    t: TapeView,
    c: ConfigView,
    s: StackView,
    opts: OptionsView,
    to: TapeView,
) -> (l: Last)
    requires
        stack::well_formed(s),
        syncing::round(t, c, s, opts, true).1 is Ok,
        !(syncing::round(t, c, s, opts, true).1->Ok_0).staged,
        to == syncing::round(t, c, s, opts, true).0,
        memory::remembers(before, world, to),
        lineage::has_history(world),
    ensures
        l.g.before == before,
        l.g.world == world,
        l.g.to == to,
        l.g.start == afterwards::context(t, c, s, opts, true).0,
        afterwards::is_final(l.g, t, s, afterwards::context(t, c, s, opts, true).1, l.c),
        syncing::round(t, c, s, opts, true) == execution::executed(
            l.g.start,
            afterwards::context(t, c, s, opts, true).1,
        ),
{
    let any = |q: RequestView| true;
    tape::lemma_only_start(to, any);
    let cx = afterwards::context(t, c, s, opts, true).1;
    afterwards::lemma_round_answered(t, c, s, opts, true);
    let g = afterwards::lemma_prepared(before, world, t, c, s, opts, true, to);
    let course = telling::lemma_ran(g.start, cx);
    afterwards::lemma_warn(before, world, course.mid, cx.opts, to);
    Last { g, c: course }
}

/// The second round is the last one.
#[verifier::rlimit(30)]
proof fn lemma_double(
    before: spec_fn(RequestView) -> ReplyView,
    world: spec_fn(RequestView) -> ReplyView,
    t1: TapeView,
    c: ConfigView,
    s1: StackView,
    first: OptionsView,
    second: OptionsView,
    to: TapeView,
    rested: StackView,
) -> (l: Last)
    requires
        stack::well_formed(s1),
        second.only_layer == first.only_layer,
        afterwards::backed(afterwards::context(t1, c, s1, first, true).1),
        syncing::round(t1, c, s1, first, true).1 is Ok,
        tape::only(syncing::round(t1, c, s1, first, true).0, to, |q: RequestView| true),
        ({
            let (t2, e1) = syncing::round(t1, c, s1, first, true);
            let (t3, e2) = syncing::round(t2, c, (e1->Ok_0).stack, second, false);
            &&& e2 is Ok
            &&& to == t3
            &&& rested.layers.len() == (e1->Ok_0).stack.layers.len()
            &&& forall|k: int|
                0 <= k < rested.layers.len() ==> (#[trigger] rested.layers[k]).pr == (
                e2->Ok_0).stack.layers[k].pr
        }),
        memory::remembers(before, world, to),
        lineage::has_history(world),
        afterwards::apart(world, rested),
    ensures
        ({
            let (t2, e1) = syncing::round(t1, c, s1, first, true);
            let s2 = (e1->Ok_0).stack;
            let (start, cx) = afterwards::context(t2, c, s2, second, false);
            &&& l.g.before == before
            &&& l.g.world == world
            &&& l.g.to == to
            &&& l.g.start == start
            &&& afterwards::is_final(l.g, t2, s2, cx, l.c)
            &&& syncing::round(t2, c, s2, second, false) == execution::executed(start, cx)
        }),
{
    let any = |q: RequestView| true;
    let (t2, e1) = syncing::round(t1, c, s1, first, true);
    let s2 = (e1->Ok_0).stack;
    let e2 = syncing::round(t2, c, s2, second, false).1->Ok_0;
    let cx1 = afterwards::context(t1, c, s1, first, true).1;
    let cx2 = afterwards::context(t2, c, s2, second, false).1;
    tape::lemma_only_start(to, any);
    afterwards::lemma_round_answered(t2, c, s2, second, false);
    let g1 = afterwards::lemma_prepared(before, world, t1, c, s1, first, true, to);
    let c1 = telling::lemma_ran(g1.start, cx1);
    afterwards::lemma_formed(s2, s1);
    let g2 = afterwards::lemma_prepared(before, world, t2, c, s2, second, false, to);
    let c2 = telling::lemma_ran(g2.start, cx2);
    afterwards::lemma_warn(before, world, c2.mid, cx2.opts, to);
    lemma_second(g1, t1, s1, cx1, c1, g2, t2, cx2, c2, rested);
    Last { g: g2, c: c2 }
}

/// Nothing is left behind in the second round.
#[verifier::rlimit(30)]
pub proof fn lemma_second(
    g1: placing::Ground,
    t1: TapeView,
    s1: StackView,
    cx1: execution::ContextView,
    c1: telling::Course,
    g2: placing::Ground,
    t2: TapeView,
    cx2: execution::ContextView,
    c2: telling::Course,
    rested: StackView,
)
    requires
        afterwards::prepared(g1, t1, s1, cx1),
        cx1.stack == s1,
        execution::executed(g1.start, cx1).1 is Ok,
        telling::ran(g1.start, cx1, c1),
        t2 == execution::executed(g1.start, cx1).0,
        cx2.stack == (execution::executed(g1.start, cx1).1->Ok_0).stack,
        cx2.config == cx1.config,
        cx2.opts.only_layer == cx1.opts.only_layer,
        afterwards::backed(cx1),
        afterwards::prepared(g2, t2, cx2.stack, cx2),
        execution::executed(g2.start, cx2).1 is Ok,
        telling::ran(g2.start, cx2, c2),
        g2.before == g1.before,
        g2.world == g1.world,
        g2.to == g1.to,
        telling::answered(g1.to),
        afterwards::apart(g1.world, rested),
        rested.layers.len() == cx2.stack.layers.len(),
        forall|k: int|
            0 <= k < rested.layers.len() ==> (#[trigger] rested.layers[k]).pr == (
            execution::executed(g2.start, cx2).1->Ok_0).stack.layers[k].pr,
    ensures
        !telling::places(g2.start, cx2).staged,
{
    lemma_same_numbers(g1, t1, s1, cx1, c1, g2, t2, cx2, c2, rested);
    afterwards::lemma_apart(g1, cx1, rested);
    assert forall|k: int|
        0 <= k < cx2.stack.layers.len() && #[trigger] cx2.decision.push[k]
            && cx2.prs[k] is Some implies afterwards::based(cx2, k) by {
        lemma_backed(g1, t1, s1, cx1, g2, t2, cx2, k);
        lemma_base_right(g1, t1, s1, cx1, c1, g2, t2, cx2, k);
    }
    afterwards::lemma_nothing_left_behind(
        g2.start,
        cx2,
        0,
        execution::empty_placement(cx2),
    );
}

/// The layers have their pull requests throughout.
pub proof fn lemma_same_numbers(
    g1: placing::Ground,
    t1: TapeView,
    s1: StackView,
    cx1: execution::ContextView,
    c1: telling::Course,
    g2: placing::Ground,
    t2: TapeView,
    cx2: execution::ContextView,
    c2: telling::Course,
    rested: StackView,
)
    requires
        afterwards::prepared(g1, t1, s1, cx1),
        cx1.stack == s1,
        telling::ran(g1.start, cx1, c1),
        cx2.stack == (execution::executed(g1.start, cx1).1->Ok_0).stack,
        afterwards::prepared(g2, t2, cx2.stack, cx2),
        telling::ran(g2.start, cx2, c2),
        rested.layers.len() == cx2.stack.layers.len(),
        forall|k: int|
            0 <= k < rested.layers.len() ==> (#[trigger] rested.layers[k]).pr == (
            execution::executed(g2.start, cx2).1->Ok_0).stack.layers[k].pr,
    ensures
        rested.layers.len() == cx1.prs.len(),
        forall|k: int|
            0 <= k < cx1.prs.len() ==> (#[trigger] cx1.prs[k] matches Some(pr)
                ==> rested.layers[k].pr == Some(pr.number)),
{
    let after = (execution::executed(g2.start, cx2).1->Ok_0).stack;
    assert forall|k: int| 0 <= k < cx1.prs.len() implies (#[trigger] cx1.prs[k] matches Some(pr)
        ==> rested.layers[k].pr == Some(pr.number)) by {
        if let Some(pr) = cx1.prs[k] {
            assert(cx2.stack.layers[k].pr == cx1.stack.layers[k].pr);
            assert(cx2.prs[k] is Some || cx2.prs[k] is None);
            assert(after.layers[k].pr == cx2.stack.layers[k].pr);
            assert(rested.layers[k].pr == after.layers[k].pr);
        }
    }
}

/// What is pushed in the second round had its pull request after the first one.
pub proof fn lemma_backed(
    g1: placing::Ground,
    t1: TapeView,
    s1: StackView,
    cx1: execution::ContextView,
    g2: placing::Ground,
    t2: TapeView,
    cx2: execution::ContextView,
    k: int,
)
    requires
        afterwards::prepared(g1, t1, s1, cx1),
        cx1.stack == s1,
        telling::same_layers(cx2.stack, cx1.stack),
        cx2.opts.only_layer == cx1.opts.only_layer,
        afterwards::backed(cx1),
        afterwards::prepared(g2, t2, cx2.stack, cx2),
        0 <= k < cx2.stack.layers.len(),
        cx2.decision.push[k],
    ensures
        execution::has_branch(cx1, k),
        cx1.stack.layers[k].dep matches Dep::Layer(j) ==> execution::has_branch(cx1, j as int),
{
    match cx1.opts.only_layer {
        None => {
            assert(engine::warranted(
                cx1.stack,
                cx1.prs,
                cx1.opts,
                g1.checks,
                cx1.decision,
                k,
            ));
            if let Dep::Layer(j) = cx1.stack.layers[k].dep {
                assert(engine::warranted(
                    cx1.stack,
                    cx1.prs,
                    cx1.opts,
                    g1.checks,
                    cx1.decision,
                    j as int,
                ));
            }
        },
        Some(x) => {
            assert(engine::beneath(cx2.stack, x as int, k));
            lemma_same_beneath(cx1.stack, cx2.stack, x as int, k);
            if cx1.stack.layers[k].dep is Layer {
                engine::lemma_beneath(cx1.stack, x as int, k);
            }
        },
    }
}

proof fn lemma_same_beneath(a: StackView, b: StackView, x: int, k: int)
    requires
        telling::same_layers(b, a),
        0 <= x < a.layers.len(),
    ensures
        engine::beneath(a, x, k) == engine::beneath(b, x, k),
    decreases x,
{
    assert(b.layers[x].dep == a.layers[x].dep);
    if let Dep::Layer(j) = a.layers[x].dep {
        if j < x {
            lemma_same_beneath(a, b, j as int, k);
        }
    }
}

/// The pull request of layer `k` has the base it is to have.
pub proof fn lemma_base_right(
    g1: placing::Ground,
    t1: TapeView,
    s1: StackView,
    cx1: execution::ContextView,
    c1: telling::Course,
    g2: placing::Ground,
    t2: TapeView,
    cx2: execution::ContextView,
    k: int,
)
    requires
        afterwards::prepared(g1, t1, s1, cx1),
        cx1.stack == s1,
        execution::executed(g1.start, cx1).1 is Ok,
        telling::ran(g1.start, cx1, c1),
        t2 == execution::executed(g1.start, cx1).0,
        cx2.stack == (execution::executed(g1.start, cx1).1->Ok_0).stack,
        cx2.config == cx1.config,
        afterwards::prepared(g2, t2, cx2.stack, cx2),
        g2.before == g1.before,
        g2.world == g1.world,
        g2.to == g1.to,
        telling::answered(g1.to),
        telling::distinct_numbers(cx1.prs),
        execution::distinct_heads(cx1.prs),
        0 <= k < cx2.stack.layers.len(),
        execution::has_branch(cx1, k),
        cx1.stack.layers[k].dep matches Dep::Layer(j) ==> execution::has_branch(cx1, j as int),
    ensures
        afterwards::based(cx2, k),
{
    let p1 = telling::places(g1.start, cx1);
    afterwards::lemma_bases_changed(g1, t1, s1, cx1, c1, g2, t2, cx2, k);
    assert(cx2.stack.layers[k].dep == cx1.stack.layers[k].dep);
    assert(p1.base_branches[k] == match cx1.stack.layers[k].dep {
        Dep::Layer(j) => p1.branches[j as int],
        _ => cx1.config.trunk,
    });
    match cx2.stack.layers[k].dep {
        Dep::Layer(j) => {
            afterwards::lemma_bases_changed(g1, t1, s1, cx1, c1, g2, t2, cx2, j as int);
        },
        _ => {},
    }
}

/// How the last round of a run went.
#[verifier::rlimit(30)]
proof fn lemma_last(
    before: spec_fn(RequestView) -> ReplyView,
    world: spec_fn(RequestView) -> ReplyView,
    t: TapeView,
    c: ConfigView,
    s: StackView,
    opts: OptionsView,
    again: StackView,
) -> (l: Last)
    requires
        afterwards::leaves(before, world, t, c, s, opts, again),
    ensures
        l.g.before == before,
        l.g.world == world,
        l.g.to == syncing::synced(t, c, s, opts).0,
        ({
            let (at, stack, full, first) = afterwards::last_round(t, c, s, opts);
            let (start, cx) = afterwards::last_context(t, c, s, opts);
            &&& l.g.start == start
            &&& afterwards::is_last(l.g, at, stack, cx, l.c, syncing::settled(again))
            &&& full.preserve_commit_history == rest::preserve_in(world, c)
        }),
{
    let to = syncing::synced(t, c, s, opts).0;
    let rested = syncing::settled(again);
    lemma_linked(before, world, t, c, s, opts);
    let (t1, stack, full) = afterwards::linked(t, c, s, opts);
    let (t2, e1) = syncing::round(t1, c, stack, full, true);
    let e1 = e1->Ok_0;
    lemma_rested_apart(world, again);
    if !e1.staged {
        lemma_single(before, world, t1, c, stack, full, to)
    } else {
        let second = syncing::catch_up_options(full);
        let e2 = syncing::round(t2, c, e1.stack, second, false).1->Ok_0;
        assert(rested.layers.len() == e1.stack.layers.len());
        lemma_double(before, world, t1, c, stack, full, second, to, rested)
    }
}

proof fn lemma_rested_apart(world: spec_fn(RequestView) -> ReplyView, again: StackView)
    requires
        stack::well_formed(again),
        afterwards::apart(world, again),
    ensures
        afterwards::apart(world, syncing::settled(again)),
{
    let rested = syncing::settled(again);
    assert forall|i: int, j: int|
        0 <= i < j < rested.layers.len() && rested.layers[i].pr is Some
            && rested.layers[j].pr is Some implies (#[trigger] rest::pr_in(world, rested, i)).head != (#[trigger] rest::pr_in(
        world,
        rested,
        j,
    )).head by {
        afterwards::lemma_settled_same(world, again, i);
        afterwards::lemma_settled_same(world, again, j);
        assert(again.layers[i].pr is Some && again.layers[j].pr is Some);
        assert(rest::pr_in(world, again, i).head != rest::pr_in(world, again, j).head);
    }
}

/// After a run, what the forge displays of every pull request that was synced is exactly
/// the own patch of its layer: whether its branch was opened, moved, added to or left alone, and whether
/// its base was changed or what it sits on was.
///
/// `before` is the world in which the run starts and `world` the one that it leaves
/// behind; `again` is the stack as it is found then.
pub proof fn law_own_patches_are_displayed(
    before: spec_fn(RequestView) -> ReplyView,
    world: spec_fn(RequestView) -> ReplyView,
    t: TapeView,
    c: ConfigView,
    s: StackView,
    opts: OptionsView,
    again: StackView,
)
    requires
        afterwards::leaves(before, world, t, c, s, opts, again),
    ensures
        forall|i: int|
            0 <= i < again.layers.len() && engine::in_scope(opts, i) ==> #[trigger] rest::displays(
                world,
                rest::base_tip_in(world, again, i),
                rest::pr_in(world, again, i).head_oid,
                rest::dep_in(world, again, i),
                rest::content_in(world, again, i),
            ),
{
    let l = lemma_last(before, world, t, c, s, opts, again);
    let rested = syncing::settled(again);
    let at = afterwards::last_round(t, c, s, opts).0;
    let cx = afterwards::last_context(t, c, s, opts).1;
    lemma_portable(before, world, t, c, s, opts, again);
    afterwards::lemma_all_seated(l.g, at, cx.stack, cx, l.c, rested);
    assert forall|i: int|
        0 <= i < again.layers.len() && engine::in_scope(opts, i) implies #[trigger] rest::displays(
        world,
        rest::base_tip_in(world, again, i),
        rest::pr_in(world, again, i).head_oid,
        rest::dep_in(world, again, i),
        rest::content_in(world, again, i),
    ) by {
        afterwards::lemma_settled_same(world, again, i);
        afterwards::lemma_displayed(l.g, at, cx.stack, cx, l.c, rested, i);
    }
}

/// After a run every layer is at rest.
pub proof fn law_layers_come_to_rest(
    before: spec_fn(RequestView) -> ReplyView,
    world: spec_fn(RequestView) -> ReplyView,
    t: TapeView,
    c: ConfigView,
    s: StackView,
    opts: OptionsView,
    again: StackView,
)
    requires
        afterwards::leaves(before, world, t, c, s, opts, again),
        opts.only_layer is None,
        forall|i: int|
            0 <= i < again.layers.len() ==> #[trigger] standing::settles_down(
                world,
                syncing::synced(t, c, s, opts).0,
                afterwards::last_context(t, c, s, opts).1,
                again,
                i,
            ),
    ensures
        rest::at_rest(world, c, syncing::settled(again)),
{
    let l = lemma_last(before, world, t, c, s, opts, again);
    let rested = syncing::settled(again);
    let (at, stack, full, first) = afterwards::last_round(t, c, s, opts);
    let cx = afterwards::last_context(t, c, s, opts).1;
    lemma_portable(before, world, t, c, s, opts, again);
    afterwards::lemma_all_seated(l.g, at, cx.stack, cx, l.c, rested);
    assert(standing::all_seated(l.g, cx));
    assert forall|k: int| 0 <= k < cx.stack.layers.len() implies #[trigger] standing::settles_down(
        world,
        l.g.to,
        cx,
        rested,
        k,
    ) by {
        afterwards::lemma_settled_same(world, again, k);
        assert(standing::settles_down(world, l.g.to, cx, again, k));
    }
    assert forall|i: int| 0 <= i < rested.layers.len() implies #[trigger] rest::rests(
        world,
        c,
        rested,
        i,
    ) by {
        standing::lemma_rests(l.g, at, cx.stack, cx, l.c, rested, i);
    }
}

/// The patches of the layers can be put where their branches go.
proof fn lemma_portable(
    before: spec_fn(RequestView) -> ReplyView,
    world: spec_fn(RequestView) -> ReplyView,
    t: TapeView,
    c: ConfigView,
    s: StackView,
    opts: OptionsView,
    again: StackView,
)
    requires
        afterwards::leaves(before, world, t, c, s, opts, again),
    ensures
        ({
            let cx = afterwards::last_context(t, c, s, opts).1;
            forall|i: int|
                0 <= i < cx.stack.layers.len() && engine::in_scope(cx.opts, i)
                    && #[trigger] cx.decision.push[i] ==> placing::portable(
                    world,
                    syncing::synced(t, c, s, opts).0,
                    cx,
                    rest::base_tip_in(world, syncing::settled(again), i),
                    i,
                )
        }),
{
    let cx = afterwards::last_context(t, c, s, opts).1;
    assert forall|i: int|
        0 <= i < cx.stack.layers.len() && engine::in_scope(cx.opts, i)
            && #[trigger] cx.decision.push[i] implies placing::portable(
        world,
        syncing::synced(t, c, s, opts).0,
        cx,
        rest::base_tip_in(world, syncing::settled(again), i),
        i,
    ) by {
        afterwards::lemma_settled_same(world, again, i);
    }
}

/// Running again without changes does nothing: a second run pushes nothing and skips
/// every layer.
///
/// `world` is what the first run, which started in `before`, has left behind. It gives
/// the replies to the second one, and `again` is the stack as it is found then.
pub proof fn law_second_run_does_nothing(
    before: spec_fn(RequestView) -> ReplyView,
    world: spec_fn(RequestView) -> ReplyView,
    t: TapeView,
    c: ConfigView,
    s: StackView,
    first: OptionsView,
    u: TapeView,
    again: StackView,
    second: OptionsView,
)
    requires
        afterwards::leaves(before, world, t, c, s, first, again),
        first.only_layer is None,
        forall|i: int|
            0 <= i < again.layers.len() ==> #[trigger] standing::settles_down(
                world,
                syncing::synced(t, c, s, first).0,
                afterwards::last_context(t, c, s, first).1,
                again,
                i,
            ),
        !second.sync_all,
        !second.refresh_when_behind,
        !second.update_message,
        second.only_layer is None,
        rest::hears(u, syncing::synced(u, c, again, second).0, world),
    ensures
        tape::only(
            u,
            syncing::synced(u, c, again, second).0,
            |q: RequestView| !(q is Push),
        ),
        syncing::synced(u, c, again, second).1 matches Ok(r) ==> rest::all_skipped(
            r.outcomes,
            again.layers.len() as int,
        ),
{
    law_layers_come_to_rest(before, world, t, c, s, first, again);
    rest::law_stack_at_rest_is_left_alone(u, c, again, second, world);
}

} // verus!
