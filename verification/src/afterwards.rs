//! What a run leaves behind, and what the next one makes of it.

use vstd::prelude::*;

use crate::config;
use crate::config::ConfigView;
use crate::discovery;
use crate::discovery::TreesView;
use crate::engine;
use crate::engine::{LayerCheck, OptionsView};
use crate::execution;
use crate::execution::{ContextView, PlacementView};
use crate::findings;
use crate::forge::PrView;
use crate::history;
use crate::lineage;
use crate::memory;
use crate::oid;
use crate::oid::Oid;
use crate::placing;
use crate::placing::Ground;
use crate::refs;
use crate::rest;
use crate::stack;
use crate::stack::{Dep, StackView};
use crate::syncing;
use crate::tape;
use crate::tape::{HaltView, ReplyView, RequestView, TapeView};
use crate::telling;
use crate::telling::Course;
use crate::upgrade;

verus! {

/// Requests that change neither the forge nor the local repository.
pub open spec fn looks(q: RequestView) -> bool {
    !tape::touches_forge(q) && !tape::touches_local(q)
}

/// Where the decision of a round is carried out, and what is given then.
pub open spec fn context(
    t: TapeView,
    c: ConfigView,
    s: StackView,
    opts: OptionsView,
    first: bool,
) -> (TapeView, ContextView) {
    let (t1, trees) = discovery::trees_of(t, s);
    let trees = trees->Ok_0;
    let (t2, prs) = engine::gathered(t1, s);
    let prs = prs->Ok_0;
    let t3 = if first {
        upgrade::reject_from(t2, c, s, prs, opts.only_layer, 0).0
    } else {
        t2
    };
    let (t4, decision) = engine::decided(t3, s, prs, trees, opts);
    (t4, ContextView { config: c, stack: s, prs, trees, decision: decision->Ok_0, opts })
}

/// What was found of each layer in a round.
pub open spec fn checks_of(
    t: TapeView,
    c: ConfigView,
    s: StackView,
    opts: OptionsView,
    first: bool,
) -> Seq<LayerCheck> {
    let (t1, trees) = discovery::trees_of(t, s);
    let (t2, prs) = engine::gathered(t1, s);
    let t3 = if first {
        upgrade::reject_from(t2, c, s, prs->Ok_0, opts.only_layer, 0).0
    } else {
        t2
    };
    engine::checks_from(t3, s, prs->Ok_0, trees->Ok_0, opts, 0, Seq::empty()).1->Ok_0
}

/// The forge was asked for each pull request.
pub proof fn lemma_gathered(t: TapeView, s: StackView, i: int, prs: Seq<Option<PrView>>, k: int)
    requires
        0 <= i <= k < s.layers.len(),
        prs.len() == i,
        engine::gather_from(t, s, i, prs).1 is Ok,
    ensures
        ({
            let (end, all) = engine::gather_from(t, s, i, prs);
            let all = all->Ok_0;
            &&& all.len() == s.layers.len()
            &&& forall|m: int| 0 <= m < i ==> all[m] == #[trigger] prs[m]
            &&& match s.layers[k].pr {
                Some(number) => all[k] matches Some(pr) && memory::told_since(
                    t,
                    end,
                    RequestView::GetPullRequest { number },
                    ReplyView::Pr(pr),
                ),
                None => all[k] is None,
            }
        }),
    decreases s.layers.len() - i,
{
    let any = |q: RequestView| true;
    assert(tape::may_look(any));
    let (end, all) = engine::gather_from(t, s, i, prs);
    let all = all->Ok_0;
    tape::lemma_only_start(t, any);
    let (t1, found) = match s.layers[i].pr {
        None => (t, None),
        Some(number) => {
            let (a, pr) = tape::ask_pr(t, RequestView::GetPullRequest { number });
            let pr = pr->Ok_0;
            let b = tape::ask(a, RequestView::FetchCommit { commit: pr.head_oid }).0;
            let d = if pr.base_oid != oid::zero_oid() {
                tape::ask(b, RequestView::FetchCommit { commit: pr.base_oid }).0
            } else {
                b
            };
            tape::lemma_only_start(a, any);
            assert(tape::only(a, d, any)) by {
                broadcast use tape::lemma_only_ask;
            }
            memory::lemma_told_since(t, RequestView::GetPullRequest { number });
            (d, Some(pr))
        },
    };
    let next = prs.push(found);
    assert(engine::gather_from(t, s, i, prs) == engine::gather_from(t1, s, i + 1, next));
    tape::lemma_only_start(t1, any);
    engine::lemma_gather_from_only(t1, t1, s, i + 1, next, any);
    if i + 1 < s.layers.len() {
        lemma_gathered(t1, s, i + 1, next, if k == i {
            i + 1
        } else {
            k
        });
    }
    assert(all[i] == next[i]);
    assert forall|m: int| 0 <= m < i implies all[m] == #[trigger] prs[m] by {
        assert(all[m] == next[m]);
    }
    match s.layers[k].pr {
        Some(number) => {
            let q = RequestView::GetPullRequest { number };
            if k == i {
                let (a, pr) = tape::ask_pr(t, q);
                let pr = pr->Ok_0;
                assert(tape::only(a, end, any)) by {
                    tape::lemma_only_trans(a, t1, end, any);
                }
                memory::lemma_told_longer(t, t, a, end, q, ReplyView::Pr(pr));
            } else {
                tape::lemma_only_start(end, any);
                assert(t.asked.len() <= t1.asked.len());
                memory::lemma_told_longer(
                    t,
                    t1,
                    end,
                    end,
                    q,
                    ReplyView::Pr(all[k]->0),
                );
            }
        },
        None => {},
    }
}

/// What a stretch without changes leaves of a pull request.
pub proof fn lemma_looked(
    before: spec_fn(RequestView) -> ReplyView,
    to: TapeView,
    m: int,
    k: int,
    number: u64,
)
    requires
        0 <= m <= k,
        forall|x: int| m <= x < k ==> looks(#[trigger] to.asked[x]),
    ensures
        memory::alike(
            memory::pr_at(before, to, k, number),
            memory::pr_at(before, to, m, number),
        ),
{
    let old = memory::pr_at(before, to, m, number);
    assert forall|x: int| m <= x < k implies memory::mild(
        #[trigger] to.asked[x],
        to.replies[x],
        number,
        old.head,
        old.base,
        old.body,
        old.head_oid,
    ) by {
        assert(looks(to.asked[x]));
    }
    memory::lemma_mild(
        before,
        to,
        m,
        k,
        number,
        old.head,
        old.base,
        old.body,
        old.head_oid,
    );
}

/// Everything that a round finds out before it carries its decision out.
pub open spec fn prepared(g: Ground, t: TapeView, s: StackView, cx: ContextView) -> bool {
    &&& placing::given(g, cx)
    &&& telling::found(g.before, g.to, g.start, cx)
    &&& tape::only(t, g.start, |q: RequestView| looks(q))
    &&& forall|k: int|
        0 <= k < cx.prs.len() ==> match #[trigger] cx.prs[k] {
            Some(pr) => s.layers[k].pr == Some(pr.number),
            None => s.layers[k].pr is None,
        }
    &&& engine::goes_alone(cx.stack, cx.opts, cx.decision)
}

#[verifier::rlimit(60)]
pub proof fn lemma_prepared(
    before: spec_fn(RequestView) -> ReplyView,
    world: spec_fn(RequestView) -> ReplyView,
    t: TapeView,
    c: ConfigView,
    s: StackView,
    opts: OptionsView,
    first: bool,
    to: TapeView,
) -> (g: Ground)
    requires
        stack::well_formed(s),
        syncing::round(t, c, s, opts, first).1 is Ok,
        tape::only(syncing::round(t, c, s, opts, first).0, to, |q: RequestView| true),
        memory::remembers(before, world, to),
        lineage::has_history(world),
        telling::answered(to),
    ensures
        g.before == before,
        g.world == world,
        g.to == to,
        g.start == context(t, c, s, opts, first).0,
        g.checks == checks_of(t, c, s, opts, first),
        prepared(g, t, s, context(t, c, s, opts, first).1),
        syncing::round(t, c, s, opts, first) == execution::executed(
            g.start,
            context(t, c, s, opts, first).1,
        ),
{
    let any = |q: RequestView| true;
    let look = |q: RequestView| looks(q);
    assert(tape::may_look(any));
    assert(tape::may_look(look));
    let end = syncing::round(t, c, s, opts, first).0;
    let (t1, trees) = discovery::trees_of(t, s);
    let trees = trees->Ok_0;
    let (t2, prs) = engine::gathered(t1, s);
    let prs = prs->Ok_0;
    let t3 = if first {
        upgrade::reject_from(t2, c, s, prs, opts.only_layer, 0).0
    } else {
        t2
    };
    let (t4, decision) = engine::decided(t3, s, prs, trees, opts);
    let decision = decision->Ok_0;
    let cx = ContextView { config: c, stack: s, prs, trees, decision, opts };
    let checks = engine::checks_from(t3, s, prs, trees, opts, 0, Seq::empty()).1->Ok_0;
    assert(syncing::round(t, c, s, opts, first) == execution::executed(t4, cx));
    let g = Ground { before, world, start: t4, to, checks };
    rest::lemma_whole(t4, cx);
    tape::lemma_only_trans(t4, end, to, any);
    tape::lemma_only_start(t, look);
    discovery::lemma_trees_of_only(t, t, s, look);
    engine::lemma_gathered_only(t, t1, s, look);
    tape::lemma_only_start(t1, look);
    engine::lemma_gathered_only(t1, t1, s, look);
    tape::lemma_only_start(t2, look);
    upgrade::lemma_reject_from_only(t, t2, c, s, prs, opts.only_layer, 0, look);
    upgrade::lemma_reject_from_only(t2, t2, c, s, prs, opts.only_layer, 0, look);
    engine::lemma_decided_only(t, t3, s, prs, trees, opts, look);
    engine::lemma_decided_only(t2, t3, s, prs, trees, opts, look);
    tape::lemma_only_start(t3, look);
    engine::lemma_decided_only(t3, t3, s, prs, trees, opts, look);
    lemma_weaker(t1, t2, look);
    lemma_weaker(t2, t4, look);
    lemma_weaker(t3, t4, look);
    tape::lemma_only_trans(t2, t4, to, any);
    tape::lemma_only_trans(t3, t4, to, any);
    tape::lemma_only_trans(t1, t2, to, any);
    memory::lemma_steady(before, world, t, to);
    assert(rest::hears_steady(t, t1, world)) by {
        assert forall|k: int|
            t.asked.len() <= k < t1.asked.len() && k < t1.replies.len() && rest::steady(
                #[trigger] t1.asked[k],
            ) implies t1.replies[k] == world(t1.asked[k]) by {
            assert(to.asked[k] == t1.asked[k]);
        }
    }
    rest::lemma_trees(
        t,
        t,
        s,
        0,
        TreesView { effective: Seq::empty(), dep: Seq::empty() },
        world,
    );
    engine::lemma_gathered(t1, s, 0, Seq::empty());
    engine::law_decision_is_warranted(t3, s, prs, trees, opts);
    assert(placing::trees_of_world(world, cx));
    assert forall|k: int| 0 <= k < prs.len() implies match #[trigger] prs[k] {
        Some(pr) => s.layers[k].pr == Some(pr.number) && placing::aware(g, pr.head_oid)
            && memory::alike(pr, memory::pr_at(before, to, t4.asked.len() as int, pr.number))
            && memory::named(to, t4.asked.len() as int, pr.number) && pr.head_oid == memory::tip_at(
            before,
            to,
            t4.asked.len() as int,
            pr.head,
        ) && (pr.base_oid != oid::zero_oid() ==> pr.base_oid == memory::tip_at(
            before,
            to,
            t4.asked.len() as int,
            pr.base,
        )),
        None => s.layers[k].pr is None,
    } by {
        lemma_gathered(t1, s, 0, Seq::empty(), k);
        if let Some(pr) = prs[k] {
            lemma_asked_for(before, world, t1, t2, t4, to, s.layers[k].pr->0, pr);
        }
    }
    assert forall|i: int| 0 <= i < s.layers.len() implies #[trigger] placing::judged(g, cx, i) by {
        assert(prs[i] is Some || prs[i] is None);
        if prs[i] is Some {
            lemma_judged(g, t3, cx, i);
        }
    }
    g
}

/// Less may be said of a stretch.
pub proof fn lemma_weaker(from: TapeView, to: TapeView, allowed: spec_fn(RequestView) -> bool)
    requires
        tape::only(from, to, allowed),
    ensures
        tape::only(from, to, |q: RequestView| true),
{
}

/// A pull request that the forge was asked for is the one that is there.
pub proof fn lemma_asked_for(
    before: spec_fn(RequestView) -> ReplyView,
    world: spec_fn(RequestView) -> ReplyView,
    t1: TapeView,
    t2: TapeView,
    t4: TapeView,
    to: TapeView,
    number: u64,
    pr: PrView,
)
    requires
        memory::remembers(before, world, to),
        memory::told_since(t1, t2, RequestView::GetPullRequest { number }, ReplyView::Pr(pr)),
        tape::only(t1, t2, |q: RequestView| looks(q)),
        tape::only(t2, t4, |q: RequestView| looks(q)),
        tape::only(t4, to, |q: RequestView| true),
    ensures
        pr.number == number,
        memory::knew(t4, t4.asked.len() as int, pr.head_oid),
        memory::alike(pr, memory::pr_at(before, to, t4.asked.len() as int, number)),
        memory::named(to, t4.asked.len() as int, number),
        pr.head_oid == memory::tip_at(before, to, t4.asked.len() as int, pr.head),
        pr.base_oid != oid::zero_oid() ==> pr.base_oid == memory::tip_at(
            before,
            to,
            t4.asked.len() as int,
            pr.base,
        ),
{
    let q = RequestView::GetPullRequest { number };
    let x = choose|x: int|
        t1.asked.len() <= x < t2.asked.len() && x < t2.replies.len() && #[trigger] t2.asked[x] == q
            && t2.replies[x] == ReplyView::Pr(pr);
    assert(t4.asked[x] == q);
    assert(to.asked[x] == q);
    assert(memory::shows_commit(t4.asked[x], t4.replies[x], pr.head_oid));
    assert(memory::recalls(before, world, to, x, to.asked[x], to.replies[x]));
    assert(memory::names(to.asked[x], to.replies[x], number));
    let look = |q: RequestView| looks(q);
    assert forall|y: int| x <= y < t4.asked.len() implies looks(#[trigger] to.asked[y]) by {
        assert(to.asked[y] == t4.asked[y]);
        if y < t2.asked.len() {
            assert(t4.asked[y] == t2.asked[y]);
            assert(look(t2.asked[y]));
        } else {
            assert(look(t4.asked[y]));
        }
    }
    lemma_looked(before, to, x, t4.asked.len() as int, number);
    memory::lemma_tip_stays(before, to, x, t4.asked.len() as int, pr.head);
    memory::lemma_tip_stays(before, to, x, t4.asked.len() as int, pr.base);
}

/// A layer with a pull request was looked at.
#[verifier::rlimit(60)]
pub proof fn lemma_judged(g: Ground, t: TapeView, cx: ContextView, i: int)
    requires
        execution::coherent(cx),
        lineage::has_history(g.world),
        memory::remembers(g.before, g.world, g.to),
        tape::only(g.start, g.to, |q: RequestView| true),
        0 <= i < cx.stack.layers.len(),
        cx.prs[i] is Some,
        placing::aware(g, (cx.prs[i]->0).head_oid),
        engine::decided(t, cx.stack, cx.prs, cx.trees, cx.opts).0 == g.start,
        engine::decided(t, cx.stack, cx.prs, cx.trees, cx.opts).1 is Ok,
        g.checks == engine::checks_from(
            t,
            cx.stack,
            cx.prs,
            cx.trees,
            cx.opts,
            0,
            Seq::empty(),
        ).1->Ok_0,
    ensures
        placing::judged(g, cx, i),
{
    let any = |q: RequestView| true;
    let look = |q: RequestView| looks(q);
    assert(tape::may_look(look));
    let s = cx.stack;
    let opts = cx.opts;
    let pr = cx.prs[i]->0;
    let (t1, checks) = engine::checks_from(t, s, cx.prs, cx.trees, opts, 0, Seq::empty());
    let push = g.checks.map_values(|c: LayerCheck| c.push);
    tape::lemma_only_start(t1, look);
    engine::lemma_restack_below_only(
        t1,
        t1,
        s,
        cx.prs,
        cx.trees,
        s.layers.len() as int,
        push,
        look,
    );
    assert(tape::only(t1, g.start, look));
    let at = engine::lemma_check_of(t, s, cx.prs, cx.trees, opts, 0, Seq::empty(), i);
    let (after, check) = engine::layer_check(at, s, cx.prs, cx.trees, opts, i);
    assert(tape::only(after, t1, look));
    tape::lemma_only_trans(after, t1, g.start, look);
    lemma_weaker(after, g.start, look);
    tape::lemma_only_trans(after, g.start, g.to, any);
    if engine::in_scope(opts, i) && engine::remote_base_tip(s, cx.prs, i) is Some {
        let stop = engine::remote_base_tip(s, cx.prs, i)->0;
        let dep = cx.trees.dep[i];
        let content = cx.trees.effective[i];
        let settles = engine::may_settle(s, opts, i);
        let message = s.layers[i].message;
        memory::lemma_steady(g.before, g.world, at, g.to);
        findings::lemma_means(
            at,
            at,
            pr,
            message,
            stop,
            dep,
            content,
            opts,
            settles,
            g.to,
            g.world,
        );
        let root = history::root_commit(at, pr, stop).1->Ok_0;
        tape::lemma_only_start(at, look);
        engine::lemma_layer_check_only(at, at, s, cx.prs, cx.trees, opts, i, look);
        tape::lemma_only_trans(at, after, g.start, look);
        lemma_rooted(g, at, pr, stop);
        assert(placing::recorded(g, pr.number) matches Some(commit) ==> placing::aware(g, commit)) by {
            if let Some(commit) = placing::recorded(g, pr.number) {
                let q0 = RequestView::ReferenceTarget { name: refs::root_ref(pr.number) };
                let k = at.asked.len() as int;
                rest::lemma_root_goes_on(at, pr, stop);
                let t0 = tape::ask(at, q0).0;
                assert(t0.asked[k] == q0);
                tape::lemma_only_trans(t0, history::root_commit(at, pr, stop).0, g.to, any);
                assert(g.to.asked[k] == q0);
                assert(g.start.asked[k] == g.to.asked[k]);
                assert(memory::shows_commit(g.start.asked[k], g.start.replies[k], commit));
            }
        }
        placing::lemma_is_root(
            g.world,
            placing::recorded(g, pr.number),
            at,
            pr,
            stop,
        );
        assert(placing::aware(g, stop)) by {
            let q = RequestView::TreeOf { commit: stop };
            let r = ReplyView::Object(rest::tree_in(g.world, stop));
            tape::lemma_said_stays(after, g.start, any);
            assert(tape::told(g.start, q, r));
            let k = choose|k: int|
                0 <= k < g.start.asked.len() && k < g.start.replies.len()
                    && #[trigger] g.start.asked[k] == q && g.start.replies[k] == r;
            assert(memory::shows_commit(g.start.asked[k], g.start.replies[k], stop));
        }
        assert(placing::judged_with(g, cx, i, root));
    }
}

/// The first commit of a branch was looked for where nothing changes any more.
pub proof fn lemma_rooted(g: Ground, at: TapeView, pr: PrView, stop: Oid)
    requires
        memory::remembers(g.before, g.world, g.to),
        tape::only(at, g.start, |q: RequestView| looks(q)),
        tape::only(g.start, g.to, |q: RequestView| true),
        history::root_commit(at, pr, stop).1 is Ok,
        tape::only(history::root_commit(at, pr, stop).0, g.to, |q: RequestView| true),
    ensures
        placing::rooted_from(g.world, placing::recorded(g, pr.number), at, pr, stop),
{
    let any = |q: RequestView| true;
    let look = |q: RequestView| looks(q);
    let end = history::root_commit(at, pr, stop).0;
    let q0 = RequestView::ReferenceTarget { name: refs::root_ref(pr.number) };
    let (t0, r0) = tape::ask_maybe_object(at, q0);
    rest::lemma_root_goes_on(at, pr, stop);
    tape::lemma_only_trans(t0, end, g.to, any);
    memory::lemma_recalled(g.before, g.world, at, q0, g.to);
    let m = at.asked.len() as int;
    let k = g.start.asked.len() as int;
    assert forall|x: int| m <= x < k implies !(#[trigger] g.to.asked[x] matches RequestView::SetReference {
        name: set,
        ..
    } && set == refs::root_ref(pr.number)) by {
        assert(g.to.asked[x] == g.start.asked[x]);
        assert(look(g.start.asked[x]));
    }
    memory::lemma_ref_stays(g.before, g.to, m, k, refs::root_ref(pr.number));
    memory::lemma_steady(g.before, g.world, at, g.to);
    assert forall|x: int|
        at.asked.len() <= x < end.asked.len() && x < end.replies.len() && rest::steady(
            #[trigger] end.asked[x],
        ) implies end.replies[x] == (g.world)(end.asked[x]) by {
        assert(g.to.asked[x] == end.asked[x]);
    }
}

/// No two pull requests have the same branch.
pub open spec fn apart(world: spec_fn(RequestView) -> ReplyView, again: StackView) -> bool {
    forall|i: int, j: int|
        0 <= i < j < again.layers.len() && again.layers[i].pr is Some && again.layers[j].pr is Some
            ==> (#[trigger] rest::pr_in(world, again, i)).head != (
        #[trigger] rest::pr_in(world, again, j)).head
}

/// The stack as it is found again after a run: the same patches on the same base, linked
/// to the pull requests that it had or that the run opened, and with messages that differ
/// in what belongs to the review alone.
pub open spec fn found_again(
    world: spec_fn(RequestView) -> ReplyView,
    before: StackView,
    after: StackView,
    again: StackView,
) -> bool {
    &&& again.base == before.base
    &&& again.layers.len() == before.layers.len() == after.layers.len()
    &&& forall|i: int| #![trigger again.layers[i]]
        0 <= i < again.layers.len() ==> {
            &&& again.layers[i].dep == before.layers[i].dep
            &&& again.layers[i].pr == after.layers[i].pr
            &&& findings::branch_text(again.layers[i].message) == findings::branch_text(
                before.layers[i].message,
            )
            &&& rest::tree_in(world, again.layers[i].commit) == rest::tree_in(
                world,
                before.layers[i].commit,
            )
            &&& rest::tree_in(world, again.layers[i].parent) == rest::tree_in(
                world,
                before.layers[i].parent,
            )
        }
}

pub proof fn lemma_same_content(
    world: spec_fn(RequestView) -> ReplyView,
    before: StackView,
    after: StackView,
    again: StackView,
    i: int,
)
    requires
        found_again(world, before, after, again),
        stack::well_formed(before),
        0 <= i < before.layers.len(),
    ensures
        rest::content_in(world, again, i) == rest::content_in(world, before, i),
        rest::dep_in(world, again, i) == rest::dep_in(world, before, i),
    decreases i,
{
    assert(again.layers[i].dep == before.layers[i].dep);
    match before.layers[i].dep {
        Dep::Layer(j) => {
            lemma_same_content(world, before, after, again, j as int);
        },
        _ => {},
    }
}

/// The head of a pull request that was there is the head that it has in the end.
pub proof fn lemma_head_kept(g: Ground, cx: ContextView, k: int, pr: PrView)
    requires
        memory::remembers(g.before, g.world, g.to),
        tape::only(g.start, g.to, |q: RequestView| true),
        telling::answered(g.to),
        telling::found(g.before, g.to, g.start, cx),
        0 <= k < cx.prs.len(),
        cx.prs[k] == Some(pr),
    ensures
        (g.world)(RequestView::GetPullRequest { number: pr.number })->Pr_0.head == pr.head,
{
    let m = g.start.asked.len() as int;
    let n = g.to.asked.len() as int;
    assert(cx.prs[k] is Some);
    assert forall|x: int| m <= x < n implies !(#[trigger] g.to.asked[x] is CreatePullRequest
        && g.to.replies[x] == ReplyView::Number(pr.number)) by {
        assert(memory::recalls(g.before, g.world, g.to, x, g.to.asked[x], g.to.replies[x]));
        let y = choose|y: int|
            0 <= y < m && y < g.to.replies.len() && memory::names(
                #[trigger] g.to.asked[y],
                g.to.replies[y],
                pr.number,
            );
        assert(memory::names(g.to.asked[y], g.to.replies[y], pr.number));
        if g.to.asked[x] is CreatePullRequest && g.to.replies[x] == ReplyView::Number(pr.number) {
            assert(memory::named(g.to, x, pr.number));
        }
    }
    memory::lemma_head_stays(g.before, g.to, m, n, pr.number);
    assert(memory::alike(
        (g.world)(RequestView::GetPullRequest { number: pr.number })->Pr_0,
        memory::pr_at(g.before, g.to, n, pr.number),
    ));
}

/// Where the branches differ in the end, they did so before.
pub proof fn lemma_apart(g: Ground, cx: ContextView, again: StackView)
    requires
        memory::remembers(g.before, g.world, g.to),
        tape::only(g.start, g.to, |q: RequestView| true),
        telling::answered(g.to),
        telling::found(g.before, g.to, g.start, cx),
        apart(g.world, again),
        again.layers.len() == cx.prs.len(),
        forall|k: int|
            0 <= k < cx.prs.len() ==> (#[trigger] cx.prs[k] matches Some(pr)
                ==> again.layers[k].pr == Some(pr.number)),
    ensures
        telling::distinct_numbers(cx.prs),
        execution::distinct_heads(cx.prs),
{
    assert forall|i: int, j: int|
        0 <= i < j < cx.prs.len() && (#[trigger] cx.prs[i]) is Some && (
        #[trigger] cx.prs[j]) is Some implies (cx.prs[i]->0).number != (cx.prs[j]->0).number && (
    cx.prs[i]->0).head != (cx.prs[j]->0).head by {
        lemma_head_kept(g, cx, i, cx.prs[i]->0);
        lemma_head_kept(g, cx, j, cx.prs[j]->0);
        assert(rest::pr_in(g.world, again, i).head != rest::pr_in(g.world, again, j).head);
    }
}

/// Whatever is pushed and not left behind goes where it belongs.
pub proof fn lemma_all_pushed(
    t: TapeView,
    cx: ContextView,
    i: int,
    p: PlacementView,
    q: PlacementView,
)
    requires
        execution::coherent(cx),
        0 <= i <= cx.stack.layers.len(),
        execution::placed(p, i),
        execution::place_from(t, cx, i, p).1 == Ok::<PlacementView, HaltView>(q),
        !q.staged,
        forall|k: int|
            0 <= k < i && #[trigger] cx.decision.push[k] ==> telling::among_pushes(p, k),
    ensures
        forall|k: int|
            0 <= k < cx.stack.layers.len() && #[trigger] cx.decision.push[k]
                ==> telling::among_pushes(q, k),
    decreases cx.stack.layers.len() - i,
{
    if i < cx.stack.layers.len() {
        let base = execution::base_of(cx, p, i);
        let (t1, spot) = execution::spot_of(t, cx, p, i, base.0, base.1);
        let spot = spot->Ok_0;
        let (t2, saved) = execution::rescued_from(t1, cx, spot, 0, p);
        let saved = saved->Ok_0;
        execution::lemma_rescued_from(t1, cx, spot, 0, p);
        let next = execution::with_spot(execution::reserve(cx, i, saved, spot), base.1, spot);
        assert(execution::place_from(t, cx, i, p) == execution::place_from(t2, cx, i + 1, next));
        placing::lemma_extends(t2, cx, i + 1, next);
        assert(!next.staged);
        assert forall|k: int| 0 <= k < i + 1 && #[trigger] cx.decision.push[k] implies
            telling::among_pushes(next, k) by {
            if k < i {
                assert(telling::among_pushes(p, k));
                let m = choose|m: int|
                    0 <= m < p.push_specs.len() && placing::pushes(
                        #[trigger] p.push_specs[m],
                        p.branches[k],
                        p.tips[k],
                    );
                assert(next.push_specs[m] == p.push_specs[m]);
            } else {
                if let Some(pr) = cx.prs[i] {
                    placing::lemma_moved_pushes(t, cx, p, i, pr, base.0, base.1);
                }
                let m = saved.push_specs.len() as int;
                assert(placing::pushes(next.push_specs[m], next.branches[k], next.tips[k]));
            }
        }
        lemma_all_pushed(t2, cx, i + 1, next, q);
    }
}

/// The pull request of layer `k` has the base it is to have.
pub open spec fn based(cx: ContextView, k: int) -> bool {
    cx.prs[k] matches Some(pr) && match cx.stack.layers[k].dep {
        Dep::Layer(j) => cx.prs[j as int] matches Some(below) && pr.base == below.head,
        _ => pr.base == cx.config.trunk,
    }
}

/// Where every pull request has the base it is to have, no branch is left behind.
pub proof fn lemma_nothing_left_behind(t: TapeView, cx: ContextView, i: int, p: PlacementView)
    requires
        execution::coherent(cx),
        0 <= i <= cx.stack.layers.len(),
        execution::placed(p, i),
        !p.staged,
        forall|k: int| 0 <= k < i ==> !#[trigger] p.held[k],
        forall|k: int|
            0 <= k < i ==> (#[trigger] cx.prs[k] matches Some(pr) ==> p.branches[k] == pr.head),
        forall|k: int|
            0 <= k < cx.stack.layers.len() && #[trigger] cx.decision.push[k] && cx.prs[k] is Some
                ==> based(cx, k),
        execution::place_from(t, cx, i, p).1 is Ok,
    ensures
        !(execution::place_from(t, cx, i, p).1->Ok_0).staged,
    decreases cx.stack.layers.len() - i,
{
    if i < cx.stack.layers.len() {
        let base = execution::base_of(cx, p, i);
        let (t1, spot) = execution::spot_of(t, cx, p, i, base.0, base.1);
        let spot = spot->Ok_0;
        let (t2, saved) = execution::rescued_from(t1, cx, spot, 0, p);
        let saved = saved->Ok_0;
        execution::lemma_rescued_from(t1, cx, spot, 0, p);
        let next = execution::with_spot(execution::reserve(cx, i, saved, spot), base.1, spot);
        if cx.decision.push[i] && cx.prs[i] is Some {
            assert(based(cx, i));
            let pr = cx.prs[i]->0;
            match cx.stack.layers[i].dep {
                Dep::Layer(j) => {
                    assert(j < i);
                    assert(cx.prs[j as int] is Some);
                    assert(!p.held[j as int]);
                },
                _ => {},
            }
            assert(pr.base == base.1);
            placing::lemma_moved_pushes(t, cx, p, i, pr, base.0, base.1);
        }
        lemma_nothing_left_behind(t2, cx, i + 1, next);
    }
}

/// The last round of a run, with the world that it leaves behind.
pub open spec fn is_final(
    g: Ground,
    t: TapeView,
    s: StackView,
    cx: ContextView,
    c: Course,
) -> bool {
    let (end, e) = execution::executed(g.start, cx);
    &&& prepared(g, t, s, cx)
    &&& cx.stack == s
    &&& e is Ok
    &&& end == g.to
    &&& telling::answered(g.to)
    &&& telling::ran(g.start, cx, c)
    &&& c.warn == rest::warn_in(g.world, cx.opts.preserve_commit_history)
    &&& !telling::places(g.start, cx).staged
}

/// The last round of a run, and the stack as it is found then.
pub open spec fn is_last(
    g: Ground,
    t: TapeView,
    s: StackView,
    cx: ContextView,
    c: Course,
    again: StackView,
) -> bool {
    &&& is_final(g, t, s, cx, c)
    &&& apart(g.world, again)
    &&& found_again(
        g.world,
        cx.stack,
        (execution::executed(g.start, cx).1->Ok_0).stack,
        again,
    )
}

/// The pull request of layer `i` in the end.
pub proof fn lemma_pr_after(
    g: Ground,
    t: TapeView,
    s: StackView,
    cx: ContextView,
    c: Course,
    again: StackView,
    i: int,
)
    requires
        is_last(g, t, s, cx, c, again),
        0 <= i < cx.stack.layers.len(),
        execution::has_branch(cx, i),
    ensures
        ({
            let p = telling::places(g.start, cx);
            let pr = rest::pr_in(g.world, again, i);
            let after = (execution::executed(g.start, cx).1->Ok_0).stack;
            &&& again.layers[i].pr == Some(telling::number_of(cx, after, i))
            &&& telling::left_as_told(pr, cx, p, after, c.warn, i)
            &&& pr.head_oid == p.tips[i]
        }),
{
    let any = |q: RequestView| true;
    let p = telling::places(g.start, cx);
    let after = (execution::executed(g.start, cx).1->Ok_0).stack;
    assert forall|k: int| 0 <= k < cx.prs.len() implies (#[trigger] cx.prs[k] matches Some(pr)
        ==> again.layers[k].pr == Some(pr.number)) by {
        assert(again.layers[k].pr == after.layers[k].pr);
    }
    lemma_apart(g, cx, again);
    tape::lemma_only_start(g.to, any);
    telling::lemma_state(g.before, g.world, g.start, cx, c, g.to, i);
    let number = telling::number_of(cx, after, i);
    assert(memory::alike(
        (g.world)(RequestView::GetPullRequest { number })->Pr_0,
        memory::pr_at(g.before, g.to, g.to.asked.len() as int, number),
    ));
    assert(again.layers[i].pr == after.layers[i].pr);
    if cx.prs[i] is None {
        assert(telling::announced(c.mid, g.to, cx, p, c.warn, after, i));
    }
    lemma_all_pushed(g.start, cx, 0, execution::empty_placement(cx), p);
    if cx.decision.push[i] {
        assert(telling::among_pushes(p, i));
    } else {
        assert(cx.prs[i] is Some);
    }
}

/// What layer `i` sits on in the end.
pub proof fn lemma_base_after(
    g: Ground,
    t: TapeView,
    s: StackView,
    cx: ContextView,
    c: Course,
    again: StackView,
    i: int,
)
    requires
        is_last(g, t, s, cx, c, again),
        0 <= i < cx.stack.layers.len(),
        engine::in_scope(cx.opts, i),
    ensures
        ({
            let p = telling::places(g.start, cx);
            &&& execution::has_branch(cx, i)
            &&& rest::base_tip_in(g.world, again, i) == execution::base_of(cx, p, i).0
            &&& rest::base_branch_in(g.world, cx.config, again, i) == p.base_branches[i]
        }),
{
    assert(again.layers[i].dep == cx.stack.layers[i].dep);
    assert(engine::warranted(cx.stack, cx.prs, cx.opts, g.checks, cx.decision, i));
    assert(placing::judged(g, cx, i));
    match cx.stack.layers[i].dep {
        Dep::Layer(j) => lemma_pr_after(g, t, s, cx, c, again, j as int),
        _ => {},
    }
}

/// All layers of the last round have their places.
pub proof fn lemma_all_seated(
    g: Ground,
    t: TapeView,
    s: StackView,
    cx: ContextView,
    c: Course,
    again: StackView,
)
    requires
        is_last(g, t, s, cx, c, again),
        forall|i: int|
            0 <= i < cx.stack.layers.len() && engine::in_scope(cx.opts, i)
                && #[trigger] cx.decision.push[i] ==> placing::portable(
                g.world,
                g.to,
                cx,
                rest::base_tip_in(g.world, again, i),
                i,
            ),
    ensures
        forall|i: int|
            0 <= i < cx.stack.layers.len() ==> #[trigger] placing::seated(
                g,
                cx,
                telling::places(g.start, cx),
                i,
            ),
{
    let p = telling::places(g.start, cx);
    assert forall|k: int|
        0 <= k < cx.stack.layers.len() && engine::in_scope(cx.opts, k)
            && #[trigger] cx.decision.push[k] implies placing::portable(
        g.world,
        g.to,
        cx,
        execution::base_of(cx, p, k).0,
        k,
    ) by {
        lemma_base_after(g, t, s, cx, c, again, k);
    }
    tape::lemma_only_start(
        g.start,
        |r: RequestView| placing::calm(cx.prs, p.base_branches, p.retargeted_early, r),
    );
    placing::lemma_seats(g.start, cx, 0, execution::empty_placement(cx), p, g);
}

/// What is displayed of layer `i` in the end is its own patch.
pub proof fn lemma_displayed(
    g: Ground,
    t: TapeView,
    s: StackView,
    cx: ContextView,
    c: Course,
    again: StackView,
    i: int,
)
    requires
        is_last(g, t, s, cx, c, again),
        forall|k: int|
            0 <= k < cx.stack.layers.len() ==> #[trigger] placing::seated(
                g,
                cx,
                telling::places(g.start, cx),
                k,
            ),
        0 <= i < cx.stack.layers.len(),
        engine::in_scope(cx.opts, i),
    ensures
        rest::displays(
            g.world,
            rest::base_tip_in(g.world, again, i),
            rest::pr_in(g.world, again, i).head_oid,
            rest::dep_in(g.world, again, i),
            rest::content_in(g.world, again, i),
        ),
{
    let p = telling::places(g.start, cx);
    let after = (execution::executed(g.start, cx).1->Ok_0).stack;
    lemma_base_after(g, t, s, cx, c, again, i);
    lemma_pr_after(g, t, s, cx, c, again, i);
    lemma_same_content(g.world, cx.stack, after, again, i);
    assert(cx.trees.dep[i] == rest::dep_in(g.world, cx.stack, i));
    assert(cx.trees.effective[i] == rest::content_in(g.world, cx.stack, i));
    assert(placing::seated(g, cx, p, i));
    if !cx.decision.push[i] {
        lemma_left_alone(g, t, s, cx, c, again, i);
    }
}

/// A layer that is left alone parts from what is below it where it did before.
pub proof fn lemma_left_alone(
    g: Ground,
    t: TapeView,
    s: StackView,
    cx: ContextView,
    c: Course,
    again: StackView,
    i: int,
)
    requires
        is_last(g, t, s, cx, c, again),
        forall|k: int|
            0 <= k < cx.stack.layers.len() ==> #[trigger] placing::seated(
                g,
                cx,
                telling::places(g.start, cx),
                k,
            ),
        0 <= i < cx.stack.layers.len(),
        !cx.decision.push[i],
        engine::in_scope(cx.opts, i),
    ensures
        ({
            let p = telling::places(g.start, cx);
            let base = execution::base_of(cx, p, i).0;
            let pr = cx.prs[i]->0;
            let stop = engine::remote_base_tip(cx.stack, cx.prs, i)->0;
            &&& cx.prs[i] is Some
            &&& engine::remote_base_tip(cx.stack, cx.prs, i) is Some
            &&& exists|root: Option<Oid>| #[trigger] placing::judged_with(g, cx, i, root)
            &&& !g.checks[i].push
            &&& (g.world)(RequestView::MergeBase { a: base, b: pr.head_oid }) == (g.world)(
                RequestView::MergeBase { a: stop, b: pr.head_oid },
            )
            &&& base == stop || (lineage::stems(g.world, base, stop) && !lineage::reaches(
                g.world,
                base,
                pr.head_oid,
            ) && (cx.stack.layers[i].dep matches Dep::Layer(j) && cx.decision.push[j as int] && stop
                == (cx.prs[j as int]->0).head_oid))
            &&& rest::displays(
                g.world,
                base,
                pr.head_oid,
                cx.trees.dep[i],
                cx.trees.effective[i],
            )
        }),
{
    let p = telling::places(g.start, cx);
    let base = execution::base_of(cx, p, i).0;
    assert(placing::judged(g, cx, i));
    assert(engine::warranted(cx.stack, cx.prs, cx.opts, g.checks, cx.decision, i));
    let pr = cx.prs[i]->0;
    let stop = engine::remote_base_tip(cx.stack, cx.prs, i)->0;
    let root = choose|root: Option<Oid>| #[trigger] placing::judged_with(g, cx, i, root);
    assert(placing::judged_with(g, cx, i, root));
    match cx.stack.layers[i].dep {
        Dep::Layer(j) => {
            assert(placing::seated(g, cx, p, j as int));
            if cx.decision.push[j as int] {
                assert(engine::in_scope(cx.opts, j as int)) by {
                    if let Some(x) = cx.opts.only_layer {
                        assert(cx.decision.push[x as int]);
                    }
                }
                assert(!cx.decision.rewrite_history[j as int]);
                assert(placing::added(g, cx, base, j as int));
                assert(placing::aware(g, pr.head_oid));
                lineage::lemma_grows(g.world, base, stop, pr.head_oid);
            }
        },
        _ => {},
    }
}

/// Where the rounds of a run begin: the conversation, the stack and the options.
pub open spec fn linked(t: TapeView, c: ConfigView, s: StackView, opts: OptionsView) -> (
    TapeView,
    StackView,
    OptionsView,
) {
    let (t1, resolved) = syncing::externals_from(t, s, 0);
    let (t2, stack) = syncing::relinked(t1, c, opts, resolved->Ok_0);
    let (t3, settings) = tape::ask_settings(t2, RequestView::MergeSettings);
    (
        t3,
        stack->Ok_0,
        OptionsView {
            preserve_commit_history: config::preserve_resolved(
                c.preserve_commit_history,
                settings->Ok_0,
            ),
            relink_asked: true,
            ..opts
        },
    )
}

/// Where the last round of a run begins, and whether it is the first one.
pub open spec fn last_round(t: TapeView, c: ConfigView, s: StackView, opts: OptionsView) -> (
    TapeView,
    StackView,
    OptionsView,
    bool,
) {
    let (t1, stack, full) = linked(t, c, s, opts);
    let (t2, first) = syncing::round(t1, c, stack, full, true);
    if (first->Ok_0).staged {
        (t2, (first->Ok_0).stack, syncing::catch_up_options(full), false)
    } else {
        (t1, stack, full, true)
    }
}

/// Where the last decision of a run is carried out, and what is given then.
pub open spec fn last_context(t: TapeView, c: ConfigView, s: StackView, opts: OptionsView) -> (
    TapeView,
    ContextView,
) {
    let (at, stack, full, first) = last_round(t, c, s, opts);
    context(at, c, stack, full, first)
}

/// Where the first decision of a run is carried out, and what is given then.
pub open spec fn first_context(t: TapeView, c: ConfigView, s: StackView, opts: OptionsView) -> (
    TapeView,
    ContextView,
) {
    let (at, stack, full) = linked(t, c, s, opts);
    context(at, c, stack, full, true)
}

/// Where one layer alone is synced, everything beneath it has a pull request or gets one.
pub open spec fn backed(cx: ContextView) -> bool {
    cx.opts.only_layer matches Some(x) ==> forall|k: int|
        0 <= k < cx.stack.layers.len() && x < cx.stack.layers.len() && #[trigger] engine::beneath(
            cx.stack,
            x as int,
            k,
        ) ==> execution::has_branch(cx, k)
}

/// A run that ends well has got all its replies.
pub proof fn lemma_answered(t: TapeView, cx: ContextView)
    requires
        execution::executed(t, cx).1 is Ok,
    ensures
        telling::answered(execution::executed(t, cx).0),
{
    let p = execution::place_from(t, cx, 0, execution::empty_placement(cx)).1->Ok_0;
    let t1 = execution::place_from(t, cx, 0, execution::empty_placement(cx)).0;
    let (t2, q) = if cx.config.draft_while_retargeting {
        execution::draft_from(t1, cx, 0, p)
    } else {
        tape::done(t1, p)
    };
    let q = q->Ok_0;
    assert(execution::executed(t, cx) == execution::pushed(t2, cx, q));
    let (t3, u) = if q.push_specs.len() > 0 {
        tape::ask_unit(t2, RequestView::Push { specs: q.push_specs })
    } else {
        tape::done(t2, ())
    };
    let (t4, w) = execution::warns(t3, cx.opts);
    let (t5, st) = execution::announce_from(t4, cx, q, w->Ok_0, 0, execution::start_of(cx));
    let st = st->Ok_0;
    assert(execution::executed(t, cx) == execution::concluded(t5, q, st));
}

/// Two ways to write a dependency on the trunk are one.
pub proof fn lemma_settled_same(world: spec_fn(RequestView) -> ReplyView, s: StackView, i: int)
    requires
        stack::well_formed(s),
        0 <= i < s.layers.len(),
    ensures
        rest::dep_in(world, syncing::settled(s), i) == rest::dep_in(world, s, i),
        rest::content_in(world, syncing::settled(s), i) == rest::content_in(world, s, i),
        rest::base_tip_in(world, syncing::settled(s), i) == rest::base_tip_in(world, s, i),
        rest::pr_in(world, syncing::settled(s), i) == rest::pr_in(world, s, i),
    decreases i,
{
    let rested = syncing::settled(s);
    assert(rested.layers[i] == syncing::settled_layer(s.layers[i]));
    match s.layers[i].dep {
        Dep::Layer(j) => {
            assert(rested.layers[j as int] == syncing::settled_layer(s.layers[j as int]));
            lemma_settled_same(world, s, j as int);
        },
        _ => {},
    }
}

/// What a run that has come to its end leaves behind, and how the stack is found then:
/// `world` holds what the requests of the run have made of `before`, and `again` has the
/// same patches. No two layers have the same branch, and the patch of a layer that is
/// pushed stays itself where its branch goes.
pub open spec fn leaves(
    before: spec_fn(RequestView) -> ReplyView,
    world: spec_fn(RequestView) -> ReplyView,
    t: TapeView,
    c: ConfigView,
    s: StackView,
    opts: OptionsView,
    again: StackView,
) -> bool {
    let (to, r) = syncing::synced(t, c, s, opts);
    let cx = last_context(t, c, s, opts).1;
    &&& stack::well_formed(s)
    &&& stack::well_formed(again)
    &&& r is Ok
    &&& memory::remembers(before, world, to)
    &&& lineage::has_history(world)
    &&& backed(first_context(t, c, s, opts).1)
    &&& apart(world, again)
    &&& found_again(world, cx.stack, (r->Ok_0).stack, syncing::settled(again))
    &&& forall|i: int|
        0 <= i < cx.stack.layers.len() && engine::in_scope(opts, i)
            && #[trigger] cx.decision.push[i] ==> placing::portable(
            world,
            to,
            cx,
            rest::base_tip_in(world, again, i),
            i,
        )
}

/// How the last round of a run went.
pub struct Last {
    pub g: Ground,
    pub c: Course,
}

/// Whether the bodies are to say how the pull requests must be merged is what the world
/// says.
pub proof fn lemma_warn(
    before: spec_fn(RequestView) -> ReplyView,
    world: spec_fn(RequestView) -> ReplyView,
    t: TapeView,
    opts: OptionsView,
    to: TapeView,
)
    requires
        memory::remembers(before, world, to),
        execution::warns(t, opts).1 is Ok,
        tape::only(execution::warns(t, opts).0, to, |q: RequestView| true),
    ensures
        execution::warns(t, opts).1->Ok_0 == rest::warn_in(world, opts.preserve_commit_history),
{
    if opts.preserve_commit_history {
        memory::lemma_recalled(before, world, t, RequestView::MergeSettings, to);
    }
}

/// A stack that differs at most in the pull requests of its layers is as well formed.
pub proof fn lemma_formed(a: StackView, b: StackView)
    requires
        telling::same_layers(a, b),
        stack::well_formed(b),
    ensures
        stack::well_formed(a),
{
    assert forall|m: int| #![trigger a.layers[m]] 0 <= m < a.layers.len() implies (
    match a.layers[m].dep {
        Dep::Layer(j) => j < m,
        _ => true,
    }) by {
        assert(a.layers[m].dep == b.layers[m].dep);
        assert(match b.layers[m].dep {
            Dep::Layer(j) => j < m,
            _ => true,
        });
    }
}

/// A round that ends well has got all its replies.
pub proof fn lemma_round_answered(
    t: TapeView,
    c: ConfigView,
    s: StackView,
    opts: OptionsView,
    first: bool,
)
    requires
        syncing::round(t, c, s, opts, first).1 is Ok,
    ensures
        telling::answered(syncing::round(t, c, s, opts, first).0),
{
    let (t4, cx) = context(t, c, s, opts, first);
    assert(syncing::round(t, c, s, opts, first) == execution::executed(t4, cx));
    lemma_answered(t4, cx);
}

/// In the second round every pull request has the base it is to have.
#[verifier::rlimit(20)]
pub proof fn lemma_bases_changed(
    g1: Ground,
    t1: TapeView,
    s1: StackView,
    cx1: ContextView,
    c1: Course,
    g2: Ground,
    t2: TapeView,
    cx2: ContextView,
    k: int,
)
    requires
        prepared(g1, t1, s1, cx1),
        cx1.stack == s1,
        execution::executed(g1.start, cx1).1 is Ok,
        telling::ran(g1.start, cx1, c1),
        t2 == execution::executed(g1.start, cx1).0,
        cx2.stack == (execution::executed(g1.start, cx1).1->Ok_0).stack,
        cx2.config == cx1.config,
        prepared(g2, t2, cx2.stack, cx2),
        g2.before == g1.before,
        g2.world == g1.world,
        g2.to == g1.to,
        telling::answered(g1.to),
        telling::distinct_numbers(cx1.prs),
        execution::distinct_heads(cx1.prs),
        0 <= k < cx2.stack.layers.len(),
        execution::has_branch(cx1, k),
    ensures
        cx2.prs[k] matches Some(pr) && pr.base == telling::places(g1.start, cx1).base_branches[k]
            && pr.head == telling::places(g1.start, cx1).branches[k],
{
    let any = |q: RequestView| true;
    let look = |q: RequestView| looks(q);
    let after = cx2.stack;
    let p = telling::places(g1.start, cx1);
    let number = telling::number_of(cx1, after, k);
    assert(cx1.prs[k] is Some || cx1.prs[k] is None);
    assert(telling::announced(c1.mid, t2, cx1, p, c1.warn, after, k));
    assert(after.layers[k].pr == Some(number)) by {
        if cx1.prs[k] is Some {
            assert(after.layers[k].pr == cx1.stack.layers[k].pr);
        }
    }
    assert(cx2.prs[k] is Some || cx2.prs[k] is None);
    let pr = cx2.prs[k]->0;
    assert(pr.number == number);
    lemma_weaker(t2, g2.start, look);
    tape::lemma_only_trans(t2, g2.start, g2.to, any);
    telling::lemma_state(g1.before, g1.world, g1.start, cx1, c1, g1.to, k);
    assert forall|y: int| t2.asked.len() <= y < g2.start.asked.len() implies looks(
        #[trigger] g1.to.asked[y],
    ) by {
        assert(g2.to.asked[y] == g2.start.asked[y]);
        assert(look(g2.start.asked[y]));
    }
    lemma_looked(
        g1.before,
        g1.to,
        t2.asked.len() as int,
        g2.start.asked.len() as int,
        number,
    );
}

} // verus!
