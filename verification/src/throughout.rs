//! The law that holds throughout a run.

use vstd::prelude::*;

use crate::afterwards;
use crate::config::ConfigView;
use crate::discovery;
use crate::engine;
use crate::engine::OptionsView;
use crate::execution;
use crate::execution::{ContextView, PlacementView, ProgressView};
use crate::history;
use crate::lineage;
use crate::memory;
use crate::moments;
use crate::oid::Oid;
use crate::placing;
use crate::placing::Ground;
use crate::rest;
use crate::runs;
use crate::stack;
use crate::stack::{Dep, LayerView, StackView};
use crate::syncing;
use crate::tape;
use crate::tape::{HaltView, ReplyView, RequestView, TapeView};
use crate::telling;
use crate::telling::Course;
use crate::trailers::MessageView;

verus! {

/// Each commit of a stack sits on the one before it.
pub open spec fn linear(s: StackView) -> bool {
    forall|i: int| #![trigger s.layers[i]]
        0 <= i < s.layers.len() ==> s.layers[i].parent == (if i == 0 {
            s.base
        } else {
            s.layers[i - 1].commit
        })
}

/// The messages that are written into the local history leave the trees as they are.
proof fn lemma_rewritten_trees(
    t: TapeView,
    commits: Seq<(Oid, Seq<char>)>,
    i: int,
    parent: Oid,
    updating: bool,
    rewritten: Seq<Oid>,
    before: spec_fn(RequestView) -> ReplyView,
    to: TapeView,
    world: spec_fn(RequestView) -> ReplyView,
)
    requires
        memory::remembers(before, world, to),
        0 <= i <= commits.len(),
        rewritten.len() == i,
        forall|k: int|
            0 <= k < i ==> rest::tree_in(world, #[trigger] rewritten[k]) == rest::tree_in(
                world,
                commits[k].0,
            ),
        history::rewrite_from(t, commits, i, parent, updating, rewritten).1 is Ok,
        tape::only(
            history::rewrite_from(t, commits, i, parent, updating, rewritten).0,
            to,
            |q: RequestView| true,
        ),
    ensures
        ({
            let all = history::rewrite_from(t, commits, i, parent, updating, rewritten).1->Ok_0;
            &&& all.len() == commits.len()
            &&& forall|k: int|
                0 <= k < commits.len() ==> rest::tree_in(world, #[trigger] all[k])
                    == rest::tree_in(world, commits[k].0)
        }),
    decreases commits.len() - i,
{
    let any = |q: RequestView| true;
    if i < commits.len() {
        let end = history::rewrite_from(t, commits, i, parent, updating, rewritten).0;
        let commit = commits[i].0;
        let (t1, current) = tape::ask_text(t, RequestView::MessageOf { commit });
        let (t2, message) = history::written(t1, commits[i].1);
        let message = message->Ok_0;
        if updating || current->Ok_0 != message {
            let q1 = RequestView::TreeOf { commit };
            let (t3, tree) = tape::ask_object(t2, q1);
            let tree = tree->Ok_0;
            let q2 = RequestView::CopyCommit { original: commit, message, tree, parent };
            let (t4, new) = tape::ask_object(t3, q2);
            let new = new->Ok_0;
            let q3 = RequestView::PostRewrite { old: commit, new };
            let (t5, u) = tape::ask_unit(t4, q3);
            let next = rewritten.push(new);
            assert(history::rewrite_from(t, commits, i, parent, updating, rewritten)
                == history::rewrite_from(t5, commits, i + 1, new, true, next));
            tape::lemma_only_start(t3, any);
            tape::lemma_only_ask(t3, t3, q2, any);
            tape::lemma_only_start(t4, any);
            tape::lemma_only_ask(t4, t4, q3, any);
            tape::lemma_only_start(t5, any);
            assert(tape::may_write(any));
            history::lemma_rewrite_from_only(t5, t5, commits, i + 1, new, true, next, any);
            tape::lemma_only_trans(t5, end, to, any);
            tape::lemma_only_trans(t4, t5, to, any);
            tape::lemma_only_trans(t3, t4, to, any);
            memory::lemma_recalled(before, world, t2, q1, to);
            memory::lemma_recalled(before, world, t3, q2, to);
            lemma_rewritten_trees(
                t5,
                commits,
                i + 1,
                new,
                true,
                next,
                before,
                to,
                world,
            );
        } else {
            let next = rewritten.push(commit);
            assert(history::rewrite_from(t, commits, i, parent, updating, rewritten)
                == history::rewrite_from(t2, commits, i + 1, commit, false, next));
            lemma_rewritten_trees(
                t2,
                commits,
                i + 1,
                commit,
                false,
                next,
                before,
                to,
                world,
            );
        }
    }
}

/// Two stacks with the same trees.
pub open spec fn same_trees(
    world: spec_fn(RequestView) -> ReplyView,
    a: StackView,
    b: StackView,
) -> bool {
    &&& a.base == b.base
    &&& a.layers.len() == b.layers.len()
    &&& forall|k: int| #![trigger a.layers[k]]
        0 <= k < a.layers.len() ==> a.layers[k].dep == b.layers[k].dep && rest::tree_in(
            world,
            a.layers[k].commit,
        ) == rest::tree_in(world, b.layers[k].commit) && rest::tree_in(world, a.layers[k].parent)
            == rest::tree_in(world, b.layers[k].parent)
}

proof fn lemma_same_content(
    world: spec_fn(RequestView) -> ReplyView,
    a: StackView,
    b: StackView,
    i: int,
)
    requires
        same_trees(world, a, b),
        stack::well_formed(b),
        0 <= i < a.layers.len(),
    ensures
        rest::content_in(world, a, i) == rest::content_in(world, b, i),
        rest::dep_in(world, a, i) == rest::dep_in(world, b, i),
    decreases i,
{
    assert(a.layers[i].dep == b.layers[i].dep);
    match b.layers[i].dep {
        Dep::Layer(j) => {
            lemma_same_content(world, a, b, j as int);
        },
        _ => {},
    }
}

/// Telling the forge leaves the commits as they are.
proof fn lemma_announced_commits(
    t: TapeView,
    cx: ContextView,
    p: PlacementView,
    warn: bool,
    i: int,
    st: ProgressView,
)
    requires
        execution::coherent(cx),
        0 <= i <= cx.stack.layers.len(),
        st.stack.layers.len() == cx.stack.layers.len(),
        execution::announce_from(t, cx, p, warn, i, st).1 is Ok,
    ensures
        ({
            let s = (execution::announce_from(t, cx, p, warn, i, st).1->Ok_0).stack;
            &&& s.base == st.stack.base
            &&& s.layers.len() == st.stack.layers.len()
            &&& forall|k: int| #![trigger s.layers[k]]
                0 <= k < s.layers.len() ==> s.layers[k].commit == st.stack.layers[k].commit
                    && s.layers[k].parent == st.stack.layers[k].parent && s.layers[k].dep
                    == st.stack.layers[k].dep
        }),
    decreases cx.stack.layers.len() - i,
{
    if i < cx.stack.layers.len() {
        let s = (execution::announce_from(t, cx, p, warn, i, st).1->Ok_0).stack;
        let (t1, r) = match cx.prs[i] {
            None => if cx.decision.push[i] {
                execution::created(t, cx, p, warn, i, st)
            } else {
                tape::done(t, st)
            },
            Some(pr) => execution::refreshed(t, cx, p, warn, i, pr, st),
        };
        let next = r->Ok_0;
        assert(execution::announce_from(t, cx, p, warn, i, st) == execution::announce_from(
            t1,
            cx,
            p,
            warn,
            i + 1,
            next,
        ));
        lemma_announced_commits(t1, cx, p, warn, i + 1, next);
        assert forall|k: int| #![trigger s.layers[k]] 0 <= k < s.layers.len() implies
            s.layers[k].commit == st.stack.layers[k].commit && s.layers[k].parent
            == st.stack.layers[k].parent && s.layers[k].dep == st.stack.layers[k].dep by {
            assert(s.layers[k].commit == next.stack.layers[k].commit);
        }
    }
}

/// A round leaves the trees of a linear stack as they are.
proof fn lemma_round_trees(
    t: TapeView,
    cx: ContextView,
    before: spec_fn(RequestView) -> ReplyView,
    to: TapeView,
    world: spec_fn(RequestView) -> ReplyView,
)
    requires
        execution::coherent(cx),
        linear(cx.stack),
        memory::remembers(before, world, to),
        execution::executed(t, cx).1 is Ok,
        tape::only(execution::executed(t, cx).0, to, |q: RequestView| true),
    ensures
        same_trees(world, (execution::executed(t, cx).1->Ok_0).stack, cx.stack),
{
    let any = |q: RequestView| true;
    let (end, e) = execution::executed(t, cx);
    let after = (e->Ok_0).stack;
    let (t1, p) = execution::place_from(t, cx, 0, execution::empty_placement(cx));
    let p = p->Ok_0;
    let (t2, q) = if cx.config.draft_while_retargeting {
        execution::draft_from(t1, cx, 0, p)
    } else {
        tape::done(t1, p)
    };
    let q = q->Ok_0;
    assert(execution::executed(t, cx) == execution::pushed(t2, cx, q));
    let (t3, u) = if q.push_specs.len() > 0 {
        tape::ask_unit(t2, RequestView::Push { specs: q.push_specs })
    } else {
        tape::done(t2, ())
    };
    let (t4, w) = execution::warns(t3, cx.opts);
    let start = execution::start_of(cx);
    let (t5, st) = execution::announce_from(t4, cx, q, w->Ok_0, 0, start);
    let st = st->Ok_0;
    lemma_announced_commits(t4, cx, q, w->Ok_0, 0, start);
    assert(execution::executed(t, cx) == execution::concluded(t5, q, st));
    let (t6, u6) = execution::undraft_from(t5, q.undraft, 0);
    let (t7, edited) = execution::messages_edited(t6, st.stack, st.messages);
    assert(edited == Ok::<StackView, HaltView>(after));
    let q8 = RequestView::SyncStacks { chains: stack::chains(after) };
    tape::lemma_only_start(t7, any);
    tape::lemma_only_ask(t7, t7, q8, any);
    tape::lemma_only_trans(t7, end, to, any);
    if !execution::messages_match(st.stack, st.messages) {
        let commits = execution::rewrites(st.stack, st.messages);
        lemma_rewritten_trees(
            t6,
            commits,
            0,
            st.stack.base,
            false,
            Seq::empty(),
            before,
            to,
            world,
        );
        let new = history::messages_rewritten(t6, st.stack.base, commits).1->Ok_0;
        assert forall|k: int| #![trigger after.layers[k]] 0 <= k < after.layers.len() implies
            after.layers[k].dep == cx.stack.layers[k].dep && rest::tree_in(
            world,
            after.layers[k].commit,
        ) == rest::tree_in(world, cx.stack.layers[k].commit) && rest::tree_in(
            world,
            after.layers[k].parent,
        ) == rest::tree_in(world, cx.stack.layers[k].parent) by {
            assert(st.stack.layers[k].commit == cx.stack.layers[k].commit);
            assert(commits[k].0 == cx.stack.layers[k].commit);
            assert(rest::tree_in(world, new[k]) == rest::tree_in(world, commits[k].0));
            assert(cx.stack.layers[k].parent == (if k == 0 {
                cx.stack.base
            } else {
                cx.stack.layers[k - 1].commit
            }));
            if k > 0 {
                assert(st.stack.layers[k - 1].commit == cx.stack.layers[k - 1].commit);
                assert(commits[k - 1].0 == cx.stack.layers[k - 1].commit);
                assert(rest::tree_in(world, new[k - 1]) == rest::tree_in(
                    world,
                    commits[k - 1].0,
                ));
            }
        }
    } else {
        assert forall|k: int| #![trigger after.layers[k]] 0 <= k < after.layers.len() implies
            after.layers[k].dep == cx.stack.layers[k].dep && rest::tree_in(
            world,
            after.layers[k].commit,
        ) == rest::tree_in(world, cx.stack.layers[k].commit) && rest::tree_in(
            world,
            after.layers[k].parent,
        ) == rest::tree_in(world, cx.stack.layers[k].parent) by {
            assert(st.stack.layers[k].commit == cx.stack.layers[k].commit);
        }
    }
}

/// Linking the layers tells the forge nothing.
proof fn lemma_relink_still(
    from: TapeView,
    t: TapeView,
    c: ConfigView,
    opts: OptionsView,
    i: int,
    s: StackView,
    messages: Seq<MessageView>,
)
    requires
        tape::only(from, t, |q: RequestView| telling::still(q)),
        0 <= i,
    ensures
        tape::only(
            from,
            syncing::relink_from(t, c, opts, i, s, messages).0,
            |q: RequestView| telling::still(q),
        ),
    decreases s.layers.len() - i,
{
    broadcast use tape::lemma_only_ask;

    let quiet = |q: RequestView| telling::still(q);
    if i >= s.layers.len() {
        telling::lemma_rewrite_still(
            from,
            t,
            execution::rewrites(s, messages),
            0,
            s.base,
            false,
            Seq::empty(),
        );
    } else if !engine::in_scope(opts, i) || s.layers[i].pr is Some {
        lemma_relink_still(from, t, c, opts, i + 1, s, messages);
    } else {
        let (t1, number) = syncing::relink_of(t, c, s, i);
        assert(tape::only(from, t1, quiet));
        if number is Ok {
            match number->Ok_0 {
                None => lemma_relink_still(from, t1, c, opts, i + 1, s, messages),
                Some(number) => lemma_relink_still(
                    from,
                    t1,
                    c,
                    opts,
                    i + 1,
                    execution::with_pr(s, i, number),
                    messages.update(
                        i,
                        crate::trailers::with_trailer(
                            messages[i],
                            crate::trailers::PULL_REQUEST@,
                            crate::config::pr_url(c, number),
                        ),
                    ),
                ),
            }
        }
    }
}

/// Before its rounds, a run tells the forge nothing.
proof fn lemma_linked_still(t: TapeView, c: ConfigView, s: StackView, opts: OptionsView)
    requires
        syncing::synced(t, c, s, opts).1 is Ok,
    ensures
        tape::only(t, afterwards::linked(t, c, s, opts).0, |q: RequestView| telling::still(q)),
{
    broadcast use tape::lemma_only_ask;

    let quiet = |q: RequestView| telling::still(q);
    assert(tape::may_look(quiet));
    tape::lemma_only_start(t, quiet);
    let (t1, resolved) = syncing::externals_from(t, s, 0);
    syncing::lemma_externals_from_only(t, t, s, 0, quiet);
    let resolved = resolved->Ok_0;
    let (t2, linked) = syncing::relinked(t1, c, opts, resolved);
    if !opts.relink_asked {
        lemma_relink_still(
            t,
            t1,
            c,
            opts,
            0,
            resolved,
            resolved.layers.map_values(|l: LayerView| l.message),
        );
    }
    assert(tape::only(t, t2, quiet));
}

/// Where the forge is told nothing, everything stays.
proof fn lemma_frame(
    before: spec_fn(RequestView) -> ReplyView,
    a: TapeView,
    b: TapeView,
    to: TapeView,
    number: u64,
    branch: Seq<char>,
    k: int,
)
    requires
        tape::only(a, b, |q: RequestView| telling::still(q)),
        tape::only(b, to, |q: RequestView| true),
        a.asked.len() <= k <= b.asked.len(),
    ensures
        ({
            let m = a.asked.len() as int;
            let old = memory::pr_at(before, to, m, number);
            let new = memory::pr_at(before, to, k, number);
            &&& new.head == old.head && new.base == old.base && new.head_oid == old.head_oid
            &&& memory::tip_at(before, to, k, branch) == memory::tip_at(before, to, m, branch)
        }),
{
    let m = a.asked.len() as int;
    let quiet = |q: RequestView| telling::still(q);
    assert forall|i: int| m <= i < k implies telling::still(#[trigger] to.asked[i]) by {
        assert(to.asked[i] == b.asked[i]);
        assert(quiet(b.asked[i]));
    }
    assert forall|i: int| m <= i < k implies !memory::gives_base(
        #[trigger] to.asked[i],
        to.replies[i],
        number,
    ) by {
        assert(telling::still(to.asked[i]));
    }
    let head = memory::pr_at(before, to, m, number).head;
    assert forall|i: int| m <= i < k implies memory::brings(
        #[trigger] to.asked[i],
        to.replies[i],
        head,
    ) is None by {
        assert(telling::still(to.asked[i]));
    }
    assert forall|i: int| m <= i < k implies !(#[trigger] to.asked[i] is CreatePullRequest
        && to.replies[i] == ReplyView::Number(number)) by {
        assert(telling::still(to.asked[i]));
    }
    memory::lemma_untold(before, to, m, k, number);
    assert forall|i: int| m <= i < k implies memory::brings(
        #[trigger] to.asked[i],
        to.replies[i],
        branch,
    ) is None by {
        assert(telling::still(to.asked[i]));
    }
    memory::lemma_tip_stays(before, to, m, k, branch);
}

/// The ground on which the decision of a round is carried out.
pub open spec fn ground(
    before: spec_fn(RequestView) -> ReplyView,
    world: spec_fn(RequestView) -> ReplyView,
    to: TapeView,
    t: TapeView,
    c: ConfigView,
    s: StackView,
    opts: OptionsView,
    first: bool,
) -> Ground {
    Ground {
        before,
        world,
        start: afterwards::context(t, c, s, opts, first).0,
        to,
        checks: afterwards::checks_of(t, c, s, opts, first),
    }
}

/// A run in which nothing comes between a pull request and its base, over a stack whose
/// commits sit on each other, and with the world that it leaves behind.
pub open spec fn undisturbed_run(
    before: spec_fn(RequestView) -> ReplyView,
    world: spec_fn(RequestView) -> ReplyView,
    t: TapeView,
    c: ConfigView,
    s: StackView,
    opts: OptionsView,
) -> bool {
    let (to, r) = syncing::synced(t, c, s, opts);
    let (t1, stack, full) = afterwards::linked(t, c, s, opts);
    let cx = afterwards::context(t1, c, stack, full, true).1;
    let (t2, e) = syncing::round(t1, c, stack, full, true);
    let next = (e->Ok_0).stack;
    let more = syncing::catch_up_options(full);
    &&& stack::well_formed(s)
    &&& r is Ok
    &&& memory::remembers(before, world, to)
    &&& lineage::has_history(world)
    &&& afterwards::apart(world, (r->Ok_0).stack)
    &&& afterwards::backed(cx)
    &&& linear(cx.stack)
    &&& moments::smooth(ground(before, world, to, t1, c, stack, full, true), cx)
    &&& (e->Ok_0).staged ==> moments::smooth(
        ground(before, world, to, t2, c, next, more, false),
        afterwards::context(t2, c, next, more, false).1,
    )
}

/// What is known of a round.
proof fn lemma_round(
    before: spec_fn(RequestView) -> ReplyView,
    world: spec_fn(RequestView) -> ReplyView,
    to: TapeView,
    t: TapeView,
    c: ConfigView,
    s: StackView,
    opts: OptionsView,
    first: bool,
) -> (course: Course)
    requires
        stack::well_formed(s),
        syncing::round(t, c, s, opts, first).1 is Ok,
        tape::only(syncing::round(t, c, s, opts, first).0, to, |q: RequestView| true),
        memory::remembers(before, world, to),
        lineage::has_history(world),
        telling::answered(to),
    ensures
        ({
            let g = ground(before, world, to, t, c, s, opts, first);
            let cx = afterwards::context(t, c, s, opts, first).1;
            &&& afterwards::prepared(g, t, s, cx)
            &&& syncing::round(t, c, s, opts, first) == execution::executed(g.start, cx)
            &&& telling::ran(g.start, cx, course)
            &&& cx.stack == s
        }),
{
    let g = afterwards::lemma_prepared(before, world, t, c, s, opts, first, to);
    let cx = afterwards::context(t, c, s, opts, first).1;
    assert(g == ground(before, world, to, t, c, s, opts, first));
    telling::lemma_ran(g.start, cx)
}

/// The display of layer `i` at a moment of a run.
pub open spec fn shown_well(
    before: spec_fn(RequestView) -> ReplyView,
    world: spec_fn(RequestView) -> ReplyView,
    to: TapeView,
    begin: int,
    k: int,
    number: u64,
    there: bool,
    dep: Oid,
    content: Oid,
) -> bool {
    let first = memory::pr_at(before, to, begin, number);
    let now = memory::pr_at(before, to, k, number);
    let tip = memory::tip_at(before, to, k, now.base);
    if there {
        moments::not_widened(
            world,
            memory::tip_at(before, to, begin, first.base),
            first.head_oid,
            tip,
            now.head_oid,
            dep,
            content,
        )
    } else {
        moments::opened_by(to, k, number) ==> rest::displays(
            world,
            tip,
            now.head_oid,
            dep,
            content,
        )
    }
}

/// Up to the end of the first round.
#[verifier::rlimit(30)]
proof fn lemma_first_moments(
    g: Ground,
    t: TapeView,
    t1: TapeView,
    s: StackView,
    cx: ContextView,
    c: Course,
    i: int,
    k: int,
)
    requires
        afterwards::prepared(g, t1, s, cx),
        tape::only(t, t1, |q: RequestView| telling::still(q)),
        moments::under_way(g, cx, c),
        moments::smooth(g, cx),
        0 <= i < cx.stack.layers.len(),
        engine::in_scope(cx.opts, i),
        t.asked.len() <= k <= execution::executed(g.start, cx).0.asked.len(),
    ensures
        ({
            let after = (execution::executed(g.start, cx).1->Ok_0).stack;
            shown_well(
                g.before,
                g.world,
                g.to,
                t.asked.len() as int,
                k,
                telling::number_of(cx, after, i),
                cx.prs[i] is Some,
                cx.trees.dep[i],
                cx.trees.effective[i],
            )
        }),
{
    let any = |q: RequestView| true;
    let quiet = |q: RequestView| telling::still(q);
    let after = (execution::executed(g.start, cx).1->Ok_0).stack;
    let number = telling::number_of(cx, after, i);
    let begin = t.asked.len() as int;
    let m = g.start.asked.len() as int;
    telling::lemma_allowed(
        t1,
        g.start,
        |q: RequestView| afterwards::looks(q),
        quiet,
    );
    tape::lemma_only_trans(t, t1, g.start, quiet);
    moments::lemma_ready(g, cx, c, i);
    let first = memory::pr_at(g.before, g.to, begin, number);
    lemma_frame(g.before, t, g.start, g.to, number, first.base, m);
    match cx.prs[i] {
        Some(pr) => {
            assert(cx.prs[i] is Some);
            assert(memory::alike(pr, memory::pr_at(g.before, g.to, m, pr.number)));
            if k <= m {
                lemma_frame(g.before, t, g.start, g.to, number, first.base, k);
                lineage::lemma_self(
                    g.world,
                    moments::fork_in(
                        g.world,
                        memory::tip_at(g.before, g.to, begin, first.base),
                        first.head_oid,
                    ),
                );
            } else {
                moments::lemma_moment(g, cx, c, i, pr, k);
            }
        },
        None => {
            if moments::opened_by(g.to, k, number) {
                if k >= m {
                    moments::lemma_new_moment(g, cx, c, i, k);
                } else {
                    lemma_not_yet(g, cx, c, i, k);
                }
            }
        },
    }
}

/// A pull request is not opened before the layers are announced.
proof fn lemma_not_yet(g: Ground, cx: ContextView, c: Course, i: int, k: int)
    requires
        moments::ready(g, cx, c, i),
        cx.prs[i] is None,
        0 <= k < g.start.asked.len(),
    ensures
        !moments::opened_by(
            g.to,
            k,
            telling::number_of(cx, (execution::executed(g.start, cx).1->Ok_0).stack, i),
        ),
{
    let p = telling::places(g.start, cx);
    let end = execution::executed(g.start, cx).0;
    let after = (execution::executed(g.start, cx).1->Ok_0).stack;
    let number = telling::number_of(cx, after, i);
    assert(engine::warranted(cx.stack, cx.prs, cx.opts, g.checks, cx.decision, i));
    assert(telling::announced(c.mid, end, cx, p, c.warn, after, i));
    let new = telling::opening(cx, p, c.warn, i);
    let asks = RequestView::CreatePullRequest { pr: new };
    let at = choose|x: int|
        c.mid.asked.len() <= x < end.asked.len() && x < end.replies.len()
            && #[trigger] end.asked[x] == asks && end.replies[x] == ReplyView::Number(number);
    assert(g.to.asked[at] == asks);
    assert(memory::recalls(g.before, g.world, g.to, at, g.to.asked[at], g.to.replies[at]));
    if moments::opened_by(g.to, k, number) {
        let x = choose|x: int|
            0 <= x < k && #[trigger] g.to.asked[x] is CreatePullRequest && g.to.replies[x]
                == ReplyView::Number(number);
        assert(memory::names(g.to.asked[x], g.to.replies[x], number));
        assert(memory::named(g.to, at, number));
    }
}

/// A branch that waits is left behind.
proof fn lemma_held_is_staged(t: TapeView, cx: ContextView, i: int, p: PlacementView)
    requires
        0 <= i <= cx.stack.layers.len(),
        execution::placed(p, i),
        forall|k: int| 0 <= k < i && #[trigger] p.held[k] ==> p.staged,
        execution::place_from(t, cx, i, p).1 is Ok,
    ensures
        ({
            let q = execution::place_from(t, cx, i, p).1->Ok_0;
            forall|k: int| 0 <= k < cx.stack.layers.len() && #[trigger] q.held[k] ==> q.staged
        }),
    decreases cx.stack.layers.len() - i,
{
    if i < cx.stack.layers.len() {
        let base = execution::base_of(cx, p, i);
        let (t1, spot) = execution::spot_of(t, cx, p, i, base.0, base.1);
        let spot = spot->Ok_0;
        let (t2, saved) = execution::rescued_from(t1, cx, spot, 0, p);
        let saved = saved->Ok_0;
        execution::lemma_rescued_from(t1, cx, spot, 0, p);
        let next = execution::with_spot(execution::reserve(cx, i, saved, spot), base.1, spot);
        if let Some(pr) = cx.prs[i] {
            if cx.decision.push[i] {
                placing::lemma_moved_pushes(t, cx, p, i, pr, base.0, base.1);
            }
        }
        assert forall|k: int| 0 <= k < i + 1 && #[trigger] next.held[k] implies next.staged by {
            if k < i {
                assert(p.held[k]);
            }
        }
        lemma_held_is_staged(t2, cx, i + 1, next);
    }
}

/// In the second round.
#[verifier::rlimit(40)]
proof fn lemma_second_moments(
    g: Ground,
    t2: TapeView,
    cx: ContextView,
    c: Course,
    i: int,
    k: int,
    begin: int,
    there: bool,
    dep: Oid,
    content: Oid,
)
    requires
        afterwards::prepared(g, t2, cx.stack, cx),
        moments::under_way(g, cx, c),
        moments::smooth(g, cx),
        0 <= i < cx.stack.layers.len(),
        engine::in_scope(cx.opts, i),
        afterwards::based(cx, i),
        !telling::places(g.start, cx).staged,
        cx.trees.dep[i] == dep,
        cx.trees.effective[i] == content,
        0 <= begin <= t2.asked.len() <= k <= execution::executed(g.start, cx).0.asked.len(),
        shown_well(
            g.before,
            g.world,
            g.to,
            begin,
            t2.asked.len() as int,
            (cx.prs[i]->0).number,
            there,
            dep,
            content,
        ),
        there || moments::opened_by(g.to, t2.asked.len() as int, (cx.prs[i]->0).number),
    ensures
        shown_well(
            g.before,
            g.world,
            g.to,
            begin,
            k,
            (cx.prs[i]->0).number,
            there,
            dep,
            content,
        ),
{
    let quiet = |q: RequestView| telling::still(q);
    let p = telling::places(g.start, cx);
    let pr = cx.prs[i]->0;
    assert(cx.prs[i] is Some);
    let number = pr.number;
    let m = g.start.asked.len() as int;
    let e = t2.asked.len() as int;
    telling::lemma_allowed(
        t2,
        g.start,
        |q: RequestView| afterwards::looks(q),
        quiet,
    );
    moments::lemma_ready(g, cx, c, i);
    lemma_held_is_staged(g.start, cx, 0, execution::empty_placement(cx));
    assert(!p.held[i]);
    let then = memory::pr_at(g.before, g.to, e, number);
    lemma_frame(g.before, t2, g.start, g.to, number, then.base, m);
    assert(memory::alike(pr, memory::pr_at(g.before, g.to, m, number)));
    assert(pr.base == p.base_branches[i]) by {
        assert(p.base_branches[i] == match cx.stack.layers[i].dep {
            Dep::Layer(j) => p.branches[j as int],
            _ => cx.config.trunk,
        });
        if let Dep::Layer(j) = cx.stack.layers[i].dep {
            assert(cx.prs[j as int] is Some);
        }
    }
    if k <= m {
        lemma_frame(g.before, t2, g.start, g.to, number, then.base, k);
    } else {
        moments::lemma_based_moment(g, cx, c, i, pr, k);
    }
}

/// A round that is under way.
proof fn lemma_under_way(
    g: Ground,
    t: TapeView,
    s: StackView,
    cx: ContextView,
    c: Course,
    left: StackView,
)
    requires
        afterwards::prepared(g, t, s, cx),
        execution::executed(g.start, cx).1 is Ok,
        telling::ran(g.start, cx, c),
        tape::only(execution::executed(g.start, cx).0, g.to, |q: RequestView| true),
        telling::answered(g.to),
        afterwards::apart(g.world, left),
        left.layers.len() == cx.prs.len(),
        forall|k: int|
            0 <= k < cx.prs.len() ==> (#[trigger] cx.prs[k] matches Some(pr)
                ==> left.layers[k].pr == Some(pr.number)),
    ensures
        moments::under_way(g, cx, c),
{
    afterwards::lemma_apart(g, cx, left);
}

/// A run with one round.
proof fn lemma_one_round(
    before: spec_fn(RequestView) -> ReplyView,
    world: spec_fn(RequestView) -> ReplyView,
    t: TapeView,
    c: ConfigView,
    s: StackView,
    opts: OptionsView,
    k: int,
    i: int,
)
    requires
        undisturbed_run(before, world, t, c, s, opts),
        ({
            let (t1, stack, full) = afterwards::linked(t, c, s, opts);
            !(syncing::round(t1, c, stack, full, true).1->Ok_0).staged
        }),
        t.asked.len() <= k <= syncing::synced(t, c, s, opts).0.asked.len(),
        0 <= i < afterwards::first_context(t, c, s, opts).1.stack.layers.len(),
        engine::in_scope(opts, i),
    ensures
        ({
            let (to, r) = syncing::synced(t, c, s, opts);
            let cx = afterwards::first_context(t, c, s, opts).1;
            let left = (r->Ok_0).stack;
            shown_well(
                before,
                world,
                to,
                t.asked.len() as int,
                k,
                telling::number_of(cx, left, i),
                cx.prs[i] is Some,
                cx.trees.dep[i],
                cx.trees.effective[i],
            )
        }),
{
    let any = |q: RequestView| true;
    let (to, r) = syncing::synced(t, c, s, opts);
    let left = (r->Ok_0).stack;
    runs::lemma_linked(before, world, t, c, s, opts);
    lemma_linked_still(t, c, s, opts);
    let (t1, stack, full) = afterwards::linked(t, c, s, opts);
    let cx = afterwards::context(t1, c, stack, full, true).1;
    let g = ground(before, world, to, t1, c, stack, full, true);
    tape::lemma_only_start(to, any);
    afterwards::lemma_round_answered(t1, c, stack, full, true);
    let course = lemma_round(before, world, to, t1, c, stack, full, true);
    lemma_under_way(g, t1, stack, cx, course, left);
    lemma_first_moments(g, t, t1, stack, cx, course, i, k);
}

/// A run with two rounds.
#[verifier::rlimit(40)]
proof fn lemma_two_rounds(
    before: spec_fn(RequestView) -> ReplyView,
    world: spec_fn(RequestView) -> ReplyView,
    t: TapeView,
    c: ConfigView,
    s: StackView,
    opts: OptionsView,
    k: int,
    i: int,
)
    requires
        undisturbed_run(before, world, t, c, s, opts),
        ({
            let (t1, stack, full) = afterwards::linked(t, c, s, opts);
            (syncing::round(t1, c, stack, full, true).1->Ok_0).staged
        }),
        t.asked.len() <= k <= syncing::synced(t, c, s, opts).0.asked.len(),
        0 <= i < afterwards::first_context(t, c, s, opts).1.stack.layers.len(),
        engine::in_scope(opts, i),
    ensures
        ({
            let (to, r) = syncing::synced(t, c, s, opts);
            let cx = afterwards::first_context(t, c, s, opts).1;
            let left = (r->Ok_0).stack;
            shown_well(
                before,
                world,
                to,
                t.asked.len() as int,
                k,
                telling::number_of(cx, left, i),
                cx.prs[i] is Some,
                cx.trees.dep[i],
                cx.trees.effective[i],
            )
        }),
{
    let any = |q: RequestView| true;
    let (to, r) = syncing::synced(t, c, s, opts);
    let left = (r->Ok_0).stack;
    let begin = t.asked.len() as int;
    runs::lemma_linked(before, world, t, c, s, opts);
    lemma_linked_still(t, c, s, opts);
    let (t1, stack, full) = afterwards::linked(t, c, s, opts);
    let cx1 = afterwards::context(t1, c, stack, full, true).1;
    let g1 = ground(before, world, to, t1, c, stack, full, true);
    let (t2, e1) = syncing::round(t1, c, stack, full, true);
    let next = (e1->Ok_0).stack;
    let more = syncing::catch_up_options(full);
    let cx2 = afterwards::context(t2, c, next, more, false).1;
    let g2 = ground(before, world, to, t2, c, next, more, false);
    tape::lemma_only_start(to, any);
    afterwards::lemma_round_answered(t2, c, next, more, false);
    let c1 = lemma_round(before, world, to, t1, c, stack, full, true);
    afterwards::lemma_formed(next, stack);
    let c2 = lemma_round(before, world, to, t2, c, next, more, false);
    lemma_parts(g1, t1, stack, cx1, c1, g2, t2, cx2, c2, left, i);
    let number = telling::number_of(cx1, next, i);
    let there = cx1.prs[i] is Some;
    let dep = cx1.trees.dep[i];
    let content = cx1.trees.effective[i];
    assert(number == telling::number_of(cx1, left, i));
    if k <= t2.asked.len() {
        lemma_first_moments(g1, t, t1, stack, cx1, c1, i, k);
    } else {
        lemma_first_moments(g1, t, t1, stack, cx1, c1, i, t2.asked.len() as int);
        lemma_round_trees(g1.start, cx1, before, to, world);
        lemma_same_content(world, next, cx1.stack, i);
        assert(cx2.trees.dep[i] == rest::dep_in(world, cx2.stack, i));
        assert(cx2.trees.effective[i] == rest::content_in(world, cx2.stack, i));
        assert(cx1.trees.dep[i] == rest::dep_in(world, cx1.stack, i));
        assert(cx1.trees.effective[i] == rest::content_in(world, cx1.stack, i));
        lemma_second_moments(g2, t2, cx2, c2, i, k, begin, there, dep, content);
        if !there {
            assert(moments::opened_by(to, t2.asked.len() as int, number));
        }
    }
}

/// How the two rounds of a run fit together.
#[verifier::rlimit(40)]
proof fn lemma_parts(
    g1: Ground,
    t1: TapeView,
    s1: StackView,
    cx1: ContextView,
    c1: Course,
    g2: Ground,
    t2: TapeView,
    cx2: ContextView,
    c2: Course,
    left: StackView,
    i: int,
)
    requires
        afterwards::prepared(g1, t1, s1, cx1),
        cx1.stack == s1,
        execution::executed(g1.start, cx1).1 is Ok,
        telling::ran(g1.start, cx1, c1),
        t2 == execution::executed(g1.start, cx1).0,
        cx2.stack == (execution::executed(g1.start, cx1).1->Ok_0).stack,
        cx2.config == cx1.config,
        cx2.opts.only_layer == cx1.opts.only_layer,
        afterwards::backed(cx1),
        afterwards::prepared(g2, t2, cx2.stack, cx2),
        execution::executed(g2.start, cx2).1 is Ok,
        telling::ran(g2.start, cx2, c2),
        g2.before == g1.before,
        g2.world == g1.world,
        g2.to == g1.to,
        telling::answered(g1.to),
        afterwards::apart(g1.world, left),
        left == (execution::executed(g2.start, cx2).1->Ok_0).stack,
        tape::only(t2, g1.to, |q: RequestView| true),
        g1.to == execution::executed(g2.start, cx2).0,
        0 <= i < cx1.stack.layers.len(),
        engine::in_scope(cx1.opts, i),
    ensures
        moments::under_way(g1, cx1, c1),
        moments::under_way(g2, cx2, c2),
        !telling::places(g2.start, cx2).staged,
        afterwards::based(cx2, i),
        (cx2.prs[i]->0).number == telling::number_of(cx1, cx2.stack, i),
        telling::number_of(cx1, left, i) == telling::number_of(cx1, cx2.stack, i),
        i < cx2.stack.layers.len(),
        cx1.prs[i] is Some || moments::opened_by(
            g1.to,
            t2.asked.len() as int,
            telling::number_of(cx1, cx2.stack, i),
        ),
{
    let any = |q: RequestView| true;
    runs::lemma_second(g1, t1, s1, cx1, c1, g2, t2, cx2, c2, left);
    runs::lemma_same_numbers(g1, t1, s1, cx1, c1, g2, t2, cx2, c2, left);
    lemma_under_way(g1, t1, s1, cx1, c1, left);
    assert forall|k: int| 0 <= k < cx2.prs.len() implies (#[trigger] cx2.prs[k] matches Some(pr)
        ==> left.layers[k].pr == Some(pr.number)) by {
        if cx2.prs[k] is Some {
            assert(left.layers[k].pr == cx2.stack.layers[k].pr);
        }
    }
    tape::lemma_only_start(g2.to, any);
    lemma_under_way(g2, t2, cx2.stack, cx2, c2, left);
    moments::lemma_dep_has_branch(g1, cx1, i);
    runs::lemma_base_right(g1, t1, s1, cx1, c1, g2, t2, cx2, i);
    assert(cx2.prs[i] is Some);
    assert(left.layers[i].pr == cx2.stack.layers[i].pr);
    let p = telling::places(g1.start, cx1);
    let number = telling::number_of(cx1, cx2.stack, i);
    if cx1.prs[i] is None {
        assert(telling::announced(c1.mid, t2, cx1, p, c1.warn, cx2.stack, i));
        let asks = RequestView::CreatePullRequest {
            pr: telling::opening(cx1, p, c1.warn, i),
        };
        let at = choose|x: int|
            c1.mid.asked.len() <= x < t2.asked.len() && x < t2.replies.len()
                && #[trigger] t2.asked[x] == asks && t2.replies[x] == ReplyView::Number(number);
        assert(g1.to.asked[at] == asks);
    } else {
        assert(cx2.stack.layers[i].pr == cx1.stack.layers[i].pr);
    }
}

/// At no moment of a run does the display of a pull request widen: as long as it has the
/// head that it started with, it parts from the branch that it is based on then no earlier
/// than it did; and as soon as it has another one, or where it was opened, what is
/// displayed is exactly the own patch of its layer.
///
/// `before` is the world in which the run starts and `world` the one that it leaves
/// behind; the moment is after the first `k` requests.
pub proof fn law_display_never_widens(
    before: spec_fn(RequestView) -> ReplyView,
    world: spec_fn(RequestView) -> ReplyView,
    t: TapeView,
    c: ConfigView,
    s: StackView,
    opts: OptionsView,
    k: int,
    i: int,
)
    requires
        undisturbed_run(before, world, t, c, s, opts),
        t.asked.len() <= k <= syncing::synced(t, c, s, opts).0.asked.len(),
        0 <= i < afterwards::first_context(t, c, s, opts).1.stack.layers.len(),
        engine::in_scope(opts, i),
    ensures
        ({
            let (to, r) = syncing::synced(t, c, s, opts);
            let cx = afterwards::first_context(t, c, s, opts).1;
            let number = telling::number_of(cx, (r->Ok_0).stack, i);
            let first = memory::pr_at(before, to, t.asked.len() as int, number);
            let now = memory::pr_at(before, to, k, number);
            let tip = memory::tip_at(before, to, k, now.base);
            let dep = rest::dep_in(world, cx.stack, i);
            let content = rest::content_in(world, cx.stack, i);
            if cx.prs[i] is Some {
                moments::not_widened(
                    world,
                    memory::tip_at(before, to, t.asked.len() as int, first.base),
                    first.head_oid,
                    tip,
                    now.head_oid,
                    dep,
                    content,
                )
            } else {
                moments::opened_by(to, k, number) ==> rest::displays(
                    world,
                    tip,
                    now.head_oid,
                    dep,
                    content,
                )
            }
        }),
{
    let to = syncing::synced(t, c, s, opts).0;
    let (t1, stack, full) = afterwards::linked(t, c, s, opts);
    let cx = afterwards::first_context(t, c, s, opts).1;
    let e = syncing::round(t1, c, stack, full, true).1->Ok_0;
    if e.staged {
        lemma_two_rounds(before, world, t, c, s, opts, k, i);
    } else {
        lemma_one_round(before, world, t, c, s, opts, k, i);
    }
    runs::lemma_linked(before, world, t, c, s, opts);
    lemma_world_trees(before, world, to, t1, c, stack, full, i);
}

/// The trees that a round works with are those of the world.
proof fn lemma_world_trees(
    before: spec_fn(RequestView) -> ReplyView,
    world: spec_fn(RequestView) -> ReplyView,
    to: TapeView,
    t: TapeView,
    c: ConfigView,
    s: StackView,
    opts: OptionsView,
    i: int,
)
    requires
        stack::well_formed(s),
        syncing::round(t, c, s, opts, true).1 is Ok,
        tape::only(syncing::round(t, c, s, opts, true).0, to, |q: RequestView| true),
        memory::remembers(before, world, to),
        0 <= i < s.layers.len(),
    ensures
        ({
            let cx = afterwards::context(t, c, s, opts, true).1;
            &&& cx.trees.dep[i] == rest::dep_in(world, s, i)
            &&& cx.trees.effective[i] == rest::content_in(world, s, i)
        }),
{
    let any = |q: RequestView| true;
    let (t4, cx) = afterwards::context(t, c, s, opts, true);
    let end = syncing::round(t, c, s, opts, true).0;
    assert(syncing::round(t, c, s, opts, true) == execution::executed(t4, cx));
    let (t1, trees) = discovery::trees_of(t, s);
    let look = |q: RequestView| true;
    assert(tape::may_look(look));
    let (t2, prs) = engine::gathered(t1, s);
    let t3 = crate::upgrade::reject_from(t2, c, s, prs->Ok_0, opts.only_layer, 0).0;
    tape::lemma_only_start(t1, look);
    engine::lemma_gathered_only(t1, t1, s, look);
    crate::upgrade::lemma_reject_from_only(t1, t2, c, s, prs->Ok_0, opts.only_layer, 0, look);
    engine::lemma_decided_only(t1, t3, s, prs->Ok_0, trees->Ok_0, opts, look);
    rest::lemma_whole(t4, cx);
    tape::lemma_only_trans(t1, t4, end, any);
    tape::lemma_only_trans(t1, end, to, any);
    memory::lemma_steady(before, world, t, to);
    assert(rest::hears_steady(t, t1, world)) by {
        assert forall|k: int|
            t.asked.len() <= k < t1.asked.len() && k < t1.replies.len() && rest::steady(
                #[trigger] t1.asked[k],
            ) implies t1.replies[k] == world(t1.asked[k]) by {
            assert(to.asked[k] == t1.asked[k]);
        }
    }
    rest::lemma_trees(
        t,
        t,
        s,
        0,
        discovery::TreesView { effective: Seq::empty(), dep: Seq::empty() },
        world,
    );
}

} // verus!
