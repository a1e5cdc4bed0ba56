//! What the forge is told when a decision is carried out.

use vstd::prelude::*;

use crate::config;
use crate::engine;
use crate::execution;
use crate::execution::{ContextView, ExecutedView, PlacementView, ProgressView, SpotView};
use crate::forge;
use crate::forge::{CreateView, PrView, UpdateView};
use crate::history;
use crate::memory;
use crate::oid;
use crate::oid::Oid;
use crate::placing;
use crate::pr_body;
use crate::refs;
use crate::stack;
use crate::stack::StackView;
use crate::tape;
use crate::tape::{HaltView, ReplyView, RequestView, TapeView};

verus! {

/// A pull request is given a base.
pub open spec fn rebase(number: u64, base: Seq<char>) -> RequestView {
    RequestView::UpdatePullRequest { number, update: forge::base_update(base) }
}

proof fn lemma_retarget_told(t: TapeView, cx: ContextView, pr: PrView, base: Seq<char>)
    requires
        execution::retarget_early(t, cx.config, pr, base).1 is Ok,
    ensures
        memory::told_since(
            t,
            execution::retarget_early(t, cx.config, pr, base).0,
            rebase(pr.number, base),
            ReplyView::Done,
        ),
{
    let any = |q: RequestView| true;
    let end = execution::retarget_early(t, cx.config, pr, base).0;
    let draft = RequestView::SetDraft { node_id: pr.node_id, draft: true };
    let t1 = if cx.config.draft_while_retargeting && !pr.draft {
        tape::ask(t, draft).0
    } else {
        t
    };
    memory::lemma_told_since(t1, rebase(pr.number, base));
    tape::lemma_only_start(end, any);
    memory::lemma_told_longer(t, t1, end, end, rebase(pr.number, base), ReplyView::Done);
}

/// Where the base of a pull request is changed early, the forge is told.
proof fn lemma_moved_told(
    t: TapeView,
    cx: ContextView,
    p: PlacementView,
    i: int,
    pr: PrView,
    parent_tip: Oid,
    base_branch: Seq<char>,
)
    requires
        execution::moved_branch(t, cx, p, i, pr, parent_tip, base_branch).1 is Ok,
    ensures
        (execution::moved_branch(t, cx, p, i, pr, parent_tip, base_branch).1->Ok_0).early
            ==> memory::told_since(
            t,
            execution::moved_branch(t, cx, p, i, pr, parent_tip, base_branch).0,
            rebase(pr.number, base_branch),
            ReplyView::Done,
        ),
{
    let any = |q: RequestView| true;
    assert(tape::may_do_all_but_push(any));
    assert(tape::may_look(any));
    let (end, spot) = execution::moved_branch(t, cx, p, i, pr, parent_tip, base_branch);
    let dep = cx.trees.dep[i];
    let content = cx.trees.effective[i];
    let fallback = execution::fallback_base(cx, i);
    let (t1, origin) = execution::branch_start(t, pr, fallback);
    let origin = origin->Ok_0;
    let current = execution::current_base(pr, origin);
    let target = engine::remote_base_tip(cx.stack, cx.prs, i);
    let (t2, early) = execution::may_retarget_early(t1, pr, base_branch, target, current, origin);
    let early = early->Ok_0;
    let (t3, drafted) = if early {
        execution::retarget_early(t2, cx.config, pr, base_branch)
    } else {
        tape::done(t2, None)
    };
    let drafted = drafted->Ok_0;
    let (t4, old_base) = execution::steady_base(t3, p, pr, current);
    let home = execution::home_of(cx, i, origin, parent_tip);
    let (t5, anchor) = execution::safe_anchor(
        t4,
        pr,
        base_branch,
        early,
        old_base->Ok_0,
        home,
    );
    let anchor = anchor->Ok_0;
    let (t6, tree) = history::tree_rebased(t5, dep, anchor, content);
    if early {
        lemma_retarget_told(t2, cx, pr, base_branch);
        tape::lemma_only_start(t, any);
        execution::lemma_branch_start_only(t, t, pr, fallback, any);
        execution::lemma_may_retarget_early_only(
            t,
            t1,
            pr,
            base_branch,
            target,
            current,
            origin,
            any,
        );
        tape::lemma_only_start(t3, any);
        execution::lemma_steady_base_only(t3, t3, p, pr, current, any);
        execution::lemma_safe_anchor_only(
            t3,
            t4,
            pr,
            base_branch,
            early,
            old_base->Ok_0,
            home,
            any,
        );
        history::lemma_tree_rebased_only(t3, t5, dep, anchor, content, any);
        match tree->Ok_0 {
            Some(tree) => execution::lemma_parked_or_moved_only(
                t3,
                t6,
                cx,
                p,
                i,
                pr,
                origin,
                parent_tip,
                early,
                drafted,
                (anchor, tree),
                any,
            ),
            None => execution::lemma_moved_commits_only(
                t3,
                t6,
                cx,
                i,
                pr,
                origin,
                early,
                drafted,
                (parent_tip, content),
                false,
                any,
            ),
        }
        memory::lemma_told_longer(t, t2, t3, end, rebase(pr.number, base_branch), ReplyView::Done);
    }
}

/// The forge was told of every base that was changed early.
pub open spec fn early_told(
    start: TapeView,
    t: TapeView,
    cx: ContextView,
    p: PlacementView,
    n: int,
) -> bool {
    &&& execution::placed(p, n)
    &&& forall|k: int|
        0 <= k < n && #[trigger] p.retargeted_early[k] ==> (cx.prs[k] matches Some(pr)
            && memory::told_since(start, t, rebase(pr.number, p.base_branches[k]), ReplyView::Done))
}

proof fn lemma_early_stays(
    start: TapeView,
    t: TapeView,
    to: TapeView,
    cx: ContextView,
    p: PlacementView,
    n: int,
)
    requires
        early_told(start, t, cx, p, n),
        tape::only(t, to, |q: RequestView| true),
    ensures
        early_told(start, to, cx, p, n),
{
    assert forall|k: int| 0 <= k < n && #[trigger] p.retargeted_early[k] implies (
    cx.prs[k] matches Some(pr) && memory::told_since(
        start,
        to,
        rebase(pr.number, p.base_branches[k]),
        ReplyView::Done,
    )) by {
        let pr = cx.prs[k]->0;
        memory::lemma_told_longer(
            start,
            start,
            t,
            to,
            rebase(pr.number, p.base_branches[k]),
            ReplyView::Done,
        );
    }
}

proof fn lemma_rescued_told(
    start: TapeView,
    t: TapeView,
    cx: ContextView,
    spot: SpotView,
    k: int,
    p: PlacementView,
    n: int,
)
    requires
        early_told(start, t, cx, p, n),
        start.asked.len() <= t.asked.len(),
        execution::rescued_from(t, cx, spot, k, p).1 is Ok,
    ensures
        early_told(
            start,
            execution::rescued_from(t, cx, spot, k, p).0,
            cx,
            execution::rescued_from(t, cx, spot, k, p).1->Ok_0,
            n,
        ),
    decreases p.base_branches.len() - k,
{
    let any = |q: RequestView| true;
    assert(tape::may_do_all_but_push(any));
    if k < 0 || k >= p.base_branches.len() || k >= cx.prs.len() || spot.push is None
        || spot.staged {
    } else if !execution::endangered(cx, spot, k, p) {
        lemma_rescued_told(start, t, cx, spot, k + 1, p, n);
    } else {
        let pr = cx.prs[k]->0;
        let q = RequestView::IsAncestor { ancestor: p.tips[k], descendant: spot.tip };
        let (t0, held) = tape::ask_flag(t, q);
        let (t1, next) = execution::saved_one(t, cx, spot, k, p);
        let next = next->Ok_0;
        tape::lemma_only_start(t, any);
        tape::lemma_only_ask(t, t, q, any);
        lemma_early_stays(start, t, t0, cx, p, n);
        if held->Ok_0 {
            tape::lemma_only_start(t0, any);
            execution::lemma_retarget_early_only(t0, t0, cx.config, pr, p.base_branches[k], any);
            lemma_retarget_told(t0, cx, pr, p.base_branches[k]);
            tape::lemma_only_start(t1, any);
            memory::lemma_told_longer(
                start,
                t0,
                t1,
                t1,
                rebase(pr.number, p.base_branches[k]),
                ReplyView::Done,
            );
            lemma_early_stays(start, t0, t1, cx, p, n);
            assert(early_told(start, t1, cx, next, n)) by {
                assert forall|m: int| 0 <= m < n && #[trigger] next.retargeted_early[m] implies (
                cx.prs[m] matches Some(pr) && memory::told_since(
                    start,
                    t1,
                    rebase(pr.number, next.base_branches[m]),
                    ReplyView::Done,
                )) by {
                    if m != k {
                        assert(p.retargeted_early[m]);
                    }
                }
            }
        }
        assert(execution::rescued_from(t, cx, spot, k, p) == execution::rescued_from(
            t1,
            cx,
            spot,
            k + 1,
            next,
        ));
        lemma_rescued_told(start, t1, cx, spot, k + 1, next, n);
    }
}

/// Whatever is retargeted while the layers get their places, the forge was told.
pub proof fn lemma_place_told(
    start: TapeView,
    t: TapeView,
    cx: ContextView,
    i: int,
    p: PlacementView,
)
    requires
        0 <= i <= cx.stack.layers.len(),
        start.asked.len() <= t.asked.len(),
        early_told(start, t, cx, p, i),
        execution::place_from(t, cx, i, p).1 is Ok,
    ensures
        early_told(
            start,
            execution::place_from(t, cx, i, p).0,
            cx,
            execution::place_from(t, cx, i, p).1->Ok_0,
            cx.stack.layers.len() as int,
        ),
    decreases cx.stack.layers.len() - i,
{
    let any = |q: RequestView| true;
    assert(tape::may_do_all_but_push(any));
    if i < cx.stack.layers.len() {
        let base = execution::base_of(cx, p, i);
        let (t1, spot) = execution::spot_of(t, cx, p, i, base.0, base.1);
        let spot = spot->Ok_0;
        let (t2, saved) = execution::rescued_from(t1, cx, spot, 0, p);
        let saved = saved->Ok_0;
        let next = execution::with_spot(execution::reserve(cx, i, saved, spot), base.1, spot);
        tape::lemma_only_start(t, any);
        execution::lemma_spot_of_only(t, t, cx, p, i, base.0, base.1, any);
        lemma_early_stays(start, t, t1, cx, p, i);
        lemma_rescued_told(start, t1, cx, spot, 0, p, i);
        execution::lemma_rescued_from(t1, cx, spot, 0, p);
        tape::lemma_only_start(t1, any);
        execution::lemma_rescued_from_only(t1, t1, cx, spot, 0, p, any);
        if spot.early {
            let pr = cx.prs[i]->0;
            lemma_moved_told(t, cx, p, i, pr, base.0, base.1);
            memory::lemma_told_longer(
                start,
                t,
                t1,
                t2,
                rebase(pr.number, base.1),
                ReplyView::Done,
            );
        }
        assert(early_told(start, t2, cx, next, i + 1)) by {
            assert forall|m: int| 0 <= m < i + 1 && #[trigger] next.retargeted_early[m] implies (
            cx.prs[m] matches Some(pr) && memory::told_since(
                start,
                t2,
                rebase(pr.number, next.base_branches[m]),
                ReplyView::Done,
            )) by {
                if m < i {
                    assert(saved.retargeted_early[m]);
                }
            }
        }
        lemma_place_told(start, t2, cx, i + 1, next);
    }
}

/// What neither the pull requests nor the references are touched by.
pub open spec fn still(q: RequestView) -> bool {
    !(q is Push) && !(q is UpdatePullRequest) && !(q is CreatePullRequest) && !(q is SetReference)
}

/// The pull request of layer `k`: the one it had, or the one it got.
pub open spec fn number_of(cx: ContextView, after: StackView, k: int) -> u64 {
    match cx.prs[k] {
        Some(pr) => pr.number,
        None => after.layers[k].pr->0,
    }
}

/// An existing pull request is brought up to date.
pub open spec fn refreshes(
    cx: ContextView,
    p: PlacementView,
    warn: bool,
    number: u64,
    update: UpdateView,
) -> bool {
    exists|k: int| 0 <= k < cx.prs.len() && #[trigger] is_refresh(cx, p, warn, number, update, k)
}

pub open spec fn is_refresh(
    cx: ContextView,
    p: PlacementView,
    warn: bool,
    number: u64,
    update: UpdateView,
    k: int,
) -> bool {
    cx.prs[k] matches Some(pr) && number == pr.number && update == refresh_of(cx, p, warn, pr, k)
}

/// What an existing pull request is brought up to date with.
pub open spec fn refresh_of(
    cx: ContextView,
    p: PlacementView,
    warn: bool,
    pr: PrView,
    k: int,
) -> UpdateView {
    execution::pr_update(cx, k, pr, p.base_branches[k], p.retargeted_early[k], warn)
}

/// A new layer got a pull request.
pub open spec fn opens(cx: ContextView, after: StackView, number: u64) -> bool {
    exists|k: int|
        0 <= k < cx.prs.len() && (#[trigger] cx.prs[k]) is None && after.layers[k].pr == Some(number)
}

/// A reference is set to the head or to the first commit of the branch of a layer.
pub open spec fn notes(
    cx: ContextView,
    p: PlacementView,
    after: StackView,
    name: Seq<char>,
    oid: Oid,
) -> bool {
    exists|k: int| 0 <= k < cx.prs.len() && #[trigger] is_note(cx, p, after, name, oid, k)
}

pub open spec fn is_note(
    cx: ContextView,
    p: PlacementView,
    after: StackView,
    name: Seq<char>,
    oid: Oid,
    k: int,
) -> bool {
    let number = number_of(cx, after, k);
    ||| name == refs::head_ref(number)
    ||| name == refs::root_ref(number) && p.new_roots[k] == Some(oid)
}

/// What may happen when a decision is carried out.
pub open spec fn orderly(
    cx: ContextView,
    p: PlacementView,
    warn: bool,
    after: StackView,
    q: RequestView,
    r: ReplyView,
) -> bool {
    match q {
        RequestView::Push { specs } => specs == p.push_specs,
        RequestView::UpdatePullRequest { number, update } => placing::rebases(
            cx.prs,
            p.base_branches,
            p.retargeted_early,
            number,
            update,
        ) || refreshes(cx, p, warn, number, update),
        RequestView::CreatePullRequest { .. } => r matches ReplyView::Number(number) ==> opens(
            cx,
            after,
            number,
        ),
        RequestView::SetReference { name, oid, .. } => notes(cx, p, after, name, oid),
        _ => true,
    }
}

/// The pull request that is opened for layer `i`.
pub open spec fn opening(cx: ContextView, p: PlacementView, warn: bool, i: int) -> CreateView {
    let message = cx.stack.layers[i].message;
    CreateView {
        title: message.subject,
        body: pr_body::with_warning(message.body, warn),
        base: p.base_branches[i],
        head: p.branches[i],
        draft: cx.opts.draft,
    }
}

/// Where the first commit of a branch is written down.
pub open spec fn noting(number: u64, root: Oid) -> RequestView {
    RequestView::SetReference {
        name: refs::root_ref(number),
        oid: root,
        reason: "nspr: pull request root commit"@,
    }
}

/// The forge was told of layer `k`.
pub open spec fn announced(
    start: TapeView,
    t: TapeView,
    cx: ContextView,
    p: PlacementView,
    warn: bool,
    s: StackView,
    k: int,
) -> bool {
    match cx.prs[k] {
        None => cx.decision.push[k] ==> (s.layers[k].pr matches Some(number) && memory::told_since(
            start,
            t,
            RequestView::CreatePullRequest { pr: opening(cx, p, warn, k) },
            ReplyView::Number(number),
        ) && memory::told_since(start, t, noting(number, p.tips[k]), ReplyView::Done)),
        Some(pr) => {
            &&& p.new_roots[k] matches Some(root) ==> memory::told_since(
                start,
                t,
                noting(pr.number, root),
                ReplyView::Done,
            )
            &&& refresh_of(cx, p, warn, pr, k) != forge::no_update() ==> memory::told_since(
                start,
                t,
                RequestView::UpdatePullRequest {
                    number: pr.number,
                    update: refresh_of(cx, p, warn, pr, k),
                },
                ReplyView::Done,
            )
        },
    }
}

proof fn lemma_announced_longer(
    start: TapeView,
    t: TapeView,
    to: TapeView,
    cx: ContextView,
    p: PlacementView,
    warn: bool,
    s: StackView,
    k: int,
)
    requires
        announced(start, t, cx, p, warn, s, k),
        tape::only(t, to, |q: RequestView| true),
    ensures
        announced(start, to, cx, p, warn, s, k),
{
    match cx.prs[k] {
        None => if cx.decision.push[k] {
            let number = s.layers[k].pr->0;
            memory::lemma_told_longer(
                start,
                start,
                t,
                to,
                RequestView::CreatePullRequest { pr: opening(cx, p, warn, k) },
                ReplyView::Number(number),
            );
            memory::lemma_told_longer(
                start,
                start,
                t,
                to,
                noting(number, p.tips[k]),
                ReplyView::Done,
            );
        },
        Some(pr) => {
            if p.new_roots[k] is Some {
                memory::lemma_told_longer(
                    start,
                    start,
                    t,
                    to,
                    noting(pr.number, p.new_roots[k]->0),
                    ReplyView::Done,
                );
            }
            let update = refresh_of(cx, p, warn, pr, k);
            if update != forge::no_update() {
                memory::lemma_told_longer(
                    start,
                    start,
                    t,
                    to,
                    RequestView::UpdatePullRequest { number: pr.number, update },
                    ReplyView::Done,
                );
            }
        },
    }
}

/// Two stacks that differ at most in the pull requests of their layers.
pub open spec fn same_layers(a: StackView, b: StackView) -> bool {
    &&& a.base == b.base
    &&& a.layers.len() == b.layers.len()
    &&& forall|k: int|
        0 <= k < a.layers.len() ==> (#[trigger] a.layers[k]).dep == b.layers[k].dep
}

/// A new pull request.
proof fn lemma_created(
    start: TapeView,
    t: TapeView,
    cx: ContextView,
    p: PlacementView,
    warn: bool,
    i: int,
    st: ProgressView,
    after: StackView,
)
    requires
        0 <= i < cx.prs.len(),
        cx.prs.len() == st.stack.layers.len(),
        cx.prs[i] is None,
        p.new_roots[i] == Some(p.tips[i]),
        start.asked.len() <= t.asked.len(),
        execution::created(t, cx, p, warn, i, st).1 is Ok,
        after.layers[i].pr == (execution::created(t, cx, p, warn, i, st).1->Ok_0).stack.layers[i].pr,
    ensures
        ({
            let (end, r) = execution::created(t, cx, p, warn, i, st);
            let s = (r->Ok_0).stack;
            &&& announced(start, end, cx, p, warn, s, i)
            &&& memory::steps(
                t,
                end,
                |q: RequestView, r: ReplyView| orderly(cx, p, warn, after, q, r),
            )
            &&& same_layers(s, st.stack)
            &&& forall|k: int|
                0 <= k < st.stack.layers.len() && k != i ==> (#[trigger] s.layers[k]).pr
                    == st.stack.layers[k].pr
        }),
{
    let any = |q: RequestView| true;
    let ok = |q: RequestView, r: ReplyView| orderly(cx, p, warn, after, q, r);
    let (end, r) = execution::created(t, cx, p, warn, i, st);
    let s = (r->Ok_0).stack;
    let q1 = RequestView::CreatePullRequest { pr: opening(cx, p, warn, i) };
    let (t1, number) = tape::ask_number(t, q1);
    let number = number->Ok_0;
    let q2 = noting(number, p.tips[i]);
    let (t2, r2) = refs::root_updated(t1, number, p.tips[i]);
    let q3 = RequestView::SetReference {
        name: refs::head_ref(number),
        oid: p.tips[i],
        reason: "nspr: pull request head"@,
    };
    let (t3, r3) = refs::updated(t2, number, p.tips[i]);
    assert(s == execution::with_pr(st.stack, i, number));
    assert(end == t3);
    assert(opens(cx, after, number)) by {
        assert(cx.prs[i] is None);
    }
    assert(notes(cx, p, after, refs::root_ref(number), p.tips[i])) by {
        assert(is_note(cx, p, after, refs::root_ref(number), p.tips[i], i));
    }
    assert(notes(cx, p, after, refs::head_ref(number), p.tips[i])) by {
        assert(is_note(cx, p, after, refs::head_ref(number), p.tips[i], i));
    }
    memory::lemma_steps_ask(t, q1, ok);
    memory::lemma_steps_ask(t1, q2, ok);
    memory::lemma_steps_ask(t2, q3, ok);
    memory::lemma_steps_trans(t, t1, t2, ok);
    memory::lemma_steps_trans(t, t2, t3, ok);
    memory::lemma_told_since(t, q1);
    memory::lemma_told_since(t1, q2);
    tape::lemma_only_trans(t1, t2, t3, any);
    memory::lemma_told_longer(start, t, t1, end, q1, ReplyView::Number(number));
    memory::lemma_told_longer(start, t1, t2, end, q2, ReplyView::Done);
}

/// An existing pull request.
proof fn lemma_refreshed(
    start: TapeView,
    t: TapeView,
    cx: ContextView,
    p: PlacementView,
    warn: bool,
    i: int,
    pr: PrView,
    st: ProgressView,
    after: StackView,
)
    requires
        0 <= i < cx.prs.len(),
        cx.prs[i] == Some(pr),
        start.asked.len() <= t.asked.len(),
        execution::refreshed(t, cx, p, warn, i, pr, st).1 is Ok,
    ensures
        ({
            let (end, r) = execution::refreshed(t, cx, p, warn, i, pr, st);
            let s = (r->Ok_0).stack;
            &&& announced(start, end, cx, p, warn, s, i)
            &&& memory::steps(
                t,
                end,
                |q: RequestView, r: ReplyView| orderly(cx, p, warn, after, q, r),
            )
            &&& s == st.stack
        }),
{
    let any = |q: RequestView| true;
    let ok = |q: RequestView, r: ReplyView| orderly(cx, p, warn, after, q, r);
    let (end, r) = execution::refreshed(t, cx, p, warn, i, pr, st);
    let update = refresh_of(cx, p, warn, pr, i);
    let (t1, r1) = match p.new_roots[i] {
        Some(root) => refs::root_updated(t, pr.number, root),
        None => tape::done(t, ()),
    };
    let q2 = RequestView::UpdatePullRequest { number: pr.number, update };
    let (t2, r2) = if update != forge::no_update() {
        tape::ask_unit(t1, q2)
    } else {
        tape::done(t1, ())
    };
    let q3 = RequestView::SetReference {
        name: refs::head_ref(pr.number),
        oid: p.tips[i],
        reason: "nspr: pull request head"@,
    };
    let (t3, r3) = refs::updated(t2, pr.number, p.tips[i]);
    assert(end == t3);
    memory::lemma_steps_start(t, ok);
    memory::lemma_steps_start(t1, ok);
    if p.new_roots[i] is Some {
        let root = p.new_roots[i]->0;
        assert(notes(cx, p, after, refs::root_ref(pr.number), root)) by {
            assert(is_note(cx, p, after, refs::root_ref(pr.number), root, i));
        }
        memory::lemma_steps_ask(t, noting(pr.number, root), ok);
        memory::lemma_told_since(t, noting(pr.number, root));
    }
    assert(refreshes(cx, p, warn, pr.number, update)) by {
        assert(is_refresh(cx, p, warn, pr.number, update, i));
    }
    memory::lemma_steps_ask(t1, q2, ok);
    if update != forge::no_update() {
        memory::lemma_told_since(t1, q2);
    }
    assert(notes(cx, p, after, refs::head_ref(pr.number), p.tips[i])) by {
        assert(is_note(cx, p, after, refs::head_ref(pr.number), p.tips[i], i));
    }
    memory::lemma_steps_ask(t2, q3, ok);
    memory::lemma_steps_trans(t, t1, t2, ok);
    memory::lemma_steps_trans(t, t2, t3, ok);
    tape::lemma_only_trans(t1, t2, t3, any);
    if p.new_roots[i] is Some {
        memory::lemma_told_longer(
            start,
            t,
            t1,
            end,
            noting(pr.number, p.new_roots[i]->0),
            ReplyView::Done,
        );
    }
    if update != forge::no_update() {
        memory::lemma_told_longer(start, t1, t2, end, q2, ReplyView::Done);
    }
}

/// All layers are announced.
pub proof fn lemma_announced(
    start: TapeView,
    t: TapeView,
    cx: ContextView,
    p: PlacementView,
    warn: bool,
    i: int,
    st: ProgressView,
)
    requires
        execution::coherent(cx),
        0 <= i <= cx.prs.len(),
        cx.prs.len() == st.stack.layers.len(),
        forall|k: int|
            0 <= k < cx.prs.len() && (#[trigger] cx.prs[k]) is None && cx.decision.push[k]
                ==> p.new_roots[k] == Some(p.tips[k]),
        start.asked.len() <= t.asked.len(),
        forall|k: int| 0 <= k < i ==> #[trigger] announced(start, t, cx, p, warn, st.stack, k),
        execution::announce_from(t, cx, p, warn, i, st).1 is Ok,
    ensures
        ({
            let (end, r) = execution::announce_from(t, cx, p, warn, i, st);
            let s = (r->Ok_0).stack;
            &&& forall|k: int|
                0 <= k < cx.prs.len() ==> #[trigger] announced(start, end, cx, p, warn, s, k)
            &&& memory::steps(t, end, |q: RequestView, r: ReplyView| orderly(cx, p, warn, s, q, r))
            &&& same_layers(s, st.stack)
            &&& forall|k: int|
                0 <= k < cx.prs.len() && (k < i || cx.prs[k] is Some || !cx.decision.push[k]) ==> (
                #[trigger] s.layers[k]).pr == st.stack.layers[k].pr
        }),
    decreases cx.prs.len() - i,
{
    let any = |q: RequestView| true;
    let (end, r) = execution::announce_from(t, cx, p, warn, i, st);
    let s = (r->Ok_0).stack;
    let ok = |q: RequestView, r: ReplyView| orderly(cx, p, warn, s, q, r);
    if i < cx.prs.len() {
        let (t1, r1) = match cx.prs[i] {
            None => if cx.decision.push[i] {
                execution::created(t, cx, p, warn, i, st)
            } else {
                tape::done(t, st)
            },
            Some(pr) => execution::refreshed(t, cx, p, warn, i, pr, st),
        };
        let next = r1->Ok_0;
        assert(execution::announce_from(t, cx, p, warn, i, st) == execution::announce_from(
            t1,
            cx,
            p,
            warn,
            i + 1,
            next,
        ));
        match cx.prs[i] {
            None => if cx.decision.push[i] {
                lemma_created(start, t, cx, p, warn, i, st, next.stack);
            } else {
                tape::lemma_only_start(t, any);
            },
            Some(pr) => lemma_refreshed(start, t, cx, p, warn, i, pr, st, next.stack),
        }
        assert forall|k: int| 0 <= k < i + 1 implies #[trigger] announced(
            start,
            t1,
            cx,
            p,
            warn,
            next.stack,
            k,
        ) by {
            if k < i {
                assert(announced(start, t, cx, p, warn, st.stack, k));
                lemma_announced_longer(start, t, t1, cx, p, warn, st.stack, k);
            }
        }
        lemma_announced(start, t1, cx, p, warn, i + 1, next);
        assert(s.layers[i].pr == next.stack.layers[i].pr);
        match cx.prs[i] {
            None => if cx.decision.push[i] {
                lemma_created(start, t, cx, p, warn, i, st, s);
            } else {
                memory::lemma_steps_start(t, ok);
            },
            Some(pr) => lemma_refreshed(start, t, cx, p, warn, i, pr, st, s),
        }
        memory::lemma_steps_trans(t, t1, end, ok);
        assert forall|k: int| 0 <= k < s.layers.len() implies (#[trigger] s.layers[k]).dep
            == st.stack.layers[k].dep by {
            assert(next.stack.layers[k].dep == st.stack.layers[k].dep);
        }
        assert forall|k: int|
            0 <= k < cx.prs.len() && (k < i || cx.prs[k] is Some || !cx.decision.push[k]) implies (
        #[trigger] s.layers[k]).pr == st.stack.layers[k].pr by {
            assert(next.stack.layers[k].pr == st.stack.layers[k].pr);
        }
    } else {
        memory::lemma_steps_start(t, ok);
    }
}

proof fn lemma_draft_still(
    from: TapeView,
    t: TapeView,
    cx: ContextView,
    i: int,
    p: PlacementView,
)
    requires
        tape::only(from, t, |q: RequestView| still(q)),
    ensures
        tape::only(from, execution::draft_from(t, cx, i, p).0, |q: RequestView| still(q)),
    decreases cx.prs.len() - i,
{
    let quiet = |q: RequestView| still(q);
    if 0 <= i < cx.prs.len() {
        match cx.prs[i] {
            None => lemma_draft_still(from, t, cx, i + 1, p),
            Some(pr) => if pr.draft || pr.base == p.base_branches[i] || p.retargeted_early[i] {
                lemma_draft_still(from, t, cx, i + 1, p);
            } else {
                let q = RequestView::SetDraft { node_id: pr.node_id, draft: true };
                let (t1, r) = tape::ask_unit(t, q);
                tape::lemma_only_ask(from, t, q, quiet);
                if r is Ok {
                    lemma_draft_still(
                        from,
                        t1,
                        cx,
                        i + 1,
                        PlacementView { undraft: p.undraft.push(pr.node_id), ..p },
                    );
                }
            },
        }
    }
}

proof fn lemma_undraft_still(from: TapeView, t: TapeView, nodes: Seq<Seq<char>>, k: int)
    requires
        tape::only(from, t, |q: RequestView| still(q)),
    ensures
        tape::only(from, execution::undraft_from(t, nodes, k).0, |q: RequestView| still(q)),
    decreases nodes.len() - k,
{
    let quiet = |q: RequestView| still(q);
    if 0 <= k < nodes.len() {
        let q = RequestView::SetDraft { node_id: nodes[k], draft: false };
        let (t1, r) = tape::ask_unit(t, q);
        tape::lemma_only_ask(from, t, q, quiet);
        if r is Ok {
            lemma_undraft_still(from, t1, nodes, k + 1);
        }
    }
}

pub proof fn lemma_rewrite_still(
    from: TapeView,
    t: TapeView,
    commits: Seq<(Oid, Seq<char>)>,
    i: int,
    parent: Oid,
    updating: bool,
    rewritten: Seq<Oid>,
)
    requires
        tape::only(from, t, |q: RequestView| still(q)),
    ensures
        tape::only(
            from,
            history::rewrite_from(t, commits, i, parent, updating, rewritten).0,
            |q: RequestView| still(q),
        ),
    decreases commits.len() - i,
{
    broadcast use tape::lemma_only_ask;

    let quiet = |q: RequestView| still(q);
    if 0 <= i < commits.len() {
        let commit = commits[i].0;
        let (t1, current) = tape::ask_text(t, RequestView::MessageOf { commit });
        let (t2, message) = history::written(t1, commits[i].1);
        if current is Ok && message is Ok {
            if updating || current->Ok_0 != message->Ok_0 {
                let (t3, tree) = tape::ask_object(t2, RequestView::TreeOf { commit });
                if tree is Ok {
                    let (t4, new) = tape::ask_object(
                        t3,
                        RequestView::CopyCommit {
                            original: commit,
                            message: message->Ok_0,
                            tree: tree->Ok_0,
                            parent,
                        },
                    );
                    if new is Ok {
                        let (t5, u) = tape::ask_unit(
                            t4,
                            RequestView::PostRewrite { old: commit, new: new->Ok_0 },
                        );
                        if u is Ok {
                            assert(tape::only(from, t5, quiet));
                            lemma_rewrite_still(
                                from,
                                t5,
                                commits,
                                i + 1,
                                new->Ok_0,
                                true,
                                rewritten.push(new->Ok_0),
                            );
                        }
                    }
                }
            } else {
                assert(tape::only(from, t2, quiet));
                lemma_rewrite_still(
                    from,
                    t2,
                    commits,
                    i + 1,
                    commit,
                    false,
                    rewritten.push(commit),
                );
            }
        }
    }
}

proof fn lemma_concluded_still(t: TapeView, p: PlacementView, st: ProgressView)
    ensures
        tape::only(t, execution::concluded(t, p, st).0, |q: RequestView| still(q)),
{
    broadcast use tape::lemma_only_ask;

    let quiet = |q: RequestView| still(q);
    tape::lemma_only_start(t, quiet);
    let (t1, u) = execution::undraft_from(t, p.undraft, 0);
    lemma_undraft_still(t, t, p.undraft, 0);
    if u is Ok {
        let (t2, s) = execution::messages_edited(t1, st.stack, st.messages);
        lemma_rewrite_still(
            t,
            t1,
            execution::rewrites(st.stack, st.messages),
            0,
            st.stack.base,
            false,
            Seq::empty(),
        );
        assert(tape::only(t, t2, quiet));
    }
}

/// New layers get a branch with one commit, which is pushed.
pub open spec fn new_pushed(cx: ContextView, p: PlacementView, n: int) -> bool {
    &&& execution::placed(p, n)
    &&& forall|k: int|
        0 <= k < n && (#[trigger] cx.prs[k]) is None && cx.decision.push[k] ==> p.new_roots[k]
            == Some(p.tips[k]) && among_pushes(p, k)
}

/// The branch of layer `k` is pushed to its tip.
pub open spec fn among_pushes(p: PlacementView, k: int) -> bool {
    exists|m: int|
        0 <= m < p.push_specs.len() && placing::pushes(
            #[trigger] p.push_specs[m],
            p.branches[k],
            p.tips[k],
        )
}

proof fn lemma_new_pushed(t: TapeView, cx: ContextView, i: int, p: PlacementView)
    requires
        0 <= i <= cx.stack.layers.len(),
        new_pushed(cx, p, i),
        execution::place_from(t, cx, i, p).1 is Ok,
    ensures
        new_pushed(
            cx,
            execution::place_from(t, cx, i, p).1->Ok_0,
            cx.stack.layers.len() as int,
        ),
    decreases cx.stack.layers.len() - i,
{
    if i < cx.stack.layers.len() {
        let base = execution::base_of(cx, p, i);
        let (t1, spot) = execution::spot_of(t, cx, p, i, base.0, base.1);
        let spot = spot->Ok_0;
        let (t2, saved) = execution::rescued_from(t1, cx, spot, 0, p);
        let saved = saved->Ok_0;
        execution::lemma_rescued_from(t1, cx, spot, 0, p);
        let next = execution::with_spot(execution::reserve(cx, i, saved, spot), base.1, spot);
        assert forall|k: int|
            0 <= k < i + 1 && (#[trigger] cx.prs[k]) is None && cx.decision.push[k] implies
            next.new_roots[k] == Some(next.tips[k]) && among_pushes(next, k) by {
            if k < i {
                assert(among_pushes(p, k));
                let m = choose|m: int|
                    0 <= m < p.push_specs.len() && placing::pushes(
                        #[trigger] p.push_specs[m],
                        p.branches[k],
                        p.tips[k],
                    );
                assert(next.push_specs[m] == p.push_specs[m]);
            } else {
                let m = saved.push_specs.len() as int;
                assert(placing::pushes(next.push_specs[m], next.branches[k], next.tips[k]));
            }
        }
        lemma_new_pushed(t2, cx, i + 1, next);
    }
}

/// The places of the layers.
pub open spec fn places(t: TapeView, cx: ContextView) -> PlacementView {
    execution::place_from(t, cx, 0, execution::empty_placement(cx)).1->Ok_0
}

/// How a decision was carried out: `pre` is where everything is to be pushed, and `mid`
/// where it has been.
pub struct Course {
    pub pre: TapeView,
    pub mid: TapeView,
    pub warn: bool,
}

/// What may happen before everything is pushed.
pub open spec fn before_push(cx: ContextView, p: PlacementView, q: RequestView) -> bool {
    still(q) || placing::calm(cx.prs, p.base_branches, p.retargeted_early, q)
}

/// The forge was told of everything.
pub open spec fn ran(t: TapeView, cx: ContextView, c: Course) -> bool {
    let (end, r) = execution::executed(t, cx);
    let after = (r->Ok_0).stack;
    let p = places(t, cx);
    let placed = execution::place_from(t, cx, 0, execution::empty_placement(cx)).0;
    &&& r is Ok
    &&& memory::steps(
        t,
        end,
        |q: RequestView, r: ReplyView| orderly(cx, p, c.warn, after, q, r),
    )
    &&& tape::only(placed, end, |q: RequestView| true)
    &&& tape::only(c.mid, end, |q: RequestView| true)
    &&& tape::only(t, c.mid, |q: RequestView| true)
    &&& tape::only(t, c.pre, |q: RequestView| before_push(cx, p, q))
    &&& tape::only(c.mid, end, |q: RequestView| !(q is Push))
    &&& c.mid == c.pre || c.mid == tape::ask(c.pre, RequestView::Push { specs: p.push_specs }).0
    &&& p.push_specs.len() == 0 ==> c.mid == c.pre
    &&& p.push_specs.len() > 0 ==> memory::told_since(
        t,
        c.mid,
        RequestView::Push { specs: p.push_specs },
        ReplyView::Done,
    )
    &&& forall|k: int|
        0 <= k < cx.prs.len() ==> #[trigger] announced(c.mid, end, cx, p, c.warn, after, k)
    &&& early_told(t, end, cx, p, cx.stack.layers.len() as int)
    &&& early_told(t, c.pre, cx, p, cx.stack.layers.len() as int)
    &&& new_pushed(cx, p, cx.stack.layers.len() as int)
    &&& (r->Ok_0).staged == p.staged
    &&& same_layers(after, cx.stack)
    &&& forall|k: int|
        0 <= k < cx.prs.len() && (cx.prs[k] is Some || !cx.decision.push[k]) ==> (
        #[trigger] after.layers[k]).pr == cx.stack.layers[k].pr
    &&& execution::well_placed(placed, cx, p, cx.stack.layers.len() as int)
}

/// What happens when a decision is carried out.
#[verifier::rlimit(60)]
pub proof fn lemma_ran(t: TapeView, cx: ContextView) -> (c: Course)
    requires
        execution::coherent(cx),
        execution::executed(t, cx).1 is Ok,
    ensures
        ran(t, cx, c),
        execution::warns(c.mid, cx.opts).1 == Ok::<bool, HaltView>(c.warn),
        tape::only(
            execution::warns(c.mid, cx.opts).0,
            execution::executed(t, cx).0,
            |q: RequestView| true,
        ),
        tape::only(
            t,
            execution::place_from(t, cx, 0, execution::empty_placement(cx)).0,
            |q: RequestView| placing::calm(
                cx.prs,
                places(t, cx).base_branches,
                places(t, cx).retargeted_early,
                q,
            ),
        ),
{
    let any = |q: RequestView| true;
    assert(tape::may_do_all_but_push(any));
    let (end, e) = execution::executed(t, cx);
    let e = e->Ok_0;
    let empty = execution::empty_placement(cx);
    let (t1, p) = execution::place_from(t, cx, 0, empty);
    let p = p->Ok_0;
    execution::law_well_placed(t, cx);
    lemma_place_calm(t, t, cx, 0, empty, p);
    lemma_place_told(t, t, cx, 0, empty);
    lemma_new_pushed(t, cx, 0, empty);
    let (t2, q) = if cx.config.draft_while_retargeting {
        execution::draft_from(t1, cx, 0, p)
    } else {
        tape::done(t1, p)
    };
    let q = q->Ok_0;
    execution::lemma_draft_keeps_places(t1, cx, 0, p);
    tape::lemma_only_start(t1, |q: RequestView| still(q));
    lemma_draft_still(t1, t1, cx, 0, p);
    assert(tape::only(t1, t2, |q: RequestView| still(q)));
    let push = RequestView::Push { specs: q.push_specs };
    let (t3, u) = if q.push_specs.len() > 0 {
        tape::ask_unit(t2, push)
    } else {
        tape::done(t2, ())
    };
    assert(execution::executed(t, cx) == execution::pushed(t2, cx, q));
    let (t4, w) = execution::warns(t3, cx.opts);
    let w = w->Ok_0;
    let st0 = execution::start_of(cx);
    let (t5, st) = execution::announce_from(t4, cx, q, w, 0, st0);
    let st = st->Ok_0;
    assert((end, Ok::<ExecutedView, HaltView>(e)) == execution::concluded(t5, q, st));
    let after = e.stack;
    lemma_announced(t3, t4, cx, q, w, 0, st0);
    lemma_concluded_still(t5, q, st);
    let (t6, u6) = execution::undraft_from(t5, q.undraft, 0);
    let edited = execution::messages_edited(t6, st.stack, st.messages).1;
    assert(edited == Ok::<StackView, HaltView>(after));
    assert(forall|k: int|
        0 <= k < cx.prs.len() ==> (#[trigger] after.layers[k]).pr == st.stack.layers[k].pr
            && after.layers[k].dep == st.stack.layers[k].dep);
    let ok = |q: RequestView, r: ReplyView| orderly(cx, p, w, after, q, r);
    let quiet = |q: RequestView| still(q);
    let calm = |q: RequestView| placing::calm(cx.prs, p.base_branches, p.retargeted_early, q);
    assert forall|q: RequestView, r: ReplyView| quiet(q) implies #[trigger] ok(q, r) by {}
    assert forall|q: RequestView, r: ReplyView| calm(q) implies #[trigger] ok(q, r) by {}
    memory::lemma_steps_only(t, t1, calm, ok);
    memory::lemma_steps_only(t1, t2, quiet, ok);
    memory::lemma_steps_start(t2, ok);
    memory::lemma_steps_ask(t2, push, ok);
    memory::lemma_steps_start(t3, ok);
    memory::lemma_steps_ask(t3, RequestView::MergeSettings, ok);
    assert(memory::steps(t4, t5, ok)) by {
        let said = |x: RequestView, r: ReplyView| orderly(cx, q, w, st.stack, x, r);
        assert(memory::steps(t4, t5, said));
        assert forall|k: int|
            t4.asked.len() <= k < t5.asked.len() && k < t5.replies.len() implies ok(
            #[trigger] t5.asked[k],
            t5.replies[k],
        ) by {
            assert(said(t5.asked[k], t5.replies[k]));
            lemma_orderly_same(cx, p, q, w, after, st.stack, t5.asked[k], t5.replies[k]);
        }
    }
    memory::lemma_steps_only(t5, end, quiet, ok);
    memory::lemma_steps_trans(t4, t5, end, ok);
    memory::lemma_steps_trans(t3, t4, end, ok);
    memory::lemma_steps_trans(t2, t3, end, ok);
    memory::lemma_steps_trans(t1, t2, end, ok);
    memory::lemma_steps_trans(t, t1, end, ok);
    memory::lemma_steps_trans(t, t1, t2, ok);
    memory::lemma_steps_trans(t, t2, t3, ok);
    if p.push_specs.len() > 0 {
        memory::lemma_told_since(t2, push);
        tape::lemma_only_start(t3, any);
        memory::lemma_told_longer(t, t2, t3, t3, push, ReplyView::Done);
    }
    assert forall|k: int| 0 <= k < cx.prs.len() implies #[trigger] announced(
        t3,
        end,
        cx,
        p,
        w,
        after,
        k,
    ) by {
        assert(announced(t3, t5, cx, q, w, st.stack, k));
        lemma_announced_longer(t3, t5, end, cx, q, w, st.stack, k);
        assert(after.layers[k].pr == st.stack.layers[k].pr);
    }
    lemma_early_stays(t, t1, end, cx, p, cx.stack.layers.len() as int);
    lemma_early_stays(t, t1, t2, cx, p, cx.stack.layers.len() as int);
    let first = |q: RequestView| before_push(cx, p, q);
    assert(tape::only(t, t1, first)) by {
        lemma_allowed(t, t1, calm, first);
    }
    assert(tape::only(t1, t2, first)) by {
        lemma_allowed(t1, t2, quiet, first);
    }
    tape::lemma_only_trans(t, t1, t2, first);
    let no_push = |q: RequestView| !(q is Push);
    tape::lemma_only_start(t3, no_push);
    tape::lemma_only_ask(t3, t3, RequestView::MergeSettings, no_push);
    assert(tape::only(t3, t4, no_push));
    assert(tape::may_do_all_but_push(no_push));
    execution::lemma_announce_from_only(t3, t4, cx, q, w, 0, st0, no_push);
    execution::lemma_concluded_only(t3, t5, q, st, no_push);
    Course { pre: t2, mid: t3, warn: w }
}

/// More may be allowed in a stretch.
pub proof fn lemma_allowed(
    from: TapeView,
    to: TapeView,
    allowed: spec_fn(RequestView) -> bool,
    more: spec_fn(RequestView) -> bool,
)
    requires
        tape::only(from, to, allowed),
        forall|q: RequestView| #[trigger] allowed(q) ==> more(q),
    ensures
        tape::only(from, to, more),
{
    assert forall|k: int| from.asked.len() <= k < to.asked.len() implies more(
        #[trigger] to.asked[k],
    ) by {
        assert(allowed(to.asked[k]));
    }
}

proof fn lemma_orderly_same(
    cx: ContextView,
    p: PlacementView,
    q: PlacementView,
    warn: bool,
    after: StackView,
    other: StackView,
    ask: RequestView,
    reply: ReplyView,
)
    requires
        q == (PlacementView { undraft: q.undraft, ..p }),
        forall|k: int|
            0 <= k < cx.prs.len() ==> (#[trigger] after.layers[k]).pr == other.layers[k].pr,
        orderly(cx, q, warn, other, ask, reply),
    ensures
        orderly(cx, p, warn, after, ask, reply),
{
    match ask {
        RequestView::UpdatePullRequest { number, update } => {
            if refreshes(cx, q, warn, number, update) {
                let k = choose|k: int|
                    0 <= k < cx.prs.len() && #[trigger] is_refresh(cx, q, warn, number, update, k);
                assert(is_refresh(cx, p, warn, number, update, k));
            }
        },
        RequestView::CreatePullRequest { .. } => {
            if let ReplyView::Number(number) = reply {
                let k = choose|k: int|
                    0 <= k < cx.prs.len() && (#[trigger] cx.prs[k]) is None && other.layers[k].pr
                        == Some(number);
                assert(after.layers[k].pr == other.layers[k].pr);
                assert(cx.prs[k] is None);
            }
        },
        RequestView::SetReference { name, oid, .. } => {
            let k = choose|k: int|
                0 <= k < cx.prs.len() && #[trigger] is_note(cx, q, other, name, oid, k);
            assert(after.layers[k].pr == other.layers[k].pr);
            assert(is_note(cx, p, after, name, oid, k));
        },
        _ => {},
    }
}

/// While the layers get their places, the forge is told of bases alone.
proof fn lemma_place_calm(
    from: TapeView,
    t: TapeView,
    cx: ContextView,
    i: int,
    p: PlacementView,
    q: PlacementView,
)
    requires
        execution::coherent(cx),
        0 <= i <= cx.stack.layers.len(),
        execution::placed(p, i),
        execution::place_from(t, cx, i, p).1 == Ok::<PlacementView, HaltView>(q),
        tape::only(from, t, |r: RequestView| placing::calm(cx.prs, q.base_branches, q.retargeted_early, r)),
    ensures
        tape::only(
            from,
            execution::place_from(t, cx, i, p).0,
            |r: RequestView| placing::calm(cx.prs, q.base_branches, q.retargeted_early, r),
        ),
    decreases cx.stack.layers.len() - i,
{
    if i < cx.stack.layers.len() {
        let bases = q.base_branches;
        let base = execution::base_of(cx, p, i);
        let (t1, spot) = execution::spot_of(t, cx, p, i, base.0, base.1);
        let spot = spot->Ok_0;
        let (t2, saved) = execution::rescued_from(t1, cx, spot, 0, p);
        let saved = saved->Ok_0;
        execution::lemma_rescued_from(t1, cx, spot, 0, p);
        let next = execution::with_spot(execution::reserve(cx, i, saved, spot), base.1, spot);
        assert(execution::place_from(t, cx, i, p) == execution::place_from(t2, cx, i + 1, next));
        placing::lemma_extends(t2, cx, i + 1, next);
        placing::lemma_extends(t, cx, i, p);
        assert(bases[i] == bases.take(i + 1)[i]);
        assert(next.base_branches[i] == base.1);
        let early = q.retargeted_early;
        assert(next.retargeted_early[i] == spot.early);
        placing::lemma_spot_calm(from, t, cx, p, bases, early, i);
        assert forall|m: int| 0 <= m < i && #[trigger] saved.retargeted_early[m] implies early[m] by {
            assert(next.retargeted_early[m]);
        }
        placing::lemma_rescued_calm(from, t1, cx, bases, early, spot, 0, p);
        lemma_place_calm(from, t2, cx, i + 1, next, q);
    }
}

/// What the description of the pull request of layer `i` is made of.
pub open spec fn description(cx: ContextView, i: int) -> Seq<char> {
    match cx.prs[i] {
        Some(pr) => if cx.opts.update_message || cx.decision.message_changed[i] {
            cx.stack.layers[i].message.body
        } else {
            pr.body
        },
        None => cx.stack.layers[i].message.body,
    }
}

/// The pull requests that were found are as they are where a decision is carried out.
pub open spec fn found(
    before: spec_fn(RequestView) -> ReplyView,
    to: TapeView,
    t: TapeView,
    cx: ContextView,
) -> bool {
    forall|k: int|
        0 <= k < cx.prs.len() ==> (#[trigger] cx.prs[k] matches Some(pr) ==> memory::alike(
            pr,
            memory::pr_at(before, to, t.asked.len() as int, pr.number),
        ) && memory::named(to, t.asked.len() as int, pr.number) && pr.head_oid == memory::tip_at(
            before,
            to,
            t.asked.len() as int,
            pr.head,
        ) && (pr.base_oid != oid::zero_oid() ==> pr.base_oid == memory::tip_at(
            before,
            to,
            t.asked.len() as int,
            pr.base,
        )))
}

/// No two layers have the same pull request.
pub open spec fn distinct_numbers(prs: Seq<Option<PrView>>) -> bool {
    forall|i: int, j: int|
        0 <= i < j < prs.len() && (#[trigger] prs[i]) is Some && (#[trigger] prs[j]) is Some
            ==> (prs[i]->0).number != (prs[j]->0).number
}

/// The pull request of layer `i` after a decision was carried out.
pub open spec fn left_as_told(
    pr: PrView,
    cx: ContextView,
    p: PlacementView,
    after: StackView,
    warn: bool,
    i: int,
) -> bool {
    &&& pr.number == number_of(cx, after, i)
    &&& pr.head == p.branches[i]
    &&& pr.base == p.base_branches[i]
    &&& pr.body == pr_body::with_warning(description(cx, i), warn)
    &&& among_pushes(p, i) ==> pr.head_oid == p.tips[i]
    &&& !cx.decision.push[i] ==> pr.head_oid == (cx.prs[i]->0).head_oid
}

/// What a push brings to the branch of layer `i`.
pub proof fn lemma_brings(t: TapeView, cx: ContextView, p: PlacementView, i: int)
    requires
        execution::coherent(cx),
        execution::well_placed(t, cx, p, cx.stack.layers.len() as int),
        execution::distinct_heads(cx.prs),
        0 <= i < cx.stack.layers.len(),
        execution::has_branch(cx, i),
    ensures
        among_pushes(p, i) ==> memory::pushed_oid(p.push_specs, p.branches[i], 0) == Some(
            p.tips[i],
        ),
        !cx.decision.push[i] ==> memory::pushed_oid(p.push_specs, p.branches[i], 0) is None,
        memory::pushed_oid(p.push_specs, p.branches[i], 0) matches Some(commit) ==> commit
            == p.tips[i],
{
    let n = cx.stack.layers.len() as int;
    assert forall|m: int|
        0 <= m < p.push_specs.len() && (#[trigger] p.push_specs[m]).branch == p.branches[i] implies
        p.push_specs[m].oid == Some(p.tips[i]) && cx.decision.push[i] by {
        assert(execution::pushes_some(t, cx, p, n, p.push_specs[m]));
        let k = choose|k: int|
            0 <= k < n && #[trigger] execution::pushes_layer(t, cx, p, k, p.push_specs[m]);
        assert(execution::has_branch(cx, k));
        if k < i {
            assert(p.branches[k] != p.branches[i]);
        } else if i < k {
            assert(p.branches[i] != p.branches[k]);
        }
    }
    if among_pushes(p, i) {
        let m = choose|m: int|
            0 <= m < p.push_specs.len() && placing::pushes(
                #[trigger] p.push_specs[m],
                p.branches[i],
                p.tips[i],
            );
        memory::lemma_pushed_oid(p.push_specs, p.branches[i], 0, m, p.tips[i]);
    } else {
        assert forall|m: int| 0 <= m < p.push_specs.len() implies (
        #[trigger] p.push_specs[m]).branch != p.branches[i] by {
            if p.push_specs[m].branch == p.branches[i] {
                assert(placing::pushes(p.push_specs[m], p.branches[i], p.tips[i]));
            }
        }
        memory::lemma_not_pushed(p.push_specs, p.branches[i], 0);
    }
    if !cx.decision.push[i] {
        assert forall|m: int| 0 <= m < p.push_specs.len() implies (
        #[trigger] p.push_specs[m]).branch != p.branches[i] by {}
        memory::lemma_not_pushed(p.push_specs, p.branches[i], 0);
    }
}

/// A push brings nothing to a branch that is not pushed.
pub proof fn lemma_unpushed(t: TapeView, cx: ContextView, p: PlacementView, i: int)
    requires
        execution::coherent(cx),
        execution::well_placed(t, cx, p, cx.stack.layers.len() as int),
        execution::distinct_heads(cx.prs),
        0 <= i < cx.stack.layers.len(),
        execution::has_branch(cx, i),
        !among_pushes(p, i),
    ensures
        memory::pushed_oid(p.push_specs, p.branches[i], 0) is None,
{
    lemma_brings(t, cx, p, i);
    let n = cx.stack.layers.len() as int;
    assert forall|m: int| 0 <= m < p.push_specs.len() implies (#[trigger] p.push_specs[m]).branch
        != p.branches[i] by {
        if p.push_specs[m].branch == p.branches[i] {
            assert(execution::pushes_some(t, cx, p, n, p.push_specs[m]));
            let k = choose|k: int|
                0 <= k < n && #[trigger] execution::pushes_layer(t, cx, p, k, p.push_specs[m]);
            assert(execution::has_branch(cx, k));
            if k < i {
                assert(p.branches[k] != p.branches[i]);
            } else if i < k {
                assert(p.branches[i] != p.branches[k]);
            }
            assert(placing::pushes(p.push_specs[m], p.branches[i], p.tips[i]));
        }
    }
    memory::lemma_not_pushed(p.push_specs, p.branches[i], 0);
}

/// What happens in a round, as the whole conversation has it.
pub proof fn lemma_orderly_at(t: TapeView, cx: ContextView, c: Course, to: TapeView, k: int)
    requires
        ran(t, cx, c),
        tape::only(execution::executed(t, cx).0, to, |q: RequestView| true),
        t.asked.len() <= k < execution::executed(t, cx).0.asked.len(),
        k < to.replies.len(),
    ensures
        orderly(
            cx,
            places(t, cx),
            c.warn,
            (execution::executed(t, cx).1->Ok_0).stack,
            to.asked[k],
            to.replies[k],
        ),
{
    let end = execution::executed(t, cx).0;
    let after = (execution::executed(t, cx).1->Ok_0).stack;
    let p = places(t, cx);
    let ok = |q: RequestView, r: ReplyView| orderly(cx, p, c.warn, after, q, r);
    assert(ok(end.asked[k], end.replies[k]));
    assert(to.asked[k] == end.asked[k]);
}

/// The requests of a run that ends well all have replies.
pub open spec fn answered(t: TapeView) -> bool {
    t.asked.len() <= t.replies.len()
}

/// What happens to a pull request that was there before.
#[verifier::rlimit(40)]
pub proof fn lemma_mild_at(
    before: spec_fn(RequestView) -> ReplyView,
    world: spec_fn(RequestView) -> ReplyView,
    t: TapeView,
    cx: ContextView,
    c: Course,
    to: TapeView,
    i: int,
    pr: PrView,
    x: int,
)
    requires
        execution::coherent(cx),
        ran(t, cx, c),
        memory::remembers(before, world, to),
        tape::only(execution::executed(t, cx).0, to, |q: RequestView| true),
        answered(to),
        found(before, to, t, cx),
        distinct_numbers(cx.prs),
        execution::distinct_heads(cx.prs),
        0 <= i < cx.stack.layers.len(),
        cx.prs[i] == Some(pr),
        t.asked.len() <= x < execution::executed(t, cx).0.asked.len(),
    ensures
        memory::mild(
            to.asked[x],
            to.replies[x],
            pr.number,
            pr.head,
            places(t, cx).base_branches[i],
            pr_body::with_warning(description(cx, i), c.warn),
            places(t, cx).tips[i],
        ),
{
    let p = places(t, cx);
    let placed = execution::place_from(t, cx, 0, execution::empty_placement(cx)).0;
    let m = t.asked.len() as int;
    lemma_brings(placed, cx, p, i);
    assert(p.branches[i] == pr.head);
    lemma_orderly_at(t, cx, c, to, x);
    match to.asked[x] {
        RequestView::CreatePullRequest { .. } => {
            assert(memory::recalls(before, world, to, x, to.asked[x], to.replies[x]));
            let y = choose|y: int|
                0 <= y < m && y < to.replies.len() && memory::names(
                    #[trigger] to.asked[y],
                    to.replies[y],
                    pr.number,
                );
            assert(memory::names(to.asked[y], to.replies[y], pr.number));
            assert(memory::named(to, x, pr.number));
        },
        RequestView::UpdatePullRequest { number, update } => {
            if number == pr.number {
                if placing::rebases(cx.prs, p.base_branches, p.retargeted_early, number, update) {
                    let j = choose|j: int|
                        0 <= j < cx.prs.len() && #[trigger] placing::is_rebase(
                            cx.prs,
                            p.base_branches,
                            p.retargeted_early,
                            number,
                            update,
                            j,
                        );
                    assert(cx.prs[j] is Some && cx.prs[i] is Some);
                    assert(j == i);
                } else {
                    let j = choose|j: int|
                        0 <= j < cx.prs.len() && #[trigger] is_refresh(
                            cx,
                            p,
                            c.warn,
                            number,
                            update,
                            j,
                        );
                    assert(cx.prs[j] is Some && cx.prs[i] is Some);
                    assert(j == i);
                }
            }
        },
        _ => {},
    }
}

/// The state of a pull request that was there before.
#[verifier::rlimit(60)]
proof fn lemma_state_old(
    before: spec_fn(RequestView) -> ReplyView,
    world: spec_fn(RequestView) -> ReplyView,
    t: TapeView,
    cx: ContextView,
    c: Course,
    to: TapeView,
    i: int,
    pr: PrView,
)
    requires
        execution::coherent(cx),
        ran(t, cx, c),
        memory::remembers(before, world, to),
        tape::only(execution::executed(t, cx).0, to, |q: RequestView| true),
        answered(to),
        found(before, to, t, cx),
        distinct_numbers(cx.prs),
        execution::distinct_heads(cx.prs),
        0 <= i < cx.stack.layers.len(),
        cx.prs[i] == Some(pr),
    ensures
        left_as_told(
            memory::pr_at(
                before,
                to,
                execution::executed(t, cx).0.asked.len() as int,
                pr.number,
            ),
            cx,
            places(t, cx),
            (execution::executed(t, cx).1->Ok_0).stack,
            c.warn,
            i,
        ),
{
    let any = |q: RequestView| true;
    let end = execution::executed(t, cx).0;
    let after = (execution::executed(t, cx).1->Ok_0).stack;
    let p = places(t, cx);
    let placed = execution::place_from(t, cx, 0, execution::empty_placement(cx)).0;
    let m = t.asked.len() as int;
    let k = end.asked.len() as int;
    let base = p.base_branches[i];
    let body = pr_body::with_warning(description(cx, i), c.warn);
    let tip = p.tips[i];
    lemma_brings(placed, cx, p, i);
    assert(p.branches[i] == pr.head);
    assert forall|x: int| m <= x < k implies memory::mild(
        #[trigger] to.asked[x],
        to.replies[x],
        pr.number,
        pr.head,
        base,
        body,
        tip,
    ) by {
        lemma_mild_at(before, world, t, cx, c, to, i, pr, x);
    }
    memory::lemma_mild(before, to, m, k, pr.number, pr.head, base, body, tip);
    assert(announced(c.mid, end, cx, p, c.warn, after, i));
    let update = refresh_of(cx, p, c.warn, pr, i);
    let asks = RequestView::UpdatePullRequest { number: pr.number, update };
    if update != forge::no_update() {
        let x = choose|x: int|
            c.mid.asked.len() <= x < end.asked.len() && x < end.replies.len()
                && #[trigger] end.asked[x] == asks && end.replies[x] == ReplyView::Done;
        assert(to.asked[x] == asks);
        assert(update.base is Some ==> memory::gives_base(to.asked[x], to.replies[x], pr.number));
        assert(update.body is Some ==> memory::gives_body(to.asked[x], to.replies[x], pr.number));
    }
    if p.retargeted_early[i] {
        let asks = rebase(pr.number, base);
        let x = choose|x: int|
            t.asked.len() <= x < end.asked.len() && x < end.replies.len()
                && #[trigger] end.asked[x] == asks && end.replies[x] == ReplyView::Done;
        assert(to.asked[x] == asks);
        assert(memory::gives_base(to.asked[x], to.replies[x], pr.number));
    }
    if among_pushes(p, i) {
        let asks = RequestView::Push { specs: p.push_specs };
        let x = choose|x: int|
            t.asked.len() <= x < c.mid.asked.len() && x < c.mid.replies.len()
                && #[trigger] c.mid.asked[x] == asks && c.mid.replies[x] == ReplyView::Done;
        assert(end.asked[x] == asks);
        assert(to.asked[x] == asks);
        assert(memory::brings(to.asked[x], to.replies[x], pr.head) is Some);
    }
    if !cx.decision.push[i] {
        lemma_head_stays(before, t, cx, c, to, i, pr, k);
    }
}

/// A branch that is not pushed keeps its head.
proof fn lemma_head_stays(
    before: spec_fn(RequestView) -> ReplyView,
    t: TapeView,
    cx: ContextView,
    c: Course,
    to: TapeView,
    i: int,
    pr: PrView,
    k: int,
)
    requires
        ran(t, cx, c),
        tape::only(execution::executed(t, cx).0, to, |q: RequestView| true),
        answered(to),
        found(before, to, t, cx),
        t.asked.len() <= k <= execution::executed(t, cx).0.asked.len(),
        0 <= i < cx.prs.len(),
        cx.prs[i] == Some(pr),
        memory::pushed_oid(places(t, cx).push_specs, pr.head, 0) is None,
        forall|x: int|
            t.asked.len() <= x < k ==> !(#[trigger] to.asked[x] is CreatePullRequest
                && to.replies[x] == ReplyView::Number(pr.number)),
    ensures
        memory::pr_at(before, to, k, pr.number).head_oid == pr.head_oid,
        memory::pr_at(before, to, k, pr.number).head == pr.head,
    decreases k,
{
    if t.asked.len() < k {
        lemma_head_stays(before, t, cx, c, to, i, pr, k - 1);
        lemma_orderly_at(t, cx, c, to, k - 1);
        assert(!(to.asked[k - 1] is CreatePullRequest && to.replies[k - 1] == ReplyView::Number(
            pr.number,
        )));
    } else {
        assert(cx.prs[i] is Some);
    }
}

/// What was just opened is not touched again.
#[verifier::rlimit(40)]
pub proof fn lemma_untouched_at(
    before: spec_fn(RequestView) -> ReplyView,
    world: spec_fn(RequestView) -> ReplyView,
    t: TapeView,
    cx: ContextView,
    c: Course,
    to: TapeView,
    number: u64,
    at: int,
    x: int,
)
    requires
        ran(t, cx, c),
        memory::remembers(before, world, to),
        tape::only(execution::executed(t, cx).0, to, |q: RequestView| true),
        answered(to),
        found(before, to, t, cx),
        t.asked.len() <= at < x < execution::executed(t, cx).0.asked.len(),
        to.asked[at] is CreatePullRequest,
        to.replies[at] == ReplyView::Number(number),
    ensures
        !memory::touches(to.asked[x], to.replies[x], number),
{
    let p = places(t, cx);
    let m = t.asked.len() as int;
    assert(memory::names(to.asked[at], to.replies[at], number));
    assert(memory::recalls(before, world, to, at, to.asked[at], to.replies[at]));
    lemma_orderly_at(t, cx, c, to, x);
    match to.asked[x] {
        RequestView::CreatePullRequest { .. } => {
            assert(memory::recalls(before, world, to, x, to.asked[x], to.replies[x]));
            if to.replies[x] == ReplyView::Number(number) {
                assert(memory::named(to, x, number));
            }
        },
        RequestView::UpdatePullRequest { number: updated, update } => {
            if updated == number {
                let j = if placing::rebases(cx.prs, p.base_branches, p.retargeted_early, number, update) {
                    choose|j: int|
                        0 <= j < cx.prs.len() && #[trigger] placing::is_rebase(
                            cx.prs,
                            p.base_branches,
                            p.retargeted_early,
                            number,
                            update,
                            j,
                        )
                } else {
                    choose|j: int|
                        0 <= j < cx.prs.len() && #[trigger] is_refresh(
                            cx,
                            p,
                            c.warn,
                            number,
                            update,
                            j,
                        )
                };
                assert(cx.prs[j] is Some);
                let y = choose|y: int|
                    0 <= y < m && y < to.replies.len() && memory::names(
                        #[trigger] to.asked[y],
                        to.replies[y],
                        number,
                    );
                assert(memory::names(to.asked[y], to.replies[y], number));
                assert(memory::named(to, at, number));
            }
        },
        _ => {},
    }
}

/// The state of a pull request that was opened.
#[verifier::rlimit(60)]
proof fn lemma_state_new(
    before: spec_fn(RequestView) -> ReplyView,
    world: spec_fn(RequestView) -> ReplyView,
    t: TapeView,
    cx: ContextView,
    c: Course,
    to: TapeView,
    i: int,
)
    requires
        execution::coherent(cx),
        ran(t, cx, c),
        memory::remembers(before, world, to),
        tape::only(execution::executed(t, cx).0, to, |q: RequestView| true),
        answered(to),
        found(before, to, t, cx),
        execution::distinct_heads(cx.prs),
        0 <= i < cx.stack.layers.len(),
        cx.prs[i] is None,
        cx.decision.push[i],
    ensures
        left_as_told(
            memory::pr_at(
                before,
                to,
                execution::executed(t, cx).0.asked.len() as int,
                number_of(cx, (execution::executed(t, cx).1->Ok_0).stack, i),
            ),
            cx,
            places(t, cx),
            (execution::executed(t, cx).1->Ok_0).stack,
            c.warn,
            i,
        ),
        memory::named(
            to,
            execution::executed(t, cx).0.asked.len() as int,
            number_of(cx, (execution::executed(t, cx).1->Ok_0).stack, i),
        ),
{
    let end = execution::executed(t, cx).0;
    let after = (execution::executed(t, cx).1->Ok_0).stack;
    let p = places(t, cx);
    let placed = execution::place_from(t, cx, 0, execution::empty_placement(cx)).0;
    let number = after.layers[i].pr->0;
    let m = t.asked.len() as int;
    let k = end.asked.len() as int;
    assert(announced(c.mid, end, cx, p, c.warn, after, i));
    assert(among_pushes(p, i));
    lemma_brings(placed, cx, p, i);
    let new = opening(cx, p, c.warn, i);
    let asks = RequestView::CreatePullRequest { pr: new };
    let at = choose|x: int|
        c.mid.asked.len() <= x < end.asked.len() && x < end.replies.len()
            && #[trigger] end.asked[x] == asks && end.replies[x] == ReplyView::Number(number);
    assert(to.asked[at] == asks);
    let sends = RequestView::Push { specs: p.push_specs };
    let push = choose|x: int|
        t.asked.len() <= x < c.mid.asked.len() && x < c.mid.replies.len()
            && #[trigger] c.mid.asked[x] == sends && c.mid.replies[x] == ReplyView::Done;
    assert(end.asked[push] == sends);
    assert(to.asked[push] == sends);
    assert(memory::names(to.asked[at], to.replies[at], number));
    assert(memory::recalls(before, world, to, at, to.asked[at], to.replies[at]));
    assert forall|x: int| m <= x < k implies (memory::brings(
        #[trigger] to.asked[x],
        to.replies[x],
        new.head,
    ) matches Some(commit) ==> commit == p.tips[i]) by {
        lemma_orderly_at(t, cx, c, to, x);
    }
    assert forall|x: int| at < x < k implies !memory::touches(
        #[trigger] to.asked[x],
        to.replies[x],
        number,
    ) by {
        lemma_untouched_at(before, world, t, cx, c, to, number, at, x);
    }
    memory::lemma_opened(before, to, m, push, at, k, number, new, p.tips[i]);
}

/// Every pull request is left as the forge was told.
pub proof fn lemma_state(
    before: spec_fn(RequestView) -> ReplyView,
    world: spec_fn(RequestView) -> ReplyView,
    t: TapeView,
    cx: ContextView,
    c: Course,
    to: TapeView,
    i: int,
)
    requires
        execution::coherent(cx),
        ran(t, cx, c),
        memory::remembers(before, world, to),
        tape::only(execution::executed(t, cx).0, to, |q: RequestView| true),
        answered(to),
        found(before, to, t, cx),
        distinct_numbers(cx.prs),
        execution::distinct_heads(cx.prs),
        0 <= i < cx.stack.layers.len(),
        execution::has_branch(cx, i),
    ensures
        left_as_told(
            memory::pr_at(
                before,
                to,
                execution::executed(t, cx).0.asked.len() as int,
                number_of(cx, (execution::executed(t, cx).1->Ok_0).stack, i),
            ),
            cx,
            places(t, cx),
            (execution::executed(t, cx).1->Ok_0).stack,
            c.warn,
            i,
        ),
{
    match cx.prs[i] {
        Some(pr) => lemma_state_old(before, world, t, cx, c, to, i, pr),
        None => lemma_state_new(before, world, t, cx, c, to, i),
    }
}

} // verus!
