//! What a run makes of a stack that is at rest.
//!
//! A run is a function of the replies it gets. Where nothing changes while it goes on,
//! they are those of a world that stands still, and whether there is anything to do can
//! be told from that world.

use vstd::prelude::*;

use crate::config;
use crate::config::ConfigView;
use crate::discovery;
use crate::discovery::TreesView;
use crate::engine;
use crate::engine::{DecisionView, LayerAction, LayerCheck, OptionsView};
use crate::execution;
use crate::execution::{ContextView, OutcomeView, PlacementView, ProgressView};
use crate::forge;
use crate::forge::{Mergeable, PrView};
use crate::history;
use crate::oid::Oid;
use crate::pr_body;
use crate::refs;
use crate::review_diff;
use crate::stack;
use crate::stack::{Dep, StackView};
use crate::syncing;
use crate::tape;
use crate::tape::{HaltView, MergeView, ReplyView, RequestView, TapeView};
use crate::text;
use crate::trailers;
use crate::trailers::MessageView;
use crate::upgrade;

verus! {

/// Since `from`, every request that has a reply got the one that the world gives.
pub open spec fn hears(
    from: TapeView,
    to: TapeView,
    world: spec_fn(RequestView) -> ReplyView,
) -> bool {
    forall|k: int|
        from.asked.len() <= k < to.asked.len() && k < to.replies.len() ==> to.replies[k] == world(
            #[trigger] to.asked[k],
        )
}

/// A request asks about commits and trees, which are what they are for good.
pub open spec fn steady(q: RequestView) -> bool {
    match q {
        RequestView::TreeOf { .. } => true,
        RequestView::MessageOf { .. } => true,
        RequestView::ParentOf { .. } => true,
        RequestView::FirstParentOf { .. } => true,
        RequestView::TryParentOf { .. } => true,
        RequestView::TryFirstParentOf { .. } => true,
        RequestView::IsAncestor { .. } => true,
        RequestView::MayBeAncestor { .. } => true,
        RequestView::TryIsAncestor { .. } => true,
        RequestView::MergeBase { .. } => true,
        RequestView::MergeBaseIfAny { .. } => true,
        RequestView::MergeTrees { .. } => true,
        RequestView::PatchId { .. } => true,
        _ => false,
    }
}

/// Since `from`, every question about commits and trees got the reply that the world
/// gives.
pub open spec fn hears_steady(
    from: TapeView,
    to: TapeView,
    world: spec_fn(RequestView) -> ReplyView,
) -> bool {
    forall|k: int|
        from.asked.len() <= k < to.asked.len() && k < to.replies.len() && steady(
            #[trigger] to.asked[k],
        ) ==> to.replies[k] == world(to.asked[k])
}

/// What holds of a whole conversation holds of its beginning.
proof fn lemma_heard(
    from: TapeView,
    mid: TapeView,
    to: TapeView,
    world: spec_fn(RequestView) -> ReplyView,
)
    requires
        tape::only(mid, to, |q: RequestView| true),
        hears(from, to, world),
    ensures
        hears(from, mid, world),
{
    assert forall|k: int|
        from.asked.len() <= k < mid.asked.len() && k < mid.replies.len() implies mid.replies[k]
        == world(#[trigger] mid.asked[k]) by {
        assert(to.asked[k] == mid.asked[k]);
    }
}

/// A reply comes from the world.
pub proof fn lemma_reply(
    from: TapeView,
    t: TapeView,
    q: RequestView,
    to: TapeView,
    world: spec_fn(RequestView) -> ReplyView,
)
    requires
        from.asked.len() <= t.asked.len(),
        tape::only(tape::ask(t, q).0, to, |q: RequestView| true),
        hears(from, to, world),
    ensures
        tape::ask(t, q).1 matches Ok(r) ==> r == world(q),
{
    let after = tape::ask(t, q).0;
    lemma_heard(from, after, to, world);
    let k = t.asked.len() as int;
    assert(after.asked[k] == q);
}

/// A reply about commits and trees comes from the world.
pub proof fn lemma_steady_reply(
    from: TapeView,
    t: TapeView,
    q: RequestView,
    to: TapeView,
    world: spec_fn(RequestView) -> ReplyView,
)
    requires
        from.asked.len() <= t.asked.len(),
        steady(q),
        tape::only(tape::ask(t, q).0, to, |q: RequestView| true),
        hears_steady(from, to, world),
    ensures
        tape::ask(t, q).1 matches Ok(r) ==> r == world(q),
{
    let after = tape::ask(t, q).0;
    let k = t.asked.len() as int;
    assert(after.asked[k] == q);
    assert(to.asked[k] == q);
}

/// The tree of a commit.
pub open spec fn tree_in(world: spec_fn(RequestView) -> ReplyView, commit: Oid) -> Oid {
    world(RequestView::TreeOf { commit })->Object_0
}

/// The pull request of layer `i`.
pub open spec fn pr_in(world: spec_fn(RequestView) -> ReplyView, s: StackView, i: int) -> PrView {
    world(RequestView::GetPullRequest { number: s.layers[i].pr->0 })->Pr_0
}

/// The commit that layer `i` is to sit on.
pub open spec fn base_tip_in(world: spec_fn(RequestView) -> ReplyView, s: StackView, i: int) -> Oid {
    match s.layers[i].dep {
        Dep::Layer(j) => pr_in(world, s, j as int).head_oid,
        _ => s.base,
    }
}

/// The branch that layer `i` is to sit on.
pub open spec fn base_branch_in(
    world: spec_fn(RequestView) -> ReplyView,
    c: ConfigView,
    s: StackView,
    i: int,
) -> Seq<char> {
    match s.layers[i].dep {
        Dep::Layer(j) => pr_in(world, s, j as int).head,
        _ => c.trunk,
    }
}

/// The content that layer `i` is to be seen on top of.
pub open spec fn dep_in(world: spec_fn(RequestView) -> ReplyView, s: StackView, i: int) -> Oid
    decreases i, 0int,
{
    match s.layers[i].dep {
        Dep::Layer(j) => if 0 <= j < i {
            content_in(world, s, j as int)
        } else {
            tree_in(world, s.base)
        },
        _ => tree_in(world, s.base),
    }
}

/// The content of layer `i`.
pub open spec fn content_in(world: spec_fn(RequestView) -> ReplyView, s: StackView, i: int) -> Oid
    decreases i, 1int,
{
    let base = dep_in(world, s, i);
    let local = tree_in(world, s.layers[i].parent);
    let own = tree_in(world, s.layers[i].commit);
    if base == local {
        own
    } else {
        (world(RequestView::MergeTrees { base: local, ours: base, theirs: own })->Merged_0)->Clean_0
    }
}

/// Whether the bodies are to say how the pull requests must be merged.
pub open spec fn warn_in(world: spec_fn(RequestView) -> ReplyView, preserve: bool) -> bool {
    preserve && !forge::squash_only(world(RequestView::MergeSettings)->Settings_0)
}

/// Whether the commits of a branch are kept.
pub open spec fn preserve_in(world: spec_fn(RequestView) -> ReplyView, c: ConfigView) -> bool {
    config::preserve_resolved(
        c.preserve_commit_history,
        world(RequestView::MergeSettings)->Settings_0,
    )
}

/// What is displayed of a branch is the patch from `dep` to `content`.
pub open spec fn displays(
    world: spec_fn(RequestView) -> ReplyView,
    base_tip: Oid,
    head: Oid,
    dep: Oid,
    content: Oid,
) -> bool {
    let fork = world(RequestView::MergeBase { a: base_tip, b: head })->Object_0;
    world(RequestView::PatchId { from: tree_in(world, fork), to: tree_in(world, head) }) == world(
        RequestView::PatchId { from: dep, to: content },
    )
}

/// What a branch brings, put on top of `dep`, comes to `content`.
pub open spec fn merges_in(
    world: spec_fn(RequestView) -> ReplyView,
    fork: Oid,
    head: Oid,
    dep: Oid,
    content: Oid,
) -> bool {
    world(
        RequestView::MergeTrees {
            base: tree_in(world, fork),
            ours: dep,
            theirs: tree_in(world, head),
        },
    ) == ReplyView::Merged(MergeView::Clean(content))
}

/// Layer `i` is at rest: its pull request is based on the branch it is to sit on; what
/// is below carries its own content, or the branch comes to the layer's content on top
/// of it; the patch that is displayed is the layer's; and the first commit of the
/// branch says what the layer's message says.
pub open spec fn rests(
    world: spec_fn(RequestView) -> ReplyView,
    c: ConfigView,
    s: StackView,
    i: int,
) -> bool {
    let preserve = preserve_in(world, c);
    let warn = warn_in(world, preserve);
    let pr = pr_in(world, s, i);
    let base_tip = base_tip_in(world, s, i);
    let fork = world(RequestView::MergeBase { a: base_tip, b: pr.head_oid })->Object_0;
    &&& s.layers[i].pr is Some
    &&& pr.base == base_branch_in(world, c, s, i)
    &&& pr.mergeable != Mergeable::Conflicting
    &&& pr.body == pr_body::with_warning(pr.body, warn)
    &&& tree_in(world, base_tip) == dep_in(world, s, i) || merges_in(
        world,
        fork,
        pr.head_oid,
        dep_in(world, s, i),
        content_in(world, s, i),
    )
    &&& displays(world, base_tip, pr.head_oid, dep_in(world, s, i), content_in(world, s, i))
    &&& root_rests(world, pr, base_tip, s.layers[i].message, preserve)
}

/// Whoever asks the world for the first commit of a branch gets one that says what the
/// message says, and that is the only one where no others are kept.
pub open spec fn root_rests(
    world: spec_fn(RequestView) -> ReplyView,
    pr: PrView,
    base_tip: Oid,
    message: MessageView,
    preserve: bool,
) -> bool {
    forall|t: TapeView| #[trigger]
        hears(t, history::root_commit(t, pr, base_tip).0, world) ==> (history::root_commit(
            t,
            pr,
            base_tip,
        ).1 matches Ok(Some(root)) ==> text::trim(
            world(RequestView::MessageOf { commit: root })->Text_0,
        ) == text::trim(trailers::rendered(trailers::for_branch(message))) && (!preserve ==> root
            == pr.head_oid))
}

/// All layers are at rest.
pub open spec fn at_rest(
    world: spec_fn(RequestView) -> ReplyView,
    c: ConfigView,
    s: StackView,
) -> bool {
    forall|i: int| 0 <= i < s.layers.len() ==> #[trigger] rests(world, c, s, i)
}

/// The trees that are found are those of the world.
pub proof fn lemma_trees(
    from: TapeView,
    t: TapeView,
    s: StackView,
    i: int,
    trees: TreesView,
    world: spec_fn(RequestView) -> ReplyView,
)
    requires
        stack::well_formed(s),
        0 <= i <= s.layers.len(),
        from.asked.len() <= t.asked.len(),
        trees.effective.len() == i,
        trees.dep.len() == i,
        forall|k: int|
            0 <= k < i ==> #[trigger] trees.effective[k] == content_in(world, s, k),
        forall|k: int| 0 <= k < i ==> #[trigger] trees.dep[k] == dep_in(world, s, k),
        hears_steady(from, discovery::trees_from(t, s, i, trees).0, world),
    ensures
        discovery::trees_from(t, s, i, trees).1 matches Ok(all) ==> all.effective.len()
            == s.layers.len() && all.dep.len() == s.layers.len() && (forall|k: int|
            0 <= k < s.layers.len() ==> #[trigger] all.effective[k] == content_in(world, s, k))
            && (forall|k: int|
            0 <= k < s.layers.len() ==> #[trigger] all.dep[k] == dep_in(world, s, k)),
    decreases s.layers.len() - i,
{
    broadcast use {
        tape::lemma_only_ask,
        discovery::lemma_tree_on_only,
        discovery::lemma_trees_from_only,
    };

    let any = |q: RequestView| true;
    let to = discovery::trees_from(t, s, i, trees).0;
    if i < s.layers.len() && discovery::trees_from(t, s, i, trees).1 is Ok {
        let layer = s.layers[i];
        assert(layer.dep matches Dep::Layer(j) ==> j < i);
        let (t1, base) = discovery::base_tree(t, s, i, trees.effective);
        let base = base->Ok_0;
        let (t2, tree) = discovery::tree_on(t1, s, i, base);
        let tree = tree->Ok_0;
        let next = TreesView {
            effective: trees.effective.push(tree),
            dep: trees.dep.push(base),
        };
        assert(to == discovery::trees_from(t2, s, i + 1, next).0);
        tape::lemma_only_start(t, any);
        tape::lemma_only_start(t1, any);
        tape::lemma_only_start(t2, any);
        assert(tape::only(t2, to, any));
        assert(tape::only(t1, t2, any));
        tape::lemma_only_trans(t1, t2, to, any);
        if !(layer.dep is Layer) {
            lemma_steady_reply(from, t, RequestView::TreeOf { commit: s.base }, to, world);
        }
        assert(base == dep_in(world, s, i));
        assert(t1.asked.len() >= t.asked.len());
        let q1 = RequestView::TreeOf { commit: layer.parent };
        let q2 = RequestView::TreeOf { commit: layer.commit };
        let (u1, local) = tape::ask_object(t1, q1);
        let (u2, own) = tape::ask_object(u1, q2);
        let q3 = RequestView::MergeTrees { base: local->Ok_0, ours: base, theirs: own->Ok_0 };
        tape::lemma_only_start(u1, any);
        tape::lemma_only_start(u2, any);
        assert(tape::only(u2, t2, any));
        assert(tape::only(u1, u2, any));
        tape::lemma_only_trans(u2, t2, to, any);
        tape::lemma_only_trans(u1, u2, to, any);
        lemma_steady_reply(from, t1, q1, to, world);
        lemma_steady_reply(from, u1, q2, to, world);
        if base != local->Ok_0 {
            lemma_steady_reply(from, u2, q3, to, world);
        }
        assert(tree == content_in(world, s, i));
        lemma_trees(from, t2, s, i + 1, next, world);
    }
}

proof fn lemma_gathered(
    from: TapeView,
    t: TapeView,
    s: StackView,
    i: int,
    prs: Seq<Option<PrView>>,
    world: spec_fn(RequestView) -> ReplyView,
)
    requires
        0 <= i <= s.layers.len(),
        from.asked.len() <= t.asked.len(),
        prs.len() == i,
        forall|k: int| 0 <= k < s.layers.len() ==> (#[trigger] s.layers[k]).pr is Some,
        forall|k: int| 0 <= k < i ==> #[trigger] prs[k] == Some(pr_in(world, s, k)),
        hears(from, engine::gather_from(t, s, i, prs).0, world),
    ensures
        engine::gather_from(t, s, i, prs).1 matches Ok(all) ==> all.len() == s.layers.len() && (
        forall|k: int| 0 <= k < all.len() ==> #[trigger] all[k] == Some(pr_in(world, s, k))),
    decreases s.layers.len() - i,
{
    broadcast use {tape::lemma_only_ask, engine::lemma_gather_from_only};

    let any = |q: RequestView| true;
    let to = engine::gather_from(t, s, i, prs).0;
    if i < s.layers.len() && engine::gather_from(t, s, i, prs).1 is Ok {
        assert(s.layers[i].pr is Some);
        let number = s.layers[i].pr->0;
        let q = RequestView::GetPullRequest { number };
        let (t1, pr) = tape::ask_pr(t, q);
        let pr = pr->Ok_0;
        let (t2, r2) = tape::ask_unit(t1, RequestView::FetchCommit { commit: pr.head_oid });
        let (t3, r3) = if pr.base_oid != crate::oid::zero_oid() {
            tape::ask_unit(t2, RequestView::FetchCommit { commit: pr.base_oid })
        } else {
            tape::done(t2, ())
        };
        assert(to == engine::gather_from(t3, s, i + 1, prs.push(Some(pr))).0);
        tape::lemma_only_start(t1, any);
        tape::lemma_only_start(t3, any);
        assert(tape::only(t3, to, any));
        assert(tape::only(t1, t3, any));
        tape::lemma_only_trans(t1, t3, to, any);
        lemma_reply(from, t, q, to, world);
        assert(pr == pr_in(world, s, i));
        lemma_gathered(from, t3, s, i + 1, prs.push(Some(pr)), world);
    }
}

/// Nothing is found against the pull request of a layer at rest.
proof fn lemma_pr_check(
    from: TapeView,
    t: TapeView,
    c: ConfigView,
    s: StackView,
    opts: OptionsView,
    i: int,
    settles: bool,
    world: spec_fn(RequestView) -> ReplyView,
)
    requires
        from.asked.len() <= t.asked.len(),
        rests(world, c, s, i),
        opts.preserve_commit_history == preserve_in(world, c),
        !opts.sync_all,
        !opts.refresh_when_behind,
        hears(
            from,
            engine::pr_check(
                t,
                pr_in(world, s, i),
                s.layers[i].message,
                base_tip_in(world, s, i),
                dep_in(world, s, i),
                content_in(world, s, i),
                opts,
                settles,
            ).0,
            world,
        ),
    ensures
        engine::pr_check(
            t,
            pr_in(world, s, i),
            s.layers[i].message,
            base_tip_in(world, s, i),
            dep_in(world, s, i),
            content_in(world, s, i),
            opts,
            settles,
        ).1 matches Ok(check) ==> !check.push && !check.message_changed,
{
    broadcast use {
        tape::lemma_only_ask,
        history::group_history_only,
        engine::lemma_root_check_only,
        engine::lemma_would_diverge_only,
        engine::lemma_behind_base_only,
        engine::lemma_may_stay_only,
    };

    let any = |q: RequestView| true;
    assert(tape::may_look(any));
    let pr = pr_in(world, s, i);
    let message = s.layers[i].message;
    let tip = base_tip_in(world, s, i);
    let dep = dep_in(world, s, i);
    let content = content_in(world, s, i);
    let (to, r) = engine::pr_check(t, pr, message, tip, dep, content, opts, settles);
    if r is Ok {
        let (t1, root) = history::root_commit(t, pr, tip);
        let (t2, check) = engine::root_check(
            t1,
            pr,
            message,
            opts.preserve_commit_history,
            root->Ok_0,
        );
        let (t3, shown) = review_diff::patch_hash(t2, tip, pr.head_oid);
        let qd = RequestView::PatchId { from: dep, to: content };
        let (t4, desired) = tape::ask_object(t3, qd);
        let (t5, diverges) = engine::would_diverge(t4, tip, pr.head_oid, dep, content);
        let (t6, behind) = engine::behind_base(
            t5,
            pr,
            tip,
            (check->Ok_0).anchor,
            opts.refresh_when_behind,
        );
        let (t7, settled) = engine::may_stay(
            t6,
            (check->Ok_0).anchor,
            tip,
            pr.head_oid,
            dep,
            content,
            settles,
        );
        assert(to == t7);
        tape::lemma_only_start(t1, any);
        tape::lemma_only_start(t2, any);
        tape::lemma_only_start(t3, any);
        tape::lemma_only_start(t4, any);
        tape::lemma_only_start(t5, any);
        assert(tape::only(t5, t7, any));
        assert(tape::only(t4, t5, any));
        tape::lemma_only_trans(t4, t5, t7, any);
        assert(tape::only(t3, t4, any));
        tape::lemma_only_trans(t3, t4, t7, any);
        assert(tape::only(t2, t3, any));
        tape::lemma_only_trans(t2, t3, t7, any);
        assert(tape::only(t1, t2, any));
        tape::lemma_only_trans(t1, t2, t7, any);
        lemma_root(from, t, c, s, opts.preserve_commit_history, i, to, world);
        lemma_shown(from, t2, tip, pr.head_oid, to, world);
        lemma_reply(from, t3, qd, to, world);
        lemma_diverges(from, t4, tip, pr.head_oid, dep, content, to, world);
    }
}

proof fn lemma_root(
    from: TapeView,
    t: TapeView,
    c: ConfigView,
    s: StackView,
    preserve: bool,
    i: int,
    to: TapeView,
    world: spec_fn(RequestView) -> ReplyView,
)
    requires
        from.asked.len() <= t.asked.len(),
        rests(world, c, s, i),
        preserve == preserve_in(world, c),
        hears(from, to, world),
        ({
            let pr = pr_in(world, s, i);
            let (t1, root) = history::root_commit(t, pr, base_tip_in(world, s, i));
            let (t2, check) = engine::root_check(
                t1,
                pr,
                s.layers[i].message,
                preserve,
                root->Ok_0,
            );
            &&& root is Ok
            &&& check is Ok
            &&& tape::only(t2, to, |q: RequestView| true)
        }),
    ensures
        ({
            let pr = pr_in(world, s, i);
            let (t1, root) = history::root_commit(t, pr, base_tip_in(world, s, i));
            let check = engine::root_check(
                t1,
                pr,
                s.layers[i].message,
                preserve,
                root->Ok_0,
            ).1->Ok_0;
            &&& t1.asked.len() >= t.asked.len()
            &&& !check.message_changed
            &&& !check.rewrite
        }),
{
    broadcast use {
        tape::lemma_only_ask,
        history::group_history_only,
        engine::lemma_root_check_only,
    };

    let any = |q: RequestView| true;
    assert(tape::may_look(any));
    let pr = pr_in(world, s, i);
    let tip = base_tip_in(world, s, i);
    let (t1, found) = history::root_commit(t, pr, tip);
    let (t2, check) = engine::root_check(t1, pr, s.layers[i].message, preserve, found->Ok_0);
    tape::lemma_only_start(t, any);
    tape::lemma_only_start(t1, any);
    assert(tape::only(t, t1, any));
    assert(tape::only(t1, t2, any));
    tape::lemma_only_trans(t1, t2, to, any);
    lemma_heard(from, t1, to, world);
    assert(hears(t, t1, world)) by {
        assert forall|k: int|
            t.asked.len() <= k < t1.asked.len() && k < t1.replies.len() implies t1.replies[k]
            == world(#[trigger] t1.asked[k]) by {}
    }
    if found->Ok_0 is Some {
        let root = (found->Ok_0)->0;
        let q2 = RequestView::TryParentOf { commit: root };
        let q3 = RequestView::MessageOf { commit: root };
        let (b1, anchor) = tape::ask_maybe_object(t1, q2);
        let (b2, current) = tape::ask_text(b1, q3);
        assert(b2 == t2);
        lemma_reply(from, b1, q3, to, world);
    }
}

/// The search for the first commit of a branch begins with its reference.
pub proof fn lemma_root_goes_on(t: TapeView, pr: PrView, tip: Oid)
    ensures
        tape::only(
            tape::ask(t, RequestView::ReferenceTarget { name: refs::root_ref(pr.number) }).0,
            history::root_commit(t, pr, tip).0,
            |q: RequestView| true,
        ),
{
    broadcast use {tape::lemma_only_ask, history::group_history_only};

    let any = |q: RequestView| true;
    assert(tape::may_look(any));
    let a0 = tape::ask(t, RequestView::ReferenceTarget { name: refs::root_ref(pr.number) }).0;
    tape::lemma_only_start(a0, any);
}

pub proof fn lemma_shown(
    from: TapeView,
    t: TapeView,
    base_tip: Oid,
    head: Oid,
    to: TapeView,
    world: spec_fn(RequestView) -> ReplyView,
)
    requires
        from.asked.len() <= t.asked.len(),
        hears_steady(from, to, world),
        review_diff::patch_hash(t, base_tip, head).1 is Ok,
        tape::only(
            review_diff::patch_hash(t, base_tip, head).0,
            to,
            |q: RequestView| true,
        ),
    ensures
        ({
            let fork = world(RequestView::MergeBase { a: base_tip, b: head })->Object_0;
            world(RequestView::PatchId { from: tree_in(world, fork), to: tree_in(world, head) })
                == ReplyView::Object(review_diff::patch_hash(t, base_tip, head).1->Ok_0)
        }),
        t.asked.len() <= review_diff::patch_hash(t, base_tip, head).0.asked.len(),
        world(RequestView::TreeOf { commit: head }) is Object,
        world(RequestView::MergeBase { a: base_tip, b: head }) is Object,
{
    broadcast use tape::lemma_only_ask;

    let any = |q: RequestView| true;
    let q1 = RequestView::MergeBase { a: base_tip, b: head };
    let (t1, fork) = tape::ask_object(t, q1);
    let q2 = RequestView::TreeOf { commit: fork->Ok_0 };
    let (t2, below) = tape::ask_object(t1, q2);
    let q3 = RequestView::TreeOf { commit: head };
    let (t3, above) = tape::ask_object(t2, q3);
    let q4 = RequestView::PatchId { from: below->Ok_0, to: above->Ok_0 };
    let (t4, hash) = tape::ask_object(t3, q4);
    assert(t4 == review_diff::patch_hash(t, base_tip, head).0);
    tape::lemma_only_start(t1, any);
    assert(tape::only(t1, t4, any));
    tape::lemma_only_trans(t1, t4, to, any);
    tape::lemma_only_start(t2, any);
    assert(tape::only(t2, t4, any));
    tape::lemma_only_trans(t2, t4, to, any);
    tape::lemma_only_start(t3, any);
    assert(tape::only(t3, t4, any));
    tape::lemma_only_trans(t3, t4, to, any);
    lemma_steady_reply(from, t, q1, to, world);
    lemma_steady_reply(from, t1, q2, to, world);
    lemma_steady_reply(from, t2, q3, to, world);
    lemma_steady_reply(from, t3, q4, to, world);
}

pub proof fn lemma_diverges(
    from: TapeView,
    t: TapeView,
    base_tip: Oid,
    head: Oid,
    dep: Oid,
    content: Oid,
    to: TapeView,
    world: spec_fn(RequestView) -> ReplyView,
)
    requires
        from.asked.len() <= t.asked.len(),
        hears_steady(from, to, world),
        tree_in(world, base_tip) == dep || merges_in(
            world,
            world(RequestView::MergeBase { a: base_tip, b: head })->Object_0,
            head,
            dep,
            content,
        ),
        tape::only(
            engine::would_diverge(t, base_tip, head, dep, content).0,
            to,
            |q: RequestView| true,
        ),
    ensures
        engine::would_diverge(t, base_tip, head, dep, content).1 matches Ok(diverges) ==> !diverges,
{
    broadcast use tape::lemma_only_ask;

    let any = |q: RequestView| true;
    let q1 = RequestView::TreeOf { commit: base_tip };
    let (t1, tree) = tape::ask_object(t, q1);
    let (end, r) = engine::would_diverge(t, base_tip, head, dep, content);
    if r is Ok {
        tape::lemma_only_start(t1, any);
        assert(tape::only(t1, end, any));
        tape::lemma_only_trans(t1, end, to, any);
        lemma_steady_reply(from, t, q1, to, world);
        if tree->Ok_0 != dep {
            let q2 = RequestView::MergeBase { a: base_tip, b: head };
            let (t2, fork) = tape::ask_object(t1, q2);
            let q3 = RequestView::TreeOf { commit: fork->Ok_0 };
            let (t3, below) = tape::ask_object(t2, q3);
            let q4 = RequestView::TreeOf { commit: head };
            let (t4, above) = tape::ask_object(t3, q4);
            let q5 = RequestView::MergeTrees {
                base: below->Ok_0,
                ours: dep,
                theirs: above->Ok_0,
            };
            let (t5, merge) = tape::ask_merge(t4, q5);
            assert(end == t5);
            tape::lemma_only_start(t4, any);
            assert(tape::only(t4, t5, any));
            tape::lemma_only_trans(t4, t5, to, any);
            tape::lemma_only_start(t3, any);
            assert(tape::only(t3, t4, any));
            tape::lemma_only_trans(t3, t4, to, any);
            tape::lemma_only_start(t2, any);
            assert(tape::only(t2, t3, any));
            tape::lemma_only_trans(t2, t3, to, any);
            lemma_steady_reply(from, t1, q2, to, world);
            lemma_steady_reply(from, t2, q3, to, world);
            lemma_steady_reply(from, t3, q4, to, world);
            lemma_steady_reply(from, t4, q5, to, world);
        }
    }
}

/// The checks of the layers from `i` on.
proof fn lemma_checks(
    from: TapeView,
    t: TapeView,
    c: ConfigView,
    s: StackView,
    prs: Seq<Option<PrView>>,
    trees: TreesView,
    opts: OptionsView,
    i: int,
    checks: Seq<LayerCheck>,
    world: spec_fn(RequestView) -> ReplyView,
)
    requires
        stack::well_formed(s),
        0 <= i <= s.layers.len(),
        checks.len() == i,
        from.asked.len() <= t.asked.len(),
        as_in_world(world, s, prs, trees),
        at_rest(world, c, s),
        opts.preserve_commit_history == preserve_in(world, c),
        !opts.sync_all,
        !opts.refresh_when_behind,
        opts.only_layer is None,
        forall|k: int|
            0 <= k < i ==> !(#[trigger] checks[k]).push && !checks[k].message_changed,
        hears(from, engine::checks_from(t, s, prs, trees, opts, i, checks).0, world),
    ensures
        engine::checks_from(t, s, prs, trees, opts, i, checks).1 matches Ok(all) ==> all.len()
            == s.layers.len() && (forall|k: int|
            0 <= k < all.len() ==> !(#[trigger] all[k]).push && !all[k].message_changed),
    decreases s.layers.len() - i,
{
    broadcast use {engine::lemma_layer_check_only, engine::lemma_checks_from_only};

    let any = |q: RequestView| true;
    assert(tape::may_look(any));
    let (to, r) = engine::checks_from(t, s, prs, trees, opts, i, checks);
    if i < s.layers.len() && r is Ok {
        let (t1, check) = engine::layer_check(t, s, prs, trees, opts, i);
        tape::lemma_only_start(t, any);
        tape::lemma_only_start(t1, any);
        let next = checks.push(check->Ok_0);
        assert(to == engine::checks_from(t1, s, prs, trees, opts, i + 1, next).0);
        assert(tape::only(t1, to, any));
        lemma_heard(from, t1, to, world);
        assert(rests(world, c, s, i));
        assert(prs[i] == Some(pr_in(world, s, i)));
        assert(trees.dep[i] == dep_in(world, s, i));
        assert(trees.effective[i] == content_in(world, s, i));
        assert(engine::remote_base_tip(s, prs, i) == Some(base_tip_in(world, s, i))) by {
            match s.layers[i].dep {
                Dep::Layer(j) => {
                    assert(j < i);
                    assert(prs[j as int] == Some(pr_in(world, s, j as int)));
                },
                _ => {},
            }
        }
        lemma_pr_check(
            from,
            t,
            c,
            s,
            opts,
            i,
            engine::may_settle(s, opts, i),
            world,
        );
        assert(tape::only(t, t1, any));
        lemma_checks(from, t1, c, s, prs, trees, opts, i + 1, next, world);
    }
}

/// The pull requests and the trees are those of the world.
pub open spec fn as_in_world(
    world: spec_fn(RequestView) -> ReplyView,
    s: StackView,
    prs: Seq<Option<PrView>>,
    trees: TreesView,
) -> bool {
    &&& prs.len() == s.layers.len()
    &&& trees.effective.len() == s.layers.len()
    &&& trees.dep.len() == s.layers.len()
    &&& forall|k: int| 0 <= k < s.layers.len() ==> #[trigger] prs[k] == Some(pr_in(world, s, k))
    &&& forall|k: int|
        0 <= k < s.layers.len() ==> #[trigger] trees.effective[k] == content_in(world, s, k)
    &&& forall|k: int| 0 <= k < s.layers.len() ==> #[trigger] trees.dep[k] == dep_in(world, s, k)
}

/// Where all layers are at rest, it is decided to push none.
proof fn lemma_decided(
    from: TapeView,
    t: TapeView,
    c: ConfigView,
    s: StackView,
    prs: Seq<Option<PrView>>,
    trees: TreesView,
    opts: OptionsView,
    world: spec_fn(RequestView) -> ReplyView,
)
    requires
        stack::well_formed(s),
        from.asked.len() <= t.asked.len(),
        as_in_world(world, s, prs, trees),
        at_rest(world, c, s),
        opts.preserve_commit_history == preserve_in(world, c),
        !opts.sync_all,
        !opts.refresh_when_behind,
        opts.only_layer is None,
        hears(from, engine::decided(t, s, prs, trees, opts).0, world),
    ensures
        engine::decided(t, s, prs, trees, opts).1 matches Ok(d) ==> engine::decides_for(d, s) && (
        forall|k: int| 0 <= k < s.layers.len() ==> !#[trigger] d.push[k]) && (forall|k: int|
            0 <= k < s.layers.len() ==> !#[trigger] d.message_changed[k]),
{
    broadcast use {engine::lemma_checks_from_only, engine::lemma_restack_below_only};

    let any = |q: RequestView| true;
    assert(tape::may_look(any));
    let (to, r) = engine::decided(t, s, prs, trees, opts);
    if r is Ok {
        let (t1, checks) = engine::checks_from(t, s, prs, trees, opts, 0, Seq::empty());
        tape::lemma_only_start(t1, any);
        assert(tape::only(t1, to, any));
        lemma_heard(from, t1, to, world);
        lemma_checks(from, t, c, s, prs, trees, opts, 0, Seq::empty(), world);
        engine::law_untouched_stack_is_left_alone(t, s, prs, trees, opts);
        engine::lemma_decides_for(t, s, prs, trees, opts);
    }
}

/// The pull requests are what they are to be.
spec fn in_order(cx: ContextView, warn: bool) -> bool {
    forall|i: int|
        0 <= i < cx.stack.layers.len() ==> match #[trigger] cx.prs[i] {
            Some(pr) => {
                &&& pr.base == match cx.stack.layers[i].dep {
                    Dep::Layer(j) => (cx.prs[j as int]->0).head,
                    _ => cx.config.trunk,
                }
                &&& pr.body == pr_body::with_warning(pr.body, warn)
            },
            None => false,
        }
}

/// Nothing is decided.
spec fn undecided(cx: ContextView) -> bool {
    &&& forall|i: int| 0 <= i < cx.stack.layers.len() ==> !#[trigger] cx.decision.push[i]
    &&& forall|i: int|
        0 <= i < cx.stack.layers.len() ==> !#[trigger] cx.decision.message_changed[i]
    &&& !cx.opts.update_message
}

/// One outcome for each of the first `n` layers, and nothing was done to them.
pub open spec fn all_skipped(outcomes: Seq<OutcomeView>, n: int) -> bool {
    &&& outcomes.len() == n
    &&& forall|k: int|
        0 <= k < n ==> (#[trigger] outcomes[k]).action == LayerAction::Skipped && outcomes[k].index
            == k as usize && !outcomes[k].retargeted
}

proof fn lemma_announced(
    t: TapeView,
    cx: ContextView,
    p: PlacementView,
    warn: bool,
    i: int,
    st: ProgressView,
)
    requires
        execution::coherent(cx),
        in_order(cx, warn),
        undecided(cx),
        execution::placed(p, cx.stack.layers.len() as int),
        execution::stays(p),
        forall|k: int|
            0 <= k < cx.stack.layers.len() ==> #[trigger] p.base_branches[k] == (
            cx.prs[k]->0).base,
        0 <= i <= cx.stack.layers.len(),
        all_skipped(st.outcomes, i),
    ensures
        execution::announce_from(t, cx, p, warn, i, st).1 matches Ok(after) ==> all_skipped(
            after.outcomes,
            cx.stack.layers.len() as int,
        ),
    decreases cx.stack.layers.len() - i,
{
    if i < cx.stack.layers.len() {
        assert(cx.prs[i] is Some);
        let pr = cx.prs[i]->0;
        assert(p.base_branches[i] == pr.base);
        assert(!p.retargeted_early[i]);
        assert(p.new_roots[i] is None);
        assert(!cx.decision.push[i] && !cx.decision.message_changed[i]);
        let update = execution::pr_update(
            cx,
            i,
            pr,
            p.base_branches[i],
            p.retargeted_early[i],
            warn,
        );
        assert(update == forge::no_update());
        let (t1, r) = execution::refreshed(t, cx, p, warn, i, pr, st);
        if r is Ok {
            assert(all_skipped((r->Ok_0).outcomes, i + 1));
            lemma_announced(t1, cx, p, warn, i + 1, r->Ok_0);
        }
    }
}

proof fn lemma_no_drafts(t: TapeView, cx: ContextView, i: int, p: PlacementView)
    requires
        execution::coherent(cx),
        0 <= i <= cx.prs.len(),
        forall|k: int|
            0 <= k < cx.prs.len() ==> #[trigger] cx.prs[k] is Some && p.base_branches[k] == (
            cx.prs[k]->0).base,
    ensures
        execution::draft_from(t, cx, i, p) == (t, Ok::<PlacementView, HaltView>(p)),
    decreases cx.prs.len() - i,
{
    if i < cx.prs.len() {
        assert(cx.prs[i] is Some);
        lemma_no_drafts(t, cx, i + 1, p);
    }
}

proof fn lemma_executed(
    from: TapeView,
    t: TapeView,
    cx: ContextView,
    warn: bool,
    world: spec_fn(RequestView) -> ReplyView,
)
    requires
        from.asked.len() <= t.asked.len(),
        execution::coherent(cx),
        in_order(cx, warn),
        undecided(cx),
        warn_in(world, cx.opts.preserve_commit_history) == warn,
        hears(from, execution::executed(t, cx).0, world),
    ensures
        tape::only(t, execution::executed(t, cx).0, |q: RequestView| !(q is Push)),
        execution::executed(t, cx).1 matches Ok(e) ==> !e.staged && all_skipped(
            e.outcomes,
            cx.stack.layers.len() as int,
        ),
{
    broadcast use {
        tape::lemma_only_ask,
        execution::lemma_announce_from_only,
        execution::lemma_concluded_only,
    };

    let any = |q: RequestView| true;
    let quiet = |q: RequestView| !(q is Push);
    assert(tape::may_do_all_but_push(any));
    assert(tape::may_do_all_but_push(quiet));
    let to = execution::executed(t, cx).0;
    let n = cx.stack.layers.len() as int;
    execution::law_nothing_to_push(t, cx);
    execution::law_well_placed(t, cx);
    execution::law_pushed_as_placed(t, cx);
    let p = execution::place_from(t, cx, 0, execution::empty_placement(cx)).1->Ok_0;
    assert forall|k: int| 0 <= k < n implies #[trigger] cx.prs[k] is Some && p.base_branches[k]
        == (cx.prs[k]->0).base by {
        match cx.stack.layers[k].dep {
            Dep::Layer(j) => {
                assert(cx.prs[j as int] is Some);
            },
            _ => {},
        }
    }
    assert forall|k: int| 0 <= k < n implies #[trigger] p.base_branches[k] == (cx.prs[k]->0).base by {
        assert(cx.prs[k] is Some);
    }
    lemma_no_drafts(t, cx, 0, p);
    assert(execution::executed(t, cx) == execution::pushed(t, cx, p));
    let (t1, w) = execution::warns(t, cx.opts);
    tape::lemma_only_start(t, quiet);
    if w is Ok {
        tape::lemma_only_start(t1, any);
        let start = execution::start_of(cx);
        let (t2, st) = execution::announce_from(t1, cx, p, w->Ok_0, 0, start);
        assert(tape::only(t1, t2, any));
        assert(tape::only(t1, to, any));
        if cx.opts.preserve_commit_history {
            lemma_reply(from, t, RequestView::MergeSettings, to, world);
        }
        assert(w->Ok_0 == warn);
        lemma_announced(t1, cx, p, warn, 0, start);
        assert(tape::only(t, t2, quiet));
    }
}

/// The end of a round over a stack at rest.
proof fn lemma_carried_out(
    from: TapeView,
    t: TapeView,
    cx: ContextView,
    world: spec_fn(RequestView) -> ReplyView,
)
    requires
        stack::well_formed(cx.stack),
        from.asked.len() <= t.asked.len(),
        as_in_world(world, cx.stack, cx.prs, cx.trees),
        at_rest(world, cx.config, cx.stack),
        cx.opts.preserve_commit_history == preserve_in(world, cx.config),
        !cx.opts.sync_all,
        !cx.opts.refresh_when_behind,
        !cx.opts.update_message,
        cx.opts.only_layer is None,
        ({
            let (t1, decision) = engine::decided(t, cx.stack, cx.prs, cx.trees, cx.opts);
            &&& decision == Ok::<DecisionView, HaltView>(cx.decision)
            &&& tape::only(t, t1, |q: RequestView| true)
            &&& hears(from, execution::executed(t1, cx).0, world)
        }),
    ensures
        ({
            let t1 = engine::decided(t, cx.stack, cx.prs, cx.trees, cx.opts).0;
            let (to, r) = execution::executed(t1, cx);
            &&& tape::only(t1, to, |q: RequestView| !(q is Push))
            &&& r matches Ok(e) ==> !e.staged && all_skipped(
                e.outcomes,
                cx.stack.layers.len() as int,
            )
        }),
{
    let c = cx.config;
    let s = cx.stack;
    let prs = cx.prs;
    let t1 = engine::decided(t, s, prs, cx.trees, cx.opts).0;
    lemma_whole(t1, cx);
    lemma_heard(from, t1, execution::executed(t1, cx).0, world);
    lemma_decided(from, t, c, s, prs, cx.trees, cx.opts, world);
    let warn = warn_in(world, cx.opts.preserve_commit_history);
    assert forall|i: int| 0 <= i < s.layers.len() implies match #[trigger] prs[i] {
        Some(pr) => {
            &&& pr.base == match s.layers[i].dep {
                Dep::Layer(j) => (prs[j as int]->0).head,
                _ => c.trunk,
            }
            &&& pr.body == pr_body::with_warning(pr.body, warn)
        },
        None => false,
    } by {
        assert(rests(world, c, s, i));
        match s.layers[i].dep {
            Dep::Layer(j) => {
                assert(prs[j as int] == Some(pr_in(world, s, j as int)));
            },
            _ => {},
        }
    }
    lemma_executed(from, t1, cx, warn, world);
}

/// A round over a stack at rest.
proof fn lemma_round(
    from: TapeView,
    t: TapeView,
    c: ConfigView,
    s: StackView,
    opts: OptionsView,
    world: spec_fn(RequestView) -> ReplyView,
)
    requires
        stack::well_formed(s),
        from.asked.len() <= t.asked.len(),
        at_rest(world, c, s),
        opts.preserve_commit_history == preserve_in(world, c),
        !opts.sync_all,
        !opts.refresh_when_behind,
        !opts.update_message,
        opts.only_layer is None,
        hears(from, syncing::round(t, c, s, opts, true).0, world),
    ensures
        tape::only(t, syncing::round(t, c, s, opts, true).0, |q: RequestView| !(q is Push)),
        syncing::round(t, c, s, opts, true).1 matches Ok(e) ==> !e.staged && all_skipped(
            e.outcomes,
            s.layers.len() as int,
        ),
{
    let any = |q: RequestView| true;
    let quiet = |q: RequestView| !(q is Push);
    assert(tape::may_look(any));
    assert(tape::may_look(quiet));
    let to = syncing::round(t, c, s, opts, true).0;
    tape::lemma_only_start(t, quiet);
    tape::lemma_only_start(t, any);
    let (t1, trees) = discovery::trees_of(t, s);
    discovery::lemma_trees_of_only(t, t, s, quiet);
    discovery::lemma_trees_of_only(t, t, s, any);
    if trees is Ok {
        let trees = trees->Ok_0;
        let (t2, prs) = engine::gathered(t1, s);
        tape::lemma_only_start(t1, any);
        engine::lemma_gathered_only(t, t1, s, quiet);
        engine::lemma_gathered_only(t1, t1, s, any);
        if prs is Ok && engine::first_unusable(prs->Ok_0, 0) is None {
            let prs = prs->Ok_0;
            let (t3, u) = upgrade::reject_from(t2, c, s, prs, opts.only_layer, 0);
            tape::lemma_only_start(t2, any);
            upgrade::lemma_reject_from_only(t, t2, c, s, prs, opts.only_layer, 0, quiet);
            upgrade::lemma_reject_from_only(t2, t2, c, s, prs, opts.only_layer, 0, any);
            if u is Ok {
                let (t4, decision) = engine::decided(t3, s, prs, trees, opts);
                tape::lemma_only_start(t3, any);
                engine::lemma_decided_only(t, t3, s, prs, trees, opts, quiet);
                engine::lemma_decided_only(t3, t3, s, prs, trees, opts, any);
                if decision is Ok {
                    let decision = decision->Ok_0;
                    let cx = ContextView { config: c, stack: s, prs, trees, decision, opts };
                    assert(syncing::round(t, c, s, opts, true) == execution::executed(t4, cx));
                    lemma_whole(t4, cx);
                    tape::lemma_only_trans(t3, t4, to, any);
                    tape::lemma_only_trans(t2, t3, to, any);
                    tape::lemma_only_trans(t1, t2, to, any);
                    lemma_heard(from, t1, to, world);
                    lemma_heard(from, t2, to, world);
                    lemma_found(from, t, c, s, world);
                    lemma_carried_out(from, t3, cx, world);
                    tape::lemma_only_trans(t, t4, to, quiet);
                }
            }
        }
    }
}

/// What a round finds is what the world has.
proof fn lemma_found(
    from: TapeView,
    t: TapeView,
    c: ConfigView,
    s: StackView,
    world: spec_fn(RequestView) -> ReplyView,
)
    requires
        stack::well_formed(s),
        from.asked.len() <= t.asked.len() <= discovery::trees_of(t, s).0.asked.len(),
        at_rest(world, c, s),
        discovery::trees_of(t, s).1 is Ok,
        engine::gathered(discovery::trees_of(t, s).0, s).1 is Ok,
        hears(from, discovery::trees_of(t, s).0, world),
        hears(from, engine::gathered(discovery::trees_of(t, s).0, s).0, world),
    ensures
        as_in_world(
            world,
            s,
            engine::gathered(discovery::trees_of(t, s).0, s).1->Ok_0,
            discovery::trees_of(t, s).1->Ok_0,
        ),
{
    let t1 = discovery::trees_of(t, s).0;
    assert forall|k: int| 0 <= k < s.layers.len() implies (#[trigger] s.layers[k]).pr is Some by {
        assert(rests(world, c, s, k));
    }
    lemma_trees(
        from,
        t,
        s,
        0,
        TreesView { effective: Seq::empty(), dep: Seq::empty() },
        world,
    );
    lemma_gathered(from, t1, s, 0, Seq::empty(), world);
}

/// Whatever happens when a decision is carried out comes after what was asked before.
pub proof fn lemma_whole(t: TapeView, cx: ContextView)
    ensures
        tape::only(t, execution::executed(t, cx).0, |q: RequestView| true),
{
    broadcast use {
        tape::lemma_only_ask,
        execution::lemma_place_from_only,
        execution::lemma_draft_from_only,
        execution::lemma_announce_from_only,
        execution::lemma_concluded_only,
    };

    let any = |q: RequestView| true;
    assert(tape::may_do_all_but_push(any));
    tape::lemma_only_start(t, any);
}

/// A run over a stack at rest leaves it alone: where the pull requests and the
/// commits are as the stack wants them and nobody asks for more, nothing is pushed,
/// and every layer is skipped.
///
/// `world` gives the replies, and `settled` is the stack once its dependencies on
/// merged pull requests are on the trunk.
pub proof fn law_stack_at_rest_is_left_alone(
    t: TapeView,
    c: ConfigView,
    s: StackView,
    opts: OptionsView,
    world: spec_fn(RequestView) -> ReplyView,
)
    requires
        stack::well_formed(s),
        at_rest(world, c, syncing::settled(s)),
        !opts.sync_all,
        !opts.refresh_when_behind,
        !opts.update_message,
        opts.only_layer is None,
        hears(t, syncing::synced(t, c, s, opts).0, world),
    ensures
        tape::only(t, syncing::synced(t, c, s, opts).0, |q: RequestView| !(q is Push)),
        syncing::synced(t, c, s, opts).1 matches Ok(r) ==> all_skipped(
            r.outcomes,
            s.layers.len() as int,
        ),
{
    broadcast use {tape::lemma_only_ask, syncing::lemma_externals_from_only};

    let any = |q: RequestView| true;
    let quiet = |q: RequestView| !(q is Push);
    assert(tape::may_look(any));
    assert(tape::may_look(quiet));
    let to = syncing::synced(t, c, s, opts).0;
    tape::lemma_only_start(t, quiet);
    tape::lemma_only_start(t, any);
    let (t1, r) = syncing::externals_from(t, s, 0);
    assert(tape::only(t, t1, quiet));
    assert(tape::only(t, t1, any));
    if r is Ok {
        let rested = syncing::settled(s);
        syncing::law_externals_become_trunk(t, s);
        assert(r->Ok_0 =~= rested) by {
            assert((r->Ok_0).layers =~= rested.layers);
        }
        assert forall|k: int| 0 <= k < rested.layers.len() implies (#[trigger] rested.layers[k]).pr is Some by {
            assert(rests(world, c, rested, k));
        }
        syncing::law_linked_stack_is_not_relinked(t1, c, opts, rested);
        let (t2, settings) = tape::ask_settings(t1, RequestView::MergeSettings);
        assert(tape::only(t, t2, quiet));
        if settings is Ok {
            let settings = settings->Ok_0;
            let full = OptionsView {
                preserve_commit_history: config::preserve_resolved(
                    c.preserve_commit_history,
                    settings,
                ),
                relink_asked: true,
                ..opts
            };
            assert(syncing::synced(t, c, s, opts) == syncing::rounds(t2, c, rested, full));
            let (t3, first) = syncing::round(t2, c, rested, full, true);
            lemma_rounds(t2, c, rested, full);
            tape::lemma_only_start(t2, any);
            lemma_reply(t, t1, RequestView::MergeSettings, to, world);
            lemma_heard(t, t3, to, world);
            assert(stack::well_formed(rested)) by {
                assert forall|m: int| #![trigger rested.layers[m]] 0 <= m < rested.layers.len() implies (
                match rested.layers[m].dep {
                    Dep::Layer(j) => j < m,
                    _ => true,
                }) by {
                    assert(rested.layers[m].dep == s.layers[m].dep || rested.layers[m].dep == Dep::Main);
                }
            }
            lemma_round(t, t2, c, rested, full, world);
            tape::lemma_only_trans(t, t2, t3, quiet);
        }
    }
}

/// A run goes on from its first round, and that from where it started.
pub proof fn lemma_rounds(t: TapeView, c: ConfigView, s: StackView, opts: OptionsView)
    ensures
        tape::only(t, syncing::round(t, c, s, opts, true).0, |q: RequestView| true),
        tape::only(t, syncing::rounds(t, c, s, opts).0, |q: RequestView| true),
        tape::only(
            syncing::round(t, c, s, opts, true).0,
            syncing::rounds(t, c, s, opts).0,
            |q: RequestView| true,
        ),
{
    let any = |q: RequestView| true;
    let (t1, first) = syncing::round(t, c, s, opts, true);
    lemma_one_round(t, c, s, opts, true);
    tape::lemma_only_start(t1, any);
    if first is Ok {
        let next = (first->Ok_0).stack;
        lemma_one_round(t1, c, next, syncing::catch_up_options(opts), false);
    }
    tape::lemma_only_trans(t, t1, syncing::rounds(t, c, s, opts).0, any);
}

proof fn lemma_one_round(t: TapeView, c: ConfigView, s: StackView, opts: OptionsView, first: bool)
    ensures
        tape::only(t, syncing::round(t, c, s, opts, first).0, |q: RequestView| true),
{
    broadcast use {
        discovery::lemma_trees_of_only,
        engine::lemma_gathered_only,
        upgrade::lemma_reject_from_only,
        engine::lemma_decided_only,
    };

    let any = |q: RequestView| true;
    assert(tape::may_look(any));
    tape::lemma_only_start(t, any);
    let (t1, trees) = discovery::trees_of(t, s);
    if trees is Ok {
        let (t2, prs) = engine::gathered(t1, s);
        if prs is Ok && engine::first_unusable(prs->Ok_0, 0) is None {
            let (t3, u) = if first {
                upgrade::reject_from(t2, c, s, prs->Ok_0, opts.only_layer, 0)
            } else {
                tape::done(t2, ())
            };
            assert(tape::only(t, t3, any));
            if u is Ok {
                let (t4, decision) = engine::decided(t3, s, prs->Ok_0, trees->Ok_0, opts);
                assert(tape::only(t, t4, any));
                if decision is Ok {
                    let cx = ContextView {
                        config: c,
                        stack: s,
                        prs: prs->Ok_0,
                        trees: trees->Ok_0,
                        decision: decision->Ok_0,
                        opts,
                    };
                    lemma_whole(t4, cx);
                    tape::lemma_only_trans(t, t4, execution::executed(t4, cx).0, any);
                }
            }
        }
    }
}

} // verus!
