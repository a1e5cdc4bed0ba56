//! The commits of a world and where they come from.

use vstd::prelude::*;

use crate::history;
use crate::oid::Oid;
use crate::rest;
use crate::tape;
use crate::tape::{ReplyView, RequestView, TapeView};

verus! {

/// One commit is an ancestor of another, or the same.
pub open spec fn reaches(world: spec_fn(RequestView) -> ReplyView, a: Oid, b: Oid) -> bool {
    world(RequestView::MayBeAncestor { ancestor: a, descendant: b }) == ReplyView::Flag(true)
}

/// The first parent of a commit.
pub open spec fn sits_on(world: spec_fn(RequestView) -> ReplyView, commit: Oid, parent: Oid) -> bool {
    world(RequestView::FirstParentOf { commit }) == ReplyView::MaybeObject(Some(parent))
}

/// The only parent of a commit.
pub open spec fn stems(world: spec_fn(RequestView) -> ReplyView, commit: Oid, parent: Oid) -> bool {
    world(RequestView::ParentOf { commit }) == ReplyView::Object(parent)
}

/// It can be told whether one commit is an ancestor of another.
pub open spec fn told_apart(world: spec_fn(RequestView) -> ReplyView, a: Oid, b: Oid) -> bool {
    world(RequestView::TryIsAncestor { ancestor: a, descendant: b }) is Flag
}

/// What holds of a commit with a parent.
pub open spec fn grows(
    world: spec_fn(RequestView) -> ReplyView,
    commit: Oid,
    parent: Oid,
    other: Oid,
) -> bool {
    &&& sits_on(world, commit, parent) && reaches(world, other, parent) ==> reaches(
        world,
        other,
        commit,
    )
    &&& stems(world, commit, parent) ==> {
        &&& sits_on(world, commit, parent)
        &&& !reaches(world, commit, parent)
        &&& reaches(world, other, commit) <==> other == commit || reaches(world, other, parent)
        &&& reaches(world, other, parent) ==> world(
            RequestView::MergeBase { a: other, b: commit },
        ) == ReplyView::Object(other)
        &&& !reaches(world, commit, other) ==> {
            &&& world(RequestView::MergeBase { a: commit, b: other }) == world(
                RequestView::MergeBase { a: parent, b: other },
            )
            &&& world(RequestView::MergeBase { a: other, b: commit }) == world(
                RequestView::MergeBase { a: other, b: parent },
            )
        }
        &&& told_apart(world, other, commit) == told_apart(world, other, parent)
        &&& told_apart(world, commit, other) == told_apart(world, parent, other)
    }
}

/// All ways to ask about two commits agree.
pub open spec fn agree(world: spec_fn(RequestView) -> ReplyView, a: Oid, b: Oid) -> bool {
    &&& world(RequestView::IsAncestor { ancestor: a, descendant: b }) matches ReplyView::Flag(f)
        ==> f == reaches(world, a, b)
    &&& world(RequestView::TryIsAncestor { ancestor: a, descendant: b }) matches ReplyView::Flag(f)
        ==> f == reaches(world, a, b)
    &&& world(RequestView::MergeBaseIfAny { a, b }) matches ReplyView::MaybeObject(Some(m))
        ==> world(RequestView::MergeBase { a, b }) == ReplyView::Object(m)
    &&& world(RequestView::TryFirstParentOf { commit: a }) == world(
        RequestView::FirstParentOf { commit: a },
    )
    &&& world(RequestView::TryParentOf { commit: a }) matches ReplyView::MaybeObject(Some(p))
        ==> stems(world, a, p)
    &&& world(RequestView::MergeBase { a, b }) matches ReplyView::Object(m) ==> reaches(world, m, a)
        && reaches(world, m, b) && (a == b ==> m == a)
    &&& world(RequestView::TreeOf { commit: a }) is Object ==> world(
        RequestView::MergeBase { a, b: a },
    ) == ReplyView::Object(a)
    &&& reaches(world, a, b) && a != b ==> world(RequestView::MergeBase { a, b })
        == ReplyView::Object(a) && world(RequestView::MergeBase { a: b, b: a })
        == ReplyView::Object(a)
}

/// The commits of the world have a history: one comes from what its parent comes from,
/// and never its parent from it; where it has only one parent, it comes from nothing
/// else, and parts from any other commit where its parent does. Two commits come from
/// where they part, and one that comes from the other parts from it there.
#[verifier::opaque]
pub open spec fn has_history(world: spec_fn(RequestView) -> ReplyView) -> bool {
    &&& forall|a: Oid| #[trigger] reaches(world, a, a)
    &&& forall|a: Oid, b: Oid, c: Oid|
        #[trigger] reaches(world, a, b) && #[trigger] reaches(world, b, c) ==> reaches(world, a, c)
    &&& forall|commit: Oid, parent: Oid, other: Oid| #[trigger] grows(world, commit, parent, other)
    &&& forall|a: Oid, b: Oid| #[trigger] agree(world, a, b)
}

pub proof fn lemma_self(world: spec_fn(RequestView) -> ReplyView, a: Oid)
    requires
        has_history(world),
    ensures
        reaches(world, a, a),
{
    reveal(has_history);
}

pub proof fn lemma_trans(world: spec_fn(RequestView) -> ReplyView, a: Oid, b: Oid, c: Oid)
    requires
        has_history(world),
        reaches(world, a, b),
        reaches(world, b, c),
    ensures
        reaches(world, a, c),
{
    reveal(has_history);
}

pub proof fn lemma_grows(
    world: spec_fn(RequestView) -> ReplyView,
    commit: Oid,
    parent: Oid,
    other: Oid,
)
    requires
        has_history(world),
    ensures
        grows(world, commit, parent, other),
{
    reveal(has_history);
}

pub proof fn lemma_agree(world: spec_fn(RequestView) -> ReplyView, a: Oid, b: Oid)
    requires
        has_history(world),
    ensures
        agree(world, a, b),
{
    reveal(has_history);
}

/// A commit is no ancestor of what its parent comes from.
pub proof fn lemma_above(
    world: spec_fn(RequestView) -> ReplyView,
    commit: Oid,
    parent: Oid,
    below: Oid,
)
    requires
        has_history(world),
        stems(world, commit, parent),
        reaches(world, below, parent),
    ensures
        !reaches(world, commit, below),
        reaches(world, below, commit),
        world(RequestView::MergeBase { a: below, b: commit }) == ReplyView::Object(below),
{
    lemma_grows(world, commit, parent, below);
    if reaches(world, commit, below) {
        lemma_trans(world, commit, below, parent);
    }
}

/// A line of `n` commits on top of `base`, from `root` to `tip`.
pub open spec fn line(
    world: spec_fn(RequestView) -> ReplyView,
    base: Oid,
    root: Oid,
    tip: Oid,
    n: nat,
) -> bool
    decreases n,
{
    if n == 0 {
        false
    } else if n == 1 {
        tip == root && stems(world, tip, base)
    } else {
        exists|parent: Oid| #[trigger]
            stems(world, tip, parent) && line(world, base, root, parent, (n - 1) as nat)
    }
}

pub proof fn lemma_line(
    world: spec_fn(RequestView) -> ReplyView,
    base: Oid,
    root: Oid,
    tip: Oid,
    n: nat,
)
    requires
        has_history(world),
        line(world, base, root, tip, n),
    ensures
        reaches(world, base, tip),
        reaches(world, root, tip),
        !reaches(world, tip, base),
        world(RequestView::MergeBase { a: base, b: tip }) == ReplyView::Object(base),
    decreases n,
{
    if n == 1 {
        lemma_self(world, base);
        lemma_self(world, tip);
        lemma_above(world, tip, base, base);
    } else {
        let parent = choose|parent: Oid| #[trigger]
            stems(world, tip, parent) && line(world, base, root, parent, (n - 1) as nat);
        lemma_line(world, base, root, parent, (n - 1) as nat);
        lemma_above(world, tip, parent, base);
        lemma_above(world, tip, parent, root);
    }
}

/// The first commit of a line sits on its base.
pub proof fn lemma_bottom(
    world: spec_fn(RequestView) -> ReplyView,
    base: Oid,
    root: Oid,
    tip: Oid,
    n: nat,
)
    requires
        line(world, base, root, tip, n),
    ensures
        stems(world, root, base),
    decreases n,
{
    if n > 1 {
        let parent = choose|parent: Oid| #[trigger]
            stems(world, tip, parent) && line(world, base, root, parent, (n - 1) as nat);
        lemma_bottom(world, base, root, parent, (n - 1) as nat);
    }
}

/// Where a line parts from a commit that holds what it sits on, and not its first commit.
pub proof fn lemma_fork(
    world: spec_fn(RequestView) -> ReplyView,
    base: Oid,
    root: Oid,
    tip: Oid,
    n: nat,
    other: Oid,
)
    requires
        has_history(world),
        line(world, base, root, tip, n),
        reaches(world, base, other),
        !reaches(world, root, other),
    ensures
        world(RequestView::MergeBase { a: other, b: tip }) == ReplyView::Object(base),
    decreases n,
{
    if base == other {
        lemma_line(world, base, root, tip, n);
    } else if n == 1 {
        lemma_grows(world, tip, base, other);
        lemma_agree(world, base, other);
    } else {
        let parent = choose|parent: Oid| #[trigger]
            stems(world, tip, parent) && line(world, base, root, parent, (n - 1) as nat);
        lemma_fork(world, base, root, parent, (n - 1) as nat, other);
        lemma_line(world, base, root, tip, n);
        if reaches(world, tip, other) {
            lemma_trans(world, root, tip, other);
        }
        lemma_grows(world, tip, parent, other);
    }
}

/// Where a line parts from a commit that holds its first commit, or what it sits on.
pub proof fn lemma_fork_above(
    world: spec_fn(RequestView) -> ReplyView,
    base: Oid,
    root: Oid,
    tip: Oid,
    n: nat,
    other: Oid,
)
    requires
        has_history(world),
        line(world, base, root, tip, n),
        reaches(world, base, other),
        world(RequestView::MergeBase { a: tip, b: tip }) == ReplyView::Object(tip),
    ensures
        ({
            let fork = world(RequestView::MergeBase { a: other, b: tip });
            fork is Object && reaches(world, base, fork->Object_0)
        }),
{
    lemma_line(world, base, root, tip, n);
    if !reaches(world, root, other) {
        lemma_fork(world, base, root, tip, n, other);
        lemma_self(world, base);
    } else {
        lemma_fork_on(world, base, root, tip, n, other);
    }
}

proof fn lemma_fork_on(
    world: spec_fn(RequestView) -> ReplyView,
    base: Oid,
    root: Oid,
    tip: Oid,
    n: nat,
    other: Oid,
)
    requires
        has_history(world),
        line(world, base, root, tip, n),
        reaches(world, root, other),
        tip == other ==> world(RequestView::MergeBase { a: tip, b: tip }) == ReplyView::Object(tip),
    ensures
        ({
            let fork = world(RequestView::MergeBase { a: other, b: tip });
            fork is Object && reaches(world, base, fork->Object_0)
        }),
    decreases n,
{
    lemma_line(world, base, root, tip, n);
    if reaches(world, tip, other) {
        lemma_agree(world, tip, other);
    } else if n == 1 {
    } else {
        let parent = choose|parent: Oid| #[trigger]
            stems(world, tip, parent) && line(world, base, root, parent, (n - 1) as nat);
        lemma_grows(world, tip, parent, other);
        lemma_line(world, base, root, parent, (n - 1) as nat);
        if parent == other {
            lemma_self(world, parent);
            lemma_above(world, tip, parent, parent);
        } else {
            lemma_fork_on(world, base, root, parent, (n - 1) as nat, other);
        }
    }
}

proof fn lemma_revisions_go_on(t: TapeView, cur: Oid, stop: Oid, above: Seq<Oid>)
    ensures
        tape::only(
            tape::ask(t, RequestView::IsAncestor { ancestor: cur, descendant: stop }).0,
            history::revisions_down(t, cur, stop, above).0,
            |q: RequestView| true,
        ),
{
    let any = |q: RequestView| true;
    assert(tape::may_look(any));
    let (t1, joined) = tape::ask_flag(
        t,
        RequestView::IsAncestor { ancestor: cur, descendant: stop },
    );
    tape::lemma_only_start(t1, any);
    if joined is Ok && !joined->Ok_0 {
        let q = RequestView::FirstParentOf { commit: cur };
        let (t2, parent) = tape::ask_maybe_object(t1, q);
        tape::lemma_only_ask(t1, t1, q, any);
        if parent is Ok && parent->Ok_0 is Some {
            let next = above.insert(0, cur);
            history::lemma_revisions_only(t1, t2, (parent->Ok_0)->0, stop, next, any);
        }
    }
}

/// The first of the revisions of a line is its first commit.
pub proof fn lemma_revisions(
    from: TapeView,
    t: TapeView,
    base: Oid,
    root: Oid,
    cur: Oid,
    n: nat,
    above: Seq<Oid>,
    to: TapeView,
    world: spec_fn(RequestView) -> ReplyView,
)
    requires
        has_history(world),
        from.asked.len() <= t.asked.len(),
        rest::hears_steady(from, to, world),
        line(world, base, root, cur, n),
        history::revisions_down(t, cur, base, above).1 is Ok,
        tape::only(history::revisions_down(t, cur, base, above).0, to, |q: RequestView| true),
    ensures
        ({
            let all = history::revisions_down(t, cur, base, above).1->Ok_0;
            all.len() > 0 && all[0] == root
        }),
    decreases n,
{
    let any = |q: RequestView| true;
    assert(tape::may_look(any));
    let end = history::revisions_down(t, cur, base, above).0;
    lemma_line(world, base, root, cur, n);
    lemma_agree(world, cur, base);
    let q1 = RequestView::IsAncestor { ancestor: cur, descendant: base };
    let q2 = RequestView::FirstParentOf { commit: cur };
    let (t1, joined) = tape::ask_flag(t, q1);
    lemma_revisions_go_on(t, cur, base, above);
    tape::lemma_only_trans(t1, end, to, any);
    rest::lemma_steady_reply(from, t, q1, to, world);
    assert(!joined->Ok_0);
    let (t2, parent) = tape::ask_maybe_object(t1, q2);
    tape::lemma_only_start(t2, any);
    let next = above.insert(0, cur);
    let below = parent->Ok_0;
    if below is Some {
        history::lemma_revisions_only(t2, t2, below->0, base, next, any);
    }
    assert(tape::only(t2, end, any));
    tape::lemma_only_trans(t2, end, to, any);
    rest::lemma_steady_reply(from, t1, q2, to, world);
    if n == 1 {
        lemma_grows(world, cur, base, base);
        assert(below == Some(base));
        let q3 = RequestView::IsAncestor { ancestor: base, descendant: base };
        let (t3, again) = tape::ask_flag(t2, q3);
        assert(end == history::revisions_down(t2, base, base, next).0);
        lemma_revisions_go_on(t2, base, base, next);
        tape::lemma_only_trans(t3, end, to, any);
        rest::lemma_steady_reply(from, t2, q3, to, world);
        lemma_agree(world, base, base);
        lemma_self(world, base);
        assert(again->Ok_0);
    } else {
        let mid = choose|mid: Oid| #[trigger]
            stems(world, cur, mid) && line(world, base, root, mid, (n - 1) as nat);
        lemma_grows(world, cur, mid, mid);
        assert(below == Some(mid));
        lemma_revisions(from, t2, base, root, mid, (n - 1) as nat, next, to, world);
    }
}

/// What a walk down from a head finds comes before the head.
pub proof fn lemma_walk(
    from: TapeView,
    t: TapeView,
    cur: Oid,
    stop: Oid,
    above: Option<Oid>,
    head: Oid,
    to: TapeView,
    world: spec_fn(RequestView) -> ReplyView,
)
    requires
        has_history(world),
        from.asked.len() <= t.asked.len(),
        rest::hears_steady(from, to, world),
        reaches(world, cur, head),
        above matches Some(a) ==> reaches(world, a, head),
        tape::only(
            history::first_revision_down(t, cur, stop, above).0,
            to,
            |q: RequestView| true,
        ),
    ensures
        history::first_revision_down(t, cur, stop, above).1 matches Ok(Some(root)) ==> reaches(
            world,
            root,
            head,
        ),
    decreases t.replies.len() - t.asked.len(),
{
    let any = |q: RequestView| true;
    assert(tape::may_look(any));
    let end = history::first_revision_down(t, cur, stop, above).0;
    let q1 = RequestView::TryIsAncestor { ancestor: cur, descendant: stop };
    let (t1, joined) = tape::ask(t, q1);
    if joined == Ok::<ReplyView, tape::HaltView>(ReplyView::Flag(false)) {
        let q2 = RequestView::TryFirstParentOf { commit: cur };
        let (t2, parent) = tape::ask(t1, q2);
        if parent is Ok {
            if let ReplyView::MaybeObject(Some(parent)) = parent->Ok_0 {
                tape::lemma_only_start(t2, any);
                history::lemma_first_revision_only(t2, t2, parent, stop, Some(cur), any);
                assert(end == history::first_revision_down(t2, parent, stop, Some(cur)).0);
                tape::lemma_only_trans(t2, end, to, any);
                rest::lemma_steady_reply(from, t1, q2, to, world);
                lemma_agree(world, cur, cur);
                lemma_self(world, parent);
                lemma_grows(world, cur, parent, parent);
                lemma_trans(world, parent, cur, head);
                lemma_walk(from, t2, parent, stop, Some(cur), head, to, world);
            }
        }
    }
}

/// Two walks down the same branch find the same commit, where they are to stop at
/// commits that cannot be told apart on the way.
pub proof fn lemma_same_walk(
    from: TapeView,
    t: TapeView,
    to: TapeView,
    from2: TapeView,
    t2: TapeView,
    to2: TapeView,
    cur: Oid,
    stop: Oid,
    stop2: Oid,
    above: Option<Oid>,
    head: Oid,
    world: spec_fn(RequestView) -> ReplyView,
)
    requires
        has_history(world),
        from.asked.len() <= t.asked.len(),
        from2.asked.len() <= t2.asked.len(),
        rest::hears_steady(from, to, world),
        rest::hears_steady(from2, to2, world),
        reaches(world, cur, head),
        forall|a: Oid| #[trigger]
            reaches(world, a, head) ==> reaches(world, a, stop) == reaches(world, a, stop2)
                && told_apart(world, a, stop) == told_apart(world, a, stop2),
        tape::only(
            history::first_revision_down(t, cur, stop, above).0,
            to,
            |q: RequestView| true,
        ),
        tape::only(
            history::first_revision_down(t2, cur, stop2, above).0,
            to2,
            |q: RequestView| true,
        ),
        history::first_revision_down(t, cur, stop, above).1 is Ok,
        history::first_revision_down(t2, cur, stop2, above).1 is Ok,
    ensures
        history::first_revision_down(t, cur, stop, above).1 == history::first_revision_down(
            t2,
            cur,
            stop2,
            above,
        ).1,
    decreases t.replies.len() - t.asked.len(),
{
    let any = |q: RequestView| true;
    assert(tape::may_look(any));
    let end = history::first_revision_down(t, cur, stop, above).0;
    let end2 = history::first_revision_down(t2, cur, stop2, above).0;
    let q = RequestView::TryIsAncestor { ancestor: cur, descendant: stop };
    let q2 = RequestView::TryIsAncestor { ancestor: cur, descendant: stop2 };
    let (a, joined) = tape::ask(t, q);
    let (b, joined2) = tape::ask(t2, q2);
    lemma_walk_goes_on(t, cur, stop, above);
    lemma_walk_goes_on(t2, cur, stop2, above);
    tape::lemma_only_trans(a, end, to, any);
    tape::lemma_only_trans(b, end2, to2, any);
    rest::lemma_steady_reply(from, t, q, to, world);
    rest::lemma_steady_reply(from2, t2, q2, to2, world);
    lemma_agree(world, cur, stop);
    lemma_agree(world, cur, stop2);
    if joined == Ok::<ReplyView, tape::HaltView>(ReplyView::Flag(false)) {
        let p = RequestView::TryFirstParentOf { commit: cur };
        let (a1, parent) = tape::ask(a, p);
        let (b1, parent2) = tape::ask(b, p);
        tape::lemma_only_start(a1, any);
        tape::lemma_only_start(b1, any);
        lemma_walk_goes_further(t, cur, stop, above);
        lemma_walk_goes_further(t2, cur, stop2, above);
        tape::lemma_only_trans(a1, end, to, any);
        tape::lemma_only_trans(b1, end2, to2, any);
        rest::lemma_steady_reply(from, a, p, to, world);
        rest::lemma_steady_reply(from2, b, p, to2, world);
        assert(parent->Ok_0 == parent2->Ok_0);
        if let ReplyView::MaybeObject(Some(parent)) = parent->Ok_0 {
            lemma_agree(world, cur, cur);
            lemma_self(world, parent);
            lemma_grows(world, cur, parent, parent);
            lemma_trans(world, parent, cur, head);
            lemma_same_walk(
                from,
                a1,
                to,
                from2,
                b1,
                to2,
                parent,
                stop,
                stop2,
                Some(cur),
                head,
                world,
            );
        }
    }
}

pub proof fn lemma_walk_goes_on(t: TapeView, cur: Oid, stop: Oid, above: Option<Oid>)
    ensures
        tape::only(
            tape::ask(t, RequestView::TryIsAncestor { ancestor: cur, descendant: stop }).0,
            history::first_revision_down(t, cur, stop, above).0,
            |q: RequestView| true,
        ),
{
    let any = |q: RequestView| true;
    assert(tape::may_look(any));
    let (t1, joined) = tape::ask(
        t,
        RequestView::TryIsAncestor { ancestor: cur, descendant: stop },
    );
    tape::lemma_only_start(t1, any);
    if joined == Ok::<ReplyView, tape::HaltView>(ReplyView::Flag(false)) {
        let q = RequestView::TryFirstParentOf { commit: cur };
        tape::lemma_only_ask(t1, t1, q, any);
        let (t2, parent) = tape::ask(t1, q);
        if parent is Ok {
            if let ReplyView::MaybeObject(Some(parent)) = parent->Ok_0 {
                history::lemma_first_revision_only(t1, t2, parent, stop, Some(cur), any);
            }
        }
    }
}

pub proof fn lemma_walk_goes_further(t: TapeView, cur: Oid, stop: Oid, above: Option<Oid>)
    requires
        tape::ask(t, RequestView::TryIsAncestor { ancestor: cur, descendant: stop }).1 == Ok::<
            ReplyView,
            tape::HaltView,
        >(ReplyView::Flag(false)),
    ensures
        tape::only(
            tape::ask(
                tape::ask(t, RequestView::TryIsAncestor { ancestor: cur, descendant: stop }).0,
                RequestView::TryFirstParentOf { commit: cur },
            ).0,
            history::first_revision_down(t, cur, stop, above).0,
            |q: RequestView| true,
        ),
{
    let any = |q: RequestView| true;
    assert(tape::may_look(any));
    let t1 = tape::ask(t, RequestView::TryIsAncestor { ancestor: cur, descendant: stop }).0;
    let (t2, parent) = tape::ask(t1, RequestView::TryFirstParentOf { commit: cur });
    tape::lemma_only_start(t2, any);
    if parent is Ok {
        if let ReplyView::MaybeObject(Some(parent)) = parent->Ok_0 {
            history::lemma_first_revision_only(t2, t2, parent, stop, Some(cur), any);
        }
    }
}

} // verus!
