//! What a run has brought about, as the world remembers it.
//!
//! `before` is the world in which a run starts and `world` the one that it leaves
//! behind. Commits and trees are in both what they are; references and pull requests
//! are what the requests of the run have made of them.

use vstd::prelude::*;

use crate::forge;
use crate::forge::{PrView, PushView};
use crate::lineage;
use crate::oid;
use crate::oid::Oid;
use crate::rest;
use crate::tape;
use crate::tape::{ReplyView, RequestView, TapeView};

verus! {

/// What holds of every request with its reply in a stretch of a conversation.
pub open spec fn steps(
    from: TapeView,
    to: TapeView,
    ok: spec_fn(RequestView, ReplyView) -> bool,
) -> bool {
    &&& tape::only(from, to, |q: RequestView| true)
    &&& forall|k: int|
        from.asked.len() <= k < to.asked.len() && k < to.replies.len() ==> ok(
            #[trigger] to.asked[k],
            to.replies[k],
        )
}

pub proof fn lemma_steps_trans(
    from: TapeView,
    mid: TapeView,
    to: TapeView,
    ok: spec_fn(RequestView, ReplyView) -> bool,
)
    requires
        steps(from, mid, ok),
        steps(mid, to, ok),
    ensures
        steps(from, to, ok),
{
    tape::lemma_only_trans(from, mid, to, |q: RequestView| true);
    assert forall|k: int|
        from.asked.len() <= k < to.asked.len() && k < to.replies.len() implies ok(
        #[trigger] to.asked[k],
        to.replies[k],
    ) by {
        if k < mid.asked.len() {
            assert(to.asked[k] == mid.asked[k]);
        }
    }
}

pub proof fn lemma_steps_start(t: TapeView, ok: spec_fn(RequestView, ReplyView) -> bool)
    ensures
        steps(t, t, ok),
{
}

/// A stretch in which only requests occur that are in order whatever the reply.
pub proof fn lemma_steps_only(
    from: TapeView,
    to: TapeView,
    allowed: spec_fn(RequestView) -> bool,
    ok: spec_fn(RequestView, ReplyView) -> bool,
)
    requires
        tape::only(from, to, allowed),
        forall|q: RequestView, r: ReplyView| allowed(q) ==> #[trigger] ok(q, r),
    ensures
        steps(from, to, ok),
{
}

pub proof fn lemma_steps_ask(
    t: TapeView,
    q: RequestView,
    ok: spec_fn(RequestView, ReplyView) -> bool,
)
    requires
        t.asked.len() < t.replies.len() ==> ok(q, t.replies[t.asked.len() as int]),
    ensures
        steps(t, tape::ask(t, q).0, ok),
{
    let any = |q: RequestView| true;
    tape::lemma_only_start(t, any);
    tape::lemma_only_ask(t, t, q, any);
}

/// What a reference was set to by the first `k` requests.
pub open spec fn ref_at(
    before: spec_fn(RequestView) -> ReplyView,
    t: TapeView,
    k: int,
    name: Seq<char>,
) -> Option<Oid>
    decreases k,
{
    if k <= 0 {
        before(RequestView::ReferenceTarget { name })->MaybeObject_0
    } else {
        match t.asked[k - 1] {
            RequestView::SetReference { name: set, oid, .. } => if set == name && t.replies[k - 1]
                == ReplyView::Done {
                Some(oid)
            } else {
                ref_at(before, t, k - 1, name)
            },
            _ => ref_at(before, t, k - 1, name),
        }
    }
}

/// The commit that a push brings to a branch.
pub open spec fn pushed_oid(specs: Seq<PushView>, branch: Seq<char>, m: int) -> Option<Oid>
    decreases specs.len() - m,
{
    if m < 0 || m >= specs.len() {
        None
    } else if specs[m].branch == branch && specs[m].oid is Some {
        specs[m].oid
    } else {
        pushed_oid(specs, branch, m + 1)
    }
}

/// What a request brings to a branch.
pub open spec fn brings(q: RequestView, r: ReplyView, branch: Seq<char>) -> Option<Oid> {
    match q {
        RequestView::Push { specs } => if r == ReplyView::Done {
            pushed_oid(specs, branch, 0)
        } else {
            None
        },
        _ => None,
    }
}

/// What was last brought to a branch by the first `k` requests.
pub open spec fn brought(t: TapeView, k: int, branch: Seq<char>) -> Option<Oid>
    decreases k,
{
    if k <= 0 {
        None
    } else {
        match brings(t.asked[k - 1], t.replies[k - 1], branch) {
            Some(commit) => Some(commit),
            None => brought(t, k - 1, branch),
        }
    }
}

/// Where a branch is after the first `k` requests.
pub open spec fn tip_at(
    before: spec_fn(RequestView) -> ReplyView,
    t: TapeView,
    k: int,
    branch: Seq<char>,
) -> Oid {
    match brought(t, k, branch) {
        Some(commit) => commit,
        None => before(RequestView::BranchOid { branch })->Object_0,
    }
}

/// What a request makes of a pull request; `tip` is what was last brought to the branch
/// of one that is opened.
pub open spec fn remade(
    pr: PrView,
    q: RequestView,
    r: ReplyView,
    number: u64,
    tip: Option<Oid>,
) -> PrView {
    match q {
        RequestView::CreatePullRequest { pr: new } => if r == ReplyView::Number(number) {
            PrView {
                number,
                base: new.base,
                head: new.head,
                body: new.body,
                head_oid: match tip {
                    Some(tip) => tip,
                    None => pr.head_oid,
                },
                ..pr
            }
        } else {
            pr
        },
        RequestView::UpdatePullRequest { number: updated, update } => if updated == number && r
            == ReplyView::Done {
            PrView {
                base: match update.base {
                    Some(base) => base,
                    None => pr.base,
                },
                body: match update.body {
                    Some(body) => body,
                    None => pr.body,
                },
                ..pr
            }
        } else {
            pr
        },
        _ => match brings(q, r, pr.head) {
            Some(commit) => PrView { head_oid: commit, ..pr },
            None => pr,
        },
    }
}

/// The branch of the pull request that a request opens.
pub open spec fn opened_head(q: RequestView) -> Seq<char> {
    match q {
        RequestView::CreatePullRequest { pr } => pr.head,
        _ => Seq::empty(),
    }
}

/// A pull request as the first `k` requests have left it.
pub open spec fn pr_at(
    before: spec_fn(RequestView) -> ReplyView,
    t: TapeView,
    k: int,
    number: u64,
) -> PrView
    decreases k,
{
    if k <= 0 {
        before(RequestView::GetPullRequest { number })->Pr_0
    } else {
        remade(
            pr_at(before, t, k - 1, number),
            t.asked[k - 1],
            t.replies[k - 1],
            number,
            brought(t, k - 1, opened_head(t.asked[k - 1])),
        )
    }
}

/// Two pull requests are the same in what a run can change.
pub open spec fn alike(a: PrView, b: PrView) -> bool {
    &&& a.number == b.number
    &&& a.head == b.head
    &&& a.base == b.base
    &&& a.body == b.body
    &&& a.head_oid == b.head_oid
}

/// The world has a commit.
pub open spec fn has_commit(
    world: spec_fn(RequestView) -> ReplyView,
    commit: Oid,
    message: Seq<char>,
    tree: Oid,
    parent: Oid,
) -> bool {
    &&& world(RequestView::TreeOf { commit }) == ReplyView::Object(tree)
    &&& world(RequestView::MessageOf { commit }) == ReplyView::Text(message)
    &&& lineage::stems(world, commit, parent)
}

/// A commit was known after the first `k` requests.
pub open spec fn knew(t: TapeView, k: int, commit: Oid) -> bool {
    exists|m: int|
        0 <= m < k && m < t.replies.len() && shows_commit(
            #[trigger] t.asked[m],
            t.replies[m],
            commit,
        )
}

/// A request with its reply shows that there is a commit.
pub open spec fn shows_commit(q: RequestView, r: ReplyView, commit: Oid) -> bool {
    match q {
        RequestView::TreeOf { commit: asked } => asked == commit && r is Object,
        RequestView::GetPullRequest { .. } => r matches ReplyView::Pr(pr) && pr.head_oid == commit,
        RequestView::ReferenceTarget { .. } => r == ReplyView::MaybeObject(Some(commit)),
        _ => false,
    }
}

/// The commit that the request at `k` has made is new: nothing that was known comes from
/// it.
pub open spec fn is_new(
    world: spec_fn(RequestView) -> ReplyView,
    t: TapeView,
    k: int,
    commit: Oid,
) -> bool {
    forall|known: Oid| #[trigger] knew(t, k, known) ==> !lineage::reaches(world, commit, known)
}

/// A pull request was named in the first `k` requests.
pub open spec fn named(t: TapeView, k: int, number: u64) -> bool {
    exists|m: int|
        0 <= m < k && m < t.replies.len() && names(#[trigger] t.asked[m], t.replies[m], number)
}

pub open spec fn names(q: RequestView, r: ReplyView, number: u64) -> bool {
    match q {
        RequestView::GetPullRequest { number: asked } => asked == number,
        RequestView::CreatePullRequest { .. } => r == ReplyView::Number(number),
        _ => false,
    }
}

/// The world is one that fits the request at `k` with its reply: what is asked about
/// commits stays true, a commit that is made is there, one that is made now is new,
/// references and pull requests are what was made of them, and a new pull request gets a
/// new number.
pub open spec fn recalls(
    before: spec_fn(RequestView) -> ReplyView,
    world: spec_fn(RequestView) -> ReplyView,
    t: TapeView,
    k: int,
    q: RequestView,
    r: ReplyView,
) -> bool {
    &&& rest::steady(q) ==> world(q) == r
    &&& match q {
        RequestView::MergeSettings => world(q) == r,
        RequestView::DeriveCommit { message, tree, parent, .. } => r matches ReplyView::Object(
            commit,
        ) ==> has_commit(world, commit, message, tree, parent) && is_new(world, t, k, commit),
        RequestView::CopyCommit { message, tree, parent, .. } => r matches ReplyView::Object(
            commit,
        ) ==> has_commit(world, commit, message, tree, parent),
        RequestView::ReferenceTarget { name } => r == ReplyView::MaybeObject(
            ref_at(before, t, k, name),
        ),
        RequestView::GetPullRequest { number } => r matches ReplyView::Pr(pr) ==> pr.number
            == number && alike(pr, pr_at(before, t, k, number)) && pr.head_oid == tip_at(
            before,
            t,
            k,
            pr.head,
        ) && (pr.base_oid != oid::zero_oid() ==> pr.base_oid == tip_at(before, t, k, pr.base)),
        RequestView::CreatePullRequest { .. } => r matches ReplyView::Number(number) ==> !named(
            t,
            k,
            number,
        ),
        _ => true,
    }
}

/// `world` is what a run that started in `before` has left behind.
pub open spec fn remembers(
    before: spec_fn(RequestView) -> ReplyView,
    world: spec_fn(RequestView) -> ReplyView,
    t: TapeView,
) -> bool {
    let n = t.asked.len() as int;
    &&& forall|k: int|
        0 <= k < n && k < t.replies.len() ==> recalls(
            before,
            world,
            t,
            k,
            #[trigger] t.asked[k],
            t.replies[k],
        )
    &&& forall|name: Seq<char>|
        world(RequestView::ReferenceTarget { name }) == ReplyView::MaybeObject(
            #[trigger] ref_at(before, t, n, name),
        )
    &&& forall|number: u64|
        alike(
            world(RequestView::GetPullRequest { number })->Pr_0,
            #[trigger] pr_at(before, t, n, number),
        ) && (named(t, n, number) ==> pr_at(before, t, n, number).number == number)
}

/// What was asked since `from` about commits and trees got the world's replies.
pub proof fn lemma_steady(
    before: spec_fn(RequestView) -> ReplyView,
    world: spec_fn(RequestView) -> ReplyView,
    from: TapeView,
    to: TapeView,
)
    requires
        remembers(before, world, to),
    ensures
        rest::hears_steady(from, to, world),
{
    assert forall|k: int|
        from.asked.len() <= k < to.asked.len() && k < to.replies.len() && rest::steady(
            #[trigger] to.asked[k],
        ) implies to.replies[k] == world(to.asked[k]) by {
        assert(recalls(before, world, to, k, to.asked[k], to.replies[k]));
    }
}

/// What the world has of the request that comes next.
pub proof fn lemma_recalled(
    before: spec_fn(RequestView) -> ReplyView,
    world: spec_fn(RequestView) -> ReplyView,
    t: TapeView,
    q: RequestView,
    to: TapeView,
)
    requires
        remembers(before, world, to),
        t.asked.len() < t.replies.len(),
        tape::only(tape::ask(t, q).0, to, |q: RequestView| true),
    ensures
        recalls(
            before,
            world,
            to,
            t.asked.len() as int,
            q,
            t.replies[t.asked.len() as int],
        ),
        to.asked[t.asked.len() as int] == q,
        to.replies[t.asked.len() as int] == t.replies[t.asked.len() as int],
{
    let k = t.asked.len() as int;
    assert(tape::ask(t, q).0.asked[k] == q);
    assert(to.asked[k] == q);
    assert(recalls(before, world, to, k, to.asked[k], to.replies[k]));
}

/// A reference that is not set stays what it is.
pub proof fn lemma_ref_stays(
    before: spec_fn(RequestView) -> ReplyView,
    t: TapeView,
    m: int,
    k: int,
    name: Seq<char>,
)
    requires
        0 <= m <= k,
        forall|i: int|
            m <= i < k ==> !(#[trigger] t.asked[i] matches RequestView::SetReference {
                name: set,
                ..
            } && set == name),
    ensures
        ref_at(before, t, k, name) == ref_at(before, t, m, name),
    decreases k,
{
    if m < k {
        assert(!(t.asked[k - 1] matches RequestView::SetReference { name: set, .. } && set
            == name));
        lemma_ref_stays(before, t, m, k - 1, name);
    }
}

/// A reference that is only set to one commit, and is so once, is that commit.
pub proof fn lemma_ref_set(
    before: spec_fn(RequestView) -> ReplyView,
    t: TapeView,
    m: int,
    at: int,
    k: int,
    name: Seq<char>,
    wanted: Oid,
)
    requires
        0 <= m <= at < k,
        t.replies[at] == ReplyView::Done,
        t.asked[at] matches RequestView::SetReference { name: set, oid, .. } && set == name && oid
            == wanted,
        forall|i: int|
            m <= i < k && (#[trigger] t.asked[i] matches RequestView::SetReference {
                name: set,
                ..
            } && set == name) ==> t.asked[i]->SetReference_oid == wanted,
    ensures
        ref_at(before, t, k, name) == Some(wanted),
    decreases k,
{
    if at < k - 1 {
        lemma_ref_set(before, t, m, at, k - 1, name, wanted);
    }
    assert(t.asked[k - 1] matches RequestView::SetReference { name: set, .. } && set == name
        ==> t.asked[k - 1]->SetReference_oid == wanted);
}

/// What may happen to a pull request while it gets the given base, body and head.
pub open spec fn mild(
    q: RequestView,
    r: ReplyView,
    number: u64,
    head: Seq<char>,
    base: Seq<char>,
    body: Seq<char>,
    tip: Oid,
) -> bool {
    match q {
        RequestView::CreatePullRequest { .. } => r != ReplyView::Number(number),
        RequestView::UpdatePullRequest { number: updated, update } => updated == number ==> (
        update.base matches Some(b) ==> b == base) && (update.body matches Some(b) ==> b == body),
        RequestView::Push { .. } => brings(q, r, head) matches Some(commit) ==> commit == tip,
        _ => true,
    }
}

pub open spec fn gives_base(q: RequestView, r: ReplyView, number: u64) -> bool {
    q matches RequestView::UpdatePullRequest { number: updated, update } && updated == number
        && update.base is Some && r == ReplyView::Done
}

pub open spec fn gives_body(q: RequestView, r: ReplyView, number: u64) -> bool {
    q matches RequestView::UpdatePullRequest { number: updated, update } && updated == number
        && update.body is Some && r == ReplyView::Done
}

/// What a stretch of mild requests makes of a pull request.
pub proof fn lemma_mild(
    before: spec_fn(RequestView) -> ReplyView,
    t: TapeView,
    m: int,
    k: int,
    number: u64,
    head: Seq<char>,
    base: Seq<char>,
    body: Seq<char>,
    tip: Oid,
)
    requires
        0 <= m <= k,
        pr_at(before, t, m, number).head == head,
        forall|i: int|
            m <= i < k ==> mild(#[trigger] t.asked[i], t.replies[i], number, head, base, body, tip),
    ensures
        ({
            let old = pr_at(before, t, m, number);
            let new = pr_at(before, t, k, number);
            &&& new.number == old.number
            &&& new.head == head
            &&& new.base == base || new.base == old.base
            &&& new.body == body || new.body == old.body
            &&& new.head_oid == tip || new.head_oid == old.head_oid
            &&& (exists|i: int|
                m <= i < k && gives_base(#[trigger] t.asked[i], t.replies[i], number)) ==> new.base
                == base
            &&& (exists|i: int|
                m <= i < k && gives_body(#[trigger] t.asked[i], t.replies[i], number)) ==> new.body
                == body
            &&& (exists|i: int|
                m <= i < k && brings(#[trigger] t.asked[i], t.replies[i], head) is Some)
                ==> new.head_oid == tip
        }),
    decreases k,
{
    if m < k {
        lemma_mild(before, t, m, k - 1, number, head, base, body, tip);
        assert(mild(t.asked[k - 1], t.replies[k - 1], number, head, base, body, tip));
        let q = t.asked[k - 1];
        let r = t.replies[k - 1];
        if exists|i: int| m <= i < k && gives_base(#[trigger] t.asked[i], t.replies[i], number) {
            let i = choose|i: int|
                m <= i < k && gives_base(#[trigger] t.asked[i], t.replies[i], number);
            if i < k - 1 {
                assert(gives_base(t.asked[i], t.replies[i], number));
            }
        }
        if exists|i: int| m <= i < k && gives_body(#[trigger] t.asked[i], t.replies[i], number) {
            let i = choose|i: int|
                m <= i < k && gives_body(#[trigger] t.asked[i], t.replies[i], number);
            if i < k - 1 {
                assert(gives_body(t.asked[i], t.replies[i], number));
            }
        }
        if exists|i: int| m <= i < k && brings(#[trigger] t.asked[i], t.replies[i], head) is Some {
            let i = choose|i: int|
                m <= i < k && brings(#[trigger] t.asked[i], t.replies[i], head) is Some;
            if i < k - 1 {
                assert(brings(t.asked[i], t.replies[i], head) is Some);
            }
        }
    }
}

/// What was brought to a branch, where every push since `m` brings the same and one does.
pub proof fn lemma_brought(
    t: TapeView,
    m: int,
    at: int,
    k: int,
    branch: Seq<char>,
    tip: Oid,
)
    requires
        0 <= m <= at < k,
        brings(t.asked[at], t.replies[at], branch) == Some(tip),
        forall|i: int|
            m <= i < k ==> (brings(#[trigger] t.asked[i], t.replies[i], branch) matches Some(commit)
                ==> commit == tip),
    ensures
        brought(t, k, branch) == Some(tip),
    decreases k,
{
    assert(brings(t.asked[k - 1], t.replies[k - 1], branch) matches Some(commit) ==> commit == tip);
    if at < k - 1 {
        lemma_brought(t, m, at, k - 1, branch, tip);
    }
}

/// Where nothing is pushed, a branch stays.
pub proof fn lemma_tip_stays(
    before: spec_fn(RequestView) -> ReplyView,
    t: TapeView,
    m: int,
    k: int,
    branch: Seq<char>,
)
    requires
        0 <= m <= k,
        forall|i: int| m <= i < k ==> brings(#[trigger] t.asked[i], t.replies[i], branch) is None,
    ensures
        brought(t, k, branch) == brought(t, m, branch),
        tip_at(before, t, k, branch) == tip_at(before, t, m, branch),
    decreases k,
{
    if m < k {
        assert(brings(t.asked[k - 1], t.replies[k - 1], branch) is None);
        lemma_tip_stays(before, t, m, k - 1, branch);
    }
}

/// A push brings a branch that is named only once what it says.
pub proof fn lemma_pushed_oid(specs: Seq<PushView>, branch: Seq<char>, m: int, at: int, tip: Oid)
    requires
        0 <= m <= at < specs.len(),
        specs[at].branch == branch,
        specs[at].oid == Some(tip),
        forall|i: int|
            0 <= i < specs.len() && (#[trigger] specs[i]).branch == branch ==> specs[i].oid == Some(
                tip,
            ),
    ensures
        pushed_oid(specs, branch, m) == Some(tip),
    decreases specs.len() - m,
{
    if specs[m].branch != branch {
        lemma_pushed_oid(specs, branch, m + 1, at, tip);
    }
}

/// A push brings nothing to a branch that it does not name.
pub proof fn lemma_not_pushed(specs: Seq<PushView>, branch: Seq<char>, m: int)
    requires
        0 <= m,
        forall|i: int| 0 <= i < specs.len() ==> (#[trigger] specs[i]).branch != branch,
    ensures
        pushed_oid(specs, branch, m) is None,
    decreases specs.len() - m,
{
    if m < specs.len() {
        lemma_not_pushed(specs, branch, m + 1);
    }
}

/// A request was made in a stretch of a conversation and got the reply.
pub open spec fn told_since(from: TapeView, to: TapeView, q: RequestView, r: ReplyView) -> bool {
    exists|k: int|
        from.asked.len() <= k < to.asked.len() && k < to.replies.len() && #[trigger] to.asked[k]
            == q && to.replies[k] == r
}

pub proof fn lemma_told_since(t: TapeView, q: RequestView)
    requires
        t.asked.len() < t.replies.len(),
    ensures
        told_since(t, tape::ask(t, q).0, q, t.replies[t.asked.len() as int]),
{
    let k = t.asked.len() as int;
    assert(tape::ask(t, q).0.asked[k] == q);
}

/// What was told in a stretch was told in a longer one.
pub proof fn lemma_told_longer(
    from: TapeView,
    a: TapeView,
    b: TapeView,
    to: TapeView,
    q: RequestView,
    r: ReplyView,
)
    requires
        from.asked.len() <= a.asked.len(),
        tape::only(b, to, |q: RequestView| true),
        told_since(a, b, q, r),
    ensures
        told_since(from, to, q, r),
{
    let k = choose|k: int|
        a.asked.len() <= k < b.asked.len() && k < b.replies.len() && #[trigger] b.asked[k] == q
            && b.replies[k] == r;
    assert(to.asked[k] == q);
}

/// The branch of a pull request stays the same.
pub proof fn lemma_head_stays(
    before: spec_fn(RequestView) -> ReplyView,
    t: TapeView,
    m: int,
    k: int,
    number: u64,
)
    requires
        0 <= m <= k,
        forall|i: int|
            m <= i < k ==> !(#[trigger] t.asked[i] is CreatePullRequest && t.replies[i]
                == ReplyView::Number(number)),
    ensures
        pr_at(before, t, k, number).head == pr_at(before, t, m, number).head,
        pr_at(before, t, k, number).number == pr_at(before, t, m, number).number,
    decreases k,
{
    if m < k {
        assert(!(t.asked[k - 1] is CreatePullRequest && t.replies[k - 1] == ReplyView::Number(
            number,
        )));
        lemma_head_stays(before, t, m, k - 1, number);
    }
}

/// A pull request that was opened with what had been pushed.
pub proof fn lemma_opened(
    before: spec_fn(RequestView) -> ReplyView,
    t: TapeView,
    m: int,
    push: int,
    at: int,
    k: int,
    number: u64,
    new: forge::CreateView,
    tip: Oid,
)
    requires
        0 <= m <= push < at < k,
        t.asked[at] == (RequestView::CreatePullRequest { pr: new }),
        t.replies[at] == ReplyView::Number(number),
        brings(t.asked[push], t.replies[push], new.head) == Some(tip),
        forall|i: int|
            m <= i < k ==> (brings(#[trigger] t.asked[i], t.replies[i], new.head) matches Some(
                commit,
            ) ==> commit == tip),
        forall|i: int| at < i < k ==> !touches(#[trigger] t.asked[i], t.replies[i], number),
    ensures
        ({
            let pr = pr_at(before, t, k, number);
            &&& pr.number == number
            &&& pr.base == new.base
            &&& pr.head == new.head
            &&& pr.body == new.body
            &&& pr.head_oid == tip
        }),
    decreases k,
{
    if at == k - 1 {
        lemma_brought(t, m, push, at, new.head, tip);
    } else {
        assert(!touches(t.asked[k - 1], t.replies[k - 1], number));
        assert(brings(t.asked[k - 1], t.replies[k - 1], new.head) matches Some(commit) ==> commit
            == tip);
        lemma_opened(before, t, m, push, at, k - 1, number, new, tip);
    }
}

/// A request opens or updates a pull request.
pub open spec fn touches(q: RequestView, r: ReplyView, number: u64) -> bool {
    match q {
        RequestView::CreatePullRequest { .. } => r == ReplyView::Number(number),
        RequestView::UpdatePullRequest { number: updated, .. } => updated == number,
        _ => false,
    }
}

/// Where no request opens, updates or pushes to a pull request, what a request can change
/// of it stays.
pub proof fn lemma_untold(
    before: spec_fn(RequestView) -> ReplyView,
    t: TapeView,
    m: int,
    k: int,
    number: u64,
)
    requires
        0 <= m <= k,
        forall|i: int|
            m <= i < k ==> !(#[trigger] t.asked[i] is CreatePullRequest && t.replies[i]
                == ReplyView::Number(number)),
    ensures
        ({
            let old = pr_at(before, t, m, number);
            let new = pr_at(before, t, k, number);
            &&& new.head == old.head && new.number == old.number
            &&& (forall|i: int|
                m <= i < k ==> !gives_base(#[trigger] t.asked[i], t.replies[i], number)) ==> new.base
                == old.base
            &&& (forall|i: int|
                m <= i < k ==> brings(#[trigger] t.asked[i], t.replies[i], old.head) is None)
                ==> new.head_oid == old.head_oid
        }),
    decreases k,
{
    if m < k {
        assert(!(t.asked[k - 1] is CreatePullRequest && t.replies[k - 1] == ReplyView::Number(
            number,
        )));
        lemma_untold(before, t, m, k - 1, number);
        if forall|i: int| m <= i < k ==> !gives_base(#[trigger] t.asked[i], t.replies[i], number) {
            assert(!gives_base(t.asked[k - 1], t.replies[k - 1], number));
        }
        let head = pr_at(before, t, m, number).head;
        if forall|i: int|
            m <= i < k ==> brings(#[trigger] t.asked[i], t.replies[i], head) is None {
            assert(brings(t.asked[k - 1], t.replies[k - 1], head) is None);
        }
    }
}

} // verus!
