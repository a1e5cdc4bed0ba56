//! What `land` promises.

use vstd::prelude::*;

use crate::config::ConfigView;
use crate::forge;
use crate::forge::{PrState, PrView};
use crate::history;
use crate::land;
use crate::land::{LandOptionsView, Recorded, RepairsView};
use crate::oid::Oid;
use crate::refs;
use crate::stack;
use crate::stack::StackView;
use crate::tape;
use crate::tape::{MergeView, ReplyView, RequestView, TapeView};
use crate::upgrade;

verus! {

/// Before the `k`th request another one was made and got the reply.
pub open spec fn heard(t: TapeView, k: int, q: RequestView, r: ReplyView) -> bool {
    exists|x: int|
        0 <= x < k && x < t.asked.len() && x < t.replies.len() && #[trigger] t.asked[x] == q
            && t.replies[x] == r
}

/// Before the `k`th request the forge showed a pull request that is open and no draft.
pub open spec fn seen_ready(t: TapeView, k: int, number: u64) -> bool {
    exists|pr: PrView|
        pr.state == PrState::Open && !pr.draft && #[trigger] heard(
            t,
            k,
            RequestView::GetPullRequest { number },
            ReplyView::Pr(pr),
        )
}

/// Before the `k`th request a commit put on the trunk and a head merged into the trunk
/// came to one and the same tree.
pub open spec fn same_outcome(t: TapeView, k: int, commit: Oid, trunk: Oid, head: Oid, tree: Oid) -> bool {
    &&& heard(
        t,
        k,
        RequestView::CherryPick { commit, onto: trunk, first_parent: false },
        ReplyView::Merged(MergeView::Clean(tree)),
    )
    &&& heard(
        t,
        k,
        RequestView::MergeCommits { ours: trunk, theirs: head },
        ReplyView::Merged(MergeView::Clean(tree)),
    )
}

pub proof fn lemma_heard(from: TapeView, to: TapeView, k: int, q: RequestView, r: ReplyView)
    requires
        tape::told(from, q, r),
        tape::only(from, to, |q: RequestView| true),
        from.asked.len() <= k,
    ensures
        heard(to, k, q, r),
{
    let x = choose|x: int|
        0 <= x < from.asked.len() && x < from.replies.len() && #[trigger] from.asked[x] == q
            && from.replies[x] == r;
    assert(to.asked[x] == q);
}

/// The pull request was shown as it is taken, but for its head.
pub open spec fn shown(t: TapeView, number: u64, pr: PrView) -> bool {
    exists|seen: PrView|
        seen == (PrView { head_oid: seen.head_oid, ..pr }) && #[trigger] tape::told(
            t,
            RequestView::GetPullRequest { number },
            ReplyView::Pr(seen),
        )
}

pub proof fn lemma_shown_still(from: TapeView, to: TapeView, number: u64, pr: PrView)
    requires
        shown(from, number, pr),
        tape::only(from, to, |q: RequestView| true),
    ensures
        shown(to, number, pr),
{
    tape::lemma_said_stays(from, to, |q: RequestView| true);
    let seen = choose|seen: PrView|
        seen == (PrView { head_oid: seen.head_oid, ..pr }) && #[trigger] tape::told(
            from,
            RequestView::GetPullRequest { number },
            ReplyView::Pr(seen),
        );
    assert(tape::told(to, RequestView::GetPullRequest { number }, ReplyView::Pr(seen)));
}

proof fn lemma_asked_pr(t: TapeView, number: u64)
    ensures
        tape::ask_pr(t, RequestView::GetPullRequest { number }).1 matches Ok(pr) ==> shown(
            tape::ask_pr(t, RequestView::GetPullRequest { number }).0,
            number,
            pr,
        ),
{
    let q = RequestView::GetPullRequest { number };
    let (t1, r) = tape::ask_pr(t, q);
    if r is Ok {
        tape::lemma_told(t, q);
        assert(tape::told(t1, q, ReplyView::Pr(r->Ok_0)));
    }
}

proof fn lemma_caught_up_shown(t: TapeView, number: u64, recorded: Oid, pr: PrView, k: int)
    requires
        shown(t, number, pr),
    ensures
        land::caught_up(t, number, recorded, pr, k).1 matches Ok(now) ==> shown(
            land::caught_up(t, number, recorded, pr, k).0,
            number,
            now,
        ),
    decreases land::ATTEMPTS - k,
{
    if k < land::ATTEMPTS {
        let (t1, r) = tape::ask_unit(t, RequestView::Sleep { millis: land::delay(k) });
        if r is Ok {
            lemma_asked_pr(t1, number);
            let (t2, again) = tape::ask_pr(t1, RequestView::GetPullRequest { number });
            if again is Ok {
                lemma_caught_up_shown(t2, number, recorded, again->Ok_0, k + 1);
            }
        }
    }
}

proof fn lemma_with_head_shown(t: TapeView, number: u64, pr: PrView, old: PrView)
    requires
        shown(t, number, old),
        pr == (PrView { head_oid: pr.head_oid, ..old }),
    ensures
        land::with_head(t, pr).1 matches Ok(now) ==> shown(
            land::with_head(t, pr).0,
            number,
            now,
        ),
{
    broadcast use tape::lemma_only_ask;

    tape::lemma_only_start(t, |q: RequestView| true);
    land::lemma_with_head_only(t, t, pr, |q: RequestView| true);
    lemma_shown_still(t, land::with_head(t, pr).0, number, old);
    let to = land::with_head(t, pr).0;
    let seen = choose|seen: PrView|
        seen == (PrView { head_oid: seen.head_oid, ..old }) && #[trigger] tape::told(
            to,
            RequestView::GetPullRequest { number },
            ReplyView::Pr(seen),
        );
    assert(seen == (PrView { head_oid: seen.head_oid, ..pr }));
}

/// What is known of a pull request when it is taken was shown by the forge.
pub proof fn lemma_synced_pr_shown(t: TapeView, number: u64, wait: bool)
    ensures
        land::synced_pr(t, number, wait).1 matches Ok(pr) ==> shown(
            land::synced_pr(t, number, wait).0,
            number,
            pr,
        ),
{
    broadcast use tape::lemma_only_ask;

    let any = |q: RequestView| true;
    let (t1, pr) = tape::ask_pr(t, RequestView::GetPullRequest { number });
    lemma_asked_pr(t, number);
    if pr is Ok && (pr->Ok_0).state == PrState::Open {
        let pr = pr->Ok_0;
        let (t2, recorded) = tape::ask_maybe_object(
            t1,
            RequestView::ReferenceTarget { name: refs::head_ref(number) },
        );
        tape::lemma_only_start(t1, any);
        assert(tape::only(t1, t2, any));
        lemma_shown_still(t1, t2, number, pr);
        if recorded is Ok {
            let recorded = recorded->Ok_0;
            if recorded is None || pr.head_oid == recorded->0 {
                lemma_with_head_shown(t2, number, pr, pr);
            } else {
                let (t3, tip) = tape::ask_maybe_object(
                    t2,
                    RequestView::BranchOid { branch: pr.head },
                );
                assert(tape::only(t1, t3, any));
                lemma_shown_still(t1, t3, number, pr);
                if tip is Ok {
                    if tip->Ok_0 != recorded {
                        lemma_with_head_shown(t3, number, pr, pr);
                    } else if wait {
                        lemma_caught_up_shown(t3, number, recorded->0, pr, 0);
                        let (t4, now) = land::caught_up(t3, number, recorded->0, pr, 0);
                        if now is Ok {
                            lemma_with_head_shown(
                                t4,
                                number,
                                PrView { head_oid: recorded->0, ..now->Ok_0 },
                                now->Ok_0,
                            );
                        }
                    } else {
                        lemma_with_head_shown(
                            t3,
                            number,
                            PrView { head_oid: recorded->0, ..pr },
                            pr,
                        );
                    }
                }
            }
        }
    }
}

/// A pull request that is taken as open and no draft was shown as such.
pub proof fn lemma_synced_pr_ready(t: TapeView, number: u64, wait: bool)
    ensures
        land::synced_pr(t, number, wait).1 matches Ok(pr) ==> (pr.state == PrState::Open && !pr.draft
            ==> seen_ready(
            land::synced_pr(t, number, wait).0,
            land::synced_pr(t, number, wait).0.asked.len() as int,
            number,
        )),
{
    lemma_synced_pr_shown(t, number, wait);
    let (to, r) = land::synced_pr(t, number, wait);
    if r is Ok {
        let pr = r->Ok_0;
        let seen = choose|seen: PrView|
            seen == (PrView { head_oid: seen.head_oid, ..pr }) && #[trigger] tape::told(
                to,
                RequestView::GetPullRequest { number },
                ReplyView::Pr(seen),
            );
        tape::lemma_only_start(to, |q: RequestView| true);
        lemma_heard(
            to,
            to,
            to.asked.len() as int,
            RequestView::GetPullRequest { number },
            ReplyView::Pr(seen),
        );
    }
}

/// What a check that was passed has heard.
proof fn lemma_reviewed(t: TapeView, commit: Oid, trunk: Oid, head: Oid) -> (tree: Oid)
    requires
        land::reviewed(t, commit, trunk, head).1 is Ok,
    ensures
        tape::told(
            land::reviewed(t, commit, trunk, head).0,
            RequestView::CherryPick { commit, onto: trunk, first_parent: false },
            ReplyView::Merged(MergeView::Clean(tree)),
        ),
        tape::told(
            land::reviewed(t, commit, trunk, head).0,
            RequestView::MergeCommits { ours: trunk, theirs: head },
            ReplyView::Merged(MergeView::Clean(tree)),
        ),
{
    broadcast use tape::lemma_only_ask;

    let any = |q: RequestView| true;
    let q1 = RequestView::CherryPick { commit, onto: trunk, first_parent: false };
    let q2 = RequestView::MergeCommits { ours: trunk, theirs: head };
    let (t1, picked) = tape::ask_merge(t, q1);
    let tree = picked->Ok_0->Clean_0;
    let (t2, merged) = tape::ask_merge(t1, q2);
    tape::lemma_told(t, q1);
    tape::lemma_told(t1, q2);
    tape::lemma_only_start(t1, any);
    assert(tape::only(t1, t2, any));
    tape::lemma_said_stays(t1, t2, any);
    tree
}

/// Layer `index` may land: it sits on the trunk, its pull request is open and no draft,
/// and its commit on the trunk comes to what merging the head into the trunk comes to.
pub open spec fn cleared(
    c: ConfigView,
    s: StackView,
    index: int,
    t: TapeView,
    k: int,
    trunk: Oid,
    head: Oid,
    tree: Oid,
) -> bool {
    let layer = s.layers[index];
    &&& !(layer.dep is Layer)
    &&& layer.pr is Some
    &&& seen_ready(t, k, layer.pr->0)
    &&& heard(
        t,
        k,
        RequestView::BranchOid { branch: c.trunk },
        ReplyView::MaybeObject(Some(trunk)),
    )
    &&& same_outcome(t, k, layer.commit, trunk, head, tree)
}

/// What a layer that may land has heard by then.
proof fn lemma_checked(t: TapeView, c: ConfigView, s: StackView, index: int, to: TapeView, k: int) -> (r: (
    Oid,
    Oid,
))
    requires
        land::landing_checked(t, c, s, index).1 is Ok,
        tape::only(land::landing_checked(t, c, s, index).0, to, |q: RequestView| true),
        land::landing_checked(t, c, s, index).0.asked.len() <= k,
    ensures
        cleared(
            c,
            s,
            index,
            to,
            k,
            r.0,
            (land::landing_checked(t, c, s, index).1->Ok_0).head_oid,
            r.1,
        ),
{
    broadcast use {
        tape::lemma_only_ask,
        land::lemma_reviewed_only,
        land::lemma_trunk_tip_only,
    };

    let any = |q: RequestView| true;
    let layer = s.layers[index];
    let number = layer.pr->0;
    let (t1, pr) = land::synced_pr(t, number, true);
    let pr = pr->Ok_0;
    lemma_synced_pr_shown(t, number, true);
    let (t2, trunk) = land::trunk_tip(t1, c);
    let trunk = trunk->Ok_0;
    let (t3, r) = land::reviewed(t2, layer.commit, trunk, pr.head_oid);
    assert(t3 == land::landing_checked(t, c, s, index).0);
    let tree = lemma_reviewed(t2, layer.commit, trunk, pr.head_oid);
    let q = RequestView::BranchOid { branch: c.trunk };
    let (t1a, tip) = tape::ask_maybe_object(t1, q);
    tape::lemma_told(t1, q);
    tape::lemma_only_start(t1, any);
    tape::lemma_only_start(t1a, any);
    assert(tape::only(t1a, t2, any));
    assert(tape::only(t1a, t3, any));
    assert(tape::only(t1, t3, any));
    tape::lemma_only_trans(t1a, t3, to, any);
    tape::lemma_only_trans(t1, t3, to, any);
    assert(tape::told(t1a, q, ReplyView::MaybeObject(Some(trunk))));
    lemma_heard(t1a, to, k, q, ReplyView::MaybeObject(Some(trunk)));
    lemma_heard(
        t3,
        to,
        k,
        RequestView::CherryPick { commit: layer.commit, onto: trunk, first_parent: false },
        ReplyView::Merged(MergeView::Clean(tree)),
    );
    lemma_heard(
        t3,
        to,
        k,
        RequestView::MergeCommits { ours: trunk, theirs: pr.head_oid },
        ReplyView::Merged(MergeView::Clean(tree)),
    );
    let seen = choose|seen: PrView|
        seen == (PrView { head_oid: seen.head_oid, ..pr }) && #[trigger] tape::told(
            t1,
            RequestView::GetPullRequest { number },
            ReplyView::Pr(seen),
        );
    lemma_heard(
        t1,
        to,
        k,
        RequestView::GetPullRequest { number },
        ReplyView::Pr(seen),
    );
    assert(seen_ready(to, k, number));
    (trunk, tree)
}

pub proof fn lemma_record_from_only(
    from: TapeView,
    t: TapeView,
    list: Seq<Recorded>,
    k: int,
    allowed: spec_fn(RequestView) -> bool,
)
    requires
        tape::only(from, t, allowed),
        tape::may_write(allowed),
    ensures
        tape::only(from, land::record_from(t, list, k).0, allowed),
    decreases list.len() - k,
{
    broadcast use tape::lemma_only_ask;

    if 0 <= k < list.len() {
        let (t1, r1) = refs::updated(t, list[k].number, list[k].tip);
        if r1 is Ok {
            let (t2, r2) = match list[k].root {
                Some(root) => refs::root_updated(t1, list[k].number, root),
                None => tape::done(t1, ()),
            };
            if r2 is Ok {
                lemma_record_from_only(from, t2, list, k + 1, allowed);
            }
        }
    }
}

/// What comes after the push at the end of a landing is a local matter.
pub proof fn lemma_after_push_only(
    from: TapeView,
    t: TapeView,
    s: StackView,
    index: usize,
    number: u64,
    pr: PrView,
    opts: LandOptionsView,
    squash: Oid,
    run: RepairsView,
    allowed: spec_fn(RequestView) -> bool,
)
    requires
        tape::only(from, t, allowed),
        tape::may_write(allowed),
    ensures
        forall|before: TapeView| #[trigger]
            tape::ask_unit(
                before,
                RequestView::Push { specs: run.specs.push(land::landed_push(pr.head, number)) },
            ) == (t, Ok::<(), tape::HaltView>(())) ==> tape::only(
                from,
                land::landing_concluded(before, s, index, number, pr, opts, squash, run).0,
                allowed,
            ),
{
    broadcast use {tape::lemma_only_ask, history::lemma_commits_rebased_only};

    lemma_record_from_only(from, t, run.recorded, 0, allowed);
}

proof fn lemma_concluded_only(
    from: TapeView,
    t: TapeView,
    s: StackView,
    index: usize,
    number: u64,
    pr: PrView,
    opts: LandOptionsView,
    squash: Oid,
    run: RepairsView,
    allowed: spec_fn(RequestView) -> bool,
)
    requires
        tape::only(from, t, allowed),
        tape::may_do_all_but_push_and_merge(allowed),
        forall|specs: Seq<forge::PushView>| #[trigger] allowed(RequestView::Push { specs }),
    ensures
        tape::only(
            from,
            land::landing_concluded(t, s, index, number, pr, opts, squash, run).0,
            allowed,
        ),
{
    broadcast use {tape::lemma_only_ask, history::lemma_commits_rebased_only};

    assert(tape::may_write(allowed));
    let specs = run.specs.push(land::landed_push(pr.head, number));
    let (t1, r) = tape::ask_unit(t, RequestView::Push { specs });
    assert(tape::only(from, t1, allowed));
    lemma_record_from_only(from, t1, run.recorded, 0, allowed);
}

pub proof fn lemma_landing_only(
    from: TapeView,
    t: TapeView,
    c: ConfigView,
    s: StackView,
    index: usize,
    number: u64,
    pr: PrView,
    opts: LandOptionsView,
    allowed: spec_fn(RequestView) -> bool,
)
    requires
        tape::only(from, t, allowed),
        tape::may_do_all_but_push_and_merge(allowed),
        forall|specs: Seq<forge::PushView>| #[trigger] allowed(RequestView::Push { specs }),
        allowed(land::squash_request(s, index, number, pr, opts)),
    ensures
        tape::only(from, land::landing(t, c, s, index, number, pr, opts).0, allowed),
{
    broadcast use {
        tape::lemma_only_ask,
        land::lemma_snapshot_from_only,
        land::lemma_repair_from_only,
    };

    assert(tape::may_look(allowed));
    let (t1, snap) = land::snapshot_from(
        t,
        c,
        s,
        stack::dependents(s, index as int),
        0,
        land::empty_snapshot(),
    );
    if snap is Ok {
        let snap = snap->Ok_0;
        land::lemma_squashed_only(
            from,
            t1,
            c,
            s,
            index,
            number,
            pr,
            opts,
            snap.dependents,
            allowed,
        );
        let (t2, squash) = land::squashed(t1, c, s, index, number, pr, opts, snap.dependents);
        if squash is Ok {
            let start = land::no_repairs(s, index, pr, squash->Ok_0, snap.warnings);
            let (t3, run) = land::repair_from(t2, s, index, number, snap.dependents, 0, start);
            if run is Ok {
                lemma_concluded_only(
                    from,
                    t3,
                    s,
                    index,
                    number,
                    pr,
                    opts,
                    squash->Ok_0,
                    run->Ok_0,
                    allowed,
                );
            }
        }
    }
}

/// Nothing lands that was not shown for review: before a landing changes anything, on the
/// forge or locally, the forge has shown the pull request of the layer as open and no
/// draft, and both the local commit put on the tip of the trunk and the head of the pull
/// request merged into that tip came out clean, with one and the same tree. What is then
/// merged is that pull request at that very head, and nothing else.
pub proof fn law_only_what_was_shown_lands(
    t: TapeView,
    c: ConfigView,
    s: StackView,
    index: usize,
    opts: LandOptionsView,
    k: int,
)
    requires
        t.asked.len() <= k < land::layer_landed(t, c, s, index, opts).0.asked.len(),
        ({
            let q = land::layer_landed(t, c, s, index, opts).0.asked[k];
            tape::touches_forge(q) || tape::touches_local(q)
        }),
    ensures
        ({
            let to = land::layer_landed(t, c, s, index, opts).0;
            exists|trunk: Oid, head: Oid, tree: Oid|
                #[trigger] cleared(c, s, index as int, to, k, trunk, head, tree) && (
                to.asked[k] matches RequestView::MergePullRequest { number, merge } ==> Some(number)
                    == s.layers[index as int].pr && merge.expected_head == head)
        }),
{
    broadcast use {
        tape::lemma_only_ask,
        upgrade::lemma_legacy_rejected_only,
        land::lemma_landing_checked_only,
    };

    let any = |q: RequestView| true;
    let look = |q: RequestView| !tape::touches_forge(q) && !tape::touches_local(q);
    assert(tape::may_look(look));
    let to = land::layer_landed(t, c, s, index, opts).0;
    tape::lemma_only_start(t, look);
    let (t1, r1) = tape::ask_unit(t, RequestView::CheckClean);
    assert(tape::only(t, t1, look));
    let (t2, r2) = upgrade::legacy_rejected(t1, c, s);
    let (t3, pr) = land::landing_checked(t2, c, s, index as int);
    if r1 is Err {
        assert(look(t1.asked[k]));
    } else if r2 is Err {
        assert(tape::only(t, t2, look));
        assert(look(t2.asked[k]));
    } else if pr is Err {
        assert(tape::only(t, t3, look));
        assert(look(t3.asked[k]));
    } else {
        assert(tape::only(t, t3, look));
        let number = s.layers[index as int].pr->0;
        let pr = pr->Ok_0;
        let asks = land::squash_request(s, index, number, pr, opts);
        let allowed = |q: RequestView| q is MergePullRequest ==> q == asks;
        tape::lemma_only_start(t3, allowed);
        lemma_landing_only(t3, t3, c, s, index, number, pr, opts, allowed);
        assert(tape::only(t3, to, allowed));
        assert(tape::only(t3, to, any));
        if k < t3.asked.len() {
            assert(to.asked[k] == t3.asked[k]);
            assert(look(t3.asked[k]));
        }
        let (trunk, tree) = lemma_checked(t2, c, s, index as int, to, k);
        assert(allowed(to.asked[k]));
        assert(cleared(c, s, index as int, to, k, trunk, pr.head_oid, tree));
    }
}

/// Where the local commit and the pull request come to different trees on the trunk, the
/// landing is refused.
pub proof fn law_unseen_changes_are_refused(
    t: TapeView,
    commit: Oid,
    trunk: Oid,
    head: Oid,
    picked: Oid,
    merged: MergeView,
)
    requires
        t.asked.len() + 2 <= t.replies.len(),
        t.replies[t.asked.len() as int] == ReplyView::Merged(MergeView::Clean(picked)),
        t.replies[t.asked.len() as int + 1] == ReplyView::Merged(merged),
    ensures
        land::reviewed(t, commit, trunk, head).1 is Ok <==> merged == MergeView::Clean(picked),
{
}

} // verus!
