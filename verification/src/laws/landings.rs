//! What `land --all` promises.

use vstd::prelude::*;

use crate::config::ConfigView;
use crate::forge;
use crate::forge::{PrState, PrView, SquashView};
use crate::history;
use crate::land;
use crate::land::{
    LandOptionsView, LandingView, LayerPrView, MendView, MergedView, RebasedView, RetargetedView,
};
use crate::laws::landing;
use crate::oid::Oid;
use crate::refs;
use crate::stack;
use crate::stack::{Dep, StackView};
use crate::tape;
use crate::tape::{MergeView, ReplyView, RequestView, TapeView};
use crate::upgrade;

verus! {

/// Before the `k`th request the pull request of layer `j` was merged.
pub open spec fn merged_before(t: TapeView, k: int, s: StackView, j: int) -> bool {
    s.layers[j].pr is Some && exists|merge: SquashView, squash: Oid|
        #[trigger] landing::heard(
            t,
            k,
            RequestView::MergePullRequest { number: s.layers[j].pr->0, merge },
            ReplyView::Object(squash),
        )
}

/// Before the `k`th request the commit of layer `i` put on the trunk came to a tree, and
/// so did what is to be merged: the head merged into the trunk, or the patch of the branch
/// moved to the trunk from what landed below it.
pub open spec fn agreed(
    t: TapeView,
    k: int,
    s: StackView,
    i: int,
    head: Oid,
    trunk: Oid,
    tree: Oid,
) -> bool {
    &&& landing::heard(
        t,
        k,
        RequestView::CherryPick { commit: s.layers[i].commit, onto: trunk, first_parent: false },
        ReplyView::Merged(MergeView::Clean(tree)),
    )
    &&& landing::heard(
        t,
        k,
        RequestView::MergeCommits { ours: trunk, theirs: head },
        ReplyView::Merged(MergeView::Clean(tree)),
    ) || (s.layers[i].dep is Layer && exists|base: Oid, ours: Oid, theirs: Oid|
        #[trigger] landing::heard(
            t,
            k,
            RequestView::MergeTrees { base, ours, theirs },
            ReplyView::Merged(MergeView::Clean(tree)),
        ))
}

/// Layer `i` is fit to be merged at the head: the forge showed its pull request as open
/// and no draft, what it depends on was merged before, and what is merged comes to what
/// its commit comes to.
pub open spec fn fit(
    t: TapeView,
    k: int,
    s: StackView,
    i: int,
    number: u64,
    head: Oid,
) -> bool {
    &&& 0 <= i < s.layers.len()
    &&& s.layers[i].pr == Some(number)
    &&& landing::seen_ready(t, k, number)
    &&& s.layers[i].dep matches Dep::Layer(j) ==> merged_before(t, k, s, j as int)
    &&& exists|trunk: Oid, tree: Oid| #[trigger] agreed(t, k, s, i, head, trunk, tree)
}

/// If the `k`th request merges a pull request, it is that of a layer that is fit for it.
pub open spec fn vetted(t: TapeView, k: int, s: StackView) -> bool {
    t.asked[k] matches RequestView::MergePullRequest { number, merge } ==> exists|i: int|
        #[trigger] fit(t, k, s, i, number, merge.expected_head)
}

proof fn lemma_heard_later(
    from: TapeView,
    to: TapeView,
    k: int,
    m: int,
    q: RequestView,
    r: ReplyView,
)
    requires
        landing::heard(from, k, q, r),
        tape::only(from, to, |q: RequestView| true),
        k <= m,
    ensures
        landing::heard(to, m, q, r),
{
    let x = choose|x: int|
        0 <= x < k && x < from.asked.len() && x < from.replies.len() && #[trigger] from.asked[x]
            == q && from.replies[x] == r;
    assert(to.asked[x] == q);
}

proof fn lemma_told_heard(t: TapeView, q: RequestView, r: ReplyView)
    requires
        tape::told(t, q, r),
    ensures
        landing::heard(t, t.asked.len() as int, q, r),
{
    let x = choose|x: int|
        0 <= x < t.asked.len() && x < t.replies.len() && #[trigger] t.asked[x] == q && t.replies[x]
            == r;
    assert(t.asked[x] == q);
}

proof fn lemma_fit_later(
    from: TapeView,
    to: TapeView,
    k: int,
    m: int,
    s: StackView,
    i: int,
    number: u64,
    head: Oid,
)
    requires
        fit(from, k, s, i, number, head),
        tape::only(from, to, |q: RequestView| true),
        k <= m,
    ensures
        fit(to, m, s, i, number, head),
{
    let pr = choose|pr: PrView|
        pr.state == PrState::Open && !pr.draft && #[trigger] landing::heard(
            from,
            k,
            RequestView::GetPullRequest { number },
            ReplyView::Pr(pr),
        );
    lemma_heard_later(
        from,
        to,
        k,
        m,
        RequestView::GetPullRequest { number },
        ReplyView::Pr(pr),
    );
    assert(landing::seen_ready(to, m, number));
    match s.layers[i].dep {
        Dep::Layer(j) => {
            let below = s.layers[j as int].pr->0;
            let (merge, squash) = choose|merge: SquashView, squash: Oid|
                #[trigger] landing::heard(
                    from,
                    k,
                    RequestView::MergePullRequest { number: below, merge },
                    ReplyView::Object(squash),
                );
            lemma_heard_later(
                from,
                to,
                k,
                m,
                RequestView::MergePullRequest { number: below, merge },
                ReplyView::Object(squash),
            );
            assert(merged_before(to, m, s, j as int));
        },
        _ => {},
    }
    let (trunk, tree) = choose|trunk: Oid, tree: Oid| #[trigger]
        agreed(from, k, s, i, head, trunk, tree);
    let clean = ReplyView::Merged(MergeView::Clean(tree));
    lemma_heard_later(
        from,
        to,
        k,
        m,
        RequestView::CherryPick { commit: s.layers[i].commit, onto: trunk, first_parent: false },
        clean,
    );
    let whole = RequestView::MergeCommits { ours: trunk, theirs: head };
    if landing::heard(from, k, whole, clean) {
        lemma_heard_later(from, to, k, m, whole, clean);
    } else {
        let (base, ours, theirs) = choose|base: Oid, ours: Oid, theirs: Oid|
            #[trigger] landing::heard(
                from,
                k,
                RequestView::MergeTrees { base, ours, theirs },
                clean,
            );
        lemma_heard_later(
            from,
            to,
            k,
            m,
            RequestView::MergeTrees { base, ours, theirs },
            clean,
        );
    }
    assert(agreed(to, m, s, i, head, trunk, tree));
}

/// Since `from` only layers that are fit for it were merged.
spec fn all_vetted(from: TapeView, t: TapeView, s: StackView) -> bool {
    &&& tape::only(from, t, |q: RequestView| true)
    &&& forall|k: int| from.asked.len() <= k < t.asked.len() ==> #[trigger] vetted(t, k, s)
}

proof fn lemma_vetted_on(from: TapeView, t: TapeView, to: TapeView, s: StackView)
    requires
        all_vetted(from, t, s),
        tape::only(t, to, |q: RequestView| !(q is MergePullRequest)),
    ensures
        all_vetted(from, to, s),
{
    let any = |q: RequestView| true;
    let quiet = |q: RequestView| !(q is MergePullRequest);
    assert(tape::only(t, to, any));
    tape::lemma_only_trans(from, t, to, any);
    assert forall|k: int| from.asked.len() <= k < to.asked.len() implies #[trigger] vetted(
        to,
        k,
        s,
    ) by {
        if k < t.asked.len() {
            assert(to.asked[k] == t.asked[k]);
            assert(vetted(t, k, s));
            if let RequestView::MergePullRequest { number, merge } = t.asked[k] {
                let i = choose|i: int| #[trigger] fit(t, k, s, i, number, merge.expected_head);
                lemma_fit_later(t, to, k, k, s, i, number, merge.expected_head);
            }
        } else {
            assert(quiet(to.asked[k]));
        }
    }
}

proof fn lemma_vetted_merge(
    from: TapeView,
    t: TapeView,
    s: StackView,
    i: int,
    number: u64,
    merge: SquashView,
)
    requires
        all_vetted(from, t, s),
        fit(t, t.asked.len() as int, s, i, number, merge.expected_head),
    ensures
        all_vetted(
            from,
            tape::ask(t, RequestView::MergePullRequest { number, merge }).0,
            s,
        ),
{
    broadcast use tape::lemma_only_ask;

    let any = |q: RequestView| true;
    let q = RequestView::MergePullRequest { number, merge };
    let to = tape::ask(t, q).0;
    tape::lemma_only_start(t, any);
    assert(tape::only(t, to, any));
    tape::lemma_only_trans(from, t, to, any);
    assert forall|k: int| from.asked.len() <= k < to.asked.len() implies #[trigger] vetted(
        to,
        k,
        s,
    ) by {
        if k < t.asked.len() {
            assert(to.asked[k] == t.asked[k]);
            assert(vetted(t, k, s));
            if let RequestView::MergePullRequest { number: other, merge: what } = t.asked[k] {
                let j = choose|j: int| #[trigger] fit(t, k, s, j, other, what.expected_head);
                lemma_fit_later(t, to, k, k, s, j, other, what.expected_head);
                assert(fit(to, k, s, j, other, what.expected_head));
            }
            assert(vetted(to, k, s));
        } else {
            assert(k == t.asked.len());
            assert(to.asked[k] == q);
            lemma_fit_later(t, to, k, k, s, i, number, merge.expected_head);
            let asked = to.asked[k];
            assert(asked->MergePullRequest_number == number);
            assert(asked->MergePullRequest_merge == merge);
            assert(fit(
                to,
                k,
                s,
                i,
                asked->MergePullRequest_number,
                asked->MergePullRequest_merge.expected_head,
            ));
        }
    }
}

/// What is known of the pull request of layer `i` is what the forge showed.
spec fn true_of(t: TapeView, s: StackView, i: int, known: Option<LayerPrView>) -> bool {
    known matches Some(pr) ==> s.layers[i].pr == Some(pr.number) && (pr.state == PrState::Open
        && !pr.draft ==> landing::seen_ready(t, t.asked.len() as int, pr.number))
}

spec fn all_true(t: TapeView, s: StackView, prs: Seq<Option<LayerPrView>>) -> bool {
    &&& prs.len() == s.layers.len()
    &&& forall|i: int| 0 <= i < prs.len() ==> true_of(t, s, i, #[trigger] prs[i])
}

proof fn lemma_ready_later(from: TapeView, to: TapeView, k: int, m: int, number: u64)
    requires
        landing::seen_ready(from, k, number),
        tape::only(from, to, |q: RequestView| true),
        k <= m,
    ensures
        landing::seen_ready(to, m, number),
{
    let pr = choose|pr: PrView|
        pr.state == PrState::Open && !pr.draft && #[trigger] landing::heard(
            from,
            k,
            RequestView::GetPullRequest { number },
            ReplyView::Pr(pr),
        );
    lemma_heard_later(
        from,
        to,
        k,
        m,
        RequestView::GetPullRequest { number },
        ReplyView::Pr(pr),
    );
}

proof fn lemma_true_later(from: TapeView, to: TapeView, s: StackView, prs: Seq<Option<LayerPrView>>)
    requires
        all_true(from, s, prs),
        tape::only(from, to, |q: RequestView| true),
    ensures
        all_true(to, s, prs),
{
    assert forall|i: int| 0 <= i < prs.len() implies true_of(to, s, i, #[trigger] prs[i]) by {
        assert(true_of(from, s, i, prs[i]));
        if prs[i] is Some {
            let pr = prs[i]->0;
            if pr.state == PrState::Open && !pr.draft {
                lemma_ready_later(
                    from,
                    to,
                    from.asked.len() as int,
                    to.asked.len() as int,
                    pr.number,
                );
            }
        }
    }
}

/// A change that leaves open what the forge showed.
spec fn harmless(was: LayerPrView, now: LayerPrView) -> bool {
    now.number == was.number && now.draft == was.draft && (now.state == PrState::Open ==> was.state
        == PrState::Open)
}

proof fn lemma_true_update(
    t: TapeView,
    s: StackView,
    prs: Seq<Option<LayerPrView>>,
    i: int,
    now: LayerPrView,
)
    requires
        all_true(t, s, prs),
        0 <= i < prs.len(),
        prs[i] is Some,
        harmless(prs[i]->0, now),
    ensures
        all_true(t, s, prs.update(i, Some(now))),
{
    let more = prs.update(i, Some(now));
    assert(true_of(t, s, i, prs[i]));
    assert forall|j: int| 0 <= j < more.len() implies true_of(t, s, j, #[trigger] more[j]) by {
        assert(true_of(t, s, j, prs[j]));
    }
}

proof fn lemma_onto(
    t: TapeView,
    c: ConfigView,
    s: StackView,
    layers: Seq<usize>,
    k: int,
    b: RebasedView,
)
    requires
        0 <= k <= layers.len(),
        all_true(t, s, b.prs),
        forall|x: int| 0 <= x < layers.len() ==> (#[trigger] layers[x]) < s.layers.len(),
        forall|x: int| 0 <= x < b.moved.len() ==> (#[trigger] b.moved[x]).layer < s.layers.len(),
    ensures
        ({
            let (to, r) = land::onto_trunk_from(t, c, layers, k, b);
            &&& tape::only(t, to, |q: RequestView| !(q is MergePullRequest))
            &&& r matches Ok(all) ==> all_true(to, s, all.prs) && forall|x: int|
                0 <= x < all.moved.len() ==> (#[trigger] all.moved[x]).layer < s.layers.len()
        }),
    decreases layers.len() - k,
{
    broadcast use tape::lemma_only_ask;

    let quiet = |q: RequestView| !(q is MergePullRequest);
    tape::lemma_only_start(t, quiet);
    if k < layers.len() {
        let i = layers[k];
        match b.prs[i as int] {
            Some(pr) => if pr.state == PrState::Open && pr.base != c.trunk {
                let (t1, r) = tape::ask_unit(
                    t,
                    RequestView::UpdatePullRequest {
                        number: pr.number,
                        update: forge::base_update(c.trunk),
                    },
                );
                assert(tape::only(t, t1, quiet));
                if r is Ok {
                    let now = LayerPrView { base: c.trunk, ..pr };
                    let more = RebasedView {
                        prs: b.prs.update(i as int, Some(now)),
                        moved: b.moved.push(
                            RetargetedView { layer: i, number: pr.number, base: pr.base },
                        ),
                    };
                    assert(tape::only(t, t1, |q: RequestView| true));
                    lemma_true_update(t, s, b.prs, i as int, now);
                    lemma_true_later(t, t1, s, more.prs);
                    lemma_onto(t1, c, s, layers, k + 1, more);
                    tape::lemma_only_trans(
                        t,
                        t1,
                        land::onto_trunk_from(t, c, layers, k, b).0,
                        quiet,
                    );
                }
            } else {
                lemma_onto(t, c, s, layers, k + 1, b);
            },
            None => lemma_onto(t, c, s, layers, k + 1, b),
        }
    }
}

proof fn lemma_restored(
    t: TapeView,
    s: StackView,
    prs: Seq<Option<LayerPrView>>,
    moved: Seq<RetargetedView>,
    k: int,
)
    requires
        0 <= k <= moved.len(),
        all_true(t, s, prs),
        forall|x: int| 0 <= x < moved.len() ==> (#[trigger] moved[x]).layer < s.layers.len(),
    ensures
        all_true(t, s, land::restored(prs, moved, k)),
    decreases moved.len() - k,
{
    if k < moved.len() {
        let i = moved[k].layer as int;
        match prs[i] {
            Some(pr) => {
                let now = LayerPrView { base: moved[k].base, ..pr };
                lemma_true_update(t, s, prs, i, now);
                lemma_restored(t, s, prs.update(i, Some(now)), moved, k + 1);
            },
            None => lemma_restored(t, s, prs, moved, k + 1),
        }
    }
}

proof fn lemma_mended(
    t: TapeView,
    c: ConfigView,
    s: StackView,
    landed: Seq<bool>,
    trunk: Oid,
    d: int,
    m: MendView,
)
    requires
        0 <= d < s.layers.len(),
        all_true(t, s, m.prs),
    ensures
        ({
            let (to, r) = land::mended(t, c, s, landed, trunk, d, m);
            &&& tape::only(t, to, |q: RequestView| !(q is MergePullRequest))
            &&& r matches Ok(all) ==> all_true(to, s, all.prs)
        }),
{
    broadcast use {tape::lemma_only_ask, land::lemma_carried_only};

    let quiet = |q: RequestView| !(q is MergePullRequest);
    assert(tape::may_look(quiet));
    tape::lemma_only_start(t, quiet);
    let (to, r) = land::mended(t, c, s, landed, trunk, d, m);
    assert(tape::only(t, to, quiet));
    assert(tape::only(t, to, |q: RequestView| true));
    if r is Ok {
        let all = (r->Ok_0).prs;
        if all != m.prs {
            let pr = m.prs[d]->0;
            assert(all == m.prs.update(d, all[d]));
            lemma_true_update(t, s, m.prs, d, all[d]->0);
        }
        lemma_true_later(t, to, s, all);
    }
}

proof fn lemma_mend_from(
    t: TapeView,
    c: ConfigView,
    s: StackView,
    landed: Seq<bool>,
    trunk: Oid,
    d: int,
    m: MendView,
)
    requires
        0 <= d <= s.layers.len(),
        all_true(t, s, m.prs),
    ensures
        ({
            let (to, r) = land::mend_from(t, c, s, landed, trunk, d, m);
            &&& tape::only(t, to, |q: RequestView| !(q is MergePullRequest))
            &&& r matches Ok(all) ==> all_true(to, s, all.prs)
        }),
    decreases s.layers.len() - d,
{
    let quiet = |q: RequestView| !(q is MergePullRequest);
    tape::lemma_only_start(t, quiet);
    if d < s.layers.len() {
        lemma_mended(t, c, s, landed, trunk, d, m);
        let (t1, more) = land::mended(t, c, s, landed, trunk, d, m);
        if more is Ok {
            lemma_mend_from(t1, c, s, landed, trunk, d + 1, more->Ok_0);
            tape::lemma_only_trans(
                t,
                t1,
                land::mend_from(t, c, s, landed, trunk, d, m).0,
                quiet,
            );
        }
    }
}

proof fn lemma_forget_only(
    from: TapeView,
    t: TapeView,
    deletes: Seq<(u64, Seq<char>)>,
    k: int,
    allowed: spec_fn(RequestView) -> bool,
)
    requires
        tape::only(from, t, allowed),
        tape::may_write(allowed),
    ensures
        tape::only(from, land::forget_from(t, deletes, k).0, allowed),
    decreases deletes.len() - k,
{
    broadcast use tape::lemma_only_ask;

    if 0 <= k < deletes.len() {
        let (t1, r) = refs::removed(t, deletes[k].0);
        assert(tape::only(from, t1, allowed));
        if r is Ok {
            lemma_forget_only(from, t1, deletes, k + 1, allowed);
        }
    }
}

/// What is known while the layers land is so.
spec fn sound(t: TapeView, s: StackView, st: LandingView) -> bool {
    &&& all_true(t, s, st.prs)
    &&& st.landed.len() == s.layers.len()
    &&& forall|j: int|
        0 <= j < s.layers.len() && #[trigger] st.landed[j] ==> merged_before(
            t,
            t.asked.len() as int,
            s,
            j,
        )
}

proof fn lemma_merged_later(from: TapeView, to: TapeView, k: int, m: int, s: StackView, j: int)
    requires
        merged_before(from, k, s, j),
        tape::only(from, to, |q: RequestView| true),
        k <= m,
    ensures
        merged_before(to, m, s, j),
{
    let number = s.layers[j].pr->0;
    let (merge, squash) = choose|merge: SquashView, squash: Oid|
        #[trigger] landing::heard(
            from,
            k,
            RequestView::MergePullRequest { number, merge },
            ReplyView::Object(squash),
        );
    lemma_heard_later(
        from,
        to,
        k,
        m,
        RequestView::MergePullRequest { number, merge },
        ReplyView::Object(squash),
    );
}

proof fn lemma_sound_later(
    from: TapeView,
    to: TapeView,
    s: StackView,
    st: LandingView,
    now: LandingView,
)
    requires
        sound(from, s, st),
        tape::only(from, to, |q: RequestView| true),
        all_true(to, s, now.prs),
        now.landed == st.landed,
    ensures
        sound(to, s, now),
{
    assert forall|j: int| 0 <= j < s.layers.len() && #[trigger] now.landed[j] implies merged_before(
        to,
        to.asked.len() as int,
        s,
        j,
    ) by {
        assert(st.landed[j]);
        lemma_merged_later(from, to, from.asked.len() as int, to.asked.len() as int, s, j);
    }
}

proof fn lemma_remaining(t: TapeView, c: ConfigView, s: StackView, st: LandingView)
    requires
        sound(t, s, st),
    ensures
        ({
            let (to, r) = land::remaining_repaired(t, c, s, st);
            &&& tape::only(t, to, |q: RequestView| !(q is MergePullRequest))
            &&& r matches Ok(now) ==> sound(to, s, now)
        }),
{
    broadcast use tape::lemma_only_ask;

    let quiet = |q: RequestView| !(q is MergePullRequest);
    assert(tape::may_write(quiet));
    let start = MendView {
        prs: st.prs,
        specs: Seq::empty(),
        recorded: Seq::empty(),
        repaired: Seq::empty(),
        warnings: st.outcomes.last().warnings,
    };
    lemma_mend_from(t, c, s, st.landed, st.trunk, 0, start);
    let (t1, m) = land::mend_from(t, c, s, st.landed, st.trunk, 0, start);
    let (to, r) = land::remaining_repaired(t, c, s, st);
    if m is Ok {
        let m = m->Ok_0;
        let (t2, r2) = tape::push_any(t1, land::with_deletes(m.specs, st.deletes, 0));
        assert(tape::only(t, t2, quiet));
        landing::lemma_record_from_only(t, t2, m.recorded, 0, quiet);
        let (t3, r3) = land::record_from(t2, m.recorded, 0);
        lemma_forget_only(t, t3, st.deletes, 0, quiet);
        assert(tape::only(t, to, quiet));
        if r is Ok {
            tape::lemma_only_start(t1, quiet);
            let (t2, r2) = tape::push_any(t1, land::with_deletes(m.specs, st.deletes, 0));
            assert(tape::only(t1, t2, quiet));
            landing::lemma_record_from_only(t1, t2, m.recorded, 0, quiet);
            lemma_forget_only(t1, t3, st.deletes, 0, quiet);
            assert(tape::only(t1, to, |q: RequestView| true));
            assert(tape::only(t, to, |q: RequestView| true));
            lemma_true_later(t1, to, s, m.prs);
            lemma_sound_later(t, to, s, st, r->Ok_0);
        }
    }
}

proof fn lemma_direct_in(s: StackView, i: usize, n: int)
    requires
        0 <= n <= s.layers.len() <= usize::MAX,
    ensures
        forall|k: int|
            0 <= k < stack::direct_below(s, i, n).len() ==> (#[trigger] stack::direct_below(
                s,
                i,
                n,
            )[k]) < n,
    decreases n,
{
    if n > 0 {
        lemma_direct_in(s, i, n - 1);
        let before = stack::direct_below(s, i, n - 1);
        let all = stack::direct_below(s, i, n);
        assert forall|k: int| 0 <= k < all.len() implies (#[trigger] all[k]) < n by {
            if k < before.len() {
                assert(all[k] == before[k]);
            }
        }
    }
}

#[verifier::rlimit(40)]
proof fn lemma_land_one(
    from: TapeView,
    t: TapeView,
    c: ConfigView,
    s: StackView,
    opts: LandOptionsView,
    i: int,
    st: LandingView,
)
    requires
        s.layers.len() <= usize::MAX,
        0 <= i < s.layers.len(),
        all_vetted(from, t, s),
        sound(t, s, st),
        st.prs[i] matches Some(pr) ==> fit(t, t.asked.len() as int, s, i, pr.number, pr.tip),
    ensures
        ({
            let (to, r) = land::land_one(t, c, s, opts, i, st);
            &&& all_vetted(from, to, s)
            &&& r matches Ok(now) ==> sound(to, s, now)
        }),
{
    broadcast use {tape::lemma_only_ask, land::lemma_rolled_back_only};

    let any = |q: RequestView| true;
    let quiet = |q: RequestView| !(q is MergePullRequest);
    assert(tape::may_do_all_but_push_and_merge(quiet));
    if st.prs[i] is Some {
        let pr = st.prs[i]->0;
        let m = s.layers[i].message;
        let layers = seq![i as usize] + stack::direct_dependents(s, i as usize);
        let b0 = RebasedView { prs: st.prs, moved: Seq::empty() };
        lemma_direct_in(s, i as usize, s.layers.len() as int);
        assert forall|x: int| 0 <= x < layers.len() implies (#[trigger] layers[x])
            < s.layers.len() by {
            if x > 0 {
                assert(layers[x] == stack::direct_dependents(s, i as usize)[x - 1]);
            }
        }
        lemma_onto(t, c, s, layers, 0, b0);
        let (t1, b) = land::onto_trunk_from(t, c, layers, 0, b0);
        lemma_vetted_on(from, t, t1, s);
        if b is Ok {
            let b = b->Ok_0;
            assert(tape::only(t, t1, any));
            lemma_fit_later(
                t,
                t1,
                t.asked.len() as int,
                t1.asked.len() as int,
                s,
                i,
                pr.number,
                pr.tip,
            );
            let merge = SquashView {
                title: land::squash_title(m.subject, pr.number),
                message: land::squash_body(m, opts.message),
                expected_head: pr.tip,
            };
            let q = RequestView::MergePullRequest { number: pr.number, merge };
            let (t2, merged) = land::merge_asked(t1, pr.number, merge);
            assert(t2 == tape::ask(t1, q).0);
            lemma_vetted_merge(from, t1, s, i, pr.number, merge);
            tape::lemma_only_start(t1, any);
            assert(tape::only(t1, t2, any));
            tape::lemma_only_trans(t, t1, t2, any);
            lemma_true_later(t1, t2, s, b.prs);
            if merged is Ok {
                tape::lemma_only_start(t2, quiet);
                match merged->Ok_0 {
                    MergedView::Failed(reason) => {
                        let (t3, r3) = land::rolled_back(t2, b.moved, 0);
                        assert(tape::only(t2, t3, quiet));
                        lemma_vetted_on(from, t2, t3, s);
                        assert(tape::only(t2, t3, any));
                        tape::lemma_only_trans(t, t2, t3, any);
                        lemma_true_later(t2, t3, s, b.prs);
                        lemma_restored(t3, s, b.prs, b.moved, 0);
                        let back = LandingView { prs: land::restored(b.prs, b.moved, 0), ..st };
                        lemma_sound_later(t, t3, s, st, back);
                    },
                    MergedView::Squash(squash) => {
                        tape::lemma_told(t1, q);
                        assert(tape::told(t2, q, ReplyView::Object(squash)));
                        let (t3, r3) = tape::ask_unit(
                            t2,
                            RequestView::FetchCommit { commit: squash },
                        );
                        assert(tape::only(t2, t3, quiet));
                        lemma_vetted_on(from, t2, t3, s);
                        assert(tape::only(t2, t3, any));
                        tape::lemma_only_trans(t, t2, t3, any);
                        lemma_true_later(t2, t3, s, b.prs);
                        let now = land::with_landed(
                            st,
                            b.prs,
                            i,
                            pr,
                            land::squash_title(m.subject, pr.number),
                            squash,
                        );
                        if b.prs[i] is Some {
                            lemma_true_update(
                                t3,
                                s,
                                b.prs,
                                i,
                                LayerPrView { state: PrState::Merged, ..b.prs[i]->0 },
                            );
                        }
                        lemma_told_heard(t2, q, ReplyView::Object(squash));
                        lemma_heard_later(
                            t2,
                            t3,
                            t2.asked.len() as int,
                            t3.asked.len() as int,
                            q,
                            ReplyView::Object(squash),
                        );
                        let own = RequestView::MergePullRequest {
                            number: s.layers[i].pr->0,
                            merge,
                        };
                        assert(own == q);
                        assert(landing::heard(
                            t3,
                            t3.asked.len() as int,
                            own,
                            ReplyView::Object(squash),
                        ));
                        assert(merged_before(t3, t3.asked.len() as int, s, i));
                        assert forall|j: int|
                            0 <= j < s.layers.len() && #[trigger] now.landed[j] implies merged_before(
                            t3,
                            t3.asked.len() as int,
                            s,
                            j,
                        ) by {
                            if j != i {
                                assert(st.landed[j]);
                                lemma_merged_later(
                                    t,
                                    t3,
                                    t.asked.len() as int,
                                    t3.asked.len() as int,
                                    s,
                                    j,
                                );
                            }
                        }
                    },
                }
            }
        }
    }
}

#[verifier::rlimit(40)]
proof fn lemma_land_next(
    from: TapeView,
    t: TapeView,
    c: ConfigView,
    s: StackView,
    opts: LandOptionsView,
    i: int,
    st: LandingView,
)
    requires
        stack::well_formed(s),
        s.layers.len() <= usize::MAX,
        0 <= i < s.layers.len(),
        all_vetted(from, t, s),
        sound(t, s, st),
    ensures
        ({
            let (to, r) = land::land_next(t, c, s, opts, i, st);
            &&& all_vetted(from, to, s)
            &&& r matches Ok(now) ==> sound(to, s, now)
        }),
{
    broadcast use {tape::lemma_only_ask, land::lemma_synced_pr_only};

    let any = |q: RequestView| true;
    let quiet = |q: RequestView| !(q is MergePullRequest);
    assert(tape::may_look(quiet));
    if land::dep_landed(s, st.landed, i) && st.prs[i] is Some {
        let pr = st.prs[i]->0;
        if land::not_landable(pr.number, pr.state, pr.draft) is None {
            assert(true_of(t, s, i, st.prs[i]));
            let trunk = st.trunk;
            let q1 = RequestView::CherryPick {
                commit: s.layers[i].commit,
                onto: trunk,
                first_parent: false,
            };
            let (t1, picked) = tape::ask_merge(t, q1);
            tape::lemma_only_start(t, quiet);
            assert(tape::only(t, t1, quiet));
            lemma_vetted_on(from, t, t1, s);
            assert(tape::only(t, t1, any));
            lemma_true_later(t, t1, s, st.prs);
            lemma_sound_later(t, t1, s, st, st);
            if picked is Ok && picked->Ok_0 is Clean {
                let tree = (picked->Ok_0)->Clean_0;
                let clean = ReplyView::Merged(MergeView::Clean(tree));
                tape::lemma_told(t, q1);
                assert(tape::told(t1, q1, clean));
                lemma_told_heard(t1, q1, clean);
                let q2 = RequestView::MergeCommits { ours: trunk, theirs: pr.tip };
                let (t2, merged) = tape::ask_merge(t1, q2);
                tape::lemma_only_start(t1, quiet);
                assert(tape::only(t1, t2, quiet));
                lemma_vetted_on(from, t1, t2, s);
                assert(tape::only(t1, t2, any));
                tape::lemma_only_trans(t, t1, t2, any);
                lemma_true_later(t, t2, s, st.prs);
                lemma_sound_later(t, t2, s, st, st);
                if merged is Ok {
                    let n = t2.asked.len() as int;
                    if merged->Ok_0 == MergeView::Clean(tree) {
                        tape::lemma_told(t1, q2);
                        assert(tape::told(t2, q2, clean));
                        lemma_told_heard(t2, q2, clean);
                        lemma_heard_later(t1, t2, t1.asked.len() as int, n, q1, clean);
                        assert(agreed(t2, n, s, i, pr.tip, trunk, tree));
                        assert(true_of(t2, s, i, st.prs[i]));
                        assert(fit(t2, n, s, i, pr.number, pr.tip));
                        lemma_land_one(from, t2, c, s, opts, i, st);
                    } else {
                        let (t3, ok) = land::reanchors(t2, s, i, pr, trunk, tree);
                        tape::lemma_only_start(t2, quiet);
                        assert(tape::only(t2, t3, quiet));
                        lemma_vetted_on(from, t2, t3, s);
                        assert(tape::only(t2, t3, any));
                        tape::lemma_only_trans(t, t2, t3, any);
                        tape::lemma_only_trans(t1, t2, t3, any);
                        lemma_true_later(t, t3, s, st.prs);
                        lemma_sound_later(t, t3, s, st, st);
                        if ok is Ok && ok->Ok_0 {
                            lemma_reanchored(t2, s, i, pr, trunk, tree);
                            lemma_heard_later(
                                t1,
                                t3,
                                t1.asked.len() as int,
                                t3.asked.len() as int,
                                q1,
                                clean,
                            );
                            lemma_remaining(t3, c, s, st);
                            let (t4, now) = land::remaining_repaired(t3, c, s, st);
                            lemma_vetted_on(from, t3, t4, s);
                            if now is Ok {
                                let now = now->Ok_0;
                                let (t5, again) = land::synced_pr(t4, pr.number, true);
                                tape::lemma_only_start(t4, quiet);
                                assert(tape::only(t4, t5, quiet));
                                lemma_vetted_on(from, t4, t5, s);
                                assert(tape::only(t3, t4, any));
                                assert(tape::only(t4, t5, any));
                                tape::lemma_only_trans(t3, t4, t5, any);
                                lemma_true_later(t4, t5, s, now.prs);
                                lemma_sound_later(t4, t5, s, now, now);
                                if again is Ok {
                                    let head = (again->Ok_0).head_oid;
                                    let last = land::with_tip(now, i, head);
                                    if now.prs[i] is Some {
                                        lemma_true_update(
                                            t5,
                                            s,
                                            now.prs,
                                            i,
                                            LayerPrView { tip: head, ..now.prs[i]->0 },
                                        );
                                        assert(true_of(t5, s, i, now.prs[i]));
                                    }
                                    lemma_sound_later(t5, t5, s, now, last);
                                    let n5 = t5.asked.len() as int;
                                    assert(agreed(
                                        t3,
                                        t3.asked.len() as int,
                                        s,
                                        i,
                                        head,
                                        trunk,
                                        tree,
                                    ));
                                    assert(fit(
                                        t3,
                                        t3.asked.len() as int,
                                        s,
                                        i,
                                        pr.number,
                                        head,
                                    ));
                                    lemma_fit_later(
                                        t3,
                                        t5,
                                        t3.asked.len() as int,
                                        n5,
                                        s,
                                        i,
                                        pr.number,
                                        head,
                                    );
                                    lemma_land_one(from, t5, c, s, opts, i, last);
                                }
                            }
                        }
                    }
                }
            }
        }
    }
}

/// A branch that may be moved was found to come to the tree.
proof fn lemma_reanchored(t: TapeView, s: StackView, i: int, pr: LayerPrView, trunk: Oid, tree: Oid)
    requires
        land::reanchors(t, s, i, pr, trunk, tree).1 == Ok::<bool, tape::HaltView>(true),
    ensures
        s.layers[i].dep is Layer,
        ({
            let to = land::reanchors(t, s, i, pr, trunk, tree).0;
            exists|base: Oid, ours: Oid, theirs: Oid|
                #[trigger] landing::heard(
                    to,
                    to.asked.len() as int,
                    RequestView::MergeTrees { base, ours, theirs },
                    ReplyView::Merged(MergeView::Clean(tree)),
                )
        }),
{
    let (t1, old_base) = tape::ask_object(
        t,
        RequestView::MergeBase { a: pr.anchor_tip->0, b: pr.tip },
    );
    let (t2, base) = tape::ask_object(t1, RequestView::TreeOf { commit: old_base->Ok_0 });
    let (t3, ours) = tape::ask_object(t2, RequestView::TreeOf { commit: trunk });
    let (t4, theirs) = tape::ask_object(t3, RequestView::TreeOf { commit: pr.tip });
    let q = RequestView::MergeTrees {
        base: base->Ok_0,
        ours: ours->Ok_0,
        theirs: theirs->Ok_0,
    };
    let (t5, merge) = tape::ask_merge(t4, q);
    tape::lemma_told(t4, q);
    assert(land::reanchors(t, s, i, pr, trunk, tree).0 == t5);
    assert(tape::told(t5, q, ReplyView::Merged(MergeView::Clean(tree))));
    lemma_told_heard(t5, q, ReplyView::Merged(MergeView::Clean(tree)));
}

proof fn lemma_land_from(
    from: TapeView,
    t: TapeView,
    c: ConfigView,
    s: StackView,
    opts: LandOptionsView,
    i: int,
    st: LandingView,
)
    requires
        stack::well_formed(s),
        s.layers.len() <= usize::MAX,
        0 <= i <= s.layers.len(),
        all_vetted(from, t, s),
        sound(t, s, st),
    ensures
        ({
            let (to, r) = land::land_from(t, c, s, opts, i, st);
            &&& all_vetted(from, to, s)
            &&& r matches Ok(now) ==> sound(to, s, now)
        }),
    decreases s.layers.len() - i,
{
    if i < s.layers.len() {
        lemma_land_next(from, t, c, s, opts, i, st);
        let (t1, now) = land::land_next(t, c, s, opts, i, st);
        if now is Ok {
            lemma_land_from(from, t1, c, s, opts, i + 1, now->Ok_0);
        }
    }
}

proof fn lemma_survey(
    t: TapeView,
    c: ConfigView,
    s: StackView,
    i: int,
    prs: Seq<Option<LayerPrView>>,
)
    requires
        0 <= i <= s.layers.len(),
        prs.len() == i,
        forall|j: int| 0 <= j < i ==> true_of(t, s, j, #[trigger] prs[j]),
    ensures
        ({
            let (to, r) = land::survey_from(t, c, s, i, prs);
            &&& tape::only(t, to, |q: RequestView| !(q is MergePullRequest))
            &&& r matches Ok(all) ==> all_true(to, s, all)
        }),
    decreases s.layers.len() - i,
{
    let any = |q: RequestView| true;
    let quiet = |q: RequestView| !(q is MergePullRequest);
    assert(tape::may_look(quiet));
    tape::lemma_only_start(t, quiet);
    if i < s.layers.len() {
        match s.layers[i].pr {
            Some(number) => {
                let (t1, pr) = land::synced_pr(t, number, i == 0);
                land::lemma_synced_pr_only(t, t, number, i == 0, quiet);
                landing::lemma_synced_pr_ready(t, number, i == 0);
                if pr is Ok {
                    let known = land::layer_pr(c, number, pr->Ok_0, land::dep_tip(s, prs, i));
                    let more = prs.push(Some(known));
                    assert(tape::only(t, t1, any));
                    assert forall|j: int| 0 <= j < i + 1 implies true_of(
                        t1,
                        s,
                        j,
                        #[trigger] more[j],
                    ) by {
                        if j < i {
                            assert(more[j] == prs[j]);
                            assert(true_of(t, s, j, prs[j]));
                            if prs[j] is Some {
                                let p = prs[j]->0;
                                if p.state == PrState::Open && !p.draft {
                                    lemma_ready_later(
                                        t,
                                        t1,
                                        t.asked.len() as int,
                                        t1.asked.len() as int,
                                        p.number,
                                    );
                                }
                            }
                        }
                    }
                    lemma_survey(t1, c, s, i + 1, more);
                    tape::lemma_only_trans(
                        t,
                        t1,
                        land::survey_from(t, c, s, i, prs).0,
                        quiet,
                    );
                }
            },
            None => {
                let more = prs.push(None);
                assert forall|j: int| 0 <= j < i + 1 implies true_of(
                    t,
                    s,
                    j,
                    #[trigger] more[j],
                ) by {
                    if j < i {
                        assert(more[j] == prs[j]);
                    }
                }
                lemma_survey(t, c, s, i + 1, more);
            },
        }
    }
}

/// However many layers land, each is fit for it when its pull request is merged: the forge
/// has shown it as open and no draft, what it depends on was merged before, and the local
/// commit put on the trunk comes to the same tree as what is merged. Nothing else is
/// merged.
pub proof fn law_all_that_lands_was_shown(
    t: TapeView,
    c: ConfigView,
    s: StackView,
    opts: LandOptionsView,
    k: int,
)
    requires
        stack::well_formed(s),
        s.layers.len() <= usize::MAX,
        t.asked.len() <= k < land::all_landed(t, c, s, opts).0.asked.len(),
    ensures
        vetted(land::all_landed(t, c, s, opts).0, k, s),
{
    broadcast use {
        tape::lemma_only_ask,
        upgrade::lemma_legacy_rejected_only,
        land::lemma_trunk_tip_only,
        history::lemma_commits_rebased_only,
    };

    let quiet = |q: RequestView| !(q is MergePullRequest);
    let any = |q: RequestView| true;
    assert(tape::may_look(quiet) && tape::may_write(quiet));
    let to = land::all_landed(t, c, s, opts).0;
    tape::lemma_only_start(t, quiet);
    tape::lemma_only_start(t, any);
    assert(all_vetted(t, t, s));
    let (t1, r1) = tape::ask_unit(t, RequestView::CheckClean);
    let (t2, r2) = upgrade::legacy_rejected(t1, c, s);
    assert(tape::only(t, t1, quiet));
    assert(tape::only(t, t2, quiet));
    lemma_vetted_on(t, t, t1, s);
    lemma_vetted_on(t, t, t2, s);
    if r1 is Ok && r2 is Ok && s.layers.len() > 0 {
        if land::landable_from(s, 0) is None {
            let one = land::layer_landed(t2, c, s, 0, opts).0;
            assert(to == one);
            lemma_one_extends(t2, c, s, opts);
            if k < t2.asked.len() {
                assert(one.asked[k] == t2.asked[k]);
                assert(vetted(t2, k, s));
                if let RequestView::MergePullRequest { number, merge } = t2.asked[k] {
                    let i = choose|i: int| #[trigger] fit(t2, k, s, i, number, merge.expected_head);
                    lemma_fit_later(t2, one, k, k, s, i, number, merge.expected_head);
                }
            } else if one.asked[k] is MergePullRequest {
                landing::law_only_what_was_shown_lands(t2, c, s, 0, opts, k);
                let (trunk, head, tree) = choose|trunk: Oid, head: Oid, tree: Oid|
                    #[trigger] landing::cleared(c, s, 0, one, k, trunk, head, tree) && (
                    one.asked[k] matches RequestView::MergePullRequest { number, merge } ==> Some(
                        number,
                    ) == s.layers[0].pr && merge.expected_head == head);
                assert(agreed(one, k, s, 0, head, trunk, tree));
                assert(fit(one, k, s, 0, s.layers[0].pr->0, head));
            }
        } else {
            let (t3, trunk) = land::trunk_tip(t2, c);
            assert(tape::only(t, t3, quiet));
            lemma_vetted_on(t, t, t3, s);
            if trunk is Ok {
                let none = Seq::<Option<LayerPrView>>::empty();
                lemma_survey(t3, c, s, 0, none);
                let (t4, prs) = land::survey_from(t3, c, s, 0, none);
                lemma_vetted_on(t, t3, t4, s);
                if prs is Ok {
                    let start = land::landing_start(s, trunk->Ok_0, prs->Ok_0);
                    assert(sound(t4, s, start));
                    lemma_land_from(t, t4, c, s, opts, 0, start);
                    let (t5, st) = land::land_from(t4, c, s, opts, 0, start);
                    if st is Ok {
                        let st = st->Ok_0;
                        lemma_remaining(t5, c, s, st);
                        let (t6, left) = land::remaining_repaired(t5, c, s, st);
                        lemma_vetted_on(t, t5, t6, s);
                        if left is Ok {
                            tape::lemma_only_start(t6, quiet);
                            assert(tape::only(t6, to, quiet));
                            lemma_vetted_on(t, t6, to, s);
                        }
                    }
                }
            }
        }
    }
    assert(vetted(to, k, s));
}

proof fn lemma_one_extends(t: TapeView, c: ConfigView, s: StackView, opts: LandOptionsView)
    ensures
        tape::only(t, land::layer_landed(t, c, s, 0, opts).0, |q: RequestView| true),
{
    broadcast use {
        tape::lemma_only_ask,
        upgrade::lemma_legacy_rejected_only,
        land::lemma_landing_checked_only,
    };

    let any = |q: RequestView| true;
    assert(tape::may_look(any));
    tape::lemma_only_start(t, any);
    let (t1, r1) = tape::ask_unit(t, RequestView::CheckClean);
    let (t2, r2) = upgrade::legacy_rejected(t1, c, s);
    let (t3, pr) = land::landing_checked(t2, c, s, 0);
    assert(tape::only(t, t1, any));
    if r1 is Ok && r2 is Ok {
        assert(tape::only(t, t3, any));
        if pr is Ok {
            landing::lemma_landing_only(t, t3, c, s, 0, s.layers[0].pr->0, pr->Ok_0, opts, any);
        }
    }
}

/// What stays of the local commits after landings is all of them but those that landed, in
/// the order that they had.
pub proof fn law_only_landed_commits_go(s: StackView, landed: Seq<bool>, n: int, i: int)
    requires
        0 <= i < n <= s.layers.len(),
        landed.len() == s.layers.len(),
    ensures
        !landed[i] ==> land::unlanded(s, landed, n).contains(s.layers[i].commit),
        forall|x: int|
            0 <= x < land::unlanded(s, landed, n).len() ==> stays(
                s,
                landed,
                n,
                #[trigger] land::unlanded(s, landed, n)[x],
            ),
        landed[i] && i == n - 1 ==> land::unlanded(s, landed, n) == land::unlanded(
            s,
            landed,
            n - 1,
        ),
        !landed[i] && i == n - 1 ==> land::unlanded(s, landed, n).last() == s.layers[i].commit,
    decreases n,
{
    let now = land::unlanded(s, landed, n);
    let before = land::unlanded(s, landed, n - 1);
    if n > 1 {
        law_only_landed_commits_go(
            s,
            landed,
            n - 1,
            if i < n - 1 {
                i
            } else {
                0
            },
        );
    }
    if !landed[n - 1] {
        assert(now[before.len() as int] == s.layers[n - 1].commit);
    }
    if i < n - 1 && !landed[i] {
        let x = choose|x: int| 0 <= x < before.len() && before[x] == s.layers[i].commit;
        assert(now[x] == s.layers[i].commit);
    }
    assert forall|x: int| 0 <= x < now.len() implies stays(s, landed, n, #[trigger] now[x]) by {
        if x < before.len() {
            assert(now[x] == before[x]);
            assert(stays(s, landed, n - 1, before[x]));
            let m = choose|m: int|
                0 <= m < n - 1 && !(#[trigger] landed[m]) && s.layers[m].commit == before[x];
            assert(!landed[m]);
        } else {
            assert(!landed[n - 1]);
        }
    }
}

/// The commit is that of a layer that did not land.
pub open spec fn stays(s: StackView, landed: Seq<bool>, n: int, commit: Oid) -> bool {
    exists|m: int| 0 <= m < n && !(#[trigger] landed[m]) && s.layers[m].commit == commit
}

} // verus!
