//! What `close` promises.

use vstd::prelude::*;

use crate::close;
use crate::config::ConfigView;
use crate::forge;
use crate::forge::{PrState, PrView, UpdateView};
use crate::laws::landing;
use crate::oid::Oid;
use crate::stack;
use crate::stack::{Dep, StackView};
use crate::tape;
use crate::tape::{ReplyView, RequestView, TapeView};
use crate::upgrade;

verus! {

/// Layer `d` sits directly on layer `index` and has the pull request.
pub open spec fn on_top(s: StackView, index: usize, d: int, number: u64) -> bool {
    0 <= d < s.layers.len() && s.layers[d].dep == Dep::Layer(index) && s.layers[d].pr == Some(
        number,
    )
}

/// What a close asks of the forge: the pull request of the layer is closed, and those
/// directly on top of it get the base. Nothing else is changed.
pub open spec fn closes(s: StackView, index: usize, base: Seq<char>, q: RequestView) -> bool {
    match q {
        RequestView::UpdatePullRequest { number, update } => {
            ||| s.layers[index as int].pr == Some(number) && update == (UpdateView {
                title: None,
                body: None,
                base: None,
                state: Some(PrState::Closed),
            })
            ||| update == (UpdateView { title: None, body: None, base: Some(base), state: None })
                && exists|d: int| #[trigger] on_top(s, index, d, number)
        },
        _ => false,
    }
}

/// The base is what the layer sat on: the trunk, or the branch that the forge gave for the
/// pull request below.
pub open spec fn sat_on(
    c: ConfigView,
    s: StackView,
    index: int,
    t: TapeView,
    k: int,
    base: Seq<char>,
) -> bool {
    match s.layers[index].dep {
        Dep::Main => base == c.trunk,
        Dep::Layer(j) => s.layers[j as int].pr is Some && exists|pr: PrView|
            pr.head == base && #[trigger] landing::heard(
                t,
                k,
                RequestView::GetPullRequest { number: s.layers[j as int].pr->0 },
                ReplyView::Pr(pr),
            ),
        Dep::ExternalPr(_) => false,
    }
}

/// The forge showed the pull request as open before the `k`th request.
pub open spec fn seen_open(t: TapeView, k: int, number: u64) -> bool {
    exists|pr: PrView|
        pr.state == PrState::Open && #[trigger] landing::heard(
            t,
            k,
            RequestView::GetPullRequest { number },
            ReplyView::Pr(pr),
        )
}

proof fn lemma_direct(s: StackView, index: usize, n: int)
    requires
        0 <= n <= s.layers.len() <= usize::MAX,
    ensures
        forall|k: int|
            0 <= k < stack::direct_below(s, index, n).len() ==> (#[trigger] stack::direct_below(
                s,
                index,
                n,
            )[k]) < n && s.layers[stack::direct_below(s, index, n)[k] as int].dep == Dep::Layer(
                index,
            ),
        forall|d: int|
            0 <= d < n && s.layers[d].dep == Dep::Layer(index) ==> #[trigger] stack::direct_below(
                s,
                index,
                n,
            ).contains(d as usize),
    decreases n,
{
    if n > 0 {
        lemma_direct(s, index, n - 1);
        let before = stack::direct_below(s, index, n - 1);
        let all = stack::direct_below(s, index, n);
        assert forall|d: int|
            0 <= d < n && s.layers[d].dep == Dep::Layer(index) implies #[trigger] all.contains(
            d as usize,
        ) by {
            if d < n - 1 {
                assert(before.contains(d as usize));
                let k = choose|k: int| 0 <= k < before.len() && before[k] == d as usize;
                assert(all[k] == d as usize);
            } else {
                assert(all[before.len() as int] == d as usize);
            }
        }
    }
}

proof fn lemma_rebase_only(
    from: TapeView,
    t: TapeView,
    s: StackView,
    index: usize,
    base: Seq<char>,
    k: int,
    moved: Seq<u64>,
)
    requires
        0 <= k <= stack::direct_dependents(s, index).len(),
        s.layers.len() <= usize::MAX,
        tape::only(
            from,
            t,
            |q: RequestView| tape::touches_forge(q) ==> closes(s, index, base, q),
        ),
    ensures
        tape::only(
            from,
            close::rebase_prs_from(
                t,
                s,
                stack::direct_dependents(s, index),
                base,
                k,
                moved,
            ).0,
            |q: RequestView| tape::touches_forge(q) ==> closes(s, index, base, q),
        ),
    decreases stack::direct_dependents(s, index).len() - k,
{
    broadcast use tape::lemma_only_ask;

    let allowed = |q: RequestView| tape::touches_forge(q) ==> closes(s, index, base, q);
    let layers = stack::direct_dependents(s, index);
    if k < layers.len() {
        lemma_direct(s, index, s.layers.len() as int);
        match s.layers[layers[k] as int].pr {
            None => lemma_rebase_only(from, t, s, index, base, k + 1, moved),
            Some(number) => {
                let q = RequestView::UpdatePullRequest { number, update: forge::base_update(base) };
                assert(on_top(s, index, layers[k] as int, number));
                assert(allowed(q));
                let (t1, r) = tape::ask_unit(t, q);
                if r is Ok {
                    lemma_rebase_only(from, t1, s, index, base, k + 1, moved.push(number));
                }
            },
        }
    }
}

/// Closing a layer closes its pull request, which the forge has shown as open, and gives
/// those directly on top of it what it sat on for their base. The forge is asked for
/// nothing else.
pub proof fn law_close_closes_that_pull_request(
    t: TapeView,
    c: ConfigView,
    s: StackView,
    index: usize,
    k: int,
)
    requires
        s.layers.len() <= usize::MAX,
        t.asked.len() <= k < close::layer_closed(t, c, s, index).0.asked.len(),
        tape::touches_forge(close::layer_closed(t, c, s, index).0.asked[k]),
    ensures
        ({
            let to = close::layer_closed(t, c, s, index).0;
            &&& s.layers[index as int].pr is Some
            &&& seen_open(to, k, s.layers[index as int].pr->0)
            &&& exists|base: Seq<char>|
                #[trigger] closes(s, index, base, to.asked[k]) && sat_on(
                    c,
                    s,
                    index as int,
                    to,
                    k,
                    base,
                )
        }),
{
    broadcast use {
        tape::lemma_only_ask,
        upgrade::lemma_legacy_rejected_only,
        close::lemma_inherited_only,
        close::lemma_dropped_only,
    };

    let any = |q: RequestView| true;
    let quiet = |q: RequestView| !tape::touches_forge(q);
    assert(tape::may_look(quiet) && tape::may_write(quiet));
    let to = close::layer_closed(t, c, s, index).0;
    tape::lemma_only_start(t, quiet);
    let (t1, r1) = tape::ask_unit(t, RequestView::CheckClean);
    assert(tape::only(t, t1, quiet));
    let (t2, r2) = upgrade::legacy_rejected(t1, c, s);
    assert(tape::only(t, t2, quiet));
    if r1 is Err || r2 is Err || s.layers[index as int].pr is None {
        assert(quiet(to.asked[k]));
    } else {
        let number = s.layers[index as int].pr->0;
        let q = RequestView::GetPullRequest { number };
        let (t3, pr) = tape::ask_pr(t2, q);
        assert(tape::only(t, t3, quiet));
        if pr is Err || close::not_closable(number, (pr->Ok_0).state) is Some {
            assert(quiet(to.asked[k]));
        } else {
            let pr = pr->Ok_0;
            let (t4, below) = close::inherited(t3, c, s, index as int);
            assert(tape::only(t, t4, quiet));
            if below is Err {
                assert(quiet(to.asked[k]));
            } else {
                let below = below->Ok_0;
                let base = below.base;
                let allowed = |q: RequestView|
                    tape::touches_forge(q) ==> closes(s, index, base, q);
                assert(tape::may_look(allowed) && tape::may_write(allowed));
                tape::lemma_only_start(t4, allowed);
                lemma_rebase_only(t4, t4, s, index, base, 0, Seq::empty());
                let (t5, moved) = close::rebase_prs_from(
                    t4,
                    s,
                    stack::direct_dependents(s, index),
                    base,
                    0,
                    Seq::empty(),
                );
                let shut = RequestView::UpdatePullRequest {
                    number,
                    update: UpdateView { state: Some(PrState::Closed), ..forge::no_update() },
                };
                assert(allowed(shut));
                assert(tape::only(t4, to, allowed));
                assert(tape::only(t4, to, any));
                if k < t4.asked.len() {
                    assert(to.asked[k] == t4.asked[k]);
                    assert(quiet(t4.asked[k]));
                }
                assert(allowed(to.asked[k]));
                tape::lemma_told(t2, q);
                assert(tape::told(t3, q, ReplyView::Pr(pr)));
                tape::lemma_only_start(t3, any);
                assert(tape::only(t3, t4, any));
                tape::lemma_only_trans(t3, t4, to, any);
                landing::lemma_heard(t3, to, k, q, ReplyView::Pr(pr));
                match s.layers[index as int].dep {
                    Dep::Layer(j) => {
                        let low = RequestView::GetPullRequest { number: s.layers[j as int].pr->0 };
                        let (t3a, found) = tape::ask_pr(t3, low);
                        tape::lemma_told(t3, low);
                        assert(tape::told(t4, low, ReplyView::Pr(found->Ok_0)));
                        landing::lemma_heard(t4, to, k, low, ReplyView::Pr(found->Ok_0));
                    },
                    _ => {},
                }
                assert(sat_on(c, s, index as int, to, k, base));
            }
        }
    }
}

/// The pull request is that of one of the layers.
spec fn one_of(s: StackView, layers: Seq<usize>, number: u64) -> bool {
    exists|m: int|
        0 <= m < layers.len() && s.layers[#[trigger] layers[m] as int].pr == Some(number)
}

proof fn lemma_moved(
    t: TapeView,
    s: StackView,
    layers: Seq<usize>,
    base: Seq<char>,
    k: int,
    moved: Seq<u64>,
)
    requires
        0 <= k <= layers.len(),
        forall|m: int|
            0 <= m < k && s.layers[#[trigger] layers[m] as int].pr is Some ==> moved.contains(
                s.layers[layers[m] as int].pr->0,
            ),
        forall|x: int| 0 <= x < moved.len() ==> one_of(s, layers, #[trigger] moved[x]),
    ensures
        close::rebase_prs_from(t, s, layers, base, k, moved).1 matches Ok(all) ==> {
            &&& forall|m: int|
                0 <= m < layers.len() && s.layers[#[trigger] layers[m] as int].pr is Some
                    ==> all.contains(s.layers[layers[m] as int].pr->0)
            &&& forall|x: int| 0 <= x < all.len() ==> one_of(s, layers, #[trigger] all[x])
        },
    decreases layers.len() - k,
{
    if k < layers.len() {
        match s.layers[layers[k] as int].pr {
            None => lemma_moved(t, s, layers, base, k + 1, moved),
            Some(number) => {
                let (t1, r) = tape::ask_unit(
                    t,
                    RequestView::UpdatePullRequest { number, update: forge::base_update(base) },
                );
                if r is Ok {
                    let more = moved.push(number);
                    assert(more[moved.len() as int] == number);
                    assert forall|m: int|
                        0 <= m < k + 1 && s.layers[#[trigger] layers[m] as int].pr is Some implies more.contains(
                        s.layers[layers[m] as int].pr->0,
                    ) by {
                        if m < k {
                            let n = s.layers[layers[m] as int].pr->0;
                            assert(moved.contains(n));
                            let x = choose|x: int| 0 <= x < moved.len() && moved[x] == n;
                            assert(more[x] == n);
                        }
                    }
                    assert forall|x: int| 0 <= x < more.len() implies one_of(
                        s,
                        layers,
                        #[trigger] more[x],
                    ) by {
                        if x < moved.len() {
                            assert(one_of(s, layers, moved[x]));
                        } else {
                            assert(s.layers[layers[k] as int].pr == Some(more[x]));
                        }
                    }
                    lemma_moved(t1, s, layers, base, k + 1, more);
                }
            },
        }
    }
}

/// After a close that went through, the forge has closed the pull request of the layer and
/// given each one directly on top of it a new base, and the report names the one and lists
/// exactly the others.
pub proof fn law_close_is_reported(t: TapeView, c: ConfigView, s: StackView, index: usize)
    requires
        s.layers.len() <= usize::MAX,
    ensures
        ({
            let (to, r) = close::layer_closed(t, c, s, index);
            r matches Ok(o) ==> {
                &&& s.layers[index as int].pr == Some(o.number)
                &&& tape::told(
                    to,
                    RequestView::UpdatePullRequest {
                        number: o.number,
                        update: UpdateView {
                            title: None,
                            body: None,
                            base: None,
                            state: Some(PrState::Closed),
                        },
                    },
                    ReplyView::Done,
                )
                &&& forall|number: u64| #[trigger]
                    o.retargeted.contains(number) <==> exists|d: int| #[trigger]
                        on_top(s, index, d, number)
            }
        }),
{
    broadcast use {tape::lemma_only_ask, close::lemma_dropped_only};

    let any = |q: RequestView| true;
    let (to, r) = close::layer_closed(t, c, s, index);
    if r is Ok {
        let o = r->Ok_0;
        let (t1, r1) = tape::ask_unit(t, RequestView::CheckClean);
        let (t2, r2) = upgrade::legacy_rejected(t1, c, s);
        let number = s.layers[index as int].pr->0;
        let (t3, pr) = tape::ask_pr(t2, RequestView::GetPullRequest { number });
        let (t4, below) = close::inherited(t3, c, s, index as int);
        let below = below->Ok_0;
        let layers = stack::direct_dependents(s, index);
        let (t5, moved) = close::rebase_prs_from(t4, s, layers, below.base, 0, Seq::empty());
        let shut = RequestView::UpdatePullRequest {
            number,
            update: UpdateView { state: Some(PrState::Closed), ..forge::no_update() },
        };
        let (t6, r6) = tape::ask_unit(t5, shut);
        tape::lemma_told(t5, shut);
        assert(tape::told(t6, shut, ReplyView::Done));
        tape::lemma_only_start(t6, any);
        assert(tape::may_write(any));
        assert(tape::only(t6, to, any));
        tape::lemma_said_stays(t6, to, any);
        lemma_moved(t4, s, layers, below.base, 0, Seq::empty());
        lemma_direct(s, index, s.layers.len() as int);
        assert(o.retargeted == moved->Ok_0);
        assert forall|n: u64| #[trigger] o.retargeted.contains(n) <==> exists|d: int| #[trigger]
            on_top(s, index, d, n) by {
            if o.retargeted.contains(n) {
                let x = choose|x: int| 0 <= x < o.retargeted.len() && o.retargeted[x] == n;
                assert(one_of(s, layers, o.retargeted[x]));
                let m = choose|m: int|
                    0 <= m < layers.len() && s.layers[#[trigger] layers[m] as int].pr == Some(n);
                assert(on_top(s, index, layers[m] as int, n));
            }
            if exists|d: int| #[trigger] on_top(s, index, d, n) {
                let d = choose|d: int| #[trigger] on_top(s, index, d, n);
                assert(layers.contains(d as usize));
                let m = choose|m: int| 0 <= m < layers.len() && layers[m] == d as usize;
                assert(s.layers[layers[m] as int].pr is Some);
            }
        }
    }
}

proof fn lemma_all_but(commits: Seq<Oid>, index: int, n: int)
    requires
        0 <= n <= commits.len(),
        0 <= index,
    ensures
        close::all_but(commits, index, n) == if index < n {
            commits.take(n).remove(index)
        } else {
            commits.take(n)
        },
    decreases n,
{
    if n > 0 {
        lemma_all_but(commits, index, n - 1);
        if index < n {
            assert(close::all_but(commits, index, n) =~= commits.take(n).remove(index));
        } else {
            assert(close::all_but(commits, index, n) =~= commits.take(n));
        }
    } else {
        assert(close::all_but(commits, index, n) =~= commits.take(n));
    }
}

/// What stays of the local commits when a layer is closed is all of them but the layer's
/// own, in the order that they had.
pub proof fn law_only_the_closed_commit_goes(commits: Seq<Oid>, index: int)
    requires
        0 <= index < commits.len(),
    ensures
        close::all_but(commits, index, commits.len() as int) == commits.remove(index),
{
    lemma_all_but(commits, index, commits.len() as int);
    assert(commits.take(commits.len() as int) =~= commits);
}

} // verus!
