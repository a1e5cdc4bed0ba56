//! What is promised not to be touched.

use vstd::prelude::*;

use crate::close;
use crate::config;
use crate::config::ConfigView;
use crate::discovery;
use crate::engine;
use crate::engine::OptionsView;
use crate::execution;
use crate::execution::{ContextView, PlacementView};
use crate::forge::{PrState, PrView};
use crate::land;
use crate::laws::closing;
use crate::laws::landing;
use crate::laws::showing;
use crate::stack::StackView;
use crate::syncing;
use crate::tape;
use crate::tape::{ReplyView, RequestView, TapeView};
use crate::trailers;
use crate::upgrade;

verus! {

/// A pull request can be landed exactly if it is open and no draft, and closed exactly if
/// it is open.
pub proof fn law_only_open_pull_requests_are_taken(number: u64, state: PrState, draft: bool)
    ensures
        land::not_landable(number, state, draft) is None <==> state == PrState::Open && !draft,
        close::not_closable(number, state) is None <==> state == PrState::Open,
{
}

proof fn lemma_first_unusable(prs: Seq<Option<PrView>>, i: int)
    requires
        0 <= i <= prs.len(),
    ensures
        engine::first_unusable(prs, i) is None <==> forall|k: int|
            i <= k < prs.len() ==> (#[trigger] prs[k] matches Some(pr) ==> pr.state
                == PrState::Open),
    decreases prs.len() - i,
{
    if i < prs.len() {
        lemma_first_unusable(prs, i + 1);
    }
}

/// Pull requests are only worked on while all of them are open: where one was closed or
/// merged, the run is refused.
pub proof fn law_closed_pull_requests_stop_a_run(prs: Seq<Option<PrView>>)
    ensures
        engine::first_unusable(prs, 0) is None <==> forall|k: int|
            0 <= k < prs.len() ==> (#[trigger] prs[k] matches Some(pr) ==> pr.state
                == PrState::Open),
{
    lemma_first_unusable(prs, 0);
}

/// Before a round changes anything on the forge or locally, the forge has shown the pull
/// request of every layer as open.
pub proof fn law_round_works_on_open_pull_requests(
    t: TapeView,
    c: ConfigView,
    s: StackView,
    opts: OptionsView,
    first: bool,
    k: int,
    i: int,
)
    requires
        t.asked.len() <= k < syncing::round(t, c, s, opts, first).0.asked.len(),
        ({
            let q = syncing::round(t, c, s, opts, first).0.asked[k];
            tape::touches_forge(q) || tape::touches_local(q)
        }),
        0 <= i < s.layers.len(),
        s.layers[i].pr is Some,
    ensures
        closing::seen_open(syncing::round(t, c, s, opts, first).0, k, s.layers[i].pr->0),
{
    broadcast use {
        tape::lemma_only_ask,
        discovery::lemma_trees_of_only,
        engine::lemma_gathered_only,
        engine::lemma_decided_only,
        upgrade::lemma_reject_from_only,
    };

    let look = |q: RequestView| !tape::touches_forge(q) && !tape::touches_local(q);
    let any = |q: RequestView| true;
    assert(tape::may_look(look));
    let to = syncing::round(t, c, s, opts, first).0;
    tape::lemma_only_start(t, look);
    let (t1, trees) = discovery::trees_of(t, s);
    assert(tape::only(t, t1, look));
    if trees is Err {
        assert(look(t1.asked[k]));
    } else {
        let (t2, prs) = engine::gathered(t1, s);
        assert(tape::only(t, t2, look));
        if prs is Err || engine::first_unusable(prs->Ok_0, 0) is Some {
            assert(look(t2.asked[k]));
        } else {
            let prs = prs->Ok_0;
            let (t3, r) = if first {
                upgrade::reject_from(t2, c, s, prs, opts.only_layer, 0)
            } else {
                tape::done(t2, ())
            };
            assert(tape::only(t, t3, look));
            if r is Err {
                assert(look(t3.asked[k]));
            } else {
                let (t4, d) = engine::decided(t3, s, prs, trees->Ok_0, opts);
                assert(tape::only(t, t4, look));
                if d is Err {
                    assert(look(t4.asked[k]));
                } else {
                    let cx = ContextView {
                        config: c,
                        stack: s,
                        prs,
                        trees: trees->Ok_0,
                        decision: d->Ok_0,
                        opts,
                    };
                    tape::lemma_only_start(t4, any);
                    execution::lemma_executed_only(t4, t4, cx, any);
                    if k < t4.asked.len() {
                        assert(to.asked[k] == t4.asked[k]);
                        assert(look(t4.asked[k]));
                    }
                    showing::lemma_gather_from(t1, s, 0, Seq::empty());
                    lemma_first_unusable(prs, 0);
                    let number = s.layers[i].pr->0;
                    let pr = prs[i]->0;
                    let q = RequestView::GetPullRequest { number };
                    assert(tape::told(t2, q, ReplyView::Pr(pr)));
                    tape::lemma_only_start(t2, any);
                    assert(tape::only(t2, t4, any));
                    tape::lemma_only_trans(t2, t4, to, any);
                    landing::lemma_heard(t2, to, k, q, ReplyView::Pr(pr));
                }
            }
        }
    }
}

/// A stack with a layer that still has the trailer of `spr` is refused, unless only another
/// layer is worked on.
pub proof fn law_old_trailers_are_refused(
    t: TapeView,
    c: ConfigView,
    s: StackView,
    prs: Seq<Option<PrView>>,
    only: Option<usize>,
    i: int,
    k: int,
)
    requires
        0 <= i <= k < s.layers.len(),
        trailers::legacy_trailer(s.layers[k].message),
        only matches Some(one) ==> one == k,
    ensures
        upgrade::reject_from(t, c, s, prs, only, i).1 is Err,
    decreases s.layers.len() - i,
{
    if only is Some && only->0 != i {
        law_old_trailers_are_refused(t, c, s, prs, only, i + 1, k);
    } else {
        let (t1, legacy) = match prs[i] {
            Some(pr) => upgrade::spr_layer(t, c, s, prs, i, pr),
            None => tape::done(t, trailers::legacy_trailer(s.layers[i].message)),
        };
        if legacy is Ok && !legacy->Ok_0 {
            assert(i != k);
            law_old_trailers_are_refused(t1, c, s, prs, only, i + 1, k);
        }
    }
}

/// A commit without a trailer is only linked to a pull request that is open, that the
/// forge found under the branch name of the commit, that no other layer has, and that the
/// user agreed to.
pub proof fn law_only_agreed_pull_requests_are_linked(
    t: TapeView,
    c: ConfigView,
    s: StackView,
    i: int,
)
    ensures
        ({
            let (to, r) = syncing::relink_of(t, c, s, i);
            r matches Ok(Some(number)) ==> {
                &&& forall|k: int|
                    0 <= k < s.layers.len() ==> (#[trigger] s.layers[k]).pr != Some(number)
                &&& exists|pr: PrView|
                    pr.number == number && pr.state == PrState::Open && #[trigger] tape::told(
                        to,
                        RequestView::FindByHead {
                            head: config::preferred_branch(c, s.layers[i].message.subject),
                        },
                        ReplyView::MaybePr(Some(pr)),
                    ) && tape::told(
                        to,
                        RequestView::ConfirmRelink {
                            subject: s.layers[i].message.subject,
                            number,
                            title: pr.title,
                            branch: pr.head,
                        },
                        ReplyView::Flag(true),
                    )
            }
        }),
{
    broadcast use tape::lemma_only_ask;

    let any = |q: RequestView| true;
    let (to, r) = syncing::relink_of(t, c, s, i);
    let subject = s.layers[i].message.subject;
    if r is Ok && r->Ok_0 is Some {
        let q1 = RequestView::FindByHead { head: config::preferred_branch(c, subject) };
        let (t1, found) = tape::ask_maybe_pr(t, q1);
        let pr = found->Ok_0->0;
        let q2 = RequestView::ConfirmRelink {
            subject,
            number: pr.number,
            title: pr.title,
            branch: pr.head,
        };
        tape::lemma_told(t, q1);
        tape::lemma_told(t1, q2);
        assert(tape::told(t1, q1, ReplyView::MaybePr(Some(pr))));
        assert(tape::told(to, q2, ReplyView::Flag(true)));
        tape::lemma_only_start(t1, any);
        assert(tape::only(t1, to, any));
        tape::lemma_said_stays(t1, to, any);
        assert(tape::told(to, q1, ReplyView::MaybePr(Some(pr))));
        assert forall|k: int| 0 <= k < s.layers.len() implies (#[trigger] s.layers[k]).pr != Some(
            pr.number,
        ) by {
            assert(!syncing::claimed(s, pr.number));
        }
    }
}

/// A pull request that gets its base early becomes a draft for that time exactly if the
/// user wants that and it is none; it is then remembered, so that it is no draft in the
/// end. It gets the new base and nothing else is told to it.
pub proof fn law_early_base_is_all_that_changes(
    t: TapeView,
    c: ConfigView,
    pr: PrView,
    base: Seq<char>,
)
    ensures
        ({
            let (to, r) = execution::retarget_early(t, c, pr, base);
            &&& tape::only(
                t,
                to,
                |q: RequestView|
                    match q {
                        RequestView::SetDraft { node_id, draft } => node_id == pr.node_id && draft
                            && c.draft_while_retargeting && !pr.draft,
                        RequestView::UpdatePullRequest { number, update } => number == pr.number
                            && update.base == Some(base) && update.title is None
                            && update.body is None && update.state is None,
                        _ => false,
                    },
            )
            &&& r matches Ok(node) ==> {
                &&& node == (if c.draft_while_retargeting && !pr.draft {
                    Some(pr.node_id)
                } else {
                    None
                })
                &&& to.asked.last() is UpdatePullRequest
            }
        }),
{
    broadcast use tape::lemma_only_ask;

    let allowed = |q: RequestView|
        match q {
            RequestView::SetDraft { node_id, draft } => node_id == pr.node_id && draft
                && c.draft_while_retargeting && !pr.draft,
            RequestView::UpdatePullRequest { number, update } => number == pr.number && update.base
                == Some(base) && update.title is None && update.body is None
                && update.state is None,
            _ => false,
        };
    tape::lemma_only_start(t, allowed);
}

/// All pull requests that were made drafts for the time being are made ready again.
pub proof fn law_drafts_are_made_ready_again(t: TapeView, nodes: Seq<Seq<char>>, k: int)
    requires
        0 <= k <= nodes.len(),
    ensures
        execution::undraft_from(t, nodes, k).1 is Ok ==> execution::undraft_from(
            t,
            nodes,
            k,
        ).0.asked == t.asked + Seq::new(
            (nodes.len() - k) as nat,
            |i: int| RequestView::SetDraft { node_id: nodes[k + i], draft: false },
        ),
    decreases nodes.len() - k,
{
    if k < nodes.len() {
        let q = RequestView::SetDraft { node_id: nodes[k], draft: false };
        let (t1, r) = tape::ask_unit(t, q);
        if r is Ok {
            law_drafts_are_made_ready_again(t1, nodes, k + 1);
            assert(execution::undraft_from(t, nodes, k) == execution::undraft_from(
                t1,
                nodes,
                k + 1,
            ));
            let all = Seq::new(
                (nodes.len() - k) as nat,
                |i: int| RequestView::SetDraft { node_id: nodes[k + i], draft: false },
            );
            let rest = Seq::new(
                (nodes.len() - (k + 1)) as nat,
                |i: int| RequestView::SetDraft { node_id: nodes[k + 1 + i], draft: false },
            );
            assert(t.asked.push(q) + rest =~= t.asked + all);
        }
    } else {
        let all = Seq::new(
            (nodes.len() - k) as nat,
            |i: int| RequestView::SetDraft { node_id: nodes[k + i], draft: false },
        );
        assert(t.asked + all =~= t.asked);
    }
}

/// Whatever is made a draft before the push is remembered, and it is made one only where
/// it is to get another base and is none yet.
pub proof fn law_drafts_are_remembered(t: TapeView, cx: ContextView, i: int, p: PlacementView)
    requires
        0 <= i <= cx.prs.len(),
    ensures
        ({
            let (to, r) = execution::draft_from(t, cx, i, p);
            &&& tape::only(
                t,
                to,
                |q: RequestView|
                    q matches RequestView::SetDraft { node_id, draft } && draft && exists|k: int|
                        0 <= k < cx.prs.len() && (#[trigger] cx.prs[k] matches Some(pr)
                            && pr.node_id == node_id && !pr.draft && pr.base != p.base_branches[k]),
            )
            &&& r matches Ok(all) ==> {
                &&& forall|n: Seq<char>| #[trigger]
                    p.undraft.contains(n) ==> all.undraft.contains(n)
                &&& forall|k: int|
                    i <= k < cx.prs.len() && (#[trigger] cx.prs[k] matches Some(pr) && !pr.draft
                        && pr.base != p.base_branches[k]) && !p.retargeted_early[k]
                        ==> all.undraft.contains((cx.prs[k]->0).node_id)
            }
        }),
    decreases cx.prs.len() - i,
{
    broadcast use tape::lemma_only_ask;

    let allowed = |q: RequestView|
        q matches RequestView::SetDraft { node_id, draft } && draft && exists|k: int|
            0 <= k < cx.prs.len() && (#[trigger] cx.prs[k] matches Some(pr) && pr.node_id
                == node_id && !pr.draft && pr.base != p.base_branches[k]);
    tape::lemma_only_start(t, allowed);
    if i < cx.prs.len() {
        match cx.prs[i] {
            None => law_drafts_are_remembered(t, cx, i + 1, p),
            Some(pr) => if pr.draft || pr.base == p.base_branches[i] || p.retargeted_early[i] {
                law_drafts_are_remembered(t, cx, i + 1, p);
            } else {
                let q = RequestView::SetDraft { node_id: pr.node_id, draft: true };
                let (t1, r) = tape::ask_unit(t, q);
                assert(cx.prs[i] is Some);
                assert(allowed(q));
                assert(tape::only(t, t1, allowed));
                if r is Ok {
                    let next = PlacementView { undraft: p.undraft.push(pr.node_id), ..p };
                    law_drafts_are_remembered(t1, cx, i + 1, next);
                    let (to, all) = execution::draft_from(t1, cx, i + 1, next);
                    assert(execution::draft_from(t, cx, i, p) == (to, all));
                    tape::lemma_only_trans(t, t1, to, allowed);
                    assert(next.undraft[p.undraft.len() as int] == pr.node_id);
                    assert(next.undraft.contains(pr.node_id));
                    assert forall|n: Seq<char>| #[trigger]
                        p.undraft.contains(n) implies next.undraft.contains(n) by {
                        let x = choose|x: int| 0 <= x < p.undraft.len() && p.undraft[x] == n;
                        assert(next.undraft[x] == n);
                    }
                }
            },
        }
    }
}

/// The message of a new commit on a branch is the one that the user gave; the user is only
/// asked where none was given and the patch changed.
pub proof fn law_given_message_is_used(
    t: TapeView,
    opts: OptionsView,
    patch_changed: bool,
    subject: Seq<char>,
)
    ensures
        ({
            let (to, r) = execution::update_text(t, opts, patch_changed, subject);
            &&& opts.message matches Some(message) ==> r == Ok::<Seq<char>, tape::HaltView>(message)
                && to == t
            &&& to.asked.len() > t.asked.len() <==> opts.message is None && patch_changed
            &&& to.asked.len() > t.asked.len() ==> to.asked.last() == (RequestView::AskMessage {
                subject,
            })
        }),
{
}

} // verus!
