//! What is promised of the pull requests on top of one that is landed or closed.

use vstd::prelude::*;

use crate::close;
use crate::config::ConfigView;
use crate::execution;
use crate::forge;
use crate::forge::{PrState, PrView};
use crate::land;
use crate::land::{DependentView, LandOptionsView, RepairsView, RetargetedView, SnapshotView};
use crate::laws::landing;
use crate::oid::Oid;
use crate::reference::DepSpecView;
use crate::stack::{Dep, StackView};
use crate::tape;
use crate::tape::{ReplyView, RequestView, TapeView};
use crate::text;
use crate::trailers;
use crate::trailers::MessageView;

verus! {

/// What is noted of a dependent is what the forge showed of its open pull request.
pub open spec fn as_it_stands(t: TapeView, s: StackView, d: DependentView) -> bool {
    s.layers[d.layer as int].pr == Some(d.number) && exists|pr: PrView|
        pr.state == PrState::Open && pr.head == d.branch && pr.base == d.base
            && #[trigger] landing::shown(t, d.number, pr)
}

/// Layer `l` is among the dependents, or the user is told that it is left alone.
pub open spec fn accounted_for(s: StackView, snap: SnapshotView, l: usize) -> bool {
    s.layers[l as int].pr matches Some(number) && ((exists|x: int|
        0 <= x < snap.dependents.len() && (#[trigger] snap.dependents[x]).layer == l
            && snap.dependents[x].number == number) || snap.warnings.contains(
        land::left_alone(number),
    ))
}

spec fn surveyed(t: TapeView, s: StackView, layers: Seq<usize>, k: int, snap: SnapshotView) -> bool {
    &&& forall|x: int|
        0 <= x < snap.dependents.len() ==> as_it_stands(t, s, #[trigger] snap.dependents[x])
    &&& forall|m: int| 0 <= m < k ==> accounted_for(s, snap, #[trigger] layers[m])
}

proof fn lemma_snapshot(
    t: TapeView,
    c: ConfigView,
    s: StackView,
    layers: Seq<usize>,
    k: int,
    snap: SnapshotView,
)
    requires
        0 <= k <= layers.len(),
        surveyed(t, s, layers, k, snap),
    ensures
        land::snapshot_from(t, c, s, layers, k, snap).1 matches Ok(all) ==> surveyed(
            land::snapshot_from(t, c, s, layers, k, snap).0,
            s,
            layers,
            layers.len() as int,
            all,
        ),
    decreases layers.len() - k,
{
    let any = |q: RequestView| true;
    if k < layers.len() {
        let layer = s.layers[layers[k] as int];
        if layer.pr is Some {
            let number = layer.pr->0;
            let (t1, pr) = land::synced_pr(t, number, false);
            tape::lemma_only_start(t, any);
            land::lemma_synced_pr_only(t, t, number, false, any);
            landing::lemma_synced_pr_shown(t, number, false);
            if pr is Ok {
                let pr = pr->Ok_0;
                let more = land::with_dependent(c, layers[k], number, pr, snap);
                assert forall|x: int| 0 <= x < more.dependents.len() implies as_it_stands(
                    t1,
                    s,
                    #[trigger] more.dependents[x],
                ) by {
                    if x < snap.dependents.len() {
                        let d = snap.dependents[x];
                        assert(more.dependents[x] == d);
                        assert(as_it_stands(t, s, d));
                        let seen = choose|pr: PrView|
                            pr.state == PrState::Open && pr.head == d.branch && pr.base == d.base
                                && #[trigger] landing::shown(t, d.number, pr);
                        landing::lemma_shown_still(t, t1, d.number, seen);
                        assert(landing::shown(t1, d.number, seen));
                    } else {
                        let d = more.dependents[x];
                        assert(pr.state == PrState::Open);
                        assert(d.number == number && d.layer == layers[k]);
                        assert(landing::shown(t1, d.number, pr));
                    }
                }
                assert forall|m: int| 0 <= m < k + 1 implies accounted_for(
                    s,
                    more,
                    #[trigger] layers[m],
                ) by {
                    if m < k {
                        assert(accounted_for(s, snap, layers[m]));
                        let n = s.layers[layers[m] as int].pr->0;
                        if snap.warnings.contains(land::left_alone(n)) {
                            let w = choose|w: int|
                                0 <= w < snap.warnings.len() && snap.warnings[w]
                                    == land::left_alone(n);
                            assert(more.warnings[w] == land::left_alone(n));
                        } else {
                            let x = choose|x: int|
                                0 <= x < snap.dependents.len() && (
                                #[trigger] snap.dependents[x]).layer == layers[m]
                                    && snap.dependents[x].number == n;
                            assert(more.dependents[x] == snap.dependents[x]);
                        }
                    } else if pr.state == PrState::Open {
                        assert(more.dependents[snap.dependents.len() as int].layer == layers[k]);
                    } else {
                        assert(more.warnings[snap.warnings.len() as int] == land::left_alone(
                            number,
                        ));
                    }
                }
                lemma_snapshot(t1, c, s, layers, k + 1, more);
            }
        }
    }
}

/// Before a landing everything on top of the layer is looked at: what is noted of each
/// dependent is what the forge showed of its open pull request, and of one that is not
/// open the user is told that it is left alone.
pub proof fn law_dependents_are_looked_at_first(
    t: TapeView,
    c: ConfigView,
    s: StackView,
    layers: Seq<usize>,
    x: int,
    m: int,
)
    ensures
        ({
            let (to, r) = land::snapshot_from(t, c, s, layers, 0, land::empty_snapshot());
            r matches Ok(snap) ==> {
                &&& 0 <= x < snap.dependents.len() ==> as_it_stands(to, s, snap.dependents[x])
                &&& 0 <= m < layers.len() ==> accounted_for(s, snap, layers[m])
            }
        }),
{
    lemma_snapshot(t, c, s, layers, 0, land::empty_snapshot());
    let (to, r) = land::snapshot_from(t, c, s, layers, 0, land::empty_snapshot());
    if r is Ok {
        let snap = r->Ok_0;
        if 0 <= x < snap.dependents.len() {
            assert(as_it_stands(to, s, snap.dependents[x]));
        }
        if 0 <= m < layers.len() {
            assert(accounted_for(s, snap, layers[m]));
        }
    }
}

/// The dependent sits directly on the layer and is not based on the trunk.
pub open spec fn to_be_moved(c: ConfigView, s: StackView, index: usize, d: DependentView) -> bool {
    s.layers[d.layer as int].dep == Dep::Layer(index) && d.base != c.trunk
}

/// The move of a dependent is noted with the base that it had.
pub open spec fn move_noted(moved: Seq<RetargetedView>, d: DependentView) -> bool {
    exists|x: int|
        0 <= x < moved.len() && #[trigger] moved[x] == (RetargetedView {
            layer: d.layer,
            number: d.number,
            base: d.base,
        })
}

/// What a landing tells the pull requests on top of it before the merge is that those
/// directly on top get the trunk for their base. Each one that was told so is noted with
/// the base that it had, so that it can be told back.
pub proof fn law_direct_dependents_get_the_trunk(
    t: TapeView,
    c: ConfigView,
    s: StackView,
    index: usize,
    dependents: Seq<DependentView>,
    k: int,
    moved: Seq<RetargetedView>,
)
    requires
        0 <= k <= dependents.len(),
    ensures
        ({
            let (to, r) = land::retarget_from(t, c, s, index, dependents, k, moved);
            &&& tape::only(
                t,
                to,
                |q: RequestView|
                    q matches RequestView::UpdatePullRequest { number, update } && update.base
                        == Some(c.trunk) && update.title is None && update.body is None
                        && update.state is None && exists|x: int|
                        0 <= x < dependents.len() && (#[trigger] dependents[x]).number == number
                            && to_be_moved(c, s, index, dependents[x]),
            )
            &&& r matches Ok(all) ==> {
                &&& forall|d: DependentView| #[trigger]
                    move_noted(moved, d) ==> move_noted(all, d)
                &&& forall|x: int|
                    k <= x < dependents.len() && to_be_moved(c, s, index, #[trigger] dependents[x])
                        ==> move_noted(all, dependents[x]) && tape::told(
                        to,
                        RequestView::UpdatePullRequest {
                            number: dependents[x].number,
                            update: forge::base_update(c.trunk),
                        },
                        ReplyView::Done,
                    )
            }
        }),
    decreases dependents.len() - k,
{
    broadcast use tape::lemma_only_ask;

    let any = |q: RequestView| true;
    let allowed = |q: RequestView|
        q matches RequestView::UpdatePullRequest { number, update } && update.base == Some(c.trunk)
            && update.title is None && update.body is None && update.state is None
            && exists|x: int|
            0 <= x < dependents.len() && (#[trigger] dependents[x]).number == number
                && to_be_moved(c, s, index, dependents[x]);
    tape::lemma_only_start(t, allowed);
    if k < dependents.len() {
        let d = dependents[k];
        if !to_be_moved(c, s, index, d) {
            law_direct_dependents_get_the_trunk(t, c, s, index, dependents, k + 1, moved);
        } else {
            let q = RequestView::UpdatePullRequest {
                number: d.number,
                update: forge::base_update(c.trunk),
            };
            assert(dependents[k].number == d.number);
            assert(allowed(q));
            let (t1, r) = tape::ask_unit(t, q);
            assert(tape::only(t, t1, allowed));
            if r is Ok {
                let note = RetargetedView { layer: d.layer, number: d.number, base: d.base };
                let more = moved.push(note);
                law_direct_dependents_get_the_trunk(t1, c, s, index, dependents, k + 1, more);
                let (to, all) = land::retarget_from(t1, c, s, index, dependents, k + 1, more);
                assert(land::retarget_from(t, c, s, index, dependents, k, moved) == (to, all));
                tape::lemma_only_trans(t, t1, to, allowed);
                tape::lemma_told(t, q);
                assert(tape::told(t1, q, ReplyView::Done));
                assert(tape::only(t1, to, any));
                tape::lemma_said_stays(t1, to, any);
                assert(tape::told(to, q, ReplyView::Done));
                assert(more[moved.len() as int] == note);
                assert(move_noted(more, d));
                assert forall|e: DependentView| #[trigger] move_noted(moved, e) implies move_noted(
                    more,
                    e,
                ) by {
                    let was = RetargetedView { layer: e.layer, number: e.number, base: e.base };
                    let x = choose|x: int| 0 <= x < moved.len() && #[trigger] moved[x] == was;
                    assert(more[x] == was);
                }
            }
        }
    }
}

/// The `j`th of the lists that came out of a repair are about the dependent: its branch is
/// pushed by force to the tip that is recorded for its pull request and reported, and the
/// report says that it got the trunk for its base exactly if it sat on the landed layer.
pub open spec fn repaired_as(
    s: StackView,
    index: usize,
    d: DependentView,
    run: RepairsView,
    a: int,
    b: int,
    e: int,
) -> bool {
    let tip = run.repaired[e].new_tip;
    &&& run.specs[a].branch == d.branch
    &&& run.specs[a].oid == Some(tip)
    &&& run.specs[a].force
    &&& run.recorded[b].number == d.number
    &&& run.recorded[b].tip == tip
    &&& run.repaired[e].number == d.number
    &&& run.repaired[e].branch == d.branch
    &&& run.repaired[e].old_tip == d.tip
    &&& run.repaired[e].retargeted <==> s.layers[d.layer as int].dep == Dep::Layer(index)
}

/// Every dependent is repaired: one after the other, each is pushed, recorded and
/// reported, and nothing else is.
pub proof fn law_every_dependent_is_repaired(
    t: TapeView,
    s: StackView,
    index: usize,
    landing: u64,
    dependents: Seq<DependentView>,
    k: int,
    run: RepairsView,
    x: int,
)
    requires
        0 <= k <= dependents.len(),
    ensures
        land::repair_from(t, s, index, landing, dependents, k, run).1 matches Ok(all) ==> {
            let n = dependents.len() - k;
            &&& all.specs.len() == run.specs.len() + n
            &&& all.recorded.len() == run.recorded.len() + n
            &&& all.repaired.len() == run.repaired.len() + n
            &&& all.specs.take(run.specs.len() as int) == run.specs
            &&& all.recorded.take(run.recorded.len() as int) == run.recorded
            &&& all.repaired.take(run.repaired.len() as int) == run.repaired
            &&& 0 <= x < n ==> repaired_as(
                s,
                index,
                dependents[k + x],
                all,
                run.specs.len() + x,
                run.recorded.len() + x,
                run.repaired.len() + x,
            )
        },
    decreases dependents.len() - k,
{
    let (to, r) = land::repair_from(t, s, index, landing, dependents, k, run);
    if k < dependents.len() {
        let d = dependents[k];
        if r is Ok {
            let roots = land::anchor_of(s, run.tips, d.layer as int)->0;
            let text = trailers::rendered(
                trailers::for_branch(s.layers[d.layer as int].message),
            );
            let (t1, carried) = land::carried(t, d.number, text, d.tip, roots.0, roots.1);
            let more = land::with_repair(run, s, index, landing, d, carried->Ok_0);
            law_every_dependent_is_repaired(
                t1,
                s,
                index,
                landing,
                dependents,
                k + 1,
                more,
                x - 1,
            );
            let all = r->Ok_0;
            assert(land::repair_from(t1, s, index, landing, dependents, k + 1, more) == (to, r));
            assert(all.specs.take(run.specs.len() as int) =~= run.specs) by {
                assert(all.specs.take(more.specs.len() as int).take(run.specs.len() as int)
                    =~= all.specs.take(run.specs.len() as int));
                assert(more.specs.take(run.specs.len() as int) =~= run.specs);
            }
            assert(all.recorded.take(run.recorded.len() as int) =~= run.recorded) by {
                assert(all.recorded.take(more.recorded.len() as int).take(
                    run.recorded.len() as int,
                ) =~= all.recorded.take(run.recorded.len() as int));
                assert(more.recorded.take(run.recorded.len() as int) =~= run.recorded);
            }
            assert(all.repaired.take(run.repaired.len() as int) =~= run.repaired) by {
                assert(all.repaired.take(more.repaired.len() as int).take(
                    run.repaired.len() as int,
                ) =~= all.repaired.take(run.repaired.len() as int));
                assert(more.repaired.take(run.repaired.len() as int) =~= run.repaired);
            }
            if x == 0 {
                assert(all.specs[run.specs.len() as int] == more.specs.last()) by {
                    assert(all.specs.take(more.specs.len() as int)[run.specs.len() as int]
                        == more.specs[run.specs.len() as int]);
                }
                assert(all.recorded[run.recorded.len() as int] == more.recorded.last()) by {
                    assert(all.recorded.take(more.recorded.len() as int)[run.recorded.len() as int]
                        == more.recorded[run.recorded.len() as int]);
                }
                assert(all.repaired[run.repaired.len() as int] == more.repaired.last()) by {
                    assert(all.repaired.take(more.repaired.len() as int)[run.repaired.len() as int]
                        == more.repaired[run.repaired.len() as int]);
                }
            }
        }
    } else {
        assert(run.specs.take(run.specs.len() as int) =~= run.specs);
        assert(run.recorded.take(run.recorded.len() as int) =~= run.recorded);
        assert(run.repaired.take(run.repaired.len() as int) =~= run.repaired);
    }
}

/// After the merge all repaired branches are pushed at once, together with the deletion of
/// the merged branch and of no other one; and the report names the pull request and the
/// commit that it became.
pub proof fn law_one_push_after_the_merge(
    t: TapeView,
    s: StackView,
    index: usize,
    number: u64,
    pr: PrView,
    opts: LandOptionsView,
    squash: Oid,
    run: RepairsView,
)
    ensures
        ({
            let (to, r) = land::landing_concluded(t, s, index, number, pr, opts, squash, run);
            let n = t.asked.len() as int;
            &&& to.asked.len() > n
            &&& to.asked[n] is Push
            &&& ({
                let specs = to.asked[n]->Push_specs;
                &&& specs.len() == run.specs.len() + 1
                &&& specs.take(run.specs.len() as int) == run.specs
                &&& specs.last().branch == pr.head
                &&& specs.last().oid is None
            })
            &&& r matches Ok(o) ==> {
                &&& o.number == number
                &&& o.squash == squash
                &&& o.repaired == run.repaired
                &&& o.warnings == run.warnings
                &&& text::starts_with(o.title, s.layers[index as int].message.subject)
            }
        }),
{
    let any = |q: RequestView| true;
    let specs = run.specs.push(land::landed_push(pr.head, number));
    let q = RequestView::Push { specs };
    let n = t.asked.len() as int;
    let (to, r) = land::landing_concluded(t, s, index, number, pr, opts, squash, run);
    let (t1, r1) = tape::ask_unit(t, q);
    assert(t1.asked[n] == q);
    assert(specs.take(run.specs.len() as int) =~= run.specs);
    if r1 is Ok {
        tape::lemma_only_start(t1, any);
        landing::lemma_after_push_only(t1, t1, s, index, number, pr, opts, squash, run, any);
        assert(to.asked[n] == q);
    }
    let subject = s.layers[index as int].message.subject;
    let title = land::squash_title(subject, number);
    assert(title.take(subject.len() as int) =~= subject);
}

proof fn lemma_renamed(
    s: StackView,
    layers: Seq<usize>,
    number: u64,
    spec: Seq<char>,
    k: int,
    messages: Seq<MessageView>,
    i: int,
)
    requires
        0 <= k <= layers.len(),
        0 <= i < messages.len() == s.layers.len(),
        forall|m: int| 0 <= m < layers.len() ==> (#[trigger] layers[m]) < messages.len(),
    ensures
        ({
            let all = close::renamed_from(s, layers, number, spec, k, messages);
            &&& all.len() == messages.len()
            &&& all[i].subject == messages[i].subject
            &&& all[i].body == messages[i].body
            &&& trailers::trailer_value(messages[i], trailers::DEPENDS_ON@) == Some(spec)
                ==> trailers::trailer_value(all[i], trailers::DEPENDS_ON@) == Some(spec)
            &&& s.layers[i].dep_spec != Some(DepSpecView::Pr(number)) ==> all[i] == messages[i]
            &&& s.layers[i].dep_spec == Some(DepSpecView::Pr(number)) && (exists|m: int|
                k <= m < layers.len() && #[trigger] layers[m] == i) ==> trailers::trailer_value(
                all[i],
                trailers::DEPENDS_ON@,
            ) == Some(spec)
            &&& !(exists|m: int| k <= m < layers.len() && #[trigger] layers[m] == i) ==> all[i]
                == messages[i]
        }),
    decreases layers.len() - k,
{
    if k < layers.len() {
        let j = layers[k] as int;
        let named = s.layers[j].dep_spec == Some(DepSpecView::Pr(number));
        let more = if named {
            messages.update(j, trailers::with_trailer(messages[j], trailers::DEPENDS_ON@, spec))
        } else {
            messages
        };
        lemma_renamed(s, layers, number, spec, k + 1, more, i);
        trailers::law_get_after_set(messages[j], trailers::DEPENDS_ON@, spec);
        if exists|m: int| k <= m < layers.len() && #[trigger] layers[m] == i {
            let m = choose|m: int| k <= m < layers.len() && #[trigger] layers[m] == i;
            if m > k {
                assert(exists|m: int| k + 1 <= m < layers.len() && #[trigger] layers[m] == i);
            }
        }
        assert(layers[k] == j);
    }
}

/// When a layer is closed, the messages of those on top of it that name its pull request
/// name what it sat on instead; they still say what they said, and all others stay.
pub proof fn law_closed_layer_is_named_no_more(
    s: StackView,
    layers: Seq<usize>,
    number: u64,
    spec: Seq<char>,
    messages: Seq<MessageView>,
    i: int,
)
    requires
        0 <= i < messages.len() == s.layers.len(),
        forall|m: int| 0 <= m < layers.len() ==> (#[trigger] layers[m]) < s.layers.len(),
    ensures
        ({
            let all = close::renamed_from(s, layers, number, spec, 0, messages);
            let named = s.layers[i].dep_spec == Some(DepSpecView::Pr(number)) && exists|m: int|
                0 <= m < layers.len() && #[trigger] layers[m] == i;
            &&& all.len() == messages.len()
            &&& all[i].subject == messages[i].subject
            &&& all[i].body == messages[i].body
            &&& named ==> trailers::trailer_value(all[i], trailers::DEPENDS_ON@) == Some(spec)
            &&& !named ==> all[i] == messages[i]
        }),
{
    lemma_renamed(s, layers, number, spec, 0, messages, i);
}

/// What is recorded of a dependency is what the layer depends on, and only where the
/// message declares one: the trunk by its name and another layer by its pull request.
pub proof fn law_dependency_is_recorded(c: ConfigView, s: StackView, i: int, m: MessageView)
    ensures
        ({
            let after = execution::dep_recorded(c, s, i, m);
            let value = trailers::trailer_value(after, trailers::DEPENDS_ON@);
            &&& after.subject == m.subject
            &&& after.body == m.body
            &&& s.layers[i].dep_spec is None ==> after == m
            &&& s.layers[i].dep_spec is Some && s.layers[i].dep == Dep::Main ==> value == Some(
                c.trunk,
            )
            &&& s.layers[i].dep_spec is Some ==> (s.layers[i].dep matches Dep::Layer(j) ==> (
            s.layers[j as int].pr matches Some(n) ==> value == Some(
                "#"@ + text::decimal(n as nat),
            )))
        }),
{
    match execution::canonical_dep(c, s, i) {
        Some(value) => trailers::law_get_after_set(m, trailers::DEPENDS_ON@, value),
        None => {},
    }
}

} // verus!
