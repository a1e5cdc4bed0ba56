//! What is promised of the stack that is found between the trunk and `HEAD`.

use vstd::prelude::*;

use crate::discovery;
use crate::oid::Oid;
use crate::reference;
use crate::reference::DepSpecView;
use crate::stack::{Dep, LayerView};
use crate::tape;
use crate::tape::{ReplyView, RequestView, TapeView};
use crate::trailers;

verus! {

/// A layer is what its commit says.
pub open spec fn as_committed(t: TapeView, l: LayerView, commit: Oid, trunk: Seq<char>) -> bool {
    &&& l.commit == commit
    &&& exists|raw: Seq<char>|
        l.message == trailers::parsed(raw) && #[trigger] tape::told(
            t,
            RequestView::MessageOf { commit },
            ReplyView::Text(raw),
        )
    &&& tape::told(t, RequestView::ParentOf { commit }, ReplyView::Object(l.parent))
    &&& l.pr == match trailers::trailer_value(l.message, trailers::PULL_REQUEST@) {
        Some(value) => reference::pr_meant(value),
        None => None,
    }
    &&& match trailers::trailer_value(l.message, trailers::DEPENDS_ON@) {
        Some(value) => l.dep_spec is Some && reference::dep_meant(value, trunk) == Ok::<
            DepSpecView,
            Seq<char>,
        >(l.dep_spec->0),
        None => l.dep_spec is None,
    }
}

/// Layer `i` depends on what its message declares, and without a declaration on the layer
/// right below it; the bottom one then sits on the trunk. What a layer depends on comes
/// before it.
pub open spec fn depends_as_declared(t: TapeView, layers: Seq<LayerView>, i: int, dep: Dep) -> bool {
    &&& dep matches Dep::Layer(j) ==> j < i
    &&& match layers[i].dep_spec {
        None => if i == 0 {
            dep == Dep::Main
        } else {
            dep == Dep::Layer((i - 1) as usize)
        },
        Some(DepSpecView::Main) => dep == Dep::Main,
        Some(DepSpecView::Pr(n)) => match dep {
            Dep::Layer(j) => layers[j as int].pr == Some(n),
            Dep::ExternalPr(m) => m == n && forall|k: int|
                0 <= k < layers.len() ==> (#[trigger] layers[k]).pr != Some(n),
            Dep::Main => false,
        },
        Some(DepSpecView::Commit(name)) => match dep {
            Dep::Layer(j) => tape::told(
                t,
                RequestView::FindCommit { name },
                ReplyView::MaybeObject(Some(layers[j as int].commit)),
            ),
            _ => false,
        },
    }
}

proof fn lemma_committed_still(
    from: TapeView,
    to: TapeView,
    l: LayerView,
    commit: Oid,
    trunk: Seq<char>,
)
    requires
        tape::only(from, to, |q: RequestView| true),
        as_committed(from, l, commit, trunk),
    ensures
        as_committed(to, l, commit, trunk),
{
    tape::lemma_said_stays(from, to, |q: RequestView| true);
    let raw = choose|raw: Seq<char>|
        l.message == trailers::parsed(raw) && #[trigger] tape::told(
            from,
            RequestView::MessageOf { commit },
            ReplyView::Text(raw),
        );
    assert(tape::told(to, RequestView::MessageOf { commit }, ReplyView::Text(raw)));
}

spec fn all_committed(
    t: TapeView,
    commits: Seq<Oid>,
    n: int,
    trunk: Seq<char>,
    layers: Seq<LayerView>,
) -> bool {
    &&& layers.len() == n
    &&& forall|j: int|
        0 <= j < n ==> as_committed(t, #[trigger] layers[j], commits[j], trunk)
}

proof fn lemma_all_still(
    from: TapeView,
    to: TapeView,
    commits: Seq<Oid>,
    n: int,
    trunk: Seq<char>,
    layers: Seq<LayerView>,
)
    requires
        tape::only(from, to, |q: RequestView| true),
        all_committed(from, commits, n, trunk, layers),
    ensures
        all_committed(to, commits, n, trunk, layers),
{
    assert forall|j: int| 0 <= j < n implies as_committed(
        to,
        #[trigger] layers[j],
        commits[j],
        trunk,
    ) by {
        lemma_committed_still(from, to, layers[j], commits[j], trunk);
    }
}

proof fn lemma_read(
    t: TapeView,
    commits: Seq<Oid>,
    i: int,
    trunk: Seq<char>,
    layers: Seq<LayerView>,
)
    requires
        0 <= i <= commits.len(),
        all_committed(t, commits, i, trunk, layers),
    ensures
        discovery::read_layers(t, commits, i, trunk, layers).1 matches Ok(all) ==> all_committed(
            discovery::read_layers(t, commits, i, trunk, layers).0,
            commits,
            commits.len() as int,
            trunk,
            all,
        ),
    decreases commits.len() - i,
{
    broadcast use tape::lemma_only_ask;

    let any = |q: RequestView| true;
    tape::lemma_only_start(t, any);
    if i < commits.len() {
        let commit = commits[i];
        let (t2, layer) = discovery::read_layer(t, commit, trunk);
        if layer is Ok {
            let layer = layer->Ok_0;
            let q1 = RequestView::MessageOf { commit };
            let (t1, raw) = tape::ask_text(t, q1);
            let q2 = RequestView::ParentOf { commit };
            tape::lemma_told(t, q1);
            tape::lemma_told(t1, q2);
            assert(tape::told(t1, q1, ReplyView::Text(raw->Ok_0)));
            tape::lemma_only_start(t1, any);
            assert(tape::only(t1, t2, any));
            assert(tape::only(t, t2, any));
            tape::lemma_said_stays(t1, t2, any);
            assert(tape::told(t2, q1, ReplyView::Text(raw->Ok_0)));
            assert(tape::told(t2, q2, ReplyView::Object(layer.parent)));
            lemma_all_still(t, t2, commits, i, trunk, layers);
            let more = layers.push(layer);
            assert(as_committed(t2, layer, commit, trunk));
            assert forall|j: int| 0 <= j < i + 1 implies as_committed(
                t2,
                #[trigger] more[j],
                commits[j],
                trunk,
            ) by {
                if j < i {
                    assert(more[j] == layers[j]);
                }
            }
            lemma_read(t2, commits, i + 1, trunk, more);
        }
    }
}

proof fn lemma_last_with_pr(layers: Seq<LayerView>, number: u64, n: int)
    requires
        0 <= n <= layers.len() <= usize::MAX,
    ensures
        match discovery::last_with_pr(layers, number, n) {
            Some(j) => j < n && layers[j as int].pr == Some(number),
            None => forall|k: int| 0 <= k < n ==> (#[trigger] layers[k]).pr != Some(number),
        },
    decreases n,
{
    if n > 0 {
        lemma_last_with_pr(layers, number, n - 1);
    }
}

proof fn lemma_first_with_commit(layers: Seq<LayerView>, commit: Oid, i: int)
    requires
        0 <= i <= layers.len() <= usize::MAX,
    ensures
        discovery::first_with_commit(layers, commit, i) matches Some(j) ==> j < layers.len()
            && layers[j as int].commit == commit,
    decreases layers.len() - i,
{
    if i < layers.len() {
        lemma_first_with_commit(layers, commit, i + 1);
    }
}

proof fn lemma_declared_still(from: TapeView, to: TapeView, layers: Seq<LayerView>, i: int, dep: Dep)
    requires
        tape::only(from, to, |q: RequestView| true),
        depends_as_declared(from, layers, i, dep),
    ensures
        depends_as_declared(to, layers, i, dep),
{
    tape::lemma_said_stays(from, to, |q: RequestView| true);
}

proof fn lemma_resolve(t: TapeView, layers: Seq<LayerView>, i: int, deps: Seq<Dep>)
    requires
        0 <= i <= layers.len() <= usize::MAX,
        deps.len() == i,
        forall|j: int| 0 <= j < i ==> depends_as_declared(t, layers, j, #[trigger] deps[j]),
    ensures
        ({
            let (to, r) = discovery::resolve_deps_from(t, layers, i, deps);
            &&& tape::only(t, to, |q: RequestView| true)
            &&& r matches Ok(all) ==> all.len() == layers.len() && forall|j: int|
                0 <= j < layers.len() ==> depends_as_declared(to, layers, j, #[trigger] all[j])
        }),
    decreases layers.len() - i,
{
    broadcast use {tape::lemma_only_ask, discovery::lemma_resolve_dep_only};

    let any = |q: RequestView| true;
    tape::lemma_only_start(t, any);
    if i < layers.len() {
        let (t1, dep) = discovery::resolve_dep(t, layers, i);
        assert(tape::may_look(any));
        assert(tape::only(t, t1, any));
        if dep is Ok {
            let dep = dep->Ok_0;
            match layers[i].dep_spec {
                Some(DepSpecView::Pr(n)) => lemma_last_with_pr(layers, n, layers.len() as int),
                Some(DepSpecView::Commit(name)) => {
                    let q = RequestView::FindCommit { name };
                    let (ta, found) = tape::ask_maybe_object(t, q);
                    tape::lemma_told(t, q);
                    assert(tape::told(ta, q, ReplyView::MaybeObject(found->Ok_0)));
                    assert(ta == t1);
                    lemma_first_with_commit(layers, found->Ok_0->0, 0);
                },
                _ => {},
            }
            let forward = dep matches Dep::Layer(j) && j >= i;
            if !forward {
                let more = deps.push(dep);
                assert(depends_as_declared(t1, layers, i, dep));
                assert forall|j: int| 0 <= j < i + 1 implies depends_as_declared(
                    t1,
                    layers,
                    j,
                    #[trigger] more[j],
                ) by {
                    if j < i {
                        assert(more[j] == deps[j]);
                        lemma_declared_still(t, t1, layers, j, deps[j]);
                    }
                }
                lemma_resolve(t1, layers, i + 1, more);
                tape::lemma_only_trans(
                    t,
                    t1,
                    discovery::resolve_deps_from(t, layers, i, deps).0,
                    any,
                );
            }
        }
    }
}

/// The stack that is found is what is committed between the trunk and `HEAD`: one layer
/// for each commit, in their order, each with the message of its commit, the pull request
/// that the message names and the dependency that it declares.
pub proof fn law_stack_is_what_is_committed(t: TapeView, trunk_oid: Oid, trunk: Seq<char>, i: int)
    ensures
        ({
            let (to, r) = discovery::discovered(t, trunk_oid, trunk);
            r matches Ok(s) ==> exists|commits: Seq<Oid>|
                #[trigger] tape::told(
                    to,
                    RequestView::CommitsSince { base: trunk_oid },
                    ReplyView::Objects(commits),
                ) && s.layers.len() == commits.len() && (0 <= i < commits.len() <= usize::MAX ==> {
                    &&& as_committed(to, s.layers[i], commits[i], trunk)
                    &&& depends_as_declared(to, s.layers, i, s.layers[i].dep)
                })
        }),
{
    broadcast use {
        tape::lemma_only_ask,
        discovery::lemma_read_layers_only,
        discovery::lemma_resolve_deps_from_only,
    };

    let any = |q: RequestView| true;
    assert(tape::may_look(any));
    let (to, r) = discovery::discovered(t, trunk_oid, trunk);
    if r is Ok {
        let s = r->Ok_0;
        let q = RequestView::CommitsSince { base: trunk_oid };
        let (t1, commits) = tape::ask_objects(t, q);
        let commits = commits->Ok_0;
        tape::lemma_told(t, q);
        assert(tape::told(t1, q, ReplyView::Objects(commits)));
        if commits.len() > 0 {
            let (t2, base) = tape::ask_object(t1, RequestView::ParentOf { commit: commits[0] });
            let (t3, sits) = tape::ask_flag(
                t2,
                RequestView::IsAncestor { ancestor: base->Ok_0, descendant: trunk_oid },
            );
            let none = Seq::<LayerView>::empty();
            let (t4, layers) = discovery::read_layers(t3, commits, 0, trunk, none);
            let layers = layers->Ok_0;
            lemma_read(t3, commits, 0, trunk, none);
            let (t5, deps) = discovery::resolve_deps_from(t4, layers, 0, Seq::empty());
            let deps = deps->Ok_0;
            assert(t5 == to);
            tape::lemma_only_start(t1, any);
            tape::lemma_only_start(t4, any);
            assert(tape::only(t1, to, any));
            assert(tape::only(t4, to, any));
            tape::lemma_said_stays(t1, to, any);
            assert(tape::told(to, q, ReplyView::Objects(commits)));
            assert(s.layers.len() == commits.len());
            if 0 <= i < commits.len() <= usize::MAX {
                lemma_resolve(t4, layers, 0, Seq::empty());
                lemma_all_still(t4, to, commits, commits.len() as int, trunk, layers);
                assert(as_committed(to, layers[i], commits[i], trunk));
                assert(s.layers[i] == (LayerView { dep: deps[i], ..layers[i] }));
                assert(as_committed(to, s.layers[i], commits[i], trunk));
                assert(depends_as_declared(to, layers, i, deps[i]));
                assert(depends_as_declared(to, s.layers, i, deps[i])) by {
                    assert forall|k: int| 0 <= k < layers.len() implies (#[trigger] s.layers[k]).pr
                        == layers[k].pr && s.layers[k].commit == layers[k].commit by {}
                    if let Dep::Layer(j) = deps[i] {
                        assert(s.layers[j as int].commit == layers[j as int].commit);
                    }
                }
            }
        } else {
            assert(to == t1);
            assert(tape::told(to, q, ReplyView::Objects(commits)));
            assert(s.layers.len() == commits.len());
        }
    }
}

} // verus!
