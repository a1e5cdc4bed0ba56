//! Finding the stack, and the trees that its layers should have.

use vstd::prelude::*;

use crate::reference;
use crate::stack;
use crate::tape;
use crate::text;
use crate::trailers;
use crate::config;
use crate::data::{nothing, put, Duplicate};
use crate::oid::Oid;
use crate::reference::{parse_dep_spec, parse_pr_ref, DepSpec};
use crate::stack::{Dep, Layer, Stack};
use crate::tape::{Halt, Merge, Request, Tape};
use crate::text::join_texts;
use crate::trailers::{CommitMessage, DEPENDS_ON, PULL_REQUEST};

verus! {

/// Per-layer trees, indexed by layer.
#[derive(Debug, Clone)]
pub struct Trees {
    /// What the layer's head branch should contain.
    pub effective: Vec<Oid>,
    /// What the layer's base should contain, i.e. the left-hand side of the
    /// patch the pull request ought to display.
    pub dep: Vec<Oid>,
}

#[verifier::ext_equal]
pub struct TreesView {
    pub effective: Seq<Oid>,
    pub dep: Seq<Oid>,
}

impl DeepView for Trees {
    type V = TreesView;

    open spec fn deep_view(&self) -> TreesView {
        TreesView { effective: self.effective@, dep: self.dep@ }
    }
}

/// The pull request that a message names.
pub open spec fn pr_of(m: trailers::MessageView) -> Option<u64> {
    match trailers::trailer_value(m, PULL_REQUEST@) {
        Some(value) => reference::pr_meant(value),
        None => None,
    }
}

/// The dependency that a message declares, if it declares one.
pub open spec fn dep_spec_of(m: trailers::MessageView, trunk: Seq<char>) -> Result<
    Option<reference::DepSpecView>,
    Seq<char>,
> {
    match trailers::trailer_value(m, DEPENDS_ON@) {
        Some(value) => match reference::dep_meant(value, trunk) {
            Ok(spec) => Ok(Some(spec)),
            Err(reason) => Err(reason),
        },
        None => Ok(None),
    }
}

/// The layer that a commit is, its dependency not resolved yet.
pub open spec fn read_layer(t: tape::TapeView, commit: Oid, trunk: Seq<char>) -> (
    tape::TapeView,
    Result<stack::LayerView, tape::HaltView>,
) {
    tape::bind(
        tape::ask_text(t, tape::RequestView::MessageOf { commit }),
        |t: tape::TapeView, raw: Seq<char>|
            {
                let message = trailers::parsed(raw);
                match dep_spec_of(message, trunk) {
                    Err(reason) => tape::refuse(t, reason),
                    Ok(dep_spec) => tape::bind(
                        tape::ask_object(t, tape::RequestView::ParentOf { commit }),
                        |t: tape::TapeView, parent: Oid|
                            tape::done(
                                t,
                                stack::LayerView {
                                    commit,
                                    parent,
                                    message,
                                    pr: pr_of(message),
                                    dep_spec,
                                    dep: Dep::Main,
                                },
                            ),
                    ),
                }
            },
    )
}

pub open spec fn read_layers(
    t: tape::TapeView,
    commits: Seq<Oid>,
    i: int,
    trunk: Seq<char>,
    layers: Seq<stack::LayerView>,
) -> (tape::TapeView, Result<Seq<stack::LayerView>, tape::HaltView>)
    decreases commits.len() - i,
{
    if i < 0 || i >= commits.len() {
        tape::done(t, layers)
    } else {
        tape::bind(
            read_layer(t, commits[i], trunk),
            |t: tape::TapeView, layer: stack::LayerView|
                read_layers(t, commits, i + 1, trunk, layers.push(layer)),
        )
    }
}

/// The highest layer below `n` with the given pull request.
pub open spec fn last_with_pr(layers: Seq<stack::LayerView>, number: u64, n: int) -> Option<usize>
    decreases n,
{
    if n <= 0 {
        None
    } else if layers[n - 1].pr == Some(number) {
        Some((n - 1) as usize)
    } else {
        last_with_pr(layers, number, n - 1)
    }
}

/// The lowest layer from `i` on with the given commit.
pub open spec fn first_with_commit(layers: Seq<stack::LayerView>, commit: Oid, i: int) -> Option<usize>
    decreases layers.len() - i,
{
    if i < 0 || i >= layers.len() {
        None
    } else if layers[i].commit == commit {
        Some(i as usize)
    } else {
        first_with_commit(layers, commit, i + 1)
    }
}

/// What layer `i` depends on.
///
/// Without a declaration it is the layer before it. A declared pull request or
/// commit is looked for among the layers; a pull request that is not there is
/// kept as it is, a commit that is not there is refused.
pub open spec fn resolve_dep(t: tape::TapeView, layers: Seq<stack::LayerView>, i: int) -> (
    tape::TapeView,
    Result<Dep, tape::HaltView>,
) {
    match layers[i].dep_spec {
        None => tape::done(
            t,
            if i == 0 {
                Dep::Main
            } else {
                Dep::Layer((i - 1) as usize)
            },
        ),
        Some(reference::DepSpecView::Main) => tape::done(t, Dep::Main),
        Some(reference::DepSpecView::Pr(n)) => tape::done(
            t,
            match last_with_pr(layers, n, layers.len() as int) {
                Some(j) => Dep::Layer(j),
                None => Dep::ExternalPr(n),
            },
        ),
        Some(reference::DepSpecView::Commit(name)) => tape::bind(
            tape::ask_maybe_object(t, tape::RequestView::FindCommit { name }),
            |t: tape::TapeView, found: Option<Oid>|
                match found {
                    None => tape::refuse(
                        t,
                        "`"@ + DEPENDS_ON@ + ": "@ + name
                            + "` does not name a commit in this repository"@,
                    ),
                    Some(commit) => match first_with_commit(layers, commit, 0) {
                        Some(j) => tape::done(t, Dep::Layer(j)),
                        None => tape::bind(
                            tape::ask_text(t, tape::RequestView::ShortId { commit }),
                            |t: tape::TapeView, short: Seq<char>|
                                tape::refuse(
                                    t,
                                    "`"@ + DEPENDS_ON@ + ": "@ + name + "` resolves to "@ + short
                                        + ", which is not part of this stack"@,
                                ),
                        ),
                    },
                },
        ),
    }
}

/// The refusal of a layer that depends on one that comes later.
pub open spec fn forward_dep(layers: Seq<stack::LayerView>, i: int, j: int) -> Seq<char> {
    "`"@ + layers[i].message.subject + "` declares a dependency on `"@ + layers[j].message.subject
        + "`, which comes later in the stack. Reorder the commits so dependencies come first."@
}

/// The dependencies of the layers from `i` on, after those of the layers before
/// them. Forward references and self-references would make the topological
/// order invalid, and cycles impossible to submit.
pub open spec fn resolve_deps_from(
    t: tape::TapeView,
    layers: Seq<stack::LayerView>,
    i: int,
    deps: Seq<Dep>,
) -> (tape::TapeView, Result<Seq<Dep>, tape::HaltView>)
    decreases layers.len() - i,
{
    if i < 0 || i >= layers.len() {
        tape::done(t, deps)
    } else {
        tape::bind(
            resolve_dep(t, layers, i),
            |t: tape::TapeView, dep: Dep|
                match dep {
                    Dep::Layer(j) => if j >= i {
                        tape::refuse(t, forward_dep(layers, i, j as int))
                    } else {
                        resolve_deps_from(t, layers, i + 1, deps.push(dep))
                    },
                    _ => resolve_deps_from(t, layers, i + 1, deps.push(dep)),
                },
        )
    }
}

/// The layers with the given dependencies.
pub open spec fn with_deps(layers: Seq<stack::LayerView>, deps: Seq<Dep>) -> Seq<stack::LayerView> {
    Seq::new(layers.len(), |i: int| stack::LayerView { dep: deps[i], ..layers[i] })
}

/// The stack between the trunk and `HEAD`.
pub open spec fn discovered(t: tape::TapeView, trunk_oid: Oid, trunk: Seq<char>) -> (
    tape::TapeView,
    Result<stack::StackView, tape::HaltView>,
) {
    tape::bind(
        tape::ask_objects(t, tape::RequestView::CommitsSince { base: trunk_oid }),
        |t: tape::TapeView, commits: Seq<Oid>|
            if commits.len() == 0 {
                tape::done(t, stack::StackView { base: trunk_oid, layers: Seq::empty() })
            } else {
                tape::bind(
                    tape::ask_object(t, tape::RequestView::ParentOf { commit: commits[0] }),
                    |t: tape::TapeView, base: Oid|
                        tape::bind(
                            tape::ask_flag(
                                t,
                                tape::RequestView::IsAncestor { ancestor: base, descendant: trunk_oid },
                            ),
                            |t: tape::TapeView, sits: bool|
                                if !sits {
                                    not_on_trunk(t, base, trunk)
                                } else {
                                    tape::bind(
                                        read_layers(t, commits, 0, trunk, Seq::empty()),
                                        |t: tape::TapeView, layers: Seq<stack::LayerView>|
                                            tape::bind(
                                                resolve_deps_from(t, layers, 0, Seq::empty()),
                                                |t: tape::TapeView, deps: Seq<Dep>|
                                                    tape::done(
                                                        t,
                                                        stack::StackView {
                                                            base,
                                                            layers: with_deps(layers, deps),
                                                        },
                                                    ),
                                            ),
                                    )
                                },
                        ),
                )
            },
    )
}

/// The refusal of a stack whose base is not on the trunk.
pub open spec fn not_on_trunk(t: tape::TapeView, base: Oid, trunk: Seq<char>) -> (
    tape::TapeView,
    Result<stack::StackView, tape::HaltView>,
) {
    tape::bind(
        tape::ask_text(t, tape::RequestView::ShortId { commit: base }),
        |t: tape::TapeView, short: Seq<char>|
            tape::refuse(
                t,
                "the stack is based on "@ + short + ", which is not an ancestor of "@ + trunk
                    + ".\nRun `git pull --rebase` so the stack sits on a commit that exists upstream."@,
            ),
    )
}

fn read_one_layer(t: &mut Tape, commit: Oid, trunk: &str) -> (r: Result<Layer, Halt>)
    ensures
        (final(t)@, tape::outcome(r)) == read_layer(old(t)@, commit, trunk@),
{
    let raw = t.text(Request::MessageOf { commit })?;
    let message = CommitMessage::parse(raw.as_str());
    let pr = match message.get(PULL_REQUEST) {
        Some(value) => parse_pr_ref(value),
        None => None,
    };
    let dep_spec = match message.get(DEPENDS_ON) {
        Some(value) => match parse_dep_spec(value, trunk) {
            Ok(spec) => Some(spec),
            Err(reason) => {
                return Err(Halt::Refused(reason));
            },
        },
        None => None,
    };
    let parent = t.object(Request::ParentOf { commit })?;
    Ok(Layer { commit, parent, message, pr, dep_spec, dep: Dep::Main })
}

fn read_all_layers(t: &mut Tape, commits: &Vec<Oid>, trunk: &str) -> (r: Result<Vec<Layer>, Halt>)
    ensures
        (final(t)@, tape::outcome(r)) == read_layers(old(t)@, commits@, 0, trunk@, Seq::empty()),
{
    let mut layers: Vec<Layer> = nothing();
    let mut i: usize = 0;
    while i < commits.len()
        invariant
            i <= commits@.len(),
            read_layers(t@, commits@, i as int, trunk@, layers.deep_view()) == read_layers(
                old(t)@,
                commits@,
                0,
                trunk@,
                Seq::empty(),
            ),
        decreases commits@.len() - i,
    {
        let layer = read_one_layer(t, commits[i], trunk)?;
        put(&mut layers, layer);
        i = i + 1;
    }
    Ok(layers)
}

fn highest_with_pr(layers: &Vec<Layer>, number: u64) -> (r: Option<usize>)
    ensures
        r == last_with_pr(layers.deep_view(), number, layers@.len() as int),
        r matches Some(j) ==> j < layers@.len(),
{
    let mut n: usize = layers.len();
    while n > 0
        invariant
            n <= layers@.len(),
            last_with_pr(layers.deep_view(), number, n as int) == last_with_pr(
                layers.deep_view(),
                number,
                layers@.len() as int,
            ),
        decreases n,
    {
        assert(layers.deep_view()[n - 1].pr == layers@[n - 1].pr);
        match layers[n - 1].pr {
            Some(pr) => if pr == number {
                return Some(n - 1);
            },
            None => {},
        }
        n = n - 1;
    }
    None
}

fn lowest_with_commit(layers: &Vec<Layer>, commit: Oid) -> (r: Option<usize>)
    ensures
        r == first_with_commit(layers.deep_view(), commit, 0),
        r matches Some(j) ==> j < layers@.len(),
{
    let mut i: usize = 0;
    while i < layers.len()
        invariant
            i <= layers@.len(),
            first_with_commit(layers.deep_view(), commit, i as int) == first_with_commit(
                layers.deep_view(),
                commit,
                0,
            ),
        decreases layers@.len() - i,
    {
        assert(layers.deep_view()[i as int].commit == layers@[i as int].commit);
        if layers[i].commit == commit {
            return Some(i);
        }
        i = i + 1;
    }
    None
}

fn resolve_one_dep(t: &mut Tape, layers: &Vec<Layer>, i: usize) -> (r: Result<Dep, Halt>)
    requires
        i < layers@.len(),
    ensures
        ({
            let spec = resolve_dep(old(t)@, layers.deep_view(), i as int);
            &&& final(t)@ == spec.0
            &&& match r {
                Ok(dep) => spec.1 == Ok::<Dep, tape::HaltView>(dep),
                Err(h) => spec.1 == Err::<Dep, tape::HaltView>(h.deep_view()),
            }
        }),
        r matches Ok(Dep::Layer(j)) ==> j < layers@.len(),
{
    let layer = &layers[i];
    assert(layers.deep_view()[i as int] == layer.deep_view());
    match &layer.dep_spec {
        None => Ok(
            if i == 0 {
                Dep::Main
            } else {
                Dep::Layer(i - 1)
            },
        ),
        Some(DepSpec::Main) => Ok(Dep::Main),
        Some(DepSpec::Pr(n)) => match highest_with_pr(layers, *n) {
            Some(j) => Ok(Dep::Layer(j)),
            None => Ok(Dep::ExternalPr(*n)),
        },
        Some(DepSpec::Commit(name)) => {
            let found = t.maybe_object(Request::FindCommit { name: name.clone() })?;
            let mut reason = "`".to_owned();
            reason.append(DEPENDS_ON);
            reason.append(": ");
            reason.append(name.as_str());
            match found {
                None => {
                    reason.append("` does not name a commit in this repository");
                    Err(Halt::Refused(reason))
                },
                Some(commit) => match lowest_with_commit(layers, commit) {
                    Some(j) => Ok(Dep::Layer(j)),
                    None => {
                        let short = t.text(Request::ShortId { commit })?;
                        reason.append("` resolves to ");
                        reason.append(short.as_str());
                        reason.append(", which is not part of this stack");
                        Err(Halt::Refused(reason))
                    },
                },
            }
        },
    }
}

fn forward_dep_text(layers: &Vec<Layer>, i: usize, j: usize) -> (r: String)
    requires
        i < layers@.len(),
        j < layers@.len(),
    ensures
        r@ == forward_dep(layers.deep_view(), i as int, j as int),
{
    let mut reason = "`".to_owned();
    reason.append(layers[i].subject());
    reason.append("` declares a dependency on `");
    reason.append(layers[j].subject());
    reason.append(
        "`, which comes later in the stack. Reorder the commits so dependencies come first.",
    );
    reason
}

fn resolve_all_deps(t: &mut Tape, layers: &Vec<Layer>) -> (r: Result<Vec<Dep>, Halt>)
    ensures
        ({
            let spec = resolve_deps_from(old(t)@, layers.deep_view(), 0, Seq::empty());
            &&& final(t)@ == spec.0
            &&& match r {
                Ok(deps) => spec.1 == Ok::<Seq<Dep>, tape::HaltView>(deps@) && deps@.len() == layers@.len()
                    && forall|i: int|
                    0 <= i < deps@.len() ==> match #[trigger] deps@[i] {
                        Dep::Layer(j) => j < i,
                        _ => true,
                    },
                Err(h) => spec.1 == Err::<Seq<Dep>, tape::HaltView>(h.deep_view()),
            }
        }),
{
    let mut deps: Vec<Dep> = Vec::new();
    let mut i: usize = 0;
    assert(deps@ =~= Seq::empty());
    while i < layers.len()
        invariant
            i <= layers@.len(),
            deps@.len() == i,
            forall|k: int|
                0 <= k < deps@.len() ==> match #[trigger] deps@[k] {
                    Dep::Layer(j) => j < k,
                    _ => true,
                },
            resolve_deps_from(t@, layers.deep_view(), i as int, deps@) == resolve_deps_from(
                old(t)@,
                layers.deep_view(),
                0,
                Seq::empty(),
            ),
        decreases layers@.len() - i,
    {
        let dep = resolve_one_dep(t, layers, i)?;
        match dep {
            Dep::Layer(j) => if j >= i {
                return Err(Halt::Refused(forward_dep_text(layers, i, j)));
            },
            _ => {},
        }
        deps.push(dep);
        i = i + 1;
    }
    Ok(deps)
}

fn apply_deps(layers: Vec<Layer>, deps: &Vec<Dep>) -> (r: Vec<Layer>)
    requires
        deps@.len() == layers@.len(),
    ensures
        r.deep_view() == with_deps(layers.deep_view(), deps@),
{
    let mut out: Vec<Layer> = nothing();
    let mut i: usize = 0;
    while i < layers.len()
        invariant
            i <= layers@.len() == deps@.len(),
            out.deep_view() == with_deps(layers.deep_view(), deps@).take(i as int),
        decreases layers@.len() - i,
    {
        let mut layer = layers[i].duplicate();
        layer.dep = deps[i];
        put(&mut out, layer);
        assert(out.deep_view() =~= with_deps(layers.deep_view(), deps@).take(i + 1));
        i = i + 1;
    }
    assert(with_deps(layers.deep_view(), deps@).take(i as int) =~= with_deps(
        layers.deep_view(),
        deps@,
    ));
    out
}

/// The tree that the base of layer `i` should have, given the effective trees
/// of the layers below it.
pub open spec fn base_tree(t: tape::TapeView, s: stack::StackView, i: int, effective: Seq<Oid>) -> (
    tape::TapeView,
    Result<Oid, tape::HaltView>,
) {
    match s.layers[i].dep {
        Dep::Layer(j) => tape::done(t, effective[j as int]),
        _ => tape::ask_object(t, tape::RequestView::TreeOf { commit: s.base }),
    }
}

/// The refusal of a layer that does not apply on top of what it depends on.
pub open spec fn does_not_apply(subject: Seq<char>, files: Seq<Seq<char>>) -> Seq<char> {
    "`"@ + subject + "` does not apply on top of its declared dependency (conflicts in "@ + (
    if files.len() == 0 {
        "<unknown>"@
    } else {
        text::join(files, ", "@)
    }) + ").\nIt probably depends on a layer between them; adjust its `"@ + DEPENDS_ON@
        + ":` trailer."@
}

/// The tree that layer `i` should have on top of the tree `base`: its own where
/// that is what it sits on, and otherwise its own change applied there.
pub open spec fn tree_on(t: tape::TapeView, s: stack::StackView, i: int, base: Oid) -> (
    tape::TapeView,
    Result<Oid, tape::HaltView>,
) {
    let layer = s.layers[i];
    tape::bind(
        tape::ask_object(t, tape::RequestView::TreeOf { commit: layer.parent }),
        |t: tape::TapeView, local: Oid|
            tape::bind(
                tape::ask_object(t, tape::RequestView::TreeOf { commit: layer.commit }),
                |t: tape::TapeView, own: Oid|
                    if base == local {
                        tape::done(t, own)
                    } else {
                        tape::bind(
                            tape::ask_merge(
                                t,
                                tape::RequestView::MergeTrees { base: local, ours: base, theirs: own },
                            ),
                            |t: tape::TapeView, merge: tape::MergeView|
                                match merge {
                                    tape::MergeView::Clean(tree) => tape::done(t, tree),
                                    tape::MergeView::Conflicts(files) => tape::refuse(
                                        t,
                                        does_not_apply(layer.message.subject, files),
                                    ),
                                },
                        )
                    },
            ),
    )
}

/// The trees of the layers from `i` on, after those of the layers before them.
pub open spec fn trees_from(t: tape::TapeView, s: stack::StackView, i: int, trees: TreesView) -> (
    tape::TapeView,
    Result<TreesView, tape::HaltView>,
)
    decreases s.layers.len() - i,
{
    if i < 0 || i >= s.layers.len() {
        tape::done(t, trees)
    } else {
        tape::bind(
            base_tree(t, s, i, trees.effective),
            |t: tape::TapeView, base: Oid|
                tape::bind(
                    tree_on(t, s, i, base),
                    |t: tape::TapeView, tree: Oid|
                        trees_from(
                            t,
                            s,
                            i + 1,
                            TreesView {
                                effective: trees.effective.push(tree),
                                dep: trees.dep.push(base),
                            },
                        ),
                ),
        )
    }
}

/// The trees of all layers.
pub open spec fn trees_of(t: tape::TapeView, s: stack::StackView) -> (tape::TapeView, Result<TreesView, tape::HaltView>) {
    trees_from(t, s, 0, TreesView { effective: Seq::empty(), dep: Seq::empty() })
}

/// The tree that the head branch of layer `i` should have, worked out from the
/// layers it depends on alone.
pub open spec fn effective_tree_of(t: tape::TapeView, s: stack::StackView, i: int) -> (
    tape::TapeView,
    Result<Oid, tape::HaltView>,
)
    decreases i, 1int,
{
    tape::bind(dep_tree_of(t, s, i), |t: tape::TapeView, base: Oid| tree_on(t, s, i, base))
}

/// The tree that the base of layer `i` should have.
pub open spec fn dep_tree_of(t: tape::TapeView, s: stack::StackView, i: int) -> (
    tape::TapeView,
    Result<Oid, tape::HaltView>,
)
    decreases i, 0int,
{
    match s.layers[i].dep {
        Dep::Layer(j) => if j < i {
            effective_tree_of(t, s, j as int)
        } else {
            tape::done(t, s.base)
        },
        _ => tape::ask_object(t, tape::RequestView::TreeOf { commit: s.base }),
    }
}

impl Stack {
    /// Discovers the stack between `trunk_oid` and `HEAD`.
    pub fn discover(t: &mut Tape, trunk_oid: Oid, trunk: &str) -> (r: Result<Stack, Halt>)
        ensures
            (final(t)@, tape::outcome(r)) == discovered(old(t)@, trunk_oid, trunk@),
            r matches Ok(s) ==> stack::well_formed(s@),
    {
        let commits = t.objects(Request::CommitsSince { base: trunk_oid })?;
        assert(commits.deep_view() =~= commits@);
        if commits.len() == 0 {
            let layers: Vec<Layer> = nothing();
            return Ok(Stack { base: trunk_oid, layers });
        }
        let base = t.object(Request::ParentOf { commit: commits[0] })?;
        if !t.flag(Request::IsAncestor { ancestor: base, descendant: trunk_oid })? {
            let short = t.text(Request::ShortId { commit: base })?;
            let mut reason = "the stack is based on ".to_owned();
            reason.append(short.as_str());
            reason.append(", which is not an ancestor of ");
            reason.append(trunk);
            reason.append(
                ".\nRun `git pull --rebase` so the stack sits on a commit that exists upstream.",
            );
            return Err(Halt::Refused(reason));
        }
        let layers = read_all_layers(t, &commits, trunk)?;
        let deps = resolve_all_deps(t, &layers)?;
        let layers = apply_deps(layers, &deps);
        Ok(Stack { base, layers })
    }

    fn tree_on_base(&self, t: &mut Tape, i: usize, base: Oid) -> (r: Result<Oid, Halt>)
        requires
            i < self@.layers.len(),
        ensures
            (final(t)@, tape::outcome(r)) == tree_on(old(t)@, self@, i as int, base),
    {
        let layer = &self.layers[i];
        assert(self@.layers[i as int] == layer.deep_view());
        let local = t.object(Request::TreeOf { commit: layer.parent })?;
        let own = t.object(Request::TreeOf { commit: layer.commit })?;

        // Fast path: the declared base already matches the local parent, so the
        // layer's own tree is already correct. This is every layer in a plain
        // linear stack.
        if base == local {
            return Ok(own);
        }
        match t.merge(Request::MergeTrees { base: local, ours: base, theirs: own })? {
            Merge::Clean(tree) => Ok(tree),
            Merge::Conflicts(files) => {
                let mut reason = "`".to_owned();
                reason.append(layer.subject());
                reason.append(
                    "` does not apply on top of its declared dependency (conflicts in ",
                );
                if files.len() == 0 {
                    reason.append("<unknown>");
                } else {
                    assert(text::views(files@) =~= files.deep_view());
                    reason.append(join_texts(&files, ", ").as_str());
                }
                reason.append(
                    ").\nIt probably depends on a layer between them; adjust its `",
                );
                reason.append(DEPENDS_ON);
                reason.append(":` trailer.");
                Err(Halt::Refused(reason))
            },
        }
    }

    /// Effective tree and dependency tree for every layer, in stack order.
    pub fn all_trees(&self, t: &mut Tape) -> (r: Result<Trees, Halt>)
        requires
            stack::well_formed(self@),
        ensures
            (final(t)@, tape::outcome(r)) == trees_of(old(t)@, self@),
            r matches Ok(trees) ==> trees.effective@.len() == self@.layers.len()
                && trees.dep@.len() == self@.layers.len(),
    {
        let mut trees = Trees { effective: Vec::new(), dep: Vec::new() };
        assert(trees.effective@ =~= Seq::empty());
        assert(trees.dep@ =~= Seq::empty());
        let mut i: usize = 0;
        while i < self.layers.len()
            invariant
                i <= self.layers@.len(),
                stack::well_formed(self@),
                trees.effective@.len() == i,
                trees.dep@.len() == i,
                trees_from(t@, self@, i as int, trees.deep_view()) == trees_of(old(t)@, self@),
            decreases self.layers@.len() - i,
        {
            assert(self@.layers[i as int].dep == self.layers@[i as int].dep);
            let base = match self.layers[i].dep {
                Dep::Layer(j) => trees.effective[j],
                _ => t.object(Request::TreeOf { commit: self.base })?,
            };
            let tree = self.tree_on_base(t, i, base)?;
            trees.effective.push(tree);
            trees.dep.push(base);
            i = i + 1;
        }
        Ok(trees)
    }

    /// The tree the layer's head branch should have.
    ///
    /// For the common case where a layer depends on its immediate predecessor,
    /// this is just the local commit's tree and no merge is performed.
    pub fn effective_tree(&self, t: &mut Tape, i: usize) -> (r: Result<Oid, Halt>)
        requires
            stack::well_formed(self@),
            i < self@.layers.len(),
        ensures
            (final(t)@, tape::outcome(r)) == effective_tree_of(old(t)@, self@, i as int),
        decreases i, 1int,
    {
        let base = self.dep_tree(t, i)?;
        self.tree_on_base(t, i, base)
    }

    /// The tree the layer's *base* should have, i.e. the effective tree of
    /// whatever it depends on.
    ///
    /// This is the left-hand side of the patch the pull request ought to
    /// display, and it is computed purely from local state, deliberately not
    /// from the remote branch tip, which may be stale.
    pub fn dep_tree(&self, t: &mut Tape, i: usize) -> (r: Result<Oid, Halt>)
        requires
            stack::well_formed(self@),
            i < self@.layers.len(),
        ensures
            (final(t)@, tape::outcome(r)) == dep_tree_of(old(t)@, self@, i as int),
        decreases i, 0int,
    {
        assert(self@.layers[i as int].dep == self.layers@[i as int].dep);
        match self.layers[i].dep {
            Dep::Layer(j) => self.effective_tree(t, j),
            _ => t.object(Request::TreeOf { commit: self.base }),
        }
    }
}

pub broadcast proof fn lemma_read_layer_only(
    from: tape::TapeView,
    t: tape::TapeView,
    commit: Oid,
    trunk: Seq<char>,
    allowed: spec_fn(tape::RequestView) -> bool,
)
    requires
        #[trigger] tape::only(from, t, allowed),
        tape::may_look(allowed),
    ensures
        tape::only(from, (#[trigger] read_layer(t, commit, trunk)).0, allowed),
{
    broadcast use tape::lemma_only_ask;

}

pub broadcast proof fn lemma_read_layers_only(
    from: tape::TapeView,
    t: tape::TapeView,
    commits: Seq<Oid>,
    i: int,
    trunk: Seq<char>,
    layers: Seq<stack::LayerView>,
    allowed: spec_fn(tape::RequestView) -> bool,
)
    requires
        #[trigger] tape::only(from, t, allowed),
        tape::may_look(allowed),
    ensures
        tape::only(from, (#[trigger] read_layers(t, commits, i, trunk, layers)).0, allowed),
    decreases commits.len() - i,
{
    broadcast use {tape::lemma_only_ask, lemma_read_layer_only};

    if 0 <= i < commits.len() {
        let (t1, layer) = read_layer(t, commits[i], trunk);
        if layer is Ok {
            lemma_read_layers_only(
                from,
                t1,
                commits,
                i + 1,
                trunk,
                layers.push(layer->Ok_0),
                allowed,
            );
        }
    }
}

pub broadcast proof fn lemma_resolve_dep_only(
    from: tape::TapeView,
    t: tape::TapeView,
    layers: Seq<stack::LayerView>,
    i: int,
    allowed: spec_fn(tape::RequestView) -> bool,
)
    requires
        #[trigger] tape::only(from, t, allowed),
        tape::may_look(allowed),
    ensures
        tape::only(from, (#[trigger] resolve_dep(t, layers, i)).0, allowed),
{
    broadcast use tape::lemma_only_ask;

}

pub broadcast proof fn lemma_resolve_deps_from_only(
    from: tape::TapeView,
    t: tape::TapeView,
    layers: Seq<stack::LayerView>,
    i: int,
    deps: Seq<Dep>,
    allowed: spec_fn(tape::RequestView) -> bool,
)
    requires
        #[trigger] tape::only(from, t, allowed),
        tape::may_look(allowed),
    ensures
        tape::only(from, (#[trigger] resolve_deps_from(t, layers, i, deps)).0, allowed),
    decreases layers.len() - i,
{
    broadcast use {tape::lemma_only_ask, lemma_resolve_dep_only};

    if 0 <= i < layers.len() {
        let (t1, dep) = resolve_dep(t, layers, i);
        if dep is Ok {
            lemma_resolve_deps_from_only(
                from,
                t1,
                layers,
                i + 1,
                deps.push(dep->Ok_0),
                allowed,
            );
        }
    }
}

pub broadcast proof fn lemma_not_on_trunk_only(
    from: tape::TapeView,
    t: tape::TapeView,
    base: Oid,
    trunk: Seq<char>,
    allowed: spec_fn(tape::RequestView) -> bool,
)
    requires
        #[trigger] tape::only(from, t, allowed),
        tape::may_look(allowed),
    ensures
        tape::only(from, (#[trigger] not_on_trunk(t, base, trunk)).0, allowed),
{
    broadcast use tape::lemma_only_ask;

}

pub broadcast proof fn lemma_discovered_only(
    from: tape::TapeView,
    t: tape::TapeView,
    trunk_oid: Oid,
    trunk: Seq<char>,
    allowed: spec_fn(tape::RequestView) -> bool,
)
    requires
        #[trigger] tape::only(from, t, allowed),
        tape::may_look(allowed),
    ensures
        tape::only(from, (#[trigger] discovered(t, trunk_oid, trunk)).0, allowed),
{
    broadcast use {tape::lemma_only_ask, lemma_read_layers_only, lemma_resolve_deps_from_only, lemma_not_on_trunk_only};

}

pub broadcast proof fn lemma_base_tree_only(
    from: tape::TapeView,
    t: tape::TapeView,
    s: stack::StackView,
    i: int,
    effective: Seq<Oid>,
    allowed: spec_fn(tape::RequestView) -> bool,
)
    requires
        #[trigger] tape::only(from, t, allowed),
        tape::may_look(allowed),
    ensures
        tape::only(from, (#[trigger] base_tree(t, s, i, effective)).0, allowed),
{
    broadcast use tape::lemma_only_ask;

}

pub broadcast proof fn lemma_tree_on_only(
    from: tape::TapeView,
    t: tape::TapeView,
    s: stack::StackView,
    i: int,
    base: Oid,
    allowed: spec_fn(tape::RequestView) -> bool,
)
    requires
        #[trigger] tape::only(from, t, allowed),
        tape::may_look(allowed),
    ensures
        tape::only(from, (#[trigger] tree_on(t, s, i, base)).0, allowed),
{
    broadcast use tape::lemma_only_ask;

}

pub broadcast proof fn lemma_trees_from_only(
    from: tape::TapeView,
    t: tape::TapeView,
    s: stack::StackView,
    i: int,
    trees: TreesView,
    allowed: spec_fn(tape::RequestView) -> bool,
)
    requires
        #[trigger] tape::only(from, t, allowed),
        tape::may_look(allowed),
    ensures
        tape::only(from, (#[trigger] trees_from(t, s, i, trees)).0, allowed),
    decreases s.layers.len() - i,
{
    broadcast use {tape::lemma_only_ask, lemma_base_tree_only, lemma_tree_on_only};

    if 0 <= i < s.layers.len() {
        let (t1, base) = base_tree(t, s, i, trees.effective);
        if base is Ok {
            let (t2, tree) = tree_on(t1, s, i, base->Ok_0);
            if tree is Ok {
                lemma_trees_from_only(
                    from,
                    t2,
                    s,
                    i + 1,
                    TreesView {
                        effective: trees.effective.push(tree->Ok_0),
                        dep: trees.dep.push(base->Ok_0),
                    },
                    allowed,
                );
            }
        }
    }
}

pub broadcast proof fn lemma_trees_of_only(
    from: tape::TapeView,
    t: tape::TapeView,
    s: stack::StackView,
    allowed: spec_fn(tape::RequestView) -> bool,
)
    requires
        #[trigger] tape::only(from, t, allowed),
        tape::may_look(allowed),
    ensures
        tape::only(from, (#[trigger] trees_of(t, s)).0, allowed),
{
    broadcast use {tape::lemma_only_ask, lemma_trees_from_only};

}

/// A message with the web page of a pull request in it is that of the pull
/// request.
pub proof fn law_linked_pr_is_found(m: trailers::MessageView, c: config::ConfigView, n: u64)
    requires
        reference::is_name(c.owner),
        reference::is_name(c.repo),
    ensures
        pr_of(trailers::with_trailer(m, PULL_REQUEST@, config::pr_url(c, n))) == Some(n),
        pr_of(trailers::for_branch(m)) is None,
{
    trailers::law_get_after_set(m, PULL_REQUEST@, config::pr_url(c, n));
    trailers::law_for_branch(m);
    reference::law_url_names_pr(c, n);
}

proof fn lemma_trees_from(t: tape::TapeView, s: stack::StackView, i: int, trees: TreesView)
    requires
        stack::well_formed(s),
        0 <= i <= s.layers.len(),
        trees.effective.len() == i,
        trees.dep.len() == i,
        forall|k: int|
            0 <= k < i ==> (s.layers[k].dep matches Dep::Layer(j) ==> #[trigger] trees.dep[k]
                == trees.effective[j as int]),
    ensures
        trees_from(t, s, i, trees).1 matches Ok(all) ==> all.effective.len() == s.layers.len()
            && all.dep.len() == s.layers.len() && (forall|k: int|
            0 <= k < s.layers.len() ==> (s.layers[k].dep matches Dep::Layer(j)
                ==> #[trigger] all.dep[k] == all.effective[j as int])),
    decreases s.layers.len() - i,
{
    if i < s.layers.len() {
        let (t1, base) = base_tree(t, s, i, trees.effective);
        if base is Ok {
            let (t2, tree) = tree_on(t1, s, i, base->Ok_0);
            if tree is Ok {
                let more = TreesView {
                    effective: trees.effective.push(tree->Ok_0),
                    dep: trees.dep.push(base->Ok_0),
                };
                assert forall|k: int| 0 <= k < i + 1 implies (s.layers[k].dep matches Dep::Layer(j)
                    ==> #[trigger] more.dep[k] == more.effective[j as int]) by {
                    assert(s.layers[k].dep matches Dep::Layer(j) ==> j < k);
                    if k < i {
                        assert(more.dep[k] == trees.dep[k]);
                    }
                }
                lemma_trees_from(t2, s, i + 1, more);
            }
        }
    }
}

/// Every layer is taken on top of exactly what the layer that it depends on comes
/// to.
pub proof fn law_trees_stack_up(t: tape::TapeView, s: stack::StackView)
    requires
        stack::well_formed(s),
    ensures
        trees_of(t, s).1 matches Ok(all) ==> all.effective.len() == s.layers.len() && all.dep.len()
            == s.layers.len() && (forall|k: int|
            0 <= k < s.layers.len() ==> (s.layers[k].dep matches Dep::Layer(j)
                ==> #[trigger] all.dep[k] == all.effective[j as int])),
{
    lemma_trees_from(t, s, 0, TreesView { effective: Seq::empty(), dep: Seq::empty() });
}

} // verus!
