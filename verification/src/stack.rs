//! The stack model.
//!
//! The stack is the linear run of commits between the trunk and `HEAD`. Local
//! order is always linear (so `git rebase -i` keeps working), but the
//! *declared* dependency graph may be a DAG: a layer can use a `Depends-On:`
//! trailer to stack on an earlier layer other than its immediate predecessor,
//! or directly on the trunk.
//!
//! That is what allows independent layers to land out of order.

use vstd::prelude::*;

use crate::reference;
use crate::trailers;
use crate::data::{nothing, put, Duplicate};
use crate::oid::Oid;
pub use crate::reference::{parse_dep_spec, parse_pr_ref, DepSpec};
use crate::trailers::CommitMessage;

verus! {

/// A dependency resolved against the current stack.
#[derive(Debug, Clone, Copy, PartialEq, Eq, Structural)]
pub enum Dep {
    /// Base is the trunk.
    Main,
    /// Base is the head branch of another layer in this stack.
    Layer(usize),
    /// Referenced a pull request that is not in the local stack.
    ///
    /// Resolved against the state of the pull request: a **merged** reference
    /// becomes [`Dep::Main`]; anything else is an error. It must *not* silently
    /// fall back to "previous layer", which would re-stack the commit onto a
    /// sibling the author explicitly disclaimed.
    ExternalPr(u64),
}

#[derive(Debug, Clone)]
pub struct Layer {
    /// The local commit this layer represents.
    pub commit: Oid,
    /// The local parent of `commit`. May differ from the declared dependency.
    pub parent: Oid,
    pub message: CommitMessage,
    pub pr: Option<u64>,
    /// As written in the commit message, if present.
    pub dep_spec: Option<DepSpec>,
    /// Resolved dependency. Defaults to the previous layer.
    pub dep: Dep,
}

#[verifier::ext_equal]
pub struct LayerView {
    pub commit: Oid,
    pub parent: Oid,
    pub message: trailers::MessageView,
    pub pr: Option<u64>,
    pub dep_spec: Option<reference::DepSpecView>,
    pub dep: Dep,
}

impl DeepView for Layer {
    type V = LayerView;

    open spec fn deep_view(&self) -> LayerView {
        LayerView {
            commit: self.commit,
            parent: self.parent,
            message: self.message@,
            pr: self.pr,
            dep_spec: self.dep_spec.deep_view(),
            dep: self.dep,
        }
    }
}

impl Duplicate for Layer {
    fn duplicate(&self) -> (r: Self) {
        Layer {
            commit: self.commit,
            parent: self.parent,
            message: self.message.clone(),
            pr: self.pr,
            dep_spec: self.dep_spec.duplicate(),
            dep: self.dep,
        }
    }
}

impl Layer {
    pub fn subject(&self) -> (r: &str)
        ensures
            r@ == self.deep_view().message.subject,
    {
        self.message.subject.as_str()
    }
}

#[derive(Debug, Clone)]
pub struct Stack {
    /// The parent of the lowest commit. Must be an ancestor of the trunk.
    pub base: Oid,
    /// Bottom-up; always a valid topological order of the dependency DAG.
    pub layers: Vec<Layer>,
}

#[verifier::ext_equal]
pub struct StackView {
    pub base: Oid,
    pub layers: Seq<LayerView>,
}

impl DeepView for Stack {
    type V = StackView;

    open spec fn deep_view(&self) -> StackView {
        StackView { base: self.base, layers: self.layers.deep_view() }
    }
}

impl View for Stack {
    type V = StackView;

    open spec fn view(&self) -> StackView {
        self.deep_view()
    }
}

impl Duplicate for Stack {
    fn duplicate(&self) -> (r: Self) {
        Stack { base: self.base, layers: self.layers.duplicate() }
    }
}

/// Every layer that depends on another one depends on one below it.
pub open spec fn well_formed(s: StackView) -> bool {
    forall|i: int| #![trigger s.layers[i]]
        0 <= i < s.layers.len() ==> match s.layers[i].dep {
            Dep::Layer(j) => j < i,
            _ => true,
        }
}

/// Layer `j` depends on layer `i`, directly or through other layers.
pub open spec fn depends_on(s: StackView, j: int, i: int) -> bool
    decreases j,
{
    0 <= j < s.layers.len() && match s.layers[j].dep {
        Dep::Layer(k) => k < j && (k == i || depends_on(s, k as int, i)),
        _ => false,
    }
}

/// The layers below `n` that depend on layer `i`, in stack order.
pub open spec fn dependents_below(s: StackView, i: int, n: int) -> Seq<usize>
    decreases n,
{
    if n <= 0 || n <= i + 1 {
        Seq::empty()
    } else if depends_on(s, n - 1, i) {
        dependents_below(s, i, n - 1).push((n - 1) as usize)
    } else {
        dependents_below(s, i, n - 1)
    }
}

/// The layers that depend on layer `i`, in stack order.
pub open spec fn dependents(s: StackView, i: int) -> Seq<usize> {
    dependents_below(s, i, s.layers.len() as int)
}

/// The layers below `n` that name layer `i` as what they depend on.
pub open spec fn direct_below(s: StackView, i: usize, n: int) -> Seq<usize>
    decreases n,
{
    if n <= 0 {
        Seq::empty()
    } else if s.layers[n - 1].dep == Dep::Layer(i) {
        direct_below(s, i, n - 1).push((n - 1) as usize)
    } else {
        direct_below(s, i, n - 1)
    }
}

/// The layers that name layer `i` as what they depend on, in stack order.
pub open spec fn direct_dependents(s: StackView, i: usize) -> Seq<usize> {
    direct_below(s, i, s.layers.len() as int)
}

/// A stack without branches: the bottom layer sits on the trunk and every other
/// one on the layer immediately below it.
pub open spec fn linear(s: StackView) -> bool {
    forall|i: int| #![trigger s.layers[i]]
        0 <= i < s.layers.len() ==> s.layers[i].dep == if i == 0 {
            Dep::Main
        } else {
            Dep::Layer((i - 1) as usize)
        }
}

/// The lowest layer with a pull request that layer `i` reaches through layers
/// with pull requests.
pub open spec fn component_root(s: StackView, i: int) -> int
    decreases i,
{
    match s.layers[i].dep {
        Dep::Layer(j) => if j < i && s.layers[j as int].pr is Some {
            component_root(s, j as int)
        } else {
            i
        },
        _ => i,
    }
}

/// The layers below `n` with a pull request whose component starts at `root`.
pub open spec fn component_below(s: StackView, root: int, n: int) -> Seq<usize>
    decreases n,
{
    if n <= 0 {
        Seq::empty()
    } else if s.layers[n - 1].pr is Some && component_root(s, n - 1) == root {
        component_below(s, root, n - 1).push((n - 1) as usize)
    } else {
        component_below(s, root, n - 1)
    }
}

/// The layers below `n` with a pull request that their component starts at.
pub open spec fn roots_below(s: StackView, n: int) -> Seq<usize>
    decreases n,
{
    if n <= 0 {
        Seq::empty()
    } else if s.layers[n - 1].pr is Some && component_root(s, n - 1) == n - 1 {
        roots_below(s, n - 1).push((n - 1) as usize)
    } else {
        roots_below(s, n - 1)
    }
}

/// The layers with pull requests, grouped by what is connected.
pub open spec fn components_below(s: StackView, n: int) -> Seq<Seq<usize>> {
    roots_below(s, n).map_values(|root: usize| component_below(s, root as int, n))
}

pub open spec fn components(s: StackView) -> Seq<Seq<usize>> {
    components_below(s, s.layers.len() as int)
}

/// The first of the given layers that has a pull request and was not visited.
pub open spec fn first_fresh(s: StackView, kids: Seq<usize>, visited: Seq<bool>, k: int) -> Option<
    usize,
>
    decreases kids.len() - k,
{
    if k < 0 || k >= kids.len() {
        None
    } else if !visited[kids[k] as int] && s.layers[kids[k] as int].pr is Some {
        Some(kids[k])
    } else {
        first_fresh(s, kids, visited, k + 1)
    }
}

/// How many layers were not visited yet.
pub open spec fn unvisited(visited: Seq<bool>) -> nat
    decreases visited.len(),
{
    if visited.len() == 0 {
        0
    } else if visited.last() {
        unvisited(visited.drop_last())
    } else {
        unvisited(visited.drop_last()) + 1
    }
}

/// The chain of pull requests from layer `at` upwards, each layer followed by
/// its lowest dependent that is not in a chain yet.
pub open spec fn climb(s: StackView, at: Option<usize>, visited: Seq<bool>, chain: Seq<u64>) -> (
    Seq<bool>,
    Seq<u64>,
)
    decreases unvisited(visited),
{
    match at {
        None => (visited, chain),
        Some(i) => if i >= visited.len() || visited[i as int] || s.layers[i as int].pr is None {
            (visited, chain)
        } else {
            let now = visited.update(i as int, true);
            proof {
                lemma_unvisited(visited, i as int);
            }
            climb(
                s,
                first_fresh(s, direct_dependents(s, i), now, 0),
                now,
                chain.push(s.layers[i as int].pr->0),
            )
        },
    }
}

/// A chain may start at layer `i`: it does not continue one.
pub open spec fn starts_chain(s: StackView, i: int, visited: Seq<bool>) -> bool {
    !visited[i] && s.layers[i].pr is Some && match s.layers[i].dep {
        Dep::Layer(p) => visited[p as int] || s.layers[p as int].pr is None,
        _ => true,
    }
}

/// The chains that start at layer `i` or above.
pub open spec fn chains_from(s: StackView, i: int, visited: Seq<bool>, chains: Seq<Seq<u64>>) -> Seq<
    Seq<u64>,
>
    decreases s.layers.len() - i,
{
    if i < 0 || i >= s.layers.len() {
        chains
    } else if !starts_chain(s, i, visited) {
        chains_from(s, i + 1, visited, chains)
    } else {
        let (now, chain) = climb(s, Some(i as usize), visited, Seq::empty());
        chains_from(
            s,
            i + 1,
            now,
            if chain.len() >= 2 {
                chains.push(chain)
            } else {
                chains
            },
        )
    }
}

/// The chains of at least two pull requests, each from the bottom up.
pub open spec fn chains(s: StackView) -> Seq<Seq<u64>> {
    chains_from(s, 0, Seq::new(s.layers.len(), |i: int| false), Seq::empty())
}

pub proof fn lemma_unvisited(visited: Seq<bool>, i: int)
    requires
        0 <= i < visited.len(),
        !visited[i],
    ensures
        unvisited(visited.update(i, true)) + 1 == unvisited(visited),
    decreases visited.len(),
{
    let now = visited.update(i, true);
    if i == visited.len() - 1 {
        assert(now.drop_last() =~= visited.drop_last());
    } else {
        assert(now.drop_last() =~= visited.drop_last().update(i, true));
        lemma_unvisited(visited.drop_last(), i);
    }
}

/// Which layers depend on which is decided bottom-up.
proof fn lemma_depends_on(s: StackView, j: int, i: int)
    requires
        depends_on(s, j, i),
    ensures
        i < j,
        0 <= j < s.layers.len(),
    decreases j,
{
    match s.layers[j].dep {
        Dep::Layer(k) => {
            if k != i {
                lemma_depends_on(s, k as int, i);
            }
        },
        _ => {},
    }
}

proof fn lemma_dependents_below(s: StackView, i: int, n: int)
    requires
        0 <= i,
        n <= s.layers.len() <= usize::MAX,
    ensures
        ({
            let d = dependents_below(s, i, n);
            &&& forall|k: int|
                0 <= k < d.len() ==> i < (#[trigger] d[k]) < n && depends_on(s, d[k] as int, i)
            &&& forall|k: int, m: int| 0 <= k < m < d.len() ==> (#[trigger] d[k]) < (#[trigger] d[m])
            &&& forall|j: int|
                0 <= j < n && #[trigger] depends_on(s, j, i) ==> d.contains(j as usize)
        }),
    decreases n,
{
    let d = dependents_below(s, i, n);
    assert forall|j: int| 0 <= j < n && #[trigger] depends_on(s, j, i) implies i < j by {
        lemma_depends_on(s, j, i);
    }
    if n > 0 && n > i + 1 {
        lemma_dependents_below(s, i, n - 1);
        let below = dependents_below(s, i, n - 1);
        assert forall|j: int| 0 <= j < n && #[trigger] depends_on(s, j, i) implies d.contains(
            j as usize,
        ) by {
            if j < n - 1 {
                assert(below.contains(j as usize));
                let k = choose|k: int| 0 <= k < below.len() && below[k] == j as usize;
                assert(d[k] == j as usize);
            } else {
                assert(d[d.len() - 1] == j as usize);
            }
        }
    }
}

/// The dependents of a layer are exactly the layers that depend on it, directly
/// or through others, each of them once and in stack order. A layer depends
/// only on layers below it.
pub proof fn law_dependents(s: StackView, i: int)
    requires
        0 <= i < s.layers.len() <= usize::MAX,
    ensures
        forall|j: int|
            0 <= j < s.layers.len() ==> #[trigger] dependents(s, i).contains(j as usize)
                == depends_on(s, j, i),
        forall|k: int|
            0 <= k < dependents(s, i).len() ==> i < (#[trigger] dependents(s, i)[k])
                < s.layers.len(),
        forall|k: int, m: int|
            0 <= k < m < dependents(s, i).len() ==> (#[trigger] dependents(s, i)[k]) < (
            #[trigger] dependents(s, i)[m]),
{
    lemma_dependents_below(s, i, s.layers.len() as int);
    assert forall|j: int| 0 <= j < s.layers.len() implies #[trigger] dependents(s, i).contains(
        j as usize,
    ) == depends_on(s, j, i) by {
        if dependents(s, i).contains(j as usize) {
            let k = choose|k: int| 0 <= k < dependents(s, i).len() && dependents(s, i)[k] == j as usize;
            assert(depends_on(s, dependents(s, i)[k] as int, i));
        }
    }
}

impl Stack {
    /// Layers that transitively depend on `i`, in stack order.
    ///
    /// This is the set that landing must retarget and repair; siblings are left
    /// alone.
    pub fn dependents_of(&self, i: usize) -> (r: Vec<usize>)
        requires
            i < self@.layers.len(),
        ensures
            r@ == dependents(self@, i as int),
            forall|k: int| 0 <= k < r@.len() ==> i < (#[trigger] r@[k]) < self@.layers.len(),
    {
        let n: usize = self.layers.len();
        proof {
            law_dependents(self@, i as int);
        }
        let mut marked: Vec<bool> = Vec::new();
        let mut k: usize = 0;
        while k <= i
            invariant
                k <= i + 1,
                i < n == self.layers@.len(),
                marked@.len() == k,
                forall|m: int| 0 <= m < k ==> marked@[m] == (m == i),
            decreases i + 1 - k,
        {
            marked.push(k == i);
            k = k + 1;
        }
        let mut out: Vec<usize> = Vec::new();
        let mut j: usize = i + 1;
        proof {
            assert forall|m: int| 0 <= m < j implies #[trigger] marked@[m] == (m == i
                || depends_on(self@, m, i as int)) by {
                if depends_on(self@, m, i as int) {
                    lemma_depends_on(self@, m, i as int);
                }
            }
        }
        while j < n
            invariant
                i < j <= n == self.layers@.len(),
                marked@.len() == j,
                forall|m: int|
                    0 <= m < j ==> #[trigger] marked@[m] == (m == i || depends_on(
                        self@,
                        m,
                        i as int,
                    )),
                out@ == dependents_below(self@, i as int, j as int),
            decreases n - j,
        {
            let depends = match self.layers[j].dep {
                Dep::Layer(k) => k < j && marked[k],
                _ => false,
            };
            assert(self@.layers[j as int].dep == self.layers@[j as int].dep);
            if depends {
                out.push(j);
            }
            marked.push(depends);
            j = j + 1;
        }
        out
    }

    /// Direct dependents of `i` only.
    pub fn direct_dependents_of(&self, i: usize) -> (r: Vec<usize>)
        ensures
            r@ == direct_dependents(self@, i),
            forall|k: int| 0 <= k < r@.len() ==> (#[trigger] r@[k]) < self@.layers.len(),
    {
        let mut out: Vec<usize> = Vec::new();
        let mut j: usize = 0;
        while j < self.layers.len()
            invariant
                j <= self.layers@.len(),
                out@ == direct_below(self@, i, j as int),
                forall|k: int| 0 <= k < out@.len() ==> (#[trigger] out@[k]) < self.layers@.len(),
            decreases self.layers@.len() - j,
        {
            assert(self@.layers[j as int].dep == self.layers@[j as int].dep);
            if self.layers[j].dep == Dep::Layer(i) {
                out.push(j);
            }
            j = j + 1;
        }
        out
    }

    /// Ordered bottom-to-top chains of pull request numbers, of two at least.
    pub fn pr_chains(&self) -> (r: Vec<Vec<u64>>)
        requires
            well_formed(self@),
        ensures
            r.deep_view() == chains(self@),
    {
        let n = self.layers.len();
        let mut visited: Vec<bool> = Vec::new();
        while visited.len() < n
            invariant
                visited@.len() <= n,
                forall|k: int| 0 <= k < visited@.len() ==> !visited@[k],
            decreases n - visited@.len(),
        {
            visited.push(false);
        }
        assert(visited@ =~= Seq::new(n as nat, |i: int| false));
        let mut out: Vec<Vec<u64>> = nothing();
        let mut start: usize = 0;
        while start < n
            invariant
                start <= n == self.layers@.len(),
                visited@.len() == n,
                well_formed(self@),
                chains_from(self@, start as int, visited@, out.deep_view()) == chains(self@),
            decreases n - start,
        {
            let layer = &self.layers[start];
            assert(self@.layers[start as int] == layer.deep_view());
            let is_root = !visited[start] && layer.pr.is_some() && match layer.dep {
                Dep::Layer(p) => visited[p] || self.layers[p].pr.is_none(),
                _ => true,
            };
            assert(is_root == starts_chain(self@, start as int, visited@));
            if is_root {
                let chain = self.climb_from(start, &mut visited);
                if chain.len() >= 2 {
                    assert(chain.deep_view() =~= chain@);
                    put(&mut out, chain);
                }
            }
            start = start + 1;
        }
        out
    }

    /// The chain from layer `start` upwards.
    fn climb_from(&self, start: usize, visited: &mut Vec<bool>) -> (r: Vec<u64>)
        requires
            start < self@.layers.len(),
            old(visited)@.len() == self@.layers.len(),
        ensures
            (final(visited)@, r@) == climb(self@, Some(start), old(visited)@, Seq::empty()),
            final(visited)@.len() == old(visited)@.len(),
    {
        let mut chain: Vec<u64> = Vec::new();
        let mut at: Option<usize> = Some(start);
        let mut going = true;
        while going
            invariant
                visited@.len() == self@.layers.len(),
                at matches Some(i) ==> i < self@.layers.len(),
                going ==> climb(self@, at, visited@, chain@) == climb(
                    self@,
                    Some(start),
                    old(visited)@,
                    Seq::empty(),
                ),
                !going ==> (visited@, chain@) == climb(
                    self@,
                    Some(start),
                    old(visited)@,
                    Seq::empty(),
                ),
            decreases unvisited(visited@) + if going { 1int } else { 0int },
        {
            match at {
                None => {
                    going = false;
                },
                Some(i) => {
                    assert(self@.layers[i as int].pr == self.layers@[i as int].pr);
                    match self.layers[i].pr {
                        None => {
                            going = false;
                        },
                        Some(number) => {
                            if visited[i] {
                                going = false;
                            } else {
                                proof {
                                    lemma_unvisited(visited@, i as int);
                                }
                                visited.set(i, true);
                                chain.push(number);
                                at = self.first_fresh_of(&self.direct_dependents_of(i), visited);
                            }
                        },
                    }
                },
            }
        }
        chain
    }

    fn first_fresh_of(&self, kids: &Vec<usize>, visited: &Vec<bool>) -> (r: Option<usize>)
        requires
            forall|k: int| 0 <= k < kids@.len() ==> (#[trigger] kids@[k]) < self@.layers.len(),
            visited@.len() == self@.layers.len(),
        ensures
            r == first_fresh(self@, kids@, visited@, 0),
            r matches Some(i) ==> i < self@.layers.len(),
    {
        let mut k: usize = 0;
        while k < kids.len()
            invariant
                k <= kids@.len(),
                forall|k: int| 0 <= k < kids@.len() ==> (#[trigger] kids@[k]) < self@.layers.len(),
                visited@.len() == self@.layers.len(),
                first_fresh(self@, kids@, visited@, k as int) == first_fresh(
                    self@,
                    kids@,
                    visited@,
                    0,
                ),
            decreases kids@.len() - k,
        {
            let kid = kids[k];
            assert(self@.layers[kid as int].pr == self.layers@[kid as int].pr);
            if !visited[kid] && self.layers[kid].pr.is_some() {
                return Some(kid);
            }
            k = k + 1;
        }
        None
    }

    /// Layers grouped into connected components of the dependency graph,
    /// counting only layers that have a pull request.
    ///
    /// Two layers belong to the same component when one depends on the other,
    /// directly or through a chain of other layers. A component of one is a
    /// standalone pull request: it shares nothing with its neighbours in the
    /// local commit order and must not be presented to readers as if it did.
    pub fn pr_components(&self) -> (r: Vec<Vec<usize>>)
        requires
            well_formed(self@),
        ensures
            r.deep_view() == components(self@),
    {
        let n = self.layers.len();
        // What the component of each layer starts at.
        let mut root: Vec<usize> = Vec::new();
        let mut roots: Vec<usize> = Vec::new();
        let mut i: usize = 0;
        while i < n
            invariant
                i <= n == self.layers@.len(),
                well_formed(self@),
                root@.len() == i,
                forall|k: int| 0 <= k < i ==> (#[trigger] root@[k]) == component_root(self@, k),
                roots@ == roots_below(self@, i as int),
                forall|k: int| 0 <= k < roots@.len() ==> (#[trigger] roots@[k]) < i,
            decreases n - i,
        {
            let layer = &self.layers[i];
            assert(self@.layers[i as int] == layer.deep_view());
            let start = match layer.dep {
                Dep::Layer(j) => if self.layers[j].pr.is_some() {
                    root[j]
                } else {
                    i
                },
                _ => i,
            };
            root.push(start);
            if layer.pr.is_some() && start == i {
                roots.push(i);
            }
            i = i + 1;
        }
        let mut out: Vec<Vec<usize>> = nothing();
        let mut k: usize = 0;
        while k < roots.len()
            invariant
                k <= roots@.len(),
                n == self.layers@.len(),
                root@.len() == n,
                forall|m: int| 0 <= m < n ==> (#[trigger] root@[m]) == component_root(self@, m),
                roots@ == roots_below(self@, n as int),
                out.deep_view() == components(self@).take(k as int),
            decreases roots@.len() - k,
        {
            let component = self.component_of(&root, roots[k]);
            assert(component.deep_view() =~= component@);
            put(&mut out, component);
            assert(components(self@).take(k as int).push(components(self@)[k as int])
                =~= components(self@).take(k + 1));
            k = k + 1;
        }
        assert(components(self@).take(k as int) =~= components(self@));
        out
    }

    fn component_of(&self, root: &Vec<usize>, start: usize) -> (r: Vec<usize>)
        requires
            root@.len() == self@.layers.len(),
            forall|m: int|
                0 <= m < root@.len() ==> (#[trigger] root@[m]) == component_root(self@, m),
        ensures
            r@ == component_below(self@, start as int, self@.layers.len() as int),
    {
        let mut out: Vec<usize> = Vec::new();
        let mut i: usize = 0;
        while i < self.layers.len()
            invariant
                i <= self.layers@.len(),
                root@.len() == self@.layers.len(),
                forall|m: int|
                    0 <= m < root@.len() ==> (#[trigger] root@[m]) == component_root(self@, m),
                out@ == component_below(self@, start as int, i as int),
            decreases self.layers@.len() - i,
        {
            assert(self@.layers[i as int].pr == self.layers@[i as int].pr);
            if self.layers[i].pr.is_some() && root[i] == start {
                out.push(i);
            }
            i = i + 1;
        }
        out
    }

    /// Whether layer `i` either depends on another layer in the stack or has
    /// other layers depending on it. An independent root (`Dep::Main`) with no
    /// dependents is standalone, and so is one on a pull request elsewhere.
    pub fn is_layer_stacked(&self, i: usize) -> (r: bool)
        requires
            i < self@.layers.len(),
        ensures
            r == layer_stacked(self@, i as int),
    {
        assert(self@.layers[i as int].dep == self.layers@[i as int].dep);
        matches!(self.layers[i].dep, Dep::Layer(_)) || self.dependents_of(i).len() > 0
    }

    /// Whether the stack has no branches: the bottom layer sits on the trunk
    /// and every subsequent layer depends on the layer immediately below it.
    pub fn is_linear(&self) -> (r: bool)
        ensures
            r == linear(self@),
    {
        let mut i: usize = 0;
        while i < self.layers.len()
            invariant
                i <= self.layers@.len(),
                forall|k: int| #![trigger self@.layers[k]]
                    0 <= k < i ==> self@.layers[k].dep == if k == 0 {
                        Dep::Main
                    } else {
                        Dep::Layer((k - 1) as usize)
                    },
            decreases self.layers@.len() - i,
        {
            let expected = if i == 0 {
                Dep::Main
            } else {
                Dep::Layer(i - 1)
            };
            assert(self@.layers[i as int].dep == self.layers@[i as int].dep);
            if self.layers[i].dep != expected {
                return false;
            }
            i = i + 1;
        }
        true
    }
}

/// Layer `i` depends on another layer or has layers depending on it.
pub open spec fn layer_stacked(s: StackView, i: int) -> bool {
    s.layers[i].dep is Layer || dependents(s, i).len() > 0
}

proof fn lemma_component_root(s: StackView, i: int)
    requires
        0 <= i < s.layers.len(),
        s.layers[i].pr is Some,
    ensures
        0 <= component_root(s, i) <= i,
        s.layers[component_root(s, i)].pr is Some,
        component_root(s, component_root(s, i)) == component_root(s, i),
    decreases i,
{
    match s.layers[i].dep {
        Dep::Layer(j) => {
            if j < i && s.layers[j as int].pr is Some {
                lemma_component_root(s, j as int);
            }
        },
        _ => {},
    }
}

proof fn lemma_component_below(s: StackView, root: int, n: int)
    requires
        n <= s.layers.len() <= usize::MAX,
    ensures
        ({
            let c = component_below(s, root, n);
            &&& forall|j: usize| #[trigger]
                c.contains(j) <==> j < n && s.layers[j as int].pr is Some && component_root(
                    s,
                    j as int,
                ) == root
            &&& forall|k: int, m: int| 0 <= k < m < c.len() ==> (#[trigger] c[k]) < (#[trigger] c[m])
        }),
    decreases n,
{
    if n > 0 {
        lemma_component_below(s, root, n - 1);
        let below = component_below(s, root, n - 1);
        let c = component_below(s, root, n);
        assert forall|k: int| 0 <= k < below.len() implies below[k] < n - 1 by {
            assert(below.contains(below[k]));
        }
        if s.layers[n - 1].pr is Some && component_root(s, n - 1) == root {
            assert forall|j: usize| #[trigger]
                c.contains(j) <==> j < n && s.layers[j as int].pr is Some && component_root(
                    s,
                    j as int,
                ) == root by {
                if j == n - 1 {
                    assert(c[below.len() as int] == j);
                } else if below.contains(j) {
                    let k = choose|k: int| 0 <= k < below.len() && below[k] == j;
                    assert(c[k] == j);
                }
            }
        }
    }
}

proof fn lemma_roots_below(s: StackView, n: int)
    requires
        n <= s.layers.len() <= usize::MAX,
    ensures
        ({
            let r = roots_below(s, n);
            &&& forall|j: usize| #[trigger]
                r.contains(j) <==> j < n && s.layers[j as int].pr is Some && component_root(
                    s,
                    j as int,
                ) == j
            &&& forall|k: int, m: int| 0 <= k < m < r.len() ==> (#[trigger] r[k]) < (#[trigger] r[m])
        }),
    decreases n,
{
    if n > 0 {
        lemma_roots_below(s, n - 1);
        let below = roots_below(s, n - 1);
        let r = roots_below(s, n);
        assert forall|k: int| 0 <= k < below.len() implies below[k] < n - 1 by {
            assert(below.contains(below[k]));
        }
        if s.layers[n - 1].pr is Some && component_root(s, n - 1) == n - 1 {
            assert forall|j: usize| #[trigger]
                r.contains(j) <==> j < n && s.layers[j as int].pr is Some && component_root(
                    s,
                    j as int,
                ) == j by {
                if j == n - 1 {
                    assert(r[below.len() as int] == j);
                } else if below.contains(j) {
                    let k = choose|k: int| 0 <= k < below.len() && below[k] == j;
                    assert(r[k] == j);
                }
            }
        }
    }
}

/// The components hold the layers with a pull request and no others, each layer
/// in exactly one of them and in stack order; a layer is in the same component as
/// the layer that it depends on, where both have a pull request.
pub proof fn law_components_partition(s: StackView)
    requires
        well_formed(s),
        s.layers.len() <= usize::MAX,
    ensures
        forall|i: usize|
            i < s.layers.len() && s.layers[i as int].pr is Some ==> exists|k: int|
                0 <= k < components(s).len() && (#[trigger] components(s)[k]).contains(i),
        forall|i: usize, k: int|
            0 <= k < components(s).len() && #[trigger] components(s)[k].contains(i) ==> i
                < s.layers.len() && s.layers[i as int].pr is Some,
        forall|i: usize, k: int, m: int|
            0 <= k < components(s).len() && 0 <= m < components(s).len()
                && #[trigger] components(s)[k].contains(i) && #[trigger] components(s)[m].contains(i)
                ==> k == m,
        forall|i: usize, j: usize, k: int|
            0 <= k < components(s).len() && i < s.layers.len() && j < s.layers.len()
                && s.layers[j as int].dep == Dep::Layer(i) && s.layers[i as int].pr is Some
                && s.layers[j as int].pr is Some ==> #[trigger] components(s)[k].contains(i)
                == #[trigger] components(s)[k].contains(j),
        forall|k: int, a: int, b: int|
            0 <= k < components(s).len() && 0 <= a < b < components(s)[k].len()
                ==> #[trigger] components(s)[k][a] < #[trigger] components(s)[k][b],
{
    let n = s.layers.len() as int;
    let roots = roots_below(s, n);
    let all = components(s);
    lemma_roots_below(s, n);
    assert forall|i: usize, k: int| 0 <= k < all.len() implies #[trigger] all[k].contains(i) == (i < n
        && s.layers[i as int].pr is Some && component_root(s, i as int) == roots[k]) by {
        lemma_component_below(s, roots[k] as int, n);
        assert(all[k] == component_below(s, roots[k] as int, n));
    }
    assert forall|i: usize| i < n && s.layers[i as int].pr is Some implies exists|k: int|
        0 <= k < all.len() && (#[trigger] all[k]).contains(i) by {
        lemma_component_root(s, i as int);
        let root = component_root(s, i as int) as usize;
        assert(roots.contains(root));
        let k = choose|k: int| 0 <= k < roots.len() && roots[k] == root;
        assert(all[k].contains(i));
    }
    assert forall|i: usize, j: usize, k: int|
        0 <= k < all.len() && i < n && j < n && s.layers[j as int].dep == Dep::Layer(i)
            && s.layers[i as int].pr is Some && s.layers[j as int].pr is Some implies #[trigger] all[k].contains(
        i,
    ) == #[trigger] all[k].contains(j) by {
        assert(component_root(s, j as int) == component_root(s, i as int));
    }
    assert forall|k: int, a: int, b: int|
        0 <= k < all.len() && 0 <= a < b < all[k].len() implies #[trigger] all[k][a]
        < #[trigger] all[k][b] by {
        lemma_component_below(s, roots[k] as int, n);
        assert(all[k] == component_below(s, roots[k] as int, n));
    }
}

/// No two layers have the same pull request.
pub open spec fn distinct_prs(s: StackView) -> bool {
    forall|i: int, j: int|
        0 <= i < j < s.layers.len() && (#[trigger] s.layers[i]).pr is Some ==> s.layers[i].pr != (
        #[trigger] s.layers[j]).pr
}

/// One pull request sits directly on another one.
pub open spec fn stacked_on(s: StackView, upper: u64, lower: u64) -> bool {
    exists|i: int, j: int|
        0 <= i < s.layers.len() && 0 <= j < s.layers.len() && (#[trigger] s.layers[j]).dep
            == Dep::Layer(i as usize) && s.layers[j].pr == Some(upper) && (
        #[trigger] s.layers[i]).pr == Some(lower)
}

/// Each pull request but the first sits directly on the one before it.
pub open spec fn is_chain(s: StackView, chain: Seq<u64>) -> bool {
    forall|k: int| 0 < k < chain.len() ==> stacked_on(s, #[trigger] chain[k], chain[k - 1])
}

/// A layer with the pull request was visited.
spec fn marked(s: StackView, visited: Seq<bool>, number: u64) -> bool {
    exists|i: int|
        0 <= i < s.layers.len() && #[trigger] visited[i] && s.layers[i].pr == Some(number)
}

proof fn lemma_direct_below(s: StackView, i: usize, n: int)
    requires
        n <= s.layers.len() <= usize::MAX,
    ensures
        forall|k: int|
            0 <= k < direct_below(s, i, n).len() ==> (#[trigger] direct_below(s, i, n)[k]) < n
                && s.layers[direct_below(s, i, n)[k] as int].dep == Dep::Layer(i),
    decreases n,
{
    if n > 0 {
        lemma_direct_below(s, i, n - 1);
    }
}

proof fn lemma_first_fresh(s: StackView, kids: Seq<usize>, visited: Seq<bool>, k: int)
    requires
        0 <= k,
    ensures
        first_fresh(s, kids, visited, k) matches Some(j) ==> kids.contains(j)
            && !visited[j as int] && s.layers[j as int].pr is Some,
    decreases kids.len() - k,
{
    if k < kids.len() {
        if !visited[kids[k] as int] && s.layers[kids[k] as int].pr is Some {
            assert(kids.contains(kids[k]));
        } else {
            lemma_first_fresh(s, kids, visited, k + 1);
        }
    }
}

proof fn lemma_climb(s: StackView, at: Option<usize>, visited: Seq<bool>, chain: Seq<u64>)
    requires
        s.layers.len() <= usize::MAX,
        visited.len() == s.layers.len(),
        is_chain(s, chain),
        forall|k: int| 0 <= k < chain.len() ==> marked(s, visited, #[trigger] chain[k]),
        at matches Some(i) && chain.len() > 0 && i < s.layers.len() && s.layers[i as int].pr is Some
            ==> stacked_on(s, s.layers[at->0 as int].pr->0, chain.last()),
    ensures
        ({
            let (now, c) = climb(s, at, visited, chain);
            &&& now.len() == visited.len()
            &&& is_chain(s, c)
            &&& forall|k: int| 0 <= k < c.len() ==> marked(s, now, #[trigger] c[k])
            &&& forall|m: u64| marked(s, visited, m) ==> #[trigger] marked(s, now, m)
            &&& c.len() >= chain.len() && c.take(chain.len() as int) == chain
            &&& distinct_prs(s) ==> forall|k: int|
                chain.len() <= k < c.len() ==> !marked(s, visited, #[trigger] c[k])
            &&& distinct_prs(s) && chain.no_duplicates() ==> c.no_duplicates()
        }),
    decreases unvisited(visited),
{
    assert(chain.take(chain.len() as int) =~= chain);
    match at {
        None => {},
        Some(i) => if i >= visited.len() || visited[i as int] || s.layers[i as int].pr is None {
        } else {
            let number = s.layers[i as int].pr->0;
            let now = visited.update(i as int, true);
            let longer = chain.push(number);
            lemma_unvisited(visited, i as int);
            let kids = direct_dependents(s, i);
            let next = first_fresh(s, kids, now, 0);
            assert forall|m: u64| marked(s, visited, m) implies #[trigger] marked(s, now, m) by {
                let j = choose|j: int|
                    0 <= j < s.layers.len() && #[trigger] visited[j] && s.layers[j].pr == Some(m);
                assert(now[j]);
            }
            assert(now[i as int]);
            assert forall|k: int| 0 <= k < longer.len() implies marked(s, now, #[trigger] longer[k]) by {
                if k < chain.len() {
                    assert(marked(s, visited, chain[k]));
                }
            }
            assert(is_chain(s, longer)) by {
                assert forall|k: int| 0 < k < longer.len() implies stacked_on(
                    s,
                    #[trigger] longer[k],
                    longer[k - 1],
                ) by {
                    if k < chain.len() {
                        assert(stacked_on(s, chain[k], chain[k - 1]));
                    }
                }
            }
            if next is Some {
                lemma_first_fresh(s, kids, now, 0);
                lemma_direct_below(s, i, s.layers.len() as int);
                let j = next->0;
                assert(s.layers[j as int].dep == Dep::Layer(i));
                assert(stacked_on(s, s.layers[j as int].pr->0, number));
            }
            lemma_climb(s, next, now, longer);
            let (end, c) = climb(s, next, now, longer);
            assert(c.take(chain.len() as int) =~= c.take(longer.len() as int).take(
                chain.len() as int,
            ));
            assert(longer.take(chain.len() as int) =~= chain);
            if distinct_prs(s) {
                assert(!marked(s, visited, number));
                assert forall|k: int| chain.len() <= k < c.len() implies !marked(
                    s,
                    visited,
                    #[trigger] c[k],
                ) by {
                    if k == chain.len() {
                        assert(c[k] == c.take(longer.len() as int)[k]);
                    } else {
                        assert(!marked(s, now, c[k]));
                    }
                }
                if chain.no_duplicates() {
                    assert forall|a: int, b: int|
                        0 <= a < longer.len() && 0 <= b < longer.len() && a != b implies longer[a]
                        != longer[b] by {
                        if a < chain.len() {
                            assert(marked(s, visited, chain[a]));
                        }
                        if b < chain.len() {
                            assert(marked(s, visited, chain[b]));
                        }
                    }
                }
            }
        },
    }
}

/// The chains have no pull request in common, and none holds one twice.
pub open spec fn disjoint_chains(chains: Seq<Seq<u64>>) -> bool {
    forall|a: int, b: int, k: int, m: int|
        0 <= a < chains.len() && 0 <= b < chains.len() && 0 <= k < chains[a].len() && 0 <= m
            < chains[b].len() && (#[trigger] chains[a][k]) == (#[trigger] chains[b][m]) ==> a == b
            && k == m
}

proof fn lemma_chains_from(s: StackView, i: int, visited: Seq<bool>, chains: Seq<Seq<u64>>)
    requires
        0 <= i,
        s.layers.len() <= usize::MAX,
        visited.len() == s.layers.len(),
        forall|a: int|
            0 <= a < chains.len() ==> (#[trigger] chains[a]).len() >= 2 && is_chain(s, chains[a]),
        forall|a: int, k: int|
            0 <= a < chains.len() && 0 <= k < chains[a].len() ==> marked(
                s,
                visited,
                #[trigger] chains[a][k],
            ),
        distinct_prs(s) ==> disjoint_chains(chains),
    ensures
        forall|a: int|
            0 <= a < chains_from(s, i, visited, chains).len() ==> (
            #[trigger] chains_from(s, i, visited, chains)[a]).len() >= 2 && is_chain(
                s,
                chains_from(s, i, visited, chains)[a],
            ),
        distinct_prs(s) ==> disjoint_chains(chains_from(s, i, visited, chains)),
    decreases s.layers.len() - i,
{
    if i < s.layers.len() {
        if !starts_chain(s, i, visited) {
            lemma_chains_from(s, i + 1, visited, chains);
            assert(chains_from(s, i, visited, chains) == chains_from(s, i + 1, visited, chains));
        } else {
            lemma_climb(s, Some(i as usize), visited, Seq::empty());
            let (now, chain) = climb(s, Some(i as usize), visited, Seq::empty());
            let more = if chain.len() >= 2 {
                chains.push(chain)
            } else {
                chains
            };
            assert forall|a: int, k: int|
                0 <= a < more.len() && 0 <= k < more[a].len() implies marked(
                s,
                now,
                #[trigger] more[a][k],
            ) by {
                if a < chains.len() {
                    assert(marked(s, visited, chains[a][k]));
                }
            }
            if distinct_prs(s) && chain.len() >= 2 {
                assert forall|a: int, b: int, k: int, m: int|
                    0 <= a < more.len() && 0 <= b < more.len() && 0 <= k < more[a].len() && 0 <= m
                        < more[b].len() && (#[trigger] more[a][k]) == (
                    #[trigger] more[b][m]) implies a == b && k == m by {
                    if a < chains.len() && b < chains.len() {
                        assert(chains[a][k] == chains[b][m]);
                    } else if a < chains.len() {
                        assert(marked(s, visited, chains[a][k]));
                        assert(!marked(s, visited, chain[m]));
                    } else if b < chains.len() {
                        assert(marked(s, visited, chains[b][m]));
                        assert(!marked(s, visited, chain[k]));
                    }
                }
            }
            lemma_chains_from(s, i + 1, now, more);
            assert(chains_from(s, i, visited, chains) == chains_from(s, i + 1, now, more));
        }
    }
}

/// Every chain has at least two pull requests, and each but the first sits
/// directly on the one before it. Where no two layers have the same pull request,
/// no two places in the chains have it either.
pub proof fn law_chains(s: StackView)
    requires
        s.layers.len() <= usize::MAX,
    ensures
        forall|a: int|
            0 <= a < chains(s).len() ==> (#[trigger] chains(s)[a]).len() >= 2 && is_chain(
                s,
                chains(s)[a],
            ),
        distinct_prs(s) ==> disjoint_chains(chains(s)),
{
    lemma_chains_from(s, 0, Seq::new(s.layers.len(), |i: int| false), Seq::empty());
}

} // verus!
