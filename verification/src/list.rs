//! Open pull requests, grouped into stacks.
//!
//! Stacks are trees: a pull request sits on the one whose head branch is its
//! base branch. Roots are those based on the trunk or on a branch of nobody's.

use vstd::multiset::Multiset;
use vstd::prelude::*;

use crate::data::{has_number, nothing, put, Duplicate};
use crate::forge::{ListedPr, ListedView, ReviewDecision};
use crate::paint;
use crate::paint::{colors_enabled, Hue, Paint};
use crate::text;
use crate::text::{chars_of, push_decimal, same};

verus! {

#[derive(Debug)]
pub struct StackNode {
    pub pr: ListedPr,
    pub children: Vec<StackNode>,
}

#[verifier::ext_equal]
pub struct NodeView {
    pub pr: ListedView,
    pub children: Seq<NodeView>,
}

pub open spec fn node_view(node: StackNode) -> NodeView
    decreases node,
{
    NodeView { pr: node.pr.deep_view(), children: nodes_view(node.children@) }
}

pub open spec fn nodes_view(nodes: Seq<StackNode>) -> Seq<NodeView>
    decreases nodes,
{
    if nodes.len() == 0 {
        Seq::empty()
    } else {
        nodes_view(nodes.drop_last()).push(node_view(nodes.last()))
    }
}

impl View for StackNode {
    type V = NodeView;

    open spec fn view(&self) -> NodeView {
        node_view(*self)
    }
}

#[derive(Debug)]
pub struct PrStack {
    /// The base branch the bottom of the stack sits on (e.g. `main`).
    pub base: String,
    pub roots: Vec<StackNode>,
}

#[verifier::ext_equal]
pub struct PrStackView {
    pub base: Seq<char>,
    pub roots: Seq<NodeView>,
}

impl DeepView for PrStack {
    type V = PrStackView;

    open spec fn deep_view(&self) -> PrStackView {
        PrStackView { base: self.base@, roots: nodes_view(self.roots@) }
    }
}

/// Some pull request has the given head branch.
pub open spec fn is_head(prs: Seq<ListedView>, branch: Seq<char>) -> bool {
    exists|k: int| 0 <= k < prs.len() && (#[trigger] prs[k]).head == branch
}

/// A pull request that sits on another one.
pub open spec fn is_child(prs: Seq<ListedView>, pr: ListedView) -> bool {
    is_head(prs, pr.base) && pr.base != pr.head
}

/// A text that comes before another one, character by character.
pub open spec fn text_before(a: Seq<char>, b: Seq<char>) -> bool
    decreases a.len(),
{
    if b.len() == 0 {
        false
    } else if a.len() == 0 {
        true
    } else if a[0] == b[0] {
        text_before(a.skip(1), b.skip(1))
    } else {
        a[0] < b[0]
    }
}

/// A pull request that is listed before another one: those on the trunk first,
/// then by base branch, then by number. Without a trunk only the number counts.
pub open spec fn listed_before(a: ListedView, b: ListedView, trunk: Option<Seq<char>>) -> bool {
    match trunk {
        None => a.number < b.number,
        Some(trunk) => if (a.base == trunk) != (b.base == trunk) {
            a.base == trunk
        } else if a.base != b.base {
            text_before(a.base, b.base)
        } else {
            a.number < b.number
        },
    }
}

/// Where a pull request goes among the first `n`: after all that it is not
/// listed before.
pub open spec fn place_in(
    sorted: Seq<ListedView>,
    pr: ListedView,
    trunk: Option<Seq<char>>,
    n: int,
) -> int
    decreases n,
{
    if n <= 0 || !listed_before(pr, sorted[n - 1], trunk) {
        n
    } else {
        place_in(sorted, pr, trunk, n - 1)
    }
}

/// The first `n` pull requests that are children or that are not, in the order
/// in which they are listed.
pub open spec fn chosen(
    prs: Seq<ListedView>,
    children: bool,
    trunk: Option<Seq<char>>,
    n: int,
) -> Seq<ListedView>
    decreases n,
{
    if n <= 0 {
        Seq::empty()
    } else {
        let before = chosen(prs, children, trunk, n - 1);
        let pr = prs[n - 1];
        if is_child(prs, pr) == children {
            before.insert(place_in(before, pr, trunk, before.len() as int), pr)
        } else {
            before
        }
    }
}

/// The pull requests that sit on others, by number.
pub open spec fn children_of(prs: Seq<ListedView>) -> Seq<ListedView> {
    chosen(prs, true, None, prs.len() as int)
}

/// The pull requests at the bottom of a stack.
pub open spec fn roots_of(prs: Seq<ListedView>, trunk: Seq<char>) -> Seq<ListedView> {
    chosen(prs, false, Some(trunk), prs.len() as int)
}

/// How many of the first `n` children have a number that was not visited.
pub open spec fn fresh(kids: Seq<ListedView>, visited: Seq<u64>, n: int) -> nat
    decreases n,
{
    if n <= 0 {
        0
    } else if visited.contains(kids[n - 1].number) {
        fresh(kids, visited, n - 1)
    } else {
        fresh(kids, visited, n - 1) + 1
    }
}

pub proof fn lemma_fresh(kids: Seq<ListedView>, visited: Seq<u64>, more: Seq<u64>, n: int)
    requires
        0 <= n <= kids.len(),
        forall|number: u64| visited.contains(number) ==> more.contains(number),
    ensures
        fresh(kids, more, n) <= fresh(kids, visited, n),
        forall|k: int|
            0 <= k < n && more.contains((#[trigger] kids[k]).number) && !visited.contains(
                kids[k].number,
            ) ==> fresh(kids, more, n) < fresh(kids, visited, n),
    decreases n,
{
    if n > 0 {
        lemma_fresh(kids, visited, more, n - 1);
    }
}

pub proof fn lemma_push_contains(visited: Seq<u64>, number: u64)
    ensures
        visited.push(number).contains(number),
        forall|m: u64| visited.contains(m) ==> visited.push(number).contains(m),
{
    let now = visited.push(number);
    assert(now[visited.len() as int] == number);
    assert forall|m: u64| visited.contains(m) implies now.contains(m) by {
        let k = choose|k: int| 0 <= k < visited.len() && visited[k] == m;
        assert(now[k] == m);
    }
}

/// A pull request with everything on top of it that was not visited yet, and
/// what is visited afterwards.
pub open spec fn grown(kids: Seq<ListedView>, pr: ListedView, visited: Seq<u64>) -> (
    NodeView,
    Seq<u64>,
)
    decreases fresh(kids, visited.push(pr.number), kids.len() as int), kids.len() + 1,
{
    let (children, now) = grown_from(kids, pr.head, 0, visited.push(pr.number), Seq::empty());
    (NodeView { pr, children }, now)
}

/// The trees of the children from the `i`th on that sit on a head branch, behind
/// those that are already there. What is visited only ever grows.
pub open spec fn grown_from(
    kids: Seq<ListedView>,
    head: Seq<char>,
    i: int,
    visited: Seq<u64>,
    nodes: Seq<NodeView>,
) -> (Seq<NodeView>, Seq<u64>)
    decreases fresh(kids, visited, kids.len() as int), kids.len() - i,
{
    if i < 0 || i >= kids.len() {
        (nodes, visited)
    } else if kids[i].base != head || visited.contains(kids[i].number) {
        grown_from(kids, head, i + 1, visited, nodes)
    } else {
        proof {
            lemma_push_contains(visited, kids[i].number);
            lemma_fresh(
                kids,
                visited,
                visited.push(kids[i].number),
                kids.len() as int,
            );
        }
        let (node, now) = grown(kids, kids[i], visited);
        if fresh(kids, now, kids.len() as int) < fresh(kids, visited, kids.len() as int) {
            grown_from(kids, head, i + 1, now, nodes.push(node))
        } else {
            (nodes.push(node), now)
        }
    }
}

/// What is visited only ever grows.
proof fn lemma_grown(kids: Seq<ListedView>, pr: ListedView, visited: Seq<u64>)
    ensures
        forall|m: u64|
            visited.push(pr.number).contains(m) ==> grown(kids, pr, visited).1.contains(m),
        fresh(kids, grown(kids, pr, visited).1, kids.len() as int) <= fresh(
            kids,
            visited.push(pr.number),
            kids.len() as int,
        ),
    decreases fresh(kids, visited.push(pr.number), kids.len() as int), kids.len() + 1,
{
    lemma_grown_from(kids, pr.head, 0, visited.push(pr.number), Seq::empty());
}

proof fn lemma_grown_from(
    kids: Seq<ListedView>,
    head: Seq<char>,
    i: int,
    visited: Seq<u64>,
    nodes: Seq<NodeView>,
)
    ensures
        forall|m: u64|
            visited.contains(m) ==> grown_from(kids, head, i, visited, nodes).1.contains(m),
        fresh(kids, grown_from(kids, head, i, visited, nodes).1, kids.len() as int) <= fresh(
            kids,
            visited,
            kids.len() as int,
        ),
        0 <= i < kids.len() && kids[i].base == head && !visited.contains(kids[i].number)
            ==> fresh(kids, grown(kids, kids[i], visited).1, kids.len() as int) < fresh(
            kids,
            visited,
            kids.len() as int,
        ),
    decreases fresh(kids, visited, kids.len() as int), kids.len() - i,
{
    if i < 0 || i >= kids.len() {
    } else if kids[i].base != head || visited.contains(kids[i].number) {
        lemma_grown_from(kids, head, i + 1, visited, nodes);
    } else {
        lemma_push_contains(visited, kids[i].number);
        lemma_fresh(kids, visited, visited.push(kids[i].number), kids.len() as int);
        lemma_grown(kids, kids[i], visited);
        let (node, now) = grown(kids, kids[i], visited);
        lemma_grown_from(kids, head, i + 1, now, nodes.push(node));
    }
}

/// The stack with the given base among those from the `k`th on.
pub open spec fn stack_index(stacks: Seq<PrStackView>, base: Seq<char>, k: int) -> Option<int>
    decreases stacks.len() - k,
{
    if k < 0 || k >= stacks.len() {
        None
    } else if stacks[k].base == base {
        Some(k)
    } else {
        stack_index(stacks, base, k + 1)
    }
}

/// The stacks with one more tree, in the stack of its base branch.
pub open spec fn with_root(stacks: Seq<PrStackView>, base: Seq<char>, node: NodeView) -> Seq<
    PrStackView,
> {
    match stack_index(stacks, base, 0) {
        Some(k) => stacks.update(
            k,
            PrStackView { roots: stacks[k].roots.push(node), ..stacks[k] },
        ),
        None => stacks.push(PrStackView { base, roots: seq![node] }),
    }
}

/// The stacks of the roots from the `i`th on, added to those that are already
/// there.
pub open spec fn stacks_from(
    kids: Seq<ListedView>,
    roots: Seq<ListedView>,
    i: int,
    visited: Seq<u64>,
    stacks: Seq<PrStackView>,
) -> Seq<PrStackView>
    decreases roots.len() - i,
{
    if i < 0 || i >= roots.len() {
        stacks
    } else {
        let (node, now) = grown(kids, roots[i], visited);
        stacks_from(kids, roots, i + 1, now, with_root(stacks, roots[i].base, node))
    }
}

/// The pull requests grouped into stacks.
pub open spec fn stacks_of(prs: Seq<ListedView>, trunk: Seq<char>) -> Seq<PrStackView> {
    stacks_from(children_of(prs), roots_of(prs, trunk), 0, Seq::empty(), Seq::empty())
}

fn has_head(prs: &Vec<ListedPr>, branch: &str) -> (r: bool)
    ensures
        r == is_head(prs.deep_view(), branch@),
{
    let mut k: usize = 0;
    while k < prs.len()
        invariant
            k <= prs@.len(),
            forall|m: int| 0 <= m < k ==> (#[trigger] prs.deep_view()[m]).head != branch@,
        decreases prs@.len() - k,
    {
        assert(prs.deep_view()[k as int] == prs@[k as int].deep_view());
        if same(prs[k].head.as_str(), branch) {
            return true;
        }
        k = k + 1;
    }
    false
}

fn comes_before(a: &str, b: &str) -> (r: bool)
    ensures
        r == text_before(a@, b@),
{
    let x = chars_of(a);
    let y = chars_of(b);
    assert(x@.skip(0) =~= x@);
    assert(y@.skip(0) =~= y@);
    let mut i: usize = 0;
    while i < x.len() && i < y.len() && x[i] == y[i]
        invariant
            i <= x@.len(),
            i <= y@.len(),
            text_before(x@.skip(i as int), y@.skip(i as int)) == text_before(x@, y@),
        decreases x@.len() - i,
    {
        assert(x@.skip(i as int).skip(1) =~= x@.skip(i + 1));
        assert(y@.skip(i as int).skip(1) =~= y@.skip(i + 1));
        i = i + 1;
    }
    if i >= y.len() {
        return false;
    }
    if i >= x.len() {
        return true;
    }
    x[i] < y[i]
}

fn is_listed_before(a: &ListedPr, b: &ListedPr, trunk: Option<&str>) -> (r: bool)
    ensures
        r == listed_before(a.deep_view(), b.deep_view(), text::view_of(trunk)),
{
    match trunk {
        None => a.number < b.number,
        Some(trunk) => {
            let left = same(a.base.as_str(), trunk);
            let right = same(b.base.as_str(), trunk);
            if left != right {
                left
            } else if !same(a.base.as_str(), b.base.as_str()) {
                comes_before(a.base.as_str(), b.base.as_str())
            } else {
                a.number < b.number
            }
        },
    }
}

fn choose_prs(prs: &Vec<ListedPr>, children: bool, trunk: Option<&str>) -> (r: Vec<ListedPr>)
    ensures
        r.deep_view() == chosen(
            prs.deep_view(),
            children,
            text::view_of(trunk),
            prs@.len() as int,
        ),
{
    let mut out: Vec<ListedPr> = nothing();
    let mut i: usize = 0;
    while i < prs.len()
        invariant
            i <= prs@.len(),
            out.deep_view() == chosen(
                prs.deep_view(),
                children,
                text::view_of(trunk),
                i as int,
            ),
        decreases prs@.len() - i,
    {
        let pr = &prs[i];
        assert(prs.deep_view()[i as int] == pr.deep_view());
        let child = has_head(prs, pr.base.as_str()) && !same(
            pr.base.as_str(),
            pr.head.as_str(),
        );
        if child == children {
            let ghost before = out.deep_view();
            let ghost end = out@.len() as int;
            assert(before.len() == end);
            let mut k: usize = out.len();
            while k > 0 && is_listed_before(pr, &out[k - 1], trunk)
                invariant
                    k <= out@.len(),
                    out.deep_view() == before,
                    end == out@.len(),
                    place_in(before, pr.deep_view(), text::view_of(trunk), k as int) == place_in(
                        before,
                        pr.deep_view(),
                        text::view_of(trunk),
                        end,
                    ),
                decreases k,
            {
                assert(out.deep_view()[k - 1] == out@[k - 1].deep_view());
                k = k - 1;
            }
            if k > 0 {
                assert(out.deep_view()[k - 1] == out@[k - 1].deep_view());
            }
            out.insert(k, pr.duplicate());
            assert(out.deep_view() =~= before.insert(k as int, pr.deep_view()));
        }
        i = i + 1;
    }
    out
}

fn push_node(nodes: &mut Vec<StackNode>, node: StackNode)
    ensures
        nodes_view(final(nodes)@) == nodes_view(old(nodes)@).push(node@),
        final(nodes)@ == old(nodes)@.push(node),
{
    nodes.push(node);
    assert(nodes@.drop_last() =~= old(nodes)@);
}

/// Builds the tree on top of a pull request.
fn build_node(pr: &ListedPr, kids: &Vec<ListedPr>, visited: &mut Vec<u64>) -> (r: StackNode)
    ensures
        (r@, final(visited)@) == grown(kids.deep_view(), pr.deep_view(), old(visited)@),
    decreases
            fresh(
                kids.deep_view(),
                old(visited)@.push(pr.deep_view().number),
                kids@.len() as int,
            ),
{
    let ghost all = kids.deep_view();
    let ghost start = old(visited)@.push(pr.number);
    assert(all.len() == kids@.len());
    visited.push(pr.number);
    let mut children: Vec<StackNode> = Vec::new();
    assert(nodes_view(children@) =~= Seq::<NodeView>::empty());
    let mut i: usize = 0;
    while i < kids.len()
        invariant
            i <= kids@.len(),
            all == kids.deep_view(),
            all.len() == kids@.len(),
            start == old(visited)@.push(pr.number),
            fresh(all, visited@, all.len() as int) <= fresh(all, start, all.len() as int),
            grown_from(all, pr.head@, i as int, visited@, nodes_view(children@)) == grown_from(
                all,
                pr.head@,
                0,
                start,
                Seq::empty(),
            ),
        decreases kids@.len() - i,
    {
        let kid = &kids[i];
        assert(all[i as int] == kid.deep_view());
        if same(kid.base.as_str(), pr.head.as_str()) && !has_number(visited, kid.number) {
            let ghost before = visited@;
            proof {
                lemma_grown_from(all, pr.head@, i as int, before, nodes_view(children@));
                lemma_push_contains(before, kid.number);
                lemma_fresh(all, before, before.push(kid.number), all.len() as int);
            }
            let node = build_node(kid, kids, visited);
            push_node(&mut children, node);
        }
        i = i + 1;
    }
    StackNode { pr: pr.duplicate(), children }
}

fn find_stack(stacks: &Vec<PrStack>, base: &str) -> (r: Option<usize>)
    ensures
        match r {
            Some(k) => k < stacks@.len() && stack_index(stacks.deep_view(), base@, 0) == Some(
                k as int,
            ),
            None => stack_index(stacks.deep_view(), base@, 0) is None,
        },
{
    let mut k: usize = 0;
    while k < stacks.len()
        invariant
            k <= stacks@.len(),
            stack_index(stacks.deep_view(), base@, k as int) == stack_index(
                stacks.deep_view(),
                base@,
                0,
            ),
        decreases stacks@.len() - k,
    {
        assert(stacks.deep_view()[k as int] == stacks@[k as int].deep_view());
        if same(stacks[k].base.as_str(), base) {
            return Some(k);
        }
        k = k + 1;
    }
    None
}

/// Groups a flat list of pull requests into hierarchical stacks.
pub fn build_stacks(prs: Vec<ListedPr>, trunk: &str) -> (r: Vec<PrStack>)
    ensures
        r.deep_view() == stacks_of(prs.deep_view(), trunk@),
{
    let kids = choose_prs(&prs, true, None);
    let roots = choose_prs(&prs, false, Some(trunk));
    assert(prs.deep_view().len() == prs@.len());
    let mut visited: Vec<u64> = Vec::new();
    assert(visited@ =~= Seq::<u64>::empty());
    let mut stacks: Vec<PrStack> = nothing();
    let mut i: usize = 0;
    while i < roots.len()
        invariant
            i <= roots@.len(),
            stacks_from(
                kids.deep_view(),
                roots.deep_view(),
                i as int,
                visited@,
                stacks.deep_view(),
            ) == stacks_from(
                kids.deep_view(),
                roots.deep_view(),
                0,
                Seq::empty(),
                Seq::empty(),
            ),
        decreases roots@.len() - i,
    {
        let root = &roots[i];
        assert(roots.deep_view()[i as int] == root.deep_view());
        let node = build_node(root, &kids, &mut visited);
        let ghost before = stacks.deep_view();
        match find_stack(&stacks, root.base.as_str()) {
            Some(k) => {
                assert(before[k as int] == stacks@[k as int].deep_view());
                let mut stack = stacks.remove(k);
                push_node(&mut stack.roots, node);
                stacks.insert(k, stack);
                assert(stacks.deep_view() =~= with_root(before, root.base@, node@));
            },
            None => {
                let mut nodes: Vec<StackNode> = Vec::new();
                assert(nodes_view(nodes@) =~= Seq::<NodeView>::empty());
                push_node(&mut nodes, node);
                assert(nodes_view(nodes@) =~= seq![node@]);
                put(&mut stacks, PrStack { base: root.base.clone(), roots: nodes });
            },
        }
        i = i + 1;
    }
    stacks
}

/// How far the review of a pull request has got.
pub open spec fn decision_shown(decision: Option<ReviewDecision>, draft: bool, colors: bool) -> Seq<
    char,
> {
    if draft {
        paint::painted("[Draft]"@, paint::dimmed(), colors)
    } else {
        match decision {
            Some(ReviewDecision::Approved) => paint::painted(
                "[Approved]"@,
                paint::hued(Hue::Green),
                colors,
            ),
            Some(ReviewDecision::ChangesRequested) => paint::painted(
                "[Changes Requested]"@,
                paint::hued(Hue::Red),
                colors,
            ),
            _ => paint::painted("[Pending]"@, paint::hued(Hue::Yellow), colors),
        }
    }
}

fn format_decision(decision: Option<ReviewDecision>, draft: bool, colors: bool) -> (r: String)
    ensures
        r@ == decision_shown(decision, draft, colors),
{
    if draft {
        return paint::paint("[Draft]", Paint::dimmed(), colors);
    }
    match decision {
        Some(ReviewDecision::Approved) => paint::paint(
            "[Approved]",
            Paint::hued(Hue::Green),
            colors,
        ),
        Some(ReviewDecision::ChangesRequested) => paint::paint(
            "[Changes Requested]",
            Paint::hued(Hue::Red),
            colors,
        ),
        _ => paint::paint("[Pending]", Paint::hued(Hue::Yellow), colors),
    }
}

/// The line of one pull request.
pub open spec fn pr_line(pr: ListedView, indent: Seq<char>, colors: bool) -> Seq<char> {
    indent + paint::painted(
        "#"@ + text::decimal(pr.number as nat),
        paint::strong(),
        colors,
    ) + "  "@ + decision_shown(pr.review_decision, pr.draft, colors) + "  "@ + pr.title + "\n"@
}

/// The lines of a tree, each level further in than the one it sits on.
pub open spec fn tree_lines(node: NodeView, indent: Seq<char>, colors: bool) -> Seq<char>
    decreases node,
{
    pr_line(node.pr, indent, colors) + forest_lines(node.children, indent + "  "@, colors)
}

/// The lines of some trees, one after the other.
pub open spec fn forest_lines(nodes: Seq<NodeView>, indent: Seq<char>, colors: bool) -> Seq<char>
    decreases nodes,
{
    if nodes.len() == 0 {
        Seq::empty()
    } else {
        forest_lines(nodes.drop_last(), indent, colors) + tree_lines(nodes.last(), indent, colors)
    }
}

/// The lines of the first `n` stacks, with an empty line between each two.
pub open spec fn stacks_lines(stacks: Seq<PrStackView>, n: int, colors: bool) -> Seq<char>
    decreases n,
{
    if n <= 0 {
        Seq::empty()
    } else {
        let above = stacks_lines(stacks, n - 1, colors);
        (if n > 1 {
            above + "\n"@
        } else {
            above
        }) + forest_lines(stacks[n - 1].roots, Seq::empty(), colors)
    }
}

/// What is shown of a list of stacks.
pub open spec fn listing(stacks: Seq<PrStackView>, colors: bool) -> Seq<char> {
    if stacks.len() == 0 {
        "No open pull requests found.\n"@
    } else {
        stacks_lines(stacks, stacks.len() as int, colors)
    }
}

proof fn lemma_nodes_view(nodes: Seq<StackNode>, i: int)
    requires
        0 <= i < nodes.len(),
    ensures
        nodes_view(nodes).len() == nodes.len(),
        nodes_view(nodes)[i] == node_view(nodes[i]),
        nodes_view(nodes.take(i + 1)) == nodes_view(nodes.take(i)).push(node_view(nodes[i])),
        nodes_view(nodes.take(i)).len() == i,
    decreases nodes.len(),
{
    lemma_nodes_len(nodes);
    lemma_nodes_len(nodes.take(i));
    assert(nodes.take(i + 1).drop_last() =~= nodes.take(i));
    if i < nodes.len() - 1 {
        lemma_nodes_view(nodes.drop_last(), i);
        assert(nodes.drop_last()[i] == nodes[i]);
    }
}

proof fn lemma_nodes_len(nodes: Seq<StackNode>)
    ensures
        nodes_view(nodes).len() == nodes.len(),
    decreases nodes.len(),
{
    if nodes.len() > 0 {
        lemma_nodes_len(nodes.drop_last());
    }
}

fn format_nodes(nodes: &Vec<StackNode>, indent: &str, colors: bool) -> (r: String)
    ensures
        r@ == forest_lines(nodes_view(nodes@), indent@, colors),
    decreases nodes,
{
    let mut out = String::new();
    assert(out@ =~= Seq::<char>::empty());
    assert(nodes@.take(0) =~= Seq::<StackNode>::empty());
    let mut i: usize = 0;
    while i < nodes.len()
        invariant
            i <= nodes@.len(),
            out@ == forest_lines(nodes_view(nodes@.take(i as int)), indent@, colors),
        decreases nodes@.len() - i,
    {
        let node = &nodes[i];
        proof {
            lemma_nodes_view(nodes@, i as int);
            let now = nodes_view(nodes@.take(i + 1));
            assert(now.drop_last() =~= nodes_view(nodes@.take(i as int)));
            assert(decreases_to!(nodes => nodes@[i as int]));
        }
        out.append(format_node(node, indent, colors).as_str());
        i = i + 1;
    }
    assert(nodes@.take(i as int) =~= nodes@);
    out
}

fn format_node(node: &StackNode, indent: &str, colors: bool) -> (r: String)
    ensures
        r@ == tree_lines(node@, indent@, colors),
    decreases node,
{
    let mut number = "#".to_owned();
    push_decimal(&mut number, node.pr.number);
    let mut out = indent.to_owned();
    out.append(paint::paint(number.as_str(), Paint::strong(), colors).as_str());
    out.append("  ");
    out.append(format_decision(node.pr.review_decision, node.pr.draft, colors).as_str());
    out.append("  ");
    out.append(node.pr.title.as_str());
    out.append("\n");
    let mut further = indent.to_owned();
    further.append("  ");
    out.append(format_nodes(&node.children, further.as_str(), colors).as_str());
    out
}

/// Shows grouped stacks on a terminal that takes colours or does not.
pub fn draw_stacks(stacks: &Vec<PrStack>, colors: bool) -> (r: String)
    ensures
        r@ == listing(stacks.deep_view(), colors),
{
    assert(stacks.deep_view().len() == stacks@.len());
    if stacks.len() == 0 {
        return "No open pull requests found.\n".to_owned();
    }
    let mut out = String::new();
    assert(out@ =~= Seq::<char>::empty());
    let mut i: usize = 0;
    while i < stacks.len()
        invariant
            i <= stacks@.len(),
            out@ == stacks_lines(stacks.deep_view(), i as int, colors),
        decreases stacks@.len() - i,
    {
        assert(stacks.deep_view()[i as int] == stacks@[i as int].deep_view());
        if i > 0 {
            out.append("\n");
        }
        let none = String::new();
        assert(none@ =~= Seq::<char>::empty());
        out.append(format_nodes(&stacks[i].roots, none.as_str(), colors).as_str());
        i = i + 1;
    }
    out
}

/// Shows grouped stacks on standard output.
///
/// Whether there are colours is for the terminal and the environment to say.
pub fn format_stacks(stacks: &Vec<PrStack>) -> (r: String)
    ensures
        exists|colors: bool| r@ == #[trigger] listing(stacks.deep_view(), colors),
{
    let colors = colors_enabled();
    draw_stacks(stacks, colors)
}

/// The numbers in a tree, each before those on top of it.
pub open spec fn shown(node: NodeView) -> Seq<u64>
    decreases node,
{
    seq![node.pr.number] + shown_all(node.children)
}

/// The numbers in some trees, one after the other.
pub open spec fn shown_all(nodes: Seq<NodeView>) -> Seq<u64>
    decreases nodes,
{
    if nodes.len() == 0 {
        Seq::empty()
    } else {
        shown_all(nodes.drop_last()) + shown(nodes.last())
    }
}

/// How often each number is in the first `n` stacks.
pub open spec fn shown_in(stacks: Seq<PrStackView>, n: int) -> Multiset<u64>
    decreases n,
{
    if n <= 0 {
        Multiset::empty()
    } else {
        shown_in(stacks, n - 1).add(shown_all(stacks[n - 1].roots).to_multiset())
    }
}

/// Every tree on a head branch sits on that branch, and so on upwards.
pub open spec fn sits_on(node: NodeView) -> bool
    decreases node,
{
    all_sit_on(node.children, node.pr.head)
}

pub open spec fn all_sit_on(nodes: Seq<NodeView>, branch: Seq<char>) -> bool
    decreases nodes,
{
    nodes.len() > 0 ==> all_sit_on(nodes.drop_last(), branch) && nodes.last().pr.base == branch
        && sits_on(nodes.last())
}

/// The numbers of a tree are what became visited, and each was not before.
proof fn lemma_shown(kids: Seq<ListedView>, pr: ListedView, visited: Seq<u64>)
    ensures
        grown(kids, pr, visited).1 == visited + shown(grown(kids, pr, visited).0),
        grown(kids, pr, visited).0.pr == pr,
        sits_on(grown(kids, pr, visited).0),
        visited.push(pr.number).no_duplicates() ==> grown(kids, pr, visited).1.no_duplicates(),
    decreases fresh(kids, visited.push(pr.number), kids.len() as int), kids.len() + 1,
{
    let now = visited.push(pr.number);
    assert(now + shown_all(Seq::empty()) =~= now);
    lemma_shown_from(kids, pr.head, 0, now, Seq::empty(), now);
    let (children, end) = grown_from(kids, pr.head, 0, now, Seq::empty());
    assert(now + shown_all(children) =~= visited + shown(NodeView { pr, children }));
}

proof fn lemma_shown_from(
    kids: Seq<ListedView>,
    head: Seq<char>,
    i: int,
    visited: Seq<u64>,
    nodes: Seq<NodeView>,
    before: Seq<u64>,
)
    requires
        visited == before + shown_all(nodes),
        all_sit_on(nodes, head),
    ensures
        ({
            let (trees, now) = grown_from(kids, head, i, visited, nodes);
            &&& now == before + shown_all(trees)
            &&& all_sit_on(trees, head)
            &&& visited.no_duplicates() ==> now.no_duplicates()
        }),
    decreases fresh(kids, visited, kids.len() as int), kids.len() - i,
{
    if i < 0 || i >= kids.len() {
    } else if kids[i].base != head || visited.contains(kids[i].number) {
        lemma_shown_from(kids, head, i + 1, visited, nodes, before);
    } else {
        lemma_push_contains(visited, kids[i].number);
        lemma_fresh(kids, visited, visited.push(kids[i].number), kids.len() as int);
        lemma_grown_from(kids, head, i, visited, nodes);
        lemma_shown(kids, kids[i], visited);
        let (node, now) = grown(kids, kids[i], visited);
        let more = nodes.push(node);
        assert(more.drop_last() =~= nodes);
        assert(now =~= before + shown_all(more));
        lemma_shown_from(kids, head, i + 1, now, more, before);
    }
}

/// Some pull request among the given ones has the number.
pub open spec fn numbered(prs: Seq<ListedView>, number: u64) -> bool {
    exists|k: int| 0 <= k < prs.len() && (#[trigger] prs[k]).number == number
}

/// What becomes visited are the pull request and some children.
proof fn lemma_visited(kids: Seq<ListedView>, pr: ListedView, visited: Seq<u64>, number: u64)
    requires
        grown(kids, pr, visited).1.contains(number),
    ensures
        visited.contains(number) || number == pr.number || numbered(kids, number),
    decreases fresh(kids, visited.push(pr.number), kids.len() as int), kids.len() + 1,
{
    let now = visited.push(pr.number);
    lemma_visited_from(kids, pr.head, 0, now, Seq::empty(), number);
    if now.contains(number) {
        let k = choose|k: int| 0 <= k < now.len() && now[k] == number;
        if k < visited.len() {
            assert(visited[k] == number);
        }
    }
}

proof fn lemma_visited_from(
    kids: Seq<ListedView>,
    head: Seq<char>,
    i: int,
    visited: Seq<u64>,
    nodes: Seq<NodeView>,
    number: u64,
)
    requires
        grown_from(kids, head, i, visited, nodes).1.contains(number),
    ensures
        visited.contains(number) || numbered(kids, number),
    decreases fresh(kids, visited, kids.len() as int), kids.len() - i,
{
    if i < 0 || i >= kids.len() {
    } else if kids[i].base != head || visited.contains(kids[i].number) {
        lemma_visited_from(kids, head, i + 1, visited, nodes, number);
    } else {
        lemma_push_contains(visited, kids[i].number);
        lemma_fresh(kids, visited, visited.push(kids[i].number), kids.len() as int);
        lemma_grown_from(kids, head, i, visited, nodes);
        let (node, now) = grown(kids, kids[i], visited);
        lemma_visited_from(kids, head, i + 1, now, nodes.push(node), number);
        if now.contains(number) {
            lemma_visited(kids, kids[i], visited, number);
        }
    }
}

/// No two pull requests have the same number.
pub open spec fn distinct_numbers(prs: Seq<ListedView>) -> bool {
    forall|i: int, j: int|
        0 <= i < j < prs.len() ==> (#[trigger] prs[i]).number != (#[trigger] prs[j]).number
}

proof fn lemma_place_in(
    sorted: Seq<ListedView>,
    pr: ListedView,
    trunk: Option<Seq<char>>,
    n: int,
)
    requires
        0 <= n,
    ensures
        0 <= place_in(sorted, pr, trunk, n) <= n,
        forall|k: int|
            place_in(sorted, pr, trunk, n) <= k < n ==> listed_before(pr, #[trigger] sorted[k], trunk),
        place_in(sorted, pr, trunk, n) > 0 ==> !listed_before(
            pr,
            sorted[place_in(sorted, pr, trunk, n) - 1],
            trunk,
        ),
    decreases n,
{
    if n > 0 && listed_before(pr, sorted[n - 1], trunk) {
        lemma_place_in(sorted, pr, trunk, n - 1);
    }
}

/// What is chosen is what there is of its kind.
proof fn lemma_chosen(prs: Seq<ListedView>, children: bool, trunk: Option<Seq<char>>, n: int)
    requires
        0 <= n <= prs.len(),
    ensures
        forall|k: int|
            0 <= k < chosen(prs, children, trunk, n).len() ==> exists|m: int|
                0 <= m < n && #[trigger] prs[m] == #[trigger] chosen(prs, children, trunk, n)[k]
                    && is_child(prs, prs[m]) == children,
        forall|m: int|
            0 <= m < n && is_child(prs, #[trigger] prs[m]) == children ==> chosen(
                prs,
                children,
                trunk,
                n,
            ).contains(prs[m]),
        distinct_numbers(prs) ==> distinct_numbers(chosen(prs, children, trunk, n)),
    decreases n,
{
    if n > 0 {
        lemma_chosen(prs, children, trunk, n - 1);
        let before = chosen(prs, children, trunk, n - 1);
        let pr = prs[n - 1];
        let after = chosen(prs, children, trunk, n);
        if is_child(prs, pr) == children {
            let at = place_in(before, pr, trunk, before.len() as int);
            lemma_place_in(before, pr, trunk, before.len() as int);
            assert(after == before.insert(at, pr));
            assert forall|k: int| 0 <= k < after.len() implies exists|m: int|
                0 <= m < n && #[trigger] prs[m] == #[trigger] after[k] && is_child(prs, prs[m])
                    == children by {
                if k == at {
                    assert(after[k] == prs[n - 1]);
                } else {
                    let j = if k < at {
                        k
                    } else {
                        k - 1
                    };
                    assert(after[k] == before[j]);
                    let m = choose|m: int|
                        0 <= m < n - 1 && #[trigger] prs[m] == before[j] && is_child(prs, prs[m])
                            == children;
                    assert(prs[m] == after[k]);
                }
            }
            assert forall|m: int| 0 <= m < n && is_child(prs, #[trigger] prs[m])
                == children implies after.contains(prs[m]) by {
                if m == n - 1 {
                    assert(after[at] == prs[m]);
                } else {
                    let j = choose|j: int| 0 <= j < before.len() && before[j] == prs[m];
                    assert(after[if j < at {
                        j
                    } else {
                        j + 1
                    }] == prs[m]);
                }
            }
            if distinct_numbers(prs) {
                assert forall|j: int| 0 <= j < before.len() implies before[j].number
                    != pr.number by {
                    let m = choose|m: int|
                        0 <= m < n - 1 && #[trigger] prs[m] == before[j] && is_child(prs, prs[m])
                            == children;
                }
                assert forall|i: int, j: int| 0 <= i < j < after.len() implies (
                #[trigger] after[i]).number != (#[trigger] after[j]).number by {
                    let a = if i < at {
                        i
                    } else {
                        i - 1
                    };
                    let b = if j < at {
                        j
                    } else {
                        j - 1
                    };
                    if i != at {
                        assert(after[i] == before[a]);
                    }
                    if j != at {
                        assert(after[j] == before[b]);
                    }
                }
            }
        } else {
            assert(after == before);
            assert forall|k: int| 0 <= k < after.len() implies exists|m: int|
                0 <= m < n && #[trigger] prs[m] == #[trigger] after[k] && is_child(prs, prs[m])
                    == children by {
                let m = choose|m: int|
                    0 <= m < n - 1 && #[trigger] prs[m] == before[k] && is_child(prs, prs[m])
                        == children;
                assert(prs[m] == after[k]);
            }
        }
    }
}

proof fn lemma_shown_update(stacks: Seq<PrStackView>, k: int, node: NodeView, n: int)
    requires
        0 <= k < stacks.len(),
        0 <= n <= stacks.len(),
    ensures
        ({
            let after = stacks.update(
                k,
                PrStackView { roots: stacks[k].roots.push(node), ..stacks[k] },
            );
            shown_in(after, n) == if k < n {
                shown_in(stacks, n).add(shown(node).to_multiset())
            } else {
                shown_in(stacks, n)
            }
        }),
    decreases n,
{
    let after = stacks.update(k, PrStackView { roots: stacks[k].roots.push(node), ..stacks[k] });
    if n > 0 {
        lemma_shown_update(stacks, k, node, n - 1);
        if n - 1 == k {
            assert(stacks[k].roots.push(node).drop_last() =~= stacks[k].roots);
            vstd::seq_lib::lemma_multiset_commutative(shown_all(stacks[k].roots), shown(node));
        }
        assert(shown_in(after, n) =~= if k < n {
            shown_in(stacks, n).add(shown(node).to_multiset())
        } else {
            shown_in(stacks, n)
        });
    }
}

proof fn lemma_shown_push(stacks: Seq<PrStackView>, stack: PrStackView, n: int)
    requires
        0 <= n <= stacks.len(),
    ensures
        shown_in(stacks.push(stack), n) == shown_in(stacks, n),
    decreases n,
{
    if n > 0 {
        lemma_shown_push(stacks, stack, n - 1);
    }
}

proof fn lemma_stack_index(stacks: Seq<PrStackView>, base: Seq<char>, k: int)
    requires
        0 <= k,
    ensures
        match stack_index(stacks, base, k) {
            Some(i) => k <= i < stacks.len() && stacks[i].base == base,
            None => forall|i: int| k <= i < stacks.len() ==> (#[trigger] stacks[i]).base != base,
        },
    decreases stacks.len() - k,
{
    if k < stacks.len() && stacks[k].base != base {
        lemma_stack_index(stacks, base, k + 1);
    }
}

/// There is one stack for each base branch, and the trees in it sit on that
/// branch.
pub open spec fn grouped(stacks: Seq<PrStackView>) -> bool {
    &&& forall|i: int, j: int|
        0 <= i < j < stacks.len() ==> (#[trigger] stacks[i]).base != (#[trigger] stacks[j]).base
    &&& forall|i: int|
        0 <= i < stacks.len() ==> all_sit_on((#[trigger] stacks[i]).roots, stacks[i].base)
}

proof fn lemma_with_root(stacks: Seq<PrStackView>, base: Seq<char>, node: NodeView)
    requires
        grouped(stacks),
        node.pr.base == base,
        sits_on(node),
    ensures
        grouped(with_root(stacks, base, node)),
        ({
            let after = with_root(stacks, base, node);
            shown_in(after, after.len() as int) == shown_in(stacks, stacks.len() as int).add(
                shown(node).to_multiset(),
            )
        }),
{
    let after = with_root(stacks, base, node);
    lemma_stack_index(stacks, base, 0);
    match stack_index(stacks, base, 0) {
        Some(k) => {
            lemma_shown_update(stacks, k, node, stacks.len() as int);
            assert(stacks[k].roots.push(node).drop_last() =~= stacks[k].roots);
            assert(all_sit_on(stacks[k].roots.push(node), base));
            assert forall|i: int, j: int| 0 <= i < j < after.len() implies (
            #[trigger] after[i]).base != (#[trigger] after[j]).base by {
                assert(stacks[i].base != stacks[j].base);
            }
            assert forall|i: int| 0 <= i < after.len() implies all_sit_on(
                (#[trigger] after[i]).roots,
                after[i].base,
            ) by {
                assert(all_sit_on(stacks[i].roots, stacks[i].base));
            }
        },
        None => {
            let one = PrStackView { base, roots: seq![node] };
            lemma_shown_push(stacks, one, stacks.len() as int);
            assert(seq![node].drop_last() =~= Seq::<NodeView>::empty());
            assert(shown_all(Seq::<NodeView>::empty()) =~= Seq::empty());
            assert(shown_all(seq![node]) =~= shown(node));
            assert(all_sit_on(Seq::empty(), base));
            assert(all_sit_on(seq![node], base));
        },
    }
}

proof fn lemma_stacks_from(
    kids: Seq<ListedView>,
    roots: Seq<ListedView>,
    i: int,
    visited: Seq<u64>,
    stacks: Seq<PrStackView>,
)
    requires
        0 <= i <= roots.len(),
        grouped(stacks),
        shown_in(stacks, stacks.len() as int) == visited.to_multiset(),
    ensures
        ({
            let end = stacks_from(kids, roots, i, visited, stacks);
            &&& grouped(end)
            &&& forall|number: u64|
                visited.contains(number) || (exists|k: int|
                    i <= k < roots.len() && (#[trigger] roots[k]).number == number)
                    ==> #[trigger] shown_in(end, end.len() as int).contains(number)
        }),
        ({
            let end = stacks_from(kids, roots, i, visited, stacks);
            distinct_numbers(roots) && visited.no_duplicates() && (forall|k: int, m: int|
                0 <= k < roots.len() && 0 <= m < kids.len() ==> (#[trigger] roots[k]).number != (
                #[trigger] kids[m]).number) && (forall|k: int|
                i <= k < roots.len() ==> !visited.contains((#[trigger] roots[k]).number))
                ==> forall|number: u64| #[trigger]
                shown_in(end, end.len() as int).count(number) <= 1
        }),
    decreases roots.len() - i,
{
    broadcast use vstd::seq_lib::group_to_multiset_ensures;

    if i < roots.len() {
        let (node, now) = grown(kids, roots[i], visited);
        let more = with_root(stacks, roots[i].base, node);
        lemma_shown(kids, roots[i], visited);
        lemma_with_root(stacks, roots[i].base, node);
        vstd::seq_lib::lemma_multiset_commutative(visited, shown(node));
        lemma_stacks_from(kids, roots, i + 1, now, more);
        assert(now.contains(roots[i].number)) by {
            assert(now[visited.len() as int] == roots[i].number);
        }
        assert forall|number: u64| visited.contains(number) implies now.contains(number) by {
            let k = choose|k: int| 0 <= k < visited.len() && visited[k] == number;
            assert(now[k] == number);
        }
        if distinct_numbers(roots) && visited.no_duplicates() && (forall|k: int, m: int|
            0 <= k < roots.len() && 0 <= m < kids.len() ==> (#[trigger] roots[k]).number != (
            #[trigger] kids[m]).number) && (forall|k: int|
            i <= k < roots.len() ==> !visited.contains((#[trigger] roots[k]).number)) {
            assert(!visited.contains(roots[i].number));
            assert(visited.push(roots[i].number).no_duplicates());
            assert forall|k: int| i + 1 <= k < roots.len() implies !now.contains(
                (#[trigger] roots[k]).number,
            ) by {
                if now.contains(roots[k].number) {
                    lemma_visited(kids, roots[i], visited, roots[k].number);
                }
            }
        }
    } else {
        if visited.no_duplicates() {
            visited.lemma_multiset_has_no_duplicates();
        }
    }
}

/// Where the numbers differ, no pull request is shown twice, and every one that
/// sits on no other one is shown. There is one stack for each base branch, and
/// every tree sits on the branch that it is shown on.
pub proof fn law_shown_once(prs: Seq<ListedView>, trunk: Seq<char>)
    requires
        distinct_numbers(prs),
    ensures
        ({
            let stacks = stacks_of(prs, trunk);
            &&& grouped(stacks)
            &&& forall|number: u64| #[trigger]
                shown_in(stacks, stacks.len() as int).count(number) <= 1
            &&& forall|k: int|
                0 <= k < prs.len() && !is_child(prs, #[trigger] prs[k]) ==> shown_in(
                    stacks,
                    stacks.len() as int,
                ).contains(prs[k].number)
        }),
{
    broadcast use vstd::seq_lib::group_to_multiset_ensures;

    let kids = children_of(prs);
    let roots = roots_of(prs, trunk);
    let n = prs.len() as int;
    lemma_chosen(prs, true, None, n);
    lemma_chosen(prs, false, Some(trunk), n);
    assert forall|k: int, m: int| 0 <= k < roots.len() && 0 <= m < kids.len() implies (
    #[trigger] roots[k]).number != (#[trigger] kids[m]).number by {
        let a = choose|a: int|
            0 <= a < n && #[trigger] prs[a] == roots[k] && is_child(prs, prs[a]) == false;
        let b = choose|b: int|
            0 <= b < n && #[trigger] prs[b] == kids[m] && is_child(prs, prs[b]) == true;
    }
    assert(Seq::<u64>::empty().to_multiset() =~= Multiset::empty());
    lemma_stacks_from(kids, roots, 0, Seq::empty(), Seq::empty());
    let stacks = stacks_of(prs, trunk);
    assert forall|k: int| 0 <= k < prs.len() && !is_child(prs, #[trigger] prs[k]) implies shown_in(
        stacks,
        stacks.len() as int,
    ).contains(prs[k].number) by {
        assert(roots.contains(prs[k]));
    }
}

proof fn lemma_text_order(a: Seq<char>, b: Seq<char>, c: Seq<char>)
    ensures
        !(text_before(a, b) && text_before(b, a)),
        !text_before(a, b) && !text_before(b, a) ==> a == b,
        !text_before(b, a) && !text_before(c, b) ==> !text_before(c, a),
    decreases a.len(),
{
    if a.len() > 0 && b.len() > 0 && a[0] == b[0] {
        lemma_text_order(a.skip(1), b.skip(1), c.skip(1));
        if a.skip(1) == b.skip(1) {
            assert(a =~= seq![a[0]] + a.skip(1));
            assert(b =~= seq![b[0]] + b.skip(1));
        }
    } else if a.len() == 0 && b.len() == 0 {
        assert(a =~= b);
    }
}

proof fn lemma_listed_order(a: ListedView, b: ListedView, c: ListedView, trunk: Option<Seq<char>>)
    ensures
        !(listed_before(a, b, trunk) && listed_before(b, a, trunk)),
        !listed_before(b, a, trunk) && !listed_before(c, b, trunk) ==> !listed_before(c, a, trunk),
{
    lemma_text_order(a.base, b.base, c.base);
    lemma_text_order(b.base, c.base, a.base);
    lemma_text_order(c.base, a.base, b.base);
}

/// No pull request is listed before one that comes earlier.
pub open spec fn in_order(prs: Seq<ListedView>, trunk: Option<Seq<char>>) -> bool {
    forall|i: int, j: int|
        0 <= i < j < prs.len() ==> !listed_before(#[trigger] prs[j], #[trigger] prs[i], trunk)
}

proof fn lemma_chosen_in_order(
    prs: Seq<ListedView>,
    children: bool,
    trunk: Option<Seq<char>>,
    n: int,
)
    ensures
        in_order(chosen(prs, children, trunk, n), trunk),
    decreases n,
{
    if n > 0 {
        lemma_chosen_in_order(prs, children, trunk, n - 1);
        let before = chosen(prs, children, trunk, n - 1);
        let pr = prs[n - 1];
        let after = chosen(prs, children, trunk, n);
        if is_child(prs, pr) == children {
            let at = place_in(before, pr, trunk, before.len() as int);
            lemma_place_in(before, pr, trunk, before.len() as int);
            assert(after == before.insert(at, pr));
            assert forall|i: int, j: int| 0 <= i < j < after.len() implies !listed_before(
                #[trigger] after[j],
                #[trigger] after[i],
                trunk,
            ) by {
                let a = if i < at {
                    i
                } else {
                    i - 1
                };
                let b = if j < at {
                    j
                } else {
                    j - 1
                };
                if i != at {
                    assert(after[i] == before[a]);
                }
                if j != at {
                    assert(after[j] == before[b]);
                }
                if j == at {
                    if a < at - 1 {
                        assert(!listed_before(before[at - 1], before[a], trunk));
                        lemma_listed_order(before[a], before[at - 1], pr, trunk);
                    }
                } else if i == at {
                    assert(listed_before(pr, before[b], trunk));
                    lemma_listed_order(pr, before[b], pr, trunk);
                } else {
                    assert(!listed_before(before[b], before[a], trunk));
                }
            }
        } else {
            assert(after == before);
        }
    }
}

/// The bottoms of the stacks are in order: those on the trunk first, then by base
/// branch, then by number. What sits on them is in order of its numbers.
pub proof fn law_listed_in_order(prs: Seq<ListedView>, trunk: Seq<char>)
    ensures
        in_order(roots_of(prs, trunk), Some(trunk)),
        in_order(children_of(prs), None),
{
    lemma_chosen_in_order(prs, false, Some(trunk), prs.len() as int);
    lemma_chosen_in_order(prs, true, None, prs.len() as int);
}

/// Everything on top of what is visited is visited as well.
spec fn closed(kids: Seq<ListedView>, visited: Seq<u64>) -> bool {
    forall|a: int, m: int|
        0 <= a < kids.len() && 0 <= m < kids.len() && visited.contains(
            (#[trigger] kids[a]).number,
        ) && (#[trigger] kids[m]).base == kids[a].head ==> visited.contains(kids[m].number)
}

/// Everything on top of what has become visited is visited as well.
spec fn closed_since(kids: Seq<ListedView>, old: Seq<u64>, visited: Seq<u64>) -> bool {
    forall|a: int, m: int|
        0 <= a < kids.len() && 0 <= m < kids.len() && visited.contains(
            (#[trigger] kids[a]).number,
        ) && !old.contains(kids[a].number) && (#[trigger] kids[m]).base == kids[a].head
            ==> visited.contains(kids[m].number)
}

/// Everything that sits on a branch is visited.
spec fn covers(kids: Seq<ListedView>, head: Seq<char>, i: int, visited: Seq<u64>) -> bool {
    forall|m: int|
        i <= m < kids.len() && (#[trigger] kids[m]).base == head ==> visited.contains(
            kids[m].number,
        )
}

proof fn lemma_closed(kids: Seq<ListedView>, pr: ListedView, visited: Seq<u64>)
    requires
        distinct_numbers(kids),
    ensures
        covers(kids, pr.head, 0, grown(kids, pr, visited).1),
        closed_since(kids, visited.push(pr.number), grown(kids, pr, visited).1),
    decreases fresh(kids, visited.push(pr.number), kids.len() as int), kids.len() + 1,
{
    lemma_closed_from(kids, pr.head, 0, visited.push(pr.number), Seq::empty());
}

proof fn lemma_closed_from(
    kids: Seq<ListedView>,
    head: Seq<char>,
    i: int,
    visited: Seq<u64>,
    nodes: Seq<NodeView>,
)
    requires
        0 <= i,
        distinct_numbers(kids),
    ensures
        covers(kids, head, i, grown_from(kids, head, i, visited, nodes).1),
        closed_since(kids, visited, grown_from(kids, head, i, visited, nodes).1),
    decreases fresh(kids, visited, kids.len() as int), kids.len() - i,
{
    let end = grown_from(kids, head, i, visited, nodes).1;
    lemma_grown_from(kids, head, i, visited, nodes);
    if i >= kids.len() {
    } else if kids[i].base != head || visited.contains(kids[i].number) {
        lemma_closed_from(kids, head, i + 1, visited, nodes);
        assert(end == grown_from(kids, head, i + 1, visited, nodes).1);
        assert forall|m: int|
            i <= m < kids.len() && (#[trigger] kids[m]).base == head implies end.contains(
            kids[m].number,
        ) by {}
    } else {
        lemma_push_contains(visited, kids[i].number);
        lemma_fresh(kids, visited, visited.push(kids[i].number), kids.len() as int);
        let (node, now) = grown(kids, kids[i], visited);
        lemma_closed(kids, kids[i], visited);
        lemma_grown(kids, kids[i], visited);
        lemma_closed_from(kids, head, i + 1, now, nodes.push(node));
        lemma_grown_from(kids, head, i + 1, now, nodes.push(node));
        assert(end == grown_from(kids, head, i + 1, now, nodes.push(node)).1);
        assert(visited.push(kids[i].number)[visited.len() as int] == kids[i].number);
        assert(now.contains(kids[i].number));
        assert forall|m: int|
            i <= m < kids.len() && (#[trigger] kids[m]).base == head implies end.contains(
            kids[m].number,
        ) by {}
        assert forall|a: int, m: int|
            0 <= a < kids.len() && 0 <= m < kids.len() && end.contains(
                (#[trigger] kids[a]).number,
            ) && !visited.contains(kids[a].number) && (#[trigger] kids[m]).base
                == kids[a].head implies end.contains(kids[m].number) by {
            if now.contains(kids[a].number) {
                if a == i {
                    assert(now.contains(kids[m].number));
                } else {
                    if visited.push(kids[i].number).contains(kids[a].number) {
                        let x = choose|x: int|
                            0 <= x < visited.push(kids[i].number).len() && visited.push(
                                kids[i].number,
                            )[x] == kids[a].number;
                        if x < visited.len() {
                            assert(visited[x] == kids[a].number);
                        }
                    }
                    assert(now.contains(kids[m].number));
                }
            }
        }
    }
}

/// All that is visited in the end.
proof fn lemma_all_visited(
    kids: Seq<ListedView>,
    roots: Seq<ListedView>,
    i: int,
    visited: Seq<u64>,
    stacks: Seq<PrStackView>,
) -> (all: Seq<u64>)
    requires
        0 <= i <= roots.len(),
        grouped(stacks),
        shown_in(stacks, stacks.len() as int) == visited.to_multiset(),
        distinct_numbers(kids),
        closed(kids, visited),
        forall|k: int, m: int|
            0 <= k < roots.len() && 0 <= m < kids.len() ==> (#[trigger] roots[k]).number != (
            #[trigger] kids[m]).number,
        forall|k: int|
            0 <= k < i ==> visited.contains((#[trigger] roots[k]).number) && covers(
                kids,
                roots[k].head,
                0,
                visited,
            ),
    ensures
        closed(kids, all),
        forall|k: int|
            0 <= k < roots.len() ==> all.contains((#[trigger] roots[k]).number) && covers(
                kids,
                roots[k].head,
                0,
                all,
            ),
        ({
            let end = stacks_from(kids, roots, i, visited, stacks);
            forall|number: u64|
                all.contains(number) ==> #[trigger] shown_in(end, end.len() as int).contains(number)
        }),
    decreases roots.len() - i,
{
    broadcast use vstd::seq_lib::group_to_multiset_ensures;

    if i < roots.len() {
        let (node, now) = grown(kids, roots[i], visited);
        let more = with_root(stacks, roots[i].base, node);
        lemma_shown(kids, roots[i], visited);
        lemma_with_root(stacks, roots[i].base, node);
        vstd::seq_lib::lemma_multiset_commutative(visited, shown(node));
        lemma_closed(kids, roots[i], visited);
        lemma_grown(kids, roots[i], visited);
        let begun = visited.push(roots[i].number);
        assert(begun[visited.len() as int] == roots[i].number);
        assert forall|number: u64| visited.contains(number) implies now.contains(number) by {
            let k = choose|k: int| 0 <= k < visited.len() && visited[k] == number;
            assert(begun[k] == number);
            assert(begun.contains(number));
            assert(now.contains(number));
        }
        assert(begun.contains(roots[i].number));
        assert(now.contains(roots[i].number));
        assert(closed(kids, now)) by {
            assert forall|a: int, m: int|
                0 <= a < kids.len() && 0 <= m < kids.len() && now.contains(
                    (#[trigger] kids[a]).number,
                ) && (#[trigger] kids[m]).base == kids[a].head implies now.contains(
                kids[m].number,
            ) by {
                if begun.contains(kids[a].number) {
                    let x = choose|x: int| 0 <= x < begun.len() && begun[x] == kids[a].number;
                    assert(roots[i].number != kids[a].number);
                    assert(visited[x] == kids[a].number);
                    assert(visited.contains(kids[m].number));
                }
            }
        }
        assert forall|k: int| 0 <= k < i + 1 implies now.contains((#[trigger] roots[k]).number)
            && covers(kids, roots[k].head, 0, now) by {
            if k < i {
                assert(visited.contains(roots[k].number));
                assert(covers(kids, roots[k].head, 0, visited));
            }
        }
        assert(stacks_from(kids, roots, i, visited, stacks) == stacks_from(
            kids,
            roots,
            i + 1,
            now,
            more,
        ));
        lemma_all_visited(kids, roots, i + 1, now, more)
    } else {
        assert forall|number: u64| visited.contains(number) implies #[trigger] shown_in(
            stacks,
            stacks.len() as int,
        ).contains(number) by {
            assert(visited.to_multiset().count(number) > 0);
        }
        visited
    }
}

/// There is no circle: what sits on another one has a higher rank.
pub open spec fn ranked(prs: Seq<ListedView>, rank: spec_fn(u64) -> nat) -> bool {
    forall|a: int, b: int|
        0 <= a < prs.len() && 0 <= b < prs.len() && (#[trigger] prs[a]).base == (
        #[trigger] prs[b]).head && prs[a].base != prs[a].head ==> rank(prs[b].number) < rank(prs[a].number)
}

proof fn lemma_reached(
    prs: Seq<ListedView>,
    trunk: Seq<char>,
    all: Seq<u64>,
    rank: spec_fn(u64) -> nat,
    k: int,
)
    requires
        ranked(prs, rank),
        closed(children_of(prs), all),
        forall|m: int|
            0 <= m < roots_of(prs, trunk).len() ==> all.contains(
                (#[trigger] roots_of(prs, trunk)[m]).number,
            ) && covers(children_of(prs), roots_of(prs, trunk)[m].head, 0, all),
        0 <= k < prs.len(),
    ensures
        all.contains(prs[k].number),
    decreases rank(prs[k].number),
{
    let kids = children_of(prs);
    let roots = roots_of(prs, trunk);
    let n = prs.len() as int;
    lemma_chosen(prs, true, None, n);
    lemma_chosen(prs, false, Some(trunk), n);
    if is_child(prs, prs[k]) {
        assert(kids.contains(prs[k]));
        let m = choose|m: int| 0 <= m < kids.len() && kids[m] == prs[k];
        let b = choose|b: int| 0 <= b < prs.len() && (#[trigger] prs[b]).head == prs[k].base;
        lemma_reached(prs, trunk, all, rank, b);
        if is_child(prs, prs[b]) {
            assert(kids.contains(prs[b]));
            let a = choose|a: int| 0 <= a < kids.len() && kids[a] == prs[b];
            assert(all.contains(kids[a].number));
            assert(kids[m].base == kids[a].head);
        } else {
            assert(roots.contains(prs[b]));
            let a = choose|a: int| 0 <= a < roots.len() && roots[a] == prs[b];
            assert(covers(kids, roots[a].head, 0, all));
            assert(kids[m].base == roots[a].head);
        }
    } else {
        assert(roots.contains(prs[k]));
        let m = choose|m: int| 0 <= m < roots.len() && roots[m] == prs[k];
        assert(all.contains(roots[m].number));
    }
}

/// Where the numbers differ and there is no circle, every pull request is shown.
pub proof fn law_all_are_shown(
    prs: Seq<ListedView>,
    trunk: Seq<char>,
    rank: spec_fn(u64) -> nat,
)
    requires
        distinct_numbers(prs),
        ranked(prs, rank),
    ensures
        forall|k: int|
            0 <= k < prs.len() ==> shown_in(
                stacks_of(prs, trunk),
                stacks_of(prs, trunk).len() as int,
            ).contains((#[trigger] prs[k]).number),
{
    broadcast use vstd::seq_lib::group_to_multiset_ensures;

    let kids = children_of(prs);
    let roots = roots_of(prs, trunk);
    let n = prs.len() as int;
    lemma_chosen(prs, true, None, n);
    lemma_chosen(prs, false, Some(trunk), n);
    assert forall|k: int, m: int| 0 <= k < roots.len() && 0 <= m < kids.len() implies (
    #[trigger] roots[k]).number != (#[trigger] kids[m]).number by {
        let a = choose|a: int|
            0 <= a < n && #[trigger] prs[a] == roots[k] && is_child(prs, prs[a]) == false;
        let b = choose|b: int|
            0 <= b < n && #[trigger] prs[b] == kids[m] && is_child(prs, prs[b]) == true;
    }
    assert(Seq::<u64>::empty().to_multiset() =~= Multiset::empty());
    let all = lemma_all_visited(kids, roots, 0, Seq::empty(), Seq::empty());
    assert forall|k: int| 0 <= k < prs.len() implies shown_in(
        stacks_of(prs, trunk),
        stacks_of(prs, trunk).len() as int,
    ).contains((#[trigger] prs[k]).number) by {
        lemma_reached(prs, trunk, all, rank, k);
    }
}

} // verus!
