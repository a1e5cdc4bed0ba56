//! What `list` promises.

use vstd::prelude::*;

use crate::forge::{ListedView, ReviewDecision};
use crate::list;
use crate::list::{NodeView, PrStackView};
use crate::text;

verus! {

/// How the line of a pull request starts if a word tells how far its review has got.
pub open spec fn opening(pr: ListedView, indent: Seq<char>, word: Seq<char>) -> Seq<char> {
    indent + "#"@ + text::decimal(pr.number as nat) + "  "@ + word + "  "@
}

proof fn lemma_words()
    ensures
        "[Draft]"@.len() == 7 && "[Draft]"@[1] == 'D',
        "[Approved]"@.len() == 10 && "[Approved]"@[1] == 'A',
        "[Changes Requested]"@.len() == 19 && "[Changes Requested]"@[1] == 'C',
        "[Pending]"@.len() == 9 && "[Pending]"@[1] == 'P',
{
    reveal_strlit("[Draft]");
    reveal_strlit("[Approved]");
    reveal_strlit("[Changes Requested]");
    reveal_strlit("[Pending]");
}

proof fn lemma_opening(pr: ListedView, indent: Seq<char>, word: Seq<char>)
    requires
        word.len() > 1,
    ensures
        ({
            let shown = list::decision_shown(pr.review_decision, pr.draft, false);
            let line = list::pr_line(pr, indent, false);
            &&& word == shown ==> text::starts_with(line, opening(pr, indent, word)) && line
                == opening(pr, indent, word) + pr.title + "\n"@
            &&& shown.len() > 1 && word[1] != shown[1] ==> !text::starts_with(
                line,
                opening(pr, indent, word),
            )
        }),
{
    let shown = list::decision_shown(pr.review_decision, pr.draft, false);
    let line = list::pr_line(pr, indent, false);
    let start = opening(pr, indent, word);
    let at: int = (indent.len() + "#"@.len() + text::decimal(pr.number as nat).len() + "  "@.len()) as int;
    if word == shown {
        assert(line =~= start + pr.title + "\n"@);
        assert(line.take(start.len() as int) =~= start);
    }
    if shown.len() > 1 && word[1] != shown[1] {
        assert(start[at + 1] == word[1]);
        assert(line[at + 1] == shown[1]);
        if text::starts_with(line, start) {
            assert(line.take(start.len() as int)[at + 1] == start[at + 1]);
        }
    }
}

/// Without colours, the line of a pull request gives its number, how far its review has
/// got, and its title, in this order; and what it says of the review is so: a draft is
/// called one, and of the others one is called approved exactly if it was approved, and
/// changes are said to be requested exactly if they were.
pub proof fn law_line_tells_the_review(pr: ListedView, indent: Seq<char>)
    ensures
        ({
            let line = list::pr_line(pr, indent, false);
            let says = |word: Seq<char>| text::starts_with(line, opening(pr, indent, word));
            &&& says("[Draft]"@) <==> pr.draft
            &&& says("[Approved]"@) <==> !pr.draft && pr.review_decision == Some(
                ReviewDecision::Approved,
            )
            &&& says("[Changes Requested]"@) <==> !pr.draft && pr.review_decision == Some(
                ReviewDecision::ChangesRequested,
            )
            &&& says("[Pending]"@) <==> !pr.draft && (pr.review_decision is None
                || pr.review_decision == Some(ReviewDecision::ReviewRequired))
            &&& exists|word: Seq<char>|
                line == #[trigger] opening(pr, indent, word) + pr.title + "\n"@
        }),
{
    lemma_words();
    lemma_opening(pr, indent, "[Draft]"@);
    lemma_opening(pr, indent, "[Approved]"@);
    lemma_opening(pr, indent, "[Changes Requested]"@);
    lemma_opening(pr, indent, "[Pending]"@);
    let shown = list::decision_shown(pr.review_decision, pr.draft, false);
    lemma_opening(pr, indent, shown);
}

/// A text holds another one.
pub open spec fn holds(text: Seq<char>, part: Seq<char>) -> bool {
    exists|a: Seq<char>, b: Seq<char>| text == #[trigger] (a + part + b)
}

/// The pull request is in the tree, so many levels up.
pub open spec fn in_tree(node: NodeView, pr: ListedView, level: nat) -> bool
    decreases node,
{
    ||| level == 0 && node.pr == pr
    ||| level > 0 && in_forest(node.children, pr, (level - 1) as nat)
}

pub open spec fn in_forest(nodes: Seq<NodeView>, pr: ListedView, level: nat) -> bool
    decreases nodes,
{
    if nodes.len() == 0 {
        false
    } else {
        in_forest(nodes.drop_last(), pr, level) || in_tree(nodes.last(), pr, level)
    }
}

/// So many steps of indentation.
pub open spec fn steps_in(level: nat) -> Seq<char>
    decreases level,
{
    if level == 0 {
        Seq::empty()
    } else {
        "  "@ + steps_in((level - 1) as nat)
    }
}

pub proof fn lemma_holds_in(a: Seq<char>, text: Seq<char>, b: Seq<char>, part: Seq<char>)
    requires
        holds(text, part),
    ensures
        holds(a + text + b, part),
{
    let (x, y) = choose|x: Seq<char>, y: Seq<char>| text == #[trigger] (x + part + y);
    assert(a + text + b =~= (a + x) + part + (y + b));
}

proof fn lemma_tree_line(node: NodeView, pr: ListedView, level: nat, indent: Seq<char>, colors: bool)
    requires
        in_tree(node, pr, level),
    ensures
        holds(
            list::tree_lines(node, indent, colors),
            list::pr_line(pr, indent + steps_in(level), colors),
        ),
    decreases node,
{
    let own = list::pr_line(node.pr, indent, colors);
    let rest = list::forest_lines(node.children, indent + "  "@, colors);
    let empty = Seq::<char>::empty();
    if level == 0 {
        assert(indent + steps_in(level) =~= indent);
        assert(own + rest =~= empty + own + rest);
        assert(holds(own + rest, own));
    } else {
        let less = (level - 1) as nat;
        lemma_forest_line(node.children, pr, less, indent + "  "@, colors);
        assert(indent + steps_in(level) =~= indent + "  "@ + steps_in(less));
        lemma_holds_in(own, rest, empty, list::pr_line(pr, indent + steps_in(level), colors));
        assert(own + rest + empty =~= own + rest);
    }
}

proof fn lemma_forest_line(
    nodes: Seq<NodeView>,
    pr: ListedView,
    level: nat,
    indent: Seq<char>,
    colors: bool,
)
    requires
        in_forest(nodes, pr, level),
    ensures
        holds(
            list::forest_lines(nodes, indent, colors),
            list::pr_line(pr, indent + steps_in(level), colors),
        ),
    decreases nodes,
{
    let line = list::pr_line(pr, indent + steps_in(level), colors);
    let before = list::forest_lines(nodes.drop_last(), indent, colors);
    let last = list::tree_lines(nodes.last(), indent, colors);
    let empty = Seq::<char>::empty();
    if in_forest(nodes.drop_last(), pr, level) {
        lemma_forest_line(nodes.drop_last(), pr, level, indent, colors);
        lemma_holds_in(empty, before, last, line);
        assert(empty + before + last =~= before + last);
    } else {
        lemma_tree_line(nodes.last(), pr, level, indent, colors);
        lemma_holds_in(before, last, empty, line);
        assert(before + last + empty =~= before + last);
    }
}

proof fn lemma_stacks_line(
    stacks: Seq<PrStackView>,
    n: int,
    k: int,
    pr: ListedView,
    level: nat,
    colors: bool,
)
    requires
        0 <= k < n <= stacks.len(),
        in_forest(stacks[k].roots, pr, level),
    ensures
        holds(
            list::stacks_lines(stacks, n, colors),
            list::pr_line(pr, steps_in(level), colors),
        ),
    decreases n,
{
    let empty = Seq::<char>::empty();
    let line = list::pr_line(pr, steps_in(level), colors);
    let above = list::stacks_lines(stacks, n - 1, colors);
    let gap = if n > 1 {
        "\n"@
    } else {
        empty
    };
    let last = list::forest_lines(stacks[n - 1].roots, empty, colors);
    let all = list::stacks_lines(stacks, n, colors);
    assert(all =~= above + gap + last);
    if k == n - 1 {
        lemma_forest_line(stacks[k].roots, pr, level, empty, colors);
        assert(empty + steps_in(level) =~= steps_in(level));
        lemma_holds_in(above + gap, last, empty, line);
        assert(above + gap + last + empty =~= all);
    } else {
        lemma_stacks_line(stacks, n - 1, k, pr, level, colors);
        lemma_holds_in(empty, above, gap + last, line);
        assert(empty + above + (gap + last) =~= all);
    }
}

/// Every pull request in the stacks has its line in what is shown, indented by one step
/// for each pull request below it.
pub proof fn law_every_line_is_shown(
    stacks: Seq<PrStackView>,
    k: int,
    pr: ListedView,
    level: nat,
    colors: bool,
)
    requires
        0 <= k < stacks.len(),
        in_forest(stacks[k].roots, pr, level),
    ensures
        holds(
            list::listing(stacks, colors),
            list::pr_line(pr, steps_in(level), colors),
        ),
{
    lemma_stacks_line(stacks, stacks.len() as int, k, pr, level, colors);
}

} // verus!
