//! What is promised of the stack tables in the comments.

use vstd::prelude::*;

use crate::config::ConfigView;
use crate::forge::CommentView;
use crate::laws::listing;
use crate::stack;
use crate::stack::{Dep, StackView};
use crate::stack_comment;
use crate::tape;
use crate::tape::{RequestView, TapeView};
use crate::text;

verus! {

/// Layer `i` is layer `a`, or sits on it over so many layers.
pub open spec fn above(s: StackView, i: int, a: int, steps: nat) -> bool
    decreases steps,
{
    if steps == 0 {
        i == a
    } else {
        0 <= i < s.layers.len() && (s.layers[i].dep matches Dep::Layer(j) && above(
            s,
            j as int,
            a,
            (steps - 1) as nat,
        ))
    }
}

/// Layer `i` sits on the trunk over so many layers.
pub open spec fn level(s: StackView, i: int, steps: nat) -> bool {
    exists|a: int|
        0 <= a < s.layers.len() && !(s.layers[a].dep is Layer) && #[trigger] above(s, i, a, steps)
}

proof fn lemma_child(s: StackView, i: int, a: int, steps: nat) -> (child: int)
    requires
        stack::well_formed(s),
        above(s, i, a, steps),
        steps > 0,
        0 <= a < s.layers.len(),
    ensures
        a < child <= i < s.layers.len(),
        s.layers[child].dep == Dep::Layer(a as usize),
        above(s, i, child, (steps - 1) as nat),
    decreases steps,
{
    let j = s.layers[i].dep->Layer_0 as int;
    if steps == 1 {
        assert(above(s, j, a, 0));
        i
    } else {
        let child = lemma_child(s, j, a, (steps - 1) as nat);
        child
    }
}

proof fn lemma_tree_holds(
    s: StackView,
    parent: Option<usize>,
    from: int,
    depth: nat,
    current: int,
    a: int,
    i: int,
    steps: nat,
)
    requires
        stack::well_formed(s),
        0 <= from <= a < s.layers.len() <= usize::MAX,
        stack_comment::parent_of(s, a) == parent,
        above(s, i, a, steps),
        0 <= i < s.layers.len(),
    ensures
        listing::holds(
            stack_comment::tree_lines(s, parent, from, depth, current),
            stack_comment::layer_line(s, i, depth + steps, current),
        ),
    decreases s.layers.len() - from,
{
    let empty = Seq::<char>::empty();
    let line = stack_comment::layer_line(s, i, depth + steps, current);
    let rest = stack_comment::tree_lines(s, parent, from + 1, depth, current);
    if stack_comment::parent_of(s, from) == parent {
        let own = stack_comment::layer_line(s, from, depth, current);
        let sub = stack_comment::tree_lines(
            s,
            Some(from as usize),
            from + 1,
            depth + 1,
            current,
        );
        let all = own + sub + rest;
        if a == from {
            if steps == 0 {
                assert(all =~= empty + own + (sub + rest));
                assert(listing::holds(all, own));
            } else {
                let child = lemma_child(s, i, a, steps);
                lemma_tree_holds(
                    s,
                    Some(from as usize),
                    from + 1,
                    depth + 1,
                    current,
                    child,
                    i,
                    (steps - 1) as nat,
                );
                assert(depth + 1 + (steps - 1) as nat == depth + steps);
                listing::lemma_holds_in(own, sub, rest, line);
            }
        } else {
            lemma_tree_holds(s, parent, from + 1, depth, current, a, i, steps);
            listing::lemma_holds_in(own + sub, rest, empty, line);
            assert(own + sub + rest + empty =~= all);
        }
    } else {
        lemma_tree_holds(s, parent, from + 1, depth, current, a, i, steps);
    }
}

proof fn lemma_flat_holds(s: StackView, n: int, current: int, i: int)
    requires
        0 <= i < n <= s.layers.len(),
    ensures
        listing::holds(
            stack_comment::flat_lines(s, n, current),
            stack_comment::layer_line(s, i, 0, current),
        ),
    decreases n,
{
    let empty = Seq::<char>::empty();
    let before = stack_comment::flat_lines(s, n - 1, current);
    let last = stack_comment::layer_line(s, n - 1, 0, current);
    let line = stack_comment::layer_line(s, i, 0, current);
    if i == n - 1 {
        assert(before + last =~= before + last + empty);
        assert(listing::holds(before + last, last));
    } else {
        lemma_flat_holds(s, n - 1, current, i);
        listing::lemma_holds_in(empty, before, last, line);
        assert(empty + before + last =~= before + last);
    }
}

/// The table on a pull request lists every layer of the stack. In a stack without branches
/// all stand on one level, and in any other one each stands one level in from what it sits
/// on.
pub proof fn law_table_lists_every_layer(
    c: ConfigView,
    s: StackView,
    current: int,
    i: int,
    steps: nat,
)
    requires
        stack::well_formed(s),
        0 <= i < s.layers.len() <= usize::MAX,
        level(s, i, steps),
    ensures
        listing::holds(
            stack_comment::table(c, s, current),
            stack_comment::layer_line(
                s,
                i,
                if stack::linear(s) {
                    0
                } else {
                    1 + steps
                },
                current,
            ),
        ),
{
    let lead = "#### Stack\n\n- `"@ + c.trunk + "`\n"@;
    let foot = stack_comment::FOOTER@;
    if stack::linear(s) {
        let lines = stack_comment::flat_lines(s, s.layers.len() as int, current);
        lemma_flat_holds(s, s.layers.len() as int, current, i);
        listing::lemma_holds_in(
            lead,
            lines,
            foot,
            stack_comment::layer_line(s, i, 0, current),
        );
    } else {
        let a = choose|a: int|
            0 <= a < s.layers.len() && !(s.layers[a].dep is Layer) && #[trigger] above(
                s,
                i,
                a,
                steps,
            );
        lemma_tree_holds(s, None, 0, 1, current, a, i, steps);
        let lines = stack_comment::tree_lines(s, None, 0, 1, current);
        listing::lemma_holds_in(
            lead,
            lines,
            foot,
            stack_comment::layer_line(s, i, 1 + steps, current),
        );
    }
}

/// How a line starts that stands out, and how any other one does.
pub open spec fn standing_out(depth: nat) -> Seq<char> {
    stack_comment::indent(depth) + "- ➡️ **"@
}

/// The line of a layer gives its pull request and its subject, and exactly that of the
/// current one stands out.
pub proof fn law_table_line_tells_the_layer(s: StackView, i: int, depth: nat, current: int)
    requires
        0 <= i < s.layers.len(),
    ensures
        ({
            let line = stack_comment::layer_line(s, i, depth, current);
            let name = match s.layers[i].pr {
                Some(n) => "#"@ + text::decimal(n as nat),
                None => "(not submitted)"@,
            };
            &&& text::starts_with(line, standing_out(depth)) <==> i == current
            &&& listing::holds(line, name + " "@ + s.layers[i].message.subject)
        }),
{
    reveal_strlit("- ➡️ **");
    reveal_strlit("- ");
    reveal_strlit("#");
    reveal_strlit("(not submitted)");
    let line = stack_comment::layer_line(s, i, depth, current);
    let name = stack_comment::layer_reference(s, i);
    let subject = s.layers[i].message.subject;
    let part = name + " "@ + subject;
    let ind = stack_comment::indent(depth);
    let start = standing_out(depth);
    if i == current {
        assert(line =~= start + part + "**\n"@);
        assert(line.take(start.len() as int) =~= start);
    } else {
        assert(line =~= (ind + "- "@) + part + "\n"@);
        if text::starts_with(line, start) {
            let at = (ind.len() + 2) as int;
            assert(line[at] == name[0]);
            assert(line.take(start.len() as int)[at] == start[at]);
        }
    }
}

/// What keeping the comment on one layer up to date may do: only a comment that is there is
/// rewritten or deleted, the latter only where the layer is no longer part of a stack and
/// nothing is left of the comment; a new one is only put on the pull request of a layer
/// in a stack that has none, and it holds the table.
pub proof fn law_comment_is_kept_up_to_date(
    t: TapeView,
    c: ConfigView,
    s: StackView,
    i: int,
    number: u64,
    existing: Option<CommentView>,
)
    ensures
        tape::only(
            t,
            stack_comment::comment_updated(t, c, s, i, number, existing).0,
            |q: RequestView|
                match q {
                    RequestView::CreateComment { number: n, body } => n == number
                        && existing is None && stack_comment::in_stack(s, i),
                    RequestView::UpdateComment { id, body } => existing is Some && id
                        == existing->0.id && body != existing->0.body,
                    RequestView::DeleteComment { id } => existing is Some && id == existing->0.id
                        && !stack_comment::in_stack(s, i) && stack_comment::stripped_body(
                        existing->0.body,
                    ).len() == 0,
                    _ => false,
                },
        ),
        stack_comment::in_stack(s, i) && existing is None ==> stack_comment::comment_updated(
            t,
            c,
            s,
            i,
            number,
            existing,
        ).0.asked.len() == t.asked.len() + 1,
{
    broadcast use tape::lemma_only_ask;

    let allowed = |q: RequestView|
        match q {
            RequestView::CreateComment { number: n, body } => n == number && existing is None
                && stack_comment::in_stack(s, i),
            RequestView::UpdateComment { id, body } => existing is Some && id == existing->0.id
                && body != existing->0.body,
            RequestView::DeleteComment { id } => existing is Some && id == existing->0.id
                && !stack_comment::in_stack(s, i) && stack_comment::stripped_body(
                existing->0.body,
            ).len() == 0,
            _ => false,
        };
    tape::lemma_only_start(t, allowed);
}

} // verus!
