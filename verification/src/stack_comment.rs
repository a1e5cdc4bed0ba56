//! The stack table that is posted on each pull request.
//!
//! A stacked pull request looks no different from a standalone one, so without
//! this a reader has no way to tell that #102 is meaningless until #101 lands,
//! or that #103 is a sibling rather than a successor.
//!
//! The table is written into a marker-delimited block so that anything a human
//! adds around it survives being rewritten:
//!
//! ```text
//! <!-- nspr:stack -->
//! ...generated...
//! <!-- /nspr:stack -->
//! ```
//!
//! Splicing rather than replacing matters more than it looks: people reply to
//! these comments, and quietly eating an edit is the sort of thing that makes a
//! tool untrustworthy.

use vstd::prelude::*;

use crate::config::{Config, ConfigView};
use crate::forge::{Comment, CommentView};
use crate::markers;
use crate::markers::{contains, find_block};
use crate::stack;
use crate::stack::{Dep, Stack, StackView};
use crate::tape;
use crate::tape::{Halt, HaltView, ReplyView, Request, RequestView, Tape, TapeView};
use crate::text;
use crate::text::{
    blank, chars_of, find, push_decimal, same, text_between, trim_end_text, trim_text,
};

verus! {

pub const BEGIN: &'static str = "<!-- nspr:stack -->";

pub const END: &'static str = "<!-- /nspr:stack -->";

pub const LEGACY_SPR_MARKER: &'static str = "<!-- spr-dependencies -->";

pub const LEGACY_SPR_END: &'static str = "<!-- spr-dependencies-list-end -->";

/// The block with its markers.
pub open spec fn marked(block: Seq<char>) -> Seq<char> {
    BEGIN@ + "\n"@ + text::trim_end(block) + "\n"@ + END@
}

/// Where the block that `spr` wrote stands; without an end marker it goes on to
/// the end.
pub open spec fn legacy_block_in(body: Seq<char>) -> Option<(int, int)> {
    match text::find_from(body, LEGACY_SPR_MARKER@, 0) {
        Some(a) => match text::find_from(body, LEGACY_SPR_END@, a) {
            Some(b) => Some((a, b + LEGACY_SPR_END@.len())),
            None => Some((a, body.len() as int)),
        },
        None => None,
    }
}

/// The body with the given block in place of the generated one, or behind
/// everything else where there is none.
pub open spec fn spliced(body: Seq<char>, block: Seq<char>) -> Seq<char> {
    match markers::block_in(body, BEGIN@, END@) {
        Some((a, b)) => body.take(a) + marked(block) + body.skip(b),
        None => match legacy_block_in(body) {
            Some((a, b)) => body.take(a) + marked(block) + body.skip(b),
            None => if text::is_blank(body) {
                marked(block)
            } else {
                text::trim_end(body) + "\n\n"@ + marked(block)
            },
        },
    }
}

/// The text without the part between the two positions.
pub open spec fn cut(body: Seq<char>, range: Option<(int, int)>) -> Seq<char> {
    match range {
        Some((a, b)) => body.take(a) + body.skip(b),
        None => body,
    }
}

/// The body without any generated block.
pub open spec fn stripped_body(body: Seq<char>) -> Seq<char> {
    let once = cut(body, markers::block_in(body, BEGIN@, END@));
    text::trim(cut(once, legacy_block_in(once)))
}

fn marked_text(block: &str) -> (r: String)
    ensures
        r@ == marked(block@),
{
    let mut out = BEGIN.to_owned();
    out.append("\n");
    out.append(trim_end_text(block).as_str());
    out.append("\n");
    out.append(END);
    out
}

fn find_legacy_block(chars: &Vec<char>) -> (r: Option<(usize, usize)>)
    ensures
        match r {
            Some((a, b)) => a <= b <= chars@.len() && legacy_block_in(chars@) == Some(
                (a as int, b as int),
            ),
            None => legacy_block_in(chars@) is None,
        },
{
    let start = chars_of(LEGACY_SPR_MARKER);
    let stop = chars_of(LEGACY_SPR_END);
    let length: usize = chars.len();
    proof {
        text::lemma_find(chars@, LEGACY_SPR_MARKER@, 0);
    }
    match find(chars, &start, 0) {
        Some(a) => {
            proof {
                text::lemma_find(chars@, LEGACY_SPR_END@, a as int);
            }
            match find(chars, &stop, a) {
                Some(b) => Some((a, b + stop.len())),
                None => Some((a, length)),
            }
        },
        None => None,
    }
}

fn replace_between(chars: &Vec<char>, a: usize, b: usize, with: &str) -> (r: String)
    requires
        a <= b <= chars@.len(),
    ensures
        r@ == chars@.take(a as int) + with@ + chars@.skip(b as int),
{
    let mut out = text_between(chars, 0, a);
    out.append(with);
    out.append(text_between(chars, b, chars.len()).as_str());
    proof {
        assert(chars@.subrange(0, a as int) =~= chars@.take(a as int));
        assert(chars@.subrange(b as int, chars@.len() as int) =~= chars@.skip(b as int));
    }
    out
}

/// Replaces the generated block in `body`, or appends one if there is none.
///
/// A body that has a start marker but no end marker is treated as having no
/// block at all, rather than as licence to eat the rest of the comment.
pub fn splice(body: &str, block: &str) -> (r: String)
    ensures
        r@ == spliced(body@, block@),
{
    let block = marked_text(block);
    let chars = chars_of(body);
    match find_block(&chars, BEGIN, END) {
        Some((a, b)) => {
            return replace_between(&chars, a, b, block.as_str());
        },
        None => {},
    }
    match find_legacy_block(&chars) {
        Some((a, b)) => {
            return replace_between(&chars, a, b, block.as_str());
        },
        None => {},
    }
    if blank(body) {
        block
    } else {
        let mut out = trim_end_text(body);
        out.append("\n\n");
        out.append(block.as_str());
        out
    }
}

fn cut_between(chars: &Vec<char>, range: Option<(usize, usize)>) -> (r: Vec<char>)
    requires
        range matches Some((a, b)) ==> a <= b <= chars@.len(),
    ensures
        r@ == cut(
            chars@,
            match range {
                Some((a, b)) => Some((a as int, b as int)),
                None => None,
            },
        ),
{
    match range {
        Some((a, b)) => {
            let out = chars_of(replace_between(chars, a, b, "").as_str());
            proof {
                reveal_strlit("");
                assert(out@ =~= chars@.take(a as int) + chars@.skip(b as int));
            }
            out
        },
        None => {
            let out = chars_of(text::text_of(chars).as_str());
            out
        },
    }
}

/// Removes the generated block from `body`, leaving anything a human wrote.
///
/// The inverse of [`splice`], for when a pull request stops being part of a
/// stack and the table has to come down.
pub fn strip(body: &str) -> (r: String)
    ensures
        r@ == stripped_body(body@),
{
    let chars = chars_of(body);
    let block = find_block(&chars, BEGIN, END);
    let once = cut_between(&chars, block);
    let legacy = find_legacy_block(&once);
    let twice = cut_between(&once, legacy);
    trim_text(text::text_of(&twice).as_str())
}

/// How a layer is referred to.
pub open spec fn layer_reference(s: StackView, i: int) -> Seq<char> {
    match s.layers[i].pr {
        Some(n) => "#"@ + text::decimal(n as nat),
        None => "(not submitted)"@,
    }
}

/// Two spaces for each level.
pub open spec fn indent(depth: nat) -> Seq<char>
    decreases depth,
{
    if depth == 0 {
        Seq::empty()
    } else {
        indent((depth - 1) as nat) + "  "@
    }
}

/// The line of one layer; the current one stands out.
pub open spec fn layer_line(s: StackView, i: int, depth: nat, current: int) -> Seq<char> {
    let subject = s.layers[i].message.subject;
    if i == current {
        indent(depth) + "- ➡️ **"@ + layer_reference(s, i) + " "@ + subject + "**\n"@
    } else {
        indent(depth) + "- "@ + layer_reference(s, i) + " "@ + subject + "\n"@
    }
}

/// The layer below that a layer depends on.
pub open spec fn parent_of(s: StackView, i: int) -> Option<usize> {
    match s.layers[i].dep {
        Dep::Layer(j) => Some(j),
        _ => None,
    }
}

/// The lines of the layers from `from` on that depend on `parent`, each
/// followed by those of the layers that depend on it, one level deeper.
pub open spec fn tree_lines(
    s: StackView,
    parent: Option<usize>,
    from: int,
    depth: nat,
    current: int,
) -> Seq<char>
    decreases s.layers.len() - from,
{
    if from < 0 || from >= s.layers.len() {
        Seq::empty()
    } else if parent_of(s, from) == parent {
        layer_line(s, from, depth, current) + tree_lines(
            s,
            Some(from as usize),
            from + 1,
            depth + 1,
            current,
        ) + tree_lines(s, parent, from + 1, depth, current)
    } else {
        tree_lines(s, parent, from + 1, depth, current)
    }
}

/// The lines of the first `n` layers of a stack without branches.
pub open spec fn flat_lines(s: StackView, n: int, current: int) -> Seq<char>
    decreases n,
{
    if n <= 0 {
        Seq::empty()
    } else {
        flat_lines(s, n - 1, current) + layer_line(s, n - 1, 0, current)
    }
}

pub const FOOTER: &'static str =
    "\n<sub>Managed by [nspr](https://github.com/arichardson/nspr). Each pull request shows only its own changes.</sub>";

/// The stack as seen from layer `current`.
pub open spec fn table(c: ConfigView, s: StackView, current: int) -> Seq<char> {
    "#### Stack\n\n- `"@ + c.trunk + "`\n"@ + (if stack::linear(s) {
        flat_lines(s, s.layers.len() as int, current)
    } else {
        tree_lines(s, None, 0, 1, current)
    }) + FOOTER@
}

fn push_layer_line(out: &mut String, stack: &Stack, i: usize, depth: u128, current: usize)
    requires
        i < stack@.layers.len(),
    ensures
        final(out)@ == old(out)@ + layer_line(stack@, i as int, depth as nat, current as int),
{
    let ghost before = out@;
    let mut line: String = String::new();
    let mut k: u128 = 0;
    assert(line@ =~= indent(0));
    while k < depth
        invariant
            k <= depth,
            line@ == indent(k as nat),
        decreases depth - k,
    {
        line.append("  ");
        k = k + 1;
    }
    let layer = &stack.layers[i];
    assert(stack@.layers[i as int] == layer.deep_view());
    let mut reference: String = String::new();
    match layer.pr {
        Some(n) => {
            reference.append("#");
            push_decimal(&mut reference, n);
            assert(reference@ =~= "#"@ + text::decimal(n as nat));
        },
        None => {
            reference = "(not submitted)".to_owned();
        },
    }
    if i == current {
        line.append("- ➡️ **");
    } else {
        line.append("- ");
    }
    line.append(reference.as_str());
    line.append(" ");
    line.append(layer.subject());
    if i == current {
        line.append("**\n");
    } else {
        line.append("\n");
    }
    out.append(line.as_str());
}

fn render_children(
    stack: &Stack,
    parent: Option<usize>,
    from: usize,
    depth: u128,
    current: usize,
    out: &mut String,
)
    requires
        from <= stack@.layers.len(),
        depth <= from + 1,
    ensures
        final(out)@ == old(out)@ + tree_lines(
            stack@,
            parent,
            from as int,
            depth as nat,
            current as int,
        ),
    decreases stack@.layers.len() - from,
{
    let n: usize = stack.layers.len();
    let mut i: usize = from;
    assert(out@ + tree_lines(stack@, parent, from as int, depth as nat, current as int)
        =~= old(out)@ + tree_lines(stack@, parent, from as int, depth as nat, current as int));
    while i < n
        invariant
            from <= i <= n == stack@.layers.len(),
            depth <= from + 1,
            out@ + tree_lines(stack@, parent, i as int, depth as nat, current as int) == old(out)@
                + tree_lines(stack@, parent, from as int, depth as nat, current as int),
        decreases n - i,
    {
        assert(stack@.layers[i as int].dep == stack.layers@[i as int].dep);
        let is_child = match (stack.layers[i].dep, parent) {
            (Dep::Layer(j), Some(p)) => j == p,
            (Dep::Layer(_), None) => false,
            (_, Some(_)) => false,
            (_, None) => true,
        };
        let ghost before = out@;
        if is_child {
            push_layer_line(out, stack, i, depth, current);
            render_children(stack, Some(i), i + 1, depth + 1, current, out);
            proof {
                let line = layer_line(stack@, i as int, depth as nat, current as int);
                let below = tree_lines(
                    stack@,
                    Some(i),
                    i + 1,
                    (depth + 1) as nat,
                    current as int,
                );
                let rest = tree_lines(stack@, parent, i + 1, depth as nat, current as int);
                assert(before + line + below + rest =~= before + (line + below + rest));
            }
        }
        i = i + 1;
    }
    assert(out@ + Seq::<char>::empty() =~= out@);
}

/// Renders the stack as a tree, seen from layer `current`.
///
/// A tree rather than a list because the dependency graph is a tree: siblings
/// that merely happen to be adjacent in the local commit order must not look
/// like they depend on each other.
pub fn render(config: &Config, stack: &Stack, current: usize) -> (r: String)
    ensures
        r@ == table(config@, stack@, current as int),
{
    let mut out = "#### Stack\n\n- `".to_owned();
    out.append(config.trunk.as_str());
    out.append("`\n");
    let ghost head = out@;
    if stack.is_linear() {
        let mut i: usize = 0;
        assert(out@ =~= head + flat_lines(stack@, 0, current as int));
        while i < stack.layers.len()
            invariant
                i <= stack.layers@.len(),
                out@ == head + flat_lines(stack@, i as int, current as int),
            decreases stack.layers@.len() - i,
        {
            push_layer_line(&mut out, stack, i, 0, current);
            assert(out@ =~= head + flat_lines(stack@, i + 1, current as int));
            i = i + 1;
        }
    } else {
        render_children(stack, None, 0, 1, current, &mut out);
    }
    out.append(FOOTER);
    out
}

/// Layer `i` belongs to a stack of at least two pull requests.
pub open spec fn in_stack(s: StackView, i: int) -> bool {
    exists|k: int|
        0 <= k < stack::components(s).len() && (#[trigger] stack::components(s)[k]).len() >= 2
            && stack::components(s)[k].contains(i as usize)
}

/// The first comment from `k` on that holds a stack table.
pub open spec fn own_comment(comments: Seq<CommentView>, k: int) -> Option<CommentView>
    decreases comments.len() - k,
{
    if k < 0 || k >= comments.len() {
        None
    } else if markers::holds(comments[k].body, BEGIN@) || markers::holds(
        comments[k].body,
        LEGACY_SPR_MARKER@,
    ) {
        Some(comments[k])
    } else {
        own_comment(comments, k + 1)
    }
}

/// What is done about the comment on one layer: the table is taken down where
/// the layer is no longer part of a stack, and written where it says something
/// else. A comment that would stay as it is is left alone.
pub open spec fn comment_updated(
    t: TapeView,
    c: ConfigView,
    s: StackView,
    i: int,
    number: u64,
    existing: Option<CommentView>,
) -> (TapeView, Result<bool, HaltView>) {
    if !in_stack(s, i) {
        match existing {
            None => tape::done(t, false),
            Some(comment) => {
                let body = stripped_body(comment.body);
                if body == comment.body {
                    tape::done(t, false)
                } else {
                    tape::bind(
                        if body.len() == 0 {
                            tape::ask_unit(t, RequestView::DeleteComment { id: comment.id })
                        } else {
                            tape::ask_unit(t, RequestView::UpdateComment { id: comment.id, body })
                        },
                        |t: TapeView, u: ()| tape::done(t, true),
                    )
                }
            },
        }
    } else {
        let block = table(c, s, i);
        match existing {
            Some(comment) => {
                let body = spliced(comment.body, block);
                if body == comment.body {
                    tape::done(t, false)
                } else {
                    tape::bind(
                        tape::ask_unit(t, RequestView::UpdateComment { id: comment.id, body }),
                        |t: TapeView, u: ()| tape::done(t, true),
                    )
                }
            },
            None => tape::bind(
                tape::ask_unit(
                    t,
                    RequestView::CreateComment { number, body: spliced(Seq::empty(), block) },
                ),
                |t: TapeView, u: ()| tape::done(t, true),
            ),
        }
    }
}

/// The comments on the layers from `i` on; the result counts the written ones.
pub open spec fn comments_from(t: TapeView, c: ConfigView, s: StackView, i: int, updated: usize) -> (
    TapeView,
    Result<usize, HaltView>,
)
    decreases s.layers.len() - i,
{
    if i < 0 || i >= s.layers.len() {
        tape::done(t, updated)
    } else {
        match s.layers[i].pr {
            None => comments_from(t, c, s, i + 1, updated),
            Some(number) => tape::bind(
                tape::ask_comments(t, RequestView::OwnComments { number }),
                |t: TapeView, comments: Seq<CommentView>|
                    tape::bind(
                        comment_updated(t, c, s, i, number, own_comment(comments, 0)),
                        |t: TapeView, written: bool|
                            comments_from(
                                t,
                                c,
                                s,
                                i + 1,
                                if written {
                                    (updated + 1) as usize
                                } else {
                                    updated
                                },
                            ),
                    ),
            ),
        }
    }
}

fn find_own_comment(comments: &Vec<Comment>) -> (r: Option<&Comment>)
    ensures
        r.deep_view() == own_comment(comments.deep_view(), 0),
{
    let mut k: usize = 0;
    while k < comments.len()
        invariant
            k <= comments@.len(),
            own_comment(comments.deep_view(), k as int) == own_comment(comments.deep_view(), 0),
        decreases comments@.len() - k,
    {
        let comment = &comments[k];
        assert(comments.deep_view()[k as int] == comment.deep_view());
        if contains(comment.body.as_str(), BEGIN) || contains(
            comment.body.as_str(),
            LEGACY_SPR_MARKER,
        ) {
            return Some(comment);
        }
        k = k + 1;
    }
    None
}

fn has_index(component: &Vec<usize>, i: usize) -> (r: bool)
    ensures
        r == component@.contains(i),
{
    let mut m: usize = 0;
    while m < component.len()
        invariant
            m <= component@.len(),
            forall|x: int| 0 <= x < m ==> component@[x] != i,
        decreases component@.len() - m,
    {
        if component[m] == i {
            return true;
        }
        m = m + 1;
    }
    false
}

fn is_in_stack(stack: &Stack, components: &Vec<Vec<usize>>, i: usize) -> (r: bool)
    requires
        components.deep_view() == stack::components(stack@),
    ensures
        r == in_stack(stack@, i as int),
{
    let mut k: usize = 0;
    while k < components.len()
        invariant
            k <= components@.len(),
            components.deep_view() == stack::components(stack@),
            forall|m: int|
                0 <= m < k ==> !((#[trigger] stack::components(stack@)[m]).len() >= 2
                    && stack::components(stack@)[m].contains(i)),
        decreases components@.len() - k,
    {
        let component = &components[k];
        assert(stack::components(stack@)[k as int] == component.deep_view());
        assert(component.deep_view() =~= component@);
        if component.len() >= 2 && has_index(component, i) {
            return true;
        }
        k = k + 1;
    }
    false
}

fn update_comment(
    t: &mut Tape,
    config: &Config,
    stack: &Stack,
    i: usize,
    stacked: bool,
    number: u64,
    existing: Option<&Comment>,
) -> (r: Result<bool, Halt>)
    requires
        stacked == in_stack(stack@, i as int),
    ensures
        (final(t)@, tape::outcome(r)) == comment_updated(
            old(t)@,
            config@,
            stack@,
            i as int,
            number,
            existing.deep_view(),
        ),
{
    if !stacked {
        return match existing {
            None => Ok(false),
            Some(comment) => {
                // Anything a human wrote around the table is worth keeping, so
                // the comment only goes away entirely when the table was all of
                // it.
                let body = strip(comment.body.as_str());
                if same(body.as_str(), comment.body.as_str()) {
                    return Ok(false);
                }
                if body.as_str().is_empty() {
                    t.unit(Request::DeleteComment { id: comment.id })?;
                } else {
                    t.unit(Request::UpdateComment { id: comment.id, body })?;
                }
                Ok(true)
            },
        };
    }
    let block = render(config, stack, i);
    match existing {
        Some(comment) => {
            let body = splice(comment.body.as_str(), block.as_str());
            if same(body.as_str(), comment.body.as_str()) {
                Ok(false)
            } else {
                t.unit(Request::UpdateComment { id: comment.id, body })?;
                Ok(true)
            }
        },
        None => {
            proof {
                reveal_strlit("");
                assert(""@ =~= Seq::<char>::empty());
            }
            let body = splice("", block.as_str());
            t.unit(Request::CreateComment { number, body })?;
            Ok(true)
        },
    }
}

/// Posts or updates the stack comment on every layer that is part of a stack,
/// and takes it down from every layer that is not.
///
/// Comments are only rewritten when their content actually changes: every edit
/// sends a notification, and a tool that re-notifies a dozen readers on every
/// run would be turned off within the week.
pub fn update_all(t: &mut Tape, config: &Config, stack: &Stack) -> (r: Result<usize, Halt>)
    requires
        stack::well_formed(stack@),
    ensures
        (final(t)@, tape::outcome(r)) == comments_from(old(t)@, config@, stack@, 0, 0),
{
    let components = stack.pr_components();
    let mut updated: usize = 0;
    let mut i: usize = 0;
    while i < stack.layers.len()
        invariant
            updated <= i <= stack.layers@.len(),
            components.deep_view() == stack::components(stack@),
            comments_from(t@, config@, stack@, i as int, updated) == comments_from(
                old(t)@,
                config@,
                stack@,
                0,
                0,
            ),
        decreases stack.layers@.len() - i,
    {
        assert(stack@.layers[i as int].pr == stack.layers@[i as int].pr);
        match stack.layers[i].pr {
            Some(number) => {
                let comments = t.comments(Request::OwnComments { number })?;
                let existing = find_own_comment(&comments);
                let stacked = is_in_stack(stack, &components, i);
                if update_comment(t, config, stack, i, stacked, number, existing)? {
                    updated = updated + 1;
                }
            },
            None => {},
        }
        i = i + 1;
    }
    Ok(updated)
}

/// The pattern stands nowhere in the text.
pub open spec fn free_of_pattern(s: Seq<char>, pattern: Seq<char>) -> bool {
    forall|i: int| !#[trigger] text::occurs_at(s, pattern, i)
}

/// A text that does not hold a pattern is free of it, and so is every part of it.
proof fn lemma_free(s: Seq<char>, pattern: Seq<char>, from: int, to: int)
    requires
        !markers::holds(s, pattern),
        0 <= from <= to <= s.len(),
    ensures
        free_of_pattern(s, pattern),
        free_of_pattern(s.subrange(from, to), pattern),
{
    text::lemma_find(s, pattern, 0);
    assert forall|i: int| !#[trigger] text::occurs_at(s, pattern, i) by {}
    let part = s.subrange(from, to);
    assert forall|i: int| !#[trigger] text::occurs_at(part, pattern, i) by {
        if text::occurs_at(part, pattern, i) {
            assert(s.subrange(from + i, from + i + pattern.len()) =~= part.subrange(
                i,
                i + pattern.len(),
            ));
            assert(text::occurs_at(s, pattern, from + i));
        }
    }
}

/// Where a pattern stands in a text, it also stands in a longer one.
proof fn lemma_occurs_within(pre: Seq<char>, s: Seq<char>, post: Seq<char>, pattern: Seq<char>, i: int)
    requires
        text::occurs_at(pre + s + post, pattern, i),
        pre.len() <= i,
        i + pattern.len() <= pre.len() + s.len(),
    ensures
        text::occurs_at(s, pattern, i - pre.len()),
{
    assert(s.subrange(i - pre.len(), i - pre.len() + pattern.len()) =~= (pre + s + post).subrange(
        i,
        i + pattern.len(),
    ));
}

proof fn lemma_markers()
    ensures
        BEGIN@.len() == 19,
        END@.len() == 20,
        BEGIN@[0] == '<',
        END@[0] == '<',
        BEGIN@[5] != END@[5],
        forall|k: int| 1 <= k < 19 ==> #[trigger] BEGIN@[k] != '<',
        forall|k: int| 1 <= k < 20 ==> #[trigger] END@[k] != '<',
        forall|k: int| 0 <= k < 19 ==> #[trigger] BEGIN@[k] != '\n',
        forall|k: int| 0 <= k < 20 ==> #[trigger] END@[k] != '\n',
{
    reveal_strlit("<!-- nspr:stack -->");
    reveal_strlit("<!-- /nspr:stack -->");
}

/// The first block in a text with a marked block is that one, if nothing before
/// it reads as a start marker and nothing in it reads as an end marker.
proof fn lemma_block_found(pre: Seq<char>, block: Seq<char>, post: Seq<char>)
    requires
        free_of_pattern(pre, BEGIN@),
        !markers::holds(block, END@),
    ensures
        markers::block_in(pre + marked(block) + post, BEGIN@, END@) == Some(
            (pre.len() as int, (pre.len() + marked(block).len()) as int),
        ),
{
    lemma_markers();
    reveal_strlit("\n");
    text::lemma_trim_end(block);
    let core = text::trim_end(block);
    lemma_free(block, END@, 0, core.len() as int);
    assert(block.subrange(0, core.len() as int) =~= core);
    let mid = marked(block);
    let all = pre + mid + post;
    let a = pre.len() as int;
    assert(all.subrange(a, a + 19) =~= BEGIN@);
    assert(text::occurs_at(all, BEGIN@, a));
    assert forall|i: int| 0 <= i < a implies !text::occurs_at(all, BEGIN@, i) by {
        if text::occurs_at(all, BEGIN@, i) {
            if i + 19 <= a {
                assert(pre.subrange(i, i + 19) =~= all.subrange(i, i + 19));
                assert(text::occurs_at(pre, BEGIN@, i));
            } else {
                assert(all[a] == BEGIN@[0]);
                assert(all.subrange(i, i + 19)[a - i] == all[a]);
                assert(BEGIN@[a - i] == '<');
            }
        }
    }
    markers::lemma_find_at(all, BEGIN@, 0, a);
    let b = a + 19 + 1 + core.len() + 1;
    assert(all.subrange(b, b + 20) =~= END@);
    assert(text::occurs_at(all, END@, b));
    assert(all[b] == '<') by {
        assert(all.subrange(b, b + 20)[0] == all[b]);
    }
    assert forall|i: int| a <= i < b implies !text::occurs_at(all, END@, i) by {
        if text::occurs_at(all, END@, i) {
            let here = all.subrange(i, i + 20);
            assert(here == END@);
            assert(here[0] == all[i]);
            if i + 20 > b {
                assert(here[b - i] == all[b]);
                assert(END@[b - i] == '<');
            } else if i == a {
                assert(here[5] == all[a + 5]);
                assert(all[a + 5] == BEGIN@[5]);
            } else if i < a + 19 {
                assert(all[i] == BEGIN@[i - a]);
            } else if i == a + 19 {
                assert(all[i] == '\n');
            } else {
                let first = a + 20;
                if i + 20 <= first + core.len() {
                    let head = pre + BEGIN@ + "\n"@;
                    let tail = "\n"@ + END@ + post;
                    assert(all =~= head + core + tail);
                    lemma_occurs_within(head, core, tail, END@, i);
                } else {
                    assert(all[b - 1] == '\n');
                    assert(here[b - 1 - i] == all[b - 1]);
                    assert(END@[b - 1 - i] == '\n');
                }
            }
        }
    }
    markers::lemma_find_at(all, END@, a, b);
    assert(mid.len() == 19 + 1 + core.len() + 1 + 20);
}

/// A comment to which a table can be added for good: it has a block that is
/// closed, or nothing that reads as the start of one.
pub open spec fn spliceable(body: Seq<char>) -> bool {
    markers::block_in(body, BEGIN@, END@) is Some || !markers::holds(body, BEGIN@)
}

/// The text before and behind the place where a table goes.
pub open spec fn surroundings(body: Seq<char>) -> (Seq<char>, Seq<char>) {
    match markers::block_in(body, BEGIN@, END@) {
        Some((a, b)) => (body.take(a), body.skip(b)),
        None => match legacy_block_in(body) {
            Some((a, b)) => (body.take(a), body.skip(b)),
            None => if text::is_blank(body) {
                (Seq::empty(), Seq::empty())
            } else {
                (text::trim_end(body) + "\n\n"@, Seq::empty())
            },
        },
    }
}

proof fn lemma_surroundings(body: Seq<char>, block: Seq<char>)
    requires
        spliceable(body),
    ensures
        spliced(body, block) == surroundings(body).0 + marked(block) + surroundings(body).1,
        free_of_pattern(surroundings(body).0, BEGIN@),
{
    lemma_markers();
    let (pre, post) = surroundings(body);
    text::lemma_find(body, BEGIN@, 0);
    assert(spliced(body, block) =~= pre + marked(block) + post);
    match markers::block_in(body, BEGIN@, END@) {
        Some((a, b)) => {
            assert forall|i: int| !#[trigger] text::occurs_at(pre, BEGIN@, i) by {
                if text::occurs_at(pre, BEGIN@, i) {
                    assert(body.subrange(i, i + 19) =~= pre.subrange(i, i + 19));
                    assert(text::occurs_at(body, BEGIN@, i));
                }
            }
        },
        None => {
            text::lemma_find(body, LEGACY_SPR_MARKER@, 0);
            match legacy_block_in(body) {
                Some((a, b)) => {
                    lemma_free(body, BEGIN@, 0, a);
                    assert(body.subrange(0, a) =~= pre);
                },
                None => {
                    if text::is_blank(body) {
                        assert forall|i: int| !#[trigger] text::occurs_at(pre, BEGIN@, i) by {}
                    } else {
                        reveal_strlit("\n\n");
                        text::lemma_trim_end(body);
                        let core = text::trim_end(body);
                        lemma_free(body, BEGIN@, 0, core.len() as int);
                        assert(body.subrange(0, core.len() as int) =~= core);
                        assert forall|i: int| !#[trigger] text::occurs_at(pre, BEGIN@, i) by {
                            if text::occurs_at(pre, BEGIN@, i) {
                                if i + 19 <= core.len() {
                                    assert(core.subrange(i, i + 19) =~= pre.subrange(i, i + 19));
                                    assert(text::occurs_at(core, BEGIN@, i));
                                } else {
                                    let at = i + 18;
                                    assert(pre.subrange(i, i + 19)[18] == pre[at]);
                                    assert(pre[at] == '\n');
                                    assert(BEGIN@[18] == '\n');
                                }
                            }
                        }
                    }
                },
            }
        },
    }
}

/// The last table wins, and all that stands around it stays: writing one table
/// and then another leaves what writing the second one alone leaves. A comment
/// with a start marker that is never closed is left out, since the next table
/// closes it.
pub proof fn law_last_splice_wins(body: Seq<char>, first: Seq<char>, second: Seq<char>)
    requires
        spliceable(body),
        !markers::holds(first, END@),
    ensures
        spliced(spliced(body, first), second) == spliced(body, second),
        spliceable(spliced(body, first)),
{
    lemma_surroundings(body, first);
    lemma_surroundings(body, second);
    let (pre, post) = surroundings(body);
    lemma_block_found(pre, first, post);
    let once = pre + marked(first) + post;
    assert(once.take(pre.len() as int) =~= pre);
    assert(once.skip((pre.len() + marked(first).len()) as int) =~= post);
}

/// Writing the same table twice is writing it once.
pub proof fn law_splice_idempotent(body: Seq<char>, block: Seq<char>)
    requires
        spliceable(body),
        !markers::holds(block, END@),
    ensures
        spliced(spliced(body, block), block) == spliced(body, block),
{
    law_last_splice_wins(body, block, block);
}

/// Taking a table down undoes putting it up: what a human wrote is left, without
/// the white space around it.
pub proof fn law_strip_undoes_splice(body: Seq<char>, block: Seq<char>)
    requires
        !markers::holds(body, BEGIN@),
        !markers::holds(body, LEGACY_SPR_MARKER@),
        !markers::holds(block, END@),
    ensures
        stripped_body(spliced(body, block)) == text::trim(body),
{
    text::lemma_find(body, BEGIN@, 0);
    lemma_surroundings(body, block);
    let (pre, post) = surroundings(body);
    lemma_block_found(pre, block, post);
    let all = pre + marked(block) + post;
    let once = cut(all, markers::block_in(all, BEGIN@, END@));
    assert(once =~= pre);
    reveal_strlit("\n\n");
    reveal_strlit("<!-- spr-dependencies -->");
    text::lemma_find(once, LEGACY_SPR_MARKER@, 0);
    let core = text::trim_end(body);
    text::lemma_trim_end(body);
    lemma_free(body, LEGACY_SPR_MARKER@, 0, core.len() as int);
    assert(body.subrange(0, core.len() as int) =~= core);
    let n = LEGACY_SPR_MARKER@.len() as int;
    match text::find_from(once, LEGACY_SPR_MARKER@, 0) {
        Some(i) => {
            if !text::is_blank(body) {
                if i + n <= core.len() {
                    assert(core.subrange(i, i + n) =~= once.subrange(i, i + n));
                    assert(text::occurs_at(core, LEGACY_SPR_MARKER@, i));
                } else {
                    let at = i + n - 1;
                    assert(once.subrange(i, i + n)[n - 1] == once[at]);
                    assert(once[at] == '\n');
                    assert(LEGACY_SPR_MARKER@[n - 1] == '\n');
                }
            }
        },
        None => {},
    }
    assert(legacy_block_in(once) is None);
    if text::is_blank(body) {
        assert(once =~= Seq::<char>::empty());
        assert(text::trim(body) =~= Seq::<char>::empty());
    } else {
        lemma_trim_padded(body, "\n\n"@);
    }
}

/// White space in place of the white space at the end of a text is trimmed off
/// as well.
proof fn lemma_trim_padded(body: Seq<char>, space: Seq<char>)
    requires
        forall|i: int| 0 <= i < space.len() ==> text::is_space(#[trigger] space[i]),
        !text::is_blank(body),
    ensures
        text::trim(text::trim_end(body) + space) == text::trim(body),
{
    let core = text::trim_end(body);
    text::lemma_trim_end(body);
    text::lemma_trim_start(body);
    let lead = (body.len() - text::trim_start(body).len()) as int;
    text::lemma_trim_end(text::trim_start(body));
    // The first character that is no white space stands before the end of the
    // core.
    assert(lead < body.len() && !text::is_space(body[lead])) by {
        if lead == body.len() {
            assert(text::trim_start(body).len() == 0);
            assert(text::trim(body).len() == 0);
        } else {
            assert(text::trim_start(body)[0] == body[lead]);
        }
    }
    assert(lead < core.len());
    lemma_trim_start_at(core, lead);
    lemma_trim_start_at(core + space, lead);
    lemma_trim_start_at(body, lead);
    text::lemma_trim_end_drops(core.skip(lead), space);
    assert((core + space).skip(lead) =~= core.skip(lead) + space);
    let tail = body.skip(core.len() as int);
    assert(body.skip(lead) =~= core.skip(lead) + tail);
    assert forall|i: int| 0 <= i < tail.len() implies text::is_space(#[trigger] tail[i]) by {
        assert(tail[i] == body[core.len() + i]);
    }
    text::lemma_trim_end_drops(core.skip(lead), tail);
}

/// Where the white space at the start of a text ends.
proof fn lemma_trim_start_at(s: Seq<char>, lead: int)
    requires
        0 <= lead < s.len(),
        forall|i: int| 0 <= i < lead ==> text::is_space(#[trigger] s[i]),
        !text::is_space(s[lead]),
    ensures
        text::trim_start(s) == s.skip(lead),
    decreases lead,
{
    if lead > 0 {
        assert(text::is_space(s[0]));
        let rest = s.skip(1);
        assert forall|i: int| 0 <= i < lead - 1 implies text::is_space(#[trigger] rest[i]) by {
            assert(rest[i] == s[i + 1]);
        }
        lemma_trim_start_at(rest, lead - 1);
        assert(rest.skip(lead - 1) =~= s.skip(lead));
    } else {
        assert(s.skip(0) =~= s);
    }
}

/// A comment that already holds the table is not written again, so that nobody
/// is notified of nothing.
pub proof fn law_unchanged_comment_is_left_alone(
    t: TapeView,
    c: ConfigView,
    s: StackView,
    i: int,
    number: u64,
    id: u64,
    body: Seq<char>,
)
    requires
        in_stack(s, i),
        spliceable(body),
        !markers::holds(table(c, s, i), END@),
    ensures
        comment_updated(
            t,
            c,
            s,
            i,
            number,
            Some(CommentView { id, body: spliced(body, table(c, s, i)) }),
        ) == tape::done(t, false),
{
    law_splice_idempotent(body, table(c, s, i));
}

/// A request that writes or deletes a comment.
pub open spec fn comments(q: RequestView) -> bool {
    q is CreateComment || q is UpdateComment || q is DeleteComment
}

/// Requests are allowed that write or delete comments.
pub open spec fn may_comment(allowed: spec_fn(RequestView) -> bool) -> bool {
    forall|q: RequestView| comments(q) ==> #[trigger] allowed(q)
}

pub broadcast proof fn lemma_comments_from_only(
    from: TapeView,
    t: TapeView,
    c: ConfigView,
    s: StackView,
    i: int,
    updated: usize,
    allowed: spec_fn(RequestView) -> bool,
)
    requires
        #[trigger] tape::only(from, t, allowed),
        tape::may_look(allowed),
        may_comment(allowed),
    ensures
        tape::only(from, (#[trigger] comments_from(t, c, s, i, updated)).0, allowed),
    decreases s.layers.len() - i,
{
    broadcast use tape::lemma_only_ask;

    if 0 <= i < s.layers.len() {
        match s.layers[i].pr {
            None => {
                lemma_comments_from_only(from, t, c, s, i + 1, updated, allowed);
            },
            Some(number) => {
                let (t1, found) = tape::ask_comments(t, RequestView::OwnComments { number });
                if found is Ok {
                    let (t2, written) = comment_updated(
                        t1,
                        c,
                        s,
                        i,
                        number,
                        own_comment(found->Ok_0, 0),
                    );
                    assert(tape::only(from, t2, allowed));
                    if written is Ok {
                        let next = if written->Ok_0 {
                            (updated + 1) as usize
                        } else {
                            updated
                        };
                        lemma_comments_from_only(from, t2, c, s, i + 1, next, allowed);
                    }
                }
            },
        }
    }
}

/// Keeping the stack tables up to date changes nothing but comments.
pub proof fn law_tables_change_comments_only(t: TapeView, c: ConfigView, s: StackView, updated: usize)
    ensures
        tape::only(
            t,
            comments_from(t, c, s, 0, updated).0,
            |q: RequestView| !tape::touches_local(q) && (tape::touches_forge(q) ==> comments(q)),
        ),
{
    let allowed = |q: RequestView|
        !tape::touches_local(q) && (tape::touches_forge(q) ==> comments(q));
    tape::lemma_only_start(t, allowed);
    lemma_comments_from_only(t, t, c, s, 0, updated, allowed);
}

/// The text holds no end marker.
spec fn plain(s: Seq<char>) -> bool {
    free_of_pattern(s, END@)
}

spec fn free_of_char(s: Seq<char>, c: char) -> bool {
    forall|i: int| 0 <= i < s.len() ==> #[trigger] s[i] != c
}

/// Nothing before the first angle bracket starts a marker.
proof fn lemma_plain_behind(a: Seq<char>, b: Seq<char>)
    requires
        free_of_char(a, '<'),
        plain(b),
    ensures
        plain(a + b),
{
    lemma_markers();
    assert forall|i: int| !#[trigger] text::occurs_at(a + b, END@, i) by {
        if text::occurs_at(a + b, END@, i) {
            assert((a + b).subrange(i, i + 20)[0] == (a + b)[i]);
            assert(b.subrange(i - a.len(), i - a.len() + 20) =~= (a + b).subrange(i, i + 20));
            assert(text::occurs_at(b, END@, i - a.len()));
        }
    }
}

/// No marker reaches over a character that is in none.
proof fn lemma_plain_around(a: Seq<char>, b: Seq<char>, at: int)
    requires
        plain(a),
        plain(b),
        a.len() - 1 <= at <= a.len(),
        0 <= at < (a + b).len(),
        !END@.contains((a + b)[at]),
    ensures
        plain(a + b),
{
    lemma_markers();
    assert forall|i: int| !#[trigger] text::occurs_at(a + b, END@, i) by {
        if text::occurs_at(a + b, END@, i) {
            let here = (a + b).subrange(i, i + 20);
            if i <= at < i + 20 {
                assert(here[at - i] == (a + b)[at]);
                assert(END@[at - i] == (a + b)[at]);
            } else if i + 20 <= a.len() {
                assert(a.subrange(i, i + 20) =~= here);
                assert(text::occurs_at(a, END@, i));
            } else {
                assert(b.subrange(i - a.len(), i - a.len() + 20) =~= here);
                assert(text::occurs_at(b, END@, i - a.len()));
            }
        }
    }
}

proof fn lemma_not_in_marker()
    ensures
        !END@.contains('\n'),
        !END@.contains('*'),
        !END@.contains('`'),
{
    lemma_markers();
    reveal_strlit("<!-- /nspr:stack -->");
    assert forall|k: int| 0 <= k < 20 implies #[trigger] END@[k] != '*' && END@[k] != '`' by {}
}

/// A line that ends where it ends, and then more lines.
proof fn lemma_plain_lines(a: Seq<char>, b: Seq<char>)
    requires
        plain(a),
        plain(b),
        a.len() == 0 || a.last() == '\n',
    ensures
        plain(a + b),
{
    lemma_not_in_marker();
    if a.len() == 0 {
        assert(a + b =~= b);
    } else {
        assert((a + b)[a.len() - 1] == '\n');
        lemma_plain_around(a, b, a.len() - 1);
    }
}

proof fn lemma_indent(depth: nat)
    ensures
        free_of_char(indent(depth), '<'),
    decreases depth,
{
    reveal_strlit("  ");
    if depth > 0 {
        lemma_indent((depth - 1) as nat);
    }
}

proof fn lemma_decimal(n: nat)
    ensures
        free_of_char(text::decimal(n), '<'),
    decreases n,
{
    if n >= 10 {
        lemma_decimal(n / 10);
    }
    text::lemma_decimal_step(n);
}

proof fn lemma_layer_line(s: StackView, i: int, depth: nat, current: int)
    requires
        plain(s.layers[i].message.subject),
    ensures
        plain(layer_line(s, i, depth, current)),
        layer_line(s, i, depth, current).len() > 0,
        layer_line(s, i, depth, current).last() == '\n',
{
    lemma_not_in_marker();
    lemma_indent(depth);
    reveal_strlit("- ➡️ **");
    reveal_strlit("- ");
    reveal_strlit(" ");
    reveal_strlit("**\n");
    reveal_strlit("\n");
    reveal_strlit("#");
    reveal_strlit("(not submitted)");
    let subject = s.layers[i].message.subject;
    match s.layers[i].pr {
        Some(n) => lemma_decimal(n as nat),
        None => {},
    }
    let reference = layer_reference(s, i);
    assert(free_of_char(reference, '<'));
    let (head, tail) = if i == current {
        (indent(depth) + "- ➡️ **"@ + reference + " "@, "**\n"@)
    } else {
        (indent(depth) + "- "@ + reference + " "@, "\n"@)
    };
    assert(free_of_char(head, '<'));
    assert(plain(tail)) by {
        lemma_markers();
        assert forall|k: int| !#[trigger] text::occurs_at(tail, END@, k) by {}
    }
    lemma_plain_behind(head, subject);
    let front = head + subject;
    assert((front + tail)[front.len() as int] == tail[0]);
    lemma_plain_around(front, tail, front.len() as int);
    assert(layer_line(s, i, depth, current) =~= front + tail);
}

spec fn plain_subjects(s: StackView) -> bool {
    forall|k: int| 0 <= k < s.layers.len() ==> plain((#[trigger] s.layers[k]).message.subject)
}

spec fn whole_lines(s: Seq<char>) -> bool {
    s.len() == 0 || s.last() == '\n'
}

proof fn lemma_flat_lines(s: StackView, n: int, current: int)
    requires
        0 <= n <= s.layers.len(),
        plain_subjects(s),
    ensures
        plain(flat_lines(s, n, current)),
        whole_lines(flat_lines(s, n, current)),
    decreases n,
{
    lemma_markers();
    if n > 0 {
        lemma_flat_lines(s, n - 1, current);
        lemma_layer_line(s, n - 1, 0, current);
        lemma_plain_lines(flat_lines(s, n - 1, current), layer_line(s, n - 1, 0, current));
    }
}

proof fn lemma_tree_lines(s: StackView, parent: Option<usize>, from: int, depth: nat, current: int)
    requires
        plain_subjects(s),
    ensures
        plain(tree_lines(s, parent, from, depth, current)),
        whole_lines(tree_lines(s, parent, from, depth, current)),
    decreases s.layers.len() - from,
{
    lemma_markers();
    if 0 <= from < s.layers.len() {
        lemma_tree_lines(s, parent, from + 1, depth, current);
        if parent_of(s, from) == parent {
            let line = layer_line(s, from, depth, current);
            let inner = tree_lines(s, Some(from as usize), from + 1, depth + 1, current);
            let outer = tree_lines(s, parent, from + 1, depth, current);
            lemma_layer_line(s, from, depth, current);
            lemma_tree_lines(s, Some(from as usize), from + 1, depth + 1, current);
            lemma_plain_lines(line, inner);
            assert(whole_lines(line + inner));
            lemma_plain_lines(line + inner, outer);
        }
    }
}

/// A table holds no end marker if nothing that is written into it does.
proof fn lemma_table_is_plain(c: ConfigView, s: StackView, current: int)
    requires
        !markers::holds(c.trunk, END@),
        forall|k: int|
            0 <= k < s.layers.len() ==> !markers::holds(
                (#[trigger] s.layers[k]).message.subject,
                END@,
            ),
    ensures
        !markers::holds(table(c, s, current), END@),
{
    lemma_markers();
    lemma_not_in_marker();
    lemma_free(c.trunk, END@, 0, 0);
    assert forall|k: int| 0 <= k < s.layers.len() implies plain(
        (#[trigger] s.layers[k]).message.subject,
    ) by {
        lemma_free(s.layers[k].message.subject, END@, 0, 0);
    }
    reveal_strlit("#### Stack\n\n- `");
    reveal_strlit("`\n");
    let lines = if stack::linear(s) {
        flat_lines(s, s.layers.len() as int, current)
    } else {
        tree_lines(s, None, 0, 1, current)
    };
    lemma_flat_lines(s, s.layers.len() as int, current);
    lemma_tree_lines(s, None, 0, 1, current);
    let head = "#### Stack\n\n- `"@ + c.trunk;
    lemma_plain_behind("#### Stack\n\n- `"@, c.trunk);
    let tick = "`\n"@;
    assert(plain(tick)) by {
        assert forall|k: int| !#[trigger] text::occurs_at(tick, END@, k) by {}
    }
    assert((head + tick)[head.len() as int] == '`');
    lemma_plain_around(head, tick, head.len() as int);
    let top = head + tick;
    assert(top.last() == '\n');
    lemma_plain_lines(top, lines);
    lemma_footer();
    assert(whole_lines(top + lines));
    lemma_plain_lines(top + lines, FOOTER@);
    let all = table(c, s, current);
    assert(all =~= top + lines + FOOTER@);
    text::lemma_find(all, END@, 0);
}

proof fn lemma_footer()
    ensures
        plain(FOOTER@),
{
    lemma_markers();
    reveal_strlit("<!-- /nspr:stack -->");
    reveal_strlit(
        "\n<sub>Managed by [nspr](https://github.com/arichardson/nspr). Each pull request shows only its own changes.</sub>",
    );
    assert forall|i: int| !#[trigger] text::occurs_at(FOOTER@, END@, i) by {
        if text::occurs_at(FOOTER@, END@, i) {
            let here = FOOTER@.subrange(i, i + 20);
            assert(here[0] == FOOTER@[i]);
            assert(here[1] == FOOTER@[i + 1]);
            assert(FOOTER@[i + 1] == '!');
        }
    }
}

/// A comment holds a stack table, or what reads like the start of one.
pub open spec fn tabled(comment: CommentView) -> bool {
    markers::holds(comment.body, BEGIN@) || markers::holds(comment.body, LEGACY_SPR_MARKER@)
}

/// The position of the first comment from `k` on that holds a stack table, or the
/// number of comments where none does.
pub open spec fn own_index(comments: Seq<CommentView>, k: int) -> int
    decreases comments.len() - k,
{
    if k < 0 || k >= comments.len() {
        comments.len() as int
    } else if tabled(comments[k]) {
        k
    } else {
        own_index(comments, k + 1)
    }
}

/// What the user's comments on layer `i` are once a run that found `comments` is
/// through with them; `id` is the number that the forge gives to a new comment.
pub open spec fn left_by(
    c: ConfigView,
    s: StackView,
    i: int,
    comments: Seq<CommentView>,
    id: u64,
) -> Seq<CommentView> {
    let k = own_index(comments, 0);
    if k < comments.len() {
        let comment = comments[k];
        let body = if in_stack(s, i) {
            spliced(comment.body, table(c, s, i))
        } else {
            stripped_body(comment.body)
        };
        if body.len() == 0 {
            comments.remove(k)
        } else {
            comments.update(k, CommentView { body, ..comment })
        }
    } else if in_stack(s, i) {
        comments.push(CommentView { id, body: spliced(Seq::empty(), table(c, s, i)) })
    } else {
        comments
    }
}

/// A run can be through with the comments on layer `i` for good. Two kinds of
/// comments keep it from that: one with a start marker that is never closed, since
/// the next table closes it; and, on a layer that is in no stack, one whose rest
/// reads as a table again or is followed by another table.
pub open spec fn can_settle(s: StackView, i: int, comments: Seq<CommentView>) -> bool {
    let k = own_index(comments, 0);
    k < comments.len() ==> if in_stack(s, i) {
        spliceable(comments[k].body)
    } else {
        let rest = stripped_body(comments[k].body);
        rest == comments[k].body || (stripped_body(rest) == rest && own_index(comments, k + 1)
            == comments.len())
    }
}

proof fn lemma_own_index(comments: Seq<CommentView>, k: int)
    requires
        0 <= k <= comments.len(),
    ensures
        k <= own_index(comments, k) <= comments.len(),
        own_index(comments, k) < comments.len() ==> tabled(comments[own_index(comments, k)]),
        own_comment(comments, k) == if own_index(comments, k) < comments.len() {
            Some(comments[own_index(comments, k)])
        } else {
            None
        },
        forall|m: int| k <= m < own_index(comments, k) ==> !tabled(#[trigger] comments[m]),
    decreases comments.len() - k,
{
    if k < comments.len() && !tabled(comments[k]) {
        lemma_own_index(comments, k + 1);
    }
}

/// Where the first table stands is settled by what stands before it.
proof fn lemma_own_index_at(comments: Seq<CommentView>, from: int, k: int)
    requires
        0 <= from <= k <= comments.len(),
        forall|m: int| from <= m < k ==> !tabled(#[trigger] comments[m]),
        k < comments.len() ==> tabled(comments[k]),
    ensures
        own_index(comments, from) == k,
    decreases k - from,
{
    if from < k {
        assert(!tabled(comments[from]));
        lemma_own_index_at(comments, from + 1, k);
    }
}

/// A table that was written is found again.
proof fn lemma_spliced_is_tabled(body: Seq<char>, block: Seq<char>, id: u64)
    requires
        spliceable(body),
        !markers::holds(block, END@),
    ensures
        tabled(CommentView { id, body: spliced(body, block) }),
{
    lemma_surroundings(body, block);
    let (pre, post) = surroundings(body);
    lemma_block_found(pre, block, post);
}

/// What was left by a run is left alone by the next one.
proof fn lemma_left_alone(
    t: TapeView,
    c: ConfigView,
    s: StackView,
    i: int,
    number: u64,
    comments: Seq<CommentView>,
    id: u64,
)
    requires
        can_settle(s, i, comments),
        in_stack(s, i) ==> !markers::holds(table(c, s, i), END@),
    ensures
        comment_updated(t, c, s, i, number, own_comment(left_by(c, s, i, comments, id), 0))
            == tape::done(t, false),
{
    let left = left_by(c, s, i, comments, id);
    let k = own_index(comments, 0);
    let block = table(c, s, i);
    lemma_own_index(comments, 0);
    if k < comments.len() {
        let comment = comments[k];
        if in_stack(s, i) {
            let body = spliced(comment.body, block);
            lemma_spliced_is_tabled(comment.body, block, comment.id);
            assert(body.len() > 0) by {
                text::lemma_find(body, BEGIN@, 0);
                text::lemma_find(body, LEGACY_SPR_MARKER@, 0);
                lemma_markers();
                reveal_strlit("<!-- spr-dependencies -->");
            }
            assert forall|m: int| 0 <= m < k implies !tabled(#[trigger] left[m]) by {
                assert(left[m] == comments[m]);
            }
            lemma_own_index_at(left, 0, k);
            lemma_own_index(left, 0);
            law_splice_idempotent(comment.body, block);
        } else {
            let body = stripped_body(comment.body);
            if body.len() == 0 {
                assert forall|m: int| 0 <= m < left.len() implies !tabled(#[trigger] left[m]) by {
                    if m < k {
                        assert(left[m] == comments[m]);
                    } else {
                        assert(left[m] == comments[m + 1]);
                        lemma_own_index(comments, k + 1);
                        if body == comment.body {
                            text::lemma_find(comment.body, BEGIN@, 0);
                            text::lemma_find(comment.body, LEGACY_SPR_MARKER@, 0);
                            lemma_markers();
                            reveal_strlit("<!-- spr-dependencies -->");
                        }
                    }
                }
                lemma_own_index_at(left, 0, left.len() as int);
                lemma_own_index(left, 0);
            } else {
                assert forall|m: int| 0 <= m < k implies !tabled(#[trigger] left[m]) by {
                    assert(left[m] == comments[m]);
                }
                if tabled(left[k]) {
                    lemma_own_index_at(left, 0, k);
                    lemma_own_index(left, 0);
                } else {
                    lemma_own_index(comments, k + 1);
                    assert(body != comment.body);
                    assert forall|m: int| 0 <= m < left.len() implies !tabled(
                        #[trigger] left[m],
                    ) by {
                        if m > k {
                            assert(left[m] == comments[m]);
                        }
                    }
                    lemma_own_index_at(left, 0, left.len() as int);
                    lemma_own_index(left, 0);
                }
            }
        }
    } else if in_stack(s, i) {
        assert(spliceable(Seq::<char>::empty())) by {
            lemma_markers();
            text::lemma_find(Seq::<char>::empty(), BEGIN@, 0);
        }
        lemma_spliced_is_tabled(Seq::empty(), block, id);
        assert forall|m: int| 0 <= m < k implies !tabled(#[trigger] left[m]) by {
            assert(left[m] == comments[m]);
        }
        lemma_own_index_at(left, 0, k);
        lemma_own_index(left, 0);
        law_splice_idempotent(Seq::empty(), block);
    }
}

/// The next replies on the tape `u` are what a run over the tape `t`, from layer `i`
/// on, left of the user's comments. Nobody else has touched them, and the run was
/// able to get through with them.
pub open spec fn found_as_left(t: TapeView, u: TapeView, c: ConfigView, s: StackView, i: int) -> bool
    decreases s.layers.len() - i,
{
    if i < 0 || i >= s.layers.len() {
        true
    } else {
        match s.layers[i].pr {
            None => found_as_left(t, u, c, s, i + 1),
            Some(number) => {
                let q = RequestView::OwnComments { number };
                let (t1, found) = tape::ask_comments(t, q);
                let found = found->Ok_0;
                let next = comment_updated(t1, c, s, i, number, own_comment(found, 0)).0;
                &&& can_settle(s, i, found)
                &&& u.asked.len() < u.replies.len()
                &&& exists|id: u64|
                    u.replies[u.asked.len() as int] == ReplyView::Comments(
                        #[trigger] left_by(c, s, i, found, id),
                    )
                &&& found_as_left(next, tape::ask(u, q).0, c, s, i + 1)
            },
        }
    }
}

proof fn lemma_second_update(
    t: TapeView,
    u: TapeView,
    c: ConfigView,
    s: StackView,
    i: int,
    first: usize,
    second: usize,
)
    requires
        0 <= i,
        comments_from(t, c, s, i, first).1 is Ok,
        found_as_left(t, u, c, s, i),
        forall|k: int|
            0 <= k < s.layers.len() && #[trigger] in_stack(s, k) ==> !markers::holds(
                table(c, s, k),
                END@,
            ),
    ensures
        comments_from(u, c, s, i, second).1 == Ok::<usize, HaltView>(second),
        tape::only(u, comments_from(u, c, s, i, second).0, |q: RequestView| q is OwnComments),
    decreases s.layers.len() - i,
{
    broadcast use tape::lemma_only_ask;

    let looks = |q: RequestView| q is OwnComments;
    tape::lemma_only_start(u, looks);
    if i < s.layers.len() {
        match s.layers[i].pr {
            None => lemma_second_update(t, u, c, s, i + 1, first, second),
            Some(number) => {
                let q = RequestView::OwnComments { number };
                let (t1, found) = tape::ask_comments(t, q);
                let found = found->Ok_0;
                let (t2, written) = comment_updated(t1, c, s, i, number, own_comment(found, 0));
                let next = if written->Ok_0 {
                    (first + 1) as usize
                } else {
                    first
                };
                let id = choose|id: u64|
                    u.replies[u.asked.len() as int] == ReplyView::Comments(
                        #[trigger] left_by(c, s, i, found, id),
                    );
                let (u1, again) = tape::ask_comments(u, q);
                assert(again == Ok::<Seq<CommentView>, HaltView>(left_by(c, s, i, found, id)));
                lemma_left_alone(u1, c, s, i, number, found, id);
                lemma_second_update(t2, u1, c, s, i + 1, next, second);
                let done = comments_from(u, c, s, i, second).0;
                assert(done == comments_from(u1, c, s, i + 1, second).0);
                assert(tape::only(u, u1, looks));
                tape::lemma_only_trans(u, u1, done, looks);
            },
        }
    }
}

/// A second run over an unchanged stack writes nothing, so that nobody is notified
/// of nothing: where the first run came to its end and the comments are found as it
/// left them, the next one only reads them, and counts none.
pub proof fn law_second_update_writes_nothing(t: TapeView, u: TapeView, c: ConfigView, s: StackView)
    requires
        comments_from(t, c, s, 0, 0).1 is Ok,
        found_as_left(t, u, c, s, 0),
        !markers::holds(c.trunk, END@),
        forall|k: int|
            0 <= k < s.layers.len() ==> !markers::holds(
                (#[trigger] s.layers[k]).message.subject,
                END@,
            ),
    ensures
        comments_from(u, c, s, 0, 0).1 == Ok::<usize, HaltView>(0),
        tape::only(u, comments_from(u, c, s, 0, 0).0, |q: RequestView| q is OwnComments),
{
    assert forall|k: int| 0 <= k < s.layers.len() && #[trigger] in_stack(s, k) implies !markers::holds(
        table(c, s, k),
        END@,
    ) by {
        lemma_table_is_plain(c, s, k);
    }
    lemma_second_update(t, u, c, s, 0, 0, 0);
}

} // verus!
