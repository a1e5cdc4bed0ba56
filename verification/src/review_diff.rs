//! What the forge displays for a pull request.
//!
//! "Files changed" is a *three-dot* diff, recomputed live from the current
//! branch tips:
//!
//! ```text
//! diff(tree(merge_base(base_tip, head_tip)), tree(head_tip))
//! ```
//!
//! That is a pure function of the commit graph, so it can be reproduced exactly:
//! the push gate compares it, and `land` checks by it that its one force-push
//! does not show.

use vstd::prelude::*;

use crate::oid::Oid;
use crate::tape;
use crate::tape::{Halt, HaltView, Request, RequestView, Tape, TapeView};

verus! {

/// The merge base the forge would use for a pull request.
pub fn review_base(t: &mut Tape, base_tip: Oid, head_tip: Oid) -> (r: Result<Oid, Halt>)
    ensures
        (final(t)@, tape::outcome(r)) == tape::ask_object(
            old(t)@,
            RequestView::MergeBase { a: base_tip, b: head_tip },
        ),
{
    t.object(Request::MergeBase { a: base_tip, b: head_tip })
}

/// The two trees whose difference a pull request shows: that of the merge base of
/// its two branches, and that of its head.
pub open spec fn shown_trees(t: TapeView, base_tip: Oid, head_tip: Oid) -> (
    TapeView,
    Result<(Oid, Oid), HaltView>,
) {
    tape::bind(
        tape::ask_object(t, RequestView::MergeBase { a: base_tip, b: head_tip }),
        |t: TapeView, base: Oid|
            tape::bind(
                tape::ask_object(t, RequestView::TreeOf { commit: base }),
                |t: TapeView, from: Oid|
                    tape::bind(
                        tape::ask_object(t, RequestView::TreeOf { commit: head_tip }),
                        |t: TapeView, to: Oid| tape::done(t, (from, to)),
                    ),
            ),
    )
}

fn displayed_trees(t: &mut Tape, base_tip: Oid, head_tip: Oid) -> (r: Result<(Oid, Oid), Halt>)
    ensures
        (final(t)@, tape::outcome(r)) == shown_trees(old(t)@, base_tip, head_tip),
{
    let base = review_base(t, base_tip, head_tip)?;
    let from = t.object(Request::TreeOf { commit: base })?;
    let to = t.object(Request::TreeOf { commit: head_tip })?;
    Ok((from, to))
}

/// The hash of the patch that a pull request shows.
pub open spec fn patch_hash(t: TapeView, base_tip: Oid, head_tip: Oid) -> (
    TapeView,
    Result<Oid, HaltView>,
) {
    tape::bind(
        shown_trees(t, base_tip, head_tip),
        |t: TapeView, trees: (Oid, Oid)|
            tape::ask_object(t, RequestView::PatchId { from: trees.0, to: trees.1 }),
    )
}

/// The hash of the patch that the forge would display for a pull request. The push
/// gate goes by it.
pub fn displayed_patch_id(t: &mut Tape, base_tip: Oid, head_tip: Oid) -> (r: Result<Oid, Halt>)
    ensures
        (final(t)@, tape::outcome(r)) == patch_hash(old(t)@, base_tip, head_tip),
{
    let (from, to) = displayed_trees(t, base_tip, head_tip)?;
    t.object(Request::PatchId { from, to })
}

/// One line of a patch: lines that were added, removed or kept carry their mark,
/// headers stand as they are.
pub open spec fn line_text(origin: char, content: Seq<char>) -> Seq<char> {
    if origin == '+' || origin == '-' || origin == ' ' {
        seq![origin] + content
    } else {
        content
    }
}

/// The first `n` lines of a patch, one after the other.
pub open spec fn patch_text(lines: Seq<(char, Seq<char>)>, n: int) -> Seq<char>
    decreases n,
{
    if n <= 0 {
        Seq::empty()
    } else {
        patch_text(lines, n - 1) + line_text(lines[n - 1].0, lines[n - 1].1)
    }
}

/// The text of a patch.
pub fn render_lines(lines: &Vec<(char, String)>) -> (r: String)
    ensures
        r@ == patch_text(lines.deep_view(), lines@.len() as int),
{
    let mut out = String::new();
    let mut i: usize = 0;
    while i < lines.len()
        invariant
            i <= lines@.len(),
            out@ == patch_text(lines.deep_view(), i as int),
        decreases lines@.len() - i,
    {
        let (origin, content) = &lines[i];
        assert(lines.deep_view()[i as int] == (*origin, content@));
        if *origin == '+' || *origin == '-' || *origin == ' ' {
            out.push(*origin);
        }
        out.append(content.as_str());
        assert(out@ =~= patch_text(lines.deep_view(), i as int) + line_text(*origin, content@));
        i = i + 1;
    }
    out
}

/// The difference between two trees as text.
pub open spec fn tree_diff(t: TapeView, from: Oid, to: Oid) -> (
    TapeView,
    Result<Seq<char>, HaltView>,
) {
    tape::bind(
        tape::ask_lines(t, RequestView::DiffLines { from, to }),
        |t: TapeView, lines: Seq<(char, Seq<char>)>|
            tape::done(t, patch_text(lines, lines.len() as int)),
    )
}

/// Renders the difference between two trees as the text of a unified patch.
pub fn render_tree_diff(t: &mut Tape, from: Oid, to: Oid) -> (r: Result<String, Halt>)
    ensures
        (final(t)@, tape::outcome(r)) == tree_diff(old(t)@, from, to),
{
    let lines = t.lines(Request::DiffLines { from, to })?;
    Ok(render_lines(&lines))
}

/// The patch that a pull request shows, as text.
pub open spec fn shown_text(t: TapeView, base_tip: Oid, head_tip: Oid) -> (
    TapeView,
    Result<Seq<char>, HaltView>,
) {
    tape::bind(
        shown_trees(t, base_tip, head_tip),
        |t: TapeView, trees: (Oid, Oid)| tree_diff(t, trees.0, trees.1),
    )
}

/// The text of what the forge would display for a pull request.
pub fn displayed_patch(t: &mut Tape, base_tip: Oid, head_tip: Oid) -> (r: Result<String, Halt>)
    ensures
        (final(t)@, tape::outcome(r)) == shown_text(old(t)@, base_tip, head_tip),
{
    let (from, to) = displayed_trees(t, base_tip, head_tip)?;
    render_tree_diff(t, from, to)
}

/// The refusal of a commit that has nothing below it.
pub const NO_PARENT: &'static str = "parent 0 does not exist";

/// The patch that a commit introduces, as text.
pub open spec fn commit_text(t: TapeView, commit: Oid) -> (TapeView, Result<Seq<char>, HaltView>) {
    tape::bind(
        tape::ask_maybe_object(t, RequestView::FirstParentOf { commit }),
        |t: TapeView, parent: Option<Oid>|
            match parent {
                None => tape::refuse(t, NO_PARENT@),
                Some(parent) => tape::bind(
                    tape::ask_object(t, RequestView::TreeOf { commit: parent }),
                    |t: TapeView, from: Oid|
                        tape::bind(
                            tape::ask_object(t, RequestView::TreeOf { commit }),
                            |t: TapeView, to: Oid| tree_diff(t, from, to),
                        ),
                ),
            },
    )
}

/// The patch that a local commit introduces, as the forge would render it if the
/// layer were displayed correctly.
pub fn local_commit_patch(t: &mut Tape, commit: Oid) -> (r: Result<String, Halt>)
    ensures
        (final(t)@, tape::outcome(r)) == commit_text(old(t)@, commit),
{
    match t.maybe_object(Request::FirstParentOf { commit })? {
        None => Err(Halt::Refused(NO_PARENT.to_owned())),
        Some(parent) => {
            let from = t.object(Request::TreeOf { commit: parent })?;
            let to = t.object(Request::TreeOf { commit })?;
            render_tree_diff(t, from, to)
        },
    }
}

pub broadcast proof fn lemma_patch_hash_only(
    from: TapeView,
    t: TapeView,
    base_tip: Oid,
    head_tip: Oid,
    allowed: spec_fn(RequestView) -> bool,
)
    requires
        #[trigger] tape::only(from, t, allowed),
        tape::may_look(allowed),
    ensures
        tape::only(from, (#[trigger] patch_hash(t, base_tip, head_tip)).0, allowed),
{
    broadcast use tape::lemma_only_ask;

}

/// To show a pull request or a commit, by its hash or as text, is to look: neither
/// the forge nor the local repository is changed.
pub proof fn law_display_changes_nothing(
    t: TapeView,
    base_tip: Oid,
    head_tip: Oid,
    allowed: spec_fn(RequestView) -> bool,
)
    requires
        tape::may_look(allowed),
    ensures
        tape::only(t, patch_hash(t, base_tip, head_tip).0, allowed),
        tape::only(t, shown_text(t, base_tip, head_tip).0, allowed),
        tape::only(t, commit_text(t, head_tip).0, allowed),
{
    broadcast use tape::lemma_only_ask;

    tape::lemma_only_start(t, allowed);
}

} // verus!
