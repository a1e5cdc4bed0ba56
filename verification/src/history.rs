//! Commits made out of other commits: rewriting, rebasing and replaying.
//!
//! Every commit that is pushed to the branch of a pull request is made here, so
//! that all of them have exactly one parent and a branch stays linear.

use vstd::prelude::*;

use crate::forge::{PrView, PullRequest};
use crate::oid;
use crate::oid::Oid;
use crate::refs;
use crate::review_diff;
use crate::tape;
use crate::tape::{
    Halt, HaltView, Merge, MergeView, Reply, ReplyView, Request, RequestView, Tape, TapeView,
};
use crate::text;
use crate::text::{push_decimal, same};

verus! {

/// What C takes for white space.
pub open spec fn is_c_space(c: char) -> bool {
    c == ' ' || '\t' <= c <= '\r'
}

/// A line without the white space at its end.
pub open spec fn line_core(line: Seq<char>) -> Seq<char>
    decreases line.len(),
{
    if line.len() > 0 && is_c_space(line.last()) {
        line_core(line.drop_last())
    } else {
        line
    }
}

/// The first `n` lines cleaned up, and whether the last of them is blank.
pub open spec fn tidied(lines: Seq<Seq<char>>, n: int) -> (Seq<char>, bool)
    decreases n,
{
    if n <= 0 {
        (Seq::empty(), false)
    } else {
        let (above, gap) = tidied(lines, n - 1);
        let line = line_core(lines[n - 1]);
        if line.len() == 0 {
            (above, true)
        } else if gap && above.len() > 0 {
            (above + "\n"@ + line + "\n"@, false)
        } else {
            (above + line + "\n"@, false)
        }
    }
}

/// A message cleaned up: no white space at the end of a line, one blank line where
/// there were several, none at the start or at the end, and a line feed behind every
/// line. A message with a NUL character cannot be cleaned up.
pub open spec fn prettified(message: Seq<char>) -> Option<Seq<char>> {
    let lines = text::split_lines(message);
    if message.contains('\0') {
        None
    } else {
        Some(tidied(lines, lines.len() as int).0)
    }
}

/// `git2::message_prettify` with no comment character: cleans up a message. It
/// fails on a message that holds a NUL character, and on no other.
#[verifier::external_body]
fn prettify(message: &str) -> (r: Option<String>)
    ensures
        r.deep_view() == prettified(message@),
{
    git2::message_prettify(message, None).ok()
}

pub const UNWRITABLE: &'static str = "a commit message cannot hold a NUL character";

/// The message as it is written into a commit.
pub open spec fn written(t: TapeView, message: Seq<char>) -> (TapeView, Result<Seq<char>, HaltView>) {
    match prettified(message) {
        Some(pretty) => tape::done(t, pretty),
        None => tape::refuse(t, UNWRITABLE@),
    }
}

fn written_message(t: &mut Tape, message: &str) -> (r: Result<String, Halt>)
    ensures
        (final(t)@, tape::outcome(r)) == written(old(t)@, message@),
        final(t)@ == old(t)@,
{
    match prettify(message) {
        Some(pretty) => Ok(pretty),
        None => Err(Halt::Refused(UNWRITABLE.to_owned())),
    }
}

/// A new commit made now in the name of the author of another one.
pub open spec fn derived(
    t: TapeView,
    attribution: Oid,
    message: Seq<char>,
    tree: Oid,
    parent: Oid,
) -> (TapeView, Result<Oid, HaltView>) {
    tape::bind(
        written(t, message),
        |t: TapeView, message: Seq<char>|
            tape::ask_object(t, RequestView::DeriveCommit { attribution, message, tree, parent }),
    )
}

/// Creates a commit with an explicitly chosen tree and parent.
///
/// The author is taken from `attribution` so that the pull request is
/// attributed correctly, but the time is now so that the commit lands in the
/// right place in the timeline.
pub fn create_derived_commit(
    t: &mut Tape,
    attribution: Oid,
    message: &str,
    tree: Oid,
    parent: Oid,
) -> (r: Result<Oid, Halt>)
    ensures
        (final(t)@, tape::outcome(r)) == derived(old(t)@, attribution, message@, tree, parent),
{
    let message = written_message(t, message)?;
    t.object(Request::DeriveCommit { attribution, message, tree, parent })
}

/// The refusal of a commit that would not move its branch forward.
pub open spec fn not_forward(commit: Oid, tip: Oid) -> Seq<char> {
    "internal error: synthesized commit "@ + oid::oid_hex(commit) + " is not a descendant of "@
        + oid::oid_hex(tip) + "; pushing it would require a force"@
}

/// The next commit on the branch of a pull request, on top of its tip.
pub open spec fn update_commit(
    t: TapeView,
    tip: Oid,
    tree: Oid,
    attribution: Oid,
    message: Seq<char>,
) -> (TapeView, Result<Oid, HaltView>) {
    tape::bind(
        derived(t, attribution, message, tree, tip),
        |t: TapeView, commit: Oid|
            tape::bind(
                tape::ask_flag(t, RequestView::IsDescendant { descendant: commit, ancestor: tip }),
                |t: TapeView, forward: bool|
                    if forward {
                        tape::done(t, commit)
                    } else {
                        tape::refuse(t, not_forward(commit, tip))
                    },
            ),
    )
}

/// Synthesizes the next commit on a pull request branch.
///
/// `current_remote_tip` is the sole parent, making the resulting push a strict
/// fast-forward.
pub fn synthesize_update_commit(
    t: &mut Tape,
    current_remote_tip: Oid,
    target_tree: Oid,
    attribution: Oid,
    message: &str,
) -> (r: Result<Oid, Halt>)
    ensures
        (final(t)@, tape::outcome(r)) == update_commit(
            old(t)@,
            current_remote_tip,
            target_tree,
            attribution,
            message@,
        ),
{
    let commit = create_derived_commit(t, attribution, message, target_tree, current_remote_tip)?;
    if t.flag(Request::IsDescendant { descendant: commit, ancestor: current_remote_tip })? {
        Ok(commit)
    } else {
        let mut reason = "internal error: synthesized commit ".to_owned();
        reason.append(commit.text().as_str());
        reason.append(" is not a descendant of ");
        reason.append(current_remote_tip.text().as_str());
        reason.append("; pushing it would require a force");
        Err(Halt::Refused(reason))
    }
}

/// Synthesizes the *first* commit of a pull request branch.
///
/// There is no previous tip to extend, so the branch simply starts at
/// `base_tip` with the given tree.
pub fn synthesize_initial_commit(
    t: &mut Tape,
    base_tip: Oid,
    target_tree: Oid,
    attribution: Oid,
    message: &str,
) -> (r: Result<Oid, Halt>)
    ensures
        (final(t)@, tape::outcome(r)) == derived(
            old(t)@,
            attribution,
            message@,
            target_tree,
            base_tip,
        ),
{
    create_derived_commit(t, attribution, message, target_tree, base_tip)
}

/// The commits on the first-parent chain from `cur` down to, but without, the
/// first one that is `stop` or an ancestor of it, put before `above`.
pub open spec fn revisions_down(t: TapeView, cur: Oid, stop: Oid, above: Seq<Oid>) -> (
    TapeView,
    Result<Seq<Oid>, HaltView>,
)
    decreases t.replies.len() - t.asked.len(),
{
    let (t1, joined) = tape::ask_flag(t, RequestView::IsAncestor { ancestor: cur, descendant: stop });
    match joined {
        Err(h) => (t1, Err(h)),
        Ok(true) => tape::done(t1, above),
        Ok(false) => {
            let (t2, parent) = tape::ask_maybe_object(
                t1,
                RequestView::FirstParentOf { commit: cur },
            );
            match parent {
                Err(h) => (t2, Err(h)),
                Ok(None) => tape::done(t2, above.insert(0, cur)),
                Ok(Some(parent)) => revisions_down(t2, parent, stop, above.insert(0, cur)),
            }
        },
    }
}

/// The commits that the tool itself put on a head branch, oldest first.
///
/// Every update appends a commit whose **first** parent is the previous tip, so
/// the branch's own revisions are exactly the first-parent chain from the tip
/// down to the point where it joins the branch it was stacked on. `stop` is the
/// tip of that branch.
pub open spec fn revisions(t: TapeView, tip: Oid, stop: Oid) -> (
    TapeView,
    Result<Seq<Oid>, HaltView>,
) {
    revisions_down(t, tip, stop, Seq::empty())
}

/// The commits that the tool itself put on a head branch, oldest first.
pub fn branch_revisions(t: &mut Tape, tip: Oid, stop: Oid) -> (r: Result<Vec<Oid>, Halt>)
    ensures
        ({
            let spec = revisions(old(t)@, tip, stop);
            &&& final(t)@ == spec.0
            &&& match r {
                Ok(out) => spec.1 == Ok::<Seq<Oid>, HaltView>(out@),
                Err(h) => spec.1 == Err::<Seq<Oid>, HaltView>(h.deep_view()),
            }
        }),
{
    let mut out: Vec<Oid> = Vec::new();
    let mut cur = tip;
    assert(out@ =~= Seq::<Oid>::empty());
    loop
        invariant
            revisions_down(t@, cur, stop, out@) == revisions(old(t)@, tip, stop),
        decreases t@.replies.len() - t@.asked.len(),
    {
        if t.flag(Request::IsAncestor { ancestor: cur, descendant: stop })? {
            return Ok(out);
        }
        let parent = t.maybe_object(Request::FirstParentOf { commit: cur })?;
        out.insert(0, cur);
        match parent {
            Some(parent) => {
                cur = parent;
            },
            // A root commit: the whole branch is its own history.
            None => {
                return Ok(out);
            },
        }
    }
}

/// The oldest commit on the first-parent chain from `cur` down to where it
/// joins `stop`, where that can be told.
pub open spec fn first_revision_down(t: TapeView, cur: Oid, stop: Oid, above: Option<Oid>) -> (
    TapeView,
    Result<Option<Oid>, HaltView>,
)
    decreases t.replies.len() - t.asked.len(),
{
    let (t1, joined) = tape::ask(t, RequestView::TryIsAncestor { ancestor: cur, descendant: stop });
    match joined {
        Err(h) => (t1, Err(h)),
        Ok(ReplyView::Failed(_)) => tape::done(t1, None),
        Ok(ReplyView::Flag(true)) => tape::done(t1, above),
        Ok(ReplyView::Flag(false)) => {
            let (t2, parent) = tape::ask(t1, RequestView::TryFirstParentOf { commit: cur });
            match parent {
                Err(h) => (t2, Err(h)),
                Ok(ReplyView::Failed(_)) => tape::done(t2, None),
                Ok(ReplyView::MaybeObject(None)) => tape::done(t2, Some(cur)),
                Ok(ReplyView::MaybeObject(Some(parent))) => first_revision_down(
                    t2,
                    parent,
                    stop,
                    Some(cur),
                ),
                Ok(_) => tape::refuse(t2, tape::MISMATCH@),
            }
        },
        Ok(_) => tape::refuse(t1, tape::MISMATCH@),
    }
}

fn first_revision(t: &mut Tape, tip: Oid, stop: Oid) -> (r: Result<Option<Oid>, Halt>)
    ensures
        (final(t)@, tape::outcome(r)) == first_revision_down(old(t)@, tip, stop, None),
{
    let mut above: Option<Oid> = None;
    let mut cur = tip;
    loop
        invariant
            first_revision_down(t@, cur, stop, above) == first_revision_down(
                old(t)@,
                tip,
                stop,
                None,
            ),
        decreases t@.replies.len() - t@.asked.len(),
    {
        match t.reply(Request::TryIsAncestor { ancestor: cur, descendant: stop })? {
            Reply::Failed(_) => {
                return Ok(None);
            },
            Reply::Flag(joined) => {
                if joined {
                    return Ok(above);
                }
            },
            _ => {
                return Err(Halt::Refused(tape::MISMATCH.to_owned()));
            },
        }
        match t.reply(Request::TryFirstParentOf { commit: cur })? {
            Reply::Failed(_) => {
                return Ok(None);
            },
            Reply::MaybeObject(None) => {
                return Ok(Some(cur));
            },
            Reply::MaybeObject(Some(parent)) => {
                above = Some(cur);
                cur = parent;
            },
            _ => {
                return Err(Halt::Refused(tape::MISMATCH.to_owned()));
            },
        }
    }
}

/// The first commit of the branch of a pull request: the one that was recorded,
/// where the branch still holds it, and otherwise the oldest one above the
/// branch it is stacked on.
pub open spec fn root_commit(t: TapeView, pr: PrView, fallback_base_tip: Oid) -> (
    TapeView,
    Result<Option<Oid>, HaltView>,
) {
    tape::bind(
        tape::ask_maybe_object(
            t,
            RequestView::ReferenceTarget { name: refs::root_ref(pr.number) },
        ),
        |t: TapeView, recorded: Option<Oid>|
            match recorded {
                Some(root) => tape::bind(
                    tape::ask_flag(
                        t,
                        RequestView::MayBeAncestor { ancestor: root, descendant: pr.head_oid },
                    ),
                    |t: TapeView, held: bool|
                        if held {
                            tape::done(t, Some(root))
                        } else {
                            first_revision_down(t, pr.head_oid, fallback_base_tip, None)
                        },
                ),
                None => first_revision_down(t, pr.head_oid, fallback_base_tip, None),
            },
    )
}

/// The first commit of the branch of a pull request, if it can be told.
pub fn find_root_commit(t: &mut Tape, pr: &PullRequest, fallback_base_tip: Oid) -> (r: Result<
    Option<Oid>,
    Halt,
>)
    ensures
        (final(t)@, tape::outcome(r)) == root_commit(old(t)@, pr@, fallback_base_tip),
{
    match refs::get_root(t, pr.number)? {
        Some(root) => {
            if t.flag(Request::MayBeAncestor { ancestor: root, descendant: pr.head_oid })? {
                return Ok(Some(root));
            }
        },
        None => {},
    }
    first_revision(t, pr.head_oid, fallback_base_tip)
}

/// The message of a replayed commit: the first one gets the given message, and
/// every other one keeps its own.
pub open spec fn replayed_message(t: TapeView, commit: Oid, first: Option<Seq<char>>) -> (
    TapeView,
    Result<Seq<char>, HaltView>,
) {
    match first {
        Some(message) => tape::done(t, message),
        None => tape::ask_text(t, RequestView::MessageOf { commit }),
    }
}

/// The revisions from `i` on, replayed on top of `tip`; `first` is the message
/// of the first commit, while there is none yet.
pub open spec fn replay_from(
    t: TapeView,
    revisions: Seq<Oid>,
    i: int,
    tip: Oid,
    first: Option<Seq<char>>,
) -> (TapeView, Result<Option<Oid>, HaltView>)
    decreases revisions.len() - i,
{
    if i < 0 || i >= revisions.len() {
        tape::done(
            t,
            if first is Some {
                None
            } else {
                Some(tip)
            },
        )
    } else {
        let commit = revisions[i];
        tape::bind(
            tape::ask_flag(t, RequestView::IsMerge { commit }),
            |t: TapeView, first_parent: bool|
                tape::bind(
                    tape::ask_merge(t, RequestView::CherryPick { commit, onto: tip, first_parent }),
                    |t: TapeView, merge: MergeView|
                        match merge {
                            MergeView::Conflicts(_) => tape::done(t, None),
                            MergeView::Clean(tree) => tape::bind(
                                tape::ask_object(t, RequestView::TreeOf { commit: tip }),
                                |t: TapeView, before: Oid|
                                    if tree == before {
                                        replay_from(t, revisions, i + 1, tip, first)
                                    } else {
                                        tape::bind(
                                            replayed_message(t, commit, first),
                                            |t: TapeView, message: Seq<char>|
                                                tape::bind(
                                                    tape::ask_object(
                                                        t,
                                                        RequestView::CopyCommit {
                                                            original: commit,
                                                            message,
                                                            tree,
                                                            parent: tip,
                                                        },
                                                    ),
                                                    |t: TapeView, next: Oid|
                                                        replay_from(
                                                            t,
                                                            revisions,
                                                            i + 1,
                                                            next,
                                                            None,
                                                        ),
                                                ),
                                        )
                                    },
                            ),
                        },
                ),
        )
    }
}

/// The revisions of a branch replayed onto `onto`.
pub open spec fn replayed(t: TapeView, revisions: Seq<Oid>, onto: Oid, message: Seq<char>) -> (
    TapeView,
    Result<Option<Oid>, HaltView>,
) {
    replay_from(t, revisions, 0, onto, Some(message))
}

/// Replays a branch's revisions onto `onto`, preserving the boundaries
/// readers have been using as "changes since revision N".
///
/// There is no result if any revision conflicts or nothing is left of all of
/// them.
///
/// Each revision is picked relative to its first parent, so the diff being
/// replayed is "what changed in this revision", which includes whatever was
/// merged forward from the dependency at the time. Those parts are already
/// present in `onto`, so they apply as no-ops and the commit drops out as
/// empty.
pub fn replay(t: &mut Tape, revisions: &Vec<Oid>, onto: Oid, initial_message: &str) -> (r: Result<
    Option<Oid>,
    Halt,
>)
    ensures
        (final(t)@, tape::outcome(r)) == replayed(old(t)@, revisions@, onto, initial_message@),
{
    let mut tip = onto;
    let mut first = true;
    let mut i: usize = 0;
    while i < revisions.len()
        invariant
            i <= revisions@.len(),
            replay_from(
                t@,
                revisions@,
                i as int,
                tip,
                if first {
                    Some(initial_message@)
                } else {
                    None
                },
            ) == replayed(old(t)@, revisions@, onto, initial_message@),
        decreases revisions@.len() - i,
    {
        let commit = revisions[i];
        let first_parent = t.flag(Request::IsMerge { commit })?;
        let tree = match t.merge(Request::CherryPick { commit, onto: tip, first_parent })? {
            Merge::Clean(tree) => tree,
            Merge::Conflicts(_) => {
                return Ok(None);
            },
        };
        let before = t.object(Request::TreeOf { commit: tip })?;
        if tree != before {
            let message = if first {
                first = false;
                initial_message.to_owned()
            } else {
                t.text(Request::MessageOf { commit })?
            };
            tip = t.object(Request::CopyCommit { original: commit, message, tree, parent: tip })?;
        }
        i = i + 1;
    }
    if first {
        return Ok(None);
    }
    Ok(Some(tip))
}

/// The refusal of a branch that cannot be brought onto the squashed commit.
pub open spec fn cannot_collapse(number: u64) -> Seq<char> {
    "#"@ + text::decimal(number as nat)
        + " conflicts with the squashed commit and cannot be rebased automatically. Its branch has been left untouched; resolve it locally and run `nspr diff`."@
}

/// One commit that carries the content of a branch as it should look on top of
/// `new_root`.
pub open spec fn collapsed(
    t: TapeView,
    number: u64,
    tip: Oid,
    old_root: Oid,
    new_root: Oid,
    message: Seq<char>,
) -> (TapeView, Result<Oid, HaltView>) {
    tape::bind(
        tape::ask_object(t, RequestView::MergeBase { a: old_root, b: tip }),
        |t: TapeView, old_base: Oid|
            tape::bind(
                tape::ask_object(t, RequestView::TreeOf { commit: old_base }),
                |t: TapeView, base: Oid|
                    tape::bind(
                        tape::ask_object(t, RequestView::TreeOf { commit: new_root }),
                        |t: TapeView, ours: Oid|
                            tape::bind(
                                tape::ask_object(t, RequestView::TreeOf { commit: tip }),
                                |t: TapeView, theirs: Oid|
                                    tape::bind(
                                        tape::ask_merge(
                                            t,
                                            RequestView::MergeTrees { base, ours, theirs },
                                        ),
                                        |t: TapeView, merge: MergeView|
                                            match merge {
                                                MergeView::Conflicts(_) => tape::refuse(
                                                    t,
                                                    cannot_collapse(number),
                                                ),
                                                MergeView::Clean(tree) => derived(
                                                    t,
                                                    tip,
                                                    message,
                                                    tree,
                                                    new_root,
                                                ),
                                            },
                                    ),
                            ),
                    ),
            ),
    )
}

/// Makes one commit that carries the content of a branch as it should look on
/// top of `new_root`.
pub fn collapse(
    t: &mut Tape,
    number: u64,
    tip: Oid,
    old_root: Oid,
    new_root: Oid,
    initial_message: &str,
) -> (r: Result<Oid, Halt>)
    ensures
        (final(t)@, tape::outcome(r)) == collapsed(
            old(t)@,
            number,
            tip,
            old_root,
            new_root,
            initial_message@,
        ),
{
    let old_base = t.object(Request::MergeBase { a: old_root, b: tip })?;
    let base = t.object(Request::TreeOf { commit: old_base })?;
    let ours = t.object(Request::TreeOf { commit: new_root })?;
    let theirs = t.object(Request::TreeOf { commit: tip })?;
    match t.merge(Request::MergeTrees { base, ours, theirs })? {
        Merge::Conflicts(_) => {
            let mut reason = "#".to_owned();
            push_decimal(&mut reason, number);
            reason.append(
                " conflicts with the squashed commit and cannot be rebased automatically. Its branch has been left untouched; resolve it locally and run `nspr diff`.",
            );
            Err(Halt::Refused(reason))
        },
        Merge::Clean(tree) => create_derived_commit(t, tip, initial_message, tree, new_root),
    }
}

/// The commits from `i` on with their new messages, on top of `parent`, after
/// those that are already there. Once one commit is rewritten, all that follow
/// are.
pub open spec fn rewrite_from(
    t: TapeView,
    commits: Seq<(Oid, Seq<char>)>,
    i: int,
    parent: Oid,
    updating: bool,
    rewritten: Seq<Oid>,
) -> (TapeView, Result<Seq<Oid>, HaltView>)
    decreases commits.len() - i,
{
    if i < 0 || i >= commits.len() {
        if updating {
            tape::bind(
                tape::ask_unit(t, RequestView::MoveHead { commit: parent }),
                |t: TapeView, u: ()| tape::done(t, rewritten),
            )
        } else {
            tape::done(t, rewritten)
        }
    } else {
        let commit = commits[i].0;
        tape::bind(
            tape::ask_text(t, RequestView::MessageOf { commit }),
            |t: TapeView, current: Seq<char>|
                tape::bind(
                    written(t, commits[i].1),
                    |t: TapeView, message: Seq<char>|
                        if updating || current != message {
                            tape::bind(
                                tape::ask_object(t, RequestView::TreeOf { commit }),
                                |t: TapeView, tree: Oid|
                                    tape::bind(
                                        tape::ask_object(
                                            t,
                                            RequestView::CopyCommit {
                                                original: commit,
                                                message,
                                                tree,
                                                parent,
                                            },
                                        ),
                                        |t: TapeView, new: Oid|
                                            tape::bind(
                                                tape::ask_unit(
                                                    t,
                                                    RequestView::PostRewrite { old: commit, new },
                                                ),
                                                |t: TapeView, u: ()|
                                                    rewrite_from(
                                                        t,
                                                        commits,
                                                        i + 1,
                                                        new,
                                                        true,
                                                        rewritten.push(new),
                                                    ),
                                            ),
                                    ),
                            )
                        } else {
                            rewrite_from(t, commits, i + 1, commit, false, rewritten.push(commit))
                        },
                ),
        )
    }
}

/// A linear chain of commits on top of `base` with new messages.
pub open spec fn messages_rewritten(t: TapeView, base: Oid, commits: Seq<(Oid, Seq<char>)>) -> (
    TapeView,
    Result<Seq<Oid>, HaltView>,
) {
    rewrite_from(t, commits, 0, base, false, Seq::empty())
}

/// Rewrites the messages of a linear chain of commits starting at `base`.
///
/// `commits` pairs each existing commit with its desired message. Commits whose
/// message is unchanged are only rewritten if an earlier commit in the chain
/// was (since their parent moved). `HEAD` is updated to the new tip.
pub fn rewrite_messages(t: &mut Tape, base: Oid, commits: &Vec<(Oid, String)>) -> (r: Result<
    Vec<Oid>,
    Halt,
>)
    ensures
        ({
            let spec = messages_rewritten(old(t)@, base, commits.deep_view());
            &&& final(t)@ == spec.0
            &&& match r {
                Ok(out) => spec.1 == Ok::<Seq<Oid>, HaltView>(out@) && out@.len() == commits@.len(),
                Err(h) => spec.1 == Err::<Seq<Oid>, HaltView>(h.deep_view()),
            }
        }),
{
    let mut parent = base;
    let mut updating = false;
    let mut rewritten: Vec<Oid> = Vec::new();
    let mut i: usize = 0;
    assert(rewritten@ =~= Seq::<Oid>::empty());
    while i < commits.len()
        invariant
            i <= commits@.len(),
            rewritten@.len() == i,
            rewrite_from(t@, commits.deep_view(), i as int, parent, updating, rewritten@)
                == messages_rewritten(old(t)@, base, commits.deep_view()),
        decreases commits@.len() - i,
    {
        let commit = commits[i].0;
        assert(commits.deep_view()[i as int] == (commit, commits@[i as int].1@));
        let current = t.text(Request::MessageOf { commit })?;
        let message = written_message(t, commits[i].1.as_str())?;
        if !same(current.as_str(), message.as_str()) {
            updating = true;
        }
        if updating {
            let tree = t.object(Request::TreeOf { commit })?;
            let new = t.object(Request::CopyCommit { original: commit, message, tree, parent })?;
            t.unit(Request::PostRewrite { old: commit, new })?;
            rewritten.push(new);
            parent = new;
        } else {
            rewritten.push(commit);
            parent = commit;
        }
        i = i + 1;
    }
    if updating {
        t.unit(Request::MoveHead { commit: parent })?;
    }
    Ok(rewritten)
}

pub const REBASE_CONFLICTS: &'static str = "rebase failed due to merge conflicts";

/// The commits from `i` on, rebased on top of `parent`, after those that are
/// already there. Commits that become empty are dropped.
pub open spec fn rebase_from(
    t: TapeView,
    commits: Seq<Oid>,
    i: int,
    parent: Oid,
    rebased: Seq<Oid>,
) -> (TapeView, Result<Seq<Oid>, HaltView>)
    decreases commits.len() - i,
{
    if i < 0 || i >= commits.len() {
        tape::bind(
            tape::ask_unit(t, RequestView::CheckoutHead { commit: parent }),
            |t: TapeView, u: ()| tape::done(t, rebased),
        )
    } else {
        let commit = commits[i];
        tape::bind(
            tape::ask_merge(
                t,
                RequestView::CherryPick { commit, onto: parent, first_parent: false },
            ),
            |t: TapeView, merge: MergeView|
                match merge {
                    MergeView::Conflicts(_) => tape::refuse(t, REBASE_CONFLICTS@),
                    MergeView::Clean(tree) => tape::bind(
                        tape::ask_object(t, RequestView::TreeOf { commit: parent }),
                        |t: TapeView, before: Oid|
                            if tree == before {
                                tape::bind(
                                    tape::ask_unit(
                                        t,
                                        RequestView::PostRewrite { old: commit, new: parent },
                                    ),
                                    |t: TapeView, u: ()|
                                        rebase_from(t, commits, i + 1, parent, rebased),
                                )
                            } else {
                                tape::bind(
                                    tape::ask_text(t, RequestView::MessageOf { commit }),
                                    |t: TapeView, message: Seq<char>|
                                        tape::bind(
                                            tape::ask_object(
                                                t,
                                                RequestView::CopyCommit {
                                                    original: commit,
                                                    message,
                                                    tree,
                                                    parent,
                                                },
                                            ),
                                            |t: TapeView, new: Oid|
                                                tape::bind(
                                                    tape::ask_unit(
                                                        t,
                                                        RequestView::PostRewrite {
                                                            old: commit,
                                                            new,
                                                        },
                                                    ),
                                                    |t: TapeView, u: ()|
                                                        rebase_from(
                                                            t,
                                                            commits,
                                                            i + 1,
                                                            new,
                                                            rebased.push(new),
                                                        ),
                                                ),
                                        ),
                                )
                            },
                    ),
                },
        )
    }
}

/// A linear chain of commits rebased onto `new_parent`.
pub open spec fn commits_rebased(t: TapeView, commits: Seq<Oid>, new_parent: Oid) -> (
    TapeView,
    Result<Seq<Oid>, HaltView>,
) {
    rebase_from(t, commits, 0, new_parent, Seq::empty())
}

/// Rebases a linear chain of commits onto `new_parent`, updating `HEAD`.
///
/// Commits that become empty (typically because they just landed) are dropped.
pub fn rebase_commits(t: &mut Tape, commits: &Vec<Oid>, new_parent: Oid) -> (r: Result<
    Vec<Oid>,
    Halt,
>)
    ensures
        ({
            let spec = commits_rebased(old(t)@, commits@, new_parent);
            &&& final(t)@ == spec.0
            &&& match r {
                Ok(out) => spec.1 == Ok::<Seq<Oid>, HaltView>(out@),
                Err(h) => spec.1 == Err::<Seq<Oid>, HaltView>(h.deep_view()),
            }
        }),
{
    let mut parent = new_parent;
    let mut rebased: Vec<Oid> = Vec::new();
    let mut i: usize = 0;
    assert(rebased@ =~= Seq::<Oid>::empty());
    while i < commits.len()
        invariant
            i <= commits@.len(),
            rebase_from(t@, commits@, i as int, parent, rebased@) == commits_rebased(
                old(t)@,
                commits@,
                new_parent,
            ),
        decreases commits@.len() - i,
    {
        let commit = commits[i];
        let tree = match t.merge(
            Request::CherryPick { commit, onto: parent, first_parent: false },
        )? {
            Merge::Clean(tree) => tree,
            Merge::Conflicts(_) => {
                return Err(Halt::Refused(REBASE_CONFLICTS.to_owned()));
            },
        };
        let before = t.object(Request::TreeOf { commit: parent })?;
        if tree == before {
            // Became empty: almost always because it just landed.
            t.unit(Request::PostRewrite { old: commit, new: parent })?;
        } else {
            let message = t.text(Request::MessageOf { commit })?;
            let new = t.object(Request::CopyCommit { original: commit, message, tree, parent })?;
            t.unit(Request::PostRewrite { old: commit, new })?;
            rebased.push(new);
            parent = new;
        }
        i = i + 1;
    }
    t.unit(Request::CheckoutHead { commit: parent })?;
    Ok(rebased)
}

/// The content `desired` of a layer, computed on top of the tree
/// `ancestor_tree`, on top of the commit `onto` instead.
pub open spec fn tree_rebased(t: TapeView, ancestor_tree: Oid, onto: Oid, desired: Oid) -> (
    TapeView,
    Result<Option<Oid>, HaltView>,
) {
    tape::bind(
        tape::ask_object(t, RequestView::TreeOf { commit: onto }),
        |t: TapeView, ours: Oid|
            if ours == ancestor_tree {
                tape::done(t, Some(desired))
            } else {
                tape::bind(
                    tape::ask_merge(
                        t,
                        RequestView::MergeTrees { base: ancestor_tree, ours, theirs: desired },
                    ),
                    |t: TapeView, merge: MergeView|
                        tape::done(
                            t,
                            match merge {
                                MergeView::Clean(tree) => Some(tree),
                                MergeView::Conflicts(_) => None,
                            },
                        ),
                )
            },
    )
}

/// Expresses a layer's content on top of `onto` instead of its usual parent.
///
/// `desired` is the layer's tree as computed against the base it is *about* to
/// have; `ancestor_tree` is the tree that base change is relative to. Replaying
/// the difference between them onto `onto` gives the same patch sitting on the
/// older anchor. There is no result if the three-way merge conflicts.
pub fn rebase_tree_onto(t: &mut Tape, ancestor_tree: Oid, onto: Oid, desired: Oid) -> (r: Result<
    Option<Oid>,
    Halt,
>)
    ensures
        (final(t)@, tape::outcome(r)) == tree_rebased(old(t)@, ancestor_tree, onto, desired),
{
    let ours = t.object(Request::TreeOf { commit: onto })?;
    if ours == ancestor_tree {
        return Ok(Some(desired));
    }
    match t.merge(Request::MergeTrees { base: ancestor_tree, ours, theirs: desired })? {
        Merge::Clean(tree) => Ok(Some(tree)),
        Merge::Conflicts(_) => Ok(None),
    }
}

/// Making a commit of given content only makes that commit.
pub broadcast proof fn lemma_derived_only(
    from: TapeView,
    t: TapeView,
    attribution: Oid,
    message: Seq<char>,
    tree: Oid,
    parent: Oid,
    allowed: spec_fn(RequestView) -> bool,
)
    requires
        #[trigger] tape::only(from, t, allowed),
        tape::may_look(allowed),
    ensures
        tape::only(from, (#[trigger] derived(t, attribution, message, tree, parent)).0, allowed),
{
    broadcast use tape::lemma_only_ask;

}

pub broadcast proof fn lemma_update_commit_only(
    from: TapeView,
    t: TapeView,
    tip: Oid,
    tree: Oid,
    attribution: Oid,
    message: Seq<char>,
    allowed: spec_fn(RequestView) -> bool,
)
    requires
        #[trigger] tape::only(from, t, allowed),
        tape::may_look(allowed),
    ensures
        tape::only(from, (#[trigger] update_commit(t, tip, tree, attribution, message)).0, allowed),
{
    broadcast use {tape::lemma_only_ask, lemma_derived_only};

}

pub broadcast proof fn lemma_revisions_only(
    from: TapeView,
    t: TapeView,
    cur: Oid,
    stop: Oid,
    above: Seq<Oid>,
    allowed: spec_fn(RequestView) -> bool,
)
    requires
        #[trigger] tape::only(from, t, allowed),
        tape::may_look(allowed),
    ensures
        tape::only(from, (#[trigger] revisions_down(t, cur, stop, above)).0, allowed),
    decreases t.replies.len() - t.asked.len(),
{
    broadcast use tape::lemma_only_ask;

    let (t1, joined) = tape::ask_flag(t, RequestView::IsAncestor { ancestor: cur, descendant: stop });
    if joined == Ok::<bool, HaltView>(false) {
        let (t2, parent) = tape::ask_maybe_object(t1, RequestView::FirstParentOf { commit: cur });
        if parent is Ok && parent->Ok_0 is Some {
            lemma_revisions_only(from, t2, (parent->Ok_0)->0, stop, above.insert(0, cur), allowed);
        }
    }
}

pub broadcast proof fn lemma_replay_only(
    from: TapeView,
    t: TapeView,
    revisions: Seq<Oid>,
    i: int,
    tip: Oid,
    first: Option<Seq<char>>,
    allowed: spec_fn(RequestView) -> bool,
)
    requires
        #[trigger] tape::only(from, t, allowed),
        tape::may_look(allowed),
    ensures
        tape::only(from, (#[trigger] replay_from(t, revisions, i, tip, first)).0, allowed),
    decreases revisions.len() - i,
{
    broadcast use tape::lemma_only_ask;

    if 0 <= i < revisions.len() {
        let commit = revisions[i];
        let (t1, merges) = tape::ask_flag(t, RequestView::IsMerge { commit });
        if merges is Ok {
            let (t2, merge) = tape::ask_merge(
                t1,
                RequestView::CherryPick { commit, onto: tip, first_parent: merges->Ok_0 },
            );
            if merge is Ok && merge->Ok_0 is Clean {
                let tree = (merge->Ok_0)->Clean_0;
                let (t3, before) = tape::ask_object(t2, RequestView::TreeOf { commit: tip });
                if before == Ok::<Oid, HaltView>(tree) {
                    lemma_replay_only(from, t3, revisions, i + 1, tip, first, allowed);
                } else if before is Ok {
                    let (t4, message) = replayed_message(t3, commit, first);
                    if message is Ok {
                        let (t5, next) = tape::ask_object(
                            t4,
                            RequestView::CopyCommit {
                                original: commit,
                                message: message->Ok_0,
                                tree,
                                parent: tip,
                            },
                        );
                        if next is Ok {
                            lemma_replay_only(
                                from,
                                t5,
                                revisions,
                                i + 1,
                                next->Ok_0,
                                None,
                                allowed,
                            );
                        }
                    }
                }
            }
        }
    }
}

pub broadcast proof fn lemma_first_revision_only(
    from: TapeView,
    t: TapeView,
    cur: Oid,
    stop: Oid,
    above: Option<Oid>,
    allowed: spec_fn(RequestView) -> bool,
)
    requires
        #[trigger] tape::only(from, t, allowed),
        tape::may_look(allowed),
    ensures
        tape::only(from, (#[trigger] first_revision_down(t, cur, stop, above)).0, allowed),
    decreases t.replies.len() - t.asked.len(),
{
    broadcast use tape::lemma_only_ask;

    let (t1, joined) = tape::ask(t, RequestView::TryIsAncestor { ancestor: cur, descendant: stop });
    if joined == Ok::<ReplyView, HaltView>(ReplyView::Flag(false)) {
        let (t2, parent) = tape::ask(t1, RequestView::TryFirstParentOf { commit: cur });
        if parent is Ok {
            match parent->Ok_0 {
                ReplyView::MaybeObject(Some(parent)) => {
                    lemma_first_revision_only(from, t2, parent, stop, Some(cur), allowed);
                },
                _ => {},
            }
        }
    }
}

pub broadcast proof fn lemma_root_commit_only(
    from: TapeView,
    t: TapeView,
    pr: PrView,
    fallback: Oid,
    allowed: spec_fn(RequestView) -> bool,
)
    requires
        #[trigger] tape::only(from, t, allowed),
        tape::may_look(allowed),
    ensures
        tape::only(from, (#[trigger] root_commit(t, pr, fallback)).0, allowed),
{
    broadcast use {tape::lemma_only_ask, lemma_first_revision_only};

}

pub broadcast proof fn lemma_tree_rebased_only(
    from: TapeView,
    t: TapeView,
    ancestor_tree: Oid,
    onto: Oid,
    desired: Oid,
    allowed: spec_fn(RequestView) -> bool,
)
    requires
        #[trigger] tape::only(from, t, allowed),
        tape::may_look(allowed),
    ensures
        tape::only(from, (#[trigger] tree_rebased(t, ancestor_tree, onto, desired)).0, allowed),
{
    broadcast use tape::lemma_only_ask;

}

pub broadcast group group_history_only {
    lemma_derived_only,
    lemma_update_commit_only,
    lemma_revisions_only,
    lemma_replay_only,
    lemma_first_revision_only,
    lemma_root_commit_only,
    lemma_tree_rebased_only,
    review_diff::lemma_patch_hash_only,
}

pub broadcast proof fn lemma_rewrite_from_only(
    from: TapeView,
    t: TapeView,
    commits: Seq<(Oid, Seq<char>)>,
    i: int,
    parent: Oid,
    updating: bool,
    rewritten: Seq<Oid>,
    allowed: spec_fn(RequestView) -> bool,
)
    requires
        #[trigger] tape::only(from, t, allowed),
        tape::may_write(allowed),
    ensures
        tape::only(from, (#[trigger] rewrite_from(t, commits, i, parent, updating, rewritten)).0, allowed),
    decreases commits.len() - i,
{
    broadcast use tape::lemma_only_ask;

    assert(tape::may_look(allowed));
    if 0 <= i < commits.len() {
        let commit = commits[i].0;
        let (t1, current) = tape::ask_text(t, RequestView::MessageOf { commit });
        if current is Ok {
            let (t2, message) = written(t1, commits[i].1);
            if message is Ok {
                if updating || current->Ok_0 != message->Ok_0 {
                    let (t3, tree) = tape::ask_object(t2, RequestView::TreeOf { commit });
                    if tree is Ok {
                        let (t4, new) = tape::ask_object(
                            t3,
                            RequestView::CopyCommit {
                                original: commit,
                                message: message->Ok_0,
                                tree: tree->Ok_0,
                                parent,
                            },
                        );
                        if new is Ok {
                            let (t5, r) = tape::ask_unit(
                                t4,
                                RequestView::PostRewrite { old: commit, new: new->Ok_0 },
                            );
                            if r is Ok {
                                lemma_rewrite_from_only(
                                    from,
                                    t5,
                                    commits,
                                    i + 1,
                                    new->Ok_0,
                                    true,
                                    rewritten.push(new->Ok_0),
                                    allowed,
                                );
                            }
                        }
                    }
                } else {
                    lemma_rewrite_from_only(
                        from,
                        t2,
                        commits,
                        i + 1,
                        commit,
                        false,
                        rewritten.push(commit),
                        allowed,
                    );
                }
            }
        }
    }
}

pub broadcast proof fn lemma_messages_rewritten_only(
    from: TapeView,
    t: TapeView,
    base: Oid,
    commits: Seq<(Oid, Seq<char>)>,
    allowed: spec_fn(RequestView) -> bool,
)
    requires
        #[trigger] tape::only(from, t, allowed),
        tape::may_write(allowed),
    ensures
        tape::only(from, (#[trigger] messages_rewritten(t, base, commits)).0, allowed),
{
    broadcast use lemma_rewrite_from_only;

    assert(tape::may_look(allowed));
}

/// A commit that is made bears the tree that it is made of, and has the parent
/// that is given.
pub proof fn lemma_derived(
    t: TapeView,
    attribution: Oid,
    message: Seq<char>,
    tree: Oid,
    parent: Oid,
)
    ensures
        derived(t, attribution, message, tree, parent).1 matches Ok(commit) ==> tape::bears(
            derived(t, attribution, message, tree, parent).0,
            commit,
            tree,
        ),
{
    if derived(t, attribution, message, tree, parent).1 is Ok {
        let (t1, pretty) = written(t, message);
        tape::lemma_told(
            t1,
            RequestView::DeriveCommit { attribution, message: pretty->Ok_0, tree, parent },
        );
    }
}

/// An update of a branch never needs force: the new commit bears the given tree,
/// and it was confirmed to be a descendant of the tip that it is put on.
pub proof fn law_update_moves_forward(
    t: TapeView,
    tip: Oid,
    tree: Oid,
    attribution: Oid,
    message: Seq<char>,
)
    ensures
        update_commit(t, tip, tree, attribution, message).1 matches Ok(commit) ==> tape::bears(
            update_commit(t, tip, tree, attribution, message).0,
            commit,
            tree,
        ) && tape::told(
            update_commit(t, tip, tree, attribution, message).0,
            RequestView::IsDescendant { descendant: commit, ancestor: tip },
            ReplyView::Flag(true),
        ),
{
    broadcast use tape::lemma_only_ask;

    if update_commit(t, tip, tree, attribution, message).1 is Ok {
        let any = |q: RequestView| true;
        let (t1, commit) = derived(t, attribution, message, tree, tip);
        lemma_derived(t, attribution, message, tree, tip);
        let q = RequestView::IsDescendant { descendant: commit->Ok_0, ancestor: tip };
        tape::lemma_told(t1, q);
        tape::lemma_only_start(t1, any);
        tape::lemma_said_stays(t1, tape::ask(t1, q).0, any);
    }
}

/// The content of a layer brought to another place was merged there, or the
/// place has what the content is relative to.
pub open spec fn brought(t: TapeView, ancestor_tree: Oid, desired: Oid, tree: Oid) -> bool {
    tree == desired || exists|ours: Oid|
        #[trigger] tape::told(
            t,
            RequestView::MergeTrees { base: ancestor_tree, ours, theirs: desired },
            ReplyView::Merged(MergeView::Clean(tree)),
        )
}

pub proof fn lemma_tree_rebased(t: TapeView, ancestor_tree: Oid, onto: Oid, desired: Oid)
    ensures
        tree_rebased(t, ancestor_tree, onto, desired).1 matches Ok(Some(tree)) ==> brought(
            tree_rebased(t, ancestor_tree, onto, desired).0,
            ancestor_tree,
            desired,
            tree,
        ),
{
    let (t1, ours) = tape::ask_object(t, RequestView::TreeOf { commit: onto });
    if ours is Ok && ours->Ok_0 != ancestor_tree && t1.asked.len() < t1.replies.len() {
        tape::lemma_told(
            t1,
            RequestView::MergeTrees { base: ancestor_tree, ours: ours->Ok_0, theirs: desired },
        );
    }
}

pub broadcast proof fn lemma_collapsed_only(
    from: TapeView,
    t: TapeView,
    number: u64,
    tip: Oid,
    old_root: Oid,
    new_root: Oid,
    message: Seq<char>,
    allowed: spec_fn(RequestView) -> bool,
)
    requires
        #[trigger] tape::only(from, t, allowed),
        tape::may_look(allowed),
    ensures
        tape::only(from, (#[trigger] collapsed(t, number, tip, old_root, new_root, message)).0, allowed),
{
    broadcast use {tape::lemma_only_ask, lemma_derived_only};

}

pub broadcast proof fn lemma_rebase_from_only(
    from: TapeView,
    t: TapeView,
    commits: Seq<Oid>,
    i: int,
    parent: Oid,
    rebased: Seq<Oid>,
    allowed: spec_fn(RequestView) -> bool,
)
    requires
        #[trigger] tape::only(from, t, allowed),
        tape::may_write(allowed),
    ensures
        tape::only(from, (#[trigger] rebase_from(t, commits, i, parent, rebased)).0, allowed),
    decreases commits.len() - i,
{
    broadcast use tape::lemma_only_ask;

    assert(tape::may_look(allowed));
    if 0 <= i < commits.len() {
        let commit = commits[i];
        let (t1, merge) = tape::ask_merge(
            t,
            RequestView::CherryPick { commit, onto: parent, first_parent: false },
        );
        if merge is Ok && merge->Ok_0 is Clean {
            let tree = (merge->Ok_0)->Clean_0;
            let (t2, before) = tape::ask_object(t1, RequestView::TreeOf { commit: parent });
            if before == Ok::<Oid, HaltView>(tree) {
                let (t3, r) = tape::ask_unit(
                    t2,
                    RequestView::PostRewrite { old: commit, new: parent },
                );
                if r is Ok {
                    lemma_rebase_from_only(from, t3, commits, i + 1, parent, rebased, allowed);
                }
            } else if before is Ok {
                let (t3, message) = tape::ask_text(t2, RequestView::MessageOf { commit });
                if message is Ok {
                    let (t4, new) = tape::ask_object(
                        t3,
                        RequestView::CopyCommit {
                            original: commit,
                            message: message->Ok_0,
                            tree,
                            parent,
                        },
                    );
                    if new is Ok {
                        let (t5, r) = tape::ask_unit(
                            t4,
                            RequestView::PostRewrite { old: commit, new: new->Ok_0 },
                        );
                        if r is Ok {
                            lemma_rebase_from_only(
                                from,
                                t5,
                                commits,
                                i + 1,
                                new->Ok_0,
                                rebased.push(new->Ok_0),
                                allowed,
                            );
                        }
                    }
                }
            }
        }
    }
}

pub broadcast proof fn lemma_commits_rebased_only(
    from: TapeView,
    t: TapeView,
    commits: Seq<Oid>,
    new_parent: Oid,
    allowed: spec_fn(RequestView) -> bool,
)
    requires
        #[trigger] tape::only(from, t, allowed),
        tape::may_write(allowed),
    ensures
        tape::only(from, (#[trigger] commits_rebased(t, commits, new_parent)).0, allowed),
{
    broadcast use {tape::lemma_only_ask, lemma_rebase_from_only};

    assert(tape::may_look(allowed));
}

/// Rebasing moves `HEAD` once and as its last step: where a commit does not apply,
/// the local branch is where it was.
pub proof fn law_head_moves_last(t: TapeView, commits: Seq<Oid>, new_parent: Oid)
    ensures
        ({
            let (after, r) = commits_rebased(t, commits, new_parent);
            &&& t.asked.len() <= after.asked.len()
            &&& forall|k: int|
                t.asked.len() <= k < after.asked.len() - 1 ==> !(
                #[trigger] after.asked[k] is CheckoutHead)
            &&& r is Ok ==> after.asked.len() > t.asked.len() && after.asked.last() is CheckoutHead
        }),
{
    tape::lemma_only_start(t, |q: RequestView| !(q is CheckoutHead));
    lemma_head_moves_last(t, t, commits, 0, new_parent, Seq::empty());
}

proof fn lemma_head_moves_last(
    from: TapeView,
    t: TapeView,
    commits: Seq<Oid>,
    i: int,
    parent: Oid,
    rebased: Seq<Oid>,
)
    requires
        0 <= i,
        tape::only(from, t, |q: RequestView| !(q is CheckoutHead)),
    ensures
        ({
            let (after, r) = rebase_from(t, commits, i, parent, rebased);
            &&& from.asked.len() <= after.asked.len()
            &&& forall|k: int|
                from.asked.len() <= k < after.asked.len() - 1 ==> !(
                #[trigger] after.asked[k] is CheckoutHead)
            &&& r is Ok ==> after.asked.len() > from.asked.len()
                && after.asked.last() is CheckoutHead
        }),
    decreases commits.len() - i,
{
    broadcast use tape::lemma_only_ask;

    if i < commits.len() {
        let commit = commits[i];
        let (t1, merge) = tape::ask_merge(
            t,
            RequestView::CherryPick { commit, onto: parent, first_parent: false },
        );
        if merge is Ok && merge->Ok_0 is Clean {
            let tree = (merge->Ok_0)->Clean_0;
            let (t2, before) = tape::ask_object(t1, RequestView::TreeOf { commit: parent });
            if before == Ok::<Oid, HaltView>(tree) {
                let (t3, r) = tape::ask_unit(
                    t2,
                    RequestView::PostRewrite { old: commit, new: parent },
                );
                if r is Ok {
                    lemma_head_moves_last(from, t3, commits, i + 1, parent, rebased);
                }
            } else if before is Ok {
                let (t3, message) = tape::ask_text(t2, RequestView::MessageOf { commit });
                if message is Ok {
                    let (t4, new) = tape::ask_object(
                        t3,
                        RequestView::CopyCommit {
                            original: commit,
                            message: message->Ok_0,
                            tree,
                            parent,
                        },
                    );
                    if new is Ok {
                        let (t5, r) = tape::ask_unit(
                            t4,
                            RequestView::PostRewrite { old: commit, new: new->Ok_0 },
                        );
                        if r is Ok {
                            lemma_head_moves_last(
                                from,
                                t5,
                                commits,
                                i + 1,
                                new->Ok_0,
                                rebased.push(new->Ok_0),
                            );
                        }
                    }
                }
            }
        }
    }
}

} // verus!
