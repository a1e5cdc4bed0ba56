//! What is promised of the commits of a branch that is moved.

use vstd::prelude::*;

use crate::forge::{PrView, UpdateView};
use crate::history;
use crate::laws::announcing;
use crate::oid::Oid;
use crate::pr_body;
use crate::stack::StackView;
use crate::status;
use crate::status::LayerState;
use crate::engine::DecisionView;
use crate::tape;
use crate::tape::{MergeView, ReplyView, RequestView, TapeView};
use crate::upgrade;

verus! {

/// A revision was put on top of another commit and either copied there, or it turned out
/// to add nothing.
pub open spec fn put_on(t: TapeView, revision: Oid) -> bool {
    exists|onto: Oid, first_parent: bool, tree: Oid|
        #[trigger] tape::told(
            t,
            RequestView::CherryPick { commit: revision, onto, first_parent },
            ReplyView::Merged(MergeView::Clean(tree)),
        ) && (tape::told(t, RequestView::TreeOf { commit: onto }, ReplyView::Object(tree))
            || copied_with(t, revision, onto, tree))
}

/// A revision was copied with the tree on top of a commit.
pub open spec fn copied_with(t: TapeView, revision: Oid, onto: Oid, tree: Oid) -> bool {
    exists|message: Seq<char>, new: Oid|
        #[trigger] tape::told(
            t,
            RequestView::CopyCommit { original: revision, message, tree, parent: onto },
            ReplyView::Object(new),
        )
}

proof fn lemma_put_on_still(from: TapeView, to: TapeView, revision: Oid)
    requires
        tape::only(from, to, |q: RequestView| true),
        put_on(from, revision),
    ensures
        put_on(to, revision),
{
    tape::lemma_said_stays(from, to, |q: RequestView| true);
    let (onto, first_parent, tree) = choose|onto: Oid, first_parent: bool, tree: Oid|
        #[trigger] tape::told(
            from,
            RequestView::CherryPick { commit: revision, onto, first_parent },
            ReplyView::Merged(MergeView::Clean(tree)),
        ) && (tape::told(from, RequestView::TreeOf { commit: onto }, ReplyView::Object(tree))
            || copied_with(from, revision, onto, tree));
    assert(tape::told(
        to,
        RequestView::CherryPick { commit: revision, onto, first_parent },
        ReplyView::Merged(MergeView::Clean(tree)),
    ));
    if copied_with(from, revision, onto, tree) {
        let (message, new) = choose|message: Seq<char>, new: Oid|
            #[trigger] tape::told(
                from,
                RequestView::CopyCommit { original: revision, message, tree, parent: onto },
                ReplyView::Object(new),
            );
        assert(tape::told(
            to,
            RequestView::CopyCommit { original: revision, message, tree, parent: onto },
            ReplyView::Object(new),
        ));
        assert(copied_with(to, revision, onto, tree));
    }
}

#[verifier::rlimit(40)]
proof fn lemma_replay(
    t: TapeView,
    revisions: Seq<Oid>,
    i: int,
    tip: Oid,
    first: Option<Seq<char>>,
)
    requires
        0 <= i <= revisions.len(),
        forall|k: int| 0 <= k < i ==> put_on(t, #[trigger] revisions[k]),
    ensures
        history::replay_from(t, revisions, i, tip, first).1 matches Ok(Some(_)) ==> forall|k: int|
            0 <= k < revisions.len() ==> put_on(
                history::replay_from(t, revisions, i, tip, first).0,
                #[trigger] revisions[k],
            ),
    decreases revisions.len() - i,
{
    broadcast use tape::lemma_only_ask;

    let any = |q: RequestView| true;
    tape::lemma_only_start(t, any);
    if i < revisions.len() {
        let commit = revisions[i];
        let (t1, flag) = tape::ask_flag(t, RequestView::IsMerge { commit });
        if flag is Ok {
            let q1 = RequestView::CherryPick { commit, onto: tip, first_parent: flag->Ok_0 };
            let (t2, merge) = tape::ask_merge(t1, q1);
            if merge is Ok && merge->Ok_0 is Clean {
                let tree = (merge->Ok_0)->Clean_0;
                let clean = ReplyView::Merged(MergeView::Clean(tree));
                tape::lemma_told(t1, q1);
                assert(tape::told(t2, q1, clean));
                tape::lemma_only_start(t2, any);
                let q2 = RequestView::TreeOf { commit: tip };
                let (t3, before) = tape::ask_object(t2, q2);
                if before is Ok {
                    tape::lemma_told(t2, q2);
                    assert(tape::told(t3, q2, ReplyView::Object(before->Ok_0)));
                    if tree == before->Ok_0 {
                        assert(tape::only(t2, t3, any));
                        assert(tape::only(t, t3, any));
                        tape::lemma_said_stays(t2, t3, any);
                        assert(tape::told(t3, q1, clean));
                        assert(put_on(t3, commit));
                        assert forall|k: int| 0 <= k < i + 1 implies put_on(
                            t3,
                            #[trigger] revisions[k],
                        ) by {
                            if k < i {
                                lemma_put_on_still(t, t3, revisions[k]);
                            }
                        }
                        lemma_replay(t3, revisions, i + 1, tip, first);
                    } else {
                        let (t4, message) = history::replayed_message(t3, commit, first);
                        if message is Ok {
                            let q3 = RequestView::CopyCommit {
                                original: commit,
                                message: message->Ok_0,
                                tree,
                                parent: tip,
                            };
                            let (t5, next) = tape::ask_object(t4, q3);
                            if next is Ok {
                                tape::lemma_told(t4, q3);
                                assert(tape::told(t5, q3, ReplyView::Object(next->Ok_0)));
                                assert(tape::only(t2, t5, any));
                                assert(tape::only(t, t5, any));
                                tape::lemma_said_stays(t2, t5, any);
                                assert(tape::told(t5, q1, clean));
                                assert(copied_with(t5, commit, tip, tree));
                                assert(put_on(t5, commit));
                                assert forall|k: int| 0 <= k < i + 1 implies put_on(
                                    t5,
                                    #[trigger] revisions[k],
                                ) by {
                                    if k < i {
                                        lemma_put_on_still(t, t5, revisions[k]);
                                    }
                                }
                                lemma_replay(t5, revisions, i + 1, next->Ok_0, None);
                            }
                        }
                    }
                }
            }
        }
    }
}

/// A branch that was replayed lost nothing: each of its revisions was copied to its new
/// place with the patch that it had, or turned out to add nothing there.
pub proof fn law_replay_loses_nothing(
    t: TapeView,
    revisions: Seq<Oid>,
    onto: Oid,
    message: Seq<char>,
    k: int,
)
    requires
        0 <= k < revisions.len(),
    ensures
        history::replayed(t, revisions, onto, message).1 matches Ok(Some(_)) ==> put_on(
            history::replayed(t, revisions, onto, message).0,
            revisions[k],
        ),
{
    lemma_replay(t, revisions, 0, onto, Some(message));
}

/// A branch that is collapsed into one commit keeps its content: the commit is made in the
/// name of the author of the tip and sits on the new root, and its tree is that of the tip,
/// brought over from where the branch parted from the old root.
pub proof fn law_collapse_keeps_the_content(
    t: TapeView,
    number: u64,
    tip: Oid,
    old_root: Oid,
    new_root: Oid,
    message: Seq<char>,
)
    ensures
        ({
            let (to, r) = history::collapsed(t, number, tip, old_root, new_root, message);
            r matches Ok(commit) ==> exists|fork: Oid, base: Oid, ours: Oid, theirs: Oid, tree: Oid|
                brought_over(to, tip, old_root, new_root, fork, base, ours, theirs, tree)
                    && #[trigger] made_of(to, tip, new_root, message, commit, fork, base, ours, theirs, tree)
        }),
{
    broadcast use {tape::lemma_only_ask, history::lemma_derived_only};

    let any = |q: RequestView| true;
    assert(tape::may_look(any));
    let (to, r) = history::collapsed(t, number, tip, old_root, new_root, message);
    if r is Ok {
        let q1 = RequestView::MergeBase { a: old_root, b: tip };
        let (t1, fork) = tape::ask_object(t, q1);
        let fork = fork->Ok_0;
        let q2 = RequestView::TreeOf { commit: fork };
        let (t2, base) = tape::ask_object(t1, q2);
        let base = base->Ok_0;
        let q3 = RequestView::TreeOf { commit: new_root };
        let (t3, ours) = tape::ask_object(t2, q3);
        let ours = ours->Ok_0;
        let q4 = RequestView::TreeOf { commit: tip };
        let (t4, theirs) = tape::ask_object(t3, q4);
        let theirs = theirs->Ok_0;
        let q5 = RequestView::MergeTrees { base, ours, theirs };
        let (t5, merge) = tape::ask_merge(t4, q5);
        let tree = (merge->Ok_0)->Clean_0;
        let pretty = history::prettified(message)->0;
        let q6 = RequestView::DeriveCommit {
            attribution: tip,
            message: pretty,
            tree,
            parent: new_root,
        };
        tape::lemma_told(t, q1);
        tape::lemma_told(t1, q2);
        tape::lemma_told(t2, q3);
        tape::lemma_told(t3, q4);
        tape::lemma_told(t4, q5);
        tape::lemma_told(t5, q6);
        assert(tape::told(t1, q1, ReplyView::Object(fork)));
        assert(tape::told(t2, q2, ReplyView::Object(base)));
        assert(tape::told(t3, q3, ReplyView::Object(ours)));
        assert(tape::told(t4, q4, ReplyView::Object(theirs)));
        assert(tape::told(t5, q5, ReplyView::Merged(MergeView::Clean(tree))));
        assert(tape::told(to, q6, ReplyView::Object(r->Ok_0)));
        tape::lemma_only_start(t1, any);
        tape::lemma_only_start(t2, any);
        tape::lemma_only_start(t3, any);
        tape::lemma_only_start(t4, any);
        tape::lemma_only_start(t5, any);
        assert(tape::only(t1, to, any));
        assert(tape::only(t2, to, any));
        assert(tape::only(t3, to, any));
        assert(tape::only(t4, to, any));
        assert(tape::only(t5, to, any));
        tape::lemma_said_stays(t1, to, any);
        tape::lemma_said_stays(t2, to, any);
        tape::lemma_said_stays(t3, to, any);
        tape::lemma_said_stays(t4, to, any);
        tape::lemma_said_stays(t5, to, any);
        assert(brought_over(to, tip, old_root, new_root, fork, base, ours, theirs, tree));
        assert(made_of(to, tip, new_root, message, r->Ok_0, fork, base, ours, theirs, tree));
    }
}

/// The content of a tip was brought from where it parts from one root to another one.
pub open spec fn brought_over(
    t: TapeView,
    tip: Oid,
    old_root: Oid,
    new_root: Oid,
    fork: Oid,
    base: Oid,
    ours: Oid,
    theirs: Oid,
    tree: Oid,
) -> bool {
    &&& tape::told(t, RequestView::MergeBase { a: old_root, b: tip }, ReplyView::Object(fork))
    &&& tape::told(t, RequestView::TreeOf { commit: fork }, ReplyView::Object(base))
    &&& tape::told(t, RequestView::TreeOf { commit: new_root }, ReplyView::Object(ours))
    &&& tape::told(t, RequestView::TreeOf { commit: tip }, ReplyView::Object(theirs))
    &&& tape::told(
        t,
        RequestView::MergeTrees { base, ours, theirs },
        ReplyView::Merged(MergeView::Clean(tree)),
    )
}

/// A commit was made of the tree on top of the new root.
pub open spec fn made_of(
    t: TapeView,
    tip: Oid,
    new_root: Oid,
    message: Seq<char>,
    commit: Oid,
    fork: Oid,
    base: Oid,
    ours: Oid,
    theirs: Oid,
    tree: Oid,
) -> bool {
    history::prettified(message) is Some && tape::told(
        t,
        RequestView::DeriveCommit {
            attribution: tip,
            message: history::prettified(message)->0,
            tree,
            parent: new_root,
        },
        ReplyView::Object(commit),
    )
}

/// A pull request that is converted says what its commit says afterwards, has the warning
/// exactly as it has to be, and gets the base that it is put on; its state stays.
pub proof fn law_converted_pull_request_says_what_the_commit_says(
    s: StackView,
    i: int,
    pr: PrView,
    base_branch: Seq<char>,
    warn: bool,
)
    ensures
        ({
            let u = upgrade::upgrade_update(s, i, pr, base_branch, warn);
            let now = announcing::changed(pr, u);
            let m = s.layers[i].message;
            &&& u.state is None
            &&& now.title == m.subject
            &&& now.body == pr_body::with_warning(m.body, warn)
            &&& now.base == base_branch
            &&& upgrade::upgrade_update(s, i, now, base_branch, warn) == (UpdateView {
                title: None,
                body: None,
                base: None,
                state: None,
            })
        }),
{
}

/// An open layer is shown as modified exactly if its patch changed, or its message did and
/// would be taken over, or the user wants messages taken over and they differ; otherwise
/// it is shown as to be restacked exactly if it is pushed, and as current if not.
pub proof fn law_open_layers_are_told_apart(d: DecisionView, i: int, update_message: bool, differs: bool)
    ensures
        ({
            let state = status::open_state(d, i, update_message, differs);
            let taken_over = d.message_changed[i] && (update_message
                || !d.github_message_edited[i]);
            let modified = d.patch_changed[i] || taken_over || (update_message && differs);
            &&& state == LayerState::Modified <==> modified
            &&& state == LayerState::NeedsRestack <==> !modified && d.push[i]
            &&& state == LayerState::Current <==> !modified && !d.push[i]
        }),
{
}

} // verus!
