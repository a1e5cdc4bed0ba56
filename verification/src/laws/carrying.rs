//! What is promised of the local commits when they are rewritten or moved.

use vstd::prelude::*;

use crate::history;
use crate::oid::Oid;
use crate::tape;
use crate::tape::{MergeView, ReplyView, RequestView, TapeView};

verus! {

/// What the `i`th commit of a chain sits on.
pub open spec fn below(base: Oid, chain: Seq<Oid>, i: int) -> Oid {
    if i == 0 {
        base
    } else {
        chain[i - 1]
    }
}

/// The `i`th commit says what it is to say: it did so before and was left as it is, with
/// everything below it, or it was made anew with the tree of the old one, on top of the
/// new commit below it.
pub open spec fn reworded(
    t: TapeView,
    base: Oid,
    commits: Seq<(Oid, Seq<char>)>,
    new: Seq<Oid>,
    i: int,
) -> bool {
    let old_commit = commits[i].0;
    ||| {
        &&& forall|j: int| 0 <= j <= i ==> #[trigger] new[j] == commits[j].0
        &&& exists|message: Seq<char>|
            history::prettified(commits[i].1) == Some(message) && #[trigger] tape::told(
                t,
                RequestView::MessageOf { commit: old_commit },
                ReplyView::Text(message),
            )
    }
    ||| exists|message: Seq<char>, tree: Oid|
        history::prettified(commits[i].1) == Some(message) && tape::told(
            t,
            RequestView::TreeOf { commit: old_commit },
            ReplyView::Object(tree),
        ) && #[trigger] tape::told(
            t,
            RequestView::CopyCommit {
                original: old_commit,
                message,
                tree,
                parent: below(base, new, i),
            },
            ReplyView::Object(new[i]),
        )
}

proof fn lemma_reworded_still(
    from: TapeView,
    to: TapeView,
    base: Oid,
    commits: Seq<(Oid, Seq<char>)>,
    new: Seq<Oid>,
    more: Seq<Oid>,
    i: int,
)
    requires
        tape::only(from, to, |q: RequestView| true),
        0 <= i < new.len() <= more.len(),
        forall|j: int| 0 <= j < new.len() ==> #[trigger] more[j] == new[j],
        reworded(from, base, commits, new, i),
    ensures
        reworded(to, base, commits, more, i),
{
    tape::lemma_said_stays(from, to, |q: RequestView| true);
    let old_commit = commits[i].0;
    assert(more[i] == new[i]);
    if i > 0 {
        assert(more[i - 1] == new[i - 1]);
    }
    if forall|j: int| 0 <= j <= i ==> #[trigger] new[j] == commits[j].0 {
        assert forall|j: int| 0 <= j <= i implies #[trigger] more[j] == commits[j].0 by {
            assert(more[j] == new[j]);
        }
    }
    if exists|message: Seq<char>|
        history::prettified(commits[i].1) == Some(message) && #[trigger] tape::told(
            from,
            RequestView::MessageOf { commit: old_commit },
            ReplyView::Text(message),
        ) {
        let message = choose|message: Seq<char>|
            history::prettified(commits[i].1) == Some(message) && #[trigger] tape::told(
                from,
                RequestView::MessageOf { commit: old_commit },
                ReplyView::Text(message),
            );
        assert(tape::told(
            to,
            RequestView::MessageOf { commit: old_commit },
            ReplyView::Text(message),
        ));
    }
    if exists|message: Seq<char>, tree: Oid|
        history::prettified(commits[i].1) == Some(message) && tape::told(
            from,
            RequestView::TreeOf { commit: old_commit },
            ReplyView::Object(tree),
        ) && #[trigger] tape::told(
            from,
            RequestView::CopyCommit {
                original: old_commit,
                message,
                tree,
                parent: below(base, new, i),
            },
            ReplyView::Object(new[i]),
        ) {
        let (message, tree) = choose|message: Seq<char>, tree: Oid|
            history::prettified(commits[i].1) == Some(message) && tape::told(
                from,
                RequestView::TreeOf { commit: old_commit },
                ReplyView::Object(tree),
            ) && #[trigger] tape::told(
                from,
                RequestView::CopyCommit {
                    original: old_commit,
                    message,
                    tree,
                    parent: below(base, new, i),
                },
                ReplyView::Object(new[i]),
            );
        assert(tape::told(
            to,
            RequestView::CopyCommit {
                original: old_commit,
                message,
                tree,
                parent: below(base, more, i),
            },
            ReplyView::Object(more[i]),
        ));
    }
}

spec fn rewording(
    t: TapeView,
    base: Oid,
    commits: Seq<(Oid, Seq<char>)>,
    i: int,
    parent: Oid,
    updating: bool,
    new: Seq<Oid>,
) -> bool {
    &&& new.len() == i
    &&& parent == below(base, new, i)
    &&& !updating ==> forall|j: int| 0 <= j < i ==> #[trigger] new[j] == commits[j].0
    &&& forall|j: int| 0 <= j < i ==> #[trigger] reworded(t, base, commits, new, j)
}

#[verifier::rlimit(40)]
proof fn lemma_rewording(
    t: TapeView,
    base: Oid,
    commits: Seq<(Oid, Seq<char>)>,
    i: int,
    parent: Oid,
    updating: bool,
    new: Seq<Oid>,
)
    requires
        0 <= i <= commits.len(),
        rewording(t, base, commits, i, parent, updating, new),
    ensures
        ({
            let (to, r) = history::rewrite_from(t, commits, i, parent, updating, new);
            r matches Ok(all) ==> {
                &&& all.len() == commits.len()
                &&& forall|j: int| 0 <= j < all.len() ==> #[trigger] reworded(
                    to,
                    base,
                    commits,
                    all,
                    j,
                )
                &&& (forall|j: int| 0 <= j < all.len() ==> #[trigger] all[j] == commits[j].0)
                    || to.asked.last() == (RequestView::MoveHead {
                    commit: below(base, all, all.len() as int),
                })
            }
        }),
    decreases commits.len() - i,
{
    broadcast use tape::lemma_only_ask;

    let any = |q: RequestView| true;
    tape::lemma_only_start(t, any);
    if i >= commits.len() {
        if updating {
            let q = RequestView::MoveHead { commit: parent };
            let (t1, r) = tape::ask_unit(t, q);
            assert(tape::only(t, t1, any));
            assert forall|j: int| 0 <= j < i implies #[trigger] reworded(
                t1,
                base,
                commits,
                new,
                j,
            ) by {
                assert(reworded(t, base, commits, new, j));
                lemma_reworded_still(t, t1, base, commits, new, new, j);
            }
            assert(t1.asked.last() == q);
        }
    } else {
        let commit = commits[i].0;
        let ask = RequestView::MessageOf { commit };
        let (t1, current) = tape::ask_text(t, ask);
        let pretty = history::prettified(commits[i].1);
        if current is Ok && pretty is Some {
            let current = current->Ok_0;
            let message = pretty->0;
            tape::lemma_told(t, ask);
            assert(tape::told(t1, ask, ReplyView::Text(current)));
            assert(tape::only(t, t1, any));
            if updating || current != message {
                let q1 = RequestView::TreeOf { commit };
                let (t2, tree) = tape::ask_object(t1, q1);
                if tree is Ok {
                    let tree = tree->Ok_0;
                    let q2 = RequestView::CopyCommit { original: commit, message, tree, parent };
                    let (t3, made) = tape::ask_object(t2, q2);
                    if made is Ok {
                        let made = made->Ok_0;
                        let (t4, r) = tape::ask_unit(
                            t3,
                            RequestView::PostRewrite { old: commit, new: made },
                        );
                        if r is Ok {
                            let more = new.push(made);
                            tape::lemma_told(t1, q1);
                            tape::lemma_told(t2, q2);
                            assert(tape::told(t2, q1, ReplyView::Object(tree)));
                            assert(tape::told(t3, q2, ReplyView::Object(made)));
                            tape::lemma_only_start(t2, any);
                            tape::lemma_only_start(t3, any);
                            assert(tape::only(t2, t4, any));
                            assert(tape::only(t3, t4, any));
                            assert(tape::only(t, t4, any));
                            tape::lemma_said_stays(t2, t4, any);
                            tape::lemma_said_stays(t3, t4, any);
                            assert(below(base, more, i) == parent);
                            assert forall|j: int| 0 <= j < i + 1 implies #[trigger] reworded(
                                t4,
                                base,
                                commits,
                                more,
                                j,
                            ) by {
                                if j < i {
                                    assert(reworded(t, base, commits, new, j));
                                    lemma_reworded_still(t, t4, base, commits, new, more, j);
                                } else {
                                    assert(more[i] == made);
                                    assert(tape::told(t4, q2, ReplyView::Object(more[i])));
                                }
                            }
                            lemma_rewording(t4, base, commits, i + 1, made, true, more);
                        }
                    }
                }
            } else {
                let more = new.push(commit);
                assert forall|j: int| 0 <= j < i + 1 implies #[trigger] more[j]
                    == commits[j].0 by {
                    if j < i {
                        assert(new[j] == commits[j].0);
                    }
                }
                assert forall|j: int| 0 <= j < i + 1 implies #[trigger] reworded(
                    t1,
                    base,
                    commits,
                    more,
                    j,
                ) by {
                    if j < i {
                        assert(reworded(t, base, commits, new, j));
                        lemma_reworded_still(t, t1, base, commits, new, more, j);
                    } else {
                        assert(tape::told(t1, ask, ReplyView::Text(message)));
                    }
                }
                lemma_rewording(t1, base, commits, i + 1, commit, false, more);
            }
        }
    }
}

/// Rewriting messages changes nothing but messages: there are as many commits as before,
/// each says what it is to say and has the tree that it had, and each sits on the one
/// before it. Where nothing is to be changed, the very same commits stay; otherwise `HEAD`
/// is moved to the topmost one, and not before.
pub proof fn law_rewriting_keeps_trees(
    t: TapeView,
    base: Oid,
    commits: Seq<(Oid, Seq<char>)>,
    i: int,
)
    ensures
        ({
            let (to, r) = history::messages_rewritten(t, base, commits);
            r matches Ok(new) ==> {
                &&& new.len() == commits.len()
                &&& 0 <= i < new.len() ==> reworded(to, base, commits, new, i)
                &&& (forall|j: int| 0 <= j < new.len() ==> #[trigger] new[j] == commits[j].0)
                    || to.asked.last() == (RequestView::MoveHead {
                    commit: below(base, new, new.len() as int),
                })
            }
        }),
{
    lemma_rewording(t, base, commits, 0, base, false, Seq::empty());
}

/// The `j`th new commit is a copy of one of the old ones: it has its message, and the tree
/// that its patch gives on top of the new commit below.
pub open spec fn copied(
    t: TapeView,
    base: Oid,
    original: Oid,
    new: Seq<Oid>,
    j: int,
) -> bool {
    exists|message: Seq<char>, tree: Oid|
        tape::told(
            t,
            RequestView::MessageOf { commit: original },
            ReplyView::Text(message),
        ) && tape::told(
            t,
            RequestView::CherryPick {
                commit: original,
                onto: below(base, new, j),
                first_parent: false,
            },
            ReplyView::Merged(MergeView::Clean(tree)),
        ) && #[trigger] tape::told(
            t,
            RequestView::CopyCommit { original, message, tree, parent: below(base, new, j) },
            ReplyView::Object(new[j]),
        )
}

/// A commit has nothing left to add: its patch on top of another one gives the very tree
/// of that one.
pub open spec fn emptied(t: TapeView, original: Oid) -> bool {
    exists|parent: Oid, tree: Oid|
        tape::told(
            t,
            RequestView::TreeOf { commit: parent },
            ReplyView::Object(tree),
        ) && #[trigger] tape::told(
            t,
            RequestView::CherryPick { commit: original, onto: parent, first_parent: false },
            ReplyView::Merged(MergeView::Clean(tree)),
        )
}

/// The commit was copied, or has nothing left to add.
pub open spec fn carried_over(t: TapeView, base: Oid, original: Oid, new: Seq<Oid>) -> bool {
    emptied(t, original) || exists|j: int|
        0 <= j < new.len() && #[trigger] copied(t, base, original, new, j)
}

proof fn lemma_copied_still(
    from: TapeView,
    to: TapeView,
    base: Oid,
    original: Oid,
    new: Seq<Oid>,
    more: Seq<Oid>,
    j: int,
)
    requires
        tape::only(from, to, |q: RequestView| true),
        0 <= j < new.len() <= more.len(),
        forall|x: int| 0 <= x < new.len() ==> #[trigger] more[x] == new[x],
        copied(from, base, original, new, j),
    ensures
        copied(to, base, original, more, j),
{
    tape::lemma_said_stays(from, to, |q: RequestView| true);
    assert(more[j] == new[j]);
    if j > 0 {
        assert(more[j - 1] == new[j - 1]);
    }
    let (message, tree) = choose|message: Seq<char>, tree: Oid|
        tape::told(
            from,
            RequestView::MessageOf { commit: original },
            ReplyView::Text(message),
        ) && tape::told(
            from,
            RequestView::CherryPick {
                commit: original,
                onto: below(base, new, j),
                first_parent: false,
            },
            ReplyView::Merged(MergeView::Clean(tree)),
        ) && #[trigger] tape::told(
            from,
            RequestView::CopyCommit { original, message, tree, parent: below(base, new, j) },
            ReplyView::Object(new[j]),
        );
    assert(tape::told(
        to,
        RequestView::CopyCommit { original, message, tree, parent: below(base, more, j) },
        ReplyView::Object(more[j]),
    ));
}

proof fn lemma_carried_still(
    from: TapeView,
    to: TapeView,
    base: Oid,
    original: Oid,
    new: Seq<Oid>,
    more: Seq<Oid>,
)
    requires
        tape::only(from, to, |q: RequestView| true),
        new.len() <= more.len(),
        forall|x: int| 0 <= x < new.len() ==> #[trigger] more[x] == new[x],
        carried_over(from, base, original, new),
    ensures
        carried_over(to, base, original, more),
{
    tape::lemma_said_stays(from, to, |q: RequestView| true);
    if emptied(from, original) {
        let (parent, tree) = choose|parent: Oid, tree: Oid|
            tape::told(
                from,
                RequestView::TreeOf { commit: parent },
                ReplyView::Object(tree),
            ) && #[trigger] tape::told(
                from,
                RequestView::CherryPick { commit: original, onto: parent, first_parent: false },
                ReplyView::Merged(MergeView::Clean(tree)),
            );
        assert(tape::told(
            to,
            RequestView::CherryPick { commit: original, onto: parent, first_parent: false },
            ReplyView::Merged(MergeView::Clean(tree)),
        ));
        assert(emptied(to, original));
    } else {
        let j = choose|j: int| 0 <= j < new.len() && #[trigger] copied(from, base, original, new, j);
        lemma_copied_still(from, to, base, original, new, more, j);
    }
}

/// Each new commit is a copy of one of the old ones.
pub open spec fn is_copy(t: TapeView, base: Oid, commits: Seq<Oid>, new: Seq<Oid>, j: int) -> bool {
    exists|i: int| 0 <= i < commits.len() && copied(t, base, #[trigger] commits[i], new, j)
}

spec fn moving(t: TapeView, base: Oid, commits: Seq<Oid>, i: int, parent: Oid, new: Seq<Oid>) -> bool {
    &&& parent == below(base, new, new.len() as int)
    &&& forall|j: int| 0 <= j < new.len() ==> #[trigger] is_copy(t, base, commits, new, j)
    &&& forall|k: int| 0 <= k < i ==> carried_over(t, base, #[trigger] commits[k], new)
}

proof fn lemma_moving_still(
    from: TapeView,
    to: TapeView,
    base: Oid,
    commits: Seq<Oid>,
    i: int,
    parent: Oid,
    new: Seq<Oid>,
    more: Seq<Oid>,
)
    requires
        tape::only(from, to, |q: RequestView| true),
        0 <= i <= commits.len(),
        new.len() <= more.len(),
        forall|x: int| 0 <= x < new.len() ==> #[trigger] more[x] == new[x],
        moving(from, base, commits, i, parent, new),
    ensures
        forall|j: int| 0 <= j < new.len() ==> #[trigger] is_copy(to, base, commits, more, j),
        forall|k: int| 0 <= k < i ==> carried_over(to, base, #[trigger] commits[k], more),
{
    assert forall|j: int| 0 <= j < new.len() implies #[trigger] is_copy(
        to,
        base,
        commits,
        more,
        j,
    ) by {
        assert(is_copy(from, base, commits, new, j));
        let k = choose|k: int|
            0 <= k < commits.len() && copied(from, base, #[trigger] commits[k], new, j);
        lemma_copied_still(from, to, base, commits[k], new, more, j);
    }
    assert forall|k: int| 0 <= k < i implies carried_over(
        to,
        base,
        #[trigger] commits[k],
        more,
    ) by {
        lemma_carried_still(from, to, base, commits[k], new, more);
    }
}

#[verifier::rlimit(40)]
proof fn lemma_moving(t: TapeView, base: Oid, commits: Seq<Oid>, i: int, parent: Oid, new: Seq<Oid>)
    requires
        0 <= i <= commits.len(),
        moving(t, base, commits, i, parent, new),
    ensures
        ({
            let (to, r) = history::rebase_from(t, commits, i, parent, new);
            r matches Ok(all) ==> {
                &&& forall|j: int| 0 <= j < all.len() ==> #[trigger] is_copy(
                    to,
                    base,
                    commits,
                    all,
                    j,
                )
                &&& forall|k: int|
                    0 <= k < commits.len() ==> carried_over(to, base, #[trigger] commits[k], all)
                &&& to.asked.last() == (RequestView::CheckoutHead {
                    commit: below(base, all, all.len() as int),
                })
            }
        }),
    decreases commits.len() - i,
{
    broadcast use tape::lemma_only_ask;

    let any = |q: RequestView| true;
    tape::lemma_only_start(t, any);
    if i >= commits.len() {
        let q = RequestView::CheckoutHead { commit: parent };
        let (t1, r) = tape::ask_unit(t, q);
        assert(tape::only(t, t1, any));
        assert(t1.asked.last() == q);
        lemma_moving_still(t, t1, base, commits, i, parent, new, new);
    } else {
        let commit = commits[i];
        let q1 = RequestView::CherryPick { commit, onto: parent, first_parent: false };
        let (t1, merge) = tape::ask_merge(t, q1);
        if merge is Ok && merge->Ok_0 is Clean {
            let tree = (merge->Ok_0)->Clean_0;
            let q2 = RequestView::TreeOf { commit: parent };
            let (t2, before) = tape::ask_object(t1, q2);
            if before is Ok {
                let before = before->Ok_0;
                tape::lemma_told(t, q1);
                tape::lemma_told(t1, q2);
                assert(tape::told(t1, q1, ReplyView::Merged(MergeView::Clean(tree))));
                assert(tape::told(t2, q2, ReplyView::Object(before)));
                tape::lemma_only_start(t1, any);
                tape::lemma_only_start(t2, any);
                if tree == before {
                    let (t3, r) = tape::ask_unit(
                        t2,
                        RequestView::PostRewrite { old: commit, new: parent },
                    );
                    if r is Ok {
                        assert(tape::only(t1, t3, any));
                        assert(tape::only(t2, t3, any));
                        assert(tape::only(t, t3, any));
                        tape::lemma_said_stays(t1, t3, any);
                        tape::lemma_said_stays(t2, t3, any);
                        lemma_moving_still(t, t3, base, commits, i, parent, new, new);
                        assert(tape::told(t3, q1, ReplyView::Merged(MergeView::Clean(tree))));
                        assert(emptied(t3, commit));
                        lemma_moving(t3, base, commits, i + 1, parent, new);
                    }
                } else {
                    let q3 = RequestView::MessageOf { commit };
                    let (t3, message) = tape::ask_text(t2, q3);
                    if message is Ok {
                        let message = message->Ok_0;
                        let q4 = RequestView::CopyCommit {
                            original: commit,
                            message,
                            tree,
                            parent,
                        };
                        let (t4, made) = tape::ask_object(t3, q4);
                        if made is Ok {
                            let made = made->Ok_0;
                            let (t5, r) = tape::ask_unit(
                                t4,
                                RequestView::PostRewrite { old: commit, new: made },
                            );
                            if r is Ok {
                                let more = new.push(made);
                                tape::lemma_told(t2, q3);
                                tape::lemma_told(t3, q4);
                                assert(tape::told(t3, q3, ReplyView::Text(message)));
                                assert(tape::told(t4, q4, ReplyView::Object(made)));
                                tape::lemma_only_start(t3, any);
                                tape::lemma_only_start(t4, any);
                                assert(tape::only(t, t5, any));
                                assert(tape::only(t1, t5, any));
                                assert(tape::only(t3, t5, any));
                                assert(tape::only(t4, t5, any));
                                tape::lemma_said_stays(t1, t5, any);
                                tape::lemma_said_stays(t3, t5, any);
                                tape::lemma_said_stays(t4, t5, any);
                                lemma_moving_still(t, t5, base, commits, i, parent, new, more);
                                let j = new.len() as int;
                                assert(below(base, more, j) == parent);
                                assert(more[j] == made);
                                assert(tape::told(t5, q4, ReplyView::Object(more[j])));
                                assert(copied(t5, base, commits[i], more, j));
                                assert(is_copy(t5, base, commits, more, j));
                                lemma_moving(t5, base, commits, i + 1, made, more);
                            }
                        }
                    }
                }
            }
        }
    }
}

/// Rebasing loses no commit: every one of them is copied, with its message and its patch,
/// on top of the one copied before it, unless its patch is already there; and nothing else
/// is copied. Then `HEAD` is checked out at the topmost one.
pub proof fn law_rebasing_loses_nothing(t: TapeView, commits: Seq<Oid>, onto: Oid, k: int, j: int)
    ensures
        ({
            let (to, r) = history::commits_rebased(t, commits, onto);
            r matches Ok(new) ==> {
                &&& 0 <= k < commits.len() ==> carried_over(to, onto, commits[k], new)
                &&& 0 <= j < new.len() ==> is_copy(to, onto, commits, new, j)
                &&& to.asked.last() == (RequestView::CheckoutHead {
                    commit: below(onto, new, new.len() as int),
                })
            }
        }),
{
    lemma_moving(t, onto, commits, 0, onto, Seq::empty());
}

} // verus!
