//! What is promised of where branches end up and of what is found out about them.

use vstd::prelude::*;

use crate::config::ConfigView;
use crate::engine;
use crate::execution;
use crate::forge::PrState;
use crate::history;
use crate::land;
use crate::land::MendView;
use crate::markers;
use crate::oid::Oid;
use crate::stack;
use crate::stack::{Dep, StackView};
use crate::stack_comment;
use crate::tape;
use crate::tape::{MergeView, ReplyView, RequestView, TapeView};
use crate::text;
use crate::upgrade;

verus! {

/// The branch of a new pull request has a name that the forge says is free, and that no
/// other layer has taken.
pub proof fn law_new_branch_is_free(
    t: TapeView,
    preferred: Seq<char>,
    attempt: nat,
    reserved: Seq<Seq<char>>,
)
    ensures
        ({
            let (to, r) = execution::free_branch(t, preferred, attempt, reserved);
            r matches Ok(name) ==> {
                &&& forall|k: int| 0 <= k < reserved.len() ==> #[trigger] reserved[k] != name
                &&& exists|wished: Seq<char>|
                    text::starts_with(wished, preferred) && #[trigger] tape::told(
                        to,
                        RequestView::UnusedBranchName { preferred: wished },
                        ReplyView::Text(name),
                    )
            }
        }),
    decreases t.replies.len() - t.asked.len(),
{
    let wished = execution::attempt_name(preferred, attempt);
    let q = RequestView::UnusedBranchName { preferred: wished };
    let (t1, name) = tape::ask_text(t, q);
    assert(wished.take(preferred.len() as int) =~= preferred);
    if name is Ok {
        if execution::among(reserved, name->Ok_0) {
            law_new_branch_is_free(t1, preferred, attempt + 1, reserved);
        } else {
            tape::lemma_told(t, q);
            assert(tape::told(t1, q, ReplyView::Text(name->Ok_0)));
            assert forall|k: int| 0 <= k < reserved.len() implies #[trigger] reserved[k]
                != name->Ok_0 by {
                assert(!execution::among(reserved, name->Ok_0));
            }
        }
    }
}

/// The forge would go on merging a pull request to what it should come to exactly if its
/// base keeps the tree that it has, or if the branch merged into the new one comes out
/// clean and with the tree that it should.
pub proof fn law_divergence_is_noticed(
    t: TapeView,
    base_tip: Oid,
    head: Oid,
    new_base_tree: Oid,
    desired: Oid,
)
    ensures
        ({
            let (to, r) = engine::would_diverge(t, base_tip, head, new_base_tree, desired);
            r matches Ok(diverges) ==> {
                ||| !diverges && tape::told(
                    to,
                    RequestView::TreeOf { commit: base_tip },
                    ReplyView::Object(new_base_tree),
                )
                ||| exists|base: Oid, theirs: Oid, merge: MergeView|
                    diverges == (merge != MergeView::Clean(desired)) && #[trigger] tape::told(
                        to,
                        RequestView::MergeTrees { base, ours: new_base_tree, theirs },
                        ReplyView::Merged(merge),
                    )
            }
        }),
{
    let (to, r) = engine::would_diverge(t, base_tip, head, new_base_tree, desired);
    if r is Ok {
        let q1 = RequestView::TreeOf { commit: base_tip };
        let (t1, old_tree) = tape::ask_object(t, q1);
        tape::lemma_told(t, q1);
        if old_tree->Ok_0 == new_base_tree {
            assert(tape::told(to, q1, ReplyView::Object(new_base_tree)));
        } else {
            let (t2, base) = tape::ask_object(t1, RequestView::MergeBase { a: base_tip, b: head });
            let (t3, base_tree) = tape::ask_object(
                t2,
                RequestView::TreeOf { commit: base->Ok_0 },
            );
            let (t4, theirs) = tape::ask_object(t3, RequestView::TreeOf { commit: head });
            let q = RequestView::MergeTrees {
                base: base_tree->Ok_0,
                ours: new_base_tree,
                theirs: theirs->Ok_0,
            };
            let (t5, merge) = tape::ask_merge(t4, q);
            tape::lemma_told(t4, q);
            assert(to == t5);
            assert(tape::told(to, q, ReplyView::Merged(merge->Ok_0)));
        }
    }
}

/// A branch that was moved was replayed, or, where that did not work, made one commit; and
/// the user is told which.
pub proof fn law_moved_branch_is_replayed_or_collapsed(
    t: TapeView,
    number: u64,
    message: Seq<char>,
    tip: Oid,
    old_root: Oid,
    new_root: Oid,
    revisions: Seq<Oid>,
)
    ensures
        ({
            let (to, r) = land::moved_tip(t, number, message, tip, old_root, new_root, revisions);
            let (t1, replayed) = history::replayed(t, revisions, new_root, message);
            r matches Ok((new_tip, collapsed)) ==> {
                &&& replayed is Ok
                &&& !collapsed <==> replayed->Ok_0 is Some
                &&& !collapsed ==> replayed->Ok_0 == Some(new_tip) && to == t1
                &&& collapsed ==> history::collapsed(
                    t1,
                    number,
                    tip,
                    old_root,
                    new_root,
                    message,
                ) == (to, Ok::<Oid, tape::HaltView>(new_tip))
            }
        }),
{
}

/// A layer that did not land is moved exactly if it sits on a layer that has landed or
/// moved and its pull request is open: it is then pushed and reported, and it gets the
/// trunk for its base where the layer below has landed. Any other one is left as it is.
pub proof fn law_only_moved_layers_are_mended(
    t: TapeView,
    c: ConfigView,
    s: StackView,
    landed: Seq<bool>,
    trunk: Oid,
    d: int,
    m: MendView,
)
    requires
        0 <= d < m.prs.len(),
    ensures
        ({
            let (to, r) = land::mended(t, c, s, landed, trunk, d, m);
            let moves = (s.layers[d].dep matches Dep::Layer(j) && (m.prs[d] matches Some(pr)
                && !landed[d] && pr.state == PrState::Open && (pr.anchor_tip matches Some(old_root)
                && (land::new_root(m.prs, landed, trunk, j as int) matches Some(root) && old_root
                != root))));
            r matches Ok(all) ==> {
                &&& !moves ==> to == t && all.specs == m.specs && all.repaired == m.repaired
                    && all.prs == m.prs
                &&& moves ==> ({
                    let pr = m.prs[d]->0;
                    let direct = landed[s.layers[d].dep->Layer_0 as int];
                    &&& all.specs.len() == m.specs.len() + 1
                    &&& all.specs.last().branch == pr.branch
                    &&& all.specs.last().oid == Some(all.repaired.last().new_tip)
                    &&& all.specs.last().force
                    &&& all.repaired.len() == m.repaired.len() + 1
                    &&& all.repaired.last().number == pr.number
                    &&& all.repaired.last().retargeted == direct
                    &&& all.prs[d] is Some
                    &&& (all.prs[d]->0).tip == all.repaired.last().new_tip
                    &&& direct ==> (all.prs[d]->0).base == c.trunk
                })
            }
        }),
{
}

/// What a layer on top of another one belongs on is the trunk where that one has landed,
/// and its branch otherwise.
pub proof fn law_belongs_on_what_is_below(
    prs: Seq<Option<land::LayerPrView>>,
    landed: Seq<bool>,
    trunk: Oid,
    dep: int,
)
    ensures
        landed[dep] ==> land::new_root(prs, landed, trunk, dep) == Some(trunk),
        !landed[dep] ==> (prs[dep] matches Some(pr) ==> land::new_root(prs, landed, trunk, dep)
            == Some(pr.tip)),
{
}

/// A commit was found on the branch whose message `spr` wrote.
pub open spec fn found_spr(t: TapeView) -> bool {
    exists|commit: Oid, message: Seq<char>|
        upgrade::spr_message(message) && #[trigger] tape::told(
            t,
            RequestView::MessageOf { commit },
            ReplyView::Text(message),
        )
}

/// A branch counts as made by `spr` only if a commit on it has a message that `spr` wrote:
/// one that starts with its tag or says that it was created with it.
pub proof fn law_spr_is_told_by_messages(t: TapeView, cur: Oid, stop: Oid, depth: nat)
    ensures
        upgrade::spr_commit_down(t, cur, stop, depth).1 == Ok::<bool, tape::HaltView>(true)
            ==> found_spr(upgrade::spr_commit_down(t, cur, stop, depth).0),
    decreases depth,
{
    if depth > 0 && cur != stop {
        let (t1, joined) = tape::ask_flag(
            t,
            RequestView::IsAncestor { ancestor: cur, descendant: stop },
        );
        if joined is Ok && !joined->Ok_0 {
            let q = RequestView::MessageOf { commit: cur };
            let (t2, message) = tape::ask_text(t1, q);
            if message is Ok {
                if upgrade::spr_message(message->Ok_0) {
                    tape::lemma_told(t1, q);
                    assert(tape::told(t2, q, ReplyView::Text(message->Ok_0)));
                } else {
                    let (t3, parent) = tape::ask_maybe_object(
                        t2,
                        RequestView::FirstParentOf { commit: cur },
                    );
                    if parent is Ok && parent->Ok_0 is Some {
                        law_spr_is_told_by_messages(
                            t3,
                            parent->Ok_0->0,
                            stop,
                            (depth - 1) as nat,
                        );
                    }
                }
            }
        }
    }
}

/// The messages that `spr` writes are recognised.
pub proof fn law_spr_messages_are_recognised(message: Seq<char>)
    ensures
        text::starts_with(text::trim_start(message), "[spr]"@) ==> upgrade::spr_message(message),
        markers::holds(message, "Created using spr"@) ==> upgrade::spr_message(message),
{
}

/// Where a layer and what it depends on both have pull requests, both are part of a stack,
/// so that both get a table; one without a pull request is part of none.
pub proof fn law_stacked_layers_get_tables(s: StackView, i: usize, j: usize)
    requires
        stack::well_formed(s),
        s.layers.len() <= usize::MAX,
        i < s.layers.len(),
        s.layers[i as int].dep == Dep::Layer(j),
    ensures
        s.layers[i as int].pr is Some && s.layers[j as int].pr is Some ==> stack_comment::in_stack(
            s,
            i as int,
        ) && stack_comment::in_stack(s, j as int),
        stack_comment::in_stack(s, i as int) ==> s.layers[i as int].pr is Some,
{
    stack::law_components_partition(s);
    if s.layers[i as int].pr is Some && s.layers[j as int].pr is Some {
        assert(j < i);
        let k = choose|k: int|
            0 <= k < stack::components(s).len() && (#[trigger] stack::components(s)[k]).contains(i);
        let c = stack::components(s)[k];
        assert(c.contains(j));
        let a = choose|a: int| 0 <= a < c.len() && c[a] == i;
        let b = choose|b: int| 0 <= b < c.len() && c[b] == j;
        assert(a != b);
        assert(c.len() >= 2);
    }
}

} // verus!
