//! What `patch` promises.

use vstd::prelude::*;

use crate::config::ConfigView;
use crate::forge::PrView;
use crate::history;
use crate::oid::Oid;
use crate::patch;
use crate::patch::BuiltView;
use crate::tape;
use crate::tape::{ReplyView, RequestView, TapeView};
use crate::text;
use crate::trailers;
use crate::trailers::MessageView;

verus! {

/// The message that a pull request gives in so many words: its title and its description,
/// and no trailers.
pub open spec fn own_words(pr: PrView) -> MessageView {
    MessageView {
        subject: pr.title,
        body: trailers::normalized(pr.body),
        trailers: Seq::empty(),
    }
}

proof fn lemma_normalized_apart(a: Seq<char>, b: Seq<char>)
    requires
        a.len() > 0,
        a.last() != '\r',
    ensures
        trailers::normalized(a + b) == trailers::normalized(a) + trailers::normalized(b),
    decreases b.len(),
{
    let all = a + b;
    if b.len() == 0 {
        assert(all =~= a);
        assert(trailers::normalized(a) + b =~= trailers::normalized(a));
    } else {
        assert(all.last() == b.last());
        assert(all.drop_last() =~= a + b.drop_last());
        if b.len() == 1 {
            assert(all[all.len() - 2] == a.last());
            lemma_normalized_apart(a, b.drop_last());
            assert(trailers::normalized(all) =~= trailers::normalized(a) + trailers::normalized(b));
        } else {
            assert(all[all.len() - 2] == b[b.len() - 2]);
            if b.last() == '\n' && b[b.len() - 2] == '\r' {
                assert(all.drop_last().drop_last() =~= a + b.drop_last().drop_last());
                lemma_normalized_apart(a, b.drop_last().drop_last());
            } else {
                lemma_normalized_apart(a, b.drop_last());
            }
            assert(trailers::normalized(all) =~= trailers::normalized(a) + trailers::normalized(b));
        }
    }
}

proof fn lemma_normalized_line(a: Seq<char>)
    requires
        forall|i: int| 0 <= i < a.len() ==> #[trigger] a[i] != '\n',
    ensures
        trailers::normalized(a) == a,
    decreases a.len(),
{
    if a.len() > 0 {
        let front = a.drop_last();
        assert forall|i: int| 0 <= i < front.len() implies #[trigger] front[i] != '\n' by {
            assert(a[i] != '\n');
        }
        assert(a[a.len() - 1] != '\n');
        lemma_normalized_line(front);
        assert(front.push(a.last()) =~= a);
    }
}

proof fn lemma_raw(pr: PrView)
    requires
        trailers::canonical(own_words(pr)),
    ensures
        trailers::parsed(pr.title + "\n\n"@ + pr.body) == own_words(pr),
{
    reveal_strlit("\n\n");
    reveal_strlit("\n");
    let m = own_words(pr);
    let title = pr.title;
    let d = m.body;
    let raw = title + "\n\n"@ + pr.body;
    let head = title + "\n\n"@;
    assert("\n\n"@ =~= seq!['\n', '\n']);
    assert("\n"@ =~= seq!['\n']);
    text::lemma_trim_end(title);
    assert(title.last() != '\r');
    lemma_normalized_line(title);
    assert(trailers::normalized("\n\n"@) =~= "\n\n"@) by {
        reveal_with_fuel(trailers::normalized, 4);
        let x = "\n\n"@;
        assert(x.drop_last() =~= seq!['\n']);
        assert(x.drop_last().drop_last() =~= Seq::<char>::empty());
    }
    lemma_normalized_apart(title, "\n\n"@);
    lemma_normalized_apart(head, pr.body);
    let clean = head + d;
    assert(trailers::normalized(raw) == clean);
    let written = trailers::rendered(m);
    text::lemma_trim(d);
    assert(title[0] != '\n');
    assert(clean[0] == title[0]);
    assert(written[0] == title[0]);
    assert(text::strip_leading(clean, '\n') == clean);
    assert(text::strip_leading(written, '\n') == written);
    assert(title[title.len() - 1] != '\n');
    assert(text::strip_trailing(title, '\n') == title);
    if d.len() == 0 {
        assert(text::is_blank(d));
        assert(written =~= title.push('\n'));
        assert(clean =~= title.push('\n').push('\n'));
        assert(clean.drop_last() =~= title.push('\n'));
        assert(title.push('\n').drop_last() =~= title);
        assert(text::strip_trailing(title.push('\n'), '\n') == title);
        assert(text::strip_trailing(clean, '\n') == title);
    } else {
        assert(!text::is_blank(d));
        assert(written =~= clean.push('\n'));
        assert(written.drop_last() =~= clean);
    }
    assert(trailers::message_lines(raw) == trailers::message_lines(written));
    trailers::law_parse_after_render(m);
}

/// The message of a rebuilt commit says what the pull request says: where the title is one
/// line without space at its end, and the description is trimmed and does not end in what
/// reads as trailers, the subject is the title and the body is the description, and the
/// only trailer is the link to the pull request.
pub proof fn law_rebuilt_message_says_what_the_pull_request_says(c: ConfigView, pr: PrView)
    requires
        trailers::canonical(own_words(pr)),
    ensures
        patch::patch_message(c, pr).subject == pr.title,
        patch::patch_message(c, pr).body == trailers::normalized(pr.body),
        patch::patch_message(c, pr).trailers.len() == 1,
        trailers::trailer_value(patch::patch_message(c, pr), trailers::PULL_REQUEST@) == Some(
            crate::config::pr_url(c, pr.number),
        ),
{
    lemma_raw(pr);
    trailers::law_get_after_set(
        own_words(pr),
        trailers::PULL_REQUEST@,
        crate::config::pr_url(c, pr.number),
    );
}

/// What is in the chain stays in it.
proof fn lemma_kept(
    t: TapeView,
    trunk: Seq<char>,
    current: PrView,
    seen: Seq<u64>,
    chain: Seq<PrView>,
)
    ensures
        patch::chain_down(t, trunk, current, seen, chain).1 matches Ok(all) ==> all.len()
            >= chain.len() && forall|i: int|
            0 <= i < chain.len() ==> #[trigger] all[all.len() - chain.len() + i] == chain[i],
    decreases t.replies.len() - t.asked.len(),
{
    if current.base != trunk {
        let q = RequestView::FindByHead { head: current.base };
        let (t1, found) = tape::ask_maybe_pr(t, q);
        if found is Ok && found->Ok_0 is Some {
            let parent = found->Ok_0->0;
            if !seen.contains(parent.number) {
                let next = chain.insert(0, parent);
                let (to, r) = patch::chain_down(
                    t1,
                    trunk,
                    parent,
                    seen.push(parent.number),
                    next,
                );
                lemma_kept(t1, trunk, parent, seen.push(parent.number), next);
                if r is Ok {
                    let all = r->Ok_0;
                    assert forall|i: int| 0 <= i < chain.len() implies #[trigger] all[all.len()
                        - chain.len() + i] == chain[i] by {
                        assert(all[all.len() - next.len() + (i + 1)] == next[i + 1]);
                    }
                }
            }
        }
    }
}

/// What is rebuilt is the pull request and all that it is stacked on, from the bottom up:
/// each one in the chain was found under the branch that the next one is based on, the
/// topmost is the one that was asked for, and the walk ends at the trunk, at a branch
/// without a pull request or at one that is in the chain.
pub proof fn law_chain_goes_down(
    t: TapeView,
    trunk: Seq<char>,
    current: PrView,
    seen: Seq<u64>,
    chain: Seq<PrView>,
)
    requires
        chain.len() > 0,
        chain[0] == current,
        forall|i: int|
            0 <= i < chain.len() - 1 ==> tape::told(
                t,
                RequestView::FindByHead { head: (#[trigger] chain[i + 1]).base },
                ReplyView::MaybePr(Some(chain[i])),
            ),
    ensures
        ({
            let (to, r) = patch::chain_down(t, trunk, current, seen, chain);
            r matches Ok(all) ==> {
                &&& all.len() >= chain.len()
                &&& all.last() == chain.last()
                &&& forall|i: int|
                    0 <= i < all.len() - 1 ==> tape::told(
                        to,
                        RequestView::FindByHead { head: (#[trigger] all[i + 1]).base },
                        ReplyView::MaybePr(Some(all[i])),
                    )
                &&& all[0].base == trunk || tape::told(
                    to,
                    RequestView::FindByHead { head: all[0].base },
                    ReplyView::MaybePr(None),
                ) || exists|pr: PrView|
                    #[trigger] tape::told(
                        to,
                        RequestView::FindByHead { head: all[0].base },
                        ReplyView::MaybePr(Some(pr)),
                    ) && (seen.contains(pr.number) || exists|i: int|
                        0 <= i < all.len() && (#[trigger] all[i]).number == pr.number)
            }
        }),
    decreases t.replies.len() - t.asked.len(),
{
    broadcast use tape::lemma_only_ask;

    let any = |q: RequestView| true;
    if current.base != trunk {
        let q = RequestView::FindByHead { head: current.base };
        let (t1, found) = tape::ask_maybe_pr(t, q);
        if found is Ok {
            tape::lemma_told(t, q);
            assert(tape::told(t1, q, ReplyView::MaybePr(found->Ok_0)));
            tape::lemma_only_start(t, any);
            assert(tape::only(t, t1, any));
            tape::lemma_said_stays(t, t1, any);
            if found->Ok_0 is Some {
                let parent = found->Ok_0->0;
                if !seen.contains(parent.number) {
                    let next = chain.insert(0, parent);
                    assert forall|i: int| 0 <= i < next.len() - 1 implies tape::told(
                        t1,
                        RequestView::FindByHead { head: (#[trigger] next[i + 1]).base },
                        ReplyView::MaybePr(Some(next[i])),
                    ) by {
                        if i > 0 {
                            assert(next[i + 1] == chain[i - 1 + 1]);
                            assert(next[i] == chain[i - 1]);
                        } else {
                            assert(next[1] == chain[0]);
                        }
                    }
                    let more = seen.push(parent.number);
                    law_chain_goes_down(t1, trunk, parent, more, next);
                    assert(next.last() == chain.last());
                    assert forall|n: u64| more.contains(n) implies seen.contains(n) || n
                        == parent.number by {
                        let j = choose|j: int| 0 <= j < more.len() && more[j] == n;
                        if j < seen.len() {
                            assert(seen[j] == n);
                        }
                    }
                    lemma_kept(t1, trunk, parent, more, next);
                    let (to, r) = patch::chain_down(t1, trunk, parent, more, next);
                    if r is Ok {
                        let all = r->Ok_0;
                        assert(all[all.len() - next.len() + 0] == next[0]);
                        assert(all[all.len() - next.len()].number == parent.number);
                        if !(all[0].base == trunk) && !tape::told(
                            to,
                            RequestView::FindByHead { head: all[0].base },
                            ReplyView::MaybePr(None),
                        ) {
                            let pr = choose|pr: PrView|
                                #[trigger] tape::told(
                                    to,
                                    RequestView::FindByHead { head: all[0].base },
                                    ReplyView::MaybePr(Some(pr)),
                                ) && (more.contains(pr.number) || exists|i: int|
                                    0 <= i < all.len() && (#[trigger] all[i]).number == pr.number);
                            assert(seen.contains(pr.number) || exists|i: int|
                                0 <= i < all.len() && (#[trigger] all[i]).number == pr.number);
                        }
                    }
                }
            }
        }
    }
}

/// A commit was made for a pull request, with its message, on top of another one.
pub open spec fn made_for(
    t: TapeView,
    c: ConfigView,
    pr: PrView,
    parent: Oid,
    commit: Oid,
) -> bool {
    exists|tree: Oid, message: Seq<char>|
        #[trigger] tape::told(
            t,
            RequestView::DeriveCommit { attribution: pr.head_oid, message, tree, parent },
            ReplyView::Object(commit),
        ) && history::prettified(trailers::rendered(patch::patch_message(c, pr))) == Some(message)
}

/// The `i`th commit was made for one of the pull requests, on the one below it.
pub open spec fn piece(
    t: TapeView,
    c: ConfigView,
    chain: Seq<PrView>,
    bottom: Oid,
    commits: Seq<Oid>,
    prs: Seq<u64>,
    i: int,
) -> bool {
    exists|m: int|
        0 <= m < chain.len() && (#[trigger] chain[m]).number == prs[i] && made_for(
            t,
            c,
            chain[m],
            if i == 0 {
                bottom
            } else {
                commits[i - 1]
            },
            commits[i],
        )
}

spec fn stacked(t: TapeView, c: ConfigView, chain: Seq<PrView>, bottom: Oid, b: BuiltView) -> bool {
    &&& b.commits.len() == b.prs.len()
    &&& b.parent == (if b.commits.len() == 0 {
        bottom
    } else {
        b.commits.last()
    })
    &&& forall|i: int|
        0 <= i < b.commits.len() ==> #[trigger] piece(t, c, chain, bottom, b.commits, b.prs, i)
}

proof fn lemma_piece_still(
    from: TapeView,
    to: TapeView,
    c: ConfigView,
    chain: Seq<PrView>,
    bottom: Oid,
    b: BuiltView,
    more: BuiltView,
    i: int,
)
    requires
        tape::only(from, to, |q: RequestView| true),
        0 <= i < b.commits.len() == b.prs.len(),
        more.commits.len() >= b.commits.len(),
        more.prs.len() >= b.prs.len(),
        more.commits.take(b.commits.len() as int) == b.commits,
        more.prs.take(b.prs.len() as int) == b.prs,
        piece(from, c, chain, bottom, b.commits, b.prs, i),
    ensures
        piece(to, c, chain, bottom, more.commits, more.prs, i),
{
    tape::lemma_said_stays(from, to, |q: RequestView| true);
    assert(more.commits[i] == b.commits[i]) by {
        assert(more.commits.take(b.commits.len() as int)[i] == b.commits[i]);
    }
    assert(more.prs[i] == b.prs[i]) by {
        assert(more.prs.take(b.prs.len() as int)[i] == b.prs[i]);
    }
    let parent = if i == 0 {
        bottom
    } else {
        b.commits[i - 1]
    };
    if i > 0 {
        assert(more.commits.take(b.commits.len() as int)[i - 1] == b.commits[i - 1]);
    }
    let m = choose|m: int|
        0 <= m < chain.len() && (#[trigger] chain[m]).number == b.prs[i] && made_for(
            from,
            c,
            chain[m],
            parent,
            b.commits[i],
        );
    let (tree, message) = choose|tree: Oid, message: Seq<char>|
        #[trigger] tape::told(
            from,
            RequestView::DeriveCommit { attribution: chain[m].head_oid, message, tree, parent },
            ReplyView::Object(b.commits[i]),
        ) && history::prettified(trailers::rendered(patch::patch_message(c, chain[m]))) == Some(
            message,
        );
    assert(tape::told(
        to,
        RequestView::DeriveCommit { attribution: chain[m].head_oid, message, tree, parent },
        ReplyView::Object(b.commits[i]),
    ));
    assert(made_for(to, c, chain[m], parent, b.commits[i]));
}

proof fn lemma_built(t: TapeView, c: ConfigView, chain: Seq<PrView>, k: int, bottom: Oid, b: BuiltView)
    requires
        0 <= k <= chain.len(),
        stacked(t, c, chain, bottom, b),
    ensures
        patch::build_from(t, c, chain, k, b).1 matches Ok(all) ==> stacked(
            patch::build_from(t, c, chain, k, b).0,
            c,
            chain,
            bottom,
            all,
        ),
    decreases chain.len() - k,
{
    broadcast use tape::lemma_only_ask;

    let any = |q: RequestView| true;
    if k < chain.len() {
        let pr = chain[k];
        let (t1, tree) = tape::ask_object(t, RequestView::TreeOf { commit: pr.head_oid });
        tape::lemma_only_start(t, any);
        if tree is Ok {
            let (t2, below) = tape::ask_object(t1, RequestView::TreeOf { commit: b.parent });
            assert(tape::only(t, t2, any));
            if below is Ok {
                if tree->Ok_0 == below->Ok_0 {
                    assert forall|i: int| 0 <= i < b.commits.len() implies #[trigger] piece(
                        t2,
                        c,
                        chain,
                        bottom,
                        b.commits,
                        b.prs,
                        i,
                    ) by {
                        assert(b.commits.take(b.commits.len() as int) =~= b.commits);
                        assert(b.prs.take(b.prs.len() as int) =~= b.prs);
                        lemma_piece_still(t, t2, c, chain, bottom, b, b, i);
                    }
                    lemma_built(t2, c, chain, k + 1, bottom, b);
                } else {
                    let text = trailers::rendered(patch::patch_message(c, pr));
                    let (t3, commit) = history::derived(
                        t2,
                        pr.head_oid,
                        text,
                        tree->Ok_0,
                        b.parent,
                    );
                    if commit is Ok {
                        let message = history::prettified(text)->0;
                        let q = RequestView::DeriveCommit {
                            attribution: pr.head_oid,
                            message,
                            tree: tree->Ok_0,
                            parent: b.parent,
                        };
                        let more = BuiltView {
                            parent: commit->Ok_0,
                            commits: b.commits.push(commit->Ok_0),
                            prs: b.prs.push(pr.number),
                        };
                        tape::lemma_told(t2, q);
                        assert(tape::told(t3, q, ReplyView::Object(commit->Ok_0)));
                        assert(tape::only(t, t3, any));
                        assert(more.commits.take(b.commits.len() as int) =~= b.commits);
                        assert(more.prs.take(b.prs.len() as int) =~= b.prs);
                        assert forall|i: int| 0 <= i < more.commits.len() implies #[trigger] piece(
                            t3,
                            c,
                            chain,
                            bottom,
                            more.commits,
                            more.prs,
                            i,
                        ) by {
                            if i < b.commits.len() {
                                assert(piece(t, c, chain, bottom, b.commits, b.prs, i));
                                lemma_piece_still(t, t3, c, chain, bottom, b, more, i);
                            } else {
                                assert(made_for(t3, c, pr, b.parent, commit->Ok_0));
                                assert(chain[k].number == more.prs[i]);
                            }
                        }
                        lemma_built(t3, c, chain, k + 1, bottom, more);
                    }
                }
            }
        }
    }
}

/// A rebuilt stack is one: each commit was made for one of the pull requests, in the name
/// of the author of its head and with the message that says what it says, and it sits on
/// the commit before it; the first one sits on what the stack is built on.
pub proof fn law_rebuilt_commits_are_stacked(
    t: TapeView,
    c: ConfigView,
    chain: Seq<PrView>,
    bottom: Oid,
    i: int,
)
    ensures
        ({
            let b = BuiltView { parent: bottom, commits: Seq::empty(), prs: Seq::empty() };
            let (to, r) = patch::build_from(t, c, chain, 0, b);
            r matches Ok(built) ==> {
                &&& built.commits.len() == built.prs.len()
                &&& built.parent == (if built.commits.len() == 0 {
                    bottom
                } else {
                    built.commits.last()
                })
                &&& 0 <= i < built.commits.len() ==> piece(
                    to,
                    c,
                    chain,
                    bottom,
                    built.commits,
                    built.prs,
                    i,
                )
            }
        }),
{
    let b = BuiltView { parent: bottom, commits: Seq::empty(), prs: Seq::empty() };
    lemma_built(t, c, chain, 0, bottom, b);
}

} // verus!
