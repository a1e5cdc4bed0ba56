//! What `amend` promises.

use vstd::prelude::*;

use crate::amend;
use crate::amend::{AmendedView, EditsView};
use crate::forge::PrView;
use crate::pr_body;
use crate::stack::StackView;
use crate::tape;
use crate::tape::{ReplyView, RequestView, TapeView};
use crate::text;
use crate::trailers;
use crate::trailers::MessageView;
use crate::upgrade;

verus! {

/// What a pull request says differs from what a commit says.
pub open spec fn differs(pr: PrView, m: MessageView) -> bool {
    pr.title != m.subject || text::trim(pr_body::without_warning(pr.body)) != m.body
}

/// Layer `i` gets the message that says what its pull request says, and keeps its own
/// trailers; without a pull request it keeps its message. It is listed exactly if its
/// message changes.
pub open spec fn brought_in_line(t: TapeView, s: StackView, e: EditsView, i: int) -> bool {
    let layer = s.layers[i];
    exists|raw: Seq<char>|
        #[trigger] tape::told(
            t,
            RequestView::MessageOf { commit: layer.commit },
            ReplyView::Text(raw),
        ) && e.rewrites[i].0 == layer.commit && match layer.pr {
            None => e.rewrites[i].1 == trailers::rendered(trailers::parsed(raw)),
            Some(number) => exists|pr: PrView|
                #[trigger] tape::told(
                    t,
                    RequestView::GetPullRequest { number },
                    ReplyView::Pr(pr),
                ) && e.rewrites[i].1 == trailers::rendered(
                    MessageView {
                        subject: pr.title,
                        body: text::trim(pr_body::without_warning(pr.body)),
                        trailers: trailers::parsed(raw).trailers,
                    },
                ) && (differs(pr, trailers::parsed(raw)) ==> listed(
                    e.changed,
                    number,
                    trailers::parsed(raw).subject,
                    pr.title,
                )),
        }
}

/// The change of a message is listed.
pub open spec fn listed(
    changed: Seq<AmendedView>,
    number: u64,
    old_subject: Seq<char>,
    new_subject: Seq<char>,
) -> bool {
    exists|x: int|
        0 <= x < changed.len() && #[trigger] changed[x] == (AmendedView {
            number,
            old_subject,
            new_subject,
        })
}

/// A listed change is one: the pull request is that of a layer, and it says something else
/// than the commit did.
pub open spec fn is_change(t: TapeView, s: StackView, a: AmendedView) -> bool {
    exists|i: int, raw: Seq<char>, pr: PrView|
        0 <= i < s.layers.len() && s.layers[i].pr == Some(a.number) && #[trigger] tape::told(
            t,
            RequestView::MessageOf { commit: s.layers[i].commit },
            ReplyView::Text(raw),
        ) && #[trigger] tape::told(
            t,
            RequestView::GetPullRequest { number: a.number },
            ReplyView::Pr(pr),
        ) && differs(pr, trailers::parsed(raw)) && a.old_subject == trailers::parsed(raw).subject
            && a.new_subject == pr.title
}

proof fn lemma_listed_still(
    changed: Seq<AmendedView>,
    more: Seq<AmendedView>,
    number: u64,
    old_subject: Seq<char>,
    new_subject: Seq<char>,
)
    requires
        listed(changed, number, old_subject, new_subject),
        changed.len() <= more.len(),
        forall|x: int| 0 <= x < changed.len() ==> #[trigger] more[x] == changed[x],
    ensures
        listed(more, number, old_subject, new_subject),
{
    let a = AmendedView { number, old_subject, new_subject };
    let x = choose|x: int| 0 <= x < changed.len() && #[trigger] changed[x] == a;
    assert(more[x] == a);
}

proof fn lemma_in_line_still(
    from: TapeView,
    to: TapeView,
    s: StackView,
    e: EditsView,
    f: EditsView,
    i: int,
)
    requires
        tape::only(from, to, |q: RequestView| true),
        brought_in_line(from, s, e, i),
        f.rewrites[i] == e.rewrites[i],
        e.changed.len() <= f.changed.len(),
        forall|x: int| 0 <= x < e.changed.len() ==> #[trigger] f.changed[x] == e.changed[x],
    ensures
        brought_in_line(to, s, f, i),
{
    tape::lemma_said_stays(from, to, |q: RequestView| true);
    let layer = s.layers[i];
    let raw = choose|raw: Seq<char>|
        #[trigger] tape::told(
            from,
            RequestView::MessageOf { commit: layer.commit },
            ReplyView::Text(raw),
        ) && e.rewrites[i].0 == layer.commit && match layer.pr {
            None => e.rewrites[i].1 == trailers::rendered(trailers::parsed(raw)),
            Some(number) => exists|pr: PrView|
                #[trigger] tape::told(
                    from,
                    RequestView::GetPullRequest { number },
                    ReplyView::Pr(pr),
                ) && e.rewrites[i].1 == trailers::rendered(
                    MessageView {
                        subject: pr.title,
                        body: text::trim(pr_body::without_warning(pr.body)),
                        trailers: trailers::parsed(raw).trailers,
                    },
                ) && (differs(pr, trailers::parsed(raw)) ==> listed(
                    e.changed,
                    number,
                    trailers::parsed(raw).subject,
                    pr.title,
                )),
        };
    assert(tape::told(
        to,
        RequestView::MessageOf { commit: layer.commit },
        ReplyView::Text(raw),
    ));
    match layer.pr {
        None => {},
        Some(number) => {
            let pr = choose|pr: PrView|
                #[trigger] tape::told(
                    from,
                    RequestView::GetPullRequest { number },
                    ReplyView::Pr(pr),
                ) && e.rewrites[i].1 == trailers::rendered(
                    MessageView {
                        subject: pr.title,
                        body: text::trim(pr_body::without_warning(pr.body)),
                        trailers: trailers::parsed(raw).trailers,
                    },
                ) && (differs(pr, trailers::parsed(raw)) ==> listed(
                    e.changed,
                    number,
                    trailers::parsed(raw).subject,
                    pr.title,
                ));
            assert(tape::told(
                to,
                RequestView::GetPullRequest { number },
                ReplyView::Pr(pr),
            ));
            if differs(pr, trailers::parsed(raw)) {
                lemma_listed_still(
                    e.changed,
                    f.changed,
                    number,
                    trailers::parsed(raw).subject,
                    pr.title,
                );
            }
        },
    }
}

proof fn lemma_change_still(from: TapeView, to: TapeView, s: StackView, a: AmendedView)
    requires
        tape::only(from, to, |q: RequestView| true),
        is_change(from, s, a),
    ensures
        is_change(to, s, a),
{
    tape::lemma_said_stays(from, to, |q: RequestView| true);
    let (i, raw, pr) = choose|i: int, raw: Seq<char>, pr: PrView|
        0 <= i < s.layers.len() && s.layers[i].pr == Some(a.number) && #[trigger] tape::told(
            from,
            RequestView::MessageOf { commit: s.layers[i].commit },
            ReplyView::Text(raw),
        ) && #[trigger] tape::told(
            from,
            RequestView::GetPullRequest { number: a.number },
            ReplyView::Pr(pr),
        ) && differs(pr, trailers::parsed(raw)) && a.old_subject == trailers::parsed(raw).subject
            && a.new_subject == pr.title;
    assert(tape::told(
        to,
        RequestView::MessageOf { commit: s.layers[i].commit },
        ReplyView::Text(raw),
    ));
    assert(tape::told(
        to,
        RequestView::GetPullRequest { number: a.number },
        ReplyView::Pr(pr),
    ));
}

spec fn in_line(t: TapeView, s: StackView, i: int, e: EditsView) -> bool {
    &&& e.rewrites.len() == i
    &&& forall|j: int| 0 <= j < i ==> #[trigger] brought_in_line(t, s, e, j)
    &&& forall|x: int| 0 <= x < e.changed.len() ==> is_change(t, s, #[trigger] e.changed[x])
}

#[verifier::rlimit(40)]
proof fn lemma_edits(t: TapeView, s: StackView, i: int, e: EditsView)
    requires
        0 <= i <= s.layers.len(),
        in_line(t, s, i, e),
    ensures
        amend::edits_from(t, s, i, e).1 matches Ok(all) ==> in_line(
            amend::edits_from(t, s, i, e).0,
            s,
            s.layers.len() as int,
            all,
        ),
    decreases s.layers.len() - i,
{
    broadcast use {tape::lemma_only_ask, upgrade::lemma_spr_commit_only};

    let any = |q: RequestView| true;
    tape::lemma_only_start(t, any);
    if i < s.layers.len() {
        let layer = s.layers[i];
        let q1 = RequestView::MessageOf { commit: layer.commit };
        let (t1, raw) = tape::ask_text(t, q1);
        if raw is Ok {
            let raw = raw->Ok_0;
            let m = trailers::parsed(raw);
            tape::lemma_told(t, q1);
            assert(tape::told(t1, q1, ReplyView::Text(raw)));
            assert(tape::only(t, t1, any));
            if !trailers::legacy_trailer(m) {
                match layer.pr {
                    None => {
                        let f = EditsView {
                            rewrites: e.rewrites.push((layer.commit, trailers::rendered(m))),
                            ..e
                        };
                        assert forall|j: int| 0 <= j < i + 1 implies #[trigger] brought_in_line(
                            t1,
                            s,
                            f,
                            j,
                        ) by {
                            if j < i {
                                assert(brought_in_line(t, s, e, j));
                                lemma_in_line_still(t, t1, s, e, f, j);
                            }
                        }
                        assert forall|x: int| 0 <= x < f.changed.len() implies is_change(
                            t1,
                            s,
                            #[trigger] f.changed[x],
                        ) by {
                            lemma_change_still(t, t1, s, e.changed[x]);
                        }
                        lemma_edits(t1, s, i + 1, f);
                    },
                    Some(number) => {
                        let q2 = RequestView::GetPullRequest { number };
                        let (t2, pr) = tape::ask_pr(t1, q2);
                        let (t4, read) = amend::pr_read(t1, s, i, number);
                        if read is Ok {
                            let pr = pr->Ok_0;
                            assert(read->Ok_0 == pr);
                            tape::lemma_told(t1, q2);
                            assert(tape::told(t2, q2, ReplyView::Pr(pr)));
                            tape::lemma_only_start(t1, any);
                            tape::lemma_only_start(t2, any);
                            assert(tape::may_look(any));
                            assert(tape::only(t2, t4, any));
                            assert(tape::only(t1, t4, any));
                            assert(tape::only(t, t4, any));
                            tape::lemma_said_stays(t1, t4, any);
                            tape::lemma_said_stays(t2, t4, any);
                            let f = amend::with_edit(e, layer.commit, number, m, pr);
                            let own = MessageView {
                                subject: pr.title,
                                body: text::trim(pr_body::without_warning(pr.body)),
                                trailers: m.trailers,
                            };
                            if !differs(pr, m) {
                                assert(own == m);
                            } else {
                                let a = AmendedView {
                                    number,
                                    old_subject: m.subject,
                                    new_subject: pr.title,
                                };
                                assert(f.changed[e.changed.len() as int] == a);
                                assert(listed(f.changed, number, m.subject, pr.title));
                            }
                            assert forall|j: int| 0 <= j < i + 1 implies #[trigger] brought_in_line(
                                t4,
                                s,
                                f,
                                j,
                            ) by {
                                if j < i {
                                    assert(brought_in_line(t, s, e, j));
                                    lemma_in_line_still(t, t4, s, e, f, j);
                                } else {
                                    assert(tape::told(t4, q1, ReplyView::Text(raw)));
                                    assert(tape::told(t4, q2, ReplyView::Pr(pr)));
                                    assert(f.rewrites[i].1 == trailers::rendered(own));
                                }
                            }
                            assert forall|x: int| 0 <= x < f.changed.len() implies is_change(
                                t4,
                                s,
                                #[trigger] f.changed[x],
                            ) by {
                                if x < e.changed.len() {
                                    assert(f.changed[x] == e.changed[x]);
                                    lemma_change_still(t, t4, s, e.changed[x]);
                                } else {
                                    assert(tape::told(t4, q1, ReplyView::Text(raw)));
                                    assert(tape::told(t4, q2, ReplyView::Pr(pr)));
                                }
                            }
                            lemma_edits(t4, s, i + 1, f);
                        }
                    },
                }
            }
        }
    }
}

/// The messages that `amend` writes say what the pull requests say: the title becomes the
/// subject and the description, without the warning that was put in front of it, the body.
/// Exactly the changes are listed.
pub proof fn law_amend_takes_over_what_the_forge_says(t: TapeView, s: StackView, i: int, x: int)
    ensures
        ({
            let none = EditsView { rewrites: Seq::empty(), changed: Seq::empty() };
            let (to, r) = amend::edits_from(t, s, 0, none);
            r matches Ok(e) ==> {
                &&& e.rewrites.len() == s.layers.len()
                &&& 0 <= i < s.layers.len() ==> brought_in_line(to, s, e, i)
                &&& 0 <= x < e.changed.len() ==> is_change(to, s, e.changed[x])
            }
        }),
{
    lemma_edits(t, s, 0, EditsView { rewrites: Seq::empty(), changed: Seq::empty() });
}

} // verus!
