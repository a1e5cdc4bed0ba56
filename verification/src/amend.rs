//! Bringing the local commit messages back in line with the forge.
//!
//! The flow this exists for: you open a pull request, a reader suggests a
//! better title, you edit it on the web. Now the local commit and the pull
//! request disagree, and the next `nspr diff --update-message` would quietly
//! undo the reader's wording. Pulling the edits down instead makes the commit
//! message the thing that lands, which is what a squash merge will use.
//!
//! The trailer block is never touched. It is the tool's own bookkeeping and has
//! no counterpart on the forge.

use vstd::prelude::*;

use crate::data::{nothing, put};
use crate::discovery;
use crate::forge::{PrView, PullRequest};
use crate::history;
use crate::history::rewrite_messages;
use crate::oid::Oid;
use crate::pr_body;
use crate::pr_body::strip_warning;
use crate::stack::{Stack, StackView};
use crate::tape;
use crate::tape::{Halt, HaltView, Request, RequestView, Tape, TapeView};
use crate::text;
use crate::text::{push_decimal, same, trim_text};
use crate::trailers;
use crate::trailers::{CommitMessage, MessageView};
use crate::upgrade;
use crate::upgrade::{has_spr_commit, layer_label_text, RUN_UPGRADE};

verus! {

#[derive(Debug, Clone)]
pub struct Amended {
    pub number: u64,
    pub old_subject: String,
    pub new_subject: String,
}

#[verifier::ext_equal]
pub struct AmendedView {
    pub number: u64,
    pub old_subject: Seq<char>,
    pub new_subject: Seq<char>,
}

impl DeepView for Amended {
    type V = AmendedView;

    open spec fn deep_view(&self) -> AmendedView {
        AmendedView {
            number: self.number,
            old_subject: self.old_subject@,
            new_subject: self.new_subject@,
        }
    }
}

/// What was read of the layers so far.
#[verifier::ext_equal]
pub struct EditsView {
    /// Each commit with its new message.
    pub rewrites: Seq<(Oid, Seq<char>)>,
    pub changed: Seq<AmendedView>,
}

/// What was read of the layers so far.
pub struct Edits {
    /// Each commit with its new message.
    pub rewrites: Vec<(Oid, String)>,
    pub changed: Vec<Amended>,
}

impl DeepView for Edits {
    type V = EditsView;

    open spec fn deep_view(&self) -> EditsView {
        EditsView { rewrites: self.rewrites.deep_view(), changed: self.changed.deep_view() }
    }
}

/// The refusal of a layer with a trailer that `spr` wrote.
pub open spec fn trailer_refusal(s: StackView, i: int) -> Seq<char> {
    "pull request "@ + upgrade::layer_label(s, i)
        + " was created by `spr` (detected `Pull Request:` trailer).\n"@ + RUN_UPGRADE@
}

/// The refusal of a layer with a commit that `spr` made.
pub open spec fn commit_refusal(number: u64, subject: Seq<char>) -> Seq<char> {
    "pull request #"@ + text::decimal(number as nat) + " (`"@ + subject
        + "`) was created by `spr` (detected `[spr]` commit).\n"@ + RUN_UPGRADE@
}

/// The body of a pull request as the author wrote it.
pub open spec fn own_body(pr: PrView) -> Seq<char> {
    text::trim(pr_body::without_warning(pr.body))
}

/// The message that says what the pull request says.
pub open spec fn amended_message(m: MessageView, pr: PrView) -> MessageView {
    MessageView { subject: pr.title, body: own_body(pr), ..m }
}

/// The edits with one more layer.
pub open spec fn with_edit(
    e: EditsView,
    commit: Oid,
    number: u64,
    m: MessageView,
    pr: PrView,
) -> EditsView {
    if pr.title != m.subject || own_body(pr) != m.body {
        EditsView {
            rewrites: e.rewrites.push((commit, trailers::rendered(amended_message(m, pr)))),
            changed: e.changed.push(
                AmendedView { number, old_subject: m.subject, new_subject: pr.title },
            ),
        }
    } else {
        EditsView { rewrites: e.rewrites.push((commit, trailers::rendered(m))), ..e }
    }
}

/// The edits of the layers from `i` on. Every layer is listed, changed or not,
/// because rewriting one commit reparents everything above it.
pub open spec fn edits_from(t: TapeView, s: StackView, i: int, e: EditsView) -> (
    TapeView,
    Result<EditsView, HaltView>,
)
    decreases s.layers.len() - i,
{
    if i < 0 || i >= s.layers.len() {
        tape::done(t, e)
    } else {
        let layer = s.layers[i];
        tape::bind(
            tape::ask_text(t, RequestView::MessageOf { commit: layer.commit }),
            |t: TapeView, raw: Seq<char>|
                {
                    let m = trailers::parsed(raw);
                    if trailers::legacy_trailer(m) {
                        tape::refuse(t, trailer_refusal(s, i))
                    } else {
                        match layer.pr {
                            None => edits_from(
                                t,
                                s,
                                i + 1,
                                EditsView {
                                    rewrites: e.rewrites.push(
                                        (layer.commit, trailers::rendered(m)),
                                    ),
                                    ..e
                                },
                            ),
                            Some(number) => tape::bind(
                                pr_read(t, s, i, number),
                                |t: TapeView, pr: PrView|
                                    edits_from(
                                        t,
                                        s,
                                        i + 1,
                                        with_edit(e, layer.commit, number, m, pr),
                                    ),
                            ),
                        }
                    }
                },
        )
    }
}

/// The pull request of layer `i`, which `spr` did not make.
pub open spec fn pr_read(t: TapeView, s: StackView, i: int, number: u64) -> (
    TapeView,
    Result<PrView, HaltView>,
) {
    tape::bind(
        tape::ask_pr(t, RequestView::GetPullRequest { number }),
        |t: TapeView, pr: PrView|
            tape::bind(
                tape::ask_unit(t, RequestView::FetchCommit { commit: pr.head_oid }),
                |t: TapeView, u: ()|
                    tape::bind(
                        upgrade::spr_commit(t, pr.head_oid, s.base),
                        |t: TapeView, found: bool|
                            if found {
                                tape::refuse(
                                    t,
                                    commit_refusal(number, s.layers[i].message.subject),
                                )
                            } else {
                                tape::done(t, pr)
                            },
                    ),
            ),
    )
}

fn read_pr(t: &mut Tape, stack: &Stack, i: usize, number: u64) -> (r: Result<PullRequest, Halt>)
    requires
        i < stack@.layers.len(),
    ensures
        (final(t)@, tape::outcome(r)) == pr_read(old(t)@, stack@, i as int, number),
{
    let layer = &stack.layers[i];
    assert(stack@.layers[i as int] == layer.deep_view());
    let pr = t.pr(Request::GetPullRequest { number })?;
    t.unit(Request::FetchCommit { commit: pr.head_oid })?;
    if has_spr_commit(t, pr.head_oid, stack.base)? {
        let mut reason = "pull request #".to_owned();
        push_decimal(&mut reason, number);
        reason.append(" (`");
        reason.append(layer.subject());
        reason.append("`) was created by `spr` (detected `[spr]` commit).\n");
        reason.append(RUN_UPGRADE);
        return Err(Halt::Refused(reason));
    }
    Ok(pr)
}

/// The commit messages in line with the forge, and what changed.
pub open spec fn amended(t: TapeView, s: StackView) -> (
    TapeView,
    Result<Seq<AmendedView>, HaltView>,
) {
    tape::bind(
        tape::ask_unit(t, RequestView::CheckClean),
        |t: TapeView, u: ()|
            tape::bind(
                edits_from(
                    t,
                    s,
                    0,
                    EditsView { rewrites: Seq::empty(), changed: Seq::empty() },
                ),
                |t: TapeView, e: EditsView|
                    if e.changed.len() > 0 {
                        tape::bind(
                            history::messages_rewritten(t, s.base, e.rewrites),
                            |t: TapeView, rewritten: Seq<Oid>| tape::done(t, e.changed),
                        )
                    } else {
                        tape::done(t, e.changed)
                    },
            ),
    )
}

fn read_edits(t: &mut Tape, stack: &Stack) -> (r: Result<Edits, Halt>)
    ensures
        (final(t)@, tape::outcome(r)) == edits_from(
            old(t)@,
            stack@,
            0,
            EditsView { rewrites: Seq::empty(), changed: Seq::empty() },
        ),
{
    let mut e = Edits { rewrites: nothing(), changed: nothing() };
    let mut i: usize = 0;
    while i < stack.layers.len()
        invariant
            i <= stack.layers@.len(),
            edits_from(t@, stack@, i as int, e.deep_view()) == edits_from(
                old(t)@,
                stack@,
                0,
                EditsView { rewrites: Seq::empty(), changed: Seq::empty() },
            ),
        decreases stack.layers@.len() - i,
    {
        let layer = &stack.layers[i];
        assert(stack@.layers[i as int] == layer.deep_view());
        let raw = t.text(Request::MessageOf { commit: layer.commit })?;
        let mut message = CommitMessage::parse(raw.as_str());
        if message.has_legacy_spr_trailer() {
            let mut reason = "pull request ".to_owned();
            reason.append(layer_label_text(stack, i).as_str());
            reason.append(" was created by `spr` (detected `Pull Request:` trailer).\n");
            reason.append(RUN_UPGRADE);
            return Err(Halt::Refused(reason));
        }
        match layer.pr {
            None => {},
            Some(number) => {
                let pr = read_pr(t, stack, i, number)?;
                let body = trim_text(strip_warning(pr.body.as_str()).as_str());
                if !same(pr.title.as_str(), message.subject.as_str()) || !same(
                    body.as_str(),
                    message.body.as_str(),
                ) {
                    put(
                        &mut e.changed,
                        Amended {
                            number,
                            old_subject: message.subject.clone(),
                            new_subject: pr.title.clone(),
                        },
                    );
                    let ghost before = message@;
                    message.subject = pr.title.clone();
                    message.body = body;
                    assert(message@ == amended_message(before, pr@));
                }
            },
        }
        put(&mut e.rewrites, (layer.commit, message.render()));
        i = i + 1;
    }
    Ok(e)
}

/// Rewrites each layer's commit message from its pull request.
///
/// Returns only the layers that actually changed, so the caller can say
/// nothing at all when there was nothing to do.
pub fn amend(t: &mut Tape, stack: &Stack) -> (r: Result<Vec<Amended>, Halt>)
    ensures
        (final(t)@, tape::outcome(r)) == amended(old(t)@, stack@),
{
    t.unit(Request::CheckClean)?;
    let e = read_edits(t, stack)?;
    assert(e.changed.deep_view().len() == e.changed@.len());
    if e.changed.len() > 0 {
        let _ = rewrite_messages(t, stack.base, &e.rewrites)?;
    }
    Ok(e.changed)
}

pub broadcast proof fn lemma_pr_read_only(
    from: TapeView,
    t: TapeView,
    s: StackView,
    i: int,
    number: u64,
    allowed: spec_fn(RequestView) -> bool,
)
    requires
        #[trigger] tape::only(from, t, allowed),
        tape::may_look(allowed),
    ensures
        tape::only(from, (#[trigger] pr_read(t, s, i, number)).0, allowed),
{
    broadcast use {tape::lemma_only_ask, upgrade::lemma_spr_commit_only};

}

pub broadcast proof fn lemma_edits_from_only(
    from: TapeView,
    t: TapeView,
    s: StackView,
    i: int,
    e: EditsView,
    allowed: spec_fn(RequestView) -> bool,
)
    requires
        #[trigger] tape::only(from, t, allowed),
        tape::may_look(allowed),
    ensures
        tape::only(from, (#[trigger] edits_from(t, s, i, e)).0, allowed),
    decreases s.layers.len() - i,
{
    broadcast use {tape::lemma_only_ask, lemma_pr_read_only};

    if 0 <= i < s.layers.len() {
        let layer = s.layers[i];
        let (t1, raw) = tape::ask_text(t, RequestView::MessageOf { commit: layer.commit });
        if raw is Ok {
            let m = trailers::parsed(raw->Ok_0);
            if !trailers::legacy_trailer(m) {
                match layer.pr {
                    None => lemma_edits_from_only(
                        from,
                        t1,
                        s,
                        i + 1,
                        EditsView {
                            rewrites: e.rewrites.push((layer.commit, trailers::rendered(m))),
                            ..e
                        },
                        allowed,
                    ),
                    Some(number) => {
                        let (t2, pr) = pr_read(t1, s, i, number);
                        if pr is Ok {
                            lemma_edits_from_only(
                                from,
                                t2,
                                s,
                                i + 1,
                                with_edit(e, layer.commit, number, m, pr->Ok_0),
                                allowed,
                            );
                        }
                    },
                }
            }
        }
    }
}

pub broadcast proof fn lemma_amended_only(
    from: TapeView,
    t: TapeView,
    s: StackView,
    allowed: spec_fn(RequestView) -> bool,
)
    requires
        #[trigger] tape::only(from, t, allowed),
        tape::may_write(allowed),
    ensures
        tape::only(from, (#[trigger] amended(t, s)).0, allowed),
{
    broadcast use {tape::lemma_only_ask, lemma_edits_from_only, history::lemma_messages_rewritten_only};

    assert(tape::may_look(allowed));
}

/// Taking over what a pull request says keeps every trailer, and so the pull
/// request and the dependency of the layer. Taking it over again changes nothing.
pub proof fn law_amend_keeps_trailers(m: MessageView, pr: PrView, trunk: Seq<char>)
    ensures
        amended_message(m, pr).trailers == m.trailers,
        discovery::pr_of(amended_message(m, pr)) == discovery::pr_of(m),
        discovery::dep_spec_of(amended_message(m, pr), trunk) == discovery::dep_spec_of(m, trunk),
        amended_message(amended_message(m, pr), pr) == amended_message(m, pr),
        forall|e: EditsView, commit: Oid, number: u64|
            (#[trigger] with_edit(e, commit, number, amended_message(m, pr), pr)).changed
                == e.changed,
{
}

/// Amending changes nothing on the forge.
pub proof fn law_amend_leaves_the_forge_alone(t: TapeView, s: StackView)
    ensures
        tape::only(t, amended(t, s).0, |q: RequestView| !tape::touches_forge(q)),
{
    let local = |q: RequestView| !tape::touches_forge(q);
    tape::lemma_only_start(t, local);
    assert(tape::may_write(local));
    lemma_amended_only(t, t, s, local);
}

} // verus!
