//! Abandoning a layer without abandoning the ones above it.
//!
//! This is the one operation that cannot be made diff-neutral. Landing a layer
//! preserves its changes, so the dependents' diffs are unaffected and their
//! review comments survive. Closing a layer *removes* its changes, so every
//! dependent's diff genuinely changes, and comments anchored to lines that came
//! from the closed layer will be outdated.
//!
//! So closing warns, and otherwise does the minimum: it does **not** delete the
//! head branch. A closed pull request can only be reopened while its branch
//! still exists, and someone who closes a layer by mistake should be able to
//! undo it.

use vstd::prelude::*;

use crate::config::{Config, ConfigView};
use crate::data::{nothing, put, replace};
use crate::forge;
use crate::forge::{PrState, PrView, PullRequest, PullRequestUpdate, UpdateView};
use crate::history;
use crate::history::{rebase_commits, rewrite_messages};
use crate::oid::Oid;
use crate::reference::{DepSpec, DepSpecView};
use crate::refs;
use crate::stack;
use crate::stack::{Dep, Stack, StackView};
use crate::tape;
use crate::tape::{Halt, HaltView, ReplyView, Request, RequestView, Tape, TapeView};
use crate::text;
use crate::text::{join_texts, push_decimal};
use crate::trailers;
use crate::trailers::{CommitMessage, MessageView, DEPENDS_ON};
use crate::upgrade;
use crate::upgrade::reject_if_legacy_spr;

verus! {

#[derive(Debug, Clone)]
pub struct CloseOutcome {
    pub number: u64,
    pub title: String,
    /// Dependents whose base branch was moved down to take its place.
    pub retargeted: Vec<u64>,
    pub warnings: Vec<String>,
}

#[verifier::ext_equal]
pub struct CloseOutcomeView {
    pub number: u64,
    pub title: Seq<char>,
    pub retargeted: Seq<u64>,
    pub warnings: Seq<Seq<char>>,
}

impl DeepView for CloseOutcome {
    type V = CloseOutcomeView;

    open spec fn deep_view(&self) -> CloseOutcomeView {
        CloseOutcomeView {
            number: self.number,
            title: self.title@,
            retargeted: self.retargeted@,
            warnings: self.warnings.deep_view(),
        }
    }
}

/// What keeps a pull request from being closed.
pub open spec fn not_closable(number: u64, state: PrState) -> Option<Seq<char>> {
    match state {
        PrState::Open => None,
        PrState::Closed => Some("#"@ + text::decimal(number as nat) + " is already closed."@),
        PrState::Merged => Some(
            "#"@ + text::decimal(number as nat)
                + " has already been merged. Run `nspr sync` to bring your local stack back in line."@,
        ),
    }
}

fn why_not_closable(number: u64, state: PrState) -> (r: Option<String>)
    ensures
        r.deep_view() == not_closable(number, state),
{
    let mut reason = "#".to_owned();
    push_decimal(&mut reason, number);
    match state {
        PrState::Open => None,
        PrState::Closed => {
            reason.append(" is already closed.");
            Some(reason)
        },
        PrState::Merged => {
            reason.append(
                " has already been merged. Run `nspr sync` to bring your local stack back in line.",
            );
            Some(reason)
        },
    }
}

/// What the dependents of a closed layer sit on afterwards.
pub struct Inherited {
    /// The branch.
    pub base: String,
    /// How a trailer names it.
    pub spec: String,
}

#[verifier::ext_equal]
pub struct InheritedView {
    pub base: Seq<char>,
    pub spec: Seq<char>,
}

impl DeepView for Inherited {
    type V = InheritedView;

    open spec fn deep_view(&self) -> InheritedView {
        InheritedView { base: self.base@, spec: self.spec@ }
    }
}

/// The refusal to close a layer on top of one that was never submitted.
pub open spec fn nothing_to_inherit(subject: Seq<char>, below: Seq<char>) -> Seq<char> {
    "`"@ + subject + "` depends on `"@ + below
        + "`, which has no pull request yet. Run `nspr diff` first so there is something to reparent onto."@
}

/// The refusal to close a layer whose dependency is outside the stack.
pub open spec fn unresolved(subject: Seq<char>, n: u64) -> Seq<char> {
    "`"@ + subject + "` declares `"@ + DEPENDS_ON@ + ": #"@ + text::decimal(n as nat)
        + "`, which is not resolved. Run `nspr diff` first."@
}

/// Whatever a layer sat on is what its dependents will sit on.
pub open spec fn inherited(t: TapeView, c: ConfigView, s: StackView, index: int) -> (
    TapeView,
    Result<InheritedView, HaltView>,
) {
    let layer = s.layers[index];
    match layer.dep {
        Dep::Main => tape::done(t, InheritedView { base: c.trunk, spec: c.trunk }),
        Dep::Layer(j) => match s.layers[j as int].pr {
            None => tape::refuse(
                t,
                nothing_to_inherit(layer.message.subject, s.layers[j as int].message.subject),
            ),
            Some(below) => tape::bind(
                tape::ask_pr(t, RequestView::GetPullRequest { number: below }),
                |t: TapeView, pr: PrView|
                    tape::done(
                        t,
                        InheritedView {
                            base: pr.head,
                            spec: "#"@ + text::decimal(pr.number as nat),
                        },
                    ),
            ),
        },
        Dep::ExternalPr(n) => tape::refuse(t, unresolved(layer.message.subject, n)),
    }
}

fn inherit(t: &mut Tape, config: &Config, stack: &Stack, index: usize) -> (r: Result<
    Inherited,
    Halt,
>)
    requires
        index < stack@.layers.len(),
        stack::well_formed(stack@),
    ensures
        (final(t)@, tape::outcome(r)) == inherited(old(t)@, config@, stack@, index as int),
{
    let layer = &stack.layers[index];
    assert(stack@.layers[index as int] == layer.deep_view());
    match layer.dep {
        Dep::Main => Ok(Inherited { base: config.trunk.clone(), spec: config.trunk.clone() }),
        Dep::Layer(j) => {
            let below = &stack.layers[j];
            assert(stack@.layers[j as int] == below.deep_view());
            match below.pr {
                None => {
                    let mut reason = "`".to_owned();
                    reason.append(layer.subject());
                    reason.append("` depends on `");
                    reason.append(below.subject());
                    reason.append(
                        "`, which has no pull request yet. Run `nspr diff` first so there is something to reparent onto.",
                    );
                    Err(Halt::Refused(reason))
                },
                Some(number) => {
                    let pr = t.pr(Request::GetPullRequest { number })?;
                    let mut spec = "#".to_owned();
                    push_decimal(&mut spec, pr.number);
                    Ok(Inherited { base: pr.head, spec })
                },
            }
        },
        Dep::ExternalPr(n) => {
            let mut reason = "`".to_owned();
            reason.append(layer.subject());
            reason.append("` declares `");
            reason.append(DEPENDS_ON);
            reason.append(": #");
            push_decimal(&mut reason, n);
            reason.append("`, which is not resolved. Run `nspr diff` first.");
            Err(Halt::Refused(reason))
        },
    }
}

/// The pull requests among the given layers from the `k`th on get another base.
pub open spec fn rebase_prs_from(
    t: TapeView,
    s: StackView,
    layers: Seq<usize>,
    base: Seq<char>,
    k: int,
    moved: Seq<u64>,
) -> (TapeView, Result<Seq<u64>, HaltView>)
    decreases layers.len() - k,
{
    if k < 0 || k >= layers.len() {
        tape::done(t, moved)
    } else {
        match s.layers[layers[k] as int].pr {
            None => rebase_prs_from(t, s, layers, base, k + 1, moved),
            Some(number) => tape::bind(
                tape::ask_unit(
                    t,
                    RequestView::UpdatePullRequest { number, update: forge::base_update(base) },
                ),
                |t: TapeView, u: ()|
                    rebase_prs_from(t, s, layers, base, k + 1, moved.push(number)),
            ),
        }
    }
}

fn rebase_prs(t: &mut Tape, stack: &Stack, layers: &Vec<usize>, base: &str) -> (r: Result<
    Vec<u64>,
    Halt,
>)
    requires
        forall|m: int| 0 <= m < layers@.len() ==> (#[trigger] layers@[m]) < stack@.layers.len(),
    ensures
        ({
            let spec = rebase_prs_from(old(t)@, stack@, layers@, base@, 0, Seq::empty());
            &&& final(t)@ == spec.0
            &&& match r {
                Ok(out) => spec.1 == Ok::<Seq<u64>, HaltView>(out@),
                Err(h) => spec.1 == Err::<Seq<u64>, HaltView>(h.deep_view()),
            }
        }),
{
    let mut moved: Vec<u64> = Vec::new();
    assert(moved@ =~= Seq::<u64>::empty());
    let mut k: usize = 0;
    while k < layers.len()
        invariant
            k <= layers@.len(),
            forall|m: int| 0 <= m < layers@.len() ==> (#[trigger] layers@[m]) < stack@.layers.len(),
            rebase_prs_from(t@, stack@, layers@, base@, k as int, moved@) == rebase_prs_from(
                old(t)@,
                stack@,
                layers@,
                base@,
                0,
                Seq::empty(),
            ),
        decreases layers@.len() - k,
    {
        let i: usize = layers[k];
        assert(stack@.layers[i as int] == stack.layers@[i as int].deep_view());
        match stack.layers[i].pr {
            None => {},
            Some(number) => {
                t.unit(
                    Request::UpdatePullRequest { number, update: PullRequestUpdate::to_base(base) },
                )?;
                moved.push(number);
            },
        }
        k = k + 1;
    }
    Ok(moved)
}

/// The messages of the layers from `i` on, read anew.
pub open spec fn reread_from(t: TapeView, s: StackView, i: int, messages: Seq<MessageView>) -> (
    TapeView,
    Result<Seq<MessageView>, HaltView>,
)
    decreases s.layers.len() - i,
{
    if i < 0 || i >= s.layers.len() {
        tape::done(t, messages)
    } else {
        tape::bind(
            tape::ask_text(t, RequestView::MessageOf { commit: s.layers[i].commit }),
            |t: TapeView, raw: Seq<char>|
                reread_from(t, s, i + 1, messages.push(trailers::parsed(raw))),
        )
    }
}

fn reread(t: &mut Tape, stack: &Stack) -> (r: Result<Vec<CommitMessage>, Halt>)
    ensures
        (final(t)@, tape::outcome(r)) == reread_from(old(t)@, stack@, 0, Seq::empty()),
        r matches Ok(messages) ==> messages@.len() == stack@.layers.len(),
{
    let mut messages: Vec<CommitMessage> = nothing();
    let mut i: usize = 0;
    while i < stack.layers.len()
        invariant
            i <= stack.layers@.len(),
            messages@.len() == i,
            reread_from(t@, stack@, i as int, messages.deep_view()) == reread_from(
                old(t)@,
                stack@,
                0,
                Seq::empty(),
            ),
        decreases stack.layers@.len() - i,
    {
        assert(stack@.layers[i as int].commit == stack.layers@[i as int].commit);
        let raw = t.text(Request::MessageOf { commit: stack.layers[i].commit })?;
        put(&mut messages, CommitMessage::parse(raw.as_str()));
        i = i + 1;
    }
    Ok(messages)
}

/// The messages without trailers that name the closed pull request, among the
/// given layers from the `k`th on.
pub open spec fn renamed_from(
    s: StackView,
    layers: Seq<usize>,
    number: u64,
    spec: Seq<char>,
    k: int,
    messages: Seq<MessageView>,
) -> Seq<MessageView>
    decreases layers.len() - k,
{
    if k < 0 || k >= layers.len() {
        messages
    } else {
        let i = layers[k] as int;
        renamed_from(
            s,
            layers,
            number,
            spec,
            k + 1,
            if s.layers[i].dep_spec == Some(DepSpecView::Pr(number)) {
                messages.update(i, trailers::with_trailer(messages[i], DEPENDS_ON@, spec))
            } else {
                messages
            },
        )
    }
}

fn rename(
    stack: &Stack,
    layers: &Vec<usize>,
    number: u64,
    spec: &str,
    messages: &mut Vec<CommitMessage>,
)
    requires
        forall|m: int| 0 <= m < layers@.len() ==> (#[trigger] layers@[m]) < stack@.layers.len(),
        old(messages)@.len() == stack@.layers.len(),
    ensures
        final(messages).deep_view() == renamed_from(
            stack@,
            layers@,
            number,
            spec@,
            0,
            old(messages).deep_view(),
        ),
        final(messages)@.len() == stack@.layers.len(),
{
    let mut k: usize = 0;
    while k < layers.len()
        invariant
            k <= layers@.len(),
            forall|m: int| 0 <= m < layers@.len() ==> (#[trigger] layers@[m]) < stack@.layers.len(),
            messages@.len() == stack@.layers.len(),
            renamed_from(stack@, layers@, number, spec@, k as int, messages.deep_view())
                == renamed_from(
                stack@,
                layers@,
                number,
                spec@,
                0,
                old(messages).deep_view(),
            ),
        decreases layers@.len() - k,
    {
        let i: usize = layers[k];
        assert(stack@.layers[i as int] == stack.layers@[i as int].deep_view());
        let names = match &stack.layers[i].dep_spec {
            Some(DepSpec::Pr(n)) => *n == number,
            _ => false,
        };
        if names {
            assert(messages.deep_view()[i as int] == messages@[i as int].deep_view());
            let mut message = messages[i].clone();
            message.set(DEPENDS_ON, spec);
            replace(messages, i, message);
        }
        k = k + 1;
    }
}

/// The commits below `n` but one.
pub open spec fn all_but(commits: Seq<Oid>, index: int, n: int) -> Seq<Oid>
    decreases n,
{
    if n <= 0 {
        Seq::empty()
    } else if n - 1 == index {
        all_but(commits, index, n - 1)
    } else {
        all_but(commits, index, n - 1).push(commits[n - 1])
    }
}

fn without(commits: &Vec<Oid>, index: usize) -> (r: Vec<Oid>)
    ensures
        r@ == all_but(commits@, index as int, commits@.len() as int),
{
    let mut out: Vec<Oid> = Vec::new();
    let mut i: usize = 0;
    while i < commits.len()
        invariant
            i <= commits@.len(),
            out@ == all_but(commits@, index as int, i as int),
        decreases commits@.len() - i,
    {
        if i != index {
            out.push(commits[i]);
        }
        i = i + 1;
    }
    out
}

/// Each layer's commit with its message.
pub open spec fn paired(s: StackView, messages: Seq<MessageView>) -> Seq<(Oid, Seq<char>)> {
    Seq::new(
        s.layers.len(),
        |i: int| (s.layers[i].commit, trailers::rendered(messages[i])),
    )
}

fn pair_up(stack: &Stack, messages: &Vec<CommitMessage>) -> (r: Vec<(Oid, String)>)
    requires
        messages@.len() == stack@.layers.len(),
    ensures
        r.deep_view() == paired(stack@, messages.deep_view()),
{
    let mut out: Vec<(Oid, String)> = nothing();
    let mut i: usize = 0;
    while i < stack.layers.len()
        invariant
            i <= stack.layers@.len() == messages@.len(),
            out.deep_view().len() == i,
            forall|m: int|
                0 <= m < i ==> (#[trigger] out.deep_view()[m]) == paired(
                    stack@,
                    messages.deep_view(),
                )[m],
        decreases stack.layers@.len() - i,
    {
        assert(stack@.layers[i as int].commit == stack.layers@[i as int].commit);
        assert(messages.deep_view()[i as int] == messages@[i as int].deep_view());
        put(&mut out, (stack.layers[i].commit, messages[i].render()));
        i = i + 1;
    }
    assert(out.deep_view() =~= paired(stack@, messages.deep_view()));
    out
}

/// Pull requests, listed.
pub open spec fn listed(numbers: Seq<u64>) -> Seq<char> {
    text::join(numbers.map_values(|n: u64| "#"@ + text::decimal(n as nat)), ", "@)
}

/// Lists pull requests.
pub fn list_numbers(numbers: &Vec<u64>) -> (r: String)
    ensures
        r@ == listed(numbers@),
{
    let mut names: Vec<String> = Vec::new();
    let mut k: usize = 0;
    while k < numbers.len()
        invariant
            k <= numbers@.len(),
            names@.len() == k,
            forall|m: int|
                0 <= m < k ==> (#[trigger] names@[m])@ == "#"@ + text::decimal(numbers@[m] as nat),
        decreases numbers@.len() - k,
    {
        let mut name = "#".to_owned();
        push_decimal(&mut name, numbers[k]);
        names.push(name);
        k = k + 1;
    }
    assert(text::views(names@) =~= numbers@.map_values(
        |n: u64| "#"@ + text::decimal(n as nat),
    ));
    join_texts(&names, ", ")
}

/// What there is to say after a layer was closed.
pub open spec fn close_noted(number: u64, head: Seq<char>, retargeted: Seq<u64>) -> Seq<Seq<char>> {
    let kept = "#"@ + text::decimal(number as nat) + "'s branch `"@ + head
        + "` was left in place so the pull request can still be reopened. Delete it yourself once you are sure."@;
    let changed = listed(retargeted) + " no longer contain #"@ + text::decimal(number as nat)
        + "'s changes, so their diffs have changed and review comments on those lines will be marked outdated. This is unavoidable when a layer is abandoned rather than landed."@;
    if retargeted.len() > 0 {
        seq![changed, kept]
    } else {
        seq![kept]
    }
}

fn note_close(number: u64, head: &str, retargeted: &Vec<u64>) -> (r: Vec<String>)
    ensures
        r.deep_view() == close_noted(number, head@, retargeted@),
{
    let mut warnings: Vec<String> = nothing();
    if retargeted.len() > 0 {
        let mut changed = list_numbers(retargeted);
        changed.append(" no longer contain #");
        push_decimal(&mut changed, number);
        changed.append(
            "'s changes, so their diffs have changed and review comments on those lines will be marked outdated. This is unavoidable when a layer is abandoned rather than landed.",
        );
        put(&mut warnings, changed);
    }
    let mut kept = "#".to_owned();
    push_decimal(&mut kept, number);
    kept.append("'s branch `");
    kept.append(head);
    kept.append(
        "` was left in place so the pull request can still be reopened. Delete it yourself once you are sure.",
    );
    put(&mut warnings, kept);
    assert(warnings.deep_view() =~= close_noted(number, head@, retargeted@));
    warnings
}

/// The dependents moved down, and the pull request closed.
pub open spec fn closing(
    t: TapeView,
    s: StackView,
    index: usize,
    number: u64,
    pr: PrView,
    below: InheritedView,
) -> (TapeView, Result<CloseOutcomeView, HaltView>) {
    let layers = stack::direct_dependents(s, index);
    tape::bind(
        rebase_prs_from(t, s, layers, below.base, 0, Seq::empty()),
        |t: TapeView, retargeted: Seq<u64>|
            tape::bind(
                tape::ask_unit(
                    t,
                    RequestView::UpdatePullRequest {
                        number,
                        update: UpdateView { state: Some(PrState::Closed), ..forge::no_update() },
                    },
                ),
                |t: TapeView, u: ()|
                    tape::bind(
                        dropped(t, s, index, number, layers, below.spec),
                        |t: TapeView, u: ()|
                            tape::done(
                                t,
                                CloseOutcomeView {
                                    number,
                                    title: pr.title,
                                    retargeted,
                                    warnings: close_noted(number, pr.head, retargeted),
                                },
                            ),
                    ),
            ),
    )
}

/// The layer dropped from the local chain, and with it every trailer that names
/// its pull request.
pub open spec fn dropped(
    t: TapeView,
    s: StackView,
    index: usize,
    number: u64,
    layers: Seq<usize>,
    spec: Seq<char>,
) -> (TapeView, Result<(), HaltView>) {
    tape::bind(
        reread_from(t, s, 0, Seq::empty()),
        |t: TapeView, messages: Seq<MessageView>|
            tape::bind(
                history::messages_rewritten(
                    t,
                    s.base,
                    paired(s, renamed_from(s, layers, number, spec, 0, messages)),
                ),
                |t: TapeView, rewritten: Seq<Oid>|
                    tape::bind(
                        history::commits_rebased(
                            t,
                            all_but(rewritten, index as int, rewritten.len() as int),
                            s.base,
                        ),
                        |t: TapeView, rebased: Seq<Oid>| refs::removed(t, number),
                    ),
            ),
    )
}

fn drop_layer(
    t: &mut Tape,
    stack: &Stack,
    index: usize,
    number: u64,
    layers: &Vec<usize>,
    spec: &str,
) -> (r: Result<(), Halt>)
    requires
        forall|m: int| 0 <= m < layers@.len() ==> (#[trigger] layers@[m]) < stack@.layers.len(),
    ensures
        (final(t)@, tape::outcome(r)) == dropped(
            old(t)@,
            stack@,
            index,
            number,
            layers@,
            spec@,
        ),
{
    let mut messages = reread(t, stack)?;
    rename(stack, layers, number, spec, &mut messages);
    let rewrites = pair_up(stack, &messages);
    let rewritten = rewrite_messages(t, stack.base, &rewrites)?;
    let kept = without(&rewritten, index);
    let _ = rebase_commits(t, &kept, stack.base)?;
    refs::remove(t, number)
}

fn run_close(
    t: &mut Tape,
    stack: &Stack,
    index: usize,
    number: u64,
    pr: &PullRequest,
    below: &Inherited,
) -> (r: Result<CloseOutcome, Halt>)
    ensures
        (final(t)@, tape::outcome(r)) == closing(
            old(t)@,
            stack@,
            index,
            number,
            pr@,
            below.deep_view(),
        ),
{
    let layers = stack.direct_dependents_of(index);
    // Retarget before closing: a pull request whose base branch disappears out
    // from under it can be closed by the forge.
    let retargeted = rebase_prs(t, stack, &layers, below.base.as_str())?;
    let mut update = PullRequestUpdate::default();
    update.state = Some(PrState::Closed);
    t.unit(Request::UpdatePullRequest { number, update })?;
    drop_layer(t, stack, index, number, &layers, below.spec.as_str())?;
    let warnings = note_close(number, pr.head.as_str(), &retargeted);
    Ok(CloseOutcome { number, title: pr.title.clone(), retargeted, warnings })
}

/// The refusal to close a layer without a pull request.
pub open spec fn nothing_to_close(subject: Seq<char>) -> Seq<char> {
    "`"@ + subject
        + "` has no pull request, so there is nothing to close. Drop the commit with `git rebase -i` instead."@
}

/// A layer closed and whatever depended on it restacked.
pub open spec fn layer_closed(t: TapeView, c: ConfigView, s: StackView, index: usize) -> (
    TapeView,
    Result<CloseOutcomeView, HaltView>,
) {
    tape::bind(
        tape::ask_unit(t, RequestView::CheckClean),
        |t: TapeView, u: ()|
            tape::bind(
                upgrade::legacy_rejected(t, c, s),
                |t: TapeView, u: ()|
                    match s.layers[index as int].pr {
                        None => tape::refuse(
                            t,
                            nothing_to_close(s.layers[index as int].message.subject),
                        ),
                        Some(number) => tape::bind(
                            tape::ask_pr(t, RequestView::GetPullRequest { number }),
                            |t: TapeView, pr: PrView|
                                match not_closable(number, pr.state) {
                                    Some(reason) => tape::refuse(t, reason),
                                    None => tape::bind(
                                        inherited(t, c, s, index as int),
                                        |t: TapeView, below: InheritedView|
                                            closing(t, s, index, number, pr, below),
                                    ),
                                },
                        ),
                    },
            ),
    )
}

/// Closes layer `index`'s pull request and restacks whatever depended on it.
///
/// The local commit is dropped. Pushing the restacked dependents is left to
/// the caller's usual sync, so that the decision of what to push stays in one
/// place.
pub fn close_layer(t: &mut Tape, config: &Config, stack: &Stack, index: usize) -> (r: Result<
    CloseOutcome,
    Halt,
>)
    requires
        index < stack@.layers.len(),
        stack::well_formed(stack@),
    ensures
        (final(t)@, tape::outcome(r)) == layer_closed(old(t)@, config@, stack@, index),
{
    t.unit(Request::CheckClean)?;
    reject_if_legacy_spr(t, config, stack)?;
    let layer = &stack.layers[index];
    assert(stack@.layers[index as int] == layer.deep_view());
    match layer.pr {
        None => {
            let mut reason = "`".to_owned();
            reason.append(layer.subject());
            reason.append(
                "` has no pull request, so there is nothing to close. Drop the commit with `git rebase -i` instead.",
            );
            Err(Halt::Refused(reason))
        },
        Some(number) => {
            let pr = t.pr(Request::GetPullRequest { number })?;
            match why_not_closable(number, pr.state) {
                Some(reason) => Err(Halt::Refused(reason)),
                None => {
                    let below = inherit(t, config, stack, index)?;
                    run_close(t, stack, index, number, &pr, &below)
                },
            }
        },
    }
}

pub broadcast proof fn lemma_inherited_only(
    from: TapeView,
    t: TapeView,
    c: ConfigView,
    s: StackView,
    index: int,
    allowed: spec_fn(RequestView) -> bool,
)
    requires
        #[trigger] tape::only(from, t, allowed),
        tape::may_look(allowed),
    ensures
        tape::only(from, (#[trigger] inherited(t, c, s, index)).0, allowed),
{
    broadcast use tape::lemma_only_ask;

}

pub broadcast proof fn lemma_rebase_prs_from_only(
    from: TapeView,
    t: TapeView,
    s: StackView,
    layers: Seq<usize>,
    base: Seq<char>,
    k: int,
    moved: Seq<u64>,
    allowed: spec_fn(RequestView) -> bool,
)
    requires
        #[trigger] tape::only(from, t, allowed),
        tape::may_do_all_but_push(allowed),
    ensures
        tape::only(from, (#[trigger] rebase_prs_from(t, s, layers, base, k, moved)).0, allowed),
    decreases layers.len() - k,
{
    broadcast use tape::lemma_only_ask;

    assert(tape::may_look(allowed) && tape::may_write(allowed));
    if 0 <= k < layers.len() {
        match s.layers[layers[k] as int].pr {
            None => lemma_rebase_prs_from_only(from, t, s, layers, base, k + 1, moved, allowed),
            Some(number) => {
                let (t1, r) = tape::ask_unit(
                    t,
                    RequestView::UpdatePullRequest { number, update: forge::base_update(base) },
                );
                if r is Ok {
                    lemma_rebase_prs_from_only(
                        from,
                        t1,
                        s,
                        layers,
                        base,
                        k + 1,
                        moved.push(number),
                        allowed,
                    );
                }
            },
        }
    }
}

pub broadcast proof fn lemma_reread_from_only(
    from: TapeView,
    t: TapeView,
    s: StackView,
    i: int,
    messages: Seq<MessageView>,
    allowed: spec_fn(RequestView) -> bool,
)
    requires
        #[trigger] tape::only(from, t, allowed),
        tape::may_look(allowed),
    ensures
        tape::only(from, (#[trigger] reread_from(t, s, i, messages)).0, allowed),
    decreases s.layers.len() - i,
{
    broadcast use tape::lemma_only_ask;

    if 0 <= i < s.layers.len() {
        let (t1, raw) = tape::ask_text(
            t,
            RequestView::MessageOf { commit: s.layers[i].commit },
        );
        if raw is Ok {
            lemma_reread_from_only(
                from,
                t1,
                s,
                i + 1,
                messages.push(trailers::parsed(raw->Ok_0)),
                allowed,
            );
        }
    }
}

pub broadcast proof fn lemma_dropped_only(
    from: TapeView,
    t: TapeView,
    s: StackView,
    index: usize,
    number: u64,
    layers: Seq<usize>,
    spec: Seq<char>,
    allowed: spec_fn(RequestView) -> bool,
)
    requires
        #[trigger] tape::only(from, t, allowed),
        tape::may_write(allowed),
    ensures
        tape::only(from, (#[trigger] dropped(t, s, index, number, layers, spec)).0, allowed),
{
    broadcast use {tape::lemma_only_ask, lemma_reread_from_only, history::lemma_messages_rewritten_only, history::lemma_commits_rebased_only};

    assert(tape::may_look(allowed));
}

pub broadcast proof fn lemma_closing_only(
    from: TapeView,
    t: TapeView,
    s: StackView,
    index: usize,
    number: u64,
    pr: PrView,
    below: InheritedView,
    allowed: spec_fn(RequestView) -> bool,
)
    requires
        #[trigger] tape::only(from, t, allowed),
        tape::may_do_all_but_push(allowed),
    ensures
        tape::only(from, (#[trigger] closing(t, s, index, number, pr, below)).0, allowed),
{
    broadcast use {tape::lemma_only_ask, lemma_rebase_prs_from_only, lemma_dropped_only};

    assert(tape::may_look(allowed) && tape::may_write(allowed));
}

pub broadcast proof fn lemma_layer_closed_only(
    from: TapeView,
    t: TapeView,
    c: ConfigView,
    s: StackView,
    index: usize,
    allowed: spec_fn(RequestView) -> bool,
)
    requires
        #[trigger] tape::only(from, t, allowed),
        tape::may_do_all_but_push(allowed),
    ensures
        tape::only(from, (#[trigger] layer_closed(t, c, s, index)).0, allowed),
{
    broadcast use {tape::lemma_only_ask, upgrade::lemma_legacy_rejected_only, lemma_inherited_only, lemma_closing_only};

    assert(tape::may_look(allowed) && tape::may_write(allowed));
}

/// Closing a layer pushes nothing. In particular the head branch stays, so that
/// the pull request can be opened again.
pub proof fn law_close_keeps_branches(t: TapeView, c: ConfigView, s: StackView, index: usize)
    ensures
        tape::only(t, layer_closed(t, c, s, index).0, |q: RequestView| !(q is Push)),
{
    let quiet = |q: RequestView| !(q is Push);
    tape::lemma_only_start(t, quiet);
    assert(tape::may_do_all_but_push(quiet));
    lemma_layer_closed_only(t, t, c, s, index, quiet);
}

/// A request gives a pull request the base, and does nothing else to it.
pub open spec fn moves_base(q: RequestView, base: Seq<char>) -> bool {
    match q {
        RequestView::UpdatePullRequest { update, .. } => update == forge::base_update(base),
        _ => false,
    }
}

/// The pull request of layer `i`, if it has one, got the base.
pub open spec fn base_given(t: TapeView, s: StackView, i: int, base: Seq<char>) -> bool {
    match s.layers[i].pr {
        Some(number) => tape::told(
            t,
            RequestView::UpdatePullRequest { number, update: forge::base_update(base) },
            ReplyView::Done,
        ),
        None => true,
    }
}

proof fn lemma_rebase_prs_from(
    from: TapeView,
    t: TapeView,
    s: StackView,
    layers: Seq<usize>,
    base: Seq<char>,
    k: int,
    moved: Seq<u64>,
)
    requires
        0 <= k <= layers.len(),
        tape::only(from, t, |q: RequestView| moves_base(q, base)),
        forall|m: int| 0 <= m < k ==> base_given(t, s, #[trigger] layers[m] as int, base),
    ensures
        ({
            let (after, r) = rebase_prs_from(t, s, layers, base, k, moved);
            &&& tape::only(from, after, |q: RequestView| moves_base(q, base))
            &&& r is Ok ==> forall|m: int|
                0 <= m < layers.len() ==> base_given(after, s, #[trigger] layers[m] as int, base)
        }),
    decreases layers.len() - k,
{
    broadcast use tape::lemma_only_ask;

    if k < layers.len() {
        match s.layers[layers[k] as int].pr {
            None => lemma_rebase_prs_from(from, t, s, layers, base, k + 1, moved),
            Some(number) => {
                let q = RequestView::UpdatePullRequest { number, update: forge::base_update(base) };
                let (t1, r) = tape::ask_unit(t, q);
                if r is Ok {
                    let all = |q: RequestView| moves_base(q, base);
                    tape::lemma_only_start(t, all);
                    assert(tape::only(t, t1, all));
                    tape::lemma_said_stays(t, t1, all);
                    tape::lemma_told(t, q);
                    assert forall|m: int| 0 <= m < k + 1 implies base_given(
                        t1,
                        s,
                        #[trigger] layers[m] as int,
                        base,
                    ) by {
                        if m < k {
                            assert(base_given(t, s, layers[m] as int, base));
                        }
                    }
                    lemma_rebase_prs_from(from, t1, s, layers, base, k + 1, moved.push(number));
                }
            },
        }
    }
}

/// Before a pull request is closed, those on top of it get what it sat on as their
/// base. None of them is changed otherwise.
pub proof fn law_dependents_move_down(t: TapeView, s: StackView, layers: Seq<usize>, base: Seq<char>)
    ensures
        ({
            let (after, r) = rebase_prs_from(t, s, layers, base, 0, Seq::empty());
            &&& tape::only(t, after, |q: RequestView| moves_base(q, base))
            &&& r is Ok ==> forall|m: int|
                0 <= m < layers.len() ==> base_given(after, s, #[trigger] layers[m] as int, base)
        }),
{
    tape::lemma_only_start(t, |q: RequestView| moves_base(q, base));
    lemma_rebase_prs_from(t, t, s, layers, base, 0, Seq::empty());
}

} // verus!
