//! Bringing every pull request of a stack in line with the local commits.

use vstd::prelude::*;

use crate::config;
use crate::config::{Config, ConfigView};
use crate::data::{put, replace, Duplicate};
use crate::discovery;
use crate::discovery::TreesView;
use crate::engine;
use crate::engine::{
    decide, gather, reject_unusable, DecisionView, LayerAction, OptionsView, SyncOptions,
    AUTO_UPDATE_MESSAGE,
};
use crate::execution;
use crate::execution::{
    apply_message_edits, execute, messages_of, Context, ContextView, Executed, ExecutedView,
    LayerOutcome, OutcomeView,
};
use crate::forge::{PrState, PrView, RepoMergeSettings};
use crate::stack;
use crate::stack::{Dep, LayerView, Stack, StackView};
use crate::tape;
use crate::tape::{Halt, HaltView, Request, RequestView, Tape, TapeView};
use crate::text;
use crate::text::push_decimal;
use crate::trailers;
use crate::trailers::{MessageView, DEPENDS_ON, PULL_REQUEST};
use crate::upgrade;
use crate::upgrade::reject_if_legacy_spr_with_prs;

verus! {

/// The refusal of a layer that depends on a pull request that is neither in the
/// stack nor merged.
pub open spec fn unmerged_dep(subject: Seq<char>, number: u64) -> Seq<char> {
    "`"@ + subject + "` declares `"@ + DEPENDS_ON@ + ": #"@ + text::decimal(number as nat)
        + "`, but that pull request is neither in this stack nor merged.\nEither include its commit in the stack or point the trailer elsewhere."@
}

/// The stack with another dependency for layer `i`.
pub open spec fn with_dep(s: StackView, i: int, dep: Dep) -> StackView {
    StackView { layers: s.layers.update(i, LayerView { dep, ..s.layers[i] }), ..s }
}

/// The dependencies on pull requests outside the stack, from layer `i` on: a
/// merged one is the trunk, and anything else is refused.
pub open spec fn externals_from(t: TapeView, s: StackView, i: int) -> (
    TapeView,
    Result<StackView, HaltView>,
)
    decreases s.layers.len() - i,
{
    if i < 0 || i >= s.layers.len() {
        tape::done(t, s)
    } else {
        match s.layers[i].dep {
            Dep::ExternalPr(number) => tape::bind(
                tape::ask_pr(t, RequestView::GetPullRequest { number }),
                |t: TapeView, pr: PrView|
                    if pr.state == PrState::Merged {
                        externals_from(t, with_dep(s, i, Dep::Main), i + 1)
                    } else {
                        tape::refuse(t, unmerged_dep(s.layers[i].message.subject, number))
                    },
            ),
            _ => externals_from(t, s, i + 1),
        }
    }
}

/// Resolves `Depends-On:` references to pull requests outside the local stack.
///
/// A **merged** reference becomes [`Dep::Main`]. Anything else is an error: a
/// fall back to "previous layer" would silently re-stack the commit onto a
/// sibling the author explicitly disclaimed.
pub fn resolve_external_deps(t: &mut Tape, stack: &Stack) -> (r: Result<Stack, Halt>)
    requires
        stack::well_formed(stack@),
    ensures
        (final(t)@, tape::outcome(r)) == externals_from(old(t)@, stack@, 0),
        r matches Ok(s) ==> stack::well_formed(s@) && s@.layers.len() == stack@.layers.len(),
{
    let mut out = stack.duplicate();
    let mut i: usize = 0;
    while i < out.layers.len()
        invariant
            i <= out.layers@.len() == stack@.layers.len(),
            stack::well_formed(out@),
            externals_from(t@, out@, i as int) == externals_from(old(t)@, stack@, 0),
        decreases out.layers@.len() - i,
    {
        let ghost before = out@;
        assert(out@.layers[i as int] == out.layers@[i as int].deep_view());
        match out.layers[i].dep {
            Dep::ExternalPr(number) => {
                let pr = t.pr(Request::GetPullRequest { number })?;
                if pr.state != PrState::Merged {
                    let mut reason = "`".to_owned();
                    reason.append(out.layers[i].subject());
                    reason.append("` declares `");
                    reason.append(DEPENDS_ON);
                    reason.append(": #");
                    push_decimal(&mut reason, number);
                    reason.append(
                        "`, but that pull request is neither in this stack nor merged.\nEither include its commit in the stack or point the trailer elsewhere.",
                    );
                    return Err(Halt::Refused(reason));
                }
                let mut layer = out.layers[i].duplicate();
                layer.dep = Dep::Main;
                replace(&mut out.layers, i, layer);
                assert(out@ == with_dep(before, i as int, Dep::Main));
                assert forall|m: int| #![trigger out@.layers[m]] 0 <= m < out@.layers.len() implies (
                match out@.layers[m].dep {
                    Dep::Layer(j) => j < m,
                    _ => true,
                }) by {
                    if m != i {
                        assert(out@.layers[m] == before.layers[m]);
                    }
                }
            },
            _ => {},
        }
        i = i + 1;
    }
    Ok(out)
}

/// A layer of the stack has the pull request.
pub open spec fn claimed(s: StackView, number: u64) -> bool {
    exists|k: int| 0 <= k < s.layers.len() && (#[trigger] s.layers[k]).pr == Some(number)
}

fn is_claimed(stack: &Stack, number: u64) -> (r: bool)
    ensures
        r == claimed(stack@, number),
{
    let mut k: usize = 0;
    while k < stack.layers.len()
        invariant
            k <= stack.layers@.len(),
            forall|m: int| 0 <= m < k ==> (#[trigger] stack@.layers[m]).pr != Some(number),
        decreases stack.layers@.len() - k,
    {
        assert(stack@.layers[k as int].pr == stack.layers@[k as int].pr);
        match stack.layers[k].pr {
            Some(n) => if n == number {
                return true;
            },
            None => {},
        }
        k = k + 1;
    }
    false
}

/// The pull request that layer `i`, which names none, is to go on with: the
/// open one on the branch that the layer would like to have, if the user says
/// so.
pub open spec fn relink_of(t: TapeView, c: ConfigView, s: StackView, i: int) -> (
    TapeView,
    Result<Option<u64>, HaltView>,
) {
    let subject = s.layers[i].message.subject;
    tape::bind(
        tape::ask_maybe_pr(
            t,
            RequestView::FindByHead { head: config::preferred_branch(c, subject) },
        ),
        |t: TapeView, found: Option<PrView>|
            match found {
                None => tape::done(t, None),
                Some(pr) => if pr.state != PrState::Open || claimed(s, pr.number) {
                    tape::done(t, None)
                } else {
                    tape::bind(
                        tape::ask_flag(
                            t,
                            RequestView::ConfirmRelink {
                                subject,
                                number: pr.number,
                                title: pr.title,
                                branch: pr.head,
                            },
                        ),
                        |t: TapeView, yes: bool|
                            tape::done(
                                t,
                                if yes {
                                    Some(pr.number)
                                } else {
                                    None
                                },
                            ),
                    )
                },
            },
    )
}

fn find_relink(t: &mut Tape, config: &Config, stack: &Stack, i: usize) -> (r: Result<
    Option<u64>,
    Halt,
>)
    requires
        i < stack@.layers.len(),
    ensures
        (final(t)@, tape::outcome(r)) == relink_of(old(t)@, config@, stack@, i as int),
{
    let layer = &stack.layers[i];
    assert(stack@.layers[i as int] == layer.deep_view());
    let head = config.branch_name_for(layer.subject());
    match t.maybe_pr(Request::FindByHead { head })? {
        None => Ok(None),
        Some(pr) => {
            if pr.state != PrState::Open || is_claimed(stack, pr.number) {
                return Ok(None);
            }
            let number = pr.number;
            let yes = t.flag(
                Request::ConfirmRelink {
                    subject: layer.message.subject.clone(),
                    number,
                    title: pr.title,
                    branch: pr.head,
                },
            )?;
            if yes {
                Ok(Some(number))
            } else {
                Ok(None)
            }
        },
    }
}

/// The layers from `i` on that name no pull request, linked to the open ones
/// they go on with.
pub open spec fn relink_from(
    t: TapeView,
    c: ConfigView,
    opts: OptionsView,
    i: int,
    s: StackView,
    messages: Seq<MessageView>,
) -> (TapeView, Result<StackView, HaltView>)
    decreases s.layers.len() - i,
{
    if i < 0 || i >= s.layers.len() {
        execution::messages_edited(t, s, messages)
    } else if !engine::in_scope(opts, i) || s.layers[i].pr is Some {
        relink_from(t, c, opts, i + 1, s, messages)
    } else {
        tape::bind(
            relink_of(t, c, s, i),
            |t: TapeView, number: Option<u64>|
                match number {
                    None => relink_from(t, c, opts, i + 1, s, messages),
                    Some(number) => relink_from(
                        t,
                        c,
                        opts,
                        i + 1,
                        execution::with_pr(s, i, number),
                        messages.update(
                            i,
                            trailers::with_trailer(
                                messages[i],
                                PULL_REQUEST@,
                                config::pr_url(c, number),
                            ),
                        ),
                    ),
                },
        )
    }
}

/// The stack with its layers linked to the open pull requests they go on with,
/// unless the user was asked before.
pub open spec fn relinked(t: TapeView, c: ConfigView, opts: OptionsView, s: StackView) -> (
    TapeView,
    Result<StackView, HaltView>,
) {
    if opts.relink_asked {
        tape::done(t, s)
    } else {
        relink_from(t, c, opts, 0, s, s.layers.map_values(|l: LayerView| l.message))
    }
}

/// Links layers that have lost their `Pull-Request:` trailer to the pull
/// requests that are still open on their branches, where the user wants that.
pub fn recover_missing_pr_trailers(
    t: &mut Tape,
    config: &Config,
    stack: &Stack,
    opts: &mut SyncOptions,
) -> (r: Result<Stack, Halt>)
    requires
        stack::well_formed(stack@),
    ensures
        (final(t)@, tape::outcome(r)) == relinked(old(t)@, config@, old(opts)@, stack@),
        r is Ok ==> final(opts)@ == (OptionsView { relink_asked: true, ..old(opts)@ }),
        r matches Ok(s) ==> stack::well_formed(s@) && s@.layers.len() == stack@.layers.len(),
{
    if opts.relink_asked {
        return Ok(stack.duplicate());
    }
    let mut out = stack.duplicate();
    let mut messages = messages_of(stack);
    assert(messages.deep_view().len() == messages@.len());
    let mut i: usize = 0;
    while i < out.layers.len()
        invariant
            i <= out.layers@.len() == stack@.layers.len(),
            messages@.len() == out.layers@.len(),
            stack::well_formed(out@),
            opts@ == old(opts)@,
            !opts@.relink_asked,
            relink_from(t@, config@, opts@, i as int, out@, messages.deep_view()) == relinked(
                old(t)@,
                config@,
                old(opts)@,
                stack@,
            ),
        decreases out.layers@.len() - i,
    {
        let ghost before = out@;
        assert(out@.layers[i as int] == out.layers@[i as int].deep_view());
        let scoped = match opts.only_layer {
            Some(only) => only == i,
            None => true,
        };
        if scoped && out.layers[i].pr.is_none() {
            match find_relink(t, config, &out, i)? {
                Some(number) => {
                    let mut message = messages[i].duplicate();
                    message.set(PULL_REQUEST, config.pull_request_url(number).as_str());
                    replace(&mut messages, i, message);
                    let mut layer = out.layers[i].duplicate();
                    layer.pr = Some(number);
                    replace(&mut out.layers, i, layer);
                    assert(out@ == execution::with_pr(before, i as int, number));
                    assert forall|m: int| #![trigger out@.layers[m]]
                        0 <= m < out@.layers.len() implies (match out@.layers[m].dep {
                        Dep::Layer(j) => j < m,
                        _ => true,
                    }) by {
                        assert(out@.layers[m].dep == before.layers[m].dep);
                    }
                },
                None => {},
            }
        }
        i = i + 1;
    }
    let out = apply_message_edits(t, &out, &messages)?;
    opts.relink_asked = true;
    Ok(out)
}

/// One round over the stack: what is there, what is to be done, and doing it.
pub open spec fn round(
    t: TapeView,
    c: ConfigView,
    s: StackView,
    opts: OptionsView,
    first: bool,
) -> (TapeView, Result<ExecutedView, HaltView>) {
    tape::bind(
        discovery::trees_of(t, s),
        |t: TapeView, trees: TreesView|
            tape::bind(
                engine::gathered(t, s),
                |t: TapeView, prs: Seq<Option<PrView>>|
                    match engine::first_unusable(prs, 0) {
                        Some(reason) => tape::refuse(t, reason),
                        None => tape::bind(
                            if first {
                                upgrade::reject_from(t, c, s, prs, opts.only_layer, 0)
                            } else {
                                tape::done(t, ())
                            },
                            |t: TapeView, u: ()|
                                tape::bind(
                                    engine::decided(t, s, prs, trees, opts),
                                    |t: TapeView, decision: DecisionView|
                                        execution::executed(
                                            t,
                                            ContextView {
                                                config: c,
                                                stack: s,
                                                prs,
                                                trees,
                                                decision,
                                                opts,
                                            },
                                        ),
                                ),
                        ),
                    },
            ),
    )
}

fn run_round(t: &mut Tape, config: &Config, stack: &Stack, opts: &SyncOptions, first: bool) -> (r: Result<
    Executed,
    Halt,
>)
    requires
        stack::well_formed(stack@),
    ensures
        (final(t)@, tape::outcome(r)) == round(old(t)@, config@, stack@, opts@, first),
        r matches Ok(e) ==> stack::well_formed(e.stack@) && e.stack@.layers.len()
            == stack@.layers.len(),
{
    let trees = stack.all_trees(t)?;
    let prs = gather(t, stack)?;
    match reject_unusable(&prs) {
        Ok(()) => {},
        Err(reason) => {
            return Err(Halt::Refused(reason));
        },
    }
    if first {
        reject_if_legacy_spr_with_prs(t, config, stack, &prs, opts.only_layer)?;
    }
    let decision = decide(t, stack, &prs, &trees, opts)?;
    execute(
        t,
        &Context { config, stack, prs: &prs, trees: &trees, decision: &decision, opts },
    )
}

/// What two rounds did to a layer.
pub open spec fn both_actions(first: LayerAction, second: LayerAction) -> LayerAction {
    if first == LayerAction::Created {
        LayerAction::Created
    } else if first == LayerAction::Updated || second == LayerAction::Updated {
        LayerAction::Updated
    } else if first == LayerAction::Refreshed || second == LayerAction::Refreshed {
        LayerAction::Refreshed
    } else {
        second
    }
}

fn both(first: LayerAction, second: LayerAction) -> (r: LayerAction)
    ensures
        r == both_actions(first, second),
{
    if first == LayerAction::Created {
        LayerAction::Created
    } else if first == LayerAction::Updated || second == LayerAction::Updated {
        LayerAction::Updated
    } else if first == LayerAction::Refreshed || second == LayerAction::Refreshed {
        LayerAction::Refreshed
    } else {
        second
    }
}

/// The first outcome from `k` on that is about a layer.
pub open spec fn outcome_index(outcomes: Seq<OutcomeView>, index: usize, k: int) -> Option<int>
    decreases outcomes.len() - k,
{
    if k < 0 || k >= outcomes.len() {
        None
    } else if outcomes[k].index == index {
        Some(k)
    } else {
        outcome_index(outcomes, index, k + 1)
    }
}

/// The outcomes of a round with one of the next round added.
pub open spec fn with_next(outcomes: Seq<OutcomeView>, next: OutcomeView) -> Seq<OutcomeView> {
    match outcome_index(outcomes, next.index, 0) {
        Some(k) => outcomes.update(
            k,
            OutcomeView {
                action: both_actions(outcomes[k].action, next.action),
                retargeted: outcomes[k].retargeted || next.retargeted,
                ..next
            },
        ),
        None => outcomes.push(next),
    }
}

/// The outcomes of two rounds.
pub open spec fn merged_outcomes(first: Seq<OutcomeView>, second: Seq<OutcomeView>, k: int) -> Seq<
    OutcomeView,
>
    decreases second.len() - k,
{
    if k < 0 || k >= second.len() {
        first
    } else {
        merged_outcomes(with_next(first, second[k]), second, k + 1)
    }
}

pub fn find_outcome(outcomes: &Vec<LayerOutcome>, index: usize) -> (r: Option<usize>)
    ensures
        match r {
            Some(k) => k < outcomes@.len() && outcome_index(outcomes.deep_view(), index, 0) == Some(
                k as int,
            ),
            None => outcome_index(outcomes.deep_view(), index, 0) is None,
        },
{
    let mut k: usize = 0;
    while k < outcomes.len()
        invariant
            k <= outcomes@.len(),
            outcome_index(outcomes.deep_view(), index, k as int) == outcome_index(
                outcomes.deep_view(),
                index,
                0,
            ),
        decreases outcomes@.len() - k,
    {
        assert(outcomes.deep_view()[k as int].index == outcomes@[k as int].index);
        if outcomes[k].index == index {
            return Some(k);
        }
        k = k + 1;
    }
    None
}

/// Puts the outcomes of two rounds together.
pub fn merge_outcomes(first: &Vec<LayerOutcome>, second: &Vec<LayerOutcome>) -> (r: Vec<
    LayerOutcome,
>)
    ensures
        r.deep_view() == merged_outcomes(first.deep_view(), second.deep_view(), 0),
{
    let mut merged = first.duplicate();
    let mut k: usize = 0;
    while k < second.len()
        invariant
            k <= second@.len(),
            merged_outcomes(merged.deep_view(), second.deep_view(), k as int) == merged_outcomes(
                first.deep_view(),
                second.deep_view(),
                0,
            ),
        decreases second@.len() - k,
    {
        let mut next = second[k].duplicate();
        assert(second.deep_view()[k as int] == next.deep_view());
        match find_outcome(&merged, next.index) {
            Some(m) => {
                assert(merged.deep_view()[m as int] == merged@[m as int].deep_view());
                next.action = both(merged[m].action, next.action);
                next.retargeted = merged[m].retargeted || next.retargeted;
                replace(&mut merged, m, next);
            },
            None => {
                put(&mut merged, next);
            },
        }
        k = k + 1;
    }
    merged
}

/// What a sync comes to.
pub struct Synced {
    pub stack: Stack,
    pub outcomes: Vec<LayerOutcome>,
}

#[verifier::ext_equal]
pub struct SyncedView {
    pub stack: StackView,
    pub outcomes: Seq<OutcomeView>,
}

impl DeepView for Synced {
    type V = SyncedView;

    open spec fn deep_view(&self) -> SyncedView {
        SyncedView { stack: self.stack@, outcomes: self.outcomes.deep_view() }
    }
}

/// The options of the second round: nothing is asked of the user again.
pub open spec fn catch_up_options(opts: OptionsView) -> OptionsView {
    OptionsView { refresh_when_behind: true, message: Some(AUTO_UPDATE_MESSAGE@), ..opts }
}

/// One round, and a second one where a layer was left behind its new base.
pub open spec fn rounds(t: TapeView, c: ConfigView, s: StackView, opts: OptionsView) -> (
    TapeView,
    Result<SyncedView, HaltView>,
) {
    tape::bind(
        round(t, c, s, opts, true),
        |t: TapeView, first: ExecutedView|
            if !first.staged {
                tape::done(t, SyncedView { stack: first.stack, outcomes: first.outcomes })
            } else {
                tape::bind(
                    round(t, c, first.stack, catch_up_options(opts), false),
                    |t: TapeView, second: ExecutedView|
                        tape::done(
                            t,
                            SyncedView {
                                stack: second.stack,
                                outcomes: merged_outcomes(first.outcomes, second.outcomes, 0),
                            },
                        ),
                )
            },
    )
}

/// Every pull request brought in line with the local stack.
pub open spec fn synced(t: TapeView, c: ConfigView, s: StackView, opts: OptionsView) -> (
    TapeView,
    Result<SyncedView, HaltView>,
) {
    tape::bind(
        externals_from(t, s, 0),
        |t: TapeView, s: StackView|
            tape::bind(
                relinked(t, c, opts, s),
                |t: TapeView, s: StackView|
                    tape::bind(
                        tape::ask_settings(t, RequestView::MergeSettings),
                        |t: TapeView, settings: RepoMergeSettings|
                            rounds(
                                t,
                                c,
                                s,
                                OptionsView {
                                    preserve_commit_history: config::preserve_resolved(
                                        c.preserve_commit_history,
                                        settings,
                                    ),
                                    relink_asked: true,
                                    ..opts
                                },
                            ),
                    ),
            ),
    )
}

/// Brings every layer's pull request in line with the local stack.
///
/// Deciding *which* layers to push has to happen before any push, because the
/// decision is made against the remote state as the reader currently sees it.
///
/// A layer may be parked at the merge base of its old and its new base branch
/// during the first round, so that the retarget never widens the displayed
/// diff. Once every pull request points at its new base branch, a second round
/// moves parked branches forward onto their new base tips.
pub fn sync_stack(t: &mut Tape, config: &Config, stack: &Stack, opts: &SyncOptions) -> (r: Result<
    Synced,
    Halt,
>)
    requires
        stack::well_formed(stack@),
    ensures
        (final(t)@, tape::outcome(r)) == synced(old(t)@, config@, stack@, opts@),
        r matches Ok(done) ==> stack::well_formed(done.stack@),
{
    let mut opts = opts.duplicate();
    let stack = resolve_external_deps(t, stack)?;
    let stack = recover_missing_pr_trailers(t, config, &stack, &mut opts)?;
    let settings = t.settings(Request::MergeSettings)?;
    opts.preserve_commit_history = config.preserve_commit_history.resolve(settings);
    let first = run_round(t, config, &stack, &opts, true)?;
    if !first.staged {
        return Ok(Synced { stack: first.stack, outcomes: first.outcomes });
    }
    let mut catch_up = opts.duplicate();
    catch_up.refresh_when_behind = true;
    // Never ask again; the patch is already up to date.
    catch_up.message = Some(AUTO_UPDATE_MESSAGE.to_owned());
    let second = run_round(t, config, &first.stack, &catch_up, false)?;
    let outcomes = merge_outcomes(&first.outcomes, &second.outcomes);
    Ok(Synced { stack: second.stack, outcomes })
}

proof fn lemma_externals_from(t: TapeView, s: StackView, i: int, start: StackView)
    requires
        0 <= i <= s.layers.len(),
        s.layers.len() == start.layers.len(),
        s.base == start.base,
        forall|k: int|
            i <= k < s.layers.len() ==> #[trigger] s.layers[k] == start.layers[k],
        forall|k: int|
            0 <= k < i ==> #[trigger] s.layers[k] == settled_layer(start.layers[k]),
    ensures
        externals_from(t, s, i).1 matches Ok(r) ==> r.base == start.base && r.layers.len()
            == start.layers.len() && (forall|k: int|
            0 <= k < r.layers.len() ==> #[trigger] r.layers[k] == settled_layer(start.layers[k])),
    decreases s.layers.len() - i,
{
    if i < s.layers.len() {
        assert(s.layers[i] == start.layers[i]);
        match s.layers[i].dep {
            Dep::ExternalPr(number) => {
                let (t1, pr) = tape::ask_pr(t, RequestView::GetPullRequest { number });
                if pr is Ok && (pr->Ok_0).state == PrState::Merged {
                    let next = with_dep(s, i, Dep::Main);
                    lemma_externals_from(t1, next, i + 1, start);
                    assert(externals_from(t, s, i) == externals_from(t1, next, i + 1));
                }
            },
            _ => lemma_externals_from(t, s, i + 1, start),
        }
    }
}

/// A layer that no longer depends on a pull request outside the stack.
pub open spec fn settled_layer(l: LayerView) -> LayerView {
    LayerView {
        dep: if l.dep is ExternalPr {
            Dep::Main
        } else {
            l.dep
        },
        ..l
    }
}

/// The stack without dependencies on pull requests outside it.
pub open spec fn settled(s: StackView) -> StackView {
    StackView { layers: s.layers.map_values(|l: LayerView| settled_layer(l)), ..s }
}

/// Once the references to pull requests outside the stack are resolved, no layer
/// has one: each of them became the trunk, and never the layer before it. Nothing
/// else about the stack changes.
pub proof fn law_externals_become_trunk(t: TapeView, s: StackView)
    ensures
        externals_from(t, s, 0).1 matches Ok(r) ==> r.base == s.base && r.layers.len()
            == s.layers.len() && (forall|k: int|
            0 <= k < r.layers.len() ==> #[trigger] r.layers[k] == settled_layer(s.layers[k])),
{
    lemma_externals_from(t, s, 0, s);
}

/// A pull request outside the stack that is not merged stops the run.
pub proof fn law_unmerged_external_is_refused(t: TapeView, s: StackView, i: int, number: u64)
    requires
        0 <= i < s.layers.len(),
        s.layers[i].dep == Dep::ExternalPr(number),
    ensures
        tape::ask_pr(t, RequestView::GetPullRequest { number }).1 matches Ok(pr) ==> (pr.state
            != PrState::Merged ==> externals_from(t, s, i).1 == Err::<StackView, HaltView>(
            HaltView::Refused(unmerged_dep(s.layers[i].message.subject, number)),
        )),
{
}

pub broadcast proof fn lemma_externals_from_only(
    from: TapeView,
    t: TapeView,
    s: StackView,
    i: int,
    allowed: spec_fn(RequestView) -> bool,
)
    requires
        #[trigger] tape::only(from, t, allowed),
        tape::may_look(allowed),
    ensures
        tape::only(from, (#[trigger] externals_from(t, s, i)).0, allowed),
    decreases s.layers.len() - i,
{
    broadcast use tape::lemma_only_ask;

    if 0 <= i < s.layers.len() {
        match s.layers[i].dep {
            Dep::ExternalPr(number) => {
                let (t1, pr) = tape::ask_pr(t, RequestView::GetPullRequest { number });
                if pr is Ok {
                    lemma_externals_from_only(
                        from,
                        t1,
                        with_dep(s, i, Dep::Main),
                        i + 1,
                        allowed,
                    );
                }
            },
            _ => lemma_externals_from_only(from, t, s, i + 1, allowed),
        }
    }
}

/// Where every layer has its pull request, nobody is asked for one.
pub proof fn law_linked_stack_is_not_relinked(
    t: TapeView,
    c: ConfigView,
    opts: OptionsView,
    s: StackView,
)
    requires
        forall|k: int| 0 <= k < s.layers.len() ==> (#[trigger] s.layers[k]).pr is Some,
    ensures
        relinked(t, c, opts, s) == (t, Ok::<StackView, HaltView>(s)),
{
    let messages = s.layers.map_values(|l: LayerView| l.message);
    lemma_linked_from(t, c, opts, 0, s, messages);
    assert(execution::messages_match(s, messages));
}

proof fn lemma_linked_from(
    t: TapeView,
    c: ConfigView,
    opts: OptionsView,
    i: int,
    s: StackView,
    messages: Seq<MessageView>,
)
    requires
        0 <= i <= s.layers.len(),
        forall|k: int| 0 <= k < s.layers.len() ==> (#[trigger] s.layers[k]).pr is Some,
    ensures
        relink_from(t, c, opts, i, s, messages) == execution::messages_edited(t, s, messages),
    decreases s.layers.len() - i,
{
    if i < s.layers.len() {
        assert(s.layers[i].pr is Some);
        lemma_linked_from(t, c, opts, i + 1, s, messages);
    }
}

/// Linking layers to pull requests keeps what they depend on.
pub proof fn lemma_relinked(t: TapeView, c: ConfigView, opts: OptionsView, s: StackView)
    requires
        stack::well_formed(s),
    ensures
        relinked(t, c, opts, s).1 matches Ok(r) ==> stack::well_formed(r) && r.layers.len()
            == s.layers.len(),
{
    lemma_relink_from(t, c, opts, 0, s, s.layers.map_values(|l: LayerView| l.message));
}

proof fn lemma_relink_from(
    t: TapeView,
    c: ConfigView,
    opts: OptionsView,
    i: int,
    s: StackView,
    messages: Seq<MessageView>,
)
    requires
        0 <= i <= s.layers.len(),
        stack::well_formed(s),
    ensures
        relink_from(t, c, opts, i, s, messages).1 matches Ok(r) ==> stack::well_formed(r)
            && r.layers.len() == s.layers.len(),
    decreases s.layers.len() - i,
{
    if i < s.layers.len() {
        if !engine::in_scope(opts, i) || s.layers[i].pr is Some {
            lemma_relink_from(t, c, opts, i + 1, s, messages);
        } else {
            let (t1, number) = relink_of(t, c, s, i);
            if number is Ok {
                match number->Ok_0 {
                    None => lemma_relink_from(t1, c, opts, i + 1, s, messages),
                    Some(number) => {
                        let next = execution::with_pr(s, i, number);
                        assert forall|m: int| #![trigger next.layers[m]]
                            0 <= m < next.layers.len() implies (match next.layers[m].dep {
                            Dep::Layer(j) => j < m,
                            _ => true,
                        }) by {
                            assert(next.layers[m].dep == s.layers[m].dep);
                        }
                        lemma_relink_from(
                            t1,
                            c,
                            opts,
                            i + 1,
                            next,
                            messages.update(
                                i,
                                trailers::with_trailer(
                                    messages[i],
                                    PULL_REQUEST@,
                                    config::pr_url(c, number),
                                ),
                            ),
                        );
                    },
                }
            }
        }
    } else {
        let r = execution::messages_edited(t, s, messages).1;
        if r is Ok {
            let r = r->Ok_0;
            assert forall|m: int| #![trigger r.layers[m]] 0 <= m < r.layers.len() implies (
            match r.layers[m].dep {
                Dep::Layer(j) => j < m,
                _ => true,
            }) by {
                assert(r.layers[m].dep == s.layers[m].dep);
            }
        }
    }
}

} // verus!
