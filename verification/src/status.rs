//! What the stack looks like, and what the next `diff` would do.
//!
//! Whether a layer is stale is not computed here. It comes from the engine's
//! own decision, so the status can never disagree with what `diff` actually
//! does.

use vstd::prelude::*;

use crate::config;
use crate::config::{Config, ConfigView};
use crate::data::{nothing, put};
use crate::discovery;
use crate::discovery::TreesView;
use crate::engine;
use crate::engine::{
    decide, gather, pr_message_differs_from, Decision, DecisionView, LayerAction, OptionsView,
    SyncOptions,
};
use crate::execution::{LayerOutcome, OutcomeView};
use crate::forge::{
    MergeState, Mergeable, PrState, PrView, PullRequest, RepoMergeSettings,
};
use crate::paint;
use crate::paint::{
    colors_enabled, pad, push_spaces, truncate, widest_of, width, Hue, Paint, Side,
};
use crate::stack;
use crate::stack::{Dep, Stack, StackView};
use crate::syncing;
use crate::syncing::find_outcome;
use crate::tape;
use crate::tape::{Halt, HaltView, Request, RequestView, Tape, TapeView};
use crate::text;
use crate::text::{chars_of, join_texts, lower_char, push_decimal, same};
use crate::upgrade;
use crate::upgrade::is_spr_layer;

verus! {

#[derive(Debug, Clone, Copy, PartialEq, Eq, Structural)]
pub enum LayerState {
    /// No pull request yet.
    New,
    /// Up to date on the forge.
    Current,
    /// The local commit says something different from what readers see.
    Modified,
    /// The patch is unchanged, but the branch must move anyway, usually because
    /// something it depends on did.
    NeedsRestack,
    /// Created by `spr`; needs `nspr upgrade` to convert to native stacking.
    LegacySpr,
    Merged,
    Closed,
}

/// How a state is called.
pub open spec fn state_label(state: LayerState) -> Seq<char> {
    match state {
        LayerState::New => "new"@,
        LayerState::Current => "ok"@,
        LayerState::Modified => "modified"@,
        LayerState::NeedsRestack => "restack"@,
        LayerState::LegacySpr => "spr (run `nspr upgrade`)"@,
        LayerState::Merged => "merged"@,
        LayerState::Closed => "closed"@,
    }
}

impl LayerState {
    pub fn label(&self) -> (r: &'static str)
        ensures
            r@ == state_label(*self),
    {
        match self {
            LayerState::New => "new",
            LayerState::Current => "ok",
            LayerState::Modified => "modified",
            LayerState::NeedsRestack => "restack",
            LayerState::LegacySpr => "spr (run `nspr upgrade`)",
            LayerState::Merged => "merged",
            LayerState::Closed => "closed",
        }
    }
}

#[derive(Debug, Clone)]
pub struct LayerStatus {
    pub index: usize,
    pub subject: String,
    pub number: Option<u64>,
    pub url: Option<String>,
    pub branch: Option<String>,
    /// The base branch on the forge right now, which may not be the base the
    /// local stack implies.
    pub base: Option<String>,
    /// What the base *should* be (branch name on the forge).
    pub wanted_base: String,
    /// Short, human-readable label for `wanted_base` (e.g. `#225127` or `main`).
    pub wanted_base_label: String,
    pub state: LayerState,
    pub draft: bool,
    pub auto_merge: bool,
    pub conflicting: bool,
    pub behind: bool,
    pub message_differs: bool,
    /// Ready to land: depends on nothing but the trunk.
    pub landable: bool,
    /// The layer this one is stacked on, if any.
    pub dep: Dep,
}

#[verifier::ext_equal]
pub struct LayerStatusView {
    pub index: usize,
    pub subject: Seq<char>,
    pub number: Option<u64>,
    pub url: Option<Seq<char>>,
    pub branch: Option<Seq<char>>,
    pub base: Option<Seq<char>>,
    pub wanted_base: Seq<char>,
    pub wanted_base_label: Seq<char>,
    pub state: LayerState,
    pub draft: bool,
    pub auto_merge: bool,
    pub conflicting: bool,
    pub behind: bool,
    pub message_differs: bool,
    pub landable: bool,
    pub dep: Dep,
}

impl DeepView for LayerStatus {
    type V = LayerStatusView;

    open spec fn deep_view(&self) -> LayerStatusView {
        LayerStatusView {
            index: self.index,
            subject: self.subject@,
            number: self.number,
            url: self.url.deep_view(),
            branch: self.branch.deep_view(),
            base: self.base.deep_view(),
            wanted_base: self.wanted_base@,
            wanted_base_label: self.wanted_base_label@,
            state: self.state,
            draft: self.draft,
            auto_merge: self.auto_merge,
            conflicting: self.conflicting,
            behind: self.behind,
            message_differs: self.message_differs,
            landable: self.landable,
            dep: self.dep,
        }
    }
}

#[derive(Debug, Clone)]
pub struct StackStatus {
    pub trunk: String,
    pub layers: Vec<LayerStatus>,
}

#[verifier::ext_equal]
pub struct StatusView {
    pub trunk: Seq<char>,
    pub layers: Seq<LayerStatusView>,
}

impl DeepView for StackStatus {
    type V = StatusView;

    open spec fn deep_view(&self) -> StatusView {
        StatusView { trunk: self.trunk@, layers: self.layers.deep_view() }
    }
}

impl View for StackStatus {
    type V = StatusView;

    open spec fn view(&self) -> StatusView {
        self.deep_view()
    }
}

/// The base branch that layer `i` should have, and how it is called.
pub open spec fn wanted(c: ConfigView, s: StackView, prs: Seq<Option<PrView>>, i: int) -> (
    Seq<char>,
    Seq<char>,
) {
    match s.layers[i].dep {
        Dep::Main => (c.trunk, c.trunk),
        Dep::ExternalPr(n) => (c.trunk, "#"@ + text::decimal(n as nat)),
        Dep::Layer(j) => (
            match (s.layers[j as int].pr, prs[j as int]) {
                (Some(n), Some(pr)) => if pr.number == n {
                    pr.head
                } else {
                    "?"@
                },
                _ => "?"@,
            },
            match s.layers[j as int].pr {
                Some(n) => "#"@ + text::decimal(n as nat),
                None => "layer "@ + text::decimal((j + 1) as nat),
            },
        ),
    }
}

fn find_wanted(config: &Config, stack: &Stack, prs: &Vec<Option<PullRequest>>, i: usize) -> (r: (
    String,
    String,
))
    requires
        i < stack@.layers.len() == prs@.len(),
        stack::well_formed(stack@),
    ensures
        (r.0@, r.1@) == wanted(config@, stack@, prs.deep_view(), i as int),
{
    let n: usize = stack.layers.len();
    assert(stack@.layers[i as int] == stack.layers@[i as int].deep_view());
    match stack.layers[i].dep {
        Dep::Main => (config.trunk.clone(), config.trunk.clone()),
        Dep::ExternalPr(n) => {
            let mut label = "#".to_owned();
            push_decimal(&mut label, n);
            (config.trunk.clone(), label)
        },
        Dep::Layer(j) => {
            assert(stack@.layers[j as int] == stack.layers@[j as int].deep_view());
            assert(prs.deep_view()[j as int] == prs@[j as int].deep_view());
            let branch = match (stack.layers[j].pr, &prs[j]) {
                (Some(n), Some(pr)) => if pr.number == n {
                    pr.head.clone()
                } else {
                    "?".to_owned()
                },
                _ => "?".to_owned(),
            };
            let label = match stack.layers[j].pr {
                Some(n) => {
                    let mut label = "#".to_owned();
                    push_decimal(&mut label, n);
                    label
                },
                None => {
                    let mut label = "layer ".to_owned();
                    push_decimal(&mut label, (j + 1) as u64);
                    label
                },
            };
            (branch, label)
        },
    }
}

/// The state of layer `i`, whose pull request is open and was not made by
/// `spr`.
pub open spec fn open_state(d: DecisionView, i: int, update_message: bool, differs: bool) -> LayerState {
    if d.patch_changed[i] || (d.message_changed[i] && (!d.github_message_edited[i]
        || update_message)) || (update_message && differs) {
        LayerState::Modified
    } else if d.push[i] {
        LayerState::NeedsRestack
    } else {
        LayerState::Current
    }
}

/// The state of layer `i`.
pub open spec fn layer_state(
    t: TapeView,
    c: ConfigView,
    s: StackView,
    prs: Seq<Option<PrView>>,
    d: DecisionView,
    update_message: bool,
    i: int,
) -> (TapeView, Result<LayerState, HaltView>) {
    match prs[i] {
        None => tape::done(t, LayerState::New),
        Some(pr) => match pr.state {
            PrState::Merged => tape::done(t, LayerState::Merged),
            PrState::Closed => tape::done(t, LayerState::Closed),
            PrState::Open => tape::bind(
                upgrade::spr_layer(t, c, s, prs, i, pr),
                |t: TapeView, legacy: bool|
                    tape::done(
                        t,
                        if legacy {
                            LayerState::LegacySpr
                        } else {
                            open_state(
                                d,
                                i,
                                update_message,
                                engine::message_differs(pr, s.layers[i].message),
                            )
                        },
                    ),
            ),
        },
    }
}

impl DeepView for LayerState {
    type V = LayerState;

    open spec fn deep_view(&self) -> LayerState {
        *self
    }
}

fn find_state(
    t: &mut Tape,
    config: &Config,
    stack: &Stack,
    prs: &Vec<Option<PullRequest>>,
    decision: &Decision,
    update_message: bool,
    i: usize,
) -> (r: Result<LayerState, Halt>)
    requires
        i < stack@.layers.len() == prs@.len(),
        stack::well_formed(stack@),
        engine::decides_for(decision.deep_view(), stack@),
    ensures
        (final(t)@, tape::outcome(r)) == layer_state(
            old(t)@,
            config@,
            stack@,
            prs.deep_view(),
            decision.deep_view(),
            update_message,
            i as int,
        ),
{
    assert(prs.deep_view()[i as int] == prs@[i as int].deep_view());
    assert(stack@.layers[i as int] == stack.layers@[i as int].deep_view());
    match &prs[i] {
        None => Ok(LayerState::New),
        Some(pr) => match pr.state {
            PrState::Merged => Ok(LayerState::Merged),
            PrState::Closed => Ok(LayerState::Closed),
            PrState::Open => {
                if is_spr_layer(t, stack, i, pr, prs, config)? {
                    return Ok(LayerState::LegacySpr);
                }
                let differs = pr_message_differs_from(pr, &stack.layers[i].message);
                if decision.patch_changed[i] || (decision.message_changed[i] && (
                !decision.github_message_edited[i] || update_message)) || (update_message
                    && differs) {
                    Ok(LayerState::Modified)
                } else if decision.push[i] {
                    Ok(LayerState::NeedsRestack)
                } else {
                    Ok(LayerState::Current)
                }
            },
        },
    }
}

/// What there is to show of layer `i`, whose state is known.
pub open spec fn status_of(
    c: ConfigView,
    s: StackView,
    prs: Seq<Option<PrView>>,
    i: int,
    state: LayerState,
) -> LayerStatusView {
    let layer = s.layers[i];
    let pr = prs[i];
    LayerStatusView {
        index: i as usize,
        subject: layer.message.subject,
        number: layer.pr,
        url: match layer.pr {
            Some(n) => Some(config::pr_url(c, n)),
            None => None,
        },
        branch: match pr {
            Some(pr) => Some(pr.head),
            None => None,
        },
        base: match pr {
            Some(pr) => Some(pr.base),
            None => None,
        },
        wanted_base: wanted(c, s, prs, i).0,
        wanted_base_label: wanted(c, s, prs, i).1,
        state,
        draft: pr is Some && pr->0.draft,
        auto_merge: pr is Some && pr->0.auto_merge,
        conflicting: pr is Some && pr->0.mergeable == Mergeable::Conflicting,
        behind: pr is Some && pr->0.merge_state == MergeState::Behind,
        message_differs: pr is Some && engine::message_differs(pr->0, layer.message),
        landable: layer.dep == Dep::Main && layer.pr is Some,
        dep: layer.dep,
    }
}

fn show_layer(
    config: &Config,
    stack: &Stack,
    prs: &Vec<Option<PullRequest>>,
    i: usize,
    state: LayerState,
) -> (r: LayerStatus)
    requires
        i < stack@.layers.len() == prs@.len(),
        stack::well_formed(stack@),
    ensures
        r.deep_view() == status_of(config@, stack@, prs.deep_view(), i as int, state),
{
    let layer = &stack.layers[i];
    assert(stack@.layers[i as int] == layer.deep_view());
    assert(prs.deep_view()[i as int] == prs@[i as int].deep_view());
    let (wanted_base, wanted_base_label) = find_wanted(config, stack, prs, i);
    let url = match layer.pr {
        Some(n) => Some(config.pull_request_url(n)),
        None => None,
    };
    let landable = layer.dep == Dep::Main && layer.pr.is_some();
    match &prs[i] {
        Some(pr) => LayerStatus {
            index: i,
            subject: layer.subject().to_owned(),
            number: layer.pr,
            url,
            branch: Some(pr.head.clone()),
            base: Some(pr.base.clone()),
            wanted_base,
            wanted_base_label,
            state,
            draft: pr.draft,
            auto_merge: pr.auto_merge,
            conflicting: pr.mergeable == Mergeable::Conflicting,
            behind: pr.merge_state == MergeState::Behind,
            message_differs: pr_message_differs_from(pr, &layer.message),
            landable,
            dep: layer.dep,
        },
        None => LayerStatus {
            index: i,
            subject: layer.subject().to_owned(),
            number: layer.pr,
            url,
            branch: None,
            base: None,
            wanted_base,
            wanted_base_label,
            state,
            draft: false,
            auto_merge: false,
            conflicting: false,
            behind: false,
            message_differs: false,
            landable,
            dep: layer.dep,
        },
    }
}

/// What there is to show of the layers from `i` on.
pub open spec fn statuses_from(
    t: TapeView,
    c: ConfigView,
    s: StackView,
    prs: Seq<Option<PrView>>,
    d: DecisionView,
    update_message: bool,
    i: int,
    layers: Seq<LayerStatusView>,
) -> (TapeView, Result<StatusView, HaltView>)
    decreases s.layers.len() - i,
{
    if i < 0 || i >= s.layers.len() {
        tape::done(t, StatusView { trunk: c.trunk, layers })
    } else {
        tape::bind(
            layer_state(t, c, s, prs, d, update_message, i),
            |t: TapeView, state: LayerState|
                statuses_from(
                    t,
                    c,
                    s,
                    prs,
                    d,
                    update_message,
                    i + 1,
                    layers.push(status_of(c, s, prs, i, state)),
                ),
        )
    }
}

/// The status of a stack for which it is already decided what to push.
pub fn from_parts(
    t: &mut Tape,
    config: &Config,
    stack: &Stack,
    prs: &Vec<Option<PullRequest>>,
    decision: &Decision,
    update_message: bool,
) -> (r: Result<StackStatus, Halt>)
    requires
        stack@.layers.len() == prs@.len(),
        stack::well_formed(stack@),
        engine::decides_for(decision.deep_view(), stack@),
    ensures
        (final(t)@, tape::outcome(r)) == statuses_from(
            old(t)@,
            config@,
            stack@,
            prs.deep_view(),
            decision.deep_view(),
            update_message,
            0,
            Seq::empty(),
        ),
{
    let mut layers: Vec<LayerStatus> = nothing();
    let mut i: usize = 0;
    while i < stack.layers.len()
        invariant
            i <= stack.layers@.len() == prs@.len(),
            stack::well_formed(stack@),
            engine::decides_for(decision.deep_view(), stack@),
            statuses_from(
                t@,
                config@,
                stack@,
                prs.deep_view(),
                decision.deep_view(),
                update_message,
                i as int,
                layers.deep_view(),
            ) == statuses_from(
                old(t)@,
                config@,
                stack@,
                prs.deep_view(),
                decision.deep_view(),
                update_message,
                0,
                Seq::empty(),
            ),
        decreases stack.layers@.len() - i,
    {
        let state = find_state(t, config, stack, prs, decision, update_message, i)?;
        put(&mut layers, show_layer(config, stack, prs, i, state));
        i = i + 1;
    }
    Ok(StackStatus { trunk: config.trunk.clone(), layers })
}

/// The options that a status is decided with.
pub open spec fn status_options(c: ConfigView, settings: RepoMergeSettings) -> OptionsView {
    OptionsView {
        preserve_commit_history: config::preserve_resolved(c.preserve_commit_history, settings),
        ..engine::default_options()
    }
}

/// The status of a stack.
pub open spec fn stack_status(t: TapeView, c: ConfigView, s: StackView) -> (
    TapeView,
    Result<StatusView, HaltView>,
) {
    tape::bind(
        discovery::trees_of(t, s),
        |t: TapeView, trees: TreesView|
            tape::bind(
                engine::gathered(t, s),
                |t: TapeView, prs: Seq<Option<PrView>>|
                    tape::bind(
                        tape::ask_settings(t, RequestView::MergeSettings),
                        |t: TapeView, settings: RepoMergeSettings|
                            tape::bind(
                                engine::decided(t, s, prs, trees, status_options(c, settings)),
                                |t: TapeView, d: DecisionView|
                                    statuses_from(t, c, s, prs, d, false, 0, Seq::empty()),
                            ),
                    ),
            ),
    )
}

/// Finds out how a stack stands.
pub fn status(t: &mut Tape, config: &Config, stack: &Stack) -> (r: Result<StackStatus, Halt>)
    requires
        stack::well_formed(stack@),
    ensures
        (final(t)@, tape::outcome(r)) == stack_status(old(t)@, config@, stack@),
{
    let trees = stack.all_trees(t)?;
    let prs = gather(t, stack)?;
    let settings = t.settings(Request::MergeSettings)?;
    let mut opts = SyncOptions::default();
    opts.preserve_commit_history = config.preserve_commit_history.resolve(settings);
    let decision = decide(t, stack, &prs, &trees, &opts)?;
    from_parts(t, config, stack, &prs, &decision, false)
}

/// How a table is drawn.
#[derive(Debug, Clone, Copy, PartialEq, Eq, Structural)]
pub struct Drawing {
    /// The message of every pull request is about to be updated.
    pub update_message: bool,
    pub use_unicode: bool,
    pub use_color: bool,
    /// Standard output takes colours.
    pub colors: bool,
    /// How many columns there are, if that is known.
    pub term_width: Option<usize>,
}

/// What stands for a layer in a table.
pub struct Look {
    pub glyph: &'static str,
    pub label: &'static str,
    pub glyph_paint: Paint,
    pub label_paint: Paint,
}

#[verifier::ext_equal]
pub struct LookView {
    pub glyph: Seq<char>,
    pub label: Seq<char>,
    pub glyph_paint: Paint,
    pub label_paint: Paint,
}

impl DeepView for Look {
    type V = LookView;

    open spec fn deep_view(&self) -> LookView {
        LookView {
            glyph: self.glyph@,
            label: self.label@,
            glyph_paint: self.glyph_paint,
            label_paint: self.label_paint,
        }
    }
}

/// A layer to which nothing was done.
pub open spec fn untouched_look(draft: bool) -> LookView {
    LookView {
        glyph: if draft {
            "◌"@
        } else {
            "●"@
        },
        label: "ok"@,
        glyph_paint: if draft {
            paint::dimmed()
        } else {
            paint::hued(Hue::Green)
        },
        label_paint: paint::hued(Hue::Green),
    }
}

/// A layer to which something was done.
pub open spec fn action_look(action: LayerAction, draft: bool) -> LookView {
    match action {
        LayerAction::Created => LookView {
            glyph: "○"@,
            label: "created"@,
            glyph_paint: paint::bold(Hue::Green),
            label_paint: paint::bold(Hue::Green),
        },
        LayerAction::Updated => LookView {
            glyph: "◉"@,
            label: "updated"@,
            glyph_paint: paint::bold(Hue::Yellow),
            label_paint: paint::bold(Hue::Yellow),
        },
        LayerAction::Refreshed => LookView {
            glyph: "◎"@,
            label: "restacked"@,
            glyph_paint: paint::hued(Hue::Cyan),
            label_paint: paint::hued(Hue::Cyan),
        },
        LayerAction::Skipped => untouched_look(draft),
    }
}

/// A layer in a state.
pub open spec fn state_look(state: LayerState, draft: bool) -> LookView {
    let label = state_label(state);
    match state {
        LayerState::Current => untouched_look(draft),
        LayerState::Modified => LookView {
            glyph: "◉"@,
            label,
            glyph_paint: paint::hued(Hue::Yellow),
            label_paint: paint::bold(Hue::Yellow),
        },
        LayerState::NeedsRestack => LookView {
            glyph: "◎"@,
            label,
            glyph_paint: paint::hued(Hue::Cyan),
            label_paint: paint::hued(Hue::Cyan),
        },
        LayerState::New => LookView {
            glyph: "○"@,
            label,
            glyph_paint: paint::bold(Hue::Green),
            label_paint: paint::bold(Hue::Green),
        },
        LayerState::Merged => LookView {
            glyph: "✔"@,
            label,
            glyph_paint: paint::hued(Hue::Magenta),
            label_paint: paint::hued(Hue::Magenta),
        },
        LayerState::Closed => LookView {
            glyph: "✕"@,
            label,
            glyph_paint: paint::hued(Hue::Red),
            label_paint: paint::hued(Hue::Red),
        },
        LayerState::LegacySpr => LookView {
            glyph: "⚠"@,
            label,
            glyph_paint: paint::bold(Hue::Yellow),
            label_paint: paint::bold(Hue::Yellow),
        },
    }
}

/// What was done to a layer, if a list says so.
pub open spec fn outcome_of(outcomes: Option<Seq<OutcomeView>>, index: usize) -> Option<OutcomeView> {
    match outcomes {
        None => None,
        Some(list) => match syncing::outcome_index(list, index, 0) {
            Some(k) => Some(list[k]),
            None => None,
        },
    }
}

/// What stands for a layer: what was done to it, or its state where nothing was
/// done to any.
pub open spec fn look_of(layer: LayerStatusView, outcomes: Option<Seq<OutcomeView>>) -> LookView {
    match outcome_of(outcomes, layer.index) {
        Some(o) => action_look(o.action, layer.draft),
        None => if outcomes is Some {
            untouched_look(layer.draft)
        } else {
            state_look(layer.state, layer.draft)
        },
    }
}

fn untouched(draft: bool) -> (r: Look)
    ensures
        r.deep_view() == untouched_look(draft),
{
    Look {
        glyph: if draft {
            "◌"
        } else {
            "●"
        },
        label: "ok",
        glyph_paint: if draft {
            Paint::dimmed()
        } else {
            Paint::hued(Hue::Green)
        },
        label_paint: Paint::hued(Hue::Green),
    }
}

fn look_for_action(action: LayerAction, draft: bool) -> (r: Look)
    ensures
        r.deep_view() == action_look(action, draft),
{
    match action {
        LayerAction::Created => Look {
            glyph: "○",
            label: "created",
            glyph_paint: Paint::bold(Hue::Green),
            label_paint: Paint::bold(Hue::Green),
        },
        LayerAction::Updated => Look {
            glyph: "◉",
            label: "updated",
            glyph_paint: Paint::bold(Hue::Yellow),
            label_paint: Paint::bold(Hue::Yellow),
        },
        LayerAction::Refreshed => Look {
            glyph: "◎",
            label: "restacked",
            glyph_paint: Paint::hued(Hue::Cyan),
            label_paint: Paint::hued(Hue::Cyan),
        },
        LayerAction::Skipped => untouched(draft),
    }
}

fn look_for_state(state: LayerState, draft: bool) -> (r: Look)
    ensures
        r.deep_view() == state_look(state, draft),
{
    let label = state.label();
    match state {
        LayerState::Current => untouched(draft),
        LayerState::Modified => Look {
            glyph: "◉",
            label,
            glyph_paint: Paint::hued(Hue::Yellow),
            label_paint: Paint::bold(Hue::Yellow),
        },
        LayerState::NeedsRestack => Look {
            glyph: "◎",
            label,
            glyph_paint: Paint::hued(Hue::Cyan),
            label_paint: Paint::hued(Hue::Cyan),
        },
        LayerState::New => Look {
            glyph: "○",
            label,
            glyph_paint: Paint::bold(Hue::Green),
            label_paint: Paint::bold(Hue::Green),
        },
        LayerState::Merged => Look {
            glyph: "✔",
            label,
            glyph_paint: Paint::hued(Hue::Magenta),
            label_paint: Paint::hued(Hue::Magenta),
        },
        LayerState::Closed => Look {
            glyph: "✕",
            label,
            glyph_paint: Paint::hued(Hue::Red),
            label_paint: Paint::hued(Hue::Red),
        },
        LayerState::LegacySpr => Look {
            glyph: "⚠",
            label,
            glyph_paint: Paint::bold(Hue::Yellow),
            label_paint: Paint::bold(Hue::Yellow),
        },
    }
}

/// The list of outcomes as far as there is one.
pub open spec fn outcomes_view(outcomes: Option<&Vec<LayerOutcome>>) -> Option<Seq<OutcomeView>> {
    match outcomes {
        Some(list) => Some(list.deep_view()),
        None => None,
    }
}

fn find_look(layer: &LayerStatus, outcomes: Option<&Vec<LayerOutcome>>) -> (r: Look)
    ensures
        r.deep_view() == look_of(layer.deep_view(), outcomes_view(outcomes)),
{
    match outcomes {
        None => look_for_state(layer.state, layer.draft),
        Some(list) => match find_outcome(list, layer.index) {
            Some(k) => {
                assert(list.deep_view()[k as int] == list@[k as int].deep_view());
                look_for_action(list[k].action, layer.draft)
            },
            None => untouched(layer.draft),
        },
    }
}

/// A text, painted if colours are wanted.
pub open spec fn drawn(text: Seq<char>, look: Paint, how: Drawing) -> Seq<char> {
    if how.use_color {
        paint::painted(text, look, how.colors)
    } else {
        text
    }
}

fn draw(text: &str, look: Paint, how: Drawing) -> (r: String)
    ensures
        r@ == drawn(text@, look, how),
{
    if how.use_color {
        paint::paint(text, look, how.colors)
    } else {
        text.to_owned()
    }
}

pub open spec fn arrow(how: Drawing) -> Seq<char> {
    if how.use_unicode {
        "→"@
    } else {
        "->"@
    }
}

/// The number of a pull request, or a dash.
pub open spec fn number_cell(
    layer: LayerStatusView,
    outcomes: Option<Seq<OutcomeView>>,
    how: Drawing,
) -> Seq<char> {
    match (layer.number, outcome_of(outcomes, layer.index)) {
        (Some(n), _) => "#"@ + text::decimal(n as nat),
        (None, Some(o)) => "#"@ + text::decimal(o.number as nat),
        (None, None) => if how.use_unicode {
            "—"@
        } else {
            "-"@
        },
    }
}

pub open spec fn glyph_cell(
    layer: LayerStatusView,
    outcomes: Option<Seq<OutcomeView>>,
    how: Drawing,
) -> Seq<char> {
    let look = look_of(layer, outcomes);
    if how.use_unicode {
        drawn(look.glyph, look.glyph_paint, how)
    } else {
        "*"@
    }
}

pub open spec fn state_cell(
    layer: LayerStatusView,
    outcomes: Option<Seq<OutcomeView>>,
    how: Drawing,
) -> Seq<char> {
    let look = look_of(layer, outcomes);
    drawn(look.label, look.label_paint, how)
}

/// A list with one more badge, under a condition.
pub open spec fn with_badge(list: Seq<Seq<char>>, holds: bool, badge: Seq<char>) -> Seq<Seq<char>> {
    if holds {
        list.push(badge)
    } else {
        list
    }
}

/// What there is to say about the base branch of a layer.
pub open spec fn base_badge(
    trunk: Seq<char>,
    layer: LayerStatusView,
    outcomes: Option<Seq<OutcomeView>>,
    how: Drawing,
) -> Option<Seq<char>> {
    let o = outcome_of(outcomes, layer.index);
    if o is Some && o->0.retargeted {
        Some(
            drawn(
                "rebased "@ + arrow(how) + " "@ + layer.wanted_base_label,
                paint::hued(Hue::Magenta),
                how,
            ),
        )
    } else if layer.base is Some && layer.base->0 != layer.wanted_base {
        Some(
            drawn(
                "retarget "@ + arrow(how) + " "@ + layer.wanted_base_label,
                paint::hued(Hue::Magenta),
                how,
            ),
        )
    } else if layer.index > 0 && layer.dep == Dep::Main {
        Some(drawn("base: "@ + trunk, paint::hued(Hue::Blue), how))
    } else {
        None
    }
}

/// Everything worth knowing about a layer besides its state.
pub open spec fn badges_of(
    trunk: Seq<char>,
    layer: LayerStatusView,
    outcomes: Option<Seq<OutcomeView>>,
    how: Drawing,
) -> Seq<Seq<char>> {
    let b1 = with_badge(Seq::empty(), layer.draft, drawn("draft"@, paint::dimmed(), how));
    let b2 = with_badge(b1, layer.conflicting, drawn("conflicts"@, paint::bold(Hue::Red), how));
    let b3 = with_badge(b2, layer.behind, drawn("behind"@, paint::hued(Hue::Yellow), how));
    let b4 = with_badge(b3, layer.auto_merge, drawn("AUTO-MERGE"@, paint::bold(Hue::Red), how));
    let base = base_badge(trunk, layer, outcomes, how);
    let b5 = match base {
        Some(badge) => b4.push(badge),
        None => b4,
    };
    let b6 = with_badge(
        b5,
        layer.message_differs,
        if how.update_message {
            drawn("update message"@, paint::hued(Hue::Cyan), how)
        } else {
            drawn("message differs"@, paint::hued(Hue::Yellow), how)
        },
    );
    with_badge(b6, layer.landable, drawn("landable"@, paint::hued(Hue::Green), how))
}

pub open spec fn badges_cell(
    trunk: Seq<char>,
    layer: LayerStatusView,
    outcomes: Option<Seq<OutcomeView>>,
    how: Drawing,
) -> Seq<char> {
    text::join(badges_of(trunk, layer, outcomes, how), "  "@)
}

fn draw_number(layer: &LayerStatus, outcomes: Option<&Vec<LayerOutcome>>, how: Drawing) -> (r: String)
    ensures
        r@ == number_cell(layer.deep_view(), outcomes_view(outcomes), how),
{
    let known = match layer.number {
        Some(n) => Some(n),
        None => match outcomes {
            Some(list) => match find_outcome(list, layer.index) {
                Some(k) => {
                    assert(list.deep_view()[k as int] == list@[k as int].deep_view());
                    Some(list[k].number)
                },
                None => None,
            },
            None => None,
        },
    };
    match known {
        Some(n) => {
            let mut cell = "#".to_owned();
            push_decimal(&mut cell, n);
            cell
        },
        None => if how.use_unicode {
            "—".to_owned()
        } else {
            "-".to_owned()
        },
    }
}

fn draw_base_badge(
    trunk: &str,
    layer: &LayerStatus,
    outcomes: Option<&Vec<LayerOutcome>>,
    how: Drawing,
) -> (r: Option<String>)
    ensures
        r.deep_view() == base_badge(trunk@, layer.deep_view(), outcomes_view(outcomes), how),
{
    let retargeted = match outcomes {
        Some(list) => match find_outcome(list, layer.index) {
            Some(k) => {
                assert(list.deep_view()[k as int] == list@[k as int].deep_view());
                list[k].retargeted
            },
            None => false,
        },
        None => false,
    };
    let elsewhere = match &layer.base {
        Some(base) => !same(base.as_str(), layer.wanted_base.as_str()),
        None => false,
    };
    if retargeted || elsewhere {
        let mut badge = if retargeted {
            "rebased ".to_owned()
        } else {
            "retarget ".to_owned()
        };
        if how.use_unicode {
            badge.append("→");
        } else {
            badge.append("->");
        }
        badge.append(" ");
        badge.append(layer.wanted_base_label.as_str());
        Some(draw(badge.as_str(), Paint::hued(Hue::Magenta), how))
    } else if layer.index > 0 && layer.dep == Dep::Main {
        let mut badge = "base: ".to_owned();
        badge.append(trunk);
        Some(draw(badge.as_str(), Paint::hued(Hue::Blue), how))
    } else {
        None
    }
}

fn draw_badges(
    trunk: &str,
    layer: &LayerStatus,
    outcomes: Option<&Vec<LayerOutcome>>,
    how: Drawing,
) -> (r: String)
    ensures
        r@ == badges_cell(trunk@, layer.deep_view(), outcomes_view(outcomes), how),
{
    let mut badges: Vec<String> = nothing();
    if layer.draft {
        put(&mut badges, draw("draft", Paint::dimmed(), how));
    }
    if layer.conflicting {
        put(&mut badges, draw("conflicts", Paint::bold(Hue::Red), how));
    }
    if layer.behind {
        put(&mut badges, draw("behind", Paint::hued(Hue::Yellow), how));
    }
    if layer.auto_merge {
        put(&mut badges, draw("AUTO-MERGE", Paint::bold(Hue::Red), how));
    }
    match draw_base_badge(trunk, layer, outcomes, how) {
        Some(badge) => {
            put(&mut badges, badge);
        },
        None => {},
    }
    if layer.message_differs {
        if how.update_message {
            put(&mut badges, draw("update message", Paint::hued(Hue::Cyan), how));
        } else {
            put(&mut badges, draw("message differs", Paint::hued(Hue::Yellow), how));
        }
    }
    if layer.landable {
        put(&mut badges, draw("landable", Paint::hued(Hue::Green), how));
    }
    assert(text::views(badges@) =~= badges.deep_view());
    join_texts(&badges, "  ")
}

/// The columns of a table, one cell for each layer.
#[verifier::ext_equal]
pub struct ColumnsView {
    pub numbers: Seq<Seq<char>>,
    pub glyphs: Seq<Seq<char>>,
    pub states: Seq<Seq<char>>,
    pub badges: Seq<Seq<char>>,
}

/// The columns of a table, one cell for each layer.
pub struct Columns {
    pub numbers: Vec<String>,
    pub glyphs: Vec<String>,
    pub states: Vec<String>,
    pub badges: Vec<String>,
}

impl DeepView for Columns {
    type V = ColumnsView;

    open spec fn deep_view(&self) -> ColumnsView {
        ColumnsView {
            numbers: self.numbers.deep_view(),
            glyphs: self.glyphs.deep_view(),
            states: self.states.deep_view(),
            badges: self.badges.deep_view(),
        }
    }
}

pub open spec fn columns_of(st: StatusView, outcomes: Option<Seq<OutcomeView>>, how: Drawing) -> ColumnsView {
    ColumnsView {
        numbers: st.layers.map_values(|l: LayerStatusView| number_cell(l, outcomes, how)),
        glyphs: st.layers.map_values(|l: LayerStatusView| glyph_cell(l, outcomes, how)),
        states: st.layers.map_values(|l: LayerStatusView| state_cell(l, outcomes, how)),
        badges: st.layers.map_values(
            |l: LayerStatusView| badges_cell(st.trunk, l, outcomes, how),
        ),
    }
}

/// The widths of the columns.
#[derive(Debug, Clone, Copy, PartialEq, Eq, Structural)]
pub struct Widths {
    pub number: usize,
    pub state: usize,
    pub badges: usize,
}

pub open spec fn widths_of(c: ColumnsView) -> Widths {
    Widths {
        number: paint::widest(c.numbers, c.numbers.len() as int, 2),
        state: paint::widest(c.states, c.states.len() as int, 0),
        badges: paint::widest(c.badges, c.badges.len() as int, 0),
    }
}

/// How many columns of the terminal stand before the subject.
pub open spec fn prefix_width(w: Widths) -> int {
    if w.badges > 0 {
        2 + 1 + 2 + w.number + 2 + w.state + 2 + w.badges + 2
    } else {
        2 + 1 + 2 + w.number + 2 + w.state + 2
    }
}

/// The number of a pull request on the right side of its column, and a link to
/// its page where colours are wanted.
pub open spec fn number_shown(
    layer: LayerStatusView,
    number: Seq<char>,
    w: Widths,
    how: Drawing,
) -> Seq<char> {
    if !how.use_color {
        paint::padded(number, w.number, Side::Right)
    } else if layer.number is None {
        paint::padded(
            paint::painted(number, paint::dimmed(), how.colors),
            w.number,
            Side::Right,
        )
    } else {
        let missing = if paint::displayed_width(number) < w.number {
            (w.number - paint::displayed_width(number)) as nat
        } else {
            0
        };
        let colored = paint::painted(number, paint::bold(Hue::Cyan), how.colors);
        match layer.url {
            Some(url) => paint::spaces(missing) + "\x1b]8;;"@ + url + "\x1b\\"@ + colored
                + "\x1b]8;;\x1b\\"@,
            None => paint::spaces(missing) + colored,
        }
    }
}

/// The badges in their column, if any layer has one.
pub open spec fn badges_shown(badges: Seq<char>, w: Widths) -> Seq<char> {
    if w.badges > 0 {
        "  "@ + paint::padded(badges, w.badges, Side::Left)
    } else {
        Seq::empty()
    }
}

/// The subject, cut off where the terminal ends.
pub open spec fn subject_shown(layer: LayerStatusView, w: Widths, how: Drawing) -> Seq<char> {
    let fitted = match how.term_width {
        Some(cols) => if cols > prefix_width(w) + 8 {
            paint::truncated(
                layer.subject,
                (cols - prefix_width(w)) as usize,
                if how.use_unicode {
                    "…"@
                } else {
                    "..."@
                },
            )
        } else {
            layer.subject
        },
        None => layer.subject,
    };
    if how.use_color && layer.draft {
        paint::painted(fitted, paint::dimmed(), how.colors)
    } else {
        fitted
    }
}

/// One row of the table.
pub open spec fn row(st: StatusView, c: ColumnsView, w: Widths, how: Drawing, i: int) -> Seq<char> {
    "  "@ + c.glyphs[i] + "  "@ + number_shown(st.layers[i], c.numbers[i], w, how) + "  "@
        + paint::padded(c.states[i], w.state, Side::Left) + badges_shown(c.badges[i], w) + "  "@
        + subject_shown(st.layers[i], w, how) + "\n"@
}

/// The rows of the layers below `n` behind what is already there, from the top
/// of the stack down.
pub open spec fn rows_down(
    st: StatusView,
    c: ColumnsView,
    w: Widths,
    how: Drawing,
    n: int,
    out: Seq<char>,
) -> Seq<char>
    decreases n,
{
    if n <= 0 {
        out
    } else {
        rows_down(st, c, w, how, n - 1, out + row(st, c, w, how, n - 1))
    }
}

/// The row of the trunk, at the bottom.
pub open spec fn trunk_row(trunk: Seq<char>, how: Drawing) -> Seq<char> {
    "  "@ + (if how.use_unicode {
        drawn("┴─"@, paint::dimmed(), how)
    } else {
        "\\-"@
    }) + " "@ + drawn(trunk, paint::strong(), how) + "\n"@
}

/// The whole table.
pub open spec fn table(st: StatusView, outcomes: Option<Seq<OutcomeView>>, how: Drawing) -> Seq<char> {
    let c = columns_of(st, outcomes, how);
    rows_down(st, c, widths_of(c), how, st.layers.len() as int, Seq::empty()) + trunk_row(
        st.trunk,
        how,
    )
}

fn draw_trunk_row(trunk: &str, how: Drawing) -> (r: String)
    ensures
        r@ == trunk_row(trunk@, how),
{
    let mut out = "  ".to_owned();
    if how.use_unicode {
        out.append(draw("┴─", Paint::dimmed(), how).as_str());
    } else {
        out.append("\\-");
    }
    out.append(" ");
    out.append(draw(trunk, Paint::strong(), how).as_str());
    out.append("\n");
    out
}

fn show_number(layer: &LayerStatus, number: &str, w: Widths, how: Drawing) -> (r: String)
    ensures
        r@ == number_shown(layer.deep_view(), number@, w, how),
        how.use_color && paint::unmarked(number@) && uncoded_layer(layer.deep_view())
            ==> paint::closed(r@) && paint::unescaped(r@) == paint::padded(
            number@,
            w.number,
            Side::Right,
        ),
{
    proof {
        if paint::unmarked(number@) {
            paint::lemma_unmarked(number@);
            paint::lemma_painted(number@, paint::dimmed(), how.colors);
            paint::lemma_painted(number@, paint::bold(Hue::Cyan), how.colors);
            paint::lemma_filled_up(
                paint::painted(number@, paint::dimmed(), how.colors),
                paint::displayed_width(number@),
                w.number,
                Side::Right,
            );
        }
    }
    if !how.use_color {
        return pad(number, w.number, Side::Right);
    }
    if layer.number.is_none() {
        let faint = paint::paint(number, Paint::dimmed(), how.colors);
        return pad(faint.as_str(), w.number, Side::Right);
    }
    let columns = width(number);
    let missing: usize = if columns < w.number {
        w.number - columns
    } else {
        0
    };
    let colored = paint::paint(number, Paint::bold(Hue::Cyan), how.colors);
    let mut out = String::new();
    push_spaces(&mut out, missing);
    assert(out@ =~= paint::spaces(missing as nat));
    let ghost fill = out@;
    proof {
        if paint::unmarked(number@) && uncoded_layer(layer.deep_view()) {
            paint::lemma_spaces(missing as nat);
            match layer.deep_view().url {
                Some(url) => {
                    paint::lemma_linked(url, colored@);
                    let linked = "\x1b]8;;"@ + url + "\x1b\\"@ + colored@ + "\x1b]8;;\x1b\\"@;
                    paint::lemma_unescaped_concat(fill, linked);
                    assert(fill + linked =~= fill + "\x1b]8;;"@ + url + "\x1b\\"@ + colored@
                        + "\x1b]8;;\x1b\\"@);
                },
                None => paint::lemma_unescaped_concat(fill, colored@),
            }
            assert(fill + number@ =~= paint::padded(number@, w.number, Side::Right));
        }
    }
    match &layer.url {
        Some(url) => {
            out.append("\x1b]8;;");
            out.append(url.as_str());
            out.append("\x1b\\");
            out.append(colored.as_str());
            out.append("\x1b]8;;\x1b\\");
        },
        None => {
            out.append(colored.as_str());
        },
    }
    out
}

fn show_subject(layer: &LayerStatus, w: Widths, how: Drawing) -> (r: String)
    ensures
        r@ == subject_shown(layer.deep_view(), w, how),
        how.use_color && uncoded_layer(layer.deep_view()) ==> paint::closed(r@)
            && paint::unescaped(r@) == subject_shown(layer.deep_view(), w, bare(how)),
        // A plain subject fits behind the columns before it.
        how.term_width matches Some(cols) && cols > prefix_width(w) + 8 && !how.use_unicode && !(
        how.use_color && layer.draft) && paint::printable(layer.subject@) ==> prefix_width(w)
            + r@.len() <= how.term_width->0,
{
    let before: u128 = if w.badges > 0 {
        2 + 1 + 2 + w.number as u128 + 2 + w.state as u128 + 2 + w.badges as u128 + 2
    } else {
        2 + 1 + 2 + w.number as u128 + 2 + w.state as u128 + 2
    };
    let fitted = match how.term_width {
        Some(cols) => if cols as u128 > before + 8 {
            let room: usize = (cols as u128 - before) as usize;
            if how.use_unicode {
                truncate(layer.subject.as_str(), room, "…")
            } else {
                proof {
                    reveal_strlit("...");
                    assert(paint::printable("..."@));
                }
                truncate(layer.subject.as_str(), room, "...")
            }
        } else {
            layer.subject.clone()
        },
        None => layer.subject.clone(),
    };
    proof {
        if uncoded_layer(layer.deep_view()) {
            reveal_strlit("…");
            reveal_strlit("...");
            assert(paint::unmarked(fitted@));
            paint::lemma_unmarked(fitted@);
            paint::lemma_painted(fitted@, paint::dimmed(), how.colors);
        }
    }
    if how.use_color && layer.draft {
        paint::paint(fitted.as_str(), Paint::dimmed(), how.colors)
    } else {
        fitted
    }
}

/// Every column has a cell for each layer.
pub open spec fn filled(c: ColumnsView, n: int) -> bool {
    c.numbers.len() == n && c.glyphs.len() == n && c.states.len() == n && c.badges.len() == n
}

impl StackStatus {
    fn fill_columns(&self, outcomes: Option<&Vec<LayerOutcome>>, how: Drawing) -> (r: Columns)
        ensures
            r.deep_view() == columns_of(self@, outcomes_view(outcomes), how),
            filled(r.deep_view(), self@.layers.len() as int),
    {
        let ghost o = outcomes_view(outcomes);
        let ghost whole = columns_of(self@, o, how);
        let mut c = Columns {
            numbers: nothing(),
            glyphs: nothing(),
            states: nothing(),
            badges: nothing(),
        };
        let mut i: usize = 0;
        while i < self.layers.len()
            invariant
                i <= self.layers@.len(),
                o == outcomes_view(outcomes),
                whole == columns_of(self@, o, how),
                filled(c.deep_view(), i as int),
                c.deep_view().numbers =~= whole.numbers.take(i as int),
                c.deep_view().glyphs =~= whole.glyphs.take(i as int),
                c.deep_view().states =~= whole.states.take(i as int),
                c.deep_view().badges =~= whole.badges.take(i as int),
            decreases self.layers@.len() - i,
        {
            let layer = &self.layers[i];
            assert(self@.layers[i as int] == layer.deep_view());
            put(&mut c.numbers, draw_number(layer, outcomes, how));
            let look = find_look(layer, outcomes);
            let glyph = if how.use_unicode {
                draw(look.glyph, look.glyph_paint, how)
            } else {
                "*".to_owned()
            };
            put(&mut c.glyphs, glyph);
            put(&mut c.states, draw(look.label, look.label_paint, how));
            put(&mut c.badges, draw_badges(self.trunk.as_str(), layer, outcomes, how));
            i = i + 1;
        }
        assert(c.deep_view() =~= whole);
        c
    }

    fn draw_row(&self, c: &Columns, w: Widths, how: Drawing, i: usize) -> (r: String)
        requires
            i < self@.layers.len(),
            filled(c.deep_view(), self@.layers.len() as int),
        ensures
            r@ == row(self@, c.deep_view(), w, how, i as int),
            how.use_color && uncoded(self@) && clean(c.deep_view()) ==> paint::closed(r@)
                && paint::unescaped(r@) == row(
                self@,
                bared(c.deep_view()),
                w,
                bare(how),
                i as int,
            ),
    {
        let layer = &self.layers[i];
        assert(self@.layers[i as int] == layer.deep_view());
        assert(c.numbers.deep_view()[i as int] == c.numbers@[i as int]@);
        assert(c.glyphs.deep_view()[i as int] == c.glyphs@[i as int]@);
        assert(c.states.deep_view()[i as int] == c.states@[i as int]@);
        assert(c.badges.deep_view()[i as int] == c.badges@[i as int]@);
        let ghost cells = c.deep_view();
        let ghost judged = how.use_color && uncoded(self@) && clean(cells);
        let badges = if w.badges > 0 {
            let mut badges = "  ".to_owned();
            badges.append(pad(c.badges[i].as_str(), w.badges, Side::Left).as_str());
            badges
        } else {
            String::new()
        };
        assert(badges@ =~= badges_shown(c.badges@[i as int]@, w));
        let number = show_number(layer, c.numbers[i].as_str(), w, how);
        let state = pad(c.states[i].as_str(), w.state, Side::Left);
        let subject = show_subject(layer, w, how);
        proof {
            if judged {
                let k = i as int;
                assert(clean_row(cells, k));
                assert(uncoded_layer(self@.layers[k]));
                lemma_row(self@, cells, w, how, k, number@, state@, badges@, subject@);
            }
        }
        let mut out = "  ".to_owned();
        out.append(c.glyphs[i].as_str());
        out.append("  ");
        out.append(number.as_str());
        out.append("  ");
        out.append(state.as_str());
        out.append(badges.as_str());
        out.append("  ");
        out.append(subject.as_str());
        out.append("\n");
        out
    }

    /// Draws the table, knowing everything about the terminal that matters.
    pub fn draw_table(&self, outcomes: Option<&Vec<LayerOutcome>>, how: Drawing) -> (r: String)
        ensures
            r@ == table(self@, outcomes_view(outcomes), how),
            // Colour changes neither the text nor the alignment.
            how.use_color && uncoded(self@) ==> paint::unescaped(r@) == table(
                self@,
                outcomes_view(outcomes),
                bare(how),
            ),
    {
        let ghost o = outcomes_view(outcomes);
        let c = self.fill_columns(outcomes, how);
        let ghost cells = c.deep_view();
        let ghost judged = how.use_color && uncoded(self@);
        proof {
            if judged {
                lemma_columns(self@, o, how);
            }
        }
        let w = Widths {
            number: widest_of(&c.numbers, 2),
            state: widest_of(&c.states, 0),
            badges: widest_of(&c.badges, 0),
        };
        assert(c.numbers.deep_view().len() == c.numbers@.len());
        assert(c.states.deep_view().len() == c.states@.len());
        assert(c.badges.deep_view().len() == c.badges@.len());
        assert(w == widths_of(c.deep_view()));
        proof {
            if judged {
                assert(w == widths_of(bared(cells)));
                paint::lemma_unmarked(Seq::<char>::empty());
            }
        }
        let mut out = String::new();
        assert(out@ =~= Seq::<char>::empty());
        let mut n: usize = self.layers.len();
        assert(self@.layers.len() == n);
        while n > 0
            invariant
                n <= self@.layers.len(),
                filled(c.deep_view(), self@.layers.len() as int),
                rows_down(self@, c.deep_view(), w, how, n as int, out@) == rows_down(
                    self@,
                    c.deep_view(),
                    w,
                    how,
                    self@.layers.len() as int,
                    Seq::empty(),
                ),
                cells == c.deep_view(),
                judged ==> how.use_color && uncoded(self@) && clean(cells) && paint::closed(out@)
                    && rows_down(
                    self@,
                    bared(cells),
                    w,
                    bare(how),
                    n as int,
                    paint::unescaped(out@),
                ) == rows_down(
                    self@,
                    bared(cells),
                    w,
                    bare(how),
                    self@.layers.len() as int,
                    Seq::empty(),
                ),
            decreases n,
        {
            n = n - 1;
            let line = self.draw_row(&c, w, how, n);
            proof {
                if judged {
                    paint::lemma_unescaped_concat(out@, line@);
                }
            }
            out.append(line.as_str());
        }
        let trunk = draw_trunk_row(self.trunk.as_str(), how);
        proof {
            if judged {
                lemma_trunk_row(self@.trunk, how);
                paint::lemma_unescaped_concat(out@, trunk@);
            }
        }
        out.append(trunk.as_str());
        out
    }

    /// Draws the table after something was done to the layers, or the plain
    /// table if there is no list of outcomes.
    ///
    /// Whether colours that are wanted are really shown is for the terminal and
    /// the environment to say.
    pub fn render_table(
        &self,
        outcomes: Option<&Vec<LayerOutcome>>,
        use_unicode: bool,
        use_color: bool,
        term_width: Option<usize>,
    ) -> (r: String)
        ensures
            exists|colors: bool|
                r@ == #[trigger] table(
                    self@,
                    outcomes_view(outcomes),
                    (Drawing { update_message: false, use_unicode, use_color, colors, term_width }),
                ),
            !use_color ==> r@ == table(
                self@,
                outcomes_view(outcomes),
                (Drawing {
                    update_message: false,
                    use_unicode,
                    use_color,
                    colors: false,
                    term_width,
                }),
            ),
            // Colour changes neither the text nor the alignment.
            use_color && uncoded(self@) ==> paint::unescaped(r@) == table(
                self@,
                outcomes_view(outcomes),
                (Drawing {
                    update_message: false,
                    use_unicode,
                    use_color: false,
                    colors: false,
                    term_width,
                }),
            ),
    {
        proof {
            let how = Drawing {
                update_message: false,
                use_unicode,
                use_color: false,
                colors: false,
                term_width,
            };
            lemma_colors_do_not_matter(self@, outcomes_view(outcomes), how, true);
        }
        let colors = if use_color {
            colors_enabled()
        } else {
            false
        };
        self.draw_table(
            outcomes,
            Drawing { update_message: false, use_unicode, use_color, colors, term_width },
        )
    }

    /// Draws the table without any outcomes.
    pub fn render_with_options(
        &self,
        use_unicode: bool,
        use_color: bool,
        term_width: Option<usize>,
    ) -> (r: String)
        ensures
            exists|colors: bool|
                r@ == #[trigger] table(
                    self@,
                    None,
                    (Drawing { update_message: false, use_unicode, use_color, colors, term_width }),
                ),
            !use_color ==> r@ == table(
                self@,
                None,
                (Drawing {
                    update_message: false,
                    use_unicode,
                    use_color,
                    colors: false,
                    term_width,
                }),
            ),
            use_color && uncoded(self@) ==> paint::unescaped(r@) == table(
                self@,
                None,
                (Drawing {
                    update_message: false,
                    use_unicode,
                    use_color: false,
                    colors: false,
                    term_width,
                }),
            ),
    {
        self.render_table(None, use_unicode, use_color, term_width)
    }
}

/// What is known of standard output.
#[derive(Debug, Clone, Copy, PartialEq, Eq, Structural)]
pub struct Terminal {
    /// It is a terminal at all.
    pub is_tty: bool,
    /// It takes colours.
    pub colors: bool,
    /// It shows other characters than ASCII.
    pub unicode: bool,
    /// How many columns it has, if that is known.
    pub columns: Option<usize>,
}

/// A table on a terminal: plain, and as wide as it gets, where it is none.
pub open spec fn drawing_on(terminal: Terminal, update_message: bool) -> Drawing {
    Drawing {
        update_message,
        use_unicode: terminal.is_tty && terminal.unicode,
        use_color: terminal.is_tty && terminal.colors,
        colors: terminal.colors,
        term_width: if terminal.is_tty {
            terminal.columns
        } else {
            None
        },
    }
}

impl StackStatus {
    fn drawing(terminal: Terminal, update_message: bool) -> (r: Drawing)
        ensures
            r == drawing_on(terminal, update_message),
    {
        Drawing {
            update_message,
            use_unicode: terminal.is_tty && terminal.unicode,
            use_color: terminal.is_tty && terminal.colors,
            colors: terminal.colors,
            term_width: if terminal.is_tty {
                terminal.columns
            } else {
                None
            },
        }
    }

    /// Draws top-down, the way a stack is usually drawn, with the trunk at the
    /// bottom.
    pub fn render(&self, terminal: Terminal) -> (r: String)
        ensures
            r@ == table(self@, None, drawing_on(terminal, false)),
    {
        self.render_plan(terminal, false)
    }

    /// Draws the plan before `nspr diff` runs. When `update_message` is true,
    /// layers whose title or body differ from the local commit show `update
    /// message` rather than `message differs`.
    pub fn render_plan(&self, terminal: Terminal, update_message: bool) -> (r: String)
        ensures
            r@ == table(self@, None, drawing_on(terminal, update_message)),
    {
        self.draw_table(None, Self::drawing(terminal, update_message))
    }

    /// Draws the table after `nspr diff`, showing the action taken on each layer
    /// alongside status badges.
    pub fn render_diff(&self, terminal: Terminal, outcomes: &Vec<LayerOutcome>) -> (r: String)
        ensures
            r@ == table(self@, Some(outcomes.deep_view()), drawing_on(terminal, false)),
    {
        self.draw_table(Some(outcomes), Self::drawing(terminal, false))
    }
}

/// The first locale setting from the `k`th on that is not empty.
pub open spec fn locale_from(settings: Seq<Option<Seq<char>>>, k: int) -> Option<Seq<char>>
    decreases settings.len() - k,
{
    if k < 0 || k >= settings.len() {
        None
    } else {
        match settings[k] {
            Some(value) => if value.len() > 0 {
                Some(value)
            } else {
                locale_from(settings, k + 1)
            },
            None => locale_from(settings, k + 1),
        }
    }
}

/// A locale whose characters are encoded in UTF-8.
pub open spec fn is_utf8_locale(locale: Seq<char>) -> bool {
    let lower = config::lowered(locale);
    crate::markers::holds(lower, "utf-8"@) || crate::markers::holds(lower, "utf8"@)
}

/// A terminal shows other characters than ASCII unless it is a dumb one or the
/// locale says otherwise.
pub open spec fn shows_unicode(term: Option<Seq<char>>, settings: Seq<Option<Seq<char>>>) -> bool {
    if term == Some("dumb"@) {
        false
    } else {
        match locale_from(settings, 0) {
            Some(locale) => is_utf8_locale(locale),
            None => true,
        }
    }
}

fn lowered_text(s: &str) -> (r: String)
    ensures
        r@ == config::lowered(s@),
{
    let chars = chars_of(s);
    let mut out = String::new();
    assert(out@ =~= config::lowered(chars@.take(0)));
    let mut i: usize = 0;
    while i < chars.len()
        invariant
            i <= chars@.len(),
            out@ == config::lowered(chars@.take(i as int)),
        decreases chars@.len() - i,
    {
        out.push(lower_char(chars[i]));
        assert(out@ =~= config::lowered(chars@.take(i + 1)));
        i = i + 1;
    }
    assert(chars@.take(i as int) =~= chars@);
    out
}

/// Whether a terminal shows other characters than ASCII, from the value of
/// `$TERM` and those of the locale variables, the most specific one first.
pub fn supports_unicode(term: Option<&str>, settings: &Vec<Option<String>>) -> (r: bool)
    ensures
        r == shows_unicode(text::view_of(term), settings.deep_view()),
{
    match term {
        Some(term) => {
            if same(term, "dumb") {
                return false;
            }
        },
        None => {},
    }
    let mut k: usize = 0;
    while k < settings.len()
        invariant
            k <= settings@.len(),
            locale_from(settings.deep_view(), k as int) == locale_from(settings.deep_view(), 0),
            text::view_of(term) != Some("dumb"@),
        decreases settings@.len() - k,
    {
        assert(settings.deep_view()[k as int] == settings@[k as int].deep_view());
        match &settings[k] {
            Some(value) => {
                if !value.as_str().is_empty() {
                    let lower = lowered_text(value.as_str());
                    return crate::markers::contains(lower.as_str(), "utf-8")
                        || crate::markers::contains(lower.as_str(), "utf8");
                }
            },
            None => {},
        }
        k = k + 1;
    }
    true
}

pub broadcast proof fn lemma_layer_state_only(
    from: TapeView,
    t: TapeView,
    c: ConfigView,
    s: StackView,
    prs: Seq<Option<PrView>>,
    d: DecisionView,
    update_message: bool,
    i: int,
    allowed: spec_fn(RequestView) -> bool,
)
    requires
        #[trigger] tape::only(from, t, allowed),
        tape::may_look(allowed),
    ensures
        tape::only(from, (#[trigger] layer_state(t, c, s, prs, d, update_message, i)).0, allowed),
{
    broadcast use {tape::lemma_only_ask, upgrade::lemma_spr_layer_only};

}

pub broadcast proof fn lemma_statuses_from_only(
    from: TapeView,
    t: TapeView,
    c: ConfigView,
    s: StackView,
    prs: Seq<Option<PrView>>,
    d: DecisionView,
    update_message: bool,
    i: int,
    layers: Seq<LayerStatusView>,
    allowed: spec_fn(RequestView) -> bool,
)
    requires
        #[trigger] tape::only(from, t, allowed),
        tape::may_look(allowed),
    ensures
        tape::only(from, (#[trigger] statuses_from(t, c, s, prs, d, update_message, i, layers)).0, allowed),
    decreases s.layers.len() - i,
{
    broadcast use {tape::lemma_only_ask, lemma_layer_state_only};

    if 0 <= i < s.layers.len() {
        let (t1, state) = layer_state(t, c, s, prs, d, update_message, i);
        if state is Ok {
            lemma_statuses_from_only(
                from,
                t1,
                c,
                s,
                prs,
                d,
                update_message,
                i + 1,
                layers.push(status_of(c, s, prs, i, state->Ok_0)),
                allowed,
            );
        }
    }
}

pub broadcast proof fn lemma_stack_status_only(
    from: TapeView,
    t: TapeView,
    c: ConfigView,
    s: StackView,
    allowed: spec_fn(RequestView) -> bool,
)
    requires
        #[trigger] tape::only(from, t, allowed),
        tape::may_look(allowed),
    ensures
        tape::only(from, (#[trigger] stack_status(t, c, s)).0, allowed),
{
    broadcast use {tape::lemma_only_ask, discovery::lemma_trees_of_only, engine::lemma_gathered_only, engine::lemma_decided_only, lemma_statuses_from_only};

}

/// What is shown of an open pull request tells what would be done: it is shown as
/// current only if nothing would be pushed for it, and one that is to be pushed
/// is never shown as current.
pub proof fn law_status_tells_push(d: DecisionView, i: int, update_message: bool, differs: bool)
    ensures
        open_state(d, i, update_message, differs) == LayerState::Current ==> !d.push[i],
        open_state(d, i, update_message, differs) == LayerState::NeedsRestack ==> d.push[i]
            && !d.patch_changed[i],
        d.patch_changed[i] ==> open_state(d, i, update_message, differs) == LayerState::Modified,
{
}

/// Finding out the status of a stack changes nothing, neither on the forge nor in
/// the local repository.
pub proof fn law_status_changes_nothing(t: TapeView, c: ConfigView, s: StackView)
    ensures
        tape::only(
            t,
            stack_status(t, c, s).0,
            |q: RequestView| !tape::touches_forge(q) && !tape::touches_local(q),
        ),
{
    let look = |q: RequestView| !tape::touches_forge(q) && !tape::touches_local(q);
    tape::lemma_only_start(t, look);
    assert(tape::may_look(look));
    lemma_stack_status_only(t, t, c, s, look);
}

/// The same table without colour.
pub open spec fn bare(how: Drawing) -> Drawing {
    Drawing { use_color: false, ..how }
}

/// Nothing that is written about a layer holds an escape sequence of its own.
pub open spec fn uncoded_layer(layer: LayerStatusView) -> bool {
    &&& paint::unmarked(layer.subject)
    &&& paint::unmarked(layer.wanted_base_label)
    &&& layer.url matches Some(url) ==> paint::unmarked(url)
}

/// Nothing that is written into a table holds an escape sequence of its own.
pub open spec fn uncoded(st: StatusView) -> bool {
    &&& paint::unmarked(st.trunk)
    &&& forall|i: int| 0 <= i < st.layers.len() ==> uncoded_layer(#[trigger] st.layers[i])
}

/// The cells of row `i` hold whole colour sequences in harmless places, if any.
spec fn clean_row(c: ColumnsView, i: int) -> bool {
    &&& paint::unmarked(c.numbers[i])
    &&& paint::closed(c.glyphs[i])
    &&& paint::closed(c.states[i])
    &&& paint::tidy(c.states[i], false, false)
    &&& paint::closed(c.badges[i])
    &&& paint::tidy(c.badges[i], false, false)
}

spec fn clean(c: ColumnsView) -> bool {
    filled(c, c.numbers.len() as int) && forall|i: int|
        0 <= i < c.numbers.len() ==> #[trigger] clean_row(c, i)
}

/// The cells without their colours.
spec fn bared(c: ColumnsView) -> ColumnsView {
    ColumnsView {
        numbers: paint::all_unescaped(c.numbers),
        glyphs: paint::all_unescaped(c.glyphs),
        states: paint::all_unescaped(c.states),
        badges: paint::all_unescaped(c.badges),
    }
}

/// A text that is drawn is there to see, whatever its colour.
proof fn lemma_drawn(text: Seq<char>, look: Paint, how: Drawing)
    requires
        paint::unmarked(text),
    ensures
        paint::closed(drawn(text, look, how)),
        paint::unescaped(drawn(text, look, how)) == text,
        paint::tidy(drawn(text, look, how), false, false),
        text.len() > 0 && text::is_letter(text[0]) ==> paint::tidy(
            drawn(text, look, how),
            true,
            true,
        ),
{
    paint::lemma_unmarked(text);
    paint::lemma_painted(text, look, how.colors);
    paint::lemma_tidy_unmarked(text, false, false);
    if text.len() > 0 && text::is_letter(text[0]) {
        paint::lemma_tidy_unmarked(text, true, true);
    }
}

proof fn lemma_look(layer: LayerStatusView, outcomes: Option<Seq<OutcomeView>>)
    ensures
        paint::unmarked(look_of(layer, outcomes).glyph),
        paint::unmarked(look_of(layer, outcomes).label),
{
    reveal_strlit("◌");
    reveal_strlit("●");
    reveal_strlit("○");
    reveal_strlit("◉");
    reveal_strlit("◎");
    reveal_strlit("✔");
    reveal_strlit("✕");
    reveal_strlit("⚠");
    reveal_strlit("ok");
    reveal_strlit("created");
    reveal_strlit("updated");
    reveal_strlit("restacked");
    lemma_state_label(layer.state);
}

proof fn lemma_decimal_unmarked(n: nat)
    ensures
        paint::unmarked(text::decimal(n)),
    decreases n,
{
    if n >= 10 {
        lemma_decimal_unmarked(n / 10);
    }
    text::lemma_decimal_step(n);
}

proof fn lemma_number_cell(
    layer: LayerStatusView,
    outcomes: Option<Seq<OutcomeView>>,
    how: Drawing,
)
    ensures
        paint::unmarked(number_cell(layer, outcomes, how)),
        number_cell(layer, outcomes, bare(how)) == number_cell(layer, outcomes, how),
{
    reveal_strlit("#");
    reveal_strlit("—");
    reveal_strlit("-");
    match layer.number {
        Some(n) => lemma_decimal_unmarked(n as nat),
        None => {},
    }
    match outcome_of(outcomes, layer.index) {
        Some(o) => lemma_decimal_unmarked(o.number as nat),
        None => {},
    }
}

/// One badge, and what is to see of it.
spec fn is_badge(badge: Seq<char>, seen: Seq<char>) -> bool {
    paint::closed(badge) && paint::tidy(badge, true, true) && paint::unescaped(badge) == seen
}

spec fn are_badges(list: Seq<Seq<char>>, seen: Seq<Seq<char>>) -> bool {
    list.len() == seen.len() && forall|k: int|
        0 <= k < list.len() ==> is_badge(#[trigger] list[k], seen[k])
}

proof fn lemma_badge(text: Seq<char>, look: Paint, how: Drawing)
    requires
        paint::unmarked(text),
        text.len() > 0 && text::is_letter(text[0]),
    ensures
        is_badge(drawn(text, look, how), drawn(text, look, bare(how))),
{
    lemma_drawn(text, look, how);
}

proof fn lemma_with_badge(
    list: Seq<Seq<char>>,
    seen: Seq<Seq<char>>,
    holds: bool,
    text: Seq<char>,
    look: Paint,
    how: Drawing,
)
    requires
        are_badges(list, seen),
        paint::unmarked(text),
        text.len() > 0 && text::is_letter(text[0]),
    ensures
        are_badges(
            with_badge(list, holds, drawn(text, look, how)),
            with_badge(seen, holds, drawn(text, look, bare(how))),
        ),
{
    lemma_badge(text, look, how);
}

proof fn lemma_base_badge(
    trunk: Seq<char>,
    layer: LayerStatusView,
    outcomes: Option<Seq<OutcomeView>>,
    how: Drawing,
)
    requires
        paint::unmarked(trunk),
        paint::unmarked(layer.wanted_base_label),
    ensures
        match base_badge(trunk, layer, outcomes, how) {
            Some(badge) => base_badge(trunk, layer, outcomes, bare(how)) is Some && is_badge(
                badge,
                base_badge(trunk, layer, outcomes, bare(how))->0,
            ),
            None => base_badge(trunk, layer, outcomes, bare(how)) is None,
        },
{
    reveal_strlit("rebased ");
    reveal_strlit("retarget ");
    reveal_strlit("base: ");
    reveal_strlit(" ");
    reveal_strlit("→");
    reveal_strlit("->");
    let rebased = "rebased "@ + arrow(how) + " "@ + layer.wanted_base_label;
    let retarget = "retarget "@ + arrow(how) + " "@ + layer.wanted_base_label;
    assert(paint::unmarked(rebased));
    assert(paint::unmarked(retarget));
    assert(rebased[0] == 'r' && retarget[0] == 'r');
    lemma_badge(rebased, paint::hued(Hue::Magenta), how);
    lemma_badge(retarget, paint::hued(Hue::Magenta), how);
    let based = "base: "@ + trunk;
    assert(paint::unmarked(based));
    assert(based[0] == 'b');
    lemma_badge(based, paint::hued(Hue::Blue), how);
}

proof fn lemma_badges_of(
    trunk: Seq<char>,
    layer: LayerStatusView,
    outcomes: Option<Seq<OutcomeView>>,
    how: Drawing,
)
    requires
        paint::unmarked(trunk),
        paint::unmarked(layer.wanted_base_label),
    ensures
        are_badges(
            badges_of(trunk, layer, outcomes, how),
            badges_of(trunk, layer, outcomes, bare(how)),
        ),
{
    reveal_strlit("draft");
    reveal_strlit("conflicts");
    reveal_strlit("behind");
    reveal_strlit("AUTO-MERGE");
    reveal_strlit("update message");
    reveal_strlit("message differs");
    reveal_strlit("landable");
    let b = bare(how);
    let dim = paint::dimmed();
    let red = paint::bold(Hue::Red);
    let yellow = paint::hued(Hue::Yellow);
    let none = Seq::<Seq<char>>::empty();
    let b1 = with_badge(none, layer.draft, drawn("draft"@, dim, how));
    let c1 = with_badge(none, layer.draft, drawn("draft"@, dim, b));
    lemma_with_badge(none, none, layer.draft, "draft"@, dim, how);
    let b2 = with_badge(b1, layer.conflicting, drawn("conflicts"@, red, how));
    let c2 = with_badge(c1, layer.conflicting, drawn("conflicts"@, red, b));
    lemma_with_badge(b1, c1, layer.conflicting, "conflicts"@, red, how);
    let b3 = with_badge(b2, layer.behind, drawn("behind"@, yellow, how));
    let c3 = with_badge(c2, layer.behind, drawn("behind"@, yellow, b));
    lemma_with_badge(b2, c2, layer.behind, "behind"@, yellow, how);
    let b4 = with_badge(b3, layer.auto_merge, drawn("AUTO-MERGE"@, red, how));
    let c4 = with_badge(c3, layer.auto_merge, drawn("AUTO-MERGE"@, red, b));
    lemma_with_badge(b3, c3, layer.auto_merge, "AUTO-MERGE"@, red, how);
    lemma_base_badge(trunk, layer, outcomes, how);
    let (b5, c5) = match base_badge(trunk, layer, outcomes, how) {
        Some(badge) => (b4.push(badge), c4.push(base_badge(trunk, layer, outcomes, b)->0)),
        None => (b4, c4),
    };
    assert(are_badges(b5, c5));
    let (note, look) = if how.update_message {
        ("update message"@, paint::hued(Hue::Cyan))
    } else {
        ("message differs"@, yellow)
    };
    let b6 = with_badge(b5, layer.message_differs, drawn(note, look, how));
    let c6 = with_badge(c5, layer.message_differs, drawn(note, look, b));
    lemma_with_badge(b5, c5, layer.message_differs, note, look, how);
    lemma_with_badge(b6, c6, layer.landable, "landable"@, paint::hued(Hue::Green), how);
}

proof fn lemma_joined_badges(list: Seq<Seq<char>>, seen: Seq<Seq<char>>)
    requires
        are_badges(list, seen),
    ensures
        is_badge(text::join(list, "  "@), text::join(seen, "  "@)),
    decreases list.len(),
{
    reveal_strlit("  ");
    let gap = "  "@;
    if list.len() == 0 {
        paint::lemma_unmarked(Seq::<char>::empty());
        assert(paint::tidy(Seq::<char>::empty(), true, true));
    } else if list.len() == 1 {
        assert(is_badge(list[0], seen[0]));
    } else {
        let n = list.len() - 1;
        let (front, back) = (list.drop_last(), seen.drop_last());
        assert forall|k: int| 0 <= k < front.len() implies is_badge(#[trigger] front[k], back[k]) by {
            assert(is_badge(list[k], seen[k]));
        }
        lemma_joined_badges(front, back);
        assert(is_badge(list[n], seen[n]));
        let start = text::join(front, gap);
        paint::lemma_unmarked(gap);
        paint::lemma_tidy_unmarked(gap, true, true);
        paint::lemma_unescaped_concat(start, gap);
        paint::lemma_tidy_concat(start, gap, true, true);
        paint::lemma_unescaped_concat(start + gap, list[n]);
        paint::lemma_tidy_concat(start + gap, list[n], true, true);
    }
}

proof fn lemma_cells(
    trunk: Seq<char>,
    layer: LayerStatusView,
    outcomes: Option<Seq<OutcomeView>>,
    how: Drawing,
)
    requires
        paint::unmarked(trunk),
        uncoded_layer(layer),
    ensures
        paint::closed(glyph_cell(layer, outcomes, how)),
        paint::unescaped(glyph_cell(layer, outcomes, how)) == glyph_cell(
            layer,
            outcomes,
            bare(how),
        ),
        paint::closed(state_cell(layer, outcomes, how)),
        paint::tidy(state_cell(layer, outcomes, how), false, false),
        paint::unescaped(state_cell(layer, outcomes, how)) == state_cell(
            layer,
            outcomes,
            bare(how),
        ),
        paint::closed(badges_cell(trunk, layer, outcomes, how)),
        paint::tidy(badges_cell(trunk, layer, outcomes, how), false, false),
        paint::unescaped(badges_cell(trunk, layer, outcomes, how)) == badges_cell(
            trunk,
            layer,
            outcomes,
            bare(how),
        ),
{
    let look = look_of(layer, outcomes);
    lemma_look(layer, outcomes);
    lemma_drawn(look.glyph, look.glyph_paint, how);
    lemma_drawn(look.label, look.label_paint, how);
    reveal_strlit("*");
    paint::lemma_unmarked("*"@);
    lemma_badges_of(trunk, layer, outcomes, how);
    lemma_joined_badges(
        badges_of(trunk, layer, outcomes, how),
        badges_of(trunk, layer, outcomes, bare(how)),
    );
    paint::lemma_tidy_anywhere(badges_cell(trunk, layer, outcomes, how), false, false);
}

/// The columns of a table in colour are those of the plain one, in colour.
proof fn lemma_columns(st: StatusView, outcomes: Option<Seq<OutcomeView>>, how: Drawing)
    requires
        uncoded(st),
    ensures
        clean(columns_of(st, outcomes, how)),
        bared(columns_of(st, outcomes, how)) == columns_of(st, outcomes, bare(how)),
        paint::all_tidy(columns_of(st, outcomes, how).numbers),
        paint::all_tidy(columns_of(st, outcomes, how).states),
        paint::all_tidy(columns_of(st, outcomes, how).badges),
{
    let c = columns_of(st, outcomes, how);
    let b = columns_of(st, outcomes, bare(how));
    assert forall|i: int| 0 <= i < st.layers.len() implies #[trigger] clean_row(c, i)
        && paint::tidy(c.numbers[i], false, false) && paint::unescaped(c.numbers[i])
        == b.numbers[i] && paint::unescaped(c.glyphs[i]) == b.glyphs[i] && paint::unescaped(
        c.states[i],
    ) == b.states[i] && paint::unescaped(c.badges[i]) == b.badges[i] by {
        let layer = st.layers[i];
        assert(uncoded_layer(layer));
        lemma_number_cell(layer, outcomes, how);
        paint::lemma_unmarked(c.numbers[i]);
        paint::lemma_tidy_unmarked(c.numbers[i], false, false);
        lemma_cells(st.trunk, layer, outcomes, how);
    }
    assert forall|i: int| 0 <= i < c.numbers.len() implies paint::tidy(
        #[trigger] c.numbers[i],
        false,
        false,
    ) by {
        assert(clean_row(c, i));
    }
    assert forall|i: int| 0 <= i < c.states.len() implies paint::tidy(
        #[trigger] c.states[i],
        false,
        false,
    ) by {
        assert(clean_row(c, i));
    }
    assert forall|i: int| 0 <= i < c.badges.len() implies paint::tidy(
        #[trigger] c.badges[i],
        false,
        false,
    ) by {
        assert(clean_row(c, i));
    }
    let all = bared(c);
    assert forall|i: int| 0 <= i < st.layers.len() implies #[trigger] all.numbers[i] == b.numbers[i]
        && all.glyphs[i] == b.glyphs[i] && all.states[i] == b.states[i] && all.badges[i]
        == b.badges[i] by {
        assert(clean_row(c, i));
    }
    assert(all.numbers =~= b.numbers);
    assert forall|i: int| 0 <= i < st.layers.len() implies #[trigger] all.glyphs[i] == b.glyphs[i] by {
        assert(all.numbers[i] == b.numbers[i]);
    }
    assert(all.glyphs =~= b.glyphs);
    assert forall|i: int| 0 <= i < st.layers.len() implies #[trigger] all.states[i] == b.states[i] by {
        assert(all.numbers[i] == b.numbers[i]);
    }
    assert(all.states =~= b.states);
    assert forall|i: int| 0 <= i < st.layers.len() implies #[trigger] all.badges[i] == b.badges[i] by {
        assert(all.numbers[i] == b.numbers[i]);
    }
    assert(all.badges =~= b.badges);
}

/// The parts of a row, put together.
proof fn lemma_row(
    st: StatusView,
    c: ColumnsView,
    w: Widths,
    how: Drawing,
    i: int,
    number: Seq<char>,
    state: Seq<char>,
    badges: Seq<char>,
    subject: Seq<char>,
)
    requires
        0 <= i < c.numbers.len(),
        filled(c, c.numbers.len() as int),
        clean_row(c, i),
        paint::closed(number),
        paint::unescaped(number) == paint::padded(c.numbers[i], w.number, Side::Right),
        state == paint::filled_up(
            c.states[i],
            paint::displayed_width(paint::unescaped(c.states[i])),
            w.state,
            Side::Left,
        ),
        badges == if w.badges > 0 {
            "  "@ + paint::filled_up(
                c.badges[i],
                paint::displayed_width(paint::unescaped(c.badges[i])),
                w.badges,
                Side::Left,
            )
        } else {
            Seq::empty()
        },
        paint::closed(subject),
        paint::unescaped(subject) == subject_shown(st.layers[i], w, bare(how)),
    ensures
        ({
            let r = "  "@ + c.glyphs[i] + "  "@ + number + "  "@ + state + badges + "  "@ + subject
                + "\n"@;
            paint::closed(r) && paint::unescaped(r) == row(st, bared(c), w, bare(how), i)
        }),
{
    reveal_strlit("  ");
    reveal_strlit("\n");
    let gap = "  "@;
    paint::lemma_unmarked(gap);
    paint::lemma_unmarked("\n"@);
    paint::lemma_unmarked(c.numbers[i]);
    paint::lemma_filled_up(
        c.states[i],
        paint::displayed_width(paint::unescaped(c.states[i])),
        w.state,
        Side::Left,
    );
    let filler = paint::filled_up(
        c.badges[i],
        paint::displayed_width(paint::unescaped(c.badges[i])),
        w.badges,
        Side::Left,
    );
    paint::lemma_filled_up(
        c.badges[i],
        paint::displayed_width(paint::unescaped(c.badges[i])),
        w.badges,
        Side::Left,
    );
    paint::lemma_unescaped_concat(gap, filler);
    paint::lemma_unmarked(Seq::<char>::empty());
    assert(paint::closed(badges) && paint::unescaped(badges) == badges_shown(
        bared(c).badges[i],
        w,
    ));
    let r1 = gap + c.glyphs[i];
    paint::lemma_unescaped_concat(gap, c.glyphs[i]);
    paint::lemma_unescaped_concat(r1, gap);
    paint::lemma_unescaped_concat(r1 + gap, number);
    let r2 = r1 + gap + number;
    paint::lemma_unescaped_concat(r2, gap);
    paint::lemma_unescaped_concat(r2 + gap, state);
    let r3 = r2 + gap + state;
    paint::lemma_unescaped_concat(r3, badges);
    let r4 = r3 + badges;
    paint::lemma_unescaped_concat(r4, gap);
    paint::lemma_unescaped_concat(r4 + gap, subject);
    let r5 = r4 + gap + subject;
    paint::lemma_unescaped_concat(r5, "\n"@);
}

proof fn lemma_trunk_row(trunk: Seq<char>, how: Drawing)
    requires
        paint::unmarked(trunk),
    ensures
        paint::closed(trunk_row(trunk, how)),
        paint::unescaped(trunk_row(trunk, how)) == trunk_row(trunk, bare(how)),
{
    reveal_strlit("  ");
    reveal_strlit(" ");
    reveal_strlit("\n");
    reveal_strlit("\\-");
    reveal_strlit("┴─");
    paint::lemma_unmarked("  "@);
    paint::lemma_unmarked(" "@);
    paint::lemma_unmarked("\n"@);
    paint::lemma_unmarked("\\-"@);
    lemma_drawn("┴─"@, paint::dimmed(), how);
    lemma_drawn(trunk, paint::strong(), how);
    let corner = if how.use_unicode {
        drawn("┴─"@, paint::dimmed(), how)
    } else {
        "\\-"@
    };
    let name = drawn(trunk, paint::strong(), how);
    paint::lemma_unescaped_concat("  "@, corner);
    paint::lemma_unescaped_concat("  "@ + corner, " "@);
    paint::lemma_unescaped_concat("  "@ + corner + " "@, name);
    paint::lemma_unescaped_concat("  "@ + corner + " "@ + name, "\n"@);
}

/// Where no colours are wanted, it does not matter whether they could be shown.
proof fn lemma_colors_do_not_matter(
    st: StatusView,
    outcomes: Option<Seq<OutcomeView>>,
    how: Drawing,
    colors: bool,
)
    requires
        !how.use_color,
    ensures
        table(st, outcomes, Drawing { colors, ..how }) == table(st, outcomes, how),
{
    let other = Drawing { colors, ..how };
    assert forall|l: LayerStatusView| #[trigger]
        badges_of(st.trunk, l, outcomes, other) == badges_of(st.trunk, l, outcomes, how) by {}
    assert(columns_of(st, outcomes, other) =~= columns_of(st, outcomes, how)) by {
        let (a, b) = (columns_of(st, outcomes, other), columns_of(st, outcomes, how));
        assert(a.numbers =~= b.numbers);
        assert(a.glyphs =~= b.glyphs);
        assert(a.states =~= b.states);
        assert(a.badges =~= b.badges);
    }
    let c = columns_of(st, outcomes, how);
    lemma_rows_do_not_matter(
        st,
        c,
        widths_of(c),
        how,
        colors,
        st.layers.len() as int,
        Seq::empty(),
    );
}

proof fn lemma_rows_do_not_matter(
    st: StatusView,
    c: ColumnsView,
    w: Widths,
    how: Drawing,
    colors: bool,
    n: int,
    out: Seq<char>,
)
    requires
        !how.use_color,
    ensures
        rows_down(st, c, w, Drawing { colors, ..how }, n, out) == rows_down(st, c, w, how, n, out),
    decreases n,
{
    if n > 0 {
        lemma_rows_do_not_matter(
            st,
            c,
            w,
            how,
            colors,
            n - 1,
            out + row(st, c, w, how, n - 1),
        );
    }
}

proof fn lemma_state_label(state: LayerState)
    ensures
        paint::unmarked(state_label(state)),
{
    reveal_strlit("new");
    reveal_strlit("ok");
    reveal_strlit("modified");
    reveal_strlit("restack");
    reveal_strlit("spr (run `nspr upgrade`)");
    reveal_strlit("merged");
    reveal_strlit("closed");
}

} // verus!
