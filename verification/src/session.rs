//! The commands, from finding the stack to telling the user what happened.

use vstd::prelude::*;

use crate::cli::{DiffArgs, DiffArgsView};
use crate::config;
use crate::config::{Config, ConfigView};
use crate::data::{nothing, put, replace, Duplicate};
use crate::discovery;
use crate::discovery::{Trees, TreesView};
use crate::engine;
use crate::engine::{decide, gather, DecisionView, LayerAction, OptionsView, SyncOptions};
use crate::execution;
use crate::execution::{messages_of, LayerOutcome, OutcomeView};
use crate::forge::{PrView, PullRequest, RepoMergeSettings};
use crate::guardrails;
use crate::guardrails::{probe, GuardrailsView};
use crate::history;
use crate::history::rewrite_messages;
use crate::oid::Oid;
use crate::paint;
use crate::paint::{Hue, Paint};
use crate::stack;
use crate::stack::{Dep, Stack, StackView};
use crate::stack_comment;
use crate::status;
use crate::status::{from_parts, StackStatus, StatusView, Terminal};
use crate::syncing;
use crate::syncing::{recover_missing_pr_trailers, sync_stack, SyncedView};
use crate::tape;
use crate::tape::{Halt, HaltView, Request, RequestView, Tape, TapeView};
use crate::text;
use crate::text::{join_texts, push_decimal};
use crate::trailers;
use crate::trailers::{MessageView, DEPENDS_ON};
use crate::upgrade;
use crate::upgrade::reject_if_legacy_spr;

verus! {

/// What every command works with.
#[derive(Debug, Clone)]
pub struct Session {
    pub config: Config,
    /// The trunk tip as of the last fetch. The stack is everything between this
    /// and `HEAD`.
    pub trunk_oid: Oid,
    pub remote: String,
    pub terminal: Terminal,
}

#[verifier::ext_equal]
pub struct SessionView {
    pub config: ConfigView,
    pub trunk_oid: Oid,
    pub remote: Seq<char>,
    pub terminal: Terminal,
}

impl View for Session {
    type V = SessionView;

    open spec fn view(&self) -> SessionView {
        SessionView {
            config: self.config@,
            trunk_oid: self.trunk_oid,
            remote: self.remote@,
            terminal: self.terminal,
        }
    }
}

/// A text on standard output.
pub open spec fn said(t: TapeView, text: Seq<char>) -> (TapeView, Result<(), HaltView>) {
    tape::ask_unit(t, RequestView::Print { text })
}

/// Shows a text on standard output.
pub fn say(t: &mut Tape, text: String) -> (r: Result<(), Halt>)
    ensures
        (final(t)@, tape::outcome(r)) == said(old(t)@, text@),
{
    t.unit(Request::Print { text })
}

/// A warning, as the user sees it.
pub open spec fn warning_line(warning: Seq<char>, colors: bool) -> Seq<char> {
    paint::painted("warning:"@, paint::bold(Hue::Yellow), colors) + " "@ + warning + "\n"@
}

/// Writes a warning as the user sees it.
pub fn warning_text(warning: &str, colors: bool) -> (r: String)
    ensures
        r@ == warning_line(warning@, colors),
{
    let mut line = paint::paint("warning:", Paint::bold(Hue::Yellow), colors);
    line.append(" ");
    line.append(warning);
    line.append("\n");
    line
}

/// The warnings from the `k`th on on standard error.
pub open spec fn warned_from(t: TapeView, warnings: Seq<Seq<char>>, k: int, colors: bool) -> (
    TapeView,
    Result<(), HaltView>,
)
    decreases warnings.len() - k,
{
    if k < 0 || k >= warnings.len() {
        tape::done(t, ())
    } else {
        tape::bind(
            tape::ask_unit(t, RequestView::PrintError { text: warning_line(warnings[k], colors) }),
            |t: TapeView, u: ()| warned_from(t, warnings, k + 1, colors),
        )
    }
}

/// Shows warnings on standard error.
pub fn warn_all(t: &mut Tape, warnings: &Vec<String>, colors: bool) -> (r: Result<(), Halt>)
    ensures
        (final(t)@, tape::outcome(r)) == warned_from(old(t)@, warnings.deep_view(), 0, colors),
{
    let mut k: usize = 0;
    while k < warnings.len()
        invariant
            k <= warnings@.len(),
            warned_from(t@, warnings.deep_view(), k as int, colors) == warned_from(
                old(t)@,
                warnings.deep_view(),
                0,
                colors,
            ),
        decreases warnings@.len() - k,
    {
        assert(warnings.deep_view()[k as int] == warnings@[k as int]@);
        t.unit(Request::PrintError { text: warning_text(warnings[k].as_str(), colors) })?;
        k = k + 1;
    }
    Ok(())
}

/// The lines from the `k`th on on standard output.
pub open spec fn said_from(t: TapeView, lines: Seq<Seq<char>>, k: int) -> (
    TapeView,
    Result<(), HaltView>,
)
    decreases lines.len() - k,
{
    if k < 0 || k >= lines.len() {
        tape::done(t, ())
    } else {
        tape::bind(said(t, lines[k]), |t: TapeView, u: ()| said_from(t, lines, k + 1))
    }
}

/// Shows texts on standard output.
pub fn say_all(t: &mut Tape, lines: &Vec<String>) -> (r: Result<(), Halt>)
    ensures
        (final(t)@, tape::outcome(r)) == said_from(old(t)@, lines.deep_view(), 0),
{
    let mut k: usize = 0;
    while k < lines.len()
        invariant
            k <= lines@.len(),
            said_from(t@, lines.deep_view(), k as int) == said_from(
                old(t)@,
                lines.deep_view(),
                0,
            ),
        decreases lines@.len() - k,
    {
        assert(lines.deep_view()[k as int] == lines@[k as int]@);
        say(t, lines[k].clone())?;
        k = k + 1;
    }
    Ok(())
}

/// The refusal to work on nothing.
pub open spec fn nothing_to_submit(remote: Seq<char>, trunk: Seq<char>) -> Seq<char> {
    "no commits between "@ + remote + "/"@ + trunk + " and HEAD \u{2014} nothing to submit."@
}

/// The stack, which must not be empty.
pub open spec fn stack_found(t: TapeView, se: SessionView) -> (TapeView, Result<StackView, HaltView>) {
    tape::bind(
        discovery::discovered(t, se.trunk_oid, se.config.trunk),
        |t: TapeView, s: StackView|
            if s.layers.len() == 0 {
                tape::refuse(t, nothing_to_submit(se.remote, se.config.trunk))
            } else {
                tape::done(t, s)
            },
    )
}

/// The messages with the last one depending on the trunk.
pub open spec fn independent(s: StackView, trunk: Seq<char>) -> Seq<MessageView> {
    let messages = s.layers.map_values(|l: stack::LayerView| l.message);
    messages.update(
        messages.len() - 1,
        trailers::with_trailer(messages.last(), DEPENDS_ON@, trunk),
    )
}

/// The stack with its top depending on the trunk.
pub open spec fn head_freed(t: TapeView, se: SessionView, s: StackView) -> (
    TapeView,
    Result<StackView, HaltView>,
) {
    if s.layers.last().dep == Dep::Main {
        tape::done(t, s)
    } else {
        tape::bind(
            history::messages_rewritten(
                t,
                s.base,
                execution::rewrites(s, independent(s, se.config.trunk)),
            ),
            |t: TapeView, rewritten: Seq<Oid>| stack_found(t, se),
        )
    }
}

/// The options of a `diff`.
pub open spec fn diff_options(args: DiffArgsView, only_layer: Option<usize>) -> OptionsView {
    OptionsView {
        sync_all: args.all,
        message: args.message,
        update_message: args.update_message,
        draft: args.draft,
        only_layer,
        ..engine::default_options()
    }
}

/// What is known before a push, and what is going to happen.
#[verifier::ext_equal]
pub struct PlanView {
    pub opts: OptionsView,
    pub status: StatusView,
    pub warnings: Seq<Seq<char>>,
    pub pushes: bool,
}

/// What is known before a push, and what is going to happen.
pub struct Plan {
    pub opts: SyncOptions,
    pub status: StackStatus,
    pub warnings: Vec<String>,
    pub pushes: bool,
}

impl DeepView for Plan {
    type V = PlanView;

    open spec fn deep_view(&self) -> PlanView {
        PlanView {
            opts: self.opts@,
            status: self.status@,
            warnings: self.warnings.deep_view(),
            pushes: self.pushes,
        }
    }
}

/// Some layer is marked.
pub open spec fn any_marked(marks: Seq<bool>) -> bool {
    exists|i: int| 0 <= i < marks.len() && #[trigger] marks[i]
}

/// Some layer's pull request says something else than its commit.
pub open spec fn any_differs(status: StatusView) -> bool {
    exists|i: int| 0 <= i < status.layers.len() && (#[trigger] status.layers[i]).message_differs
}

fn has_mark(marks: &Vec<bool>) -> (r: bool)
    ensures
        r == any_marked(marks@),
{
    let mut i: usize = 0;
    while i < marks.len()
        invariant
            i <= marks@.len(),
            forall|m: int| 0 <= m < i ==> !(#[trigger] marks@[m]),
        decreases marks@.len() - i,
    {
        if marks[i] {
            return true;
        }
        i = i + 1;
    }
    false
}

fn has_difference(status: &StackStatus) -> (r: bool)
    ensures
        r == any_differs(status@),
{
    let mut i: usize = 0;
    while i < status.layers.len()
        invariant
            i <= status.layers@.len(),
            forall|m: int| 0 <= m < i ==> !(#[trigger] status@.layers[m]).message_differs,
        decreases status.layers@.len() - i,
    {
        assert(status@.layers[i as int] == status.layers@[i as int].deep_view());
        if status.layers[i].message_differs {
            return true;
        }
        i = i + 1;
    }
    false
}

/// The options after the repository's settings are known.
pub open spec fn settled(opts: OptionsView, c: ConfigView, settings: RepoMergeSettings) -> OptionsView {
    OptionsView {
        preserve_commit_history: config::preserve_resolved(c.preserve_commit_history, settings),
        ..opts
    }
}

/// A round of queries before anything is changed.
pub open spec fn planned(t: TapeView, se: SessionView, s: StackView, opts: OptionsView) -> (
    TapeView,
    Result<PlanView, HaltView>,
) {
    let c = se.config;
    tape::bind(
        discovery::trees_of(t, s),
        |t: TapeView, trees: TreesView|
            tape::bind(
                engine::gathered(t, s),
                |t: TapeView, prs: Seq<Option<PrView>>|
                    tape::bind(
                        tape::ask_settings(t, RequestView::MergeSettings),
                        |t: TapeView, settings: RepoMergeSettings|
                            plan_made(t, c, s, trees, prs, settled(opts, c, settings)),
                    ),
            ),
    )
}

pub open spec fn plan_made(
    t: TapeView,
    c: ConfigView,
    s: StackView,
    trees: TreesView,
    prs: Seq<Option<PrView>>,
    opts: OptionsView,
) -> (TapeView, Result<PlanView, HaltView>) {
    tape::bind(
        engine::decided(t, s, prs, trees, opts),
        |t: TapeView, first: DecisionView|
            tape::bind(
                guardrails::probed(t, c, s, prs, first.push),
                |t: TapeView, rails: GuardrailsView|
                    {
                        let opts = OptionsView {
                            refresh_when_behind: rails.refresh_when_behind,
                            ..opts
                        };
                        tape::bind(
                            engine::decided(t, s, prs, trees, opts),
                            |t: TapeView, decision: DecisionView|
                                tape::bind(
                                    status::statuses_from(
                                        t,
                                        c,
                                        s,
                                        prs,
                                        decision,
                                        opts.update_message,
                                        0,
                                        Seq::empty(),
                                    ),
                                    |t: TapeView, shown: StatusView|
                                        tape::done(
                                            t,
                                            PlanView {
                                                opts,
                                                status: shown,
                                                warnings: rails.warnings,
                                                pushes: any_marked(decision.push) || (
                                                opts.update_message && any_differs(shown)),
                                            },
                                        ),
                                ),
                        )
                    },
            ),
    )
}

/// The plan shown, and the options that come out of it.
pub open spec fn preflighted(t: TapeView, se: SessionView, s: StackView, opts: OptionsView) -> (
    TapeView,
    Result<OptionsView, HaltView>,
) {
    tape::bind(
        planned(t, se, s, opts),
        |t: TapeView, plan: PlanView|
            tape::bind(
                said(
                    t,
                    status::table(
                        plan.status,
                        None,
                        status::drawing_on(se.terminal, plan.opts.update_message),
                    ),
                ),
                |t: TapeView, u: ()|
                    tape::bind(
                        warned_from(t, plan.warnings, 0, se.terminal.colors),
                        |t: TapeView, u: ()|
                            tape::bind(
                                if plan.pushes {
                                    said(t, "\n"@)
                                } else {
                                    tape::done(t, ())
                                },
                                |t: TapeView, u: ()| tape::done(t, plan.opts),
                            ),
                    ),
            ),
    )
}

/// How many of the first `n` outcomes have an action.
pub open spec fn acted(outcomes: Seq<OutcomeView>, action: LayerAction, n: int) -> nat
    decreases n,
{
    if n <= 0 {
        0
    } else if outcomes[n - 1].action == action {
        acted(outcomes, action, n - 1) + 1
    } else {
        acted(outcomes, action, n - 1)
    }
}

/// How many of the first `n` outcomes are retargets.
pub open spec fn moved(outcomes: Seq<OutcomeView>, n: int) -> nat
    decreases n,
{
    if n <= 0 {
        0
    } else if outcomes[n - 1].retargeted {
        moved(outcomes, n - 1) + 1
    } else {
        moved(outcomes, n - 1)
    }
}

fn count_acted(outcomes: &Vec<LayerOutcome>, action: LayerAction) -> (r: usize)
    ensures
        r == acted(outcomes.deep_view(), action, outcomes@.len() as int),
{
    let mut count: usize = 0;
    let mut i: usize = 0;
    while i < outcomes.len()
        invariant
            i <= outcomes@.len(),
            count <= i,
            count == acted(outcomes.deep_view(), action, i as int),
        decreases outcomes@.len() - i,
    {
        assert(outcomes.deep_view()[i as int] == outcomes@[i as int].deep_view());
        if outcomes[i].action == action {
            count = count + 1;
        }
        i = i + 1;
    }
    count
}

fn count_moved(outcomes: &Vec<LayerOutcome>) -> (r: usize)
    ensures
        r == moved(outcomes.deep_view(), outcomes@.len() as int),
{
    let mut count: usize = 0;
    let mut i: usize = 0;
    while i < outcomes.len()
        invariant
            i <= outcomes@.len(),
            count <= i,
            count == moved(outcomes.deep_view(), i as int),
        decreases outcomes@.len() - i,
    {
        assert(outcomes.deep_view()[i as int] == outcomes@[i as int].deep_view());
        if outcomes[i].retargeted {
            count = count + 1;
        }
        i = i + 1;
    }
    count
}

/// A list with one more count, unless it is none.
pub open spec fn with_count(parts: Seq<Seq<char>>, count: nat, what: Seq<char>) -> Seq<Seq<char>> {
    if count > 0 {
        parts.push(text::decimal(count) + what)
    } else {
        parts
    }
}

fn add_count(parts: &mut Vec<String>, count: usize, what: &str)
    ensures
        final(parts).deep_view() == with_count(old(parts).deep_view(), count as nat, what@),
{
    if count > 0 {
        let mut part = String::new();
        push_decimal(&mut part, count as u64);
        assert(part@ =~= text::decimal(count as nat));
        part.append(what);
        put(parts, part);
    }
}

/// What was done, counted.
pub open spec fn counted(outcomes: Seq<OutcomeView>) -> Seq<Seq<char>> {
    let n = outcomes.len() as int;
    let p1 = with_count(Seq::empty(), acted(outcomes, LayerAction::Created, n), " created"@);
    let p2 = with_count(p1, acted(outcomes, LayerAction::Updated, n), " updated"@);
    let p3 = with_count(p2, acted(outcomes, LayerAction::Refreshed, n), " restacked"@);
    with_count(p3, moved(outcomes, n), " retargeted"@)
}

/// The last line of a `diff`.
pub open spec fn done_line(s: StackView, outcomes: Seq<OutcomeView>, colors: bool) -> Seq<char> {
    let mark = paint::painted("✓"@, paint::bold(Hue::Green), colors);
    let parts = counted(outcomes);
    if parts.len() == 0 {
        mark + " Done (all "@ + text::decimal(s.layers.len()) + " "@ + (if s.layers.len() == 1 {
            "PR"@
        } else {
            "PRs"@
        }) + " up to date)\n"@
    } else {
        mark + " Done ("@ + text::join(parts, ", "@) + ")\n"@
    }
}

fn done_text(stack: &Stack, outcomes: &Vec<LayerOutcome>, colors: bool) -> (r: String)
    ensures
        r@ == done_line(stack@, outcomes.deep_view(), colors),
{
    let mut parts: Vec<String> = nothing();
    add_count(&mut parts, count_acted(outcomes, LayerAction::Created), " created");
    add_count(&mut parts, count_acted(outcomes, LayerAction::Updated), " updated");
    add_count(&mut parts, count_acted(outcomes, LayerAction::Refreshed), " restacked");
    add_count(&mut parts, count_moved(outcomes), " retargeted");
    assert(outcomes.deep_view().len() == outcomes@.len());
    assert(parts.deep_view() == counted(outcomes.deep_view()));
    assert(parts.deep_view().len() == parts@.len());
    assert(stack@.layers.len() == stack.layers@.len());
    let mut line = paint::paint("✓", Paint::bold(Hue::Green), colors);
    if parts.len() == 0 {
        let total: usize = stack.layers.len();
        line.append(" Done (all ");
        push_decimal(&mut line, total as u64);
        line.append(" ");
        if total == 1 {
            line.append("PR");
        } else {
            line.append("PRs");
        }
        line.append(" up to date)\n");
    } else {
        assert(text::views(parts@) =~= parts.deep_view());
        line.append(" Done (");
        line.append(join_texts(&parts, ", ").as_str());
        line.append(")\n");
    }
    line
}

/// The line of a new pull request.
pub open spec fn created_line(c: ConfigView, s: StackView, o: OutcomeView, colors: bool) -> Seq<char> {
    "  "@ + paint::painted("○"@, paint::bold(Hue::Green), colors) + " "@ + paint::painted(
        "#"@ + text::decimal(o.number as nat),
        paint::strong(),
        colors,
    ) + "  "@ + (if o.index < s.layers.len() {
        s.layers[o.index as int].message.subject
    } else {
        Seq::empty()
    }) + "  "@ + paint::painted(config::pr_url(c, o.number), paint::dimmed(), colors) + "\n"@
}

/// The lines of the new pull requests among the outcomes from the `k`th on.
pub open spec fn created_from(
    t: TapeView,
    c: ConfigView,
    s: StackView,
    outcomes: Seq<OutcomeView>,
    k: int,
    colors: bool,
) -> (TapeView, Result<(), HaltView>)
    decreases outcomes.len() - k,
{
    if k < 0 || k >= outcomes.len() {
        tape::done(t, ())
    } else if outcomes[k].action != LayerAction::Created {
        created_from(t, c, s, outcomes, k + 1, colors)
    } else {
        tape::bind(
            said(t, created_line(c, s, outcomes[k], colors)),
            |t: TapeView, u: ()| created_from(t, c, s, outcomes, k + 1, colors),
        )
    }
}

/// What a `diff` did.
pub open spec fn reported(
    t: TapeView,
    se: SessionView,
    s: StackView,
    outcomes: Seq<OutcomeView>,
    verbose: bool,
) -> (TapeView, Result<(), HaltView>) {
    tape::bind(
        if verbose {
            tape::bind(
                status::stack_status(t, se.config, s),
                |t: TapeView, shown: StatusView|
                    said(
                        t,
                        status::table(
                            shown,
                            Some(outcomes),
                            status::drawing_on(se.terminal, false),
                        ),
                    ),
            )
        } else {
            created_from(t, se.config, s, outcomes, 0, se.terminal.colors)
        },
        |t: TapeView, u: ()| said(t, done_line(s, outcomes, se.terminal.colors)),
    )
}

/// The stack tables, and how many were written if the user wants to know.
pub open spec fn commented(t: TapeView, c: ConfigView, s: StackView, verbose: bool) -> (
    TapeView,
    Result<(), HaltView>,
) {
    if !c.stack_comments {
        tape::done(t, ())
    } else {
        tape::bind(
            stack_comment::comments_from(t, c, s, 0, 0),
            |t: TapeView, updated: usize|
                if verbose {
                    said(t, "  "@ + text::decimal(updated as nat) + " stack comment(s) written\n"@)
                } else {
                    tape::done(t, ())
                },
        )
    }
}

/// A `diff` of a stack for which it is settled what belongs to it.
pub open spec fn submitted(
    t: TapeView,
    se: SessionView,
    s: StackView,
    args: DiffArgsView,
    verbose: bool,
    only_layer: Option<usize>,
) -> (TapeView, Result<(), HaltView>) {
    let opts = diff_options(args, only_layer);
    tape::bind(
        tape::ask_unit(
            t,
            RequestView::Prompting { interactive: !args.no_prompt && args.message is None },
        ),
        |t: TapeView, u: ()|
            tape::bind(
                syncing::relinked(t, se.config, opts, s),
                |t: TapeView, s: StackView|
                    tape::bind(
                        preflighted(t, se, s, OptionsView { relink_asked: true, ..opts }),
                        |t: TapeView, opts: OptionsView|
                            tape::bind(
                                syncing::synced(t, se.config, s, opts),
                                |t: TapeView, done: SyncedView|
                                    tape::bind(
                                        reported(t, se, done.stack, done.outcomes, verbose),
                                        |t: TapeView, u: ()|
                                            commented(t, se.config, done.stack, verbose),
                                    ),
                            ),
                    ),
            ),
    )
}

/// The command `diff`.
pub open spec fn diffed(t: TapeView, se: SessionView, args: DiffArgsView, verbose: bool) -> (
    TapeView,
    Result<(), HaltView>,
) {
    tape::bind(
        stack_found(t, se),
        |t: TapeView, s: StackView|
            if args.cherry_pick {
                tape::bind(
                    head_freed(t, se, s),
                    |t: TapeView, freed: StackView|
                        submitted(
                            t,
                            se,
                            freed,
                            args,
                            verbose,
                            Some((s.layers.len() - 1) as usize),
                        ),
                )
            } else {
                tape::bind(
                    upgrade::legacy_rejected(t, se.config, s),
                    |t: TapeView, u: ()| submitted(t, se, s, args, verbose, None),
                )
            },
    )
}

impl Session {
    /// Finds the stack, and refuses one without a commit.
    pub fn discover(&self, t: &mut Tape) -> (r: Result<Stack, Halt>)
        ensures
            (final(t)@, tape::outcome(r)) == stack_found(old(t)@, self@),
            r matches Ok(s) ==> stack::well_formed(s@) && s@.layers.len() > 0,
    {
        let stack = Stack::discover(t, self.trunk_oid, self.config.trunk.as_str())?;
        assert(stack@.layers.len() == stack.layers@.len());
        if stack.layers.len() == 0 {
            let mut reason = "no commits between ".to_owned();
            reason.append(self.remote.as_str());
            reason.append("/");
            reason.append(self.config.trunk.as_str());
            reason.append(" and HEAD \u{2014} nothing to submit.");
            return Err(Halt::Refused(reason));
        }
        Ok(stack)
    }

    fn free_head(&self, t: &mut Tape, stack: &Stack) -> (r: Result<Stack, Halt>)
        requires
            stack::well_formed(stack@),
            stack@.layers.len() > 0,
        ensures
            (final(t)@, tape::outcome(r)) == head_freed(old(t)@, self@, stack@),
            r matches Ok(s) ==> stack::well_formed(s@) && s@.layers.len() > 0,
    {
        let head: usize = stack.layers.len() - 1;
        assert(stack@.layers.last() == stack.layers@[head as int].deep_view());
        if stack.layers[head].dep == Dep::Main {
            return Ok(stack.duplicate());
        }
        let mut messages = messages_of(stack);
        assert(messages.deep_view().len() == messages@.len());
        assert(messages.deep_view()[head as int] == messages@[head as int].deep_view());
        let mut message = messages[head].duplicate();
        message.set(DEPENDS_ON, self.config.trunk.as_str());
        replace(&mut messages, head, message);
        assert(messages.deep_view() =~= independent(stack@, self@.config.trunk));
        let pairs = execution::pair_messages(stack, &messages);
        let _ = rewrite_messages(t, stack.base, &pairs)?;
        self.discover(t)
    }

    fn plan(&self, t: &mut Tape, stack: &Stack, opts: &SyncOptions) -> (r: Result<Plan, Halt>)
        requires
            stack::well_formed(stack@),
        ensures
            (final(t)@, tape::outcome(r)) == planned(old(t)@, self@, stack@, opts@),
    {
        let mut opts = opts.duplicate();
        let trees = stack.all_trees(t)?;
        let prs = gather(t, stack)?;
        let settings = t.settings(Request::MergeSettings)?;
        opts.preserve_commit_history = self.config.preserve_commit_history.resolve(settings);
        self.plan_for(t, stack, &trees, &prs, opts)
    }

    fn plan_for(
        &self,
        t: &mut Tape,
        stack: &Stack,
        trees: &Trees,
        prs: &Vec<Option<PullRequest>>,
        opts: SyncOptions,
    ) -> (r: Result<Plan, Halt>)
        requires
            stack::well_formed(stack@),
            engine::fits(stack@, prs.deep_view(), trees.deep_view()),
        ensures
            (final(t)@, tape::outcome(r)) == plan_made(
                old(t)@,
                self@.config,
                stack@,
                trees.deep_view(),
                prs.deep_view(),
                opts@,
            ),
    {
        let mut opts = opts;
        let first = decide(t, stack, prs, trees, &opts)?;
        let rails = probe(t, &self.config, stack, prs, &first.push)?;
        opts.refresh_when_behind = rails.refresh_when_behind;
        let decision = decide(t, stack, prs, trees, &opts)?;
        let shown = from_parts(t, &self.config, stack, prs, &decision, opts.update_message)?;
        let pushes = has_mark(&decision.push) || (opts.update_message && has_difference(&shown));
        Ok(Plan { opts, status: shown, warnings: rails.warnings, pushes })
    }

    /// Shows the plan before a push, emits warnings, and settles what depends on
    /// the repository's settings. Changes nothing.
    pub fn preflight(&self, t: &mut Tape, stack: &Stack, opts: &SyncOptions) -> (r: Result<
        SyncOptions,
        Halt,
    >)
        requires
            stack::well_formed(stack@),
        ensures
            ({
                let spec = preflighted(old(t)@, self@, stack@, opts@);
                &&& final(t)@ == spec.0
                &&& match r {
                    Ok(settled) => spec.1 == Ok::<OptionsView, HaltView>(settled@),
                    Err(h) => spec.1 == Err::<OptionsView, HaltView>(h.deep_view()),
                }
            }),
    {
        let plan = self.plan(t, stack, opts)?;
        say(t, plan.status.render_plan(self.terminal, plan.opts.update_message))?;
        warn_all(t, &plan.warnings, self.terminal.colors)?;
        if plan.pushes {
            say(t, "\n".to_owned())?;
        }
        Ok(plan.opts)
    }

    fn say_created(&self, t: &mut Tape, stack: &Stack, outcomes: &Vec<LayerOutcome>) -> (r: Result<
        (),
        Halt,
    >)
        ensures
            (final(t)@, tape::outcome(r)) == created_from(
                old(t)@,
                self@.config,
                stack@,
                outcomes.deep_view(),
                0,
                self@.terminal.colors,
            ),
    {
        let colors = self.terminal.colors;
        let mut k: usize = 0;
        while k < outcomes.len()
            invariant
                k <= outcomes@.len(),
                colors == self@.terminal.colors,
                created_from(
                    t@,
                    self@.config,
                    stack@,
                    outcomes.deep_view(),
                    k as int,
                    colors,
                ) == created_from(
                    old(t)@,
                    self@.config,
                    stack@,
                    outcomes.deep_view(),
                    0,
                    colors,
                ),
            decreases outcomes@.len() - k,
        {
            let o = &outcomes[k];
            assert(outcomes.deep_view()[k as int] == o.deep_view());
            if o.action == LayerAction::Created {
                let mut number = "#".to_owned();
                push_decimal(&mut number, o.number);
                let mut subject = String::new();
                assert(subject@ =~= Seq::<char>::empty());
                if o.index < stack.layers.len() {
                    assert(stack@.layers[o.index as int]
                        == stack.layers@[o.index as int].deep_view());
                    subject = stack.layers[o.index].subject().to_owned();
                }
                let url = self.config.pull_request_url(o.number);
                let mut line = "  ".to_owned();
                line.append(paint::paint("○", Paint::bold(Hue::Green), colors).as_str());
                line.append(" ");
                line.append(paint::paint(number.as_str(), Paint::strong(), colors).as_str());
                line.append("  ");
                line.append(subject.as_str());
                line.append("  ");
                line.append(paint::paint(url.as_str(), Paint::dimmed(), colors).as_str());
                line.append("\n");
                say(t, line)?;
            }
            k = k + 1;
        }
        Ok(())
    }

    /// Tells the user what a `diff` did.
    pub fn report(&self, t: &mut Tape, stack: &Stack, outcomes: &Vec<LayerOutcome>, verbose: bool) -> (r:
        Result<(), Halt>)
        requires
            stack::well_formed(stack@),
        ensures
            (final(t)@, tape::outcome(r)) == reported(
                old(t)@,
                self@,
                stack@,
                outcomes.deep_view(),
                verbose,
            ),
    {
        if verbose {
            let shown = status::status(t, &self.config, stack)?;
            say(t, shown.render_diff(self.terminal, outcomes))?;
        } else {
            self.say_created(t, stack, outcomes)?;
        }
        say(t, done_text(stack, outcomes, self.terminal.colors))
    }

    fn submit(
        &self,
        t: &mut Tape,
        stack: &Stack,
        args: &DiffArgs,
        verbose: bool,
        only_layer: Option<usize>,
    ) -> (r: Result<(), Halt>)
        requires
            stack::well_formed(stack@),
        ensures
            (final(t)@, tape::outcome(r)) == submitted(
                old(t)@,
                self@,
                stack@,
                args@,
                verbose,
                only_layer,
            ),
    {
        let mut opts = SyncOptions::default();
        opts.sync_all = args.all;
        opts.message = args.message.duplicate();
        opts.update_message = args.update_message;
        opts.draft = args.draft;
        opts.only_layer = only_layer;
        t.unit(Request::Prompting { interactive: !args.no_prompt && args.message.is_none() })?;
        let stack = recover_missing_pr_trailers(t, &self.config, stack, &mut opts)?;
        let opts = self.preflight(t, &stack, &opts)?;
        let done = sync_stack(t, &self.config, &stack, &opts)?;
        self.report(t, &done.stack, &done.outcomes, verbose)?;
        if self.config.stack_comments {
            let updated = stack_comment::update_all(t, &self.config, &done.stack)?;
            if verbose {
                let mut line = "  ".to_owned();
                push_decimal(&mut line, updated as u64);
                line.append(" stack comment(s) written\n");
                say(t, line)?;
            }
        }
        Ok(())
    }

    /// Creates or updates the pull requests for the current stack.
    pub fn diff(&self, t: &mut Tape, args: &DiffArgs, verbose: bool) -> (r: Result<(), Halt>)
        ensures
            (final(t)@, tape::outcome(r)) == diffed(old(t)@, self@, args@, verbose),
    {
        let stack = self.discover(t)?;
        if args.cherry_pick {
            let head: usize = stack.layers.len() - 1;
            let freed = self.free_head(t, &stack)?;
            self.submit(t, &freed, args, verbose, Some(head))
        } else {
            reject_if_legacy_spr(t, &self.config, &stack)?;
            self.submit(t, &stack, args, verbose, None)
        }
    }
}

pub broadcast proof fn lemma_said_only(
    from: TapeView,
    t: TapeView,
    text: Seq<char>,
    allowed: spec_fn(RequestView) -> bool,
)
    requires
        #[trigger] tape::only(from, t, allowed),
        tape::may_look(allowed),
    ensures
        tape::only(from, (#[trigger] said(t, text)).0, allowed),
{
    broadcast use tape::lemma_only_ask;

}

pub broadcast proof fn lemma_stack_found_only(
    from: TapeView,
    t: TapeView,
    se: SessionView,
    allowed: spec_fn(RequestView) -> bool,
)
    requires
        #[trigger] tape::only(from, t, allowed),
        tape::may_look(allowed),
    ensures
        tape::only(from, (#[trigger] stack_found(t, se)).0, allowed),
{
    broadcast use {tape::lemma_only_ask, discovery::lemma_discovered_only};

}

pub broadcast proof fn lemma_plan_made_only(
    from: TapeView,
    t: TapeView,
    c: ConfigView,
    s: StackView,
    trees: TreesView,
    prs: Seq<Option<PrView>>,
    opts: OptionsView,
    allowed: spec_fn(RequestView) -> bool,
)
    requires
        #[trigger] tape::only(from, t, allowed),
        tape::may_look(allowed),
    ensures
        tape::only(from, (#[trigger] plan_made(t, c, s, trees, prs, opts)).0, allowed),
{
    broadcast use {tape::lemma_only_ask, engine::lemma_decided_only, guardrails::lemma_probed_only, status::lemma_statuses_from_only};

}

pub broadcast proof fn lemma_planned_only(
    from: TapeView,
    t: TapeView,
    se: SessionView,
    s: StackView,
    opts: OptionsView,
    allowed: spec_fn(RequestView) -> bool,
)
    requires
        #[trigger] tape::only(from, t, allowed),
        tape::may_look(allowed),
    ensures
        tape::only(from, (#[trigger] planned(t, se, s, opts)).0, allowed),
{
    broadcast use {tape::lemma_only_ask, discovery::lemma_trees_of_only, engine::lemma_gathered_only, lemma_plan_made_only};

}

pub broadcast proof fn lemma_warned_from_only(
    from: TapeView,
    t: TapeView,
    warnings: Seq<Seq<char>>,
    k: int,
    colors: bool,
    allowed: spec_fn(RequestView) -> bool,
)
    requires
        #[trigger] tape::only(from, t, allowed),
        tape::may_look(allowed),
    ensures
        tape::only(from, (#[trigger] warned_from(t, warnings, k, colors)).0, allowed),
    decreases warnings.len() - k,
{
    broadcast use tape::lemma_only_ask;

    if 0 <= k < warnings.len() {
        let (t1, r) = tape::ask_unit(
            t,
            RequestView::PrintError { text: warning_line(warnings[k], colors) },
        );
        if r is Ok {
            lemma_warned_from_only(from, t1, warnings, k + 1, colors, allowed);
        }
    }
}

pub broadcast proof fn lemma_preflighted_only(
    from: TapeView,
    t: TapeView,
    se: SessionView,
    s: StackView,
    opts: OptionsView,
    allowed: spec_fn(RequestView) -> bool,
)
    requires
        #[trigger] tape::only(from, t, allowed),
        tape::may_look(allowed),
    ensures
        tape::only(from, (#[trigger] preflighted(t, se, s, opts)).0, allowed),
{
    broadcast use {tape::lemma_only_ask, lemma_planned_only, lemma_said_only, lemma_warned_from_only};

}

/// Working out and showing what a run would do changes nothing, neither on the
/// forge nor in the local repository.
pub proof fn law_preflight_changes_nothing(
    t: TapeView,
    se: SessionView,
    s: StackView,
    opts: OptionsView,
)
    ensures
        tape::only(
            t,
            preflighted(t, se, s, opts).0,
            |q: RequestView| !tape::touches_forge(q) && !tape::touches_local(q),
        ),
{
    let look = |q: RequestView| !tape::touches_forge(q) && !tape::touches_local(q);
    tape::lemma_only_start(t, look);
    assert(tape::may_look(look));
    lemma_preflighted_only(t, t, se, s, opts, look);
}

} // verus!
