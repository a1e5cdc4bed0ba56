//! What `diff` promises.

use vstd::prelude::*;

use crate::cli::DiffArgsView;
use crate::config::ConfigView;
use crate::discovery;
use crate::engine;
use crate::engine::OptionsView;
use crate::execution;
use crate::execution::{ContextView, OutcomeView};
use crate::forge::PushView;
use crate::history;
use crate::session;
use crate::session::SessionView;
use crate::stack::{LayerView, StackView};
use crate::stack_comment;
use crate::status;
use crate::syncing;
use crate::syncing::SyncedView;
use crate::tape;
use crate::tape::{HaltView, RequestView, TapeView};
use crate::trailers::MessageView;
use crate::upgrade;

verus! {

/// Requests are allowed that a `diff` makes which opens drafts, or which opens none.
pub open spec fn may_submit(allowed: spec_fn(RequestView) -> bool, draft: bool) -> bool {
    &&& tape::may_follow_up(allowed)
    &&& execution::may_open(allowed, draft)
    &&& forall|specs: Seq<PushView>| #[trigger] allowed(RequestView::Push { specs })
}

proof fn lemma_relink_from_only(
    from: TapeView,
    t: TapeView,
    c: ConfigView,
    opts: OptionsView,
    i: int,
    s: StackView,
    messages: Seq<MessageView>,
    allowed: spec_fn(RequestView) -> bool,
)
    requires
        tape::only(from, t, allowed),
        tape::may_write(allowed),
    ensures
        tape::only(from, syncing::relink_from(t, c, opts, i, s, messages).0, allowed),
    decreases s.layers.len() - i,
{
    broadcast use {tape::lemma_only_ask, execution::lemma_messages_edited_only};

    assert(tape::may_look(allowed));
    if i < 0 || i >= s.layers.len() {
    } else if !engine::in_scope(opts, i) || s.layers[i].pr is Some {
        lemma_relink_from_only(from, t, c, opts, i + 1, s, messages, allowed);
    } else {
        let (t1, number) = syncing::relink_of(t, c, s, i);
        assert(tape::only(from, t1, allowed));
        match number {
            Ok(None) => lemma_relink_from_only(from, t1, c, opts, i + 1, s, messages, allowed),
            Ok(Some(number)) => lemma_relink_from_only(
                from,
                t1,
                c,
                opts,
                i + 1,
                execution::with_pr(s, i, number),
                messages.update(
                    i,
                    crate::trailers::with_trailer(
                        messages[i],
                        crate::trailers::PULL_REQUEST@,
                        crate::config::pr_url(c, number),
                    ),
                ),
                allowed,
            ),
            Err(_) => {},
        }
    }
}

proof fn lemma_relinked_only(
    from: TapeView,
    t: TapeView,
    c: ConfigView,
    opts: OptionsView,
    s: StackView,
    allowed: spec_fn(RequestView) -> bool,
)
    requires
        tape::only(from, t, allowed),
        tape::may_write(allowed),
    ensures
        tape::only(from, syncing::relinked(t, c, opts, s).0, allowed),
{
    lemma_relink_from_only(
        from,
        t,
        c,
        opts,
        0,
        s,
        s.layers.map_values(|l: LayerView| l.message),
        allowed,
    );
}

proof fn lemma_round_only(
    from: TapeView,
    t: TapeView,
    c: ConfigView,
    s: StackView,
    opts: OptionsView,
    first: bool,
    allowed: spec_fn(RequestView) -> bool,
)
    requires
        tape::only(from, t, allowed),
        may_submit(allowed, opts.draft),
    ensures
        tape::only(from, syncing::round(t, c, s, opts, first).0, allowed),
{
    broadcast use {
        tape::lemma_only_ask,
        discovery::lemma_trees_of_only,
        engine::lemma_gathered_only,
        engine::lemma_decided_only,
        upgrade::lemma_reject_from_only,
    };

    assert(tape::may_look(allowed));
    let (t1, trees) = discovery::trees_of(t, s);
    if trees is Ok {
        let (t2, prs) = engine::gathered(t1, s);
        if prs is Ok && engine::first_unusable(prs->Ok_0, 0) is None {
            let (t3, r) = if first {
                upgrade::reject_from(t2, c, s, prs->Ok_0, opts.only_layer, 0)
            } else {
                tape::done(t2, ())
            };
            assert(tape::only(from, t3, allowed));
            if r is Ok {
                let (t4, decision) = engine::decided(t3, s, prs->Ok_0, trees->Ok_0, opts);
                if decision is Ok {
                    let cx = ContextView {
                        config: c,
                        stack: s,
                        prs: prs->Ok_0,
                        trees: trees->Ok_0,
                        decision: decision->Ok_0,
                        opts,
                    };
                    execution::lemma_executed_only(from, t4, cx, allowed);
                }
            }
        }
    }
}

proof fn lemma_synced_only(
    from: TapeView,
    t: TapeView,
    c: ConfigView,
    s: StackView,
    opts: OptionsView,
    allowed: spec_fn(RequestView) -> bool,
)
    requires
        tape::only(from, t, allowed),
        may_submit(allowed, opts.draft),
    ensures
        tape::only(from, syncing::synced(t, c, s, opts).0, allowed),
{
    broadcast use {tape::lemma_only_ask, syncing::lemma_externals_from_only};

    assert(tape::may_look(allowed) && tape::may_write(allowed));
    let (t1, s1) = syncing::externals_from(t, s, 0);
    if s1 is Ok {
        lemma_relinked_only(from, t1, c, opts, s1->Ok_0, allowed);
        let (t2, s2) = syncing::relinked(t1, c, opts, s1->Ok_0);
        if s2 is Ok {
            let (t3, settings) = tape::ask_settings(t2, RequestView::MergeSettings);
            assert(tape::only(from, t3, allowed));
            if settings is Ok {
                let full = OptionsView {
                    preserve_commit_history: crate::config::preserve_resolved(
                        c.preserve_commit_history,
                        settings->Ok_0,
                    ),
                    relink_asked: true,
                    ..opts
                };
                lemma_round_only(from, t3, c, s2->Ok_0, full, true, allowed);
                let (t4, e) = syncing::round(t3, c, s2->Ok_0, full, true);
                if e is Ok && (e->Ok_0).staged {
                    lemma_round_only(
                        from,
                        t4,
                        c,
                        (e->Ok_0).stack,
                        syncing::catch_up_options(full),
                        false,
                        allowed,
                    );
                }
            }
        }
    }
}

proof fn lemma_created_from_only(
    from: TapeView,
    t: TapeView,
    c: ConfigView,
    s: StackView,
    outcomes: Seq<OutcomeView>,
    k: int,
    colors: bool,
    allowed: spec_fn(RequestView) -> bool,
)
    requires
        tape::only(from, t, allowed),
        tape::may_look(allowed),
    ensures
        tape::only(from, session::created_from(t, c, s, outcomes, k, colors).0, allowed),
    decreases outcomes.len() - k,
{
    broadcast use session::lemma_said_only;

    if k < 0 || k >= outcomes.len() {
    } else if outcomes[k].action != engine::LayerAction::Created {
        lemma_created_from_only(from, t, c, s, outcomes, k + 1, colors, allowed);
    } else {
        let (t1, r) = session::said(t, session::created_line(c, s, outcomes[k], colors));
        if r is Ok {
            lemma_created_from_only(from, t1, c, s, outcomes, k + 1, colors, allowed);
        }
    }
}

proof fn lemma_reported_only(
    from: TapeView,
    t: TapeView,
    se: SessionView,
    s: StackView,
    outcomes: Seq<OutcomeView>,
    verbose: bool,
    allowed: spec_fn(RequestView) -> bool,
)
    requires
        tape::only(from, t, allowed),
        tape::may_look(allowed),
    ensures
        tape::only(from, session::reported(t, se, s, outcomes, verbose).0, allowed),
{
    broadcast use {session::lemma_said_only, status::lemma_stack_status_only};

    lemma_created_from_only(from, t, se.config, s, outcomes, 0, se.terminal.colors, allowed);
}

/// The options that come out of a preflight are those that went in, but for what depends
/// on the repository.
pub proof fn lemma_preflighted_options(t: TapeView, se: SessionView, s: StackView, opts: OptionsView)
    ensures
        session::preflighted(t, se, s, opts).1 matches Ok(full) ==> full == (OptionsView {
            preserve_commit_history: full.preserve_commit_history,
            refresh_when_behind: full.refresh_when_behind,
            ..opts
        }),
{
}

/// What comes after it is settled who answers questions.
spec fn continued(
    t: TapeView,
    se: SessionView,
    s: StackView,
    opts: OptionsView,
    verbose: bool,
) -> (TapeView, Result<(), HaltView>) {
    tape::bind(
        syncing::relinked(t, se.config, opts, s),
        |t: TapeView, s: StackView|
            tape::bind(
                session::preflighted(t, se, s, OptionsView { relink_asked: true, ..opts }),
                |t: TapeView, opts: OptionsView|
                    tape::bind(
                        syncing::synced(t, se.config, s, opts),
                        |t: TapeView, done: SyncedView|
                            tape::bind(
                                session::reported(t, se, done.stack, done.outcomes, verbose),
                                |t: TapeView, u: ()|
                                    session::commented(t, se.config, done.stack, verbose),
                            ),
                    ),
            ),
    )
}

proof fn lemma_continued_only(
    from: TapeView,
    t: TapeView,
    se: SessionView,
    s: StackView,
    opts: OptionsView,
    verbose: bool,
    allowed: spec_fn(RequestView) -> bool,
)
    requires
        tape::only(from, t, allowed),
        may_submit(allowed, opts.draft),
        stack_comment::may_comment(allowed),
    ensures
        tape::only(from, continued(t, se, s, opts, verbose).0, allowed),
{
    broadcast use {
        tape::lemma_only_ask,
        session::lemma_preflighted_only,
        session::lemma_said_only,
        stack_comment::lemma_comments_from_only,
    };

    assert(tape::may_look(allowed) && tape::may_write(allowed));
    lemma_relinked_only(from, t, se.config, opts, s, allowed);
    let (t2, s2) = syncing::relinked(t, se.config, opts, s);
    if s2 is Ok {
        let s2 = s2->Ok_0;
        let asked = OptionsView { relink_asked: true, ..opts };
        lemma_preflighted_options(t2, se, s2, asked);
        let (t3, full) = session::preflighted(t2, se, s2, asked);
        assert(tape::only(from, t3, allowed));
        if full is Ok {
            lemma_synced_only(from, t3, se.config, s2, full->Ok_0, allowed);
            let (t4, done) = syncing::synced(t3, se.config, s2, full->Ok_0);
            if done is Ok {
                let done = done->Ok_0;
                lemma_reported_only(from, t4, se, done.stack, done.outcomes, verbose, allowed);
            }
        }
    }
}

proof fn lemma_submitted_only(
    from: TapeView,
    t: TapeView,
    se: SessionView,
    s: StackView,
    args: DiffArgsView,
    verbose: bool,
    only_layer: Option<usize>,
    allowed: spec_fn(RequestView) -> bool,
)
    requires
        tape::only(from, t, allowed),
        may_submit(allowed, args.draft),
        stack_comment::may_comment(allowed),
    ensures
        tape::only(
            from,
            session::submitted(t, se, s, args, verbose, only_layer).0,
            allowed,
        ),
{
    broadcast use tape::lemma_only_ask;

    assert(tape::may_look(allowed));
    let opts = session::diff_options(args, only_layer);
    let q = RequestView::Prompting { interactive: !args.no_prompt && args.message is None };
    let (t1, r) = tape::ask_unit(t, q);
    assert(tape::only(from, t1, allowed));
    if r is Ok {
        lemma_continued_only(from, t1, se, s, opts, verbose, allowed);
        assert(session::submitted(t, se, s, args, verbose, only_layer) == continued(
            t1,
            se,
            s,
            opts,
            verbose,
        ));
    }
}

/// Before a `diff` does anything with the stack, it is settled whether the user may be
/// asked: not where the user said no, and not where the message is given.
pub proof fn law_nobody_is_asked_in_vain(
    t: TapeView,
    se: SessionView,
    s: StackView,
    args: DiffArgsView,
    verbose: bool,
    only_layer: Option<usize>,
)
    ensures
        ({
            let to = session::submitted(t, se, s, args, verbose, only_layer).0;
            let n = t.asked.len() as int;
            &&& to.asked.len() > n
            &&& to.asked[n] is Prompting
            &&& to.asked[n]->Prompting_interactive <==> !args.no_prompt && args.message is None
        }),
{
    let any = |q: RequestView| true;
    let opts = session::diff_options(args, only_layer);
    let q = RequestView::Prompting { interactive: !args.no_prompt && args.message is None };
    let (t1, r) = tape::ask_unit(t, q);
    let to = session::submitted(t, se, s, args, verbose, only_layer).0;
    assert(t1.asked[t.asked.len() as int] == q);
    if r is Ok {
        tape::lemma_only_start(t1, any);
        lemma_continued_only(t1, t1, se, s, opts, verbose, any);
        assert(session::submitted(t, se, s, args, verbose, only_layer) == continued(
            t1,
            se,
            s,
            opts,
            verbose,
        ));
        assert(to.asked[t.asked.len() as int] == q);
    }
}

pub proof fn lemma_diffed_only(
    from: TapeView,
    t: TapeView,
    se: SessionView,
    args: DiffArgsView,
    verbose: bool,
    allowed: spec_fn(RequestView) -> bool,
)
    requires
        tape::only(from, t, allowed),
        may_submit(allowed, args.draft),
        stack_comment::may_comment(allowed),
    ensures
        tape::only(from, session::diffed(t, se, args, verbose).0, allowed),
{
    broadcast use {
        tape::lemma_only_ask,
        session::lemma_stack_found_only,
        history::lemma_messages_rewritten_only,
        upgrade::lemma_legacy_rejected_only,
    };

    assert(tape::may_look(allowed) && tape::may_write(allowed));
    let (t1, s) = session::stack_found(t, se);
    if s is Ok {
        let s = s->Ok_0;
        if args.cherry_pick {
            let (t2, freed) = session::head_freed(t1, se, s);
            assert(tape::only(from, t2, allowed));
            if freed is Ok {
                lemma_submitted_only(
                    from,
                    t2,
                    se,
                    freed->Ok_0,
                    args,
                    verbose,
                    Some((s.layers.len() - 1) as usize),
                    allowed,
                );
            }
        } else {
            let (t2, r) = upgrade::legacy_rejected(t1, se.config, s);
            if r is Ok {
                lemma_submitted_only(from, t2, se, s, args, verbose, None, allowed);
            }
        }
    }
}

/// What a `diff` does to pull requests follows from what the user asked for: those that it
/// opens are drafts exactly if the user asked for drafts, and it merges, closes and reopens
/// none.
pub proof fn law_diff_opens_what_was_asked_for(
    t: TapeView,
    se: SessionView,
    args: DiffArgsView,
    verbose: bool,
    k: int,
)
    requires
        t.asked.len() <= k < session::diffed(t, se, args, verbose).0.asked.len(),
    ensures
        match session::diffed(t, se, args, verbose).0.asked[k] {
            RequestView::CreatePullRequest { pr } => pr.draft == args.draft,
            RequestView::UpdatePullRequest { number, update } => update.state is None,
            RequestView::TryUpdatePullRequest { .. } => false,
            RequestView::MergePullRequest { .. } => false,
            RequestView::Unstack { .. } => false,
            _ => true,
        },
{
    let allowed = |q: RequestView|
        match q {
            RequestView::CreatePullRequest { pr } => pr.draft == args.draft,
            RequestView::UpdatePullRequest { number, update } => update.state is None,
            RequestView::TryUpdatePullRequest { .. } => false,
            RequestView::MergePullRequest { .. } => false,
            RequestView::Unstack { .. } => false,
            _ => true,
        };
    tape::lemma_only_start(t, allowed);
    lemma_diffed_only(t, t, se, args, verbose, allowed);
    assert(allowed(session::diffed(t, se, args, verbose).0.asked[k]));
}

} // verus!
