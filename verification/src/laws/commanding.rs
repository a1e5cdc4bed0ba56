//! What the commands promise not to do to pull requests that they are not about.

use vstd::prelude::*;

use crate::cli;
use crate::close;
use crate::commands;
use crate::config;
use crate::config::ConfigView;
use crate::discovery;
use crate::engine;
use crate::forge;
use crate::forge::{PrState, PrView, UpdateView};
use crate::laws::closing;
use crate::laws::submitting;
use crate::pr_body;
use crate::refs;
use crate::session;
use crate::session::SessionView;
use crate::stack;
use crate::stack::StackView;
use crate::stack_comment;
use crate::sync;
use crate::tape;
use crate::tape::{RequestView, TapeView};

verus! {

/// The most that a command may do to pull requests which closes one of them at most: it
/// merges none, makes no drafts of new ones, and changes the state of no other one.
pub open spec fn spares_others(q: RequestView, number: Option<u64>) -> bool {
    match q {
        RequestView::UpdatePullRequest { number: n, update } => update.state matches Some(state)
            ==> Some(n) == number && state == PrState::Closed,
        RequestView::TryUpdatePullRequest { .. } => false,
        RequestView::MergePullRequest { .. } => false,
        RequestView::CreatePullRequest { pr } => !pr.draft,
        _ => true,
    }
}

proof fn lemma_spares(number: Option<u64>)
    ensures
        ({
            let allowed = |q: RequestView| spares_others(q, number);
            &&& submitting::may_submit(allowed, false)
            &&& stack_comment::may_comment(allowed)
            &&& tape::may_look(allowed)
            &&& tape::may_write(allowed)
        }),
{
}

proof fn lemma_bodies_only(
    from: TapeView,
    t: TapeView,
    prs: Seq<Option<PrView>>,
    k: int,
    warn: bool,
    allowed: spec_fn(RequestView) -> bool,
)
    requires
        tape::only(from, t, allowed),
        tape::may_follow_up(allowed),
    ensures
        tape::only(from, commands::bodies_from(t, prs, k, warn).0, allowed),
    decreases prs.len() - k,
{
    broadcast use tape::lemma_only_ask;

    if 0 <= k < prs.len() {
        match prs[k] {
            Some(pr) => if pr_body::with_warning(pr.body, warn) == pr.body {
                lemma_bodies_only(from, t, prs, k + 1, warn, allowed);
            } else {
                let (t1, r) = tape::ask_unit(
                    t,
                    RequestView::UpdatePullRequest {
                        number: pr.number,
                        update: UpdateView {
                            body: Some(pr_body::with_warning(pr.body, warn)),
                            ..forge::no_update()
                        },
                    },
                );
                if r is Ok {
                    lemma_bodies_only(from, t1, prs, k + 1, warn, allowed);
                }
            },
            None => lemma_bodies_only(from, t, prs, k + 1, warn, allowed),
        }
    }
}

proof fn lemma_metadata_only(
    from: TapeView,
    t: TapeView,
    se: SessionView,
    allowed: spec_fn(RequestView) -> bool,
)
    requires
        tape::only(from, t, allowed),
        tape::may_follow_up(allowed),
        stack_comment::may_comment(allowed),
    ensures
        tape::only(from, commands::metadata_refreshed(t, se).0, allowed),
{
    broadcast use {
        tape::lemma_only_ask,
        discovery::lemma_discovered_only,
        engine::lemma_gathered_only,
        stack_comment::lemma_comments_from_only,
    };

    assert(tape::may_look(allowed));
    let c = se.config;
    let (t1, found) = discovery::discovered(t, se.trunk_oid, c.trunk);
    assert(tape::only(from, t1, allowed));
    if found is Ok && (found->Ok_0).layers.len() > 0 {
        let s = found->Ok_0;
        let (t2, r2) = tape::ask_unit(t1, RequestView::SyncStacks { chains: stack::chains(s) });
        assert(tape::only(from, t2, allowed));
        let (t3, r3) = if c.stack_comments {
            stack_comment::comments_from(t2, c, s, 0, 0)
        } else {
            tape::done(t2, 0usize)
        };
        assert(tape::only(from, t3, allowed));
        let (t4, settings) = tape::ask_settings(t3, RequestView::MergeSettings);
        assert(tape::only(from, t4, allowed));
        let (t5, prs) = engine::gathered(t4, s);
        assert(tape::only(from, t5, allowed));
        if r2 is Ok && r3 is Ok && settings is Ok && prs is Ok {
            lemma_bodies_only(
                from,
                t5,
                prs->Ok_0,
                0,
                config::preserve_resolved(c.preserve_commit_history, settings->Ok_0)
                    && !forge::squash_only(settings->Ok_0),
                allowed,
            );
        }
    }
}

proof fn lemma_restacked_only(
    from: TapeView,
    t: TapeView,
    se: SessionView,
    allowed: spec_fn(RequestView) -> bool,
)
    requires
        tape::only(from, t, allowed),
        submitting::may_submit(allowed, false),
        stack_comment::may_comment(allowed),
    ensures
        tape::only(from, commands::restacked(t, se).0, allowed),
{
    broadcast use session::lemma_said_only;

    assert(tape::may_look(allowed));
    let (t1, r) = session::said(t, "Restacking...\n"@);
    assert(tape::only(from, t1, allowed));
    submitting::lemma_diffed_only(from, t1, se, commands::quiet_diff(), false, allowed);
}

proof fn lemma_close_followed_only(
    from: TapeView,
    t: TapeView,
    se: SessionView,
    moved: bool,
    allowed: spec_fn(RequestView) -> bool,
)
    requires
        tape::only(from, t, allowed),
        submitting::may_submit(allowed, false),
        stack_comment::may_comment(allowed),
    ensures
        tape::only(from, commands::close_followed(t, se, moved).0, allowed),
{
    lemma_restacked_only(from, t, se, allowed);
    lemma_metadata_only(from, t, se, allowed);
}

proof fn lemma_rebased_only(
    from: TapeView,
    t: TapeView,
    prs: Seq<Option<PrView>>,
    k: int,
    old_base: Seq<char>,
    new_base: Seq<char>,
    moved: bool,
    allowed: spec_fn(RequestView) -> bool,
)
    requires
        tape::only(from, t, allowed),
        tape::may_follow_up(allowed),
    ensures
        tape::only(
            from,
            commands::rebased_from(t, prs, k, old_base, new_base, moved).0,
            allowed,
        ),
    decreases prs.len() - k,
{
    broadcast use tape::lemma_only_ask;

    if 0 <= k < prs.len() {
        match prs[k] {
            Some(pr) => if pr.base == old_base {
                let (t1, r) = tape::ask_unit(
                    t,
                    RequestView::UpdatePullRequest {
                        number: pr.number,
                        update: UpdateView { base: Some(new_base), ..forge::no_update() },
                    },
                );
                if r is Ok {
                    lemma_rebased_only(from, t1, prs, k + 1, old_base, new_base, true, allowed);
                }
            } else {
                lemma_rebased_only(from, t, prs, k + 1, old_base, new_base, moved, allowed);
            },
            None => lemma_rebased_only(from, t, prs, k + 1, old_base, new_base, moved, allowed),
        }
    }
}

proof fn lemma_layer_closed_spares(
    from: TapeView,
    t: TapeView,
    c: ConfigView,
    s: StackView,
    index: usize,
    number: u64,
)
    requires
        s.layers.len() <= usize::MAX,
        s.layers[index as int].pr == Some(number),
        tape::only(from, t, |q: RequestView| spares_others(q, Some(number))),
    ensures
        tape::only(
            from,
            close::layer_closed(t, c, s, index).0,
            |q: RequestView| spares_others(q, Some(number)),
        ),
{
    let any = |q: RequestView| true;
    let allowed = |q: RequestView| spares_others(q, Some(number));
    let to = close::layer_closed(t, c, s, index).0;
    tape::lemma_only_start(t, any);
    close::lemma_layer_closed_only(t, t, c, s, index, any);
    assert forall|k: int| t.asked.len() <= k < to.asked.len() implies allowed(
        #[trigger] to.asked[k],
    ) by {
        if tape::touches_forge(to.asked[k]) {
            closing::law_close_closes_that_pull_request(t, c, s, index, k);
        }
    }
    assert(tape::only(t, to, allowed));
    tape::lemma_only_trans(from, t, to, allowed);
}

/// Closing a pull request closes no other one, whether its commit is still in the stack or
/// not, and merges none.
pub proof fn law_close_spares_the_others(t: TapeView, se: SessionView, number: u64, k: int)
    requires
        t.asked.len() <= k < commands::closed(t, se, number).0.asked.len(),
        session::stack_found(t, se).1 matches Ok(s) ==> s.layers.len() <= usize::MAX,
    ensures
        spares_others(commands::closed(t, se, number).0.asked[k], Some(number)),
{
    broadcast use {
        tape::lemma_only_ask,
        session::lemma_stack_found_only,
        session::lemma_said_only,
        session::lemma_warned_from_only,
        engine::lemma_gathered_only,
    };

    let allowed = |q: RequestView| spares_others(q, Some(number));
    lemma_spares(Some(number));
    let to = commands::closed(t, se, number).0;
    tape::lemma_only_start(t, allowed);
    let (t1, s) = session::stack_found(t, se);
    assert(tape::only(t, t1, allowed));
    if s is Ok {
        let s = s->Ok_0;
        match cli::layer_with(s, number, 0) {
            Some(index) => {
                lemma_found(s, number, 0);
                lemma_layer_closed_spares(t, t1, se.config, s, index, number);
                let (t2, o) = close::layer_closed(t1, se.config, s, index);
                if o is Ok {
                    let o = o->Ok_0;
                    let line = commands::event_line(
                        "closed"@,
                        crate::paint::Hue::Red,
                        o.number,
                        o.title,
                        se.terminal.colors,
                    ) + "\n"@;
                    let (t3, r3) = session::said(t2, line);
                    let (t4, r4) = session::warned_from(
                        t3,
                        o.warnings,
                        0,
                        se.terminal.colors,
                    );
                    assert(tape::only(t, t4, allowed));
                    lemma_close_followed_only(t, t4, se, o.retargeted.len() > 0, allowed);
                }
            },
            None => {
                let (t2, pr) = tape::ask_pr(t1, RequestView::GetPullRequest { number });
                assert(tape::only(t, t2, allowed));
                if pr is Ok && (pr->Ok_0).state == PrState::Open {
                    let pr = pr->Ok_0;
                    let (t3, prs) = engine::gathered(t2, s);
                    assert(tape::only(t, t3, allowed));
                    if prs is Ok {
                        lemma_rebased_only(
                            t,
                            t3,
                            prs->Ok_0,
                            0,
                            pr.head,
                            pr.base,
                            false,
                            allowed,
                        );
                        let (t4, moved) = commands::rebased_from(
                            t3,
                            prs->Ok_0,
                            0,
                            pr.head,
                            pr.base,
                            false,
                        );
                        if moved is Ok {
                            let shut = RequestView::UpdatePullRequest {
                                number,
                                update: UpdateView {
                                    state: Some(PrState::Closed),
                                    ..forge::no_update()
                                },
                            };
                            assert(allowed(shut));
                            let (t5, r5) = tape::ask_unit(t4, shut);
                            let (t6, r6) = tape::tolerated(refs::removed(t5, number));
                            assert(tape::only(t, t6, allowed));
                            let line = commands::event_line(
                                "closed"@,
                                crate::paint::Hue::Red,
                                number,
                                pr.title,
                                se.terminal.colors,
                            ) + "\n"@;
                            let (t7, r7) = session::said(t6, line);
                            assert(tape::only(t, t7, allowed));
                            lemma_close_followed_only(t, t7, se, moved->Ok_0, allowed);
                        }
                    }
                }
            },
        }
    }
    assert(tape::only(t, to, allowed));
    assert(allowed(to.asked[k]));
}

proof fn lemma_found(s: StackView, number: u64, i: int)
    requires
        0 <= i <= s.layers.len() <= usize::MAX,
    ensures
        cli::layer_with(s, number, i) matches Some(k) ==> k < s.layers.len()
            && s.layers[k as int].pr == Some(number),
    decreases s.layers.len() - i,
{
    if i < s.layers.len() {
        lemma_found(s, number, i + 1);
    }
}

/// Bringing the stack up to date with the trunk closes and merges no pull request.
pub proof fn law_sync_spares_all(t: TapeView, se: SessionView, k: int)
    requires
        t.asked.len() <= k < commands::sync_run(t, se).0.asked.len(),
    ensures
        spares_others(commands::sync_run(t, se).0.asked[k], None),
{
    broadcast use {
        tape::lemma_only_ask,
        session::lemma_stack_found_only,
        session::lemma_said_only,
        session::lemma_warned_from_only,
        discovery::lemma_discovered_only,
    };

    let allowed = |q: RequestView| spares_others(q, None);
    lemma_spares(None);
    let to = commands::sync_run(t, se).0;
    tape::lemma_only_start(t, allowed);
    let (t1, s) = session::stack_found(t, se);
    assert(tape::only(t, t1, allowed));
    if s is Ok {
        let s = s->Ok_0;
        sync::law_sync_leaves_the_forge_alone(t1, se.config, s);
        let (t2, report) = sync::trunk_synced(t1, se.config, s);
        let quiet = |q: RequestView| !tape::touches_forge(q);
        assert(tape::only(t1, t2, quiet));
        assert forall|x: int| t1.asked.len() <= x < t2.asked.len() implies allowed(
            #[trigger] t2.asked[x],
        ) by {
            assert(quiet(t2.asked[x]));
        }
        assert(tape::only(t1, t2, allowed));
        tape::lemma_only_trans(t, t1, t2, allowed);
        if report is Ok {
            let report = report->Ok_0;
            let (t3, r3) = commands::sync_told(t2, se, report);
            assert(tape::only(t, t3, allowed));
            if r3 is Ok {
                let now = SessionView { trunk_oid: report.trunk, ..se };
                if report.rebased {
                    let (t4, short) = tape::ask_text(
                        t3,
                        RequestView::ShortId { commit: now.trunk_oid },
                    );
                    assert(tape::only(t, t4, allowed));
                    if short is Ok {
                        let (t5, r5) = session::said(
                            t4,
                            "Rebased onto "@ + short->Ok_0 + ".\n"@,
                        );
                        let (t6, left) = tape::tolerated(
                            discovery::discovered(t5, now.trunk_oid, now.config.trunk),
                        );
                        assert(tape::only(t, t5, allowed));
                        assert(tape::only(t, t6, allowed));
                        lemma_restacked_only(t, t6, now, allowed);
                    }
                }
            }
        }
    }
    assert(tape::only(t, to, allowed));
    assert(allowed(to.asked[k]));
}

} // verus!
