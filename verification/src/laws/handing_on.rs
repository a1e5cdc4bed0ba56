//! What is promised of how a command hands on what the user asked for.

use vstd::prelude::*;

use crate::amend;
use crate::amend::EditsView;
use crate::cli::{DiffArgsView, LandArgsView};
use crate::close;
use crate::commands;
use crate::config::ConfigView;
use crate::engine::OptionsView;
use crate::execution;
use crate::history;
use crate::land;
use crate::land::LandOptionsView;
use crate::laws::catching_up;
use crate::laws::submitting;
use crate::oid::Oid;
use crate::patch;
use crate::refs;
use crate::session;
use crate::session::SessionView;
use crate::stack::StackView;
use crate::sync;
use crate::sync::FindingsView;
use crate::syncing;
use crate::tape;
use crate::tape::{HaltView, ReplyView, RequestView, TapeView};
use crate::upgrade;

verus! {

/// The stack was brought up to date with the options that a `diff` was given.
pub open spec fn synced_as_asked(
    c: ConfigView,
    args: DiffArgsView,
    only_layer: Option<usize>,
    t: TapeView,
    s: StackView,
    opts: OptionsView,
) -> bool {
    &&& opts.sync_all == args.all
    &&& opts.message == args.message
    &&& opts.update_message == args.update_message
    &&& opts.draft == args.draft
    &&& opts.only_layer == only_layer
    &&& opts.relink_asked
    &&& syncing::synced(t, c, s, opts).1 is Ok
}

/// A `diff` that went through has brought the stack up to date, with the options that the
/// user gave.
pub proof fn law_diff_syncs_as_asked(
    t: TapeView,
    se: SessionView,
    s: StackView,
    args: DiffArgsView,
    verbose: bool,
    only_layer: Option<usize>,
)
    requires
        session::submitted(t, se, s, args, verbose, only_layer).1 is Ok,
    ensures
        exists|t3: TapeView, s3: StackView, opts: OptionsView| #[trigger]
            synced_as_asked(se.config, args, only_layer, t3, s3, opts),
{
    let opts = session::diff_options(args, only_layer);
    let q = RequestView::Prompting { interactive: !args.no_prompt && args.message is None };
    let (t1, r1) = tape::ask_unit(t, q);
    let (t2, s2) = syncing::relinked(t1, se.config, opts, s);
    let asked = OptionsView { relink_asked: true, ..opts };
    let (t3, full) = session::preflighted(t2, se, s2->Ok_0, asked);
    submitting::lemma_preflighted_options(t2, se, s2->Ok_0, asked);
    assert(syncing::synced(t3, se.config, s2->Ok_0, full->Ok_0).1 is Ok);
    assert(synced_as_asked(se.config, args, only_layer, t3, s2->Ok_0, full->Ok_0));
}

/// A round was made with the options.
pub open spec fn round_as_asked(c: ConfigView, opts: OptionsView, t: TapeView, s: StackView, full: OptionsView) -> bool {
    &&& full == (OptionsView {
        preserve_commit_history: full.preserve_commit_history,
        relink_asked: true,
        ..opts
    })
    &&& syncing::round(t, c, s, full, true).1 is Ok
}

/// Bringing a stack up to date makes a round with the very options that were given, but
/// for what depends on the repository.
pub proof fn law_sync_makes_a_round_as_asked(t: TapeView, c: ConfigView, s: StackView, opts: OptionsView)
    requires
        syncing::synced(t, c, s, opts).1 is Ok,
    ensures
        exists|t3: TapeView, s3: StackView, full: OptionsView| #[trigger]
            round_as_asked(c, opts, t3, s3, full),
{
    let (t1, s1) = syncing::externals_from(t, s, 0);
    let (t2, s2) = syncing::relinked(t1, c, opts, s1->Ok_0);
    let (t3, settings) = tape::ask_settings(t2, RequestView::MergeSettings);
    let full = OptionsView {
        preserve_commit_history: crate::config::preserve_resolved(
            c.preserve_commit_history,
            settings->Ok_0,
        ),
        relink_asked: true,
        ..opts
    };
    assert(syncing::round(t3, c, s2->Ok_0, full, true).1 is Ok);
    assert(round_as_asked(c, opts, t3, s2->Ok_0, full));
}

/// A `diff` with `--cherry-pick` is about the topmost commit alone, after it was made to
/// depend on the trunk; any other one is about the whole stack, and only if `spr` made
/// none of it.
pub proof fn law_cherry_pick_is_about_the_top(
    t: TapeView,
    se: SessionView,
    args: DiffArgsView,
    verbose: bool,
)
    requires
        session::diffed(t, se, args, verbose).1 is Ok,
    ensures
        ({
            let (t1, s) = session::stack_found(t, se);
            let s = s->Ok_0;
            let (t2, freed) = session::head_freed(t1, se, s);
            let (t3, clear) = upgrade::legacy_rejected(t1, se.config, s);
            &&& session::stack_found(t, se).1 is Ok
            &&& args.cherry_pick ==> freed is Ok && session::diffed(t, se, args, verbose)
                == session::submitted(
                t2,
                se,
                freed->Ok_0,
                args,
                verbose,
                Some((s.layers.len() - 1) as usize),
            )
            &&& !args.cherry_pick ==> clear is Ok && session::diffed(t, se, args, verbose)
                == session::submitted(t3, se, s, args, verbose, None)
        }),
{
}

/// The topmost commit is made to depend on the trunk in the local history, unless it does,
/// and the stack is then found anew.
pub proof fn law_top_is_freed_in_the_history(t: TapeView, se: SessionView, s: StackView)
    requires
        s.layers.len() > 0,
    ensures
        s.layers.last().dep == crate::stack::Dep::Main ==> session::head_freed(t, se, s)
            == tape::done(t, s),
        s.layers.last().dep != crate::stack::Dep::Main ==> (session::head_freed(
            t,
            se,
            s,
        ).1 matches Ok(freed) ==> ({
            let (t1, r) = history::messages_rewritten(
                t,
                s.base,
                execution::rewrites(s, session::independent(s, se.config.trunk)),
            );
            r is Ok && session::stack_found(t1, se).1 == Ok::<StackView, HaltView>(freed)
        })),
{
}

proof fn lemma_rebased_last(t: TapeView, commits: Seq<Oid>, onto: Oid)
    ensures
        history::commits_rebased(t, commits, onto).1 is Ok ==> history::commits_rebased(
            t,
            commits,
            onto,
        ).0.asked.last() is CheckoutHead,
{
    history::law_head_moves_last(t, commits, onto);
}

/// After `land` the local commits that did not land sit on the trunk: the last thing that
/// is done is to check their new top out.
pub proof fn law_land_rebases_what_is_left(t: TapeView, c: ConfigView, s: StackView, args: LandArgsView)
    ensures
        commands::landed(t, c, s, args).1 is Ok ==> commands::landed(
            t,
            c,
            s,
            args,
        ).0.asked.last() is CheckoutHead,
{
    let opts = LandOptionsView { message: args.message, keep_local: false };
    let (to, r) = commands::landed(t, c, s, args);
    if r is Ok {
        if args.all && crate::cli::named_pr(args) is None && !args.cherry_pick {
            let (t1, r1) = tape::ask_unit(t, RequestView::CheckClean);
            let (t2, r2) = upgrade::legacy_rejected(t1, c, s);
            if land::landable_from(s, 0) is None {
                lemma_single_rebases(t2, c, s, 0, opts);
            } else {
                let (t3, trunk) = land::trunk_tip(t2, c);
                let (t4, prs) = land::survey_from(t3, c, s, 0, Seq::empty());
                let start = land::landing_start(s, trunk->Ok_0, prs->Ok_0);
                let (t5, st) = land::land_from(t4, c, s, opts, 0, start);
                let (t6, left) = land::remaining_repaired(t5, c, s, st->Ok_0);
                let left = left->Ok_0;
                lemma_rebased_last(
                    t6,
                    land::unlanded(s, left.landed, s.layers.len() as int),
                    left.trunk,
                );
            }
        } else {
            let index = crate::cli::land_target(s, args, c.trunk)->Ok_0;
            lemma_single_rebases(t, c, s, index, opts);
        }
    }
}

proof fn lemma_single_rebases(
    t: TapeView,
    c: ConfigView,
    s: StackView,
    index: usize,
    opts: LandOptionsView,
)
    requires
        !opts.keep_local,
    ensures
        land::layer_landed(t, c, s, index, opts).1 is Ok ==> land::layer_landed(
            t,
            c,
            s,
            index,
            opts,
        ).0.asked.last() is CheckoutHead,
{
    if land::layer_landed(t, c, s, index, opts).1 is Ok {
        let (t1, r1) = tape::ask_unit(t, RequestView::CheckClean);
        let (t2, r2) = upgrade::legacy_rejected(t1, c, s);
        let (t3, pr) = land::landing_checked(t2, c, s, index as int);
        let pr = pr->Ok_0;
        let number = s.layers[index as int].pr->0;
        let (t4, snap) = land::snapshot_from(
            t3,
            c,
            s,
            crate::stack::dependents(s, index as int),
            0,
            land::empty_snapshot(),
        );
        let snap = snap->Ok_0;
        let (t5, squash) = land::squashed(t4, c, s, index, number, pr, opts, snap.dependents);
        let squash = squash->Ok_0;
        let (t6, run) = land::repair_from(
            t5,
            s,
            index,
            number,
            snap.dependents,
            0,
            land::no_repairs(s, index, pr, squash, snap.warnings),
        );
        let run = run->Ok_0;
        let (t7, r7) = tape::ask_unit(
            t6,
            RequestView::Push { specs: run.specs.push(land::landed_push(pr.head, number)) },
        );
        let (t8, r8) = land::record_from(t7, run.recorded, 0);
        let (t9, r9) = refs::removed(t8, number);
        lemma_rebased_last(
            t9,
            land::unlanded(s, land::only(index, s.layers.len()), s.layers.len() as int),
            squash,
        );
    }
}

/// `amend` rewrites the local history exactly if some message changes, with the messages
/// that were worked out, and reports exactly those changes.
pub proof fn law_amend_rewrites_what_changed(t: TapeView, s: StackView)
    ensures
        ({
            let (to, r) = amend::amended(t, s);
            let (t1, clean) = tape::ask_unit(t, RequestView::CheckClean);
            let none = EditsView { rewrites: Seq::empty(), changed: Seq::empty() };
            let (t2, e) = amend::edits_from(t1, s, 0, none);
            r matches Ok(changed) ==> {
                &&& clean is Ok
                &&& e is Ok
                &&& changed == (e->Ok_0).changed
                &&& changed.len() == 0 ==> to == t2
                &&& changed.len() > 0 ==> to == history::messages_rewritten(
                    t2,
                    s.base,
                    (e->Ok_0).rewrites,
                ).0 && history::messages_rewritten(t2, s.base, (e->Ok_0).rewrites).1 is Ok
            }
        }),
{
}

/// Closing a layer drops its commit from the local history, and no other one: the others
/// are put on the base of the stack again, after their messages were brought in line.
pub proof fn law_close_drops_the_commit(
    t: TapeView,
    s: StackView,
    index: usize,
    number: u64,
    layers: Seq<usize>,
    spec: Seq<char>,
)
    ensures
        ({
            let (to, r) = close::dropped(t, s, index, number, layers, spec);
            let (t1, messages) = close::reread_from(t, s, 0, Seq::empty());
            let (t2, rewritten) = history::messages_rewritten(
                t1,
                s.base,
                close::paired(
                    s,
                    close::renamed_from(s, layers, number, spec, 0, messages->Ok_0),
                ),
            );
            r is Ok ==> {
                &&& messages is Ok
                &&& rewritten is Ok
                &&& index < (rewritten->Ok_0).len() ==> ({
                    let (t3, rebased) = history::commits_rebased(
                        t2,
                        (rewritten->Ok_0).remove(index as int),
                        s.base,
                    );
                    rebased is Ok && to == refs::removed(t3, number).0
                })
            }
        }),
{
    let (t1, messages) = close::reread_from(t, s, 0, Seq::empty());
    let (t2, rewritten) = history::messages_rewritten(
        t1,
        s.base,
        close::paired(s, close::renamed_from(s, layers, number, spec, 0, messages->Ok_0)),
    );
    if index < (rewritten->Ok_0).len() {
        crate::laws::closing::law_only_the_closed_commit_goes(rewritten->Ok_0, index as int);
    }
}

/// `sync` works with the tip of the trunk that the forge gives, and counts as merged
/// exactly the pull requests of the stack that the forge says are merged.
pub proof fn law_sync_goes_by_the_forge(t: TapeView, c: ConfigView, s: StackView)
    ensures
        ({
            let (to, r) = sync::trunk_synced(t, c, s);
            let (t1, clean) = tape::ask_unit(t, RequestView::CheckClean);
            let (t2, clear) = upgrade::legacy_rejected(t1, c, s);
            let (t3, trunk) = land::trunk_tip(t2, c);
            let none = FindingsView { merged: Seq::empty(), warnings: Seq::empty() };
            let (t4, f) = sync::findings_from(t3, s, 0, none);
            r matches Ok(report) ==> {
                &&& clean is Ok && clear is Ok
                &&& tape::told(
                    t3,
                    RequestView::BranchOid { branch: c.trunk },
                    ReplyView::MaybeObject(Some(report.trunk)),
                )
                &&& f is Ok
                &&& report.merged == (f->Ok_0).merged
                &&& forall|k: int|
                    0 <= k < report.merged.len() ==> sync::said_merged(
                        t4,
                        #[trigger] report.merged[k],
                    )
                &&& forall|k: int|
                    t3.asked.len() <= k < t4.asked.len() && k < t4.replies.len() ==> sync::entered(
                        #[trigger] t4.asked[k],
                        t4.replies[k],
                        report.merged,
                    )
            }
        }),
{
    let (t1, clean) = tape::ask_unit(t, RequestView::CheckClean);
    let (t2, clear) = upgrade::legacy_rejected(t1, c, s);
    catching_up::law_trunk_tip_is_what_the_forge_says(t2, c);
    let (t3, trunk) = land::trunk_tip(t2, c);
    sync::law_merges_are_told_by_state(t3, s);
}

/// `patch` asks for a clean work tree and checks the branch out exactly if the user wants
/// it checked out.
pub proof fn law_patch_checks_out_as_asked(
    t: TapeView,
    c: ConfigView,
    trunk_oid: Oid,
    number: u64,
    given: Option<Seq<char>>,
    no_checkout: bool,
)
    ensures
        ({
            let (to, r) = patch::patched(t, c, trunk_oid, number, given, no_checkout);
            &&& !no_checkout ==> tape::ask(t, RequestView::CheckClean).1 is Err ==> to.asked
                == t.asked.push(RequestView::CheckClean)
            &&& no_checkout ==> tape::ask(
                t,
                RequestView::GetPullRequest { number },
            ).1 is Err ==> to.asked == t.asked.push(RequestView::GetPullRequest { number })
            &&& r matches Ok(o) ==> {
                &&& o.checked_out == !no_checkout
                &&& to.asked.last() is CheckoutBranch <==> !no_checkout
                &&& !no_checkout ==> to.asked.last() == (RequestView::CheckoutBranch {
                    branch: o.branch,
                })
                &&& given matches Some(name) ==> o.branch == name
            }
        }),
{
    let (to, r) = patch::patched(t, c, trunk_oid, number, given, no_checkout);
    if r is Ok {
        let (t1, r1) = if no_checkout {
            tape::done(t, ())
        } else {
            tape::ask_unit(t, RequestView::CheckClean)
        };
        let (t2, target) = tape::ask_pr(t1, RequestView::GetPullRequest { number });
        let target = target->Ok_0;
        let (t3, chain) = patch::chain_down(t2, c.trunk, target, seq![number], seq![target]);
        let chain = chain->Ok_0;
        let (t4, r4) = patch::fetch_from(t3, chain, 0);
        let (t5, parent) = patch::foundation(t4, c.trunk, chain[0], trunk_oid);
        let start = patch::BuiltView {
            parent: parent->Ok_0,
            commits: Seq::empty(),
            prs: Seq::empty(),
        };
        let (t6, built) = patch::build_from(t5, c, chain, 0, start);
        catching_up::law_patch_makes_the_branch(
            t6,
            number,
            given,
            target.state,
            no_checkout,
            built->Ok_0,
        );
    }
}

} // verus!
