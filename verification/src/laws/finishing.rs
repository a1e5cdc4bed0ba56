//! What is promised of the ends of landings and closings, and of what hangs on a stack.

use vstd::prelude::*;

use crate::close;
use crate::commands;
use crate::config::{ConfigView, PreserveCommitHistory};
use crate::forge::{PrView, RepoMergeSettings, UpdateView};
use crate::github;
use crate::guardrails;
use crate::land;
use crate::land::{LandOutcomeView, LandingView, LayerPrView};
use crate::oid::Oid;
use crate::pr_body;
use crate::session;
use crate::session::SessionView;
use crate::stack::{Dep, StackView};
use crate::status;
use crate::status::Terminal;
use crate::tape;
use crate::tape::{HaltView, ReplyView, RequestView, TapeView};
use crate::text;

verus! {

/// As long as nothing has landed, what stops a landing is a refusal; afterwards it is a
/// remark that names the pull request, and nothing of what has landed is lost.
pub proof fn law_landings_are_not_lost(
    t: TapeView,
    st: LandingView,
    number: u64,
    reason: Seq<char>,
)
    ensures
        st.outcomes.len() == 0 ==> land::held(t, st, number, reason).1 == Err::<
            LandingView,
            HaltView,
        >(HaltView::Refused(reason)) && land::passed(t, st, reason).1 == Err::<
            LandingView,
            HaltView,
        >(HaltView::Refused(reason)) && land::merge_failed(t, st, number, reason).1 is Err,
        st.outcomes.len() > 0 ==> ({
            let held = land::held(t, st, number, reason).1->Ok_0;
            let failed = land::merge_failed(t, st, number, reason).1->Ok_0;
            &&& land::held(t, st, number, reason).1 is Ok
            &&& land::merge_failed(t, st, number, reason).1 is Ok
            &&& land::passed(t, st, reason) == tape::done(t, st)
            &&& held.outcomes == st.outcomes
            &&& held.landed == st.landed
            &&& held.trunk == st.trunk
            &&& held.stop is Some
            &&& text::ends_with(held.stop->0, reason)
            &&& failed == held
        }),
{
    if st.outcomes.len() > 0 {
        let note = land::stopped_at(number, reason);
        assert(note.skip(note.len() - reason.len()) =~= reason);
    }
}

/// A layer that has landed is marked as such, and no other one is; the trunk is at the
/// commit that it became, its branch is to be deleted, and the report names it.
pub proof fn law_landed_layer_is_marked(
    st: LandingView,
    prs: Seq<Option<LayerPrView>>,
    i: int,
    pr: LayerPrView,
    title: Seq<char>,
    squash: Oid,
    j: int,
)
    requires
        0 <= i < st.landed.len(),
        0 <= j < st.landed.len(),
    ensures
        ({
            let now = land::with_landed(st, prs, i, pr, title, squash);
            &&& now.trunk == squash
            &&& now.landed.len() == st.landed.len()
            &&& now.landed[j] <==> st.landed[j] || j == i
            &&& now.deletes == st.deletes.push((pr.number, pr.branch))
            &&& now.outcomes.len() == st.outcomes.len() + 1
            &&& now.outcomes.last().number == pr.number
            &&& now.outcomes.last().squash == squash
            &&& now.outcomes.last().title == title
            &&& now.outcomes.drop_last() == st.outcomes
        }),
{
    let now = land::with_landed(st, prs, i, pr, title, squash);
    assert(now.outcomes.drop_last() =~= st.outcomes);
}

/// Why a landing went no further is the last warning of the last report, and no report is
/// lost for it.
pub proof fn law_stop_is_reported(outcomes: Seq<LandOutcomeView>, stop: Option<Seq<char>>)
    requires
        outcomes.len() > 0,
    ensures
        ({
            let all = land::with_stop(outcomes, stop);
            &&& all.len() == outcomes.len()
            &&& all.drop_last() == outcomes.drop_last()
            &&& all.last().number == outcomes.last().number
            &&& all.last().squash == outcomes.last().squash
            &&& stop is None ==> all.last().warnings == outcomes.last().warnings
            &&& stop is Some ==> all.last().warnings == outcomes.last().warnings.push(stop->0)
        }),
{
    let all = land::with_stop(outcomes, stop);
    assert(all.drop_last() =~= outcomes.drop_last());
}

/// What those on top of a closed layer depend on from then on is what it depended on: the
/// trunk by its name, or the pull request below by its number, with the branch that the
/// forge gave for it.
pub proof fn law_dependents_inherit(t: TapeView, c: ConfigView, s: StackView, index: int)
    ensures
        ({
            let (to, r) = close::inherited(t, c, s, index);
            r matches Ok(below) ==> match s.layers[index].dep {
                Dep::Main => below.base == c.trunk && below.spec == c.trunk,
                Dep::Layer(j) => exists|pr: PrView|
                    below.base == pr.head && below.spec == "#"@ + text::decimal(pr.number as nat)
                        && #[trigger] tape::told(
                        to,
                        RequestView::GetPullRequest { number: s.layers[j as int].pr->0 },
                        ReplyView::Pr(pr),
                    ),
                Dep::ExternalPr(_) => false,
            }
        }),
{
    let (to, r) = close::inherited(t, c, s, index);
    if r is Ok {
        match s.layers[index].dep {
            Dep::Layer(j) => {
                let q = RequestView::GetPullRequest { number: s.layers[j as int].pr->0 };
                let (t1, pr) = tape::ask_pr(t, q);
                tape::lemma_told(t, q);
                assert(tape::told(to, q, ReplyView::Pr(pr->Ok_0)));
            },
            _ => {},
        }
    }
}

/// The user is warned about how the repository lets pull requests be merged exactly if it
/// is not by squashing alone under title and description, and the user has not chosen to
/// do without a history.
pub proof fn law_merge_settings_are_warned_about(p: PreserveCommitHistory, s: RepoMergeSettings)
    ensures
        guardrails::settings_noted(p, s) is Some <==> p != PreserveCommitHistory::False && !(
        s.allow_squash_merge && !s.allow_merge_commit && !s.allow_rebase_merge
            && s.squash_uses_pr_description),
{
    guardrails::law_reasons_iff_not_squash_only(s);
}

/// The descriptions are told exactly where they change, and nothing else is told: each
/// gets the warning exactly as it has to be.
pub proof fn law_descriptions_are_kept_up_to_date(
    t: TapeView,
    prs: Seq<Option<PrView>>,
    k: int,
    warn: bool,
)
    requires
        0 <= k <= prs.len(),
    ensures
        ({
            let (to, r) = commands::bodies_from(t, prs, k, warn);
            &&& tape::only(t, to, |q: RequestView| exists|i: int| #[trigger] retells(prs, warn, i, q))
            &&& r is Ok ==> forall|i: int|
                k <= i < prs.len() && (#[trigger] prs[i] matches Some(pr)
                    && pr_body::with_warning(pr.body, warn) != pr.body) ==> tape::told(
                    to,
                    RequestView::UpdatePullRequest {
                        number: (prs[i]->0).number,
                        update: UpdateView {
                            title: None,
                            body: Some(pr_body::with_warning((prs[i]->0).body, warn)),
                            base: None,
                            state: None,
                        },
                    },
                    ReplyView::Done,
                )
        }),
    decreases prs.len() - k,
{
    broadcast use tape::lemma_only_ask;

    let any = |q: RequestView| true;
    let allowed = |q: RequestView| exists|i: int| #[trigger] retells(prs, warn, i, q);
    tape::lemma_only_start(t, allowed);
    if k < prs.len() {
        match prs[k] {
            Some(pr) => if pr_body::with_warning(pr.body, warn) == pr.body {
                law_descriptions_are_kept_up_to_date(t, prs, k + 1, warn);
            } else {
                let q = RequestView::UpdatePullRequest {
                    number: pr.number,
                    update: UpdateView {
                        title: None,
                        body: Some(pr_body::with_warning(pr.body, warn)),
                        base: None,
                        state: None,
                    },
                };
                assert(retells(prs, warn, k, q));
                assert(allowed(q));
                let (t1, r) = tape::ask_unit(t, q);
                assert(tape::only(t, t1, allowed));
                if r is Ok {
                    law_descriptions_are_kept_up_to_date(t1, prs, k + 1, warn);
                    let to = commands::bodies_from(t, prs, k, warn).0;
                    assert(commands::bodies_from(t1, prs, k + 1, warn)
                        == commands::bodies_from(t, prs, k, warn));
                    tape::lemma_only_trans(t, t1, to, allowed);
                    tape::lemma_told(t, q);
                    assert(tape::told(t1, q, ReplyView::Done));
                    assert(tape::only(t1, to, any));
                    tape::lemma_said_stays(t1, to, any);
                    assert(tape::told(to, q, ReplyView::Done));
                }
            },
            None => law_descriptions_are_kept_up_to_date(t, prs, k + 1, warn),
        }
    }
}

/// A request gives the `i`th pull request a description that differs from what it has in
/// the warning alone.
pub open spec fn retells(prs: Seq<Option<PrView>>, warn: bool, i: int, q: RequestView) -> bool {
    0 <= i < prs.len() && (prs[i] matches Some(pr) && pr_body::with_warning(pr.body, warn)
        != pr.body && q == (RequestView::UpdatePullRequest {
        number: pr.number,
        update: UpdateView {
            title: None,
            body: Some(pr_body::with_warning(pr.body, warn)),
            base: None,
            state: None,
        },
    }))
}

/// Nothing is registered where no chain has two pull requests; otherwise the first thing
/// that is asked is what is registered already.
pub proof fn law_single_pull_requests_are_no_chain(
    t: TapeView,
    chains: Seq<Seq<u64>>,
    colors: bool,
)
    ensures
        (forall|k: int| 0 <= k < chains.len() ==> (#[trigger] chains[k]).len() < 2)
            ==> github::stacks_synced(t, chains, colors) == tape::done(t, ()),
        (exists|k: int| 0 <= k < chains.len() && (#[trigger] chains[k]).len() >= 2) ==> tape::ask(
            t,
            RequestView::ListStacks,
        ).1 is Err ==> github::stacks_synced(t, chains, colors).0.asked.last()
            == RequestView::ListStacks,
{
}

/// A command that works on a stack refuses to work on nothing.
pub proof fn law_empty_stack_is_refused(t: TapeView, se: SessionView)
    ensures
        session::stack_found(t, se).1 matches Ok(s) ==> s.layers.len() > 0,
        session::stack_found(t, se).0 == crate::discovery::discovered(
            t,
            se.trunk_oid,
            se.config.trunk,
        ).0,
        session::stack_found(t, se).1 matches Ok(s) ==> crate::discovery::discovered(
            t,
            se.trunk_oid,
            se.config.trunk,
        ).1 == Ok::<StackView, HaltView>(s),
{
}

/// Where standard output is no terminal, a table is plain and never cut off; on a terminal
/// it has colours and other characters than ASCII exactly if the terminal takes them.
pub proof fn law_plain_where_no_terminal_is(terminal: Terminal, update_message: bool)
    ensures
        ({
            let how = status::drawing_on(terminal, update_message);
            &&& how.update_message == update_message
            &&& how.use_color <==> terminal.is_tty && terminal.colors
            &&& how.use_unicode <==> terminal.is_tty && terminal.unicode
            &&& !terminal.is_tty ==> how.term_width is None
            &&& terminal.is_tty ==> how.term_width == terminal.columns
        }),
{
}

proof fn lemma_locale(settings: Seq<Option<Seq<char>>>, k: int)
    requires
        0 <= k <= settings.len(),
    ensures
        match status::locale_from(settings, k) {
            Some(locale) => exists|i: int|
                k <= i < settings.len() && #[trigger] settings[i] == Some(locale) && locale.len() > 0
                    && forall|m: int|
                    k <= m < i ==> (#[trigger] settings[m] matches Some(value) ==> value.len()
                        == 0),
            None => forall|m: int|
                k <= m < settings.len() ==> (#[trigger] settings[m] matches Some(value)
                    ==> value.len() == 0),
        },
    decreases settings.len() - k,
{
    if k < settings.len() {
        lemma_locale(settings, k + 1);
        if status::locale_from(settings, k) is Some {
            let here = settings[k] matches Some(value) && value.len() > 0;
            if here {
                assert(settings[k] == Some(settings[k]->0));
            } else {
                let locale = status::locale_from(settings, k)->0;
                let i = choose|i: int|
                    k + 1 <= i < settings.len() && #[trigger] settings[i] == Some(locale)
                        && locale.len() > 0 && forall|m: int|
                        k + 1 <= m < i ==> (#[trigger] settings[m] matches Some(value)
                            ==> value.len() == 0);
                assert(settings[i] == Some(locale));
            }
        }
    }
}

/// A dumb terminal shows nothing but ASCII; on any other one the first locale setting that
/// is not empty decides, and without any there is no reason to hold back.
pub proof fn law_locale_decides(term: Option<Seq<char>>, settings: Seq<Option<Seq<char>>>)
    ensures
        term == Some("dumb"@) ==> !status::shows_unicode(term, settings),
        term != Some("dumb"@) && (forall|m: int|
            0 <= m < settings.len() ==> (#[trigger] settings[m] matches Some(value) ==> value.len()
                == 0)) ==> status::shows_unicode(term, settings),
        forall|i: int|
            term != Some("dumb"@) && 0 <= i < settings.len() && (#[trigger] settings[i] matches Some(
                value,
            ) && value.len() > 0) && (forall|m: int|
                0 <= m < i ==> (#[trigger] settings[m] matches Some(value) ==> value.len() == 0))
                ==> status::shows_unicode(term, settings) == status::is_utf8_locale(
                settings[i]->0,
            ),
{
    lemma_locale(settings, 0);
}

} // verus!
