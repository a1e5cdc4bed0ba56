//! Warnings about repository settings that interact badly with stacking.
//!
//! None of these can be worked around from here: they are choices the
//! repository's admins made, whose consequences are easy to miss when pull
//! requests are stacked. The job is to say so before anyone finds out the
//! expensive way.

use vstd::prelude::*;

use crate::config::{Config, ConfigView, PreserveCommitHistory};
use crate::data::{nothing, put};
use crate::forge::{PrView, Protection, PullRequest, RepoMergeSettings};
use crate::stack::{Stack, StackView};
use crate::tape;
use crate::tape::{Halt, HaltView, Request, RequestView, Tape, TapeView};
use crate::text;
use crate::text::{join_texts, push_decimal, same};

verus! {

#[derive(Debug, Clone)]
pub struct Guardrails {
    pub warnings: Vec<String>,
    /// The trunk requires branches to be up to date before merging, so a
    /// "behind" layer really is unmergeable and is worth refreshing even
    /// though its displayed diff is fine.
    pub refresh_when_behind: bool,
}

#[verifier::ext_equal]
pub struct GuardrailsView {
    pub warnings: Seq<Seq<char>>,
    pub refresh_when_behind: bool,
}

impl DeepView for Guardrails {
    type V = GuardrailsView;

    open spec fn deep_view(&self) -> GuardrailsView {
        GuardrailsView {
            warnings: self.warnings.deep_view(),
            refresh_when_behind: self.refresh_when_behind,
        }
    }
}

impl Default for Guardrails {
    fn default() -> (r: Self)
        ensures
            r.deep_view() == (GuardrailsView {
                warnings: Seq::empty(),
                refresh_when_behind: false,
            }),
    {
        Guardrails { warnings: nothing(), refresh_when_behind: false }
    }
}

/// A list with one more entry, under a condition.
pub open spec fn with_reason(list: Seq<Seq<char>>, holds: bool, reason: Seq<char>) -> Seq<
    Seq<char>,
> {
    if holds {
        list.push(reason)
    } else {
        list
    }
}

/// Why pull requests may reach the trunk otherwise than by a squash merge with
/// their own description.
pub open spec fn non_squash_reasons(s: RepoMergeSettings) -> Seq<Seq<char>> {
    let disabled = with_reason(
        Seq::empty(),
        !s.allow_squash_merge,
        "Squash and Merge is disabled (`allow_squash_merge = false`)"@,
    );
    let merges = with_reason(
        disabled,
        s.allow_merge_commit,
        "merge commits are enabled (`allow_merge_commit = true`)"@,
    );
    let rebases = with_reason(
        merges,
        s.allow_rebase_merge,
        "rebase merges are enabled (`allow_rebase_merge = true`)"@,
    );
    with_reason(
        rebases,
        !s.squash_uses_pr_description,
        "default squash commit message is `COMMIT_MESSAGES` instead of `PR_TITLE` + `PR_BODY`"@,
    )
}

/// Describes why a repository is not set up for squash merges alone.
pub fn describe_non_squash_reasons(s: RepoMergeSettings) -> (r: Vec<String>)
    ensures
        r.deep_view() == non_squash_reasons(s),
{
    let mut reasons: Vec<String> = nothing();
    if !s.allow_squash_merge {
        put(
            &mut reasons,
            "Squash and Merge is disabled (`allow_squash_merge = false`)".to_owned(),
        );
    }
    if s.allow_merge_commit {
        put(
            &mut reasons,
            "merge commits are enabled (`allow_merge_commit = true`)".to_owned(),
        );
    }
    if s.allow_rebase_merge {
        put(
            &mut reasons,
            "rebase merges are enabled (`allow_rebase_merge = true`)".to_owned(),
        );
    }
    if !s.squash_uses_pr_description {
        put(
            &mut reasons,
            "default squash commit message is `COMMIT_MESSAGES` instead of `PR_TITLE` + `PR_BODY`".to_owned(),
        );
    }
    reasons
}

/// A repository has a reason to be warned about exactly if it does more than
/// squash merges with the pull request's own description.
pub proof fn law_reasons_iff_not_squash_only(s: RepoMergeSettings)
    ensures
        (non_squash_reasons(s).len() == 0) == crate::forge::squash_only(s),
{
}

/// The warning about auto-merge on a pull request that is not based on the
/// trunk, and about nothing else.
pub open spec fn auto_merge_noted(pr: PrView, trunk: Seq<char>) -> Option<Seq<char>> {
    if pr.auto_merge && pr.base != trunk {
        Some(
            "#"@ + text::decimal(pr.number as nat)
                + " has auto-merge enabled. It will merge into `"@ + pr.base + "`, not `"@ + trunk
                + "`, flattening it into the layer below. Turn it off unless that is what you want."@,
        )
    } else {
        None
    }
}

/// Auto-merge on a stacked pull request merges it into the layer below, not the
/// trunk.
///
/// The result is one pull request silently swallowing another's changes, which
/// then shows up as an enormous unreviewed diff on whatever is left. Easy to
/// enable by reflex and very hard to spot afterwards.
pub fn auto_merge_warning(pr: &PullRequest, trunk: &str) -> (r: Option<String>)
    ensures
        r.deep_view() == auto_merge_noted(pr@, trunk@),
{
    if pr.auto_merge && !same(pr.base.as_str(), trunk) {
        let mut warning = "#".to_owned();
        push_decimal(&mut warning, pr.number);
        warning.append(" has auto-merge enabled. It will merge into `");
        warning.append(pr.base.as_str());
        warning.append("`, not `");
        warning.append(trunk);
        warning.append(
            "`, flattening it into the layer below. Turn it off unless that is what you want.",
        );
        Some(warning)
    } else {
        None
    }
}

/// The warning about merge settings, as far as the user has not chosen to live
/// with them.
pub open spec fn settings_noted(preserve: PreserveCommitHistory, s: RepoMergeSettings) -> Option<
    Seq<char>,
> {
    let joined = text::join(non_squash_reasons(s), "; "@);
    if non_squash_reasons(s).len() == 0 {
        None
    } else {
        match preserve {
            PreserveCommitHistory::Auto => Some(
                "repository settings are not configured for multi-commit squash merging ("@
                    + joined
                    + ").\n`nspr.preserveCommitHistory` is `auto`, so nspr is falling back to force-pushing a single commit per PR branch to prevent `[nspr]` revision commits from polluting repository history if merged via the GitHub Web UI.\nTo configure this behavior or silence this warning:\n- Run `git config nspr.preserveCommitHistory false` to always force-push a single commit per PR without this warning.\n- Run `git config nspr.preserveCommitHistory true` to push incremental `[nspr]` commits anyway (merge via `nspr land`, or manually select \"Squash and merge\" with the PR title/description in the Web UI).\n- Or in GitHub Settings -> General -> Pull Requests, enable only \"Allow squash merging\" with default commit message \"Pull request title and description\"."@,
            ),
            PreserveCommitHistory::True => Some(
                "`nspr.preserveCommitHistory` is set to `true`, but repository settings are not configured for clean Web UI squash merging ("@
                    + joined
                    + "). Merge PRs using `nspr land`, or ensure you select \"Squash and merge\" and use the PR title and description when merging via the GitHub Web UI."@,
            ),
            PreserveCommitHistory::False => None,
        }
    }
}

/// Warns about merge settings, as far as the user has not chosen to live with
/// them.
pub fn merge_settings_warning(preserve: PreserveCommitHistory, settings: RepoMergeSettings) -> (r:
    Option<String>)
    ensures
        r.deep_view() == settings_noted(preserve, settings),
{
    let reasons = describe_non_squash_reasons(settings);
    assert(reasons.deep_view().len() == reasons@.len());
    if reasons.len() == 0 {
        return None;
    }
    assert(text::views(reasons@) =~= reasons.deep_view());
    let joined = join_texts(&reasons, "; ");
    match preserve {
        PreserveCommitHistory::Auto => {
            let mut warning =
                "repository settings are not configured for multi-commit squash merging (".to_owned();
            warning.append(joined.as_str());
            warning.append(
                ").\n`nspr.preserveCommitHistory` is `auto`, so nspr is falling back to force-pushing a single commit per PR branch to prevent `[nspr]` revision commits from polluting repository history if merged via the GitHub Web UI.\nTo configure this behavior or silence this warning:\n- Run `git config nspr.preserveCommitHistory false` to always force-push a single commit per PR without this warning.\n- Run `git config nspr.preserveCommitHistory true` to push incremental `[nspr]` commits anyway (merge via `nspr land`, or manually select \"Squash and merge\" with the PR title/description in the Web UI).\n- Or in GitHub Settings -> General -> Pull Requests, enable only \"Allow squash merging\" with default commit message \"Pull request title and description\".",
            );
            Some(warning)
        },
        PreserveCommitHistory::True => {
            let mut warning =
                "`nspr.preserveCommitHistory` is set to `true`, but repository settings are not configured for clean Web UI squash merging (".to_owned();
            warning.append(joined.as_str());
            warning.append(
                "). Merge PRs using `nspr land`, or ensure you select \"Squash and merge\" and use the PR title and description when merging via the GitHub Web UI.",
            );
            Some(warning)
        },
        PreserveCommitHistory::False => None,
    }
}

/// The list with what is there to be added.
pub open spec fn with_note(list: Seq<Seq<char>>, note: Option<Seq<char>>) -> Seq<Seq<char>> {
    match note {
        Some(text) => list.push(text),
        None => list,
    }
}

/// Adds what is there to be added.
pub fn note(list: &mut Vec<String>, text: Option<String>)
    ensures
        final(list).deep_view() == with_note(old(list).deep_view(), text.deep_view()),
{
    match text {
        Some(text) => {
            put(list, text);
        },
        None => {},
    }
}

/// The warning about a push that costs a pull request its approvals.
pub open spec fn dismissal(pr: PrView) -> Seq<char> {
    "pushing to #"@ + text::decimal(pr.number as nat)
        + " will dismiss its approvals, because `"@ + pr.base
        + "` is set to dismiss stale reviews."@
}

/// Layer `i` is about to be pushed.
pub open spec fn is_pushed(pushing: Seq<bool>, i: int) -> bool {
    i < pushing.len() && pushing[i]
}

/// The warnings about the pull requests from `i` on.
pub open spec fn prs_noted(
    t: TapeView,
    c: ConfigView,
    prs: Seq<Option<PrView>>,
    pushing: Seq<bool>,
    i: int,
    list: Seq<Seq<char>>,
) -> (TapeView, Result<Seq<Seq<char>>, HaltView>)
    decreases prs.len() - i,
{
    if i < 0 || i >= prs.len() {
        tape::done(t, list)
    } else {
        match prs[i] {
            None => prs_noted(t, c, prs, pushing, i + 1, list),
            Some(pr) => {
                let noted = with_note(list, auto_merge_noted(pr, c.trunk));
                if !is_pushed(pushing, i) {
                    prs_noted(t, c, prs, pushing, i + 1, noted)
                } else {
                    tape::bind(
                        tape::ask_protection(t, RequestView::BranchProtection { branch: pr.base }),
                        |t: TapeView, p: Option<Protection>|
                            prs_noted(
                                t,
                                c,
                                prs,
                                pushing,
                                i + 1,
                                if p is Some && p->0.dismiss_stale_reviews {
                                    noted.push(dismissal(pr))
                                } else {
                                    noted
                                },
                            ),
                    )
                }
            },
        }
    }
}

/// Dismissing stale reviews is a property of the branch being merged *into*, so
/// in a stack it usually only bites the bottom layer: the layers above target
/// topic branches, which are rarely protected. Checking each layer's actual
/// base rather than just the trunk neither cries wolf nor stays quiet when an
/// organisation protects topic branches too.
fn note_prs(
    t: &mut Tape,
    config: &Config,
    prs: &Vec<Option<PullRequest>>,
    pushing: &Vec<bool>,
    so_far: Vec<String>,
) -> (r: Result<Vec<String>, Halt>)
    ensures
        (final(t)@, tape::outcome(r)) == prs_noted(
            old(t)@,
            config@,
            prs.deep_view(),
            pushing@,
            0,
            so_far.deep_view(),
        ),
{
    let ghost start = so_far.deep_view();
    let mut warnings = so_far;
    let mut i: usize = 0;
    while i < prs.len()
        invariant
            i <= prs@.len(),
            start == so_far.deep_view(),
            prs_noted(
                t@,
                config@,
                prs.deep_view(),
                pushing@,
                i as int,
                warnings.deep_view(),
            ) == prs_noted(old(t)@, config@, prs.deep_view(), pushing@, 0, start),
        decreases prs@.len() - i,
    {
        assert(prs.deep_view()[i as int] == prs@[i as int].deep_view());
        match &prs[i] {
            None => {},
            Some(pr) => {
                note(&mut warnings, auto_merge_warning(pr, config.trunk.as_str()));
                if i < pushing.len() && pushing[i] {
                    let protection = t.protection(
                        Request::BranchProtection { branch: pr.base.clone() },
                    )?;
                    let dismisses = match protection {
                        Some(p) => p.dismiss_stale_reviews,
                        None => false,
                    };
                    if dismisses {
                        let mut warning = "pushing to #".to_owned();
                        push_decimal(&mut warning, pr.number);
                        warning.append(" will dismiss its approvals, because `");
                        warning.append(pr.base.as_str());
                        warning.append("` is set to dismiss stale reviews.");
                        put(&mut warnings, warning);
                    }
                }
            },
        }
        i = i + 1;
    }
    Ok(warnings)
}

/// The warning about a trunk that wants every branch to be up to date.
pub open spec fn serialised(trunk: Seq<char>) -> Seq<char> {
    "`"@ + trunk
        + "` requires branches to be up to date before merging, so every layer must be refreshed whenever one below it changes. Expect the whole stack to re-run CI on each push."@
}

/// What there is to say about the repository's settings.
pub open spec fn probed(
    t: TapeView,
    c: ConfigView,
    s: StackView,
    prs: Seq<Option<PrView>>,
    pushing: Seq<bool>,
) -> (TapeView, Result<GuardrailsView, HaltView>) {
    tape::bind(
        tape::ask_settings(t, RequestView::MergeSettings),
        |t: TapeView, settings: RepoMergeSettings|
            tape::bind(
                tape::ask_protection(t, RequestView::BranchProtection { branch: c.trunk }),
                |t: TapeView, p: Option<Protection>|
                    {
                        let behind = p is Some && p->0.require_up_to_date;
                        tape::bind(
                            prs_noted(
                                t,
                                c,
                                prs,
                                pushing,
                                0,
                                with_note(
                                    Seq::empty(),
                                    settings_noted(c.preserve_commit_history, settings),
                                ),
                            ),
                            |t: TapeView, list: Seq<Seq<char>>|
                                tape::done(
                                    t,
                                    GuardrailsView {
                                        warnings: if behind && s.layers.len() > 1 {
                                            list.push(serialised(c.trunk))
                                        } else {
                                            list
                                        },
                                        refresh_when_behind: behind,
                                    },
                                ),
                        )
                    },
            ),
    )
}

/// Probes the repository's settings and reports anything that will bite.
///
/// `pushing` marks the layers about to be pushed, so the approval warning is
/// only raised for work that is actually going to be disturbed.
pub fn probe(
    t: &mut Tape,
    config: &Config,
    stack: &Stack,
    prs: &Vec<Option<PullRequest>>,
    pushing: &Vec<bool>,
) -> (r: Result<Guardrails, Halt>)
    ensures
        (final(t)@, tape::outcome(r)) == probed(
            old(t)@,
            config@,
            stack@,
            prs.deep_view(),
            pushing@,
        ),
{
    let mut warnings: Vec<String> = nothing();
    let settings = t.settings(Request::MergeSettings)?;
    note(&mut warnings, merge_settings_warning(config.preserve_commit_history, settings));
    let protection = t.protection(Request::BranchProtection { branch: config.trunk.clone() })?;
    let refresh_when_behind = match protection {
        Some(p) => p.require_up_to_date,
        None => false,
    };
    let mut warnings = note_prs(t, config, prs, pushing, warnings)?;
    assert(stack@.layers.len() == stack.layers@.len());
    if refresh_when_behind && stack.layers.len() > 1 {
        let mut warning = "`".to_owned();
        warning.append(config.trunk.as_str());
        warning.append(
            "` requires branches to be up to date before merging, so every layer must be refreshed whenever one below it changes. Expect the whole stack to re-run CI on each push.",
        );
        put(&mut warnings, warning);
    }
    Ok(Guardrails { warnings, refresh_when_behind })
}

pub broadcast proof fn lemma_prs_noted_only(
    from: TapeView,
    t: TapeView,
    c: ConfigView,
    prs: Seq<Option<PrView>>,
    pushing: Seq<bool>,
    i: int,
    list: Seq<Seq<char>>,
    allowed: spec_fn(RequestView) -> bool,
)
    requires
        #[trigger] tape::only(from, t, allowed),
        tape::may_look(allowed),
    ensures
        tape::only(from, (#[trigger] prs_noted(t, c, prs, pushing, i, list)).0, allowed),
    decreases prs.len() - i,
{
    broadcast use tape::lemma_only_ask;

    if 0 <= i < prs.len() {
        match prs[i] {
            None => lemma_prs_noted_only(from, t, c, prs, pushing, i + 1, list, allowed),
            Some(pr) => {
                let noted = with_note(list, auto_merge_noted(pr, c.trunk));
                if !is_pushed(pushing, i) {
                    lemma_prs_noted_only(from, t, c, prs, pushing, i + 1, noted, allowed);
                } else {
                    let (t1, p) = tape::ask_protection(
                        t,
                        RequestView::BranchProtection { branch: pr.base },
                    );
                    if p is Ok {
                        lemma_prs_noted_only(
                            from,
                            t1,
                            c,
                            prs,
                            pushing,
                            i + 1,
                            if p->Ok_0 is Some && (p->Ok_0)->0.dismiss_stale_reviews {
                                noted.push(dismissal(pr))
                            } else {
                                noted
                            },
                            allowed,
                        );
                    }
                }
            },
        }
    }
}

pub broadcast proof fn lemma_probed_only(
    from: TapeView,
    t: TapeView,
    c: ConfigView,
    s: StackView,
    prs: Seq<Option<PrView>>,
    pushing: Seq<bool>,
    allowed: spec_fn(RequestView) -> bool,
)
    requires
        #[trigger] tape::only(from, t, allowed),
        tape::may_look(allowed),
    ensures
        tape::only(from, (#[trigger] probed(t, c, s, prs, pushing)).0, allowed),
{
    broadcast use {tape::lemma_only_ask, lemma_prs_noted_only};

}

} // verus!
