//! Bringing the local stack in line with the remote trunk.
//!
//! This is for when the world moved underneath: somebody else landed something,
//! or a pull request was merged or closed on the web.
//!
//! A squash merge puts a **brand new commit** on the trunk. The local commit's
//! id appears nowhere in the trunk's history, so "is my commit an ancestor of
//! the trunk?" answers *no* for a layer that has very much landed. The only
//! reliable signal is the pull request's own state. Rebasing the stack onto the
//! new trunk then makes the landed layer's cherry-pick empty, so it drops out
//! on its own.

use vstd::prelude::*;

use crate::config::{Config, ConfigView};
use crate::data::{has_number, nothing, put};
use crate::discovery;
use crate::forge::{PrState, PrView};
use crate::history;
use crate::history::rebase_commits;
use crate::land;
use crate::land::fetch_trunk;
use crate::oid::Oid;
use crate::stack;
use crate::stack::{Stack, StackView};
use crate::tape;
use crate::tape::{Halt, HaltView, Reply, ReplyView, Request, RequestView, Tape, TapeView};
use crate::text;
use crate::text::push_decimal;
use crate::trailers::PULL_REQUEST;
use crate::upgrade;
use crate::upgrade::reject_if_legacy_spr;

verus! {

#[derive(Debug, Clone)]
pub struct SyncReport {
    /// The trunk tip the stack was rebased onto.
    pub trunk: Oid,
    /// Pull requests that were merged without `nspr land`.
    pub merged: Vec<u64>,
    /// Layers whose local commit survived the rebase even though their pull
    /// request had been merged: the author amended them after the merge.
    pub stranded: Vec<u64>,
    pub warnings: Vec<String>,
    /// True if the local stack moved.
    pub rebased: bool,
}

#[verifier::ext_equal]
pub struct SyncReportView {
    pub trunk: Oid,
    pub merged: Seq<u64>,
    pub stranded: Seq<u64>,
    pub warnings: Seq<Seq<char>>,
    pub rebased: bool,
}

impl DeepView for SyncReport {
    type V = SyncReportView;

    open spec fn deep_view(&self) -> SyncReportView {
        SyncReportView {
            trunk: self.trunk,
            merged: self.merged@,
            stranded: self.stranded@,
            warnings: self.warnings.deep_view(),
            rebased: self.rebased,
        }
    }
}

/// The reference that remembers where the trunk was.
pub open spec fn trunk_ref(remote: Seq<char>, trunk: Seq<char>) -> Seq<char> {
    "refs/remotes/"@ + remote + "/"@ + trunk
}

/// The refusal to guess where the trunk is.
pub open spec fn trunk_unknown(remote: Seq<char>, trunk: Seq<char>) -> Seq<char> {
    "cannot tell where `"@ + trunk
        + "` is: the remote did not answer, and there is no `"@ + remote + "/"@ + trunk
        + "` locally. Run `git fetch "@ + remote + "` first."@
}

/// The tip of the trunk as the remote tells it, or as it was last seen.
pub open spec fn trunk_resolved(t: TapeView, remote: Seq<char>, trunk: Seq<char>) -> (
    TapeView,
    Result<Oid, HaltView>,
) {
    tape::bind(
        tape::ask(t, RequestView::TryBranchOid { branch: trunk }),
        |t: TapeView, r: ReplyView|
            match r {
                ReplyView::MaybeObject(Some(oid)) => tape::bind(
                    tape::ask_unit(t, RequestView::FetchCommit { commit: oid }),
                    |t: TapeView, u: ()|
                        tape::bind(
                            tape::ask_unit(
                                t,
                                RequestView::SetReference {
                                    name: trunk_ref(remote, trunk),
                                    oid,
                                    reason: "nspr: observed trunk"@,
                                },
                            ),
                            |t: TapeView, u: ()| tape::done(t, oid),
                        ),
                ),
                ReplyView::MaybeObject(None) => last_seen(t, remote, trunk),
                ReplyView::Failed(_) => last_seen(t, remote, trunk),
                _ => tape::refuse(t, tape::MISMATCH@),
            },
    )
}

/// Where the trunk was seen last.
pub open spec fn last_seen(t: TapeView, remote: Seq<char>, trunk: Seq<char>) -> (
    TapeView,
    Result<Oid, HaltView>,
) {
    tape::bind(
        tape::ask_maybe_object(
            t,
            RequestView::ResolveReference { name: trunk_ref(remote, trunk) },
        ),
        |t: TapeView, oid: Option<Oid>|
            match oid {
                Some(oid) => tape::done(t, oid),
                None => tape::refuse(t, trunk_unknown(remote, trunk)),
            },
    )
}

/// Where the trunk is, according to the remote rather than to local memory.
///
/// The remote-tracking reference is not good enough. Objects are fetched by id
/// and never by refspec, so it is only as fresh as the user's last manual
/// `git fetch`, and after a land it is certainly stale. A stale trunk keeps the
/// just-merged layer in the stack and, far worse, makes the next `diff` offer to
/// retarget the layer above it back onto the branch that was merged away.
///
/// The reference is moved to match. Offline, or if the remote has no such
/// branch, the last thing seen beats refusing to run.
pub fn resolve_trunk(t: &mut Tape, remote: &str, trunk: &str) -> (r: Result<Oid, Halt>)
    ensures
        (final(t)@, tape::outcome(r)) == trunk_resolved(old(t)@, remote@, trunk@),
{
    let mut name = "refs/remotes/".to_owned();
    name.append(remote);
    name.append("/");
    name.append(trunk);
    match t.reply(Request::TryBranchOid { branch: trunk.to_owned() })? {
        Reply::MaybeObject(Some(oid)) => {
            t.unit(Request::FetchCommit { commit: oid })?;
            t.unit(
                Request::SetReference { name, oid, reason: "nspr: observed trunk".to_owned() },
            )?;
            return Ok(oid);
        },
        Reply::MaybeObject(None) => {},
        Reply::Failed(_) => {},
        _ => {
            return Err(Halt::Refused(tape::MISMATCH.to_owned()));
        },
    }
    match t.maybe_object(Request::ResolveReference { name })? {
        Some(oid) => Ok(oid),
        None => {
            let mut reason = "cannot tell where `".to_owned();
            reason.append(trunk);
            reason.append("` is: the remote did not answer, and there is no `");
            reason.append(remote);
            reason.append("/");
            reason.append(trunk);
            reason.append("` locally. Run `git fetch ");
            reason.append(remote);
            reason.append("` first.");
            Err(Halt::Refused(reason))
        },
    }
}

/// What changed behind the user's back.
#[verifier::ext_equal]
pub struct FindingsView {
    pub merged: Seq<u64>,
    pub warnings: Seq<Seq<char>>,
}

/// What changed behind the user's back.
pub struct Findings {
    pub merged: Vec<u64>,
    pub warnings: Vec<String>,
}

impl DeepView for Findings {
    type V = FindingsView;

    open spec fn deep_view(&self) -> FindingsView {
        FindingsView { merged: self.merged@, warnings: self.warnings.deep_view() }
    }
}

/// The warning about a pull request that was closed.
pub open spec fn closed_noted(number: u64, subject: Seq<char>) -> Seq<char> {
    "#"@ + text::decimal(number as nat) + " (`"@ + subject
        + "`) was closed without merging. Delete the commit, or remove its `"@ + PULL_REQUEST@
        + ":` trailer to open a fresh pull request."@
}

/// The findings with one more pull request.
pub open spec fn with_finding(f: FindingsView, number: u64, subject: Seq<char>, state: PrState) -> FindingsView {
    match state {
        PrState::Merged => FindingsView { merged: f.merged.push(number), ..f },
        PrState::Closed => FindingsView {
            warnings: f.warnings.push(closed_noted(number, subject)),
            ..f
        },
        PrState::Open => f,
    }
}

/// What changed about the layers from `i` on.
pub open spec fn findings_from(t: TapeView, s: StackView, i: int, f: FindingsView) -> (
    TapeView,
    Result<FindingsView, HaltView>,
)
    decreases s.layers.len() - i,
{
    if i < 0 || i >= s.layers.len() {
        tape::done(t, f)
    } else {
        match s.layers[i].pr {
            None => findings_from(t, s, i + 1, f),
            Some(number) => tape::bind(
                tape::ask_pr(t, RequestView::GetPullRequest { number }),
                |t: TapeView, pr: PrView|
                    findings_from(
                        t,
                        s,
                        i + 1,
                        with_finding(f, number, s.layers[i].message.subject, pr.state),
                    ),
            ),
        }
    }
}

fn look_around(t: &mut Tape, stack: &Stack) -> (r: Result<Findings, Halt>)
    ensures
        (final(t)@, tape::outcome(r)) == findings_from(
            old(t)@,
            stack@,
            0,
            FindingsView { merged: Seq::empty(), warnings: Seq::empty() },
        ),
{
    let mut f = Findings { merged: Vec::new(), warnings: nothing() };
    assert(f.merged@ =~= Seq::<u64>::empty());
    let mut i: usize = 0;
    while i < stack.layers.len()
        invariant
            i <= stack.layers@.len(),
            findings_from(t@, stack@, i as int, f.deep_view()) == findings_from(
                old(t)@,
                stack@,
                0,
                FindingsView { merged: Seq::empty(), warnings: Seq::empty() },
            ),
        decreases stack.layers@.len() - i,
    {
        let layer = &stack.layers[i];
        assert(stack@.layers[i as int] == layer.deep_view());
        match layer.pr {
            None => {},
            Some(number) => {
                let pr = t.pr(Request::GetPullRequest { number })?;
                match pr.state {
                    PrState::Merged => {
                        f.merged.push(number);
                    },
                    PrState::Closed => {
                        let mut warning = "#".to_owned();
                        push_decimal(&mut warning, number);
                        warning.append(" (`");
                        warning.append(layer.subject());
                        warning.append(
                            "`) was closed without merging. Delete the commit, or remove its `",
                        );
                        warning.append(PULL_REQUEST);
                        warning.append(":` trailer to open a fresh pull request.");
                        put(&mut f.warnings, warning);
                    },
                    PrState::Open => {},
                }
            },
        }
        i = i + 1;
    }
    Ok(f)
}

/// The pull requests of the layers below `n` that were merged.
pub open spec fn stranded_below(s: StackView, merged: Seq<u64>, n: int) -> Seq<u64>
    decreases n,
{
    if n <= 0 {
        Seq::empty()
    } else {
        let below = stranded_below(s, merged, n - 1);
        match s.layers[n - 1].pr {
            Some(number) => if merged.contains(number) {
                below.push(number)
            } else {
                below
            },
            None => below,
        }
    }
}

fn find_stranded(stack: &Stack, merged: &Vec<u64>) -> (r: Vec<u64>)
    ensures
        r@ == stranded_below(stack@, merged@, stack@.layers.len() as int),
{
    let mut out: Vec<u64> = Vec::new();
    let mut i: usize = 0;
    while i < stack.layers.len()
        invariant
            i <= stack.layers@.len(),
            out@ == stranded_below(stack@, merged@, i as int),
        decreases stack.layers@.len() - i,
    {
        assert(stack@.layers[i as int].pr == stack.layers@[i as int].pr);
        match stack.layers[i].pr {
            Some(number) => if has_number(merged, number) {
                out.push(number);
            },
            None => {},
        }
        i = i + 1;
    }
    out
}

/// The warning about a merged pull request whose commit is still there.
pub open spec fn stranded_noted(number: u64) -> Seq<char> {
    "#"@ + text::decimal(number as nat)
        + " was merged, but its commit still has changes that are not on the trunk. Remove its `"@
        + PULL_REQUEST@
        + ":` trailer to submit them as a new pull request, or drop the commit."@
}

/// The warnings with one for each stranded layer.
pub open spec fn with_stranded(warnings: Seq<Seq<char>>, stranded: Seq<u64>) -> Seq<Seq<char>> {
    warnings + stranded.map_values(|n: u64| stranded_noted(n))
}

fn note_stranded(warnings: &mut Vec<String>, stranded: &Vec<u64>)
    ensures
        final(warnings).deep_view() == with_stranded(old(warnings).deep_view(), stranded@),
{
    let ghost all = stranded@.map_values(|n: u64| stranded_noted(n));
    let mut k: usize = 0;
    assert(warnings.deep_view() =~= old(warnings).deep_view() + all.take(0));
    while k < stranded.len()
        invariant
            k <= stranded@.len(),
            all == stranded@.map_values(|n: u64| stranded_noted(n)),
            warnings.deep_view() == old(warnings).deep_view() + all.take(k as int),
        decreases stranded@.len() - k,
    {
        let mut warning = "#".to_owned();
        push_decimal(&mut warning, stranded[k]);
        warning.append(
            " was merged, but its commit still has changes that are not on the trunk. Remove its `",
        );
        warning.append(PULL_REQUEST);
        warning.append(":` trailer to submit them as a new pull request, or drop the commit.");
        put(warnings, warning);
        assert(all.take(k + 1) =~= all.take(k as int).push(all[k as int]));
        assert(warnings.deep_view() =~= old(warnings).deep_view() + all.take(k + 1));
        k = k + 1;
    }
    assert(all.take(k as int) =~= all);
}

/// What a failure to rebase the stack is called.
pub const CANNOT_REBASE: &'static str =
    "could not rebase the stack onto the trunk. Resolve the conflict with `git rebase` and run `nspr sync` again.";

/// The stack on the trunk.
pub open spec fn rebased_onto(t: TapeView, s: StackView, trunk: Oid) -> (
    TapeView,
    Result<(), HaltView>,
) {
    if trunk == s.base {
        tape::done(t, ())
    } else {
        tape::bind(
            tape::explained(
                history::commits_rebased(
                    t,
                    s.layers.map_values(|l: stack::LayerView| l.commit),
                    trunk,
                ),
                CANNOT_REBASE@,
            ),
            |t: TapeView, rebased: Seq<Oid>| tape::done(t, ()),
        )
    }
}

fn rebase_onto(t: &mut Tape, stack: &Stack, trunk: Oid) -> (r: Result<(), Halt>)
    ensures
        (final(t)@, tape::outcome(r)) == rebased_onto(old(t)@, stack@, trunk),
{
    if trunk == stack.base {
        return Ok(());
    }
    let mut commits: Vec<Oid> = Vec::new();
    let mut i: usize = 0;
    while i < stack.layers.len()
        invariant
            i <= stack.layers@.len(),
            commits@.len() == i,
            forall|m: int| 0 <= m < i ==> commits@[m] == (#[trigger] stack@.layers[m]).commit,
        decreases stack.layers@.len() - i,
    {
        assert(stack@.layers[i as int].commit == stack.layers@[i as int].commit);
        commits.push(stack.layers[i].commit);
        i = i + 1;
    }
    assert(commits@ =~= stack@.layers.map_values(|l: stack::LayerView| l.commit));
    match rebase_commits(t, &commits, trunk) {
        Ok(_) => Ok(()),
        Err(h) => Err(tape::explain(h, CANNOT_REBASE)),
    }
}

/// The stack rebased onto the remote trunk, and what changed on the way.
pub open spec fn trunk_synced(t: TapeView, c: ConfigView, s: StackView) -> (
    TapeView,
    Result<SyncReportView, HaltView>,
) {
    tape::bind(
        tape::ask_unit(t, RequestView::CheckClean),
        |t: TapeView, u: ()|
            tape::bind(
                upgrade::legacy_rejected(t, c, s),
                |t: TapeView, u: ()|
                    tape::bind(
                        land::trunk_tip(t, c),
                        |t: TapeView, trunk: Oid|
                            tape::bind(
                                findings_from(
                                    t,
                                    s,
                                    0,
                                    FindingsView { merged: Seq::empty(), warnings: Seq::empty() },
                                ),
                                |t: TapeView, f: FindingsView| survived(t, c, s, trunk, f),
                            ),
                    ),
            ),
    )
}

/// What is left of the stack after it was rebased.
pub open spec fn survived(t: TapeView, c: ConfigView, s: StackView, trunk: Oid, f: FindingsView) -> (
    TapeView,
    Result<SyncReportView, HaltView>,
) {
    tape::bind(
        rebased_onto(t, s, trunk),
        |t: TapeView, u: ()|
            tape::bind(
                discovery::discovered(t, trunk, c.trunk),
                |t: TapeView, left: StackView|
                    {
                        let stranded = stranded_below(
                            left,
                            f.merged,
                            left.layers.len() as int,
                        );
                        tape::done(
                            t,
                            SyncReportView {
                                trunk,
                                merged: f.merged,
                                stranded,
                                warnings: with_stranded(f.warnings, stranded),
                                rebased: trunk != s.base,
                            },
                        )
                    },
            ),
    )
}

/// Fetches the trunk, reports anything that changed behind the user's back, and
/// rebases the local stack onto it.
///
/// A merged layer whose commit is still there after the rebase was amended
/// after it merged, so the amendment never made it to the trunk. That is said
/// loudly: it is the one case where a sync cannot do the right thing on its
/// own.
///
/// The caller must re-discover the stack afterwards; commit ids have changed
/// and landed layers are gone.
pub fn sync_trunk(t: &mut Tape, config: &Config, stack: &Stack) -> (r: Result<SyncReport, Halt>)
    requires
        stack::well_formed(stack@),
    ensures
        (final(t)@, tape::outcome(r)) == trunk_synced(old(t)@, config@, stack@),
{
    t.unit(Request::CheckClean)?;
    reject_if_legacy_spr(t, config, stack)?;
    let trunk = fetch_trunk(t, config)?;
    let f = look_around(t, stack)?;
    rebase_onto(t, stack, trunk)?;
    let left = Stack::discover(t, trunk, config.trunk.as_str())?;
    let stranded = find_stranded(&left, &f.merged);
    let mut warnings = f.warnings;
    note_stranded(&mut warnings, &stranded);
    Ok(
        SyncReport {
            trunk,
            merged: f.merged,
            stranded,
            warnings,
            rebased: trunk != stack.base,
        },
    )
}

/// The forge said of a pull request that it is merged.
pub open spec fn said_merged(t: TapeView, number: u64) -> bool {
    exists|pr: PrView|
        pr.state == PrState::Merged && #[trigger] tape::told(
            t,
            RequestView::GetPullRequest { number },
            ReplyView::Pr(pr),
        )
}

/// Since `from` only pull requests were asked for, and exactly those of which the
/// forge said that they are merged are listed.
spec fn merged_as_said(from: TapeView, t: TapeView, f: FindingsView) -> bool {
    &&& tape::only(from, t, |q: RequestView| q is GetPullRequest)
    &&& forall|k: int| 0 <= k < f.merged.len() ==> said_merged(t, #[trigger] f.merged[k])
    &&& forall|k: int|
        from.asked.len() <= k < t.asked.len() && k < t.replies.len() ==> entered(
            #[trigger] t.asked[k],
            t.replies[k],
            f.merged,
        )
}

/// A merged pull request is listed.
pub open spec fn entered(q: RequestView, r: ReplyView, merged: Seq<u64>) -> bool {
    match (q, r) {
        (RequestView::GetPullRequest { number }, ReplyView::Pr(pr)) => pr.state == PrState::Merged
            ==> merged.contains(number),
        _ => true,
    }
}

proof fn lemma_findings_from(from: TapeView, t: TapeView, s: StackView, i: int, f: FindingsView)
    requires
        merged_as_said(from, t, f),
    ensures
        ({
            let (after, r) = findings_from(t, s, i, f);
            &&& tape::only(from, after, |q: RequestView| q is GetPullRequest)
            &&& r matches Ok(g) ==> merged_as_said(from, after, g)
        }),
    decreases s.layers.len() - i,
{
    broadcast use tape::lemma_only_ask;

    if 0 <= i < s.layers.len() {
        match s.layers[i].pr {
            None => lemma_findings_from(from, t, s, i + 1, f),
            Some(number) => {
                let q = RequestView::GetPullRequest { number };
                let (t1, pr) = tape::ask_pr(t, q);
                if pr is Ok {
                    let pr = pr->Ok_0;
                    let g = with_finding(f, number, s.layers[i].message.subject, pr.state);
                    let any = |q: RequestView| q is GetPullRequest;
                    tape::lemma_only_start(t, any);
                    tape::lemma_said_stays(t, t1, any);
                    tape::lemma_told(t, q);
                    if pr.state == PrState::Merged {
                        assert(g.merged[f.merged.len() as int] == number);
                        assert(said_merged(t1, number));
                    }
                    assert forall|k: int| 0 <= k < g.merged.len() implies said_merged(
                        t1,
                        #[trigger] g.merged[k],
                    ) by {
                        if k < f.merged.len() {
                            let old_number = f.merged[k];
                            assert(g.merged[k] == old_number);
                            assert(said_merged(t, old_number));
                            let known = choose|pr: PrView|
                                pr.state == PrState::Merged && #[trigger] tape::told(
                                    t,
                                    RequestView::GetPullRequest { number: old_number },
                                    ReplyView::Pr(pr),
                                );
                            assert(tape::told(
                                t1,
                                RequestView::GetPullRequest { number: old_number },
                                ReplyView::Pr(known),
                            ));
                        }
                    }
                    assert forall|k: int|
                        from.asked.len() <= k < t1.asked.len() && k < t1.replies.len() implies entered(
                        #[trigger] t1.asked[k],
                        t1.replies[k],
                        g.merged,
                    ) by {
                        if k < t.asked.len() {
                            assert(entered(t.asked[k], t.replies[k], f.merged));
                            assert(forall|n: u64|
                                f.merged.contains(n) ==> #[trigger] g.merged.contains(n)) by {
                                assert forall|n: u64| f.merged.contains(n) implies #[trigger] g.merged.contains(
                                n) by {
                                    let m = choose|m: int|
                                        0 <= m < f.merged.len() && f.merged[m] == n;
                                    assert(g.merged[m] == n);
                                }
                            }
                        }
                    }
                    lemma_findings_from(from, t1, s, i + 1, g);
                }
            },
        }
    }
}

/// Merges are detected by state and never by name: to find them, nothing is asked
/// for but the pull requests, and exactly those count as merged of which the forge
/// says so.
pub proof fn law_merges_are_told_by_state(t: TapeView, s: StackView)
    ensures
        ({
            let none = FindingsView { merged: Seq::empty(), warnings: Seq::empty() };
            let (after, r) = findings_from(t, s, 0, none);
            &&& tape::only(t, after, |q: RequestView| q is GetPullRequest)
            &&& r matches Ok(f) ==> {
                &&& forall|k: int|
                    0 <= k < f.merged.len() ==> said_merged(after, #[trigger] f.merged[k])
                &&& forall|k: int|
                    t.asked.len() <= k < after.asked.len() && k < after.replies.len() ==> entered(
                        #[trigger] after.asked[k],
                        after.replies[k],
                        f.merged,
                    )
            }
        }),
{
    let none = FindingsView { merged: Seq::empty(), warnings: Seq::empty() };
    tape::lemma_only_start(t, |q: RequestView| q is GetPullRequest);
    lemma_findings_from(t, t, s, 0, none);
}

/// Bringing the stack in line with the trunk is a local matter: nothing on the
/// forge is changed, and no repair is made.
pub proof fn law_sync_leaves_the_forge_alone(t: TapeView, c: ConfigView, s: StackView)
    ensures
        tape::only(t, trunk_synced(t, c, s).0, |q: RequestView| !tape::touches_forge(q)),
{
    broadcast use {
        tape::lemma_only_ask,
        upgrade::lemma_legacy_rejected_only,
        land::lemma_trunk_tip_only,
        lemma_findings_from_only,
        history::lemma_commits_rebased_only,
        discovery::lemma_discovered_only,
    };

    let allowed = |q: RequestView| !tape::touches_forge(q);
    assert(tape::may_write(allowed));
    assert(tape::may_look(allowed));
    tape::lemma_only_start(t, allowed);
}

broadcast proof fn lemma_findings_from_only(
    from: TapeView,
    t: TapeView,
    s: StackView,
    i: int,
    f: FindingsView,
    allowed: spec_fn(RequestView) -> bool,
)
    requires
        #[trigger] tape::only(from, t, allowed),
        tape::may_look(allowed),
    ensures
        tape::only(from, (#[trigger] findings_from(t, s, i, f)).0, allowed),
    decreases s.layers.len() - i,
{
    broadcast use tape::lemma_only_ask;

    if 0 <= i < s.layers.len() {
        match s.layers[i].pr {
            None => lemma_findings_from_only(from, t, s, i + 1, f, allowed),
            Some(number) => {
                let (t1, pr) = tape::ask_pr(t, RequestView::GetPullRequest { number });
                if pr is Ok {
                    let g = with_finding(
                        f,
                        number,
                        s.layers[i].message.subject,
                        (pr->Ok_0).state,
                    );
                    lemma_findings_from_only(from, t1, s, i + 1, g, allowed);
                }
            },
        }
    }
}

} // verus!
