//! What `sync` promises, and what every command promises of the trunk that it works with.

use vstd::prelude::*;

use crate::config::ConfigView;
use crate::discovery;
use crate::forge::{PrState, PrView};
use crate::history;
use crate::land;
use crate::oid::Oid;
use crate::patch;
use crate::patch::BuiltView;
use crate::stack::StackView;
use crate::sync;
use crate::sync::FindingsView;
use crate::tape;
use crate::tape::{ReplyView, RequestView, TapeView};
use crate::text;

verus! {

/// The tip of the trunk is what the remote says; only where it does not answer, or has no
/// such branch, it is what was seen last. What the remote says is remembered.
pub proof fn law_trunk_is_what_the_remote_says(t: TapeView, remote: Seq<char>, trunk: Seq<char>)
    ensures
        ({
            let (to, r) = sync::trunk_resolved(t, remote, trunk);
            let name = "refs/remotes/"@ + remote + "/"@ + trunk;
            r matches Ok(oid) ==> {
                ||| tape::told(
                    to,
                    RequestView::TryBranchOid { branch: trunk },
                    ReplyView::MaybeObject(Some(oid)),
                ) && exists|reason: Seq<char>|
                    #[trigger] tape::told(
                        to,
                        RequestView::SetReference { name, oid, reason },
                        ReplyView::Done,
                    )
                ||| tape::told(
                    to,
                    RequestView::ResolveReference { name },
                    ReplyView::MaybeObject(Some(oid)),
                ) && t.replies[t.asked.len() as int] != ReplyView::MaybeObject(Some(oid)) && !(
                t.replies[t.asked.len() as int] matches ReplyView::MaybeObject(Some(_)))
            }
        }),
{
    broadcast use tape::lemma_only_ask;

    let any = |q: RequestView| true;
    let (to, r) = sync::trunk_resolved(t, remote, trunk);
    if r is Ok {
        let q = RequestView::TryBranchOid { branch: trunk };
        let (t1, reply) = tape::ask(t, q);
        tape::lemma_told(t, q);
        tape::lemma_only_start(t1, any);
        match reply->Ok_0 {
            ReplyView::MaybeObject(Some(oid)) => {
                let (t2, r2) = tape::ask_unit(t1, RequestView::FetchCommit { commit: oid });
                let keep = RequestView::SetReference {
                    name: sync::trunk_ref(remote, trunk),
                    oid,
                    reason: "nspr: observed trunk"@,
                };
                tape::lemma_told(t2, keep);
                assert(tape::only(t1, to, any));
                tape::lemma_said_stays(t1, to, any);
                assert(tape::told(to, q, ReplyView::MaybeObject(Some(oid))));
                assert(tape::told(to, keep, ReplyView::Done));
            },
            _ => {
                let look = RequestView::ResolveReference { name: sync::trunk_ref(remote, trunk) };
                tape::lemma_told(t1, look);
                assert(tape::told(to, look, ReplyView::MaybeObject(Some(r->Ok_0))));
            },
        }
    }
}

/// The tip of the trunk on the remote, as the forge tells it, is what a landing and a
/// `sync` work with.
pub proof fn law_trunk_tip_is_what_the_forge_says(t: TapeView, c: ConfigView)
    ensures
        land::trunk_tip(t, c).1 matches Ok(tip) ==> tape::told(
            land::trunk_tip(t, c).0,
            RequestView::BranchOid { branch: c.trunk },
            ReplyView::MaybeObject(Some(tip)),
        ) && tape::told(
            land::trunk_tip(t, c).0,
            RequestView::FetchCommit { commit: tip },
            ReplyView::Done,
        ),
{
    broadcast use tape::lemma_only_ask;

    let any = |q: RequestView| true;
    let (to, r) = land::trunk_tip(t, c);
    if r is Ok {
        let q = RequestView::BranchOid { branch: c.trunk };
        let (t1, tip) = tape::ask_maybe_object(t, q);
        let fetch = RequestView::FetchCommit { commit: r->Ok_0 };
        tape::lemma_told(t, q);
        tape::lemma_told(t1, fetch);
        tape::lemma_only_start(t1, any);
        assert(tape::only(t1, to, any));
        tape::lemma_said_stays(t1, to, any);
        assert(tape::told(t1, q, ReplyView::MaybeObject(Some(r->Ok_0))));
        assert(tape::told(to, fetch, ReplyView::Done));
    }
}

proof fn lemma_stranded(s: StackView, merged: Seq<u64>, n: int, number: u64)
    requires
        0 <= n <= s.layers.len(),
    ensures
        sync::stranded_below(s, merged, n).contains(number) <==> merged.contains(number)
            && exists|k: int| 0 <= k < n && (#[trigger] s.layers[k]).pr == Some(number),
    decreases n,
{
    if n > 0 {
        lemma_stranded(s, merged, n - 1, number);
        let before = sync::stranded_below(s, merged, n - 1);
        let now = sync::stranded_below(s, merged, n);
        if before.contains(number) {
            let x = choose|x: int| 0 <= x < before.len() && before[x] == number;
            assert(now[x] == number);
        }
        if s.layers[n - 1].pr == Some(number) && merged.contains(number) {
            assert(now[before.len() as int] == number);
        }
        if now.contains(number) {
            let x = choose|x: int| 0 <= x < now.len() && now[x] == number;
            if x < before.len() {
                assert(before[x] == number);
            } else {
                assert(s.layers[n - 1].pr == Some(number));
            }
        }
    }
}

/// What `sync` reports is so: it works with the given tip of the trunk, it says that it
/// rebased exactly if the stack sat on another commit, and it lists as left behind exactly
/// the merged pull requests whose commits are still there, with a warning for each. No
/// warning that there was gets lost.
pub proof fn law_sync_reports_what_is_left(
    t: TapeView,
    c: ConfigView,
    s: StackView,
    trunk: Oid,
    f: FindingsView,
    number: u64,
    x: int,
)
    ensures
        ({
            let (to, r) = sync::survived(t, c, s, trunk, f);
            let (t1, u) = sync::rebased_onto(t, s, trunk);
            let left = discovery::discovered(t1, trunk, c.trunk).1;
            r matches Ok(report) ==> {
                &&& report.trunk == trunk
                &&& report.merged == f.merged
                &&& report.rebased <==> trunk != s.base
                &&& left matches Ok(left) ==> (report.stranded.contains(number)
                    <==> f.merged.contains(number) && exists|k: int|
                    0 <= k < left.layers.len() && (#[trigger] left.layers[k]).pr == Some(number))
                &&& report.warnings.len() == f.warnings.len() + report.stranded.len()
                &&& 0 <= x < f.warnings.len() ==> report.warnings[x] == f.warnings[x]
                &&& 0 <= x < report.stranded.len() ==> text::starts_with(
                    report.warnings[f.warnings.len() + x],
                    "#"@ + text::decimal(report.stranded[x] as nat),
                )
            }
        }),
{
    let (to, r) = sync::survived(t, c, s, trunk, f);
    if r is Ok {
        let report = r->Ok_0;
        let (t1, u) = sync::rebased_onto(t, s, trunk);
        let left = discovery::discovered(t1, trunk, c.trunk).1->Ok_0;
        lemma_stranded(left, f.merged, left.layers.len() as int, number);
        if 0 <= x < report.stranded.len() {
            let name = "#"@ + text::decimal(report.stranded[x] as nat);
            let note = report.warnings[f.warnings.len() + x];
            assert(note == sync::stranded_noted(report.stranded[x]));
            assert(note.take(name.len() as int) =~= name);
        }
    }
}

/// Nothing is rebased where the stack already sits on the tip of the trunk, and otherwise
/// all of its commits are.
pub proof fn law_sync_rebases_the_whole_stack(t: TapeView, s: StackView, trunk: Oid)
    ensures
        trunk == s.base ==> sync::rebased_onto(t, s, trunk).0 == t,
        trunk != s.base ==> sync::rebased_onto(t, s, trunk).0 == history::commits_rebased(
            t,
            Seq::new(s.layers.len(), |i: int| s.layers[i].commit),
            trunk,
        ).0,
{
    assert(s.layers.map_values(|l: crate::stack::LayerView| l.commit) =~= Seq::new(
        s.layers.len(),
        |i: int| s.layers[i].commit,
    ));
}

/// A pull request that was closed without a merge is warned about by its number, and
/// nothing else is done about it; one that is open is passed over.
pub proof fn law_closed_ones_are_warned_about(
    f: FindingsView,
    number: u64,
    subject: Seq<char>,
    state: PrState,
)
    ensures
        ({
            let g = sync::with_finding(f, number, subject, state);
            &&& state == PrState::Open ==> g == f
            &&& state == PrState::Merged ==> g.merged == f.merged.push(number) && g.warnings
                == f.warnings
            &&& state == PrState::Closed ==> g.merged == f.merged && g.warnings.len()
                == f.warnings.len() + 1 && text::starts_with(
                g.warnings.last(),
                "#"@ + text::decimal(number as nat),
            )
        }),
{
    if state == PrState::Closed {
        let name = "#"@ + text::decimal(number as nat);
        let note = sync::closed_noted(number, subject);
        assert(note.take(name.len() as int) =~= name);
    }
}

/// What `patch` makes is the branch that the user named, or one that is named after the
/// pull request; it points at the topmost commit, and it is checked out unless the user
/// does not want that.
pub proof fn law_patch_makes_the_branch(
    t: TapeView,
    number: u64,
    given: Option<Seq<char>>,
    state: PrState,
    no_checkout: bool,
    b: BuiltView,
)
    ensures
        ({
            let branch = patch::patch_branch(number, given);
            let (to, r) = patch::patch_concluded(t, branch, state, no_checkout, b);
            &&& given matches Some(name) ==> branch == name
            &&& given is None ==> branch == "pr/"@ + text::decimal(number as nat)
            &&& r matches Ok(o) ==> {
                &&& exists|reason: Seq<char>|
                    #[trigger] tape::told(
                        to,
                        RequestView::SetReference {
                            name: "refs/heads/"@ + branch,
                            oid: b.parent,
                            reason,
                        },
                        ReplyView::Done,
                    )
                &&& to.asked.last() is CheckoutBranch <==> !no_checkout
                &&& !no_checkout ==> to.asked.last() == (RequestView::CheckoutBranch { branch })
                &&& o.branch == branch
                &&& o.commits == b.commits
                &&& o.prs == b.prs
                &&& o.target_state == state
                &&& o.checked_out == !no_checkout
            }
        }),
{
    broadcast use tape::lemma_only_ask;

    let any = |q: RequestView| true;
    let branch = patch::patch_branch(number, given);
    let (to, r) = patch::patch_concluded(t, branch, state, no_checkout, b);
    if r is Ok {
        let q = RequestView::SetReference {
            name: "refs/heads/"@ + branch,
            oid: b.parent,
            reason: "nspr: patch"@,
        };
        let (t1, r1) = tape::ask_unit(t, q);
        tape::lemma_told(t, q);
        assert(tape::told(t1, q, ReplyView::Done));
        assert(t1.asked.last() == q);
        tape::lemma_only_start(t1, any);
        assert(tape::only(t1, to, any));
        tape::lemma_said_stays(t1, to, any);
        assert(tape::told(to, q, ReplyView::Done));
        if !no_checkout {
            let out = RequestView::CheckoutBranch { branch };
            let (t2, r2) = tape::ask_unit(t1, out);
            assert(t2.asked.last() == out);
        }
    }
}

/// A stack is rebuilt on what its bottom sits on, as the forge tells it; where that is on
/// the trunk but not in the history that is here, on the commit where the two part.
pub proof fn law_stack_is_rebuilt_where_it_sits(
    t: TapeView,
    trunk: Seq<char>,
    bottom: PrView,
    trunk_oid: Oid,
)
    ensures
        ({
            let (to, r) = patch::foundation(t, trunk, bottom, trunk_oid);
            r matches Ok(parent) ==> {
                ||| parent == bottom.base_oid
                ||| bottom.base == trunk && tape::told(
                    to,
                    RequestView::MergeBaseIfAny { a: bottom.base_oid, b: trunk_oid },
                    ReplyView::MaybeObject(Some(parent)),
                )
                ||| bottom.base == trunk && parent == trunk_oid && tape::told(
                    to,
                    RequestView::MergeBaseIfAny { a: bottom.base_oid, b: trunk_oid },
                    ReplyView::MaybeObject(None),
                )
            }
        }),
        bottom.base != trunk ==> patch::foundation(t, trunk, bottom, trunk_oid) == tape::done(
            t,
            bottom.base_oid,
        ),
{
    let (to, r) = patch::foundation(t, trunk, bottom, trunk_oid);
    if r is Ok && bottom.base == trunk {
        let (t1, yes) = patch::known_ancestor(t, bottom.base_oid, trunk_oid);
        if !yes->Ok_0 {
            let q = RequestView::MergeBaseIfAny { a: bottom.base_oid, b: trunk_oid };
            let (t2, found) = tape::ask_maybe_object(t1, q);
            tape::lemma_told(t1, q);
            assert(to == t2);
            assert(tape::told(to, q, ReplyView::MaybeObject(found->Ok_0)));
        }
    }
}

} // verus!
