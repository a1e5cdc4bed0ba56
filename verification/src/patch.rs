//! Reconstructing a stack of pull requests locally from the forge.
//!
//! Every head branch holds the full content of its layer. So it is enough to
//! walk down from the target pull request through base branches to the trunk,
//! and to commit those trees in order into a fresh local branch, with
//! `Pull-Request:` trailers intact.

use vstd::prelude::*;

use crate::config;
use crate::config::{Config, ConfigView};
use crate::data::{has_number, nothing, put};
use crate::forge::{PrState, PrView, PullRequest};
use crate::discovery;
use crate::history;
use crate::history::create_derived_commit;
use crate::oid::Oid;
use crate::reference;
use crate::tape;
use crate::tape::{Halt, HaltView, Reply, ReplyView, Request, RequestView, Tape, TapeView};
use crate::text;
use crate::text::{push_decimal, same};
use crate::trailers;
use crate::trailers::{CommitMessage, MessageView, PULL_REQUEST};

verus! {

#[derive(Debug, Clone)]
pub struct PatchOutcome {
    /// Name of the branch created or updated.
    pub branch: String,
    /// New commits constructed for the stack, bottom to top.
    pub commits: Vec<Oid>,
    /// Pull request numbers in the stack, bottom to top.
    pub prs: Vec<u64>,
    /// State of the target pull request.
    pub target_state: PrState,
    /// Whether the branch was checked out into the working copy.
    pub checked_out: bool,
}

#[verifier::ext_equal]
pub struct PatchOutcomeView {
    pub branch: Seq<char>,
    pub commits: Seq<Oid>,
    pub prs: Seq<u64>,
    pub target_state: PrState,
    pub checked_out: bool,
}

impl DeepView for PatchOutcome {
    type V = PatchOutcomeView;

    open spec fn deep_view(&self) -> PatchOutcomeView {
        PatchOutcomeView {
            branch: self.branch@,
            commits: self.commits@,
            prs: self.prs@,
            target_state: self.target_state,
            checked_out: self.checked_out,
        }
    }
}

/// The pull requests from `current` down to the trunk, put before those above.
/// One that was seen before ends the walk, and so does a base branch that no
/// pull request has for its head.
pub open spec fn chain_down(
    t: TapeView,
    trunk: Seq<char>,
    current: PrView,
    seen: Seq<u64>,
    chain: Seq<PrView>,
) -> (TapeView, Result<Seq<PrView>, HaltView>)
    decreases t.replies.len() - t.asked.len(),
{
    if current.base == trunk {
        tape::done(t, chain)
    } else {
        let (t1, found) = tape::ask_maybe_pr(t, RequestView::FindByHead { head: current.base });
        match found {
            Err(h) => (t1, Err(h)),
            Ok(None) => tape::done(t1, chain),
            Ok(Some(parent)) => if seen.contains(parent.number) {
                tape::done(t1, chain)
            } else {
                chain_down(
                    t1,
                    trunk,
                    parent,
                    seen.push(parent.number),
                    chain.insert(0, parent),
                )
            },
        }
    }
}

fn walk_down(t: &mut Tape, trunk: &str, target: PullRequest, number: u64) -> (r: Result<
    Vec<PullRequest>,
    Halt,
>)
    ensures
        (final(t)@, tape::outcome(r)) == chain_down(
            old(t)@,
            trunk@,
            target@,
            seq![number],
            seq![target@],
        ),
        r matches Ok(chain) ==> chain@.len() > 0,
{
    let ghost first = target@;
    let mut seen: Vec<u64> = Vec::new();
    seen.push(number);
    let mut chain: Vec<PullRequest> = nothing();
    put(&mut chain, target);
    assert(seen@ =~= seq![number]);
    assert(chain.deep_view() =~= seq![first]);
    loop
        invariant
            chain@.len() > 0,
            first == target@,
            chain_down(t@, trunk@, chain.deep_view()[0], seen@, chain.deep_view()) == chain_down(
                old(t)@,
                trunk@,
                first,
                seq![number],
                seq![first],
            ),
        decreases t@.replies.len() - t@.asked.len(),
    {
        let current = &chain[0];
        assert(chain.deep_view()[0] == current.deep_view());
        if same(current.base.as_str(), trunk) {
            return Ok(chain);
        }
        match t.maybe_pr(Request::FindByHead { head: current.base.clone() })? {
            None => {
                return Ok(chain);
            },
            Some(parent) => {
                if has_number(&seen, parent.number) {
                    return Ok(chain);
                }
                seen.push(parent.number);
                let ghost before = chain.deep_view();
                chain.insert(0, parent);
                assert(chain.deep_view() =~= before.insert(0, parent@));
            },
        }
    }
}

/// The commits of the pull requests from the `k`th on made available locally.
pub open spec fn fetch_from(t: TapeView, chain: Seq<PrView>, k: int) -> (
    TapeView,
    Result<(), HaltView>,
)
    decreases chain.len() - k,
{
    if k < 0 || k >= chain.len() {
        tape::done(t, ())
    } else {
        tape::bind(
            tape::ask_unit(t, RequestView::FetchCommit { commit: chain[k].head_oid }),
            |t: TapeView, u: ()|
                tape::bind(
                    tape::ask_unit(t, RequestView::FetchCommit { commit: chain[k].base_oid }),
                    |t: TapeView, u: ()| fetch_from(t, chain, k + 1),
                ),
        )
    }
}

fn fetch_chain(t: &mut Tape, chain: &Vec<PullRequest>) -> (r: Result<(), Halt>)
    ensures
        (final(t)@, tape::outcome(r)) == fetch_from(old(t)@, chain.deep_view(), 0),
{
    let mut k: usize = 0;
    while k < chain.len()
        invariant
            k <= chain@.len(),
            fetch_from(t@, chain.deep_view(), k as int) == fetch_from(
                old(t)@,
                chain.deep_view(),
                0,
            ),
        decreases chain@.len() - k,
    {
        assert(chain.deep_view()[k as int] == chain@[k as int].deep_view());
        t.unit(Request::FetchCommit { commit: chain[k].head_oid })?;
        t.unit(Request::FetchCommit { commit: chain[k].base_oid })?;
        k = k + 1;
    }
    Ok(())
}

/// Whether a commit is known to be an ancestor of another one.
pub open spec fn known_ancestor(t: TapeView, ancestor: Oid, descendant: Oid) -> (
    TapeView,
    Result<bool, HaltView>,
) {
    tape::bind(
        tape::ask(t, RequestView::TryIsAncestor { ancestor, descendant }),
        |t: TapeView, r: ReplyView|
            match r {
                ReplyView::Flag(yes) => tape::done(t, yes),
                ReplyView::Failed(_) => tape::done(t, false),
                _ => tape::refuse(t, tape::MISMATCH@),
            },
    )
}

/// What the bottom of the stack is built on.
pub open spec fn foundation(t: TapeView, trunk: Seq<char>, bottom: PrView, trunk_oid: Oid) -> (
    TapeView,
    Result<Oid, HaltView>,
) {
    if bottom.base != trunk {
        tape::done(t, bottom.base_oid)
    } else {
        tape::bind(
            known_ancestor(t, bottom.base_oid, trunk_oid),
            |t: TapeView, yes: bool|
                if yes {
                    tape::done(t, bottom.base_oid)
                } else {
                    tape::bind(
                        tape::ask_maybe_object(
                            t,
                            RequestView::MergeBaseIfAny { a: bottom.base_oid, b: trunk_oid },
                        ),
                        |t: TapeView, base: Option<Oid>|
                            tape::done(
                                t,
                                match base {
                                    Some(base) => base,
                                    None => trunk_oid,
                                },
                            ),
                    )
                },
        )
    }
}

fn find_foundation(t: &mut Tape, trunk: &str, bottom: &PullRequest, trunk_oid: Oid) -> (r: Result<
    Oid,
    Halt,
>)
    ensures
        (final(t)@, tape::outcome(r)) == foundation(old(t)@, trunk@, bottom@, trunk_oid),
{
    if !same(bottom.base.as_str(), trunk) {
        return Ok(bottom.base_oid);
    }
    let yes = match t.reply(
        Request::TryIsAncestor { ancestor: bottom.base_oid, descendant: trunk_oid },
    )? {
        Reply::Flag(yes) => yes,
        Reply::Failed(_) => false,
        _ => {
            return Err(Halt::Refused(tape::MISMATCH.to_owned()));
        },
    };
    if yes {
        return Ok(bottom.base_oid);
    }
    match t.maybe_object(Request::MergeBaseIfAny { a: bottom.base_oid, b: trunk_oid })? {
        Some(base) => Ok(base),
        None => Ok(trunk_oid),
    }
}

/// The message of the commit that stands for a pull request.
pub open spec fn patch_message(c: ConfigView, pr: PrView) -> MessageView {
    trailers::with_trailer(
        trailers::parsed(pr.title + "\n\n"@ + pr.body),
        PULL_REQUEST@,
        config::pr_url(c, pr.number),
    )
}

/// The commits made so far.
#[verifier::ext_equal]
pub struct BuiltView {
    pub parent: Oid,
    pub commits: Seq<Oid>,
    pub prs: Seq<u64>,
}

/// The commits made so far.
pub struct Built {
    pub parent: Oid,
    pub commits: Vec<Oid>,
    pub prs: Vec<u64>,
}

impl DeepView for Built {
    type V = BuiltView;

    open spec fn deep_view(&self) -> BuiltView {
        BuiltView { parent: self.parent, commits: self.commits@, prs: self.prs@ }
    }
}

/// The pull requests from the `k`th on as commits, each on top of the one
/// before. One that changes nothing is left out.
pub open spec fn build_from(
    t: TapeView,
    c: ConfigView,
    chain: Seq<PrView>,
    k: int,
    b: BuiltView,
) -> (TapeView, Result<BuiltView, HaltView>)
    decreases chain.len() - k,
{
    if k < 0 || k >= chain.len() {
        tape::done(t, b)
    } else {
        let pr = chain[k];
        tape::bind(
            tape::ask_object(t, RequestView::TreeOf { commit: pr.head_oid }),
            |t: TapeView, tree: Oid|
                tape::bind(
                    tape::ask_object(t, RequestView::TreeOf { commit: b.parent }),
                    |t: TapeView, below: Oid|
                        if tree == below {
                            build_from(t, c, chain, k + 1, b)
                        } else {
                            tape::bind(
                                history::derived(
                                    t,
                                    pr.head_oid,
                                    trailers::rendered(patch_message(c, pr)),
                                    tree,
                                    b.parent,
                                ),
                                |t: TapeView, commit: Oid|
                                    build_from(
                                        t,
                                        c,
                                        chain,
                                        k + 1,
                                        BuiltView {
                                            parent: commit,
                                            commits: b.commits.push(commit),
                                            prs: b.prs.push(pr.number),
                                        },
                                    ),
                            )
                        },
                ),
        )
    }
}

fn build_chain(t: &mut Tape, config: &Config, chain: &Vec<PullRequest>, parent: Oid) -> (r: Result<
    Built,
    Halt,
>)
    ensures
        (final(t)@, tape::outcome(r)) == build_from(
            old(t)@,
            config@,
            chain.deep_view(),
            0,
            BuiltView { parent, commits: Seq::empty(), prs: Seq::empty() },
        ),
{
    let mut b = Built { parent, commits: Vec::new(), prs: Vec::new() };
    assert(b.commits@ =~= Seq::<Oid>::empty());
    assert(b.prs@ =~= Seq::<u64>::empty());
    let mut k: usize = 0;
    while k < chain.len()
        invariant
            k <= chain@.len(),
            build_from(t@, config@, chain.deep_view(), k as int, b.deep_view()) == build_from(
                old(t)@,
                config@,
                chain.deep_view(),
                0,
                BuiltView { parent, commits: Seq::empty(), prs: Seq::empty() },
            ),
        decreases chain@.len() - k,
    {
        let pr = &chain[k];
        assert(chain.deep_view()[k as int] == pr.deep_view());
        let tree = t.object(Request::TreeOf { commit: pr.head_oid })?;
        let below = t.object(Request::TreeOf { commit: b.parent })?;
        if tree != below {
            let mut raw = pr.title.clone();
            raw.append("\n\n");
            raw.append(pr.body.as_str());
            let mut message = CommitMessage::parse(raw.as_str());
            message.set(PULL_REQUEST, config.pull_request_url(pr.number).as_str());
            let commit = create_derived_commit(
                t,
                pr.head_oid,
                message.render().as_str(),
                tree,
                b.parent,
            )?;
            b.commits.push(commit);
            b.prs.push(pr.number);
            b.parent = commit;
        }
        k = k + 1;
    }
    Ok(b)
}

/// The local branch that gets the stack.
pub open spec fn patch_branch(number: u64, given: Option<Seq<char>>) -> Seq<char> {
    match given {
        Some(name) => name,
        None => "pr/"@ + text::decimal(number as nat),
    }
}

/// The branch pointed at the stack, and checked out unless the user does not
/// want that.
pub open spec fn patch_concluded(
    t: TapeView,
    branch: Seq<char>,
    target_state: PrState,
    no_checkout: bool,
    b: BuiltView,
) -> (TapeView, Result<PatchOutcomeView, HaltView>) {
    tape::bind(
        tape::ask_unit(
            t,
            RequestView::SetReference {
                name: "refs/heads/"@ + branch,
                oid: b.parent,
                reason: "nspr: patch"@,
            },
        ),
        |t: TapeView, u: ()|
            tape::bind(
                if no_checkout {
                    tape::done(t, ())
                } else {
                    tape::ask_unit(t, RequestView::CheckoutBranch { branch })
                },
                |t: TapeView, u: ()|
                    tape::done(
                        t,
                        PatchOutcomeView {
                            branch,
                            commits: b.commits,
                            prs: b.prs,
                            target_state,
                            checked_out: !no_checkout,
                        },
                    ),
            ),
    )
}

/// A pull request and what it is stacked on as a local branch.
pub open spec fn patched(
    t: TapeView,
    c: ConfigView,
    trunk_oid: Oid,
    number: u64,
    given: Option<Seq<char>>,
    no_checkout: bool,
) -> (TapeView, Result<PatchOutcomeView, HaltView>) {
    tape::bind(
        if no_checkout {
            tape::done(t, ())
        } else {
            tape::ask_unit(t, RequestView::CheckClean)
        },
        |t: TapeView, u: ()|
            tape::bind(
                tape::ask_pr(t, RequestView::GetPullRequest { number }),
                |t: TapeView, target: PrView|
                    tape::bind(
                        chain_down(t, c.trunk, target, seq![number], seq![target]),
                        |t: TapeView, chain: Seq<PrView>|
                            chain_patched(
                                t,
                                c,
                                trunk_oid,
                                chain,
                                patch_branch(number, given),
                                target.state,
                                no_checkout,
                            ),
                    ),
            ),
    )
}

/// A chain of pull requests, from the bottom up, as a local branch.
pub open spec fn chain_patched(
    t: TapeView,
    c: ConfigView,
    trunk_oid: Oid,
    chain: Seq<PrView>,
    branch: Seq<char>,
    target_state: PrState,
    no_checkout: bool,
) -> (TapeView, Result<PatchOutcomeView, HaltView>) {
    tape::bind(
        fetch_from(t, chain, 0),
        |t: TapeView, u: ()|
            tape::bind(
                foundation(t, c.trunk, chain[0], trunk_oid),
                |t: TapeView, parent: Oid|
                    tape::bind(
                        build_from(
                            t,
                            c,
                            chain,
                            0,
                            BuiltView { parent, commits: Seq::empty(), prs: Seq::empty() },
                        ),
                        |t: TapeView, b: BuiltView|
                            patch_concluded(t, branch, target_state, no_checkout, b),
                    ),
            ),
    )
}

/// Fetches a pull request and its dependency stack, reconstructing a linear
/// branch of commits locally.
pub fn patch_layer(
    t: &mut Tape,
    config: &Config,
    trunk_oid: Oid,
    number: u64,
    branch_override: Option<&str>,
    no_checkout: bool,
) -> (r: Result<PatchOutcome, Halt>)
    ensures
        (final(t)@, tape::outcome(r)) == patched(
            old(t)@,
            config@,
            trunk_oid,
            number,
            text::view_of(branch_override),
            no_checkout,
        ),
{
    if !no_checkout {
        t.unit(Request::CheckClean)?;
    }
    let target = t.pr(Request::GetPullRequest { number })?;
    let target_state = target.state;
    let chain = walk_down(t, config.trunk.as_str(), target, number)?;
    fetch_chain(t, &chain)?;
    assert(chain.deep_view()[0] == chain@[0].deep_view());
    let parent = find_foundation(t, config.trunk.as_str(), &chain[0], trunk_oid)?;
    let b = build_chain(t, config, &chain, parent)?;
    let branch = match branch_override {
        Some(name) => name.to_owned(),
        None => {
            let mut name = "pr/".to_owned();
            push_decimal(&mut name, number);
            name
        },
    };
    let mut name = "refs/heads/".to_owned();
    name.append(branch.as_str());
    t.unit(Request::SetReference { name, oid: b.parent, reason: "nspr: patch".to_owned() })?;
    if !no_checkout {
        t.unit(Request::CheckoutBranch { branch: branch.clone() })?;
    }
    Ok(
        PatchOutcome {
            branch,
            commits: b.commits,
            prs: b.prs,
            target_state,
            checked_out: !no_checkout,
        },
    )
}

pub broadcast proof fn lemma_chain_down_only(
    from: TapeView,
    t: TapeView,
    trunk: Seq<char>,
    current: PrView,
    seen: Seq<u64>,
    chain: Seq<PrView>,
    allowed: spec_fn(RequestView) -> bool,
)
    requires
        #[trigger] tape::only(from, t, allowed),
        tape::may_look(allowed),
    ensures
        tape::only(from, (#[trigger] chain_down(t, trunk, current, seen, chain)).0, allowed),
    decreases t.replies.len() - t.asked.len(),
{
    broadcast use tape::lemma_only_ask;

    if current.base != trunk {
        let (t1, found) = tape::ask_maybe_pr(t, RequestView::FindByHead { head: current.base });
        if found is Ok && found->Ok_0 is Some {
            let parent = (found->Ok_0)->0;
            if !seen.contains(parent.number) {
                lemma_chain_down_only(
                    from,
                    t1,
                    trunk,
                    parent,
                    seen.push(parent.number),
                    chain.insert(0, parent),
                    allowed,
                );
            }
        }
    }
}

pub broadcast proof fn lemma_fetch_from_only(
    from: TapeView,
    t: TapeView,
    chain: Seq<PrView>,
    k: int,
    allowed: spec_fn(RequestView) -> bool,
)
    requires
        #[trigger] tape::only(from, t, allowed),
        tape::may_look(allowed),
    ensures
        tape::only(from, (#[trigger] fetch_from(t, chain, k)).0, allowed),
    decreases chain.len() - k,
{
    broadcast use tape::lemma_only_ask;

    if 0 <= k < chain.len() {
        let (t1, r1) = tape::ask_unit(
            t,
            RequestView::FetchCommit { commit: chain[k].head_oid },
        );
        if r1 is Ok {
            let (t2, r2) = tape::ask_unit(
                t1,
                RequestView::FetchCommit { commit: chain[k].base_oid },
            );
            if r2 is Ok {
                lemma_fetch_from_only(from, t2, chain, k + 1, allowed);
            }
        }
    }
}

pub broadcast proof fn lemma_known_ancestor_only(
    from: TapeView,
    t: TapeView,
    ancestor: Oid,
    descendant: Oid,
    allowed: spec_fn(RequestView) -> bool,
)
    requires
        #[trigger] tape::only(from, t, allowed),
        tape::may_look(allowed),
    ensures
        tape::only(from, (#[trigger] known_ancestor(t, ancestor, descendant)).0, allowed),
{
    broadcast use tape::lemma_only_ask;

}

pub broadcast proof fn lemma_foundation_only(
    from: TapeView,
    t: TapeView,
    trunk: Seq<char>,
    bottom: PrView,
    trunk_oid: Oid,
    allowed: spec_fn(RequestView) -> bool,
)
    requires
        #[trigger] tape::only(from, t, allowed),
        tape::may_look(allowed),
    ensures
        tape::only(from, (#[trigger] foundation(t, trunk, bottom, trunk_oid)).0, allowed),
{
    broadcast use {tape::lemma_only_ask, lemma_known_ancestor_only};

}

pub broadcast proof fn lemma_build_from_only(
    from: TapeView,
    t: TapeView,
    c: ConfigView,
    chain: Seq<PrView>,
    k: int,
    b: BuiltView,
    allowed: spec_fn(RequestView) -> bool,
)
    requires
        #[trigger] tape::only(from, t, allowed),
        tape::may_look(allowed),
    ensures
        tape::only(from, (#[trigger] build_from(t, c, chain, k, b)).0, allowed),
    decreases chain.len() - k,
{
    broadcast use {tape::lemma_only_ask, history::lemma_derived_only};

    if 0 <= k < chain.len() {
        let pr = chain[k];
        let (t1, tree) = tape::ask_object(t, RequestView::TreeOf { commit: pr.head_oid });
        if tree is Ok {
            let (t2, below) = tape::ask_object(t1, RequestView::TreeOf { commit: b.parent });
            if below is Ok {
                if tree->Ok_0 == below->Ok_0 {
                    lemma_build_from_only(from, t2, c, chain, k + 1, b, allowed);
                } else {
                    let (t3, commit) = history::derived(
                        t2,
                        pr.head_oid,
                        trailers::rendered(patch_message(c, pr)),
                        tree->Ok_0,
                        b.parent,
                    );
                    if commit is Ok {
                        lemma_build_from_only(
                            from,
                            t3,
                            c,
                            chain,
                            k + 1,
                            BuiltView {
                                parent: commit->Ok_0,
                                commits: b.commits.push(commit->Ok_0),
                                prs: b.prs.push(pr.number),
                            },
                            allowed,
                        );
                    }
                }
            }
        }
    }
}

pub broadcast proof fn lemma_patch_concluded_only(
    from: TapeView,
    t: TapeView,
    branch: Seq<char>,
    target_state: PrState,
    no_checkout: bool,
    b: BuiltView,
    allowed: spec_fn(RequestView) -> bool,
)
    requires
        #[trigger] tape::only(from, t, allowed),
        tape::may_write(allowed),
    ensures
        tape::only(from, (#[trigger] patch_concluded(t, branch, target_state, no_checkout, b)).0, allowed),
{
    broadcast use tape::lemma_only_ask;

    assert(tape::may_look(allowed));
}

pub broadcast proof fn lemma_chain_patched_only(
    from: TapeView,
    t: TapeView,
    c: ConfigView,
    trunk_oid: Oid,
    chain: Seq<PrView>,
    branch: Seq<char>,
    target_state: PrState,
    no_checkout: bool,
    allowed: spec_fn(RequestView) -> bool,
)
    requires
        #[trigger] tape::only(from, t, allowed),
        tape::may_write(allowed),
    ensures
        tape::only(from, (#[trigger] chain_patched(t, c, trunk_oid, chain, branch, target_state, no_checkout)).0, allowed),
{
    broadcast use {tape::lemma_only_ask, lemma_fetch_from_only, lemma_foundation_only, lemma_build_from_only, lemma_patch_concluded_only};

    assert(tape::may_look(allowed));
}

pub broadcast proof fn lemma_patched_only(
    from: TapeView,
    t: TapeView,
    c: ConfigView,
    trunk_oid: Oid,
    number: u64,
    given: Option<Seq<char>>,
    no_checkout: bool,
    allowed: spec_fn(RequestView) -> bool,
)
    requires
        #[trigger] tape::only(from, t, allowed),
        tape::may_write(allowed),
    ensures
        tape::only(from, (#[trigger] patched(t, c, trunk_oid, number, given, no_checkout)).0, allowed),
{
    broadcast use {tape::lemma_only_ask, lemma_chain_down_only, lemma_chain_patched_only};

    assert(tape::may_look(allowed));
}

/// Reconstructing a stack changes nothing on the forge.
pub proof fn law_patch_leaves_the_forge_alone(
    t: TapeView,
    c: ConfigView,
    trunk_oid: Oid,
    number: u64,
    given: Option<Seq<char>>,
    no_checkout: bool,
)
    ensures
        tape::only(
            t,
            patched(t, c, trunk_oid, number, given, no_checkout).0,
            |q: RequestView| !tape::touches_forge(q),
        ),
{
    let local = |q: RequestView| !tape::touches_forge(q);
    tape::lemma_only_start(t, local);
    assert(tape::may_write(local));
    lemma_patched_only(t, t, c, trunk_oid, number, given, no_checkout, local);
}

/// The message of a reconstructed layer names the pull request that it came
/// from.
pub proof fn law_patch_links_back(c: ConfigView, pr: PrView)
    requires
        reference::is_name(c.owner),
        reference::is_name(c.repo),
    ensures
        discovery::pr_of(patch_message(c, pr)) == Some(pr.number),
{
    discovery::law_linked_pr_is_found(
        trailers::parsed(pr.title + "\n\n"@ + pr.body),
        c,
        pr.number,
    );
}

/// Every commit that is built bears the tree of the pull request that it stands
/// for, as long as the layers are different from what they sit on.
proof fn lemma_built(t: TapeView, c: ConfigView, chain: Seq<PrView>, k: int, b: BuiltView)
    requires
        0 <= k <= chain.len(),
        b.commits.len() == b.prs.len(),
        b.commits.len() <= k,
        forall|i: int|
            0 <= i < b.commits.len() ==> #[trigger] stands_for(t, chain, b.commits[i], b.prs[i]),
    ensures
        build_from(t, c, chain, k, b).1 matches Ok(built) ==> built.commits.len()
            == built.prs.len() && built.commits.len() <= chain.len() && (forall|i: int|
            0 <= i < built.commits.len() ==> #[trigger] stands_for(
                build_from(t, c, chain, k, b).0,
                chain,
                built.commits[i],
                built.prs[i],
            )),
    decreases chain.len() - k,
{
    broadcast use {tape::lemma_only_ask, history::lemma_derived_only};

    let any = |q: RequestView| true;
    if k < chain.len() {
        let pr = chain[k];
        let (t1, tree) = tape::ask_object(t, RequestView::TreeOf { commit: pr.head_oid });
        tape::lemma_only_start(t, any);
        if tree is Ok {
            tape::lemma_told(t, RequestView::TreeOf { commit: pr.head_oid });
            let (t2, below) = tape::ask_object(t1, RequestView::TreeOf { commit: b.parent });
            tape::lemma_only_start(t1, any);
            if below is Ok {
                tape::lemma_said_stays(t, t2, any);
                tape::lemma_said_stays(t1, t2, any);
                if tree->Ok_0 == below->Ok_0 {
                    assert forall|i: int| 0 <= i < b.commits.len() implies #[trigger] stands_for(
                        t2,
                        chain,
                        b.commits[i],
                        b.prs[i],
                    ) by {
                        lemma_stands(t, t2, chain, b.commits[i], b.prs[i]);
                    }
                    lemma_built(t2, c, chain, k + 1, b);
                } else {
                    let message = trailers::rendered(patch_message(c, pr));
                    let (t3, commit) = history::derived(
                        t2,
                        pr.head_oid,
                        message,
                        tree->Ok_0,
                        b.parent,
                    );
                    if commit is Ok {
                        tape::lemma_only_start(t2, any);
                        tape::lemma_said_stays(t2, t3, any);
                        history::lemma_derived(t2, pr.head_oid, message, tree->Ok_0, b.parent);
                        let more = BuiltView {
                            parent: commit->Ok_0,
                            commits: b.commits.push(commit->Ok_0),
                            prs: b.prs.push(pr.number),
                        };
                        assert forall|i: int| 0 <= i < more.commits.len() implies #[trigger] stands_for(
                            t3,
                            chain,
                            more.commits[i],
                            more.prs[i],
                        ) by {
                            if i < b.commits.len() {
                                assert(stands_for(t, chain, b.commits[i], b.prs[i]));
                                lemma_stands(t, t3, chain, b.commits[i], b.prs[i]);
                            } else {
                                assert(tape::bears(t1, pr.head_oid, tree->Ok_0));
                                assert(tape::bears(t3, chain[k].head_oid, tree->Ok_0));
                                assert(tape::bears(t3, commit->Ok_0, tree->Ok_0));
                                assert(same_tree(t3, chain[k].head_oid, commit->Ok_0));
                            }
                        }
                        lemma_built(t3, c, chain, k + 1, more);
                    }
                }
            }
        }
    }
}

/// The conversation says that two commits have the same tree.
pub open spec fn same_tree(t: TapeView, a: Oid, b: Oid) -> bool {
    exists|tree: Oid| #[trigger] tape::bears(t, a, tree) && tape::bears(t, b, tree)
}

/// A commit has the tree of the head of the pull request that it stands for.
pub open spec fn stands_for(t: TapeView, chain: Seq<PrView>, commit: Oid, number: u64) -> bool {
    exists|m: int|
        0 <= m < chain.len() && (#[trigger] chain[m]).number == number && same_tree(
            t,
            chain[m].head_oid,
            commit,
        )
}

proof fn lemma_stands(from: TapeView, to: TapeView, chain: Seq<PrView>, commit: Oid, number: u64)
    requires
        tape::only(from, to, |q: RequestView| true),
        stands_for(from, chain, commit, number),
    ensures
        stands_for(to, chain, commit, number),
{
    tape::lemma_said_stays(from, to, |q: RequestView| true);
    let m = choose|m: int|
        0 <= m < chain.len() && (#[trigger] chain[m]).number == number && same_tree(
            from,
            chain[m].head_oid,
            commit,
        );
    let tree = choose|tree: Oid|
        #[trigger] tape::bears(from, chain[m].head_oid, tree) && tape::bears(from, commit, tree);
    assert(tape::bears(to, chain[m].head_oid, tree));
    assert(same_tree(to, chain[m].head_oid, commit));
}

/// Every reconstructed commit has the tree of the head of the pull request that
/// it stands for.
pub proof fn law_patch_rebuilds_trees(t: TapeView, c: ConfigView, chain: Seq<PrView>, parent: Oid)
    ensures
        ({
            let b = BuiltView { parent, commits: Seq::empty(), prs: Seq::empty() };
            build_from(t, c, chain, 0, b).1 matches Ok(built) ==> built.commits.len()
                == built.prs.len() && built.commits.len() <= chain.len() && (forall|i: int|
                0 <= i < built.commits.len() ==> #[trigger] stands_for(
                    build_from(t, c, chain, 0, b).0,
                    chain,
                    built.commits[i],
                    built.prs[i],
                ))
        }),
{
    lemma_built(
        t,
        c,
        chain,
        0,
        BuiltView { parent, commits: Seq::empty(), prs: Seq::empty() },
    );
}

} // verus!
