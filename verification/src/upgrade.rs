//! Upgrading pull requests that `spr` made to native stacked pull requests.
//!
//! `spr` (`spacedentist/spr` and `ejoffe/spr`) creates pull requests with:
//! - A `Pull Request: <url>` trailer (with a space) in the local commit message.
//! - Commits on the remote branch whose messages start with `[spr]` (such as
//!   `[spr] initial version`).
//! - For stacked commits above the bottom layer, a synthetic base branch (such
//!   as `spr/main/master.<id>`) rather than the head branch of the pull request
//!   below.
//!
//! [`upgrade_stack`] converts these pull requests in place, with their numbers,
//! review comments and approvals.

use vstd::prelude::*;

use crate::config;
use crate::config::{Config, ConfigView};
use crate::data::{nothing, put, replace, Duplicate};
use crate::discovery;
use crate::discovery::{Trees, TreesView};
use crate::engine;
use crate::engine::{gather, reject_unusable};
use crate::execution;
use crate::execution::{apply_message_edits, heads_of, is_among, messages_of};
use crate::forge;
use crate::forge::{RepoMergeSettings, PrView, PullRequest, PullRequestUpdate, PushSpec, PushView, UpdateView};
use crate::history;
use crate::history::synthesize_initial_commit;
use crate::markers;
use crate::markers::contains;
use crate::oid::Oid;
use crate::pr_body;
use crate::pr_body::splice_warning;
use crate::refs;
use crate::stack;
use crate::stack::{Dep, LayerView, Stack, StackView};
use crate::stack_comment;
use crate::tape;
use crate::tape::{Halt, HaltView, Request, RequestView, Tape, TapeView};
use crate::text;
use crate::text::{chars_of, push_decimal, same, space, stands_at};
use crate::trailers;
use crate::trailers::{CommitMessage, MessageView, DEPENDS_ON, PULL_REQUEST};

verus! {

/// How far down a branch is searched.
pub const MAX_DEPTH: u64 = 64;

/// A commit message that `spr` wrote.
pub open spec fn spr_message(message: Seq<char>) -> bool {
    let start = text::trim_start(message);
    text::starts_with(start, "[spr]"@) || text::starts_with(start, "[\u{1d5ee}\u{1d5ed}\u{1d5ff}]"@) || markers::holds(
        message,
        "Created using spr"@,
    )
}

fn is_spr_message(message: &str) -> (r: bool)
    ensures
        r == spr_message(message@),
{
    let chars = chars_of(message);
    let mut a: usize = 0;
    assert(chars@.skip(0) =~= chars@);
    while a < chars.len() && space(chars[a])
        invariant
            a <= chars@.len(),
            text::trim_start(chars@.skip(a as int)) == text::trim_start(chars@),
        decreases chars@.len() - a,
    {
        assert(chars@.skip(a as int).skip(1) =~= chars@.skip(a + 1));
        a = a + 1;
    }
    let ghost start = text::trim_start(chars@);
    assert(start == chars@.skip(a as int)) by {
        if a < chars@.len() {
            assert(chars@.skip(a as int)[0] == chars@[a as int]);
        }
    }
    let plain = chars_of("[spr]");
    let styled = chars_of("[\u{1d5ee}\u{1d5ed}\u{1d5ff}]");
    proof {
        if plain@.len() <= start.len() {
            assert(start.take(plain@.len() as int) =~= chars@.subrange(
                a as int,
                a + plain@.len(),
            ));
        }
        if styled@.len() <= start.len() {
            assert(start.take(styled@.len() as int) =~= chars@.subrange(
                a as int,
                a + styled@.len(),
            ));
        }
    }
    stands_at(&chars, &plain, a) || stands_at(&chars, &styled, a) || contains(
        message,
        "Created using spr",
    )
}

/// Some of the next `depth` commits from `cur` down to `stop` has a message
/// that `spr` wrote.
pub open spec fn spr_commit_down(t: TapeView, cur: Oid, stop: Oid, depth: nat) -> (
    TapeView,
    Result<bool, HaltView>,
)
    decreases depth,
{
    if depth == 0 || cur == stop {
        tape::done(t, false)
    } else {
        tape::bind(
            tape::ask_flag(t, RequestView::IsAncestor { ancestor: cur, descendant: stop }),
            |t: TapeView, joined: bool|
                if joined {
                    tape::done(t, false)
                } else {
                    tape::bind(
                        tape::ask_text(t, RequestView::MessageOf { commit: cur }),
                        |t: TapeView, message: Seq<char>|
                            if spr_message(message) {
                                tape::done(t, true)
                            } else {
                                tape::bind(
                                    tape::ask_maybe_object(
                                        t,
                                        RequestView::FirstParentOf { commit: cur },
                                    ),
                                    |t: TapeView, parent: Option<Oid>|
                                        match parent {
                                            Some(parent) => spr_commit_down(
                                                t,
                                                parent,
                                                stop,
                                                (depth - 1) as nat,
                                            ),
                                            None => tape::done(t, false),
                                        },
                                )
                            },
                    )
                },
        )
    }
}

/// Some commit on the branch has a message that `spr` wrote.
pub open spec fn spr_commit(t: TapeView, head: Oid, stop: Oid) -> (TapeView, Result<bool, HaltView>) {
    tape::bind(
        tape::ask_flag(t, RequestView::HasCommit { commit: head }),
        |t: TapeView, known: bool|
            if !known {
                tape::done(t, false)
            } else {
                spr_commit_down(t, head, stop, MAX_DEPTH as nat)
            },
    )
}

/// Whether any commit on `head_oid` down to `stop_oid` carries the tell-tale
/// `[spr]` commit message prefix.
pub fn has_spr_commit(t: &mut Tape, head_oid: Oid, stop_oid: Oid) -> (r: Result<bool, Halt>)
    ensures
        (final(t)@, tape::outcome(r)) == spr_commit(old(t)@, head_oid, stop_oid),
{
    if !t.flag(Request::HasCommit { commit: head_oid })? {
        return Ok(false);
    }
    let mut cur = head_oid;
    let mut depth: u64 = MAX_DEPTH;
    while depth > 0
        invariant
            spr_commit_down(t@, cur, stop_oid, depth as nat) == spr_commit(
                old(t)@,
                head_oid,
                stop_oid,
            ),
        decreases depth,
    {
        if cur == stop_oid {
            return Ok(false);
        }
        if t.flag(Request::IsAncestor { ancestor: cur, descendant: stop_oid })? {
            return Ok(false);
        }
        let message = t.text(Request::MessageOf { commit: cur })?;
        if is_spr_message(message.as_str()) {
            return Ok(true);
        }
        match t.maybe_object(Request::FirstParentOf { commit: cur })? {
            Some(parent) => {
                cur = parent;
            },
            None => {
                return Ok(false);
            },
        }
        depth = depth - 1;
    }
    Ok(false)
}

/// The base branch that the pull request of layer `i` should have.
pub open spec fn expected_base(
    c: ConfigView,
    s: StackView,
    prs: Seq<Option<PrView>>,
    i: int,
) -> Seq<char> {
    match s.layers[i].dep {
        Dep::Layer(j) => match prs[j as int] {
            Some(pr) => pr.head,
            None => c.trunk,
        },
        _ => c.trunk,
    }
}

/// A branch name of the kind that `spr` makes up for bases.
pub open spec fn synthetic_base(branch: Seq<char>) -> bool {
    text::starts_with(branch, "spr/"@) || markers::holds(branch, "/spr/"@)
}

/// Layer `i` was created by `spr` and has not been upgraded yet.
pub open spec fn spr_layer(
    t: TapeView,
    c: ConfigView,
    s: StackView,
    prs: Seq<Option<PrView>>,
    i: int,
    pr: PrView,
) -> (TapeView, Result<bool, HaltView>) {
    if trailers::legacy_trailer(s.layers[i].message) {
        tape::done(t, true)
    } else {
        tape::bind(
            spr_commit(t, pr.head_oid, s.base),
            |t: TapeView, found: bool|
                tape::done(
                    t,
                    found || (synthetic_base(pr.base) && pr.base != expected_base(c, s, prs, i)),
                ),
        )
    }
}

/// Whether layer `i` (and its open pull request `pr`) was created by `spr` and
/// has not yet been upgraded.
pub fn is_spr_layer(
    t: &mut Tape,
    stack: &Stack,
    i: usize,
    pr: &PullRequest,
    prs: &Vec<Option<PullRequest>>,
    config: &Config,
) -> (r: Result<bool, Halt>)
    requires
        i < stack@.layers.len(),
        prs@.len() == stack@.layers.len(),
        stack::well_formed(stack@),
    ensures
        (final(t)@, tape::outcome(r)) == spr_layer(
            old(t)@,
            config@,
            stack@,
            prs.deep_view(),
            i as int,
            pr@,
        ),
{
    let layer = &stack.layers[i];
    assert(stack@.layers[i as int] == layer.deep_view());
    if layer.message.has_legacy_spr_trailer() {
        return Ok(true);
    }
    if has_spr_commit(t, pr.head_oid, stack.base)? {
        return Ok(true);
    }
    let expected = match layer.dep {
        Dep::Layer(j) => {
            assert(prs.deep_view()[j as int] == prs@[j as int].deep_view());
            match &prs[j] {
                Some(pr) => pr.head.as_str(),
                None => config.trunk.as_str(),
            }
        },
        _ => config.trunk.as_str(),
    };
    let synthetic = crate::config::strip_prefix(pr.base.as_str(), "spr/").is_some() || contains(
        pr.base.as_str(),
        "/spr/",
    );
    Ok(synthetic && !same(pr.base.as_str(), expected))
}

/// How a layer is named in a refusal.
pub open spec fn layer_label(s: StackView, i: int) -> Seq<char> {
    let subject = s.layers[i].message.subject;
    match s.layers[i].pr {
        Some(n) => "#"@ + text::decimal(n as nat) + " (`"@ + subject + "`)"@,
        None => "`"@ + subject + "`"@,
    }
}

pub fn layer_label_text(stack: &Stack, i: usize) -> (r: String)
    requires
        i < stack@.layers.len(),
    ensures
        r@ == layer_label(stack@, i as int),
{
    let layer = &stack.layers[i];
    assert(stack@.layers[i as int] == layer.deep_view());
    match layer.pr {
        Some(n) => {
            let mut label = "#".to_owned();
            push_decimal(&mut label, n);
            label.append(" (`");
            label.append(layer.subject());
            label.append("`)");
            label
        },
        None => {
            let mut label = "`".to_owned();
            label.append(layer.subject());
            label.append("`");
            label
        },
    }
}

pub const RUN_UPGRADE: &'static str =
    "`nspr` will not modify `spr` pull requests automatically. Run `nspr upgrade` to convert them to native stacked pull requests.";

/// The refusal to touch a pull request that `spr` made.
pub open spec fn legacy_refusal(s: StackView, i: int) -> Seq<char> {
    "pull request "@ + layer_label(s, i)
        + " was created by `spr` (detected `[spr]` commit or `Pull Request:` trailer).\n"@
        + RUN_UPGRADE@
}

/// Refuses the first layer from `i` on that `spr` made.
pub open spec fn reject_from(
    t: TapeView,
    c: ConfigView,
    s: StackView,
    prs: Seq<Option<PrView>>,
    only: Option<usize>,
    i: int,
) -> (TapeView, Result<(), HaltView>)
    decreases s.layers.len() - i,
{
    if i < 0 || i >= s.layers.len() {
        tape::done(t, ())
    } else if only is Some && only->0 != i {
        reject_from(t, c, s, prs, only, i + 1)
    } else {
        tape::bind(
            match prs[i] {
                Some(pr) => spr_layer(t, c, s, prs, i, pr),
                None => tape::done(t, trailers::legacy_trailer(s.layers[i].message)),
            },
            |t: TapeView, legacy: bool|
                if legacy {
                    tape::refuse(t, legacy_refusal(s, i))
                } else {
                    reject_from(t, c, s, prs, only, i + 1)
                },
        )
    }
}

/// Refuses a stack with pull requests that `spr` made.
pub open spec fn legacy_rejected(t: TapeView, c: ConfigView, s: StackView) -> (
    TapeView,
    Result<(), HaltView>,
) {
    tape::bind(
        engine::gathered(t, s),
        |t: TapeView, prs: Seq<Option<PrView>>| reject_from(t, c, s, prs, None, 0),
    )
}

/// Refuses to mutate a stack that contains pull requests that `spr` made, so
/// that they are only ever converted when the user explicitly asks for it.
pub fn reject_if_legacy_spr(t: &mut Tape, config: &Config, stack: &Stack) -> (r: Result<(), Halt>)
    requires
        stack::well_formed(stack@),
    ensures
        (final(t)@, tape::outcome(r)) == legacy_rejected(old(t)@, config@, stack@),
{
    let prs = gather(t, stack)?;
    reject_if_legacy_spr_with_prs(t, config, stack, &prs, None)
}

pub fn reject_if_legacy_spr_with_prs(
    t: &mut Tape,
    config: &Config,
    stack: &Stack,
    prs: &Vec<Option<PullRequest>>,
    only_layer: Option<usize>,
) -> (r: Result<(), Halt>)
    requires
        prs@.len() == stack@.layers.len(),
        stack::well_formed(stack@),
    ensures
        (final(t)@, tape::outcome(r)) == reject_from(
            old(t)@,
            config@,
            stack@,
            prs.deep_view(),
            only_layer,
            0,
        ),
{
    let mut i: usize = 0;
    while i < stack.layers.len()
        invariant
            i <= stack.layers@.len() == prs@.len(),
            stack::well_formed(stack@),
            reject_from(t@, config@, stack@, prs.deep_view(), only_layer, i as int) == reject_from(
                old(t)@,
                config@,
                stack@,
                prs.deep_view(),
                only_layer,
                0,
            ),
        decreases stack.layers@.len() - i,
    {
        let skip = match only_layer {
            Some(only) => only != i,
            None => false,
        };
        if !skip {
            assert(prs.deep_view()[i as int] == prs@[i as int].deep_view());
            assert(stack@.layers[i as int] == stack.layers@[i as int].deep_view());
            let legacy = match &prs[i] {
                Some(pr) => is_spr_layer(t, stack, i, pr, prs, config)?,
                None => stack.layers[i].message.has_legacy_spr_trailer(),
            };
            if legacy {
                let mut reason = "pull request ".to_owned();
                reason.append(layer_label_text(stack, i).as_str());
                reason.append(
                    " was created by `spr` (detected `[spr]` commit or `Pull Request:` trailer).\n",
                );
                reason.append(RUN_UPGRADE);
                return Err(Halt::Refused(reason));
            }
        }
        i = i + 1;
    }
    Ok(())
}

/// A pull request that was converted.
#[derive(Debug, Clone)]
pub struct UpgradedLayer {
    pub index: usize,
    pub number: u64,
    pub branch: String,
    pub old_base: String,
    pub new_base: String,
    pub deleted_synthetic_base: Option<String>,
    pub tip: Oid,
}

#[verifier::ext_equal]
pub struct UpgradedView {
    pub index: usize,
    pub number: u64,
    pub branch: Seq<char>,
    pub old_base: Seq<char>,
    pub new_base: Seq<char>,
    pub deleted_synthetic_base: Option<Seq<char>>,
    pub tip: Oid,
}

impl DeepView for UpgradedLayer {
    type V = UpgradedView;

    open spec fn deep_view(&self) -> UpgradedView {
        UpgradedView {
            index: self.index,
            number: self.number,
            branch: self.branch@,
            old_base: self.old_base@,
            new_base: self.new_base@,
            deleted_synthetic_base: self.deleted_synthetic_base.deep_view(),
            tip: self.tip,
        }
    }
}

/// Some layer from `i` on was made by `spr`.
pub open spec fn needs_upgrade_from(
    t: TapeView,
    c: ConfigView,
    s: StackView,
    prs: Seq<Option<PrView>>,
    i: int,
) -> (TapeView, Result<bool, HaltView>)
    decreases s.layers.len() - i,
{
    if i < 0 || i >= s.layers.len() {
        tape::done(t, false)
    } else if trailers::legacy_trailer(s.layers[i].message) {
        tape::done(t, true)
    } else {
        match prs[i] {
            None => needs_upgrade_from(t, c, s, prs, i + 1),
            Some(pr) => tape::bind(
                spr_layer(t, c, s, prs, i, pr),
                |t: TapeView, legacy: bool|
                    if legacy {
                        tape::done(t, true)
                    } else {
                        needs_upgrade_from(t, c, s, prs, i + 1)
                    },
            ),
        }
    }
}

fn needs_upgrade(
    t: &mut Tape,
    config: &Config,
    stack: &Stack,
    prs: &Vec<Option<PullRequest>>,
) -> (r: Result<bool, Halt>)
    requires
        prs@.len() == stack@.layers.len(),
        stack::well_formed(stack@),
    ensures
        (final(t)@, tape::outcome(r)) == needs_upgrade_from(
            old(t)@,
            config@,
            stack@,
            prs.deep_view(),
            0,
        ),
{
    let mut i: usize = 0;
    while i < stack.layers.len()
        invariant
            i <= stack.layers@.len() == prs@.len(),
            stack::well_formed(stack@),
            needs_upgrade_from(t@, config@, stack@, prs.deep_view(), i as int)
                == needs_upgrade_from(old(t)@, config@, stack@, prs.deep_view(), 0),
        decreases stack.layers@.len() - i,
    {
        assert(prs.deep_view()[i as int] == prs@[i as int].deep_view());
        assert(stack@.layers[i as int] == stack.layers@[i as int].deep_view());
        if stack.layers[i].message.has_legacy_spr_trailer() {
            return Ok(true);
        }
        match &prs[i] {
            Some(pr) => {
                if is_spr_layer(t, stack, i, pr, prs, config)? {
                    return Ok(true);
                }
            },
            None => {},
        }
        i = i + 1;
    }
    Ok(false)
}

/// Where the branches of the layers go, one after the other.
#[verifier::ext_equal]
pub struct RebuiltView {
    pub tips: Seq<Oid>,
    pub branches: Seq<Seq<char>>,
    pub base_branches: Seq<Seq<char>>,
    pub pushes: Seq<PushView>,
}

/// Where the branches of the layers go, one after the other.
pub struct Rebuilt {
    pub tips: Vec<Oid>,
    pub branches: Vec<String>,
    pub base_branches: Vec<String>,
    pub pushes: Vec<PushSpec>,
}

impl DeepView for Rebuilt {
    type V = RebuiltView;

    open spec fn deep_view(&self) -> RebuiltView {
        RebuiltView {
            tips: self.tips@,
            branches: self.branches.deep_view(),
            base_branches: self.base_branches.deep_view(),
            pushes: self.pushes.deep_view(),
        }
    }
}

/// The first `n` layers have their places.
pub open spec fn rebuilt_for(b: RebuiltView, n: int) -> bool {
    b.tips.len() == n && b.branches.len() == n && b.base_branches.len() == n
}

/// The refusal of a layer on top of one that was never submitted.
pub open spec fn unsubmitted_dep(s: StackView, i: int, j: int) -> Seq<char> {
    "layer `"@ + s.layers[i].message.subject + "` depends on unsubmitted commit `"@
        + s.layers[j].message.subject
        + "`; run `nspr diff` after upgrading or submit the lower commit first."@
}

/// The layers from `i` on as one commit each, on top of the layer they depend
/// on.
pub open spec fn rebuild_from(
    t: TapeView,
    c: ConfigView,
    s: StackView,
    prs: Seq<Option<PrView>>,
    trees: TreesView,
    i: int,
    b: RebuiltView,
) -> (TapeView, Result<RebuiltView, HaltView>)
    decreases s.layers.len() - i,
{
    if i < 0 || i >= s.layers.len() {
        tape::done(t, b)
    } else {
        let layer = s.layers[i];
        let base = match layer.dep {
            Dep::Layer(j) => (b.tips[j as int], b.branches[j as int]),
            _ => (s.base, c.trunk),
        };
        if layer.dep is Layer && base.1.len() == 0 {
            tape::refuse(t, unsubmitted_dep(s, i, layer.dep->Layer_0 as int))
        } else {
            match prs[i] {
                None => rebuild_from(
                    t,
                    c,
                    s,
                    prs,
                    trees,
                    i + 1,
                    RebuiltView {
                        tips: b.tips.push(s.base),
                        branches: b.branches.push(Seq::empty()),
                        base_branches: b.base_branches.push(base.1),
                        pushes: b.pushes,
                    },
                ),
                Some(pr) => tape::bind(
                    history::derived(
                        t,
                        layer.commit,
                        trailers::rendered(trailers::for_branch(layer.message)),
                        trees.effective[i],
                        base.0,
                    ),
                    |t: TapeView, tip: Oid|
                        rebuild_from(
                            t,
                            c,
                            s,
                            prs,
                            trees,
                            i + 1,
                            RebuiltView {
                                tips: b.tips.push(tip),
                                branches: b.branches.push(pr.head),
                                base_branches: b.base_branches.push(base.1),
                                pushes: b.pushes.push(forge::forced_push(pr.head, tip)),
                            },
                        ),
                ),
            }
        }
    }
}

/// Nothing is in its place yet.
pub open spec fn nothing_rebuilt() -> RebuiltView {
    RebuiltView {
        tips: Seq::empty(),
        branches: Seq::empty(),
        base_branches: Seq::empty(),
        pushes: Seq::empty(),
    }
}

fn rebuild(
    t: &mut Tape,
    config: &Config,
    stack: &Stack,
    prs: &Vec<Option<PullRequest>>,
    trees: &Trees,
) -> (r: Result<Rebuilt, Halt>)
    requires
        engine::fits(stack@, prs.deep_view(), trees.deep_view()),
    ensures
        (final(t)@, tape::outcome(r)) == rebuild_from(
            old(t)@,
            config@,
            stack@,
            prs.deep_view(),
            trees.deep_view(),
            0,
            nothing_rebuilt(),
        ),
        r matches Ok(b) ==> rebuilt_for(b.deep_view(), stack@.layers.len() as int),
{
    let mut b = Rebuilt {
        tips: Vec::new(),
        branches: nothing(),
        base_branches: nothing(),
        pushes: nothing(),
    };
    assert(b.tips@ =~= Seq::<Oid>::empty());
    let mut i: usize = 0;
    while i < stack.layers.len()
        invariant
            i <= stack.layers@.len(),
            engine::fits(stack@, prs.deep_view(), trees.deep_view()),
            rebuilt_for(b.deep_view(), i as int),
            rebuild_from(
                t@,
                config@,
                stack@,
                prs.deep_view(),
                trees.deep_view(),
                i as int,
                b.deep_view(),
            ) == rebuild_from(
                old(t)@,
                config@,
                stack@,
                prs.deep_view(),
                trees.deep_view(),
                0,
                nothing_rebuilt(),
            ),
        decreases stack.layers@.len() - i,
    {
        let layer = &stack.layers[i];
        assert(stack@.layers[i as int] == layer.deep_view());
        assert(prs.deep_view()[i as int] == prs@[i as int].deep_view());
        let (parent_tip, base_branch) = match layer.dep {
            Dep::Layer(j) => {
                assert(b.branches.deep_view()[j as int] == b.branches@[j as int]@);
                assert(stack@.layers[j as int] == stack.layers@[j as int].deep_view());
                if b.branches[j].as_str().is_empty() {
                    let mut reason = "layer `".to_owned();
                    reason.append(layer.subject());
                    reason.append("` depends on unsubmitted commit `");
                    reason.append(stack.layers[j].subject());
                    reason.append(
                        "`; run `nspr diff` after upgrading or submit the lower commit first.",
                    );
                    return Err(Halt::Refused(reason));
                }
                (b.tips[j], b.branches[j].clone())
            },
            _ => (stack.base, config.trunk.clone()),
        };
        match &prs[i] {
            None => {
                b.tips.push(stack.base);
                put(&mut b.branches, String::new());
                put(&mut b.base_branches, base_branch);
            },
            Some(pr) => {
                let message = layer.message.clean_for_branch();
                let tip = synthesize_initial_commit(
                    t,
                    parent_tip,
                    trees.effective[i],
                    layer.commit,
                    message.as_str(),
                )?;
                b.tips.push(tip);
                put(&mut b.branches, pr.head.clone());
                put(&mut b.base_branches, base_branch);
                put(&mut b.pushes, PushSpec::forced(pr.head.as_str(), tip));
            },
        }
        i = i + 1;
    }
    Ok(b)
}

/// What a converted pull request is told.
pub open spec fn upgrade_update(
    s: StackView,
    i: int,
    pr: PrView,
    base_branch: Seq<char>,
    warn: bool,
) -> UpdateView {
    let message = s.layers[i].message;
    let body = pr_body::with_warning(message.body, warn);
    UpdateView {
        title: if pr.title != message.subject {
            Some(message.subject)
        } else {
            None
        },
        body: if pr.body != body {
            Some(body)
        } else {
            None
        },
        base: if pr.base != base_branch {
            Some(base_branch)
        } else {
            None
        },
        state: None,
    }
}

/// The base branch that `spr` made up and that nothing needs any more.
pub open spec fn orphaned_base(
    c: ConfigView,
    prs: Seq<Option<PrView>>,
    pr: PrView,
    base_branch: Seq<char>,
) -> Option<Seq<char>> {
    if pr.base != base_branch && pr.base != c.trunk && !execution::among(
        execution::heads_before(prs, prs.len() as int),
        pr.base,
    ) {
        Some(pr.base)
    } else {
        None
    }
}

/// The message of a converted layer, its trailers in the canonical form.
pub open spec fn upgraded_message(c: ConfigView, s: StackView, i: int, number: u64, m: MessageView) -> MessageView {
    let linked = trailers::with_trailer(m, PULL_REQUEST@, config::pr_url(c, number));
    match s.layers[i].dep {
        Dep::Layer(j) => match s.layers[j as int].pr {
            Some(dep_pr) => if s.layers[i].dep_spec is Some {
                trailers::with_trailer(
                    linked,
                    DEPENDS_ON@,
                    "#"@ + text::decimal(dep_pr as nat),
                )
            } else {
                linked
            },
            None => linked,
        },
        _ => linked,
    }
}

/// What is known after some layers were converted.
#[verifier::ext_equal]
pub struct ConversionView {
    pub messages: Seq<MessageView>,
    pub deletes: Seq<PushView>,
    pub upgraded: Seq<UpgradedView>,
}

/// What is known after some layers were converted.
pub struct Conversion {
    pub messages: Vec<CommitMessage>,
    pub deletes: Vec<PushSpec>,
    pub upgraded: Vec<UpgradedLayer>,
}

impl DeepView for Conversion {
    type V = ConversionView;

    open spec fn deep_view(&self) -> ConversionView {
        ConversionView {
            messages: self.messages.deep_view(),
            deletes: self.deletes.deep_view(),
            upgraded: self.upgraded.deep_view(),
        }
    }
}

/// One layer is converted. A base branch that `spr` made up is deleted only
/// after the pull request has got another one.
pub open spec fn converted(
    t: TapeView,
    c: ConfigView,
    s: StackView,
    prs: Seq<Option<PrView>>,
    b: RebuiltView,
    warn: bool,
    i: int,
    pr: PrView,
    v: ConversionView,
) -> (TapeView, Result<ConversionView, HaltView>) {
    let base_branch = b.base_branches[i];
    let update = upgrade_update(s, i, pr, base_branch, warn);
    let orphan = orphaned_base(c, prs, pr, base_branch);
    tape::bind(
        if update != forge::no_update() {
            tape::ask_unit(t, RequestView::UpdatePullRequest { number: pr.number, update })
        } else {
            tape::done(t, ())
        },
        |t: TapeView, u: ()|
            tape::bind(
                refs::updated(t, pr.number, b.tips[i]),
                |t: TapeView, u: ()|
                    tape::bind(
                        refs::root_updated(t, pr.number, b.tips[i]),
                        |t: TapeView, u: ()|
                            tape::done(
                                t,
                                ConversionView {
                                    messages: v.messages.update(
                                        i,
                                        upgraded_message(c, s, i, pr.number, v.messages[i]),
                                    ),
                                    deletes: match orphan {
                                        Some(branch) => v.deletes.push(forge::delete_push(branch)),
                                        None => v.deletes,
                                    },
                                    upgraded: v.upgraded.push(
                                        UpgradedView {
                                            index: i as usize,
                                            number: pr.number,
                                            branch: pr.head,
                                            old_base: pr.base,
                                            new_base: base_branch,
                                            deleted_synthetic_base: orphan,
                                            tip: b.tips[i],
                                        },
                                    ),
                                },
                            ),
                    ),
            ),
    )
}

pub open spec fn convert_from(
    t: TapeView,
    c: ConfigView,
    s: StackView,
    prs: Seq<Option<PrView>>,
    b: RebuiltView,
    warn: bool,
    i: int,
    v: ConversionView,
) -> (TapeView, Result<ConversionView, HaltView>)
    decreases s.layers.len() - i,
{
    if i < 0 || i >= s.layers.len() {
        tape::done(t, v)
    } else {
        match prs[i] {
            None => convert_from(t, c, s, prs, b, warn, i + 1, v),
            Some(pr) => tape::bind(
                converted(t, c, s, prs, b, warn, i, pr, v),
                |t: TapeView, v: ConversionView| convert_from(t, c, s, prs, b, warn, i + 1, v),
            ),
        }
    }
}

/// Nothing is converted yet.
pub open spec fn nothing_converted(s: StackView) -> ConversionView {
    ConversionView {
        messages: s.layers.map_values(|l: LayerView| l.message),
        deletes: Seq::empty(),
        upgraded: Seq::empty(),
    }
}

fn convert_layer(
    t: &mut Tape,
    config: &Config,
    stack: &Stack,
    prs: &Vec<Option<PullRequest>>,
    heads: &Vec<String>,
    b: &Rebuilt,
    warn: bool,
    i: usize,
    pr: &PullRequest,
    v: &mut Conversion,
) -> (r: Result<(), Halt>)
    requires
        i < stack@.layers.len(),
        stack::well_formed(stack@),
        prs@.len() == stack@.layers.len(),
        heads.deep_view() == execution::heads_before(prs.deep_view(), prs@.len() as int),
        rebuilt_for(b.deep_view(), stack@.layers.len() as int),
        old(v).messages@.len() == stack@.layers.len(),
    ensures
        ({
            let spec = converted(
                old(t)@,
                config@,
                stack@,
                prs.deep_view(),
                b.deep_view(),
                warn,
                i as int,
                pr@,
                old(v).deep_view(),
            );
            &&& final(t)@ == spec.0
            &&& match r {
                Ok(_) => spec.1 == Ok::<ConversionView, HaltView>(final(v).deep_view())
                    && final(v).messages@.len() == stack@.layers.len(),
                Err(h) => spec.1 == Err::<ConversionView, HaltView>(h.deep_view()),
            }
        }),
{
    let layer = &stack.layers[i];
    assert(stack@.layers[i as int] == layer.deep_view());
    assert(b.base_branches.deep_view()[i as int] == b.base_branches@[i as int]@);
    let base_branch = b.base_branches[i].clone();
    let tip = b.tips[i];
    let body = splice_warning(layer.message.body.as_str(), warn);
    let retargets = !same(pr.base.as_str(), base_branch.as_str());
    let update = PullRequestUpdate {
        title: if !same(pr.title.as_str(), layer.subject()) {
            Some(layer.message.subject.clone())
        } else {
            None
        },
        body: if !same(pr.body.as_str(), body.as_str()) {
            Some(body)
        } else {
            None
        },
        base: if retargets {
            Some(base_branch.clone())
        } else {
            None
        },
        state: None,
    };
    assert(update.deep_view() == upgrade_update(stack@, i as int, pr@, base_branch@, warn));
    if !update.is_empty() {
        t.unit(Request::UpdatePullRequest { number: pr.number, update })?;
    }
    let orphan = if retargets && !same(pr.base.as_str(), config.trunk.as_str()) && !is_among(
        heads,
        pr.base.as_str(),
    ) {
        Some(pr.base.clone())
    } else {
        None
    };
    assert(orphan.deep_view() == orphaned_base(config@, prs.deep_view(), pr@, base_branch@));
    refs::update(t, pr.number, tip)?;
    refs::update_root(t, pr.number, tip)?;
    match &orphan {
        Some(branch) => {
            put(&mut v.deletes, PushSpec::delete(branch.as_str()));
        },
        None => {},
    }
    let ghost before = v.messages.deep_view();
    let mut message = v.messages[i].duplicate();
    assert(before[i as int] == message@);
    message.set(PULL_REQUEST, config.pull_request_url(pr.number).as_str());
    match layer.dep {
        Dep::Layer(j) => {
            assert(stack@.layers[j as int].pr == stack.layers@[j as int].pr);
            if layer.dep_spec.is_some() {
                match stack.layers[j].pr {
                    Some(dep_pr) => {
                        let mut value = "#".to_owned();
                        push_decimal(&mut value, dep_pr);
                        message.set(DEPENDS_ON, value.as_str());
                    },
                    None => {},
                }
            }
        },
        _ => {},
    }
    replace(&mut v.messages, i, message);
    put(
        &mut v.upgraded,
        UpgradedLayer {
            index: i,
            number: pr.number,
            branch: pr.head.clone(),
            old_base: pr.base.clone(),
            new_base: base_branch,
            deleted_synthetic_base: orphan,
            tip,
        },
    );
    Ok(())
}

fn convert_layers(
    t: &mut Tape,
    config: &Config,
    stack: &Stack,
    prs: &Vec<Option<PullRequest>>,
    b: &Rebuilt,
    warn: bool,
) -> (r: Result<Conversion, Halt>)
    requires
        stack::well_formed(stack@),
        prs@.len() == stack@.layers.len(),
        rebuilt_for(b.deep_view(), stack@.layers.len() as int),
    ensures
        (final(t)@, tape::outcome(r)) == convert_from(
            old(t)@,
            config@,
            stack@,
            prs.deep_view(),
            b.deep_view(),
            warn,
            0,
            nothing_converted(stack@),
        ),
        r matches Ok(v) ==> v.messages@.len() == stack@.layers.len(),
{
    let heads = heads_of(prs);
    let mut v = Conversion {
        messages: messages_of(stack),
        deletes: nothing(),
        upgraded: nothing(),
    };
    assert(v.messages.deep_view().len() == v.messages@.len());
    let mut i: usize = 0;
    while i < stack.layers.len()
        invariant
            i <= stack.layers@.len() == prs@.len(),
            stack::well_formed(stack@),
            heads.deep_view() == execution::heads_before(prs.deep_view(), prs@.len() as int),
            rebuilt_for(b.deep_view(), stack@.layers.len() as int),
            v.messages@.len() == stack@.layers.len(),
            convert_from(
                t@,
                config@,
                stack@,
                prs.deep_view(),
                b.deep_view(),
                warn,
                i as int,
                v.deep_view(),
            ) == convert_from(
                old(t)@,
                config@,
                stack@,
                prs.deep_view(),
                b.deep_view(),
                warn,
                0,
                nothing_converted(stack@),
            ),
        decreases stack.layers@.len() - i,
    {
        assert(prs.deep_view()[i as int] == prs@[i as int].deep_view());
        match &prs[i] {
            Some(pr) => {
                convert_layer(t, config, stack, prs, &heads, b, warn, i, pr, &mut v)?;
            },
            None => {},
        }
        i = i + 1;
    }
    Ok(v)
}

/// What an upgrade comes to.
pub struct Upgraded {
    pub stack: Stack,
    pub layers: Vec<UpgradedLayer>,
}

#[verifier::ext_equal]
pub struct UpgradedStackView {
    pub stack: StackView,
    pub layers: Seq<UpgradedView>,
}

impl DeepView for Upgraded {
    type V = UpgradedStackView;

    open spec fn deep_view(&self) -> UpgradedStackView {
        UpgradedStackView { stack: self.stack@, layers: self.layers.deep_view() }
    }
}

/// The end of an upgrade: the messages are written into the local history, the
/// chains are registered, and the stack tables are posted.
pub open spec fn upgrade_concluded(t: TapeView, c: ConfigView, s: StackView, v: ConversionView) -> (
    TapeView,
    Result<UpgradedStackView, HaltView>,
) {
    tape::bind(
        tape::push_any(t, v.deletes),
        |t: TapeView, u: ()|
            tape::bind(
                execution::messages_edited(t, s, v.messages),
                |t: TapeView, s: StackView|
                    tape::bind(
                        tape::ask_unit(t, RequestView::SyncStacks { chains: stack::chains(s) }),
                        |t: TapeView, u: ()|
                            tape::bind(
                                if c.stack_comments {
                                    stack_comment::comments_from(t, c, s, 0, 0)
                                } else {
                                    tape::done(t, 0)
                                },
                                |t: TapeView, n: usize|
                                    tape::done(
                                        t,
                                        UpgradedStackView { stack: s, layers: v.upgraded },
                                    ),
                            ),
                    ),
            ),
    )
}

/// A stack whose pull requests are all native.
pub open spec fn stack_upgraded(t: TapeView, c: ConfigView, s: StackView) -> (
    TapeView,
    Result<UpgradedStackView, HaltView>,
) {
    tape::bind(
        tape::ask_unit(t, RequestView::CheckClean),
        |t: TapeView, u: ()|
            tape::bind(
                discovery::trees_of(t, s),
                |t: TapeView, trees: TreesView|
                    tape::bind(
                        engine::gathered(t, s),
                        |t: TapeView, prs: Seq<Option<PrView>>|
                            match engine::first_unusable(prs, 0) {
                                Some(reason) => tape::refuse(t, reason),
                                None => tape::bind(
                                    needs_upgrade_from(t, c, s, prs, 0),
                                    |t: TapeView, needed: bool|
                                        if !needed {
                                            tape::done(
                                                t,
                                                UpgradedStackView { stack: s, layers: Seq::empty() },
                                            )
                                        } else {
                                            upgrade_run(t, c, s, prs, trees)
                                        },
                                ),
                            },
                    ),
            ),
    )
}

/// The part of an upgrade that changes things.
pub open spec fn upgrade_run(
    t: TapeView,
    c: ConfigView,
    s: StackView,
    prs: Seq<Option<PrView>>,
    trees: TreesView,
) -> (TapeView, Result<UpgradedStackView, HaltView>) {
    tape::bind(
        rebuild_from(t, c, s, prs, trees, 0, nothing_rebuilt()),
        |t: TapeView, b: RebuiltView|
            tape::bind(
                tape::push_any(t, b.pushes),
                |t: TapeView, u: ()|
                    tape::bind(
                        tape::ask_settings(t, RequestView::MergeSettings),
                        |t: TapeView, settings: RepoMergeSettings|
                            tape::bind(
                                convert_from(
                                    t,
                                    c,
                                    s,
                                    prs,
                                    b,
                                    config::preserve_resolved(c.preserve_commit_history, settings)
                                        && !forge::squash_only(settings),
                                    0,
                                    nothing_converted(s),
                                ),
                                |t: TapeView, v: ConversionView| upgrade_concluded(t, c, s, v),
                            ),
                    ),
            ),
    )
}

/// Converts all pull requests of the stack that `spr` made into native stacked
/// pull requests.
pub fn upgrade_stack(t: &mut Tape, config: &Config, stack: &Stack) -> (r: Result<Upgraded, Halt>)
    requires
        stack::well_formed(stack@),
    ensures
        (final(t)@, tape::outcome(r)) == stack_upgraded(old(t)@, config@, stack@),
        r matches Ok(u) ==> stack::well_formed(u.stack@),
{
    t.unit(Request::CheckClean)?;
    let trees = stack.all_trees(t)?;
    let prs = gather(t, stack)?;
    match reject_unusable(&prs) {
        Ok(()) => {},
        Err(reason) => {
            return Err(Halt::Refused(reason));
        },
    }
    if !needs_upgrade(t, config, stack, &prs)? {
        return Ok(Upgraded { stack: stack.duplicate(), layers: nothing() });
    }
    let b = rebuild(t, config, stack, &prs, &trees)?;
    t.push_if_any(&b.pushes)?;
    let settings = t.settings(Request::MergeSettings)?;
    let warn = config.preserve_commit_history.resolve(settings) && !settings.is_squash_only();
    let v = convert_layers(t, config, stack, &prs, &b, warn)?;
    t.push_if_any(&v.deletes)?;
    let stack = apply_message_edits(t, stack, &v.messages)?;
    let chains = stack.pr_chains();
    t.unit(Request::SyncStacks { chains })?;
    if config.stack_comments {
        let _ = stack_comment::update_all(t, config, &stack)?;
    }
    Ok(Upgraded { stack, layers: v.upgraded })
}

pub broadcast proof fn lemma_spr_commit_down_only(
    from: TapeView,
    t: TapeView,
    cur: Oid,
    stop: Oid,
    depth: nat,
    allowed: spec_fn(RequestView) -> bool,
)
    requires
        #[trigger] tape::only(from, t, allowed),
        tape::may_look(allowed),
    ensures
        tape::only(from, (#[trigger] spr_commit_down(t, cur, stop, depth)).0, allowed),
    decreases depth,
{
    broadcast use tape::lemma_only_ask;

    if depth > 0 && cur != stop {
        let (t1, joined) = tape::ask_flag(
            t,
            RequestView::IsAncestor { ancestor: cur, descendant: stop },
        );
        if joined == Ok::<bool, HaltView>(false) {
            let (t2, message) = tape::ask_text(t1, RequestView::MessageOf { commit: cur });
            if message is Ok && !spr_message(message->Ok_0) {
                let (t3, parent) = tape::ask_maybe_object(
                    t2,
                    RequestView::FirstParentOf { commit: cur },
                );
                if parent is Ok && parent->Ok_0 is Some {
                    lemma_spr_commit_down_only(
                        from,
                        t3,
                        (parent->Ok_0)->0,
                        stop,
                        (depth - 1) as nat,
                        allowed,
                    );
                }
            }
        }
    }
}

pub broadcast proof fn lemma_spr_commit_only(
    from: TapeView,
    t: TapeView,
    head: Oid,
    stop: Oid,
    allowed: spec_fn(RequestView) -> bool,
)
    requires
        #[trigger] tape::only(from, t, allowed),
        tape::may_look(allowed),
    ensures
        tape::only(from, (#[trigger] spr_commit(t, head, stop)).0, allowed),
{
    broadcast use {tape::lemma_only_ask, lemma_spr_commit_down_only};

}

pub broadcast proof fn lemma_spr_layer_only(
    from: TapeView,
    t: TapeView,
    c: ConfigView,
    s: StackView,
    prs: Seq<Option<PrView>>,
    i: int,
    pr: PrView,
    allowed: spec_fn(RequestView) -> bool,
)
    requires
        #[trigger] tape::only(from, t, allowed),
        tape::may_look(allowed),
    ensures
        tape::only(from, (#[trigger] spr_layer(t, c, s, prs, i, pr)).0, allowed),
{
    broadcast use {tape::lemma_only_ask, lemma_spr_commit_only};

}

pub broadcast proof fn lemma_reject_from_only(
    from: TapeView,
    t: TapeView,
    c: ConfigView,
    s: StackView,
    prs: Seq<Option<PrView>>,
    only: Option<usize>,
    i: int,
    allowed: spec_fn(RequestView) -> bool,
)
    requires
        #[trigger] tape::only(from, t, allowed),
        tape::may_look(allowed),
    ensures
        tape::only(from, (#[trigger] reject_from(t, c, s, prs, only, i)).0, allowed),
    decreases s.layers.len() - i,
{
    broadcast use {tape::lemma_only_ask, lemma_spr_layer_only};

    if 0 <= i < s.layers.len() {
        if only is Some && only->0 != i {
            lemma_reject_from_only(from, t, c, s, prs, only, i + 1, allowed);
        } else {
            let (t1, legacy) = match prs[i] {
                Some(pr) => spr_layer(t, c, s, prs, i, pr),
                None => tape::done(t, trailers::legacy_trailer(s.layers[i].message)),
            };
            if legacy == Ok::<bool, HaltView>(false) {
                lemma_reject_from_only(from, t1, c, s, prs, only, i + 1, allowed);
            }
        }
    }
}

pub broadcast proof fn lemma_legacy_rejected_only(
    from: TapeView,
    t: TapeView,
    c: ConfigView,
    s: StackView,
    allowed: spec_fn(RequestView) -> bool,
)
    requires
        #[trigger] tape::only(from, t, allowed),
        tape::may_look(allowed),
    ensures
        tape::only(from, (#[trigger] legacy_rejected(t, c, s)).0, allowed),
{
    broadcast use {tape::lemma_only_ask, engine::lemma_gathered_only, lemma_reject_from_only};

}

/// The first `n` layers are rebuilt: the branch of a pull request stays and gets
/// one commit with the layer's content, on the branch of the layer that it depends
/// on or on the trunk, and nothing else is pushed.
pub open spec fn well_rebuilt(
    t: TapeView,
    c: ConfigView,
    s: StackView,
    prs: Seq<Option<PrView>>,
    trees: TreesView,
    b: RebuiltView,
    n: int,
) -> bool {
    &&& rebuilt_for(b, n)
    &&& forall|i: int|
        0 <= i < n ==> #[trigger] b.base_branches[i] == match s.layers[i].dep {
            Dep::Layer(j) => b.branches[j as int],
            _ => c.trunk,
        }
    &&& forall|i: int|
        0 <= i < n && (#[trigger] prs[i]) is Some ==> b.branches[i] == (prs[i]->0).head
            && tape::bears(t, b.tips[i], trees.effective[i])
    &&& forall|k: int|
        0 <= k < b.pushes.len() ==> exists|i: int|
            0 <= i < n && (#[trigger] prs[i]) is Some && #[trigger] b.pushes[k]
                == forge::forced_push((prs[i]->0).head, b.tips[i])
}

proof fn lemma_rebuild_from(
    t: TapeView,
    c: ConfigView,
    s: StackView,
    prs: Seq<Option<PrView>>,
    trees: TreesView,
    i: int,
    b: RebuiltView,
)
    requires
        engine::fits(s, prs, trees),
        0 <= i <= s.layers.len(),
        well_rebuilt(t, c, s, prs, trees, b, i),
    ensures
        rebuild_from(t, c, s, prs, trees, i, b).1 matches Ok(r) ==> well_rebuilt(
            rebuild_from(t, c, s, prs, trees, i, b).0,
            c,
            s,
            prs,
            trees,
            r,
            s.layers.len() as int,
        ),
    decreases s.layers.len() - i,
{
    broadcast use history::lemma_derived_only;

    if i < s.layers.len() {
        let layer = s.layers[i];
        assert(layer.dep matches Dep::Layer(j) ==> j < i);
        let base = match layer.dep {
            Dep::Layer(j) => (b.tips[j as int], b.branches[j as int]),
            _ => (s.base, c.trunk),
        };
        if layer.dep is Layer && base.1.len() == 0 {
        } else {
            match prs[i] {
                None => {
                    let next = RebuiltView {
                        tips: b.tips.push(s.base),
                        branches: b.branches.push(Seq::empty()),
                        base_branches: b.base_branches.push(base.1),
                        pushes: b.pushes,
                    };
                    lemma_one_more(t, t, c, s, prs, trees, i, b, next);
                    lemma_rebuild_from(t, c, s, prs, trees, i + 1, next);
                },
                Some(pr) => {
                    let message = trailers::rendered(trailers::for_branch(layer.message));
                    let (t1, tip) = history::derived(
                        t,
                        layer.commit,
                        message,
                        trees.effective[i],
                        base.0,
                    );
                    if tip is Ok {
                        let tip = tip->Ok_0;
                        let next = RebuiltView {
                            tips: b.tips.push(tip),
                            branches: b.branches.push(pr.head),
                            base_branches: b.base_branches.push(base.1),
                            pushes: b.pushes.push(forge::forced_push(pr.head, tip)),
                        };
                        history::lemma_derived(
                            t,
                            layer.commit,
                            message,
                            trees.effective[i],
                            base.0,
                        );
                        tape::lemma_only_start(t, |q: RequestView| true);
                        lemma_one_more(t, t1, c, s, prs, trees, i, b, next);
                        lemma_rebuild_from(t1, c, s, prs, trees, i + 1, next);
                    }
                },
            }
        }
    }
}

proof fn lemma_one_more(
    from: TapeView,
    t: TapeView,
    c: ConfigView,
    s: StackView,
    prs: Seq<Option<PrView>>,
    trees: TreesView,
    i: int,
    b: RebuiltView,
    next: RebuiltView,
)
    requires
        engine::fits(s, prs, trees),
        0 <= i < s.layers.len(),
        from == t || tape::only(from, t, |q: RequestView| true),
        well_rebuilt(from, c, s, prs, trees, b, i),
        next.tips.len() == i + 1,
        next.tips.take(i) =~= b.tips,
        next.branches.len() == i + 1,
        next.branches.take(i) =~= b.branches,
        next.base_branches == b.base_branches.push(
            match s.layers[i].dep {
                Dep::Layer(j) => b.branches[j as int],
                _ => c.trunk,
            },
        ),
        match prs[i] {
            Some(pr) => next.branches[i] == pr.head && tape::bears(
                t,
                next.tips[i],
                trees.effective[i],
            ) && next.pushes == b.pushes.push(forge::forced_push(pr.head, next.tips[i])),
            None => next.pushes == b.pushes,
        },
    ensures
        well_rebuilt(t, c, s, prs, trees, next, i + 1),
{
    if from != t {
        tape::lemma_said_stays(from, t, |q: RequestView| true);
    }
    assert forall|k: int| 0 <= k < i implies next.tips[k] == b.tips[k] && next.branches[k]
        == b.branches[k] by {
        assert(next.tips.take(i)[k] == b.tips[k]);
        assert(next.branches.take(i)[k] == b.branches[k]);
    }
    assert forall|k: int| 0 <= k < i + 1 implies #[trigger] next.base_branches[k] == (
    match s.layers[k].dep {
        Dep::Layer(j) => next.branches[j as int],
        _ => c.trunk,
    }) by {
        assert(s.layers[k].dep matches Dep::Layer(j) ==> j < k);
        if k < i {
            assert(b.base_branches[k] == next.base_branches[k]);
        }
    }
    assert forall|k: int| 0 <= k < next.pushes.len() implies exists|m: int|
        0 <= m < i + 1 && (#[trigger] prs[m]) is Some && #[trigger] next.pushes[k]
            == forge::forced_push((prs[m]->0).head, next.tips[m]) by {
        if k < b.pushes.len() {
            assert(b.pushes[k] == next.pushes[k]);
            let m = choose|m: int|
                0 <= m < i && (#[trigger] prs[m]) is Some && b.pushes[k] == forge::forced_push(
                    (prs[m]->0).head,
                    b.tips[m],
                );
            assert(next.tips[m] == b.tips[m]);
        } else {
            assert(prs[i] is Some);
        }
    }
}

/// An upgrade puts every pull request on the head branch of the one that its layer
/// depends on, or on the trunk. Each keeps its own branch, which ends in a commit
/// with the layer's content; no other branch is pushed.
pub proof fn law_rebuilt_natively(
    t: TapeView,
    c: ConfigView,
    s: StackView,
    prs: Seq<Option<PrView>>,
    trees: TreesView,
)
    requires
        engine::fits(s, prs, trees),
    ensures
        rebuild_from(t, c, s, prs, trees, 0, nothing_rebuilt()).1 matches Ok(b) ==> well_rebuilt(
            rebuild_from(t, c, s, prs, trees, 0, nothing_rebuilt()).0,
            c,
            s,
            prs,
            trees,
            b,
            s.layers.len() as int,
        ),
{
    lemma_rebuild_from(t, c, s, prs, trees, 0, nothing_rebuilt());
}

/// No two trailers of the message link to a pull request.
pub open spec fn linked_at_most_once(m: MessageView) -> bool {
    forall|a: int, b: int|
        0 <= a < b < m.trailers.len() && trailers::key_matches(
            (#[trigger] m.trailers[a]).0,
            PULL_REQUEST@,
        ) ==> !trailers::key_matches((#[trigger] m.trailers[b]).0, PULL_REQUEST@)
}

/// Layer `i` is converted: its message links to its pull request, in the canonical
/// form.
pub open spec fn natively_linked(c: ConfigView, s: StackView, i: int, number: u64, m: MessageView) -> bool {
    &&& trailers::trailer_value(m, PULL_REQUEST@) == Some(config::pr_url(c, number))
    &&& linked_at_most_once(s.layers[i].message) ==> !trailers::legacy_trailer(m)
}

proof fn lemma_upgraded_message(c: ConfigView, s: StackView, i: int, number: u64)
    ensures
        natively_linked(
            c,
            s,
            i,
            number,
            upgraded_message(c, s, i, number, s.layers[i].message),
        ),
{
    let m = s.layers[i].message;
    let url = config::pr_url(c, number);
    let linked = trailers::with_trailer(m, PULL_REQUEST@, url);
    trailers::law_get_after_set(m, PULL_REQUEST@, url);
    if linked_at_most_once(m) {
        trailers::lemma_no_legacy_left(m, url);
    }
    match s.layers[i].dep {
        Dep::Layer(j) => match s.layers[j as int].pr {
            Some(dep_pr) => {
                let value = "#"@ + text::decimal(dep_pr as nat);
                assert forall|k: Seq<char>|
                    trailers::key_matches(k, DEPENDS_ON@) implies !#[trigger] trailers::key_matches(
                    k,
                    PULL_REQUEST@,
                ) by {
                    trailers::lemma_keys_apart(k);
                }
                trailers::law_set_keeps_others(linked, DEPENDS_ON@, value, PULL_REQUEST@);
                trailers::lemma_depending_is_not_legacy(linked, value);
            },
            None => {},
        },
        _ => {},
    }
}

/// The first `n` layers are converted: those with a pull request link to it, the
/// others are as they were, and what is to be deleted is neither the trunk nor the
/// branch of a pull request.
pub open spec fn well_converted(
    c: ConfigView,
    s: StackView,
    prs: Seq<Option<PrView>>,
    v: ConversionView,
    n: int,
) -> bool {
    &&& v.messages.len() == s.layers.len()
    &&& forall|i: int|
        0 <= i < n && (#[trigger] prs[i]) is Some ==> natively_linked(
            c,
            s,
            i,
            (prs[i]->0).number,
            v.messages[i],
        )
    &&& forall|i: int|
        0 <= i < s.layers.len() && (i >= n || (#[trigger] prs[i]) is None) ==> v.messages[i]
            == s.layers[i].message
    &&& forall|k: int| 0 <= k < v.deletes.len() ==> orphan_deleted(c, prs, #[trigger] v.deletes[k])
}

/// A push deletes a branch that is neither the trunk nor the branch of a pull
/// request.
pub open spec fn orphan_deleted(c: ConfigView, prs: Seq<Option<PrView>>, push: PushView) -> bool {
    push == forge::delete_push(push.branch) && push.branch != c.trunk && forall|i: int|
        0 <= i < prs.len() && (#[trigger] prs[i]) is Some ==> (prs[i]->0).head != push.branch
}

proof fn lemma_convert_from(
    t: TapeView,
    c: ConfigView,
    s: StackView,
    prs: Seq<Option<PrView>>,
    b: RebuiltView,
    warn: bool,
    i: int,
    v: ConversionView,
)
    requires
        prs.len() == s.layers.len(),
        0 <= i <= s.layers.len(),
        well_converted(c, s, prs, v, i),
    ensures
        convert_from(t, c, s, prs, b, warn, i, v).1 matches Ok(r) ==> well_converted(
            c,
            s,
            prs,
            r,
            s.layers.len() as int,
        ),
    decreases s.layers.len() - i,
{
    if i < s.layers.len() {
        match prs[i] {
            None => lemma_convert_from(t, c, s, prs, b, warn, i + 1, v),
            Some(pr) => {
                let (t1, r) = converted(t, c, s, prs, b, warn, i, pr, v);
                if r is Ok {
                    let w = r->Ok_0;
                    lemma_upgraded_message(c, s, i, pr.number);
                    assert(w.messages == v.messages.update(
                        i,
                        upgraded_message(c, s, i, pr.number, s.layers[i].message),
                    ));
                    assert forall|k: int| 0 <= k < w.deletes.len() implies orphan_deleted(
                        c,
                        prs,
                        #[trigger] w.deletes[k],
                    ) by {
                        if k < v.deletes.len() {
                            assert(w.deletes[k] == v.deletes[k]);
                        } else {
                            let heads = execution::heads_before(prs, prs.len() as int);
                            assert forall|m: int|
                                0 <= m < prs.len() && (#[trigger] prs[m]) is Some implies (
                            prs[m]->0).head != pr.base by {
                                execution::lemma_heads_before(prs, prs.len() as int, m);
                            }
                        }
                    }
                    lemma_convert_from(t1, c, s, prs, b, warn, i + 1, w);
                }
            },
        }
    }
}

/// After an upgrade the message of every layer with a pull request links to it in
/// the canonical form, and the other messages are as they were. What is deleted is
/// neither the trunk nor the branch of a pull request.
pub proof fn law_links_are_normalized(
    t: TapeView,
    c: ConfigView,
    s: StackView,
    prs: Seq<Option<PrView>>,
    b: RebuiltView,
    warn: bool,
)
    requires
        prs.len() == s.layers.len(),
    ensures
        convert_from(t, c, s, prs, b, warn, 0, nothing_converted(s)).1 matches Ok(v)
            ==> well_converted(c, s, prs, v, s.layers.len() as int),
{
    lemma_convert_from(t, c, s, prs, b, warn, 0, nothing_converted(s));
}

/// A request that neither opens a pull request nor merges, closes or reopens one.
pub open spec fn keeps_pull_requests(q: RequestView) -> bool {
    match q {
        RequestView::CreatePullRequest { .. } => false,
        RequestView::MergePullRequest { .. } => false,
        RequestView::TryUpdatePullRequest { .. } => false,
        RequestView::UpdatePullRequest { update, .. } => update.state is None,
        RequestView::SendUpdate { .. } => false,
        _ => true,
    }
}

/// Requests are allowed that keep all pull requests.
pub open spec fn may_keep(allowed: spec_fn(RequestView) -> bool) -> bool {
    forall|q: RequestView| keeps_pull_requests(q) ==> #[trigger] allowed(q)
}

proof fn lemma_needs_upgrade_only(
    from: TapeView,
    t: TapeView,
    c: ConfigView,
    s: StackView,
    prs: Seq<Option<PrView>>,
    i: int,
    allowed: spec_fn(RequestView) -> bool,
)
    requires
        tape::only(from, t, allowed),
        tape::may_look(allowed),
    ensures
        tape::only(from, needs_upgrade_from(t, c, s, prs, i).0, allowed),
    decreases s.layers.len() - i,
{
    broadcast use lemma_spr_layer_only;

    if 0 <= i < s.layers.len() && !trailers::legacy_trailer(s.layers[i].message) {
        match prs[i] {
            None => lemma_needs_upgrade_only(from, t, c, s, prs, i + 1, allowed),
            Some(pr) => {
                let (t1, legacy) = spr_layer(t, c, s, prs, i, pr);
                if legacy == Ok::<bool, HaltView>(false) {
                    lemma_needs_upgrade_only(from, t1, c, s, prs, i + 1, allowed);
                }
            },
        }
    }
}

proof fn lemma_rebuild_only(
    from: TapeView,
    t: TapeView,
    c: ConfigView,
    s: StackView,
    prs: Seq<Option<PrView>>,
    trees: TreesView,
    i: int,
    b: RebuiltView,
    allowed: spec_fn(RequestView) -> bool,
)
    requires
        tape::only(from, t, allowed),
        tape::may_look(allowed),
    ensures
        tape::only(from, rebuild_from(t, c, s, prs, trees, i, b).0, allowed),
    decreases s.layers.len() - i,
{
    broadcast use history::lemma_derived_only;

    if 0 <= i < s.layers.len() {
        let layer = s.layers[i];
        let base = match layer.dep {
            Dep::Layer(j) => (b.tips[j as int], b.branches[j as int]),
            _ => (s.base, c.trunk),
        };
        if layer.dep is Layer && base.1.len() == 0 {
        } else {
            match prs[i] {
                None => {
                    let next = RebuiltView {
                        tips: b.tips.push(s.base),
                        branches: b.branches.push(Seq::empty()),
                        base_branches: b.base_branches.push(base.1),
                        pushes: b.pushes,
                    };
                    lemma_rebuild_only(from, t, c, s, prs, trees, i + 1, next, allowed);
                },
                Some(pr) => {
                    let (t1, tip) = history::derived(
                        t,
                        layer.commit,
                        trailers::rendered(trailers::for_branch(layer.message)),
                        trees.effective[i],
                        base.0,
                    );
                    if tip is Ok {
                        let tip = tip->Ok_0;
                        let next = RebuiltView {
                            tips: b.tips.push(tip),
                            branches: b.branches.push(pr.head),
                            base_branches: b.base_branches.push(base.1),
                            pushes: b.pushes.push(forge::forced_push(pr.head, tip)),
                        };
                        lemma_rebuild_only(from, t1, c, s, prs, trees, i + 1, next, allowed);
                    }
                },
            }
        }
    }
}

proof fn lemma_convert_only(
    from: TapeView,
    t: TapeView,
    c: ConfigView,
    s: StackView,
    prs: Seq<Option<PrView>>,
    b: RebuiltView,
    warn: bool,
    i: int,
    v: ConversionView,
    allowed: spec_fn(RequestView) -> bool,
)
    requires
        tape::only(from, t, allowed),
        may_keep(allowed),
    ensures
        tape::only(from, convert_from(t, c, s, prs, b, warn, i, v).0, allowed),
    decreases s.layers.len() - i,
{
    broadcast use tape::lemma_only_ask;

    if 0 <= i < s.layers.len() {
        match prs[i] {
            None => lemma_convert_only(from, t, c, s, prs, b, warn, i + 1, v, allowed),
            Some(pr) => {
                let (t1, r) = converted(t, c, s, prs, b, warn, i, pr, v);
                assert(tape::only(from, t1, allowed)) by {
                    let update = upgrade_update(s, i, pr, b.base_branches[i], warn);
                    assert(keeps_pull_requests(
                        RequestView::UpdatePullRequest { number: pr.number, update },
                    ));
                }
                if r is Ok {
                    lemma_convert_only(from, t1, c, s, prs, b, warn, i + 1, r->Ok_0, allowed);
                }
            },
        }
    }
}

/// An upgrade keeps every pull request: none is opened, merged, closed or
/// reopened.
pub proof fn law_upgrade_keeps_pull_requests(t: TapeView, c: ConfigView, s: StackView)
    ensures
        tape::only(t, stack_upgraded(t, c, s).0, |q: RequestView| keeps_pull_requests(q)),
{
    broadcast use {
        tape::lemma_only_ask,
        discovery::lemma_trees_of_only,
        engine::lemma_gathered_only,
        execution::lemma_messages_edited_only,
        stack_comment::lemma_comments_from_only,
    };

    let allowed = |q: RequestView| keeps_pull_requests(q);
    assert(may_keep(allowed));
    assert(tape::may_look(allowed));
    assert(tape::may_write(allowed));
    assert(stack_comment::may_comment(allowed));
    tape::lemma_only_start(t, allowed);
    let (t1, clean) = tape::ask_unit(t, RequestView::CheckClean);
    let (t2, trees) = discovery::trees_of(t1, s);
    if clean is Ok && trees is Ok {
        let (t3, prs) = engine::gathered(t2, s);
        if prs is Ok && engine::first_unusable(prs->Ok_0, 0) is None {
            let prs = prs->Ok_0;
            lemma_needs_upgrade_only(t, t3, c, s, prs, 0, allowed);
            let (t4, needed) = needs_upgrade_from(t3, c, s, prs, 0);
            if needed == Ok::<bool, HaltView>(true) {
                lemma_run_only(t, t4, c, s, prs, trees->Ok_0, allowed);
            }
        }
    }
}

proof fn lemma_run_only(
    from: TapeView,
    t: TapeView,
    c: ConfigView,
    s: StackView,
    prs: Seq<Option<PrView>>,
    trees: TreesView,
    allowed: spec_fn(RequestView) -> bool,
)
    requires
        tape::only(from, t, allowed),
        may_keep(allowed),
    ensures
        tape::only(from, upgrade_run(t, c, s, prs, trees).0, allowed),
{
    broadcast use {
        tape::lemma_only_ask,
        execution::lemma_messages_edited_only,
        stack_comment::lemma_comments_from_only,
    };

    assert(tape::may_look(allowed));
    assert(tape::may_write(allowed));
    assert(stack_comment::may_comment(allowed));
    lemma_rebuild_only(from, t, c, s, prs, trees, 0, nothing_rebuilt(), allowed);
    let (t1, b) = rebuild_from(t, c, s, prs, trees, 0, nothing_rebuilt());
    if b is Ok {
        let b = b->Ok_0;
        let (t2, pushed) = tape::push_any(t1, b.pushes);
        let (t3, settings) = tape::ask_settings(t2, RequestView::MergeSettings);
        if pushed is Ok && settings is Ok {
            let settings = settings->Ok_0;
            let warn = config::preserve_resolved(c.preserve_commit_history, settings)
                && !forge::squash_only(settings);
            lemma_convert_only(from, t3, c, s, prs, b, warn, 0, nothing_converted(s), allowed);
        }
    }
}

} // verus!
