//! What the user asks for on the command line, and how it is put to them.

use vstd::prelude::*;

use crate::config::strip_prefix;
use crate::data::{nothing, put};
use crate::engine::AUTO_UPDATE_MESSAGE;
use crate::land;
use crate::land::next_landable;
use crate::reference;
use crate::reference::parse_pr_ref;
use crate::stack;
use crate::stack::{Dep, Stack, StackView};
use crate::text;
use crate::text::{blank, join_texts, push_decimal};
use crate::upgrade;
use crate::upgrade::layer_label_text;

verus! {

/// The error of an argument that names no pull request.
pub open spec fn bad_pr_arg(s: Seq<char>) -> Seq<char> {
    "cannot parse `"@ + s
        + "` as a pull request number (expected e.g. `123`, `#123`, or a GitHub PR URL)"@
}

/// Reads an argument that names a pull request.
pub fn parse_pr_arg(s: &str) -> (r: Result<u64, String>)
    ensures
        match r {
            Ok(n) => reference::pr_meant(s@) == Some(n),
            Err(reason) => reference::pr_meant(s@) is None && reason@ == bad_pr_arg(s@),
        },
{
    match parse_pr_ref(s) {
        Some(n) => Ok(n),
        None => {
            let mut reason = "cannot parse `".to_owned();
            reason.append(s);
            reason.append(
                "` as a pull request number (expected e.g. `123`, `#123`, or a GitHub PR URL)",
            );
            Err(reason)
        },
    }
}

/// What `nspr diff` is asked for.
#[derive(Debug, Clone)]
pub struct DiffArgs {
    /// Push every layer, even ones whose displayed diff has not changed.
    pub all: bool,
    /// Submit only the `HEAD` commit, as an independent pull request.
    pub cherry_pick: bool,
    /// Description for this update, instead of being prompted.
    pub message: Option<String>,
    /// Overwrite each pull request's title and body from the local commit.
    pub update_message: bool,
    /// Open new pull requests as drafts.
    pub draft: bool,
    /// Never prompt.
    pub no_prompt: bool,
}

#[verifier::ext_equal]
pub struct DiffArgsView {
    pub all: bool,
    pub cherry_pick: bool,
    pub message: Option<Seq<char>>,
    pub update_message: bool,
    pub draft: bool,
    pub no_prompt: bool,
}

impl View for DiffArgs {
    type V = DiffArgsView;

    open spec fn view(&self) -> DiffArgsView {
        DiffArgsView {
            all: self.all,
            cherry_pick: self.cherry_pick,
            message: self.message.deep_view(),
            update_message: self.update_message,
            draft: self.draft,
            no_prompt: self.no_prompt,
        }
    }
}

/// A plain `nspr diff`.
pub open spec fn plain_diff() -> DiffArgsView {
    DiffArgsView {
        all: false,
        cherry_pick: false,
        message: None,
        update_message: false,
        draft: false,
        no_prompt: false,
    }
}

impl Default for DiffArgs {
    fn default() -> (r: Self)
        ensures
            r@ == plain_diff(),
    {
        DiffArgs {
            all: false,
            cherry_pick: false,
            message: None,
            update_message: false,
            draft: false,
            no_prompt: false,
        }
    }
}

/// What `nspr land` is asked for.
#[derive(Debug, Clone)]
pub struct LandArgs {
    /// A specific pull request, given as an option.
    pub pr: Option<u64>,
    /// A specific pull request, given by its place.
    pub number: Option<u64>,
    /// Land the independent `HEAD` pull request.
    pub cherry_pick: bool,
    /// Land the lowest ready pull request at the bottom of the stack.
    pub bottom: bool,
    /// Keep landing while the bottom of the stack is landable.
    pub all: bool,
    /// Body for the squash commit, instead of the commit's own message.
    pub message: Option<String>,
}

#[verifier::ext_equal]
pub struct LandArgsView {
    pub pr: Option<u64>,
    pub number: Option<u64>,
    pub cherry_pick: bool,
    pub bottom: bool,
    pub all: bool,
    pub message: Option<Seq<char>>,
}

impl View for LandArgs {
    type V = LandArgsView;

    open spec fn view(&self) -> LandArgsView {
        LandArgsView {
            pr: self.pr,
            number: self.number,
            cherry_pick: self.cherry_pick,
            bottom: self.bottom,
            all: self.all,
            message: self.message.deep_view(),
        }
    }
}

impl Default for LandArgs {
    fn default() -> (r: Self)
        ensures
            r@ == (LandArgsView {
                pr: None,
                number: None,
                cherry_pick: false,
                bottom: false,
                all: false,
                message: None,
            }),
    {
        LandArgs {
            pr: None,
            number: None,
            cherry_pick: false,
            bottom: false,
            all: false,
            message: None,
        }
    }
}

/// The pull request that is named: as an option, or else by its place.
pub open spec fn named_pr(args: LandArgsView) -> Option<u64> {
    if args.pr is Some {
        args.pr
    } else {
        args.number
    }
}

impl LandArgs {
    pub fn target_pr(&self) -> (r: Option<u64>)
        ensures
            r == named_pr(self@),
    {
        if self.pr.is_some() {
            self.pr
        } else {
            self.number
        }
    }
}

/// The first layer from `i` on with a pull request of the given number.
pub open spec fn layer_with(s: StackView, number: u64, i: int) -> Option<usize>
    decreases s.layers.len() - i,
{
    if i < 0 || i >= s.layers.len() {
        None
    } else if s.layers[i].pr == Some(number) {
        Some(i as usize)
    } else {
        layer_with(s, number, i + 1)
    }
}

/// Finds the layer of a pull request.
pub fn find_layer_with(stack: &Stack, number: u64) -> (r: Option<usize>)
    ensures
        r == layer_with(stack@, number, 0),
        r matches Some(i) ==> i < stack@.layers.len(),
{
    let mut i: usize = 0;
    while i < stack.layers.len()
        invariant
            i <= stack.layers@.len(),
            layer_with(stack@, number, i as int) == layer_with(stack@, number, 0),
        decreases stack.layers@.len() - i,
    {
        assert(stack@.layers[i as int].pr == stack.layers@[i as int].pr);
        match stack.layers[i].pr {
            Some(n) => if n == number {
                return Some(i);
            },
            None => {},
        }
        i = i + 1;
    }
    None
}

/// The layers below `n` with a pull request.
pub open spec fn submitted(s: StackView, n: int) -> Seq<usize>
    decreases n,
{
    if n <= 0 {
        Seq::empty()
    } else if s.layers[n - 1].pr is Some {
        submitted(s, n - 1).push((n - 1) as usize)
    } else {
        submitted(s, n - 1)
    }
}

/// The layers below `n` on the trunk with a pull request.
pub open spec fn landable_roots(s: StackView, n: int) -> Seq<usize>
    decreases n,
{
    if n <= 0 {
        Seq::empty()
    } else if s.layers[n - 1].dep == Dep::Main && s.layers[n - 1].pr is Some {
        landable_roots(s, n - 1).push((n - 1) as usize)
    } else {
        landable_roots(s, n - 1)
    }
}

/// The names of the layers below `n` on the trunk.
pub open spec fn root_names(s: StackView, n: int) -> Seq<Seq<char>>
    decreases n,
{
    if n <= 0 {
        Seq::empty()
    } else if s.layers[n - 1].dep == Dep::Main {
        root_names(s, n - 1).push(upgrade::layer_label(s, n - 1))
    } else {
        root_names(s, n - 1)
    }
}

/// The refusal to guess which layer is to land.
pub open spec fn ambiguous(s: StackView, trunk: Seq<char>) -> Seq<char> {
    let head = s.layers.len() - 1;
    "your branch has "@ + text::decimal(s.layers.len()) + " commits stacked above `"@ + trunk
        + "` (`HEAD` is "@ + upgrade::layer_label(s, head) + "; bottom of stack is "@ + text::join(
        root_names(s, s.layers.len() as int),
        ", "@,
    ) + ").\nBecause stacked pull requests must be merged from the bottom up into `"@ + trunk
        + "`, specify what to land:\n\u{2022} `nspr land "@ + (match land::root_pr(s, 0) {
        Some(n) => "--pr="@ + text::decimal(n as nat),
        None => "--pr=<NUMBER>"@,
    })
        + "`   Land a specific root pull request and rebase remaining commits\n\u{2022} `nspr land --bottom`   Land the lowest ready pull request in the stack"@
        + (if s.layers[head].dep == Dep::Main {
        "\n\u{2022} `nspr land --cherry-pick`  Land the independent HEAD pull request"@
    } else {
        ""@
    })
        + "\n\u{2022} `nspr land --all`      Land all ready pull requests from the bottom up"@
}

/// The refusal to land a `HEAD` that sits on another commit.
pub open spec fn stacked_head(subject: Seq<char>, trunk: Seq<char>) -> Seq<char> {
    "HEAD commit `"@ + subject + "` is stacked on another commit (`Depends-On: "@ + trunk
        + "` is not set).\nUse `nspr land --bottom` or `nspr land --all` to land from the bottom up, or run `nspr diff --cherry-pick` first to make HEAD independent."@
}

/// The refusal to land a `HEAD` that was never submitted.
pub open spec fn unsubmitted_head(subject: Seq<char>) -> Seq<char> {
    "HEAD commit `"@ + subject
        + "` has no pull request yet; run `nspr diff --cherry-pick` first."@
}

/// The layer that is to land, where it is not named and not at the bottom
/// either: the only one with a pull request, or the `HEAD` if it is the only
/// one that can land.
pub open spec fn implied_target(s: StackView, trunk: Seq<char>) -> Result<usize, Seq<char>> {
    let n = s.layers.len() as int;
    let open = submitted(s, n);
    let roots = landable_roots(s, n);
    if open.len() == 1 && s.layers[open[0] as int].dep == Dep::Main {
        Ok(open[0])
    } else if roots.len() == 1 && roots[0] == n - 1 {
        Ok(roots[0])
    } else {
        Err(ambiguous(s, trunk))
    }
}

/// The layer that is to land.
pub open spec fn land_target(s: StackView, args: LandArgsView, trunk: Seq<char>) -> Result<
    usize,
    Seq<char>,
> {
    let head = s.layers.len() - 1;
    if s.layers.len() == 0 {
        Err("nothing to land: your branch has no commits ahead of `"@ + trunk + "`."@)
    } else if args.cherry_pick {
        if s.layers[head].dep != Dep::Main {
            Err(stacked_head(s.layers[head].message.subject, trunk))
        } else if s.layers[head].pr is None {
            Err(unsubmitted_head(s.layers[head].message.subject))
        } else {
            Ok(head as usize)
        }
    } else {
        match named_pr(args) {
            Some(number) => match layer_with(s, number, 0) {
                Some(i) => Ok(i),
                None => Err(
                    "#"@ + text::decimal(number as nat)
                        + " is not in this stack. Run `nspr status` to see your stack."@,
                ),
            },
            None => if args.bottom || args.all || s.layers.len() == 1 {
                match land::landable_from(s, 0) {
                    Some(i) => Ok(i),
                    None => Err(
                        "nothing at the bottom of the stack is ready to land. Run `nspr status` to see why."@,
                    ),
                }
            } else {
                implied_target(s, trunk)
            },
        }
    }
}

fn find_submitted(stack: &Stack) -> (r: Vec<usize>)
    ensures
        r@ == submitted(stack@, stack@.layers.len() as int),
        forall|k: int| 0 <= k < r@.len() ==> (#[trigger] r@[k]) < stack@.layers.len(),
{
    let mut out: Vec<usize> = Vec::new();
    let mut i: usize = 0;
    while i < stack.layers.len()
        invariant
            i <= stack.layers@.len(),
            out@ == submitted(stack@, i as int),
            forall|k: int| 0 <= k < out@.len() ==> (#[trigger] out@[k]) < stack@.layers.len(),
        decreases stack.layers@.len() - i,
    {
        assert(stack@.layers[i as int].pr == stack.layers@[i as int].pr);
        if stack.layers[i].pr.is_some() {
            out.push(i);
        }
        i = i + 1;
    }
    out
}

fn find_landable_roots(stack: &Stack) -> (r: Vec<usize>)
    ensures
        r@ == landable_roots(stack@, stack@.layers.len() as int),
{
    let mut out: Vec<usize> = Vec::new();
    let mut i: usize = 0;
    while i < stack.layers.len()
        invariant
            i <= stack.layers@.len(),
            out@ == landable_roots(stack@, i as int),
        decreases stack.layers@.len() - i,
    {
        assert(stack@.layers[i as int] == stack.layers@[i as int].deep_view());
        if stack.layers[i].dep == Dep::Main && stack.layers[i].pr.is_some() {
            out.push(i);
        }
        i = i + 1;
    }
    out
}

fn name_roots(stack: &Stack) -> (r: String)
    ensures
        r@ == text::join(root_names(stack@, stack@.layers.len() as int), ", "@),
{
    let mut names: Vec<String> = nothing();
    let mut i: usize = 0;
    while i < stack.layers.len()
        invariant
            i <= stack.layers@.len(),
            names.deep_view() == root_names(stack@, i as int),
        decreases stack.layers@.len() - i,
    {
        assert(stack@.layers[i as int] == stack.layers@[i as int].deep_view());
        if stack.layers[i].dep == Dep::Main {
            put(&mut names, layer_label_text(stack, i));
        }
        i = i + 1;
    }
    assert(text::views(names@) =~= names.deep_view());
    join_texts(&names, ", ")
}

fn ambiguous_text(stack: &Stack, trunk: &str) -> (r: String)
    requires
        stack@.layers.len() > 0,
    ensures
        r@ == ambiguous(stack@, trunk@),
{
    let n: usize = stack.layers.len();
    let head: usize = n - 1;
    assert(stack@.layers[head as int] == stack.layers@[head as int].deep_view());
    let mut out = "your branch has ".to_owned();
    push_decimal(&mut out, n as u64);
    out.append(" commits stacked above `");
    out.append(trunk);
    out.append("` (`HEAD` is ");
    out.append(layer_label_text(stack, head).as_str());
    out.append("; bottom of stack is ");
    out.append(name_roots(stack).as_str());
    out.append(
        ").\nBecause stacked pull requests must be merged from the bottom up into `",
    );
    out.append(trunk);
    out.append("`, specify what to land:\n\u{2022} `nspr land ");
    let mut example = "--pr=<NUMBER>".to_owned();
    match land::find_root_pr(stack) {
        Some(n) => {
            example = "--pr=".to_owned();
            push_decimal(&mut example, n);
        },
        None => {},
    }
    out.append(example.as_str());
    out.append(
        "`   Land a specific root pull request and rebase remaining commits\n\u{2022} `nspr land --bottom`   Land the lowest ready pull request in the stack",
    );
    if stack.layers[head].dep == Dep::Main {
        out.append("\n\u{2022} `nspr land --cherry-pick`  Land the independent HEAD pull request");
    } else {
        out.append("");
    }
    out.append("\n\u{2022} `nspr land --all`      Land all ready pull requests from the bottom up");
    out
}

/// Finds out which layer is to land.
pub fn resolve_land_target(stack: &Stack, args: &LandArgs, trunk: &str) -> (r: Result<
    usize,
    String,
>)
    ensures
        match r {
            Ok(i) => land_target(stack@, args@, trunk@) == Ok::<usize, Seq<char>>(i) && i
                < stack@.layers.len(),
            Err(reason) => land_target(stack@, args@, trunk@) == Err::<usize, Seq<char>>(reason@),
        },
{
    let n: usize = stack.layers.len();
    assert(stack@.layers.len() == n);
    if n == 0 {
        let mut reason = "nothing to land: your branch has no commits ahead of `".to_owned();
        reason.append(trunk);
        reason.append("`.");
        return Err(reason);
    }
    if args.cherry_pick {
        let head = &stack.layers[n - 1];
        assert(stack@.layers[n - 1] == head.deep_view());
        if head.dep != Dep::Main {
            let mut reason = "HEAD commit `".to_owned();
            reason.append(head.subject());
            reason.append("` is stacked on another commit (`Depends-On: ");
            reason.append(trunk);
            reason.append(
                "` is not set).\nUse `nspr land --bottom` or `nspr land --all` to land from the bottom up, or run `nspr diff --cherry-pick` first to make HEAD independent.",
            );
            return Err(reason);
        }
        if head.pr.is_none() {
            let mut reason = "HEAD commit `".to_owned();
            reason.append(head.subject());
            reason.append("` has no pull request yet; run `nspr diff --cherry-pick` first.");
            return Err(reason);
        }
        return Ok(n - 1);
    }
    match args.target_pr() {
        Some(number) => {
            return match find_layer_with(stack, number) {
                Some(i) => Ok(i),
                None => {
                    let mut reason = "#".to_owned();
                    push_decimal(&mut reason, number);
                    reason.append(" is not in this stack. Run `nspr status` to see your stack.");
                    Err(reason)
                },
            };
        },
        None => {},
    }
    if args.bottom || args.all || n == 1 {
        return match next_landable(stack) {
            Some(i) => Ok(i),
            None => Err(
                "nothing at the bottom of the stack is ready to land. Run `nspr status` to see why.".to_owned(),
            ),
        };
    }
    let open = find_submitted(stack);
    if open.len() == 1 {
        let only: usize = open[0];
        assert(stack@.layers[only as int] == stack.layers@[only as int].deep_view());
        if stack.layers[only].dep == Dep::Main {
            return Ok(only);
        }
    }
    let roots = find_landable_roots(stack);
    if roots.len() == 1 && roots[0] == n - 1 {
        return Ok(roots[0]);
    }
    Err(ambiguous_text(stack, trunk))
}

/// What the user is asked about a layer.
pub open spec fn question_about(label: Seq<char>) -> Seq<char> {
    if text::starts_with(label, "#"@) {
        "What changed in "@ + label + "?"@
    } else {
        "What changed in \""@ + label + "\"?"@
    }
}

pub fn update_question(label: &str) -> (r: String)
    ensures
        r@ == question_about(label@),
{
    if strip_prefix(label, "#").is_some() {
        let mut out = "What changed in ".to_owned();
        out.append(label);
        out.append("?");
        out
    } else {
        let mut out = "What changed in \"".to_owned();
        out.append(label);
        out.append("\"?");
        out
    }
}

/// What an answer comes to: the default message where it is blank.
pub open spec fn answer_taken(answer: Seq<char>) -> Seq<char> {
    if text::is_blank(answer) {
        AUTO_UPDATE_MESSAGE@
    } else {
        answer
    }
}

/// What the user's answer comes to: the default message where it is blank.
pub fn update_answer(answer: String) -> (r: String)
    ensures
        r@ == answer_taken(answer@),
{
    if blank(answer.as_str()) {
        AUTO_UPDATE_MESSAGE.to_owned()
    } else {
        answer
    }
}

/// What the user is told about a commit that has lost its trailer.
pub open spec fn lost_trailer(
    subject: Seq<char>,
    number: u64,
    title: Seq<char>,
    branch: Seq<char>,
    linking: bool,
) -> Seq<char> {
    "commit \""@ + subject + "\" has no `Pull-Request:` trailer, but open PR #"@ + text::decimal(
        number as nat,
    ) + " (\""@ + title + "\") already uses branch `"@ + branch + (if linking {
        "`; linking to #"@ + text::decimal(number as nat) + "."@
    } else {
        "`."@
    })
}

pub fn relink_warning(subject: &str, number: u64, title: &str, branch: &str, linking: bool) -> (r:
    String)
    ensures
        r@ == lost_trailer(subject@, number, title@, branch@, linking),
{
    let mut end = "`.".to_owned();
    if linking {
        end = "`; linking to #".to_owned();
        push_decimal(&mut end, number);
        end.append(".");
    }
    let mut out = "commit \"".to_owned();
    out.append(subject);
    out.append("\" has no `Pull-Request:` trailer, but open PR #");
    push_decimal(&mut out, number);
    out.append(" (\"");
    out.append(title);
    out.append("\") already uses branch `");
    out.append(branch);
    out.append(end.as_str());
    out
}

/// What the user is asked about a commit that has lost its trailer.
pub fn relink_question(number: u64) -> (r: String)
    ensures
        r@ == "Link this commit to existing PR #"@ + text::decimal(number as nat)
            + " instead of opening a new PR?"@,
{
    let mut out = "Link this commit to existing PR #".to_owned();
    push_decimal(&mut out, number);
    out.append(" instead of opening a new PR?");
    out
}

} // verus!
