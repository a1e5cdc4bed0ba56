//! Moving git objects to and from the remote.
//!
//! The transport itself is the caller's; what is asked of it, and what the user
//! is told about it, is decided here.

use vstd::prelude::*;

use crate::config;
use crate::config::strip_prefix;
use crate::data::{nothing, put};
use crate::oid;
use crate::oid::Oid;
use crate::ssh_agent;
use crate::ssh_agent::{format_ssh_auth_error, SshAgentStatus};
use crate::text;
use crate::text::{chars_of, find, join_texts, push_decimal, text_between};

verus! {

/// The part of a text behind the first occurrence of a pattern.
pub open spec fn behind(s: Seq<char>, pattern: Seq<char>) -> Option<Seq<char>> {
    match text::find_from(s, pattern, 0) {
        Some(k) => Some(s.skip(k + pattern.len())),
        None => None,
    }
}

fn part_behind(s: &str, pattern: &str) -> (r: Option<String>)
    ensures
        r.deep_view() == behind(s@, pattern@),
{
    let chars = chars_of(s);
    let mark = chars_of(pattern);
    let n: usize = chars.len();
    proof {
        text::lemma_find(s@, pattern@, 0);
    }
    match find(&chars, &mark, 0) {
        Some(k) => {
            let rest = text_between(&chars, k + mark.len(), n);
            assert(rest@ =~= s@.skip(k + pattern@.len()));
            Some(rest)
        },
        None => None,
    }
}

/// How a refspec is told to the user: a deletion, a forced push or a push of a
/// branch.
pub open spec fn refspec_told(spec: Seq<char>) -> Seq<char> {
    match config::after_prefix(spec, ":refs/heads/"@) {
        Some(branch) => "delete "@ + branch,
        None => match config::after_prefix(spec, "+"@) {
            Some(rest) => match behind(rest, ":refs/heads/"@) {
                Some(branch) => "+"@ + branch,
                None => match behind(spec, ":refs/heads/"@) {
                    Some(branch) => branch,
                    None => spec,
                },
            },
            None => match behind(spec, ":refs/heads/"@) {
                Some(branch) => branch,
                None => spec,
            },
        },
    }
}

fn tell_refspec(spec: &str) -> (r: String)
    ensures
        r@ == refspec_told(spec@),
{
    match strip_prefix(spec, ":refs/heads/") {
        Some(branch) => {
            let mut out = "delete ".to_owned();
            out.append(branch.as_str());
            return out;
        },
        None => {},
    }
    match strip_prefix(spec, "+") {
        Some(rest) => match part_behind(rest.as_str(), ":refs/heads/") {
            Some(branch) => {
                let mut out = "+".to_owned();
                out.append(branch.as_str());
                return out;
            },
            None => {},
        },
        None => {},
    }
    match part_behind(spec, ":refs/heads/") {
        Some(branch) => branch,
        None => spec.to_owned(),
    }
}

/// How a push is told to the user.
pub open spec fn push_told(refspecs: Seq<Seq<char>>) -> Seq<char> {
    text::decimal(refspecs.len()) + " "@ + (if refspecs.len() == 1 {
        "branch"@
    } else {
        "branches"@
    }) + " ("@ + text::join(refspecs.map_values(|s: Seq<char>| refspec_told(s)), ", "@) + ")"@
}

/// Describes a push by its branches and what happens to them.
pub fn describe_push_refspecs(refspecs: &Vec<String>) -> (r: String)
    ensures
        r@ == push_told(refspecs.deep_view()),
{
    let ghost v = refspecs.deep_view();
    let mut items: Vec<String> = Vec::new();
    let mut k: usize = 0;
    while k < refspecs.len()
        invariant
            k <= refspecs@.len(),
            v == refspecs.deep_view(),
            items@.len() == k,
            forall|m: int| 0 <= m < k ==> (#[trigger] items@[m])@ == refspec_told(v[m]),
        decreases refspecs@.len() - k,
    {
        assert(v[k as int] == refspecs@[k as int]@);
        items.push(tell_refspec(refspecs[k].as_str()));
        k = k + 1;
    }
    assert(v.len() == refspecs@.len());
    assert(text::views(items@) =~= v.map_values(|s: Seq<char>| refspec_told(s)));
    let all = join_texts(&items, ", ");
    let count: usize = items.len();
    let mut out = String::new();
    push_decimal(&mut out, count as u64);
    assert(out@ =~= text::decimal(count as nat));
    out.append(" ");
    if count == 1 {
        out.append("branch");
    } else {
        out.append("branches");
    }
    out.append(" (");
    out.append(all.as_str());
    out.append(")");
    out
}

/// What a failed connection comes from.
pub open spec fn connection_said(
    is_ssh: bool,
    effective: Seq<char>,
    url: Seq<char>,
    status: ssh_agent::AgentView,
) -> Seq<char> {
    if is_ssh {
        ssh_agent::auth_error(effective, url, status)
    } else {
        "could not connect to "@ + url
            + ". Check `gh auth status`, and that you can reach the repository. Note that `git remote -v` may show a different push URL: `url.*.pushInsteadOf` in your git config rewrites the transport, and credentials that work for one transport do not apply to the other."@
    }
}

/// Says what a failed connection comes from.
pub fn connection_error(is_ssh: bool, effective_url: &str, url: &str, status: &SshAgentStatus) -> (r:
    String)
    ensures
        r@ == connection_said(is_ssh, effective_url@, url@, status.deep_view()),
{
    if is_ssh {
        return format_ssh_auth_error(effective_url, url, status);
    }
    let mut out = "could not connect to ".to_owned();
    out.append(url);
    out.append(
        ". Check `gh auth status`, and that you can reach the repository. Note that `git remote -v` may show a different push URL: `url.*.pushInsteadOf` in your git config rewrites the transport, and credentials that work for one transport do not apply to the other.",
    );
    out
}

/// The error of a commit that is not on the remote.
pub open spec fn unreachable_said(o: Oid, url: Seq<char>) -> Seq<char> {
    oid::oid_hex(o) + " is not reachable on "@ + url
        + ". If it was just merged, wait a moment and run `nspr sync`."@
}

pub fn unreachable_commit(o: Oid, url: &str) -> (r: String)
    ensures
        r@ == unreachable_said(o, url@),
{
    let mut out = o.text();
    out.append(" is not reachable on ");
    out.append(url);
    out.append(". If it was just merged, wait a moment and run `nspr sync`.");
    out
}

/// The branches among the first `n` references of a remote, and where they
/// stand.
pub open spec fn branches_in(heads: Seq<(Seq<char>, Oid)>, n: int) -> Seq<(Seq<char>, Oid)>
    decreases n,
{
    if n <= 0 {
        Seq::empty()
    } else {
        let below = branches_in(heads, n - 1);
        match config::after_prefix(heads[n - 1].0, "refs/heads/"@) {
            Some(branch) => if heads[n - 1].1 != oid::zero_oid() {
                below.push((branch, heads[n - 1].1))
            } else {
                below
            },
            None => below,
        }
    }
}

/// Picks the branches among the references of a remote.
pub fn branches_of(heads: &Vec<(String, Oid)>) -> (r: Vec<(String, Oid)>)
    ensures
        r.deep_view() == branches_in(heads.deep_view(), heads@.len() as int),
{
    let mut out: Vec<(String, Oid)> = nothing();
    let mut i: usize = 0;
    while i < heads.len()
        invariant
            i <= heads@.len(),
            out.deep_view() == branches_in(heads.deep_view(), i as int),
        decreases heads@.len() - i,
    {
        assert(heads.deep_view()[i as int] == heads@[i as int].deep_view());
        match strip_prefix(heads[i].0.as_str(), "refs/heads/") {
            Some(branch) => if heads[i].1 != Oid::zero() {
                put(&mut out, (branch, heads[i].1));
            },
            None => {},
        }
        i = i + 1;
    }
    out
}

} // verus!
