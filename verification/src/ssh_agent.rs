//! The SSH agent: asking it whether it answers, and saying what failed.
//!
//! A push over SSH asks the agent for a key. An agent that does not answer
//! would block forever, so it is asked for its keys first, with a bound on how
//! long that may take. The conversation is decided here, one step at a time;
//! the socket is the caller's.

use vstd::prelude::*;

use crate::config;
use crate::config::strip_prefix;
use crate::markers;
use crate::markers::contains;
use crate::text;
use crate::text::{
    chars_of, push_decimal, same, same_text_ignoring_case, stands_at, text_between, trim_text,
};

verus! {

/// What asking an SSH agent comes to.
#[derive(Debug, Clone, PartialEq, Eq)]
pub enum SshAgentStatus {
    /// The agent answers and has a number of keys loaded.
    Available { identities_count: usize },
    /// `$SSH_AUTH_SOCK` is unset or empty.
    NotConfigured,
    /// Talking to the agent failed (e.g. the socket does not exist).
    ConnectionFailed { path: String, reason: String },
    /// The agent did not answer in time. The time is in seconds, with one
    /// decimal.
    TimedOut { path: String, seconds: String },
}

#[verifier::ext_equal]
pub enum AgentView {
    Available { identities_count: usize },
    NotConfigured,
    ConnectionFailed { path: Seq<char>, reason: Seq<char> },
    TimedOut { path: Seq<char>, seconds: Seq<char> },
}

impl DeepView for SshAgentStatus {
    type V = AgentView;

    open spec fn deep_view(&self) -> AgentView {
        match self {
            SshAgentStatus::Available { identities_count } => AgentView::Available {
                identities_count: *identities_count,
            },
            SshAgentStatus::NotConfigured => AgentView::NotConfigured,
            SshAgentStatus::ConnectionFailed { path, reason } => AgentView::ConnectionFailed {
                path: path@,
                reason: reason@,
            },
            SshAgentStatus::TimedOut { path, seconds } => AgentView::TimedOut {
                path: path@,
                seconds: seconds@,
            },
        }
    }
}

impl SshAgentStatus {
    /// Whether the agent answers and can be asked for keys.
    pub fn is_available(&self) -> (r: bool)
        ensures
            r == (self.deep_view() is Available),
    {
        match self {
            SshAgentStatus::Available { .. } => true,
            _ => false,
        }
    }
}

/// How long to wait for the agent, in milliseconds.
pub const DEFAULT_SSH_AGENT_TIMEOUT: u64 = 1500;

/// What has happened to the socket.
#[derive(Debug, Clone)]
pub enum ProbeEvent {
    Connected,
    ConnectFailed { reason: String },
    TimeoutsSet,
    ReadTimeoutFailed { reason: String },
    WriteTimeoutFailed { reason: String },
    Sent,
    SendFailed { timed_out: bool, reason: String },
    /// The first four bytes of the answer.
    Length { bytes: Vec<u8> },
    LengthFailed { timed_out: bool, reason: String },
    /// The next five bytes of the answer.
    Header { bytes: Vec<u8> },
    HeaderFailed { timed_out: bool, reason: String },
}

/// What to do with the socket.
#[derive(Debug, Clone)]
pub enum ProbeAction {
    /// Bound how long reading and writing may take.
    SetTimeouts,
    /// Write bytes.
    Send { bytes: Vec<u8> },
    /// Read four bytes.
    ReadLength,
    /// Read five bytes.
    ReadHeader,
    /// Stop: the answer is known.
    Stop { status: SshAgentStatus },
}

#[verifier::ext_equal]
pub enum ActionView {
    SetTimeouts,
    Send { bytes: Seq<u8> },
    ReadLength,
    ReadHeader,
    Stop { status: AgentView },
}

impl DeepView for ProbeAction {
    type V = ActionView;

    open spec fn deep_view(&self) -> ActionView {
        match self {
            ProbeAction::SetTimeouts => ActionView::SetTimeouts,
            ProbeAction::Send { bytes } => ActionView::Send { bytes: bytes@ },
            ProbeAction::ReadLength => ActionView::ReadLength,
            ProbeAction::ReadHeader => ActionView::ReadHeader,
            ProbeAction::Stop { status } => ActionView::Stop { status: status.deep_view() },
        }
    }
}

/// Talking to the agent failed.
pub open spec fn failed(path: Seq<char>, reason: Seq<char>) -> ActionView {
    ActionView::Stop { status: AgentView::ConnectionFailed { path, reason } }
}

/// Talking to the agent took too long, or failed otherwise.
pub open spec fn late_or_failed(
    path: Seq<char>,
    seconds: Seq<char>,
    timed_out: bool,
    what: Seq<char>,
    reason: Seq<char>,
) -> ActionView {
    if timed_out {
        ActionView::Stop { status: AgentView::TimedOut { path, seconds } }
    } else {
        failed(path, what + reason)
    }
}

/// The number that four bytes are, the most significant one first.
pub open spec fn big_endian(bytes: Seq<u8>, from: int) -> nat {
    (bytes[from] * 0x100_0000 + bytes[from + 1] * 0x1_0000 + bytes[from + 2] * 0x100
        + bytes[from + 3]) as nat
}

/// The next step of the conversation: connect, ask for the keys (a packet of
/// one byte, of type 11), and read the length, the type (which must be 12) and
/// the number of keys of the answer.
pub open spec fn next_step(event: ProbeEvent, path: Seq<char>, seconds: Seq<char>) -> ActionView {
    match event {
        ProbeEvent::Connected => ActionView::SetTimeouts,
        ProbeEvent::ConnectFailed { reason } => failed(path, reason@),
        ProbeEvent::TimeoutsSet => ActionView::Send { bytes: seq![0u8, 0, 0, 1, 11] },
        ProbeEvent::ReadTimeoutFailed { reason } => failed(
            path,
            "failed to set read timeout: "@ + reason@,
        ),
        ProbeEvent::WriteTimeoutFailed { reason } => failed(
            path,
            "failed to set write timeout: "@ + reason@,
        ),
        ProbeEvent::Sent => ActionView::ReadLength,
        ProbeEvent::SendFailed { timed_out, reason } => late_or_failed(
            path,
            seconds,
            timed_out,
            "failed to send request to agent: "@,
            reason@,
        ),
        ProbeEvent::Length { bytes } => if big_endian(bytes@, 0) < 5 {
            failed(path, "invalid response length from agent"@)
        } else {
            ActionView::ReadHeader
        },
        ProbeEvent::LengthFailed { timed_out, reason } => late_or_failed(
            path,
            seconds,
            timed_out,
            "failed to read response length from agent: "@,
            reason@,
        ),
        ProbeEvent::Header { bytes } => if bytes@[0] != 12 {
            failed(path, "unexpected agent response type: "@ + text::decimal(bytes@[0] as nat))
        } else {
            ActionView::Stop {
                status: AgentView::Available { identities_count: big_endian(bytes@, 1) as usize },
            }
        },
        ProbeEvent::HeaderFailed { timed_out, reason } => late_or_failed(
            path,
            seconds,
            timed_out,
            "failed to read response header from agent: "@,
            reason@,
        ),
    }
}

/// An event brings as many bytes as were to be read.
pub open spec fn complete(event: ProbeEvent) -> bool {
    match event {
        ProbeEvent::Length { bytes } => bytes@.len() == 4,
        ProbeEvent::Header { bytes } => bytes@.len() == 5,
        _ => true,
    }
}

fn connection_failed(path: &str, what: &str, reason: &str) -> (r: ProbeAction)
    ensures
        r.deep_view() == failed(path@, what@ + reason@),
{
    let mut text = what.to_owned();
    text.append(reason);
    ProbeAction::Stop {
        status: SshAgentStatus::ConnectionFailed { path: path.to_owned(), reason: text },
    }
}

fn late_or_broken(path: &str, seconds: &str, timed_out: bool, what: &str, reason: &str) -> (r:
    ProbeAction)
    ensures
        r.deep_view() == late_or_failed(path@, seconds@, timed_out, what@, reason@),
{
    if timed_out {
        ProbeAction::Stop {
            status: SshAgentStatus::TimedOut {
                path: path.to_owned(),
                seconds: seconds.to_owned(),
            },
        }
    } else {
        connection_failed(path, what, reason)
    }
}

fn read_big_endian(bytes: &Vec<u8>, from: usize) -> (r: u32)
    requires
        from + 4 <= bytes@.len(),
    ensures
        r == big_endian(bytes@, from as int),
{
    assert(bytes@.len() == bytes.len());
    bytes[from] as u32 * 0x100_0000 + bytes[from + 1] as u32 * 0x1_0000 + bytes[from + 2] as u32
        * 0x100 + bytes[from + 3] as u32
}

/// Decides the next step of asking the agent at `path` for its keys. `seconds`
/// is how long it may take.
pub fn probe_step(event: ProbeEvent, path: &str, seconds: &str) -> (r: ProbeAction)
    requires
        complete(event),
    ensures
        r.deep_view() == next_step(event, path@, seconds@),
{
    match event {
        ProbeEvent::Connected => ProbeAction::SetTimeouts,
        ProbeEvent::ConnectFailed { reason } => ProbeAction::Stop {
            status: SshAgentStatus::ConnectionFailed { path: path.to_owned(), reason },
        },
        ProbeEvent::TimeoutsSet => {
            let mut bytes: Vec<u8> = Vec::new();
            bytes.push(0);
            bytes.push(0);
            bytes.push(0);
            bytes.push(1);
            bytes.push(11);
            assert(bytes@ =~= seq![0u8, 0, 0, 1, 11]);
            ProbeAction::Send { bytes }
        },
        ProbeEvent::ReadTimeoutFailed { reason } => connection_failed(
            path,
            "failed to set read timeout: ",
            reason.as_str(),
        ),
        ProbeEvent::WriteTimeoutFailed { reason } => connection_failed(
            path,
            "failed to set write timeout: ",
            reason.as_str(),
        ),
        ProbeEvent::Sent => ProbeAction::ReadLength,
        ProbeEvent::SendFailed { timed_out, reason } => late_or_broken(
            path,
            seconds,
            timed_out,
            "failed to send request to agent: ",
            reason.as_str(),
        ),
        ProbeEvent::Length { bytes } => if read_big_endian(&bytes, 0) < 5 {
            ProbeAction::Stop {
                status: SshAgentStatus::ConnectionFailed {
                    path: path.to_owned(),
                    reason: "invalid response length from agent".to_owned(),
                },
            }
        } else {
            ProbeAction::ReadHeader
        },
        ProbeEvent::LengthFailed { timed_out, reason } => late_or_broken(
            path,
            seconds,
            timed_out,
            "failed to read response length from agent: ",
            reason.as_str(),
        ),
        ProbeEvent::Header { bytes } => if bytes[0] != 12 {
            let mut reason = "unexpected agent response type: ".to_owned();
            push_decimal(&mut reason, bytes[0] as u64);
            ProbeAction::Stop {
                status: SshAgentStatus::ConnectionFailed { path: path.to_owned(), reason },
            }
        } else {
            ProbeAction::Stop {
                status: SshAgentStatus::Available {
                    identities_count: read_big_endian(&bytes, 1) as usize,
                },
            }
        },
        ProbeEvent::HeaderFailed { timed_out, reason } => late_or_broken(
            path,
            seconds,
            timed_out,
            "failed to read response header from agent: ",
            reason.as_str(),
        ),
    }
}

/// Where the agent listens, from the value of `$SSH_AUTH_SOCK`.
pub fn agent_socket(value: Option<String>) -> (r: Option<String>)
    ensures
        r.deep_view() == (match value {
            Some(path) => if path@.len() > 0 {
                Some(path@)
            } else {
                None
            },
            None => None,
        }),
{
    match value {
        Some(path) => if path.as_str().is_empty() {
            None
        } else {
            Some(path)
        },
        None => None,
    }
}

/// A URL that is dialled over SSH.
pub open spec fn over_ssh(raw: Seq<char>) -> bool {
    let url = text::trim(raw);
    text::starts_with(url, "git@"@) || text::starts_with(url, "ssh://"@) || (markers::holds(
        url,
        ":"@,
    ) && !text::starts_with(url, "http://"@) && !text::starts_with(url, "https://"@)
        && !text::starts_with(url, "git://"@) && !text::starts_with(url, "file://"@)
        && !text::starts_with(url, "/"@))
}

fn begins(s: &str, prefix: &str) -> (r: bool)
    ensures
        r == text::starts_with(s@, prefix@),
{
    strip_prefix(s, prefix).is_some()
}

/// Whether a URL uses SSH transport.
pub fn is_ssh_url(url: &str) -> (r: bool)
    ensures
        r == over_ssh(url@),
{
    let url = trim_text(url);
    let url = url.as_str();
    begins(url, "git@") || begins(url, "ssh://") || (contains(url, ":") && !begins(url, "http://")
        && !begins(url, "https://") && !begins(url, "git://") && !begins(url, "file://")
        && !begins(url, "/"))
}

/// Where the last dot of the first `n` characters stands.
pub open spec fn last_dot(s: Seq<char>, n: int) -> Option<int>
    decreases n,
{
    if n <= 0 {
        None
    } else if s[n - 1] == '.' {
        Some(n - 1)
    } else {
        last_dot(s, n - 1)
    }
}

/// A setting that rewrites URLs: what is put in place of a prefix, and how the
/// setting is called.
pub open spec fn rewrite_named(name: Seq<char>) -> Option<(Seq<char>, Seq<char>)> {
    match config::after_prefix(name, "url."@) {
        None => None,
        Some(tail) => match last_dot(tail, tail.len() as int) {
            Some(k) => Some((tail.take(k), tail.skip(k + 1))),
            None => None,
        },
    }
}

/// A setting that rewrites what is pushed to.
pub open spec fn rewrites_pushes(kind: Seq<char>) -> bool {
    text::same_ignoring_case(kind, "pushinsteadof"@)
}

/// A setting that applies in a direction.
pub open spec fn applies(kind: Seq<char>, is_push: bool) -> bool {
    text::same_ignoring_case(kind, "insteadof"@) || (is_push && rewrites_pushes(kind))
}

/// The best prefix among the first `n` settings, and what is put in its place:
/// the longest one, and among equally long ones the last that is for pushes
/// only, or else the first.
pub open spec fn best_rewrite(
    entries: Seq<(Seq<char>, Seq<char>)>,
    url: Seq<char>,
    is_push: bool,
    n: int,
) -> (Seq<char>, Seq<char>)
    decreases n,
{
    if n <= 0 {
        (Seq::empty(), Seq::empty())
    } else {
        let best = best_rewrite(entries, url, is_push, n - 1);
        let value = entries[n - 1].1;
        match rewrite_named(entries[n - 1].0) {
            None => best,
            Some((base, kind)) => if applies(kind, is_push) && text::starts_with(url, value) && (
            value.len() > best.0.len() || (value.len() == best.0.len() && rewrites_pushes(kind))) {
                (value, base)
            } else {
                best
            },
        }
    }
}

/// The URL that is dialled.
pub open spec fn effective_url(
    entries: Seq<(Seq<char>, Seq<char>)>,
    url: Seq<char>,
    is_push: bool,
) -> Seq<char> {
    let best = best_rewrite(entries, url, is_push, entries.len() as int);
    if best.0.len() > 0 {
        best.1 + url.skip(best.0.len() as int)
    } else {
        url
    }
}

fn read_rewrite(name: &str) -> (r: Option<(String, String)>)
    ensures
        match r {
            Some(p) => rewrite_named(name@) == Some((p.0@, p.1@)),
            None => rewrite_named(name@) is None,
        },
{
    match strip_prefix(name, "url.") {
        None => None,
        Some(tail) => {
            let chars = chars_of(tail.as_str());
            let mut n: usize = chars.len();
            while n > 0
                invariant
                    n <= chars@.len(),
                    chars@ == tail@,
                    config::after_prefix(name@, "url."@) == Some(tail@),
                    last_dot(chars@, n as int) == last_dot(chars@, chars@.len() as int),
                decreases n,
            {
                if chars[n - 1] == '.' {
                    let base = text_between(&chars, 0, n - 1);
                    let kind = text_between(&chars, n, chars.len());
                    assert(base@ =~= tail@.take(n - 1));
                    assert(kind@ =~= tail@.skip(n as int));
                    return Some((base, kind));
                }
                n = n - 1;
            }
            None
        },
    }
}

/// Determines the URL that git will dial, applying the `insteadOf` and
/// `pushInsteadOf` settings, each given by its name and its value.
pub fn resolve_effective_url(entries: &Vec<(String, String)>, url: &str, is_push: bool) -> (r:
    String)
    ensures
        r@ == effective_url(entries.deep_view(), url@, is_push),
{
    let target = chars_of(url);
    let mut prefix: Vec<char> = Vec::new();
    let mut replacement = String::new();
    assert(prefix@ =~= Seq::<char>::empty());
    assert(replacement@ =~= Seq::<char>::empty());
    let mut i: usize = 0;
    while i < entries.len()
        invariant
            i <= entries@.len(),
            target@ == url@,
            (prefix@, replacement@) == best_rewrite(
                entries.deep_view(),
                url@,
                is_push,
                i as int,
            ),
            prefix@.len() <= target@.len(),
        decreases entries@.len() - i,
    {
        assert(entries.deep_view()[i as int] == entries@[i as int].deep_view());
        match read_rewrite(entries[i].0.as_str()) {
            None => {},
            Some((base, kind)) => {
                let value = chars_of(entries[i].1.as_str());
                let push_only = same_text_ignoring_case(kind.as_str(), "pushinsteadof");
                let usable = same_text_ignoring_case(kind.as_str(), "insteadof") || (is_push
                    && push_only);
                proof {
                    if value@.len() <= target@.len() {
                        assert(target@.take(value@.len() as int) =~= target@.subrange(
                            0,
                            value@.len() as int,
                        ));
                    }
                }
                if usable && stands_at(&target, &value, 0) && (value.len() > prefix.len() || (
                value.len() == prefix.len() && push_only)) {
                    prefix = value;
                    replacement = base;
                }
            },
        }
        i = i + 1;
    }
    assert(entries.deep_view().len() == entries@.len());
    if prefix.len() > 0 {
        let rest = text_between(&target, prefix.len(), target.len());
        assert(rest@ =~= url@.skip(prefix@.len() as int));
        replacement.append(rest.as_str());
        replacement
    } else {
        url.to_owned()
    }
}

proof fn lemma_best_rewrite(
    entries: Seq<(Seq<char>, Seq<char>)>,
    url: Seq<char>,
    is_push: bool,
    n: int,
    k: int,
)
    requires
        0 <= k < n <= entries.len(),
        rewrite_named(entries[k].0) is Some,
        applies((rewrite_named(entries[k].0)->0).1, is_push),
        text::starts_with(url, entries[k].1),
    ensures
        best_rewrite(entries, url, is_push, n).0.len() >= entries[k].1.len(),
    decreases n,
{
    if k < n - 1 {
        lemma_best_rewrite(entries, url, is_push, n - 1, k);
    }
}

proof fn lemma_best_applies(
    entries: Seq<(Seq<char>, Seq<char>)>,
    url: Seq<char>,
    is_push: bool,
    n: int,
)
    requires
        0 <= n <= entries.len(),
    ensures
        text::starts_with(url, best_rewrite(entries, url, is_push, n).0),
    decreases n,
{
    if n > 0 {
        lemma_best_applies(entries, url, is_push, n - 1);
    } else {
        assert(url.take(0) =~= Seq::<char>::empty());
    }
}

/// The prefix that is replaced is one of the URL, and no setting that applies
/// has a longer one.
pub proof fn law_longest_prefix_wins(
    entries: Seq<(Seq<char>, Seq<char>)>,
    url: Seq<char>,
    is_push: bool,
)
    ensures
        text::starts_with(
            url,
            best_rewrite(entries, url, is_push, entries.len() as int).0,
        ),
        forall|k: int|
            0 <= k < entries.len() && rewrite_named((#[trigger] entries[k]).0) is Some && applies(
                (rewrite_named(entries[k].0)->0).1,
                is_push,
            ) && text::starts_with(url, entries[k].1) ==> entries[k].1.len() <= best_rewrite(
                entries,
                url,
                is_push,
                entries.len() as int,
            ).0.len(),
{
    lemma_best_applies(entries, url, is_push, entries.len() as int);
    assert forall|k: int|
        0 <= k < entries.len() && rewrite_named((#[trigger] entries[k]).0) is Some && applies(
            (rewrite_named(entries[k].0)->0).1,
            is_push,
        ) && text::starts_with(url, entries[k].1) implies entries[k].1.len() <= best_rewrite(
        entries,
        url,
        is_push,
        entries.len() as int,
    ).0.len() by {
        lemma_best_rewrite(entries, url, is_push, entries.len() as int, k);
    }
}

/// What a failed authentication over SSH comes from, and what to do about it.
pub open spec fn auth_error(effective: Seq<char>, original: Seq<char>, status: AgentView) -> Seq<
    char,
> {
    let note = if effective != original {
        " (rewritten from '"@ + original + "' via git config)"@
    } else {
        Seq::empty()
    };
    let start = "SSH authentication failed connecting to "@ + effective + note;
    match status {
        AgentView::TimedOut { path, seconds } => start + ": the SSH agent at '"@ + path
            + "' timed out after "@ + seconds
            + "s. Make sure your SSH agent is responsive, or restart it with `eval $(ssh-agent)`."@,
        AgentView::ConnectionFailed { path, reason } => start
            + ": could not connect to SSH agent at '"@ + path + "' ("@ + reason
            + "). Ensure your SSH agent is running (e.g. `eval $(ssh-agent)` and `ssh-add`), or test your key with `ssh -T git@github.com`."@,
        AgentView::NotConfigured => start
            + ": $SSH_AUTH_SOCK is not set and no usable SSH keys were found in ~/.ssh. Start an SSH agent with `eval $(ssh-agent) && ssh-add`, or test with `ssh -T git@github.com`."@,
        AgentView::Available { identities_count } => if identities_count == 0 {
            start
                + ": the SSH agent is running but has no keys loaded. Add a key using `ssh-add <path-to-key>` (check with `ssh-add -l`), or test with `ssh -T git@github.com`."@
        } else {
            start + ": the SSH agent has "@ + text::decimal(identities_count as nat)
                + " key(s) loaded, but GitHub rejected authentication. Verify your SSH key is added to your GitHub account (test with `ssh -T git@github.com`)."@
        },
    }
}

/// Produces an actionable message that diagnoses a failed authentication over
/// SSH.
pub fn format_ssh_auth_error(effective_url: &str, original_url: &str, ssh_status: &SshAgentStatus) -> (r:
    String)
    ensures
        r@ == auth_error(effective_url@, original_url@, ssh_status.deep_view()),
{
    let mut out = "SSH authentication failed connecting to ".to_owned();
    out.append(effective_url);
    let mut note = String::new();
    assert(note@ =~= Seq::<char>::empty());
    if !same(effective_url, original_url) {
        note = " (rewritten from '".to_owned();
        note.append(original_url);
        note.append("' via git config)");
    }
    out.append(note.as_str());
    match ssh_status {
        SshAgentStatus::TimedOut { path, seconds } => {
            out.append(": the SSH agent at '");
            out.append(path.as_str());
            out.append("' timed out after ");
            out.append(seconds.as_str());
            out.append(
                "s. Make sure your SSH agent is responsive, or restart it with `eval $(ssh-agent)`.",
            );
        },
        SshAgentStatus::ConnectionFailed { path, reason } => {
            out.append(": could not connect to SSH agent at '");
            out.append(path.as_str());
            out.append("' (");
            out.append(reason.as_str());
            out.append(
                "). Ensure your SSH agent is running (e.g. `eval $(ssh-agent)` and `ssh-add`), or test your key with `ssh -T git@github.com`.",
            );
        },
        SshAgentStatus::NotConfigured => {
            out.append(
                ": $SSH_AUTH_SOCK is not set and no usable SSH keys were found in ~/.ssh. Start an SSH agent with `eval $(ssh-agent) && ssh-add`, or test with `ssh -T git@github.com`.",
            );
        },
        SshAgentStatus::Available { identities_count } => {
            if *identities_count == 0 {
                out.append(
                    ": the SSH agent is running but has no keys loaded. Add a key using `ssh-add <path-to-key>` (check with `ssh-add -l`), or test with `ssh -T git@github.com`.",
                );
            } else {
                out.append(": the SSH agent has ");
                push_decimal(&mut out, *identities_count as u64);
                out.append(
                    " key(s) loaded, but GitHub rejected authentication. Verify your SSH key is added to your GitHub account (test with `ssh -T git@github.com`).",
                );
            }
        },
    }
    out
}

} // verus!
