//! Repository and user configuration.

use vstd::prelude::*;

use crate::forge;
use crate::reference;
use crate::text;
use crate::utils;
use crate::forge::RepoMergeSettings;
use crate::text::{
    chars_of, find_char, lower_char, push_decimal, same, stands_at, text_between, trim_text,
};
use crate::utils::slugify;

verus! {

/// Whether every update of a pull request is a commit of its own on its branch,
/// or the branch is rewritten as a single commit.
#[derive(Debug, Clone, Copy, PartialEq, Eq, Structural)]
pub enum PreserveCommitHistory {
    /// Incremental commits where the repository squashes pull requests under
    /// their title and description only, a single commit otherwise.
    Auto,
    /// Always incremental commits.
    True,
    /// Always a single commit.
    False,
}

impl Default for PreserveCommitHistory {
    fn default() -> (r: Self)
        ensures
            r == PreserveCommitHistory::Auto,
    {
        PreserveCommitHistory::Auto
    }
}

/// A text in lower case.
pub open spec fn lowered(s: Seq<char>) -> Seq<char> {
    s.map_values(|c: char| text::lower(c))
}

/// The setting that a text means, if it means one.
pub open spec fn preserve_meant(raw: Seq<char>) -> Option<PreserveCommitHistory> {
    let s = lowered(text::trim(raw));
    if s == "auto"@ {
        Some(PreserveCommitHistory::Auto)
    } else if s == "true"@ || s == "yes"@ || s == "1"@ || s == "on"@ {
        Some(PreserveCommitHistory::True)
    } else if s == "false"@ || s == "no"@ || s == "0"@ || s == "off"@ {
        Some(PreserveCommitHistory::False)
    } else {
        None
    }
}

fn lower_text(s: &str) -> (r: String)
    ensures
        r@ == lowered(s@),
{
    let chars = chars_of(s);
    let mut r: String = String::new();
    let mut i: usize = 0;
    assert(r@ =~= lowered(chars@.take(0)));
    while i < chars.len()
        invariant
            i <= chars@.len(),
            r@ == lowered(chars@.take(i as int)),
        decreases chars@.len() - i,
    {
        r.push(lower_char(chars[i]));
        assert(r@ =~= lowered(chars@.take(i + 1)));
        i = i + 1;
    }
    assert(chars@.take(i as int) =~= chars@);
    r
}

/// The setting applied to a repository.
pub open spec fn preserve_resolved(p: PreserveCommitHistory, s: RepoMergeSettings) -> bool {
    match p {
        PreserveCommitHistory::Auto => forge::squash_only(s),
        PreserveCommitHistory::True => true,
        PreserveCommitHistory::False => false,
    }
}

impl PreserveCommitHistory {
    pub fn parse(raw: &str) -> (r: Result<Self, String>)
        ensures
            match r {
                Ok(p) => preserve_meant(raw@) == Some(p),
                Err(reason) => preserve_meant(raw@) is None && reason@ == "invalid value `"@
                    + lowered(text::trim(raw@))
                    + "` for `nspr.preserveCommitHistory`: expected `auto`, `true`, or `false`"@,
            },
    {
        let s = lower_text(trim_text(raw).as_str());
        let v = s.as_str();
        if same(v, "auto") {
            Ok(PreserveCommitHistory::Auto)
        } else if same(v, "true") || same(v, "yes") || same(v, "1") || same(v, "on") {
            Ok(PreserveCommitHistory::True)
        } else if same(v, "false") || same(v, "no") || same(v, "0") || same(v, "off") {
            Ok(PreserveCommitHistory::False)
        } else {
            let mut reason = "invalid value `".to_owned();
            reason.append(v);
            reason.append(
                "` for `nspr.preserveCommitHistory`: expected `auto`, `true`, or `false`",
            );
            Err(reason)
        }
    }

    pub fn resolve(self, merge_settings: RepoMergeSettings) -> (r: bool)
        ensures
            r == preserve_resolved(self, merge_settings),
    {
        match self {
            PreserveCommitHistory::Auto => merge_settings.is_squash_only(),
            PreserveCommitHistory::True => true,
            PreserveCommitHistory::False => false,
        }
    }
}

#[derive(Debug, Clone)]
pub struct Config {
    pub owner: String,
    pub repo: String,
    /// Trunk branch name, e.g. `main`.
    pub trunk: String,
    /// The login of the user on the forge.
    pub login: String,
    /// Prefix for generated branch names. Defaults to `users/<login>/`.
    pub branch_prefix: String,
    /// Emit `.git/gh-stack` metadata for the forge's own stack tooling.
    pub emit_gh_stack_metadata: bool,
    /// Post a stack-table comment on each pull request.
    pub stack_comments: bool,
    /// `nspr.preserveCommitHistory` (`auto`, `true`, `false`).
    pub preserve_commit_history: PreserveCommitHistory,
    /// Turn a pull request into a draft while its base branch changes.
    pub draft_while_retargeting: bool,
}

#[verifier::ext_equal]
pub struct ConfigView {
    pub owner: Seq<char>,
    pub repo: Seq<char>,
    pub trunk: Seq<char>,
    pub login: Seq<char>,
    pub branch_prefix: Seq<char>,
    pub emit_gh_stack_metadata: bool,
    pub stack_comments: bool,
    pub preserve_commit_history: PreserveCommitHistory,
    pub draft_while_retargeting: bool,
}

impl View for Config {
    type V = ConfigView;

    open spec fn view(&self) -> ConfigView {
        ConfigView {
            owner: self.owner@,
            repo: self.repo@,
            trunk: self.trunk@,
            login: self.login@,
            branch_prefix: self.branch_prefix@,
            emit_gh_stack_metadata: self.emit_gh_stack_metadata,
            stack_comments: self.stack_comments,
            preserve_commit_history: self.preserve_commit_history,
            draft_while_retargeting: self.draft_while_retargeting,
        }
    }
}

/// The configuration of a repository with nothing set.
pub open spec fn default_config(
    owner: Seq<char>,
    repo: Seq<char>,
    trunk: Seq<char>,
    login: Seq<char>,
) -> ConfigView {
    ConfigView {
        owner,
        repo,
        trunk,
        login,
        branch_prefix: "users/"@ + login + "/"@,
        emit_gh_stack_metadata: true,
        stack_comments: true,
        preserve_commit_history: PreserveCommitHistory::Auto,
        draft_while_retargeting: false,
    }
}

/// The web page of a pull request.
pub open spec fn pr_url(c: ConfigView, number: u64) -> Seq<char> {
    "https://github.com/"@ + c.owner + "/"@ + c.repo + "/pull/"@ + text::decimal(
        number as nat,
    )
}

/// The branch name that a layer with the given subject would like to have.
pub open spec fn preferred_branch(c: ConfigView, subject: Seq<char>) -> Seq<char> {
    c.branch_prefix + utils::slug_of(utils::nfkd(subject))
}

impl Config {
    pub fn new(owner: String, repo: String, trunk: String, login: String) -> (r: Self)
        ensures
            r@ == default_config(owner@, repo@, trunk@, login@),
    {
        let mut branch_prefix = "users/".to_owned();
        branch_prefix.append(login.as_str());
        branch_prefix.append("/");
        Config {
            owner,
            repo,
            trunk,
            login,
            branch_prefix,
            emit_gh_stack_metadata: true,
            stack_comments: true,
            preserve_commit_history: PreserveCommitHistory::Auto,
            draft_while_retargeting: false,
        }
    }

    pub fn pull_request_url(&self, number: u64) -> (r: String)
        ensures
            r@ == pr_url(self@, number),
    {
        let mut url = "https://github.com/".to_owned();
        url.append(self.owner.as_str());
        url.append("/");
        url.append(self.repo.as_str());
        url.append("/pull/");
        push_decimal(&mut url, number);
        url
    }

    /// Preferred branch name for a layer with the given subject.
    pub fn branch_name_for(&self, subject: &str) -> (r: String)
        ensures
            r@ == preferred_branch(self@, subject@),
    {
        let mut name = self.branch_prefix.clone();
        name.append(slugify(subject).as_str());
        name
    }
}

/// The text without any of the given suffix at its end, taken off as often as
/// it is there.
pub open spec fn strip_suffixes(s: Seq<char>, suffix: Seq<char>) -> Seq<char>
    decreases s.len(),
{
    if suffix.len() > 0 && text::ends_with(s, suffix) {
        strip_suffixes(s.take(s.len() - suffix.len()), suffix)
    } else {
        s
    }
}

/// The owner and the repository that a slug names, if it names them.
pub open spec fn slug_meant(slug: Seq<char>) -> Option<(Seq<char>, Seq<char>)> {
    match text::find_char_from(slug, '/', 0) {
        Some(i) => Some((slug.take(i), strip_suffixes(slug.skip(i + 1), ".git"@))),
        None => None,
    }
}

/// Splits an `owner/repo` string.
pub fn parse_repo_slug(slug: &str) -> (r: Result<(String, String), String>)
    ensures
        match r {
            Ok(pair) => slug_meant(slug@) == Some((pair.0@, pair.1@)),
            Err(reason) => slug_meant(slug@) is None && reason@ == "expected `owner/repo`, got `"@
                + slug@ + "`"@,
        },
{
    let chars = chars_of(slug);
    match find_char(&chars, '/') {
        Some(i) => {
            proof {
                text::lemma_find_char(slug@, '/', 0);
            }
            let owner = text_between(&chars, 0, i);
            assert(owner@ =~= slug@.take(i as int));
            let suffix = chars_of(".git");
            proof {
                reveal_strlit(".git");
            }
            let start: usize = i + 1;
            let mut end: usize = chars.len();
            let ghost rest = slug@.skip(i + 1);
            assert(chars@.subrange(start as int, end as int) =~= rest);
            while end - start >= suffix.len() && stands_at(&chars, &suffix, end - suffix.len())
                invariant
                    start <= end <= chars@.len(),
                    suffix@ == ".git"@,
                    suffix@.len() == 4,
                    strip_suffixes(chars@.subrange(start as int, end as int), ".git"@)
                        == strip_suffixes(rest, ".git"@),
                decreases end,
            {
                proof {
                    let whole = chars@.subrange(start as int, end as int);
                    assert(whole.skip(whole.len() - 4) =~= chars@.subrange(end - 4, end as int));
                    assert(whole.take(whole.len() - 4) =~= chars@.subrange(start as int, end - 4));
                }
                end = end - suffix.len();
            }
            proof {
                let whole = chars@.subrange(start as int, end as int);
                if end - start >= 4 {
                    assert(whole.skip(whole.len() - 4) =~= chars@.subrange(end - 4, end as int));
                }
            }
            Ok((owner, text_between(&chars, start, end)))
        },
        None => {
            let mut reason = "expected `owner/repo`, got `".to_owned();
            reason.append(slug);
            reason.append("`");
            Err(reason)
        },
    }
}

/// What stands after the prefix, if the text starts with it.
pub open spec fn after_prefix(s: Seq<char>, prefix: Seq<char>) -> Option<Seq<char>> {
    if text::starts_with(s, prefix) {
        Some(s.skip(prefix.len() as int))
    } else {
        None
    }
}

/// What stands after the prefix, if the text starts with it.
pub fn strip_prefix(s: &str, prefix: &str) -> (r: Option<String>)
    ensures
        r.deep_view() == after_prefix(s@, prefix@),
{
    let chars = chars_of(s);
    let start = chars_of(prefix);
    if stands_at(&chars, &start, 0) {
        assert(s@.take(prefix@.len() as int) =~= s@.subrange(0, prefix@.len() as int));
        let rest = text_between(&chars, start.len(), chars.len());
        assert(rest@ =~= s@.skip(prefix@.len() as int));
        Some(rest)
    } else {
        proof {
            if text::starts_with(s@, prefix@) {
                assert(s@.take(prefix@.len() as int) =~= s@.subrange(0, prefix@.len() as int));
            }
        }
        None
    }
}

/// The part of a remote URL that names the repository, where the URL is one of
/// the four shapes that GitHub hands out.
pub open spec fn remote_slug(url: Seq<char>) -> Option<Seq<char>> {
    if text::starts_with(url, "git@github.com:"@) {
        after_prefix(url, "git@github.com:"@)
    } else if text::starts_with(url, "ssh://git@github.com/"@) {
        after_prefix(url, "ssh://git@github.com/"@)
    } else if text::starts_with(url, "https://github.com/"@) {
        after_prefix(url, "https://github.com/"@)
    } else {
        after_prefix(url, "git://github.com/"@)
    }
}

/// The owner and the repository that a remote URL names.
pub open spec fn remote_meant(raw: Seq<char>) -> Result<(Seq<char>, Seq<char>), Seq<char>> {
    let url = text::trim(raw);
    match remote_slug(url) {
        Some(rest) => {
            let slug = text::strip_trailing(rest, '/');
            match slug_meant(slug) {
                Some(pair) => Ok(pair),
                None => Err("expected `owner/repo`, got `"@ + slug + "`"@),
            }
        },
        None => Err(
            "`"@ + url
                + "` does not look like a GitHub remote. Set `nspr.repository` to `owner/repo` if you are using a GitHub Enterprise host."@,
        ),
    }
}

fn strip_slashes(s: &str) -> (r: String)
    ensures
        r@ == text::strip_trailing(s@, '/'),
{
    let chars = chars_of(s);
    let mut b: usize = chars.len();
    assert(chars@.take(b as int) =~= chars@);
    while 0 < b && chars[b - 1] == '/'
        invariant
            b <= chars@.len(),
            text::strip_trailing(chars@.take(b as int), '/') == text::strip_trailing(
                chars@,
                '/',
            ),
        decreases b,
    {
        assert(chars@.take(b as int).drop_last() =~= chars@.take(b - 1));
        b = b - 1;
    }
    proof {
        if 0 < b {
            assert(chars@.take(b as int).last() == chars@[b - 1]);
        }
        assert(chars@.subrange(0, b as int) =~= chars@.take(b as int));
    }
    text_between(&chars, 0, b)
}

/// Pulls `owner/repo` out of a git remote URL.
///
/// GitHub hands out four shapes of URL and people paste all of them, so this
/// accepts the lot rather than making the user configure the slug by hand.
pub fn parse_remote_url(url: &str) -> (r: Result<(String, String), String>)
    ensures
        match r {
            Ok(pair) => remote_meant(url@) == Ok::<(Seq<char>, Seq<char>), Seq<char>>(
                (pair.0@, pair.1@),
            ),
            Err(reason) => remote_meant(url@) == Err::<(Seq<char>, Seq<char>), Seq<char>>(reason@),
        },
{
    let trimmed = trim_text(url);
    let u = trimmed.as_str();
    let rest = match strip_prefix(u, "git@github.com:") {
        Some(rest) => Some(rest),
        None => match strip_prefix(u, "ssh://git@github.com/") {
            Some(rest) => Some(rest),
            None => match strip_prefix(u, "https://github.com/") {
                Some(rest) => Some(rest),
                None => strip_prefix(u, "git://github.com/"),
            },
        },
    };
    match rest {
        Some(rest) => parse_repo_slug(strip_slashes(rest.as_str()).as_str()),
        None => {
            let mut reason = "`".to_owned();
            reason.append(u);
            reason.append(
                "` does not look like a GitHub remote. Set `nspr.repository` to `owner/repo` if you are using a GitHub Enterprise host.",
            );
            Err(reason)
        },
    }
}

/// The settings that git's configuration holds for the tool, as far as they are
/// there.
pub struct Settings {
    /// `nspr.repository`
    pub repository: Option<String>,
    /// `remote.<remote>.url`
    pub remote_url: Option<String>,
    /// `nspr.trunk`
    pub trunk: Option<String>,
    /// What `refs/remotes/<remote>/HEAD` points at.
    pub remote_head: Option<String>,
    /// `nspr.branchPrefix`
    pub branch_prefix: Option<String>,
    /// `nspr.emitGhStackMetadata`
    pub emit_gh_stack_metadata: Option<bool>,
    /// `nspr.stackComments`
    pub stack_comments: Option<bool>,
    /// `nspr.preserveCommitHistory`
    pub preserve_commit_history: Option<String>,
    /// `nspr.draftWhileRetargeting`
    pub draft_while_retargeting: Option<bool>,
}

/// A setting that is there and not empty.
pub open spec fn given(s: Option<Seq<char>>) -> Option<Seq<char>> {
    match s {
        Some(v) => if v.len() > 0 {
            Some(v)
        } else {
            None
        },
        None => None,
    }
}

fn given_text(s: &Option<String>) -> (r: Option<String>)
    ensures
        r.deep_view() == given(s.deep_view()),
{
    match s {
        Some(v) => if v.as_str().is_empty() {
            None
        } else {
            Some(v.clone())
        },
        None => None,
    }
}

/// The repository that the settings name: `nspr.repository`, or else the one
/// that the URL of the remote leads to.
pub open spec fn repo_detected(s: Settings, remote: Seq<char>) -> Result<
    (Seq<char>, Seq<char>),
    Seq<char>,
> {
    match given(s.repository.deep_view()) {
        Some(slug) => match slug_meant(slug) {
            Some(pair) => Ok(pair),
            None => Err("expected `owner/repo`, got `"@ + slug + "`"@),
        },
        None => match s.remote_url.deep_view() {
            Some(url) => remote_meant(url),
            None => Err(
                "no `"@ + remote
                    + "` remote. Add one, or set `nspr.repository` to `owner/repo`."@,
            ),
        },
    }
}

/// Which repository on the forge a checkout belongs to.
///
/// Separate from [`detect`] because the caller needs this *before* it can talk
/// to the forge, and it cannot learn its own login until it has.
pub fn detect_repo(settings: &Settings, remote: &str) -> (r: Result<(String, String), String>)
    ensures
        match r {
            Ok(pair) => repo_detected(*settings, remote@) == Ok::<
                (Seq<char>, Seq<char>),
                Seq<char>,
            >((pair.0@, pair.1@)),
            Err(reason) => repo_detected(*settings, remote@) == Err::<
                (Seq<char>, Seq<char>),
                Seq<char>,
            >(reason@),
        },
{
    match given_text(&settings.repository) {
        Some(slug) => parse_repo_slug(slug.as_str()),
        None => match &settings.remote_url {
            Some(url) => parse_remote_url(url.as_str()),
            None => {
                let mut reason = "no `".to_owned();
                reason.append(remote);
                reason.append("` remote. Add one, or set `nspr.repository` to `owner/repo`.");
                Err(reason)
            },
        },
    }
}

/// The trunk: what is set, else what the remote says its default branch is,
/// else `main`.
pub open spec fn trunk_detected(s: Settings, remote: Seq<char>) -> Seq<char> {
    match given(s.trunk.deep_view()) {
        Some(trunk) => trunk,
        None => match s.remote_head.deep_view() {
            Some(head) => match after_prefix(head, "refs/remotes/"@ + remote + "/"@) {
                Some(trunk) => trunk,
                None => "main"@,
            },
            None => "main"@,
        },
    }
}

/// The configuration that the settings come to.
pub open spec fn config_detected(s: Settings, login: Seq<char>, remote: Seq<char>) -> Result<
    ConfigView,
    Seq<char>,
> {
    match repo_detected(s, remote) {
        Err(reason) => Err(reason),
        Ok((owner, repo)) => {
            let plain = default_config(owner, repo, trunk_detected(s, remote), login);
            let raw = given(s.preserve_commit_history.deep_view());
            let preserve = match raw {
                Some(raw) => preserve_meant(raw),
                None => Some(PreserveCommitHistory::Auto),
            };
            match preserve {
                None => Err(
                    "invalid value `"@ + lowered(text::trim(raw->0))
                        + "` for `nspr.preserveCommitHistory`: expected `auto`, `true`, or `false`"@,
                ),
                Some(preserve) => Ok(
                    ConfigView {
                        branch_prefix: match given(s.branch_prefix.deep_view()) {
                            Some(prefix) => prefix,
                            None => plain.branch_prefix,
                        },
                        emit_gh_stack_metadata: match s.emit_gh_stack_metadata {
                            Some(v) => v,
                            None => true,
                        },
                        stack_comments: match s.stack_comments {
                            Some(v) => v,
                            None => true,
                        },
                        preserve_commit_history: preserve,
                        draft_while_retargeting: match s.draft_while_retargeting {
                            Some(v) => v,
                            None => false,
                        },
                        ..plain
                    },
                ),
            }
        },
    }
}

/// Works out the configuration from the settings, so the common case needs no
/// setup at all.
///
/// Every field can be overridden through git config; `login` cannot be
/// detected locally and must be supplied by the caller, which gets it from the
/// forge.
pub fn detect(settings: &Settings, login: String, remote: &str) -> (r: Result<Config, String>)
    ensures
        match r {
            Ok(c) => config_detected(*settings, login@, remote@) == Ok::<ConfigView, Seq<char>>(c@),
            Err(reason) => config_detected(*settings, login@, remote@) == Err::<
                ConfigView,
                Seq<char>,
            >(reason@),
        },
{
    let (owner, repo) = match detect_repo(settings, remote) {
        Ok(pair) => pair,
        Err(reason) => {
            return Err(reason);
        },
    };

    // What the remote says its default branch is comes before guessing `main`:
    // plenty of repositories are still on `master`, and some use neither.
    let trunk = match given_text(&settings.trunk) {
        Some(trunk) => trunk,
        None => match &settings.remote_head {
            Some(head) => {
                let mut prefix = "refs/remotes/".to_owned();
                prefix.append(remote);
                prefix.append("/");
                match strip_prefix(head.as_str(), prefix.as_str()) {
                    Some(trunk) => trunk,
                    None => "main".to_owned(),
                }
            },
            None => "main".to_owned(),
        },
    };

    let mut config = Config::new(owner, repo, trunk, login);
    match given_text(&settings.branch_prefix) {
        Some(prefix) => {
            config.branch_prefix = prefix;
        },
        None => {},
    }
    match settings.emit_gh_stack_metadata {
        Some(v) => {
            config.emit_gh_stack_metadata = v;
        },
        None => {},
    }
    match settings.stack_comments {
        Some(v) => {
            config.stack_comments = v;
        },
        None => {},
    }
    match settings.draft_while_retargeting {
        Some(v) => {
            config.draft_while_retargeting = v;
        },
        None => {},
    }
    match given_text(&settings.preserve_commit_history) {
        Some(raw) => match PreserveCommitHistory::parse(raw.as_str()) {
            Ok(preserve) => {
                config.preserve_commit_history = preserve;
            },
            Err(reason) => {
                return Err(reason);
            },
        },
        None => {},
    }
    Ok(config)
}

/// A text starts with each of its own beginnings, and with no text that differs
/// from it somewhere.
proof fn lemma_starts(prefix: Seq<char>, rest: Seq<char>)
    ensures
        text::starts_with(prefix + rest, prefix),
        (prefix + rest).skip(prefix.len() as int) == rest,
{
    assert((prefix + rest).take(prefix.len() as int) =~= prefix);
    assert((prefix + rest).skip(prefix.len() as int) =~= rest);
}

proof fn lemma_not_starts(s: Seq<char>, prefix: Seq<char>, k: int)
    requires
        0 <= k < prefix.len(),
        k < s.len(),
        s[k] != prefix[k],
    ensures
        !text::starts_with(s, prefix),
{
    if text::starts_with(s, prefix) {
        assert(s.take(prefix.len() as int)[k] == s[k]);
    }
}

/// A remote names its repository in the same way in whatever form its URL is
/// written, with or without `.git` behind it.
pub proof fn law_remote_forms_agree(
    prefix: Seq<char>,
    owner: Seq<char>,
    repo: Seq<char>,
    dotted: bool,
)
    requires
        prefix == "git@github.com:"@ || prefix == "ssh://git@github.com/"@ || prefix
            == "https://github.com/"@ || prefix == "git://github.com/"@,
        reference::is_name(owner),
        reference::is_name(repo),
        !text::ends_with(repo, ".git"@),
        !text::is_space(repo.last()),
    ensures
        remote_meant(
            prefix + (owner + "/"@ + repo + if dotted {
                ".git"@
            } else {
                ""@
            }),
        ) == Ok::<(Seq<char>, Seq<char>), Seq<char>>((owner, repo)),
{
    reveal_strlit("git@github.com:");
    reveal_strlit("ssh://git@github.com/");
    reveal_strlit("https://github.com/");
    reveal_strlit("git://github.com/");
    reveal_strlit("/");
    reveal_strlit(".git");
    reveal_strlit("");
    let end = if dotted {
        ".git"@
    } else {
        ""@
    };
    let rest = owner + "/"@ + repo + end;
    let url = prefix + rest;
    lemma_starts(prefix, rest);
    assert(url[0] == prefix[0] && url[3] == prefix[3]);
    assert(url.last() == rest.last());
    assert(rest.last() == if dotted {
        't'
    } else {
        repo.last()
    });
    assert(is_plain(repo.last()));
    text::lemma_trim_id(url);
    if prefix != "git@github.com:"@ {
        lemma_not_starts(url, "git@github.com:"@, if prefix[0] == 'g' {
            3
        } else {
            0
        });
    }
    if prefix != "ssh://git@github.com/"@ {
        lemma_not_starts(url, "ssh://git@github.com/"@, 0);
    }
    if prefix != "https://github.com/"@ {
        lemma_not_starts(url, "https://github.com/"@, 0);
    }
    assert(remote_slug(url) == Some(rest));
    assert(text::strip_trailing(rest, '/') == rest);
    text::lemma_find_char(rest, '/', 0);
    let at = owner.len() as int;
    assert(rest[at] == '/');
    let found = text::find_char_from(rest, '/', 0)->0;
    if found < at {
        assert(rest[found] == owner[found]);
        assert(is_plain(owner[found]));
    }
    assert(rest.take(at) =~= owner);
    assert(rest.skip(at + 1) =~= repo + end);
    if dotted {
        let named = repo + end;
        assert(named.skip(named.len() - 4) =~= ".git"@);
        assert(named.take(named.len() - 4) =~= repo);
        assert(text::ends_with(named, ".git"@));
        assert(strip_suffixes(named, ".git"@) == strip_suffixes(repo, ".git"@));
    } else {
        assert(repo + end =~= repo);
    }
}

/// A character of a name.
spec fn is_plain(c: char) -> bool {
    (reference::is_word(c) || c == '-' || c == '.') && c != '/'
}

} // verus!
