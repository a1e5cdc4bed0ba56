//! Finding a token for the forge.
//!
//! Four sources, first hit wins. The environment comes first so that one-off
//! overrides do not have to touch any configuration; `gh auth token` comes
//! before git config because almost everyone already has `gh` logged in.
//!
//! An empty value is treated as absent rather than as an answer: build machines
//! routinely export `GITHUB_TOKEN=` when no secret is available.

use vstd::prelude::*;

use crate::text;
use crate::text::trim_text;

verus! {

/// Checked before [`FALLBACK_ENV_VAR`] so that a token for this tool alone can
/// override whatever else the environment happens to be carrying.
pub const TOKEN_ENV_VAR: &'static str = "NSPR_GITHUB_TOKEN";

pub const FALLBACK_ENV_VAR: &'static str = "GITHUB_TOKEN";

pub const GIT_CONFIG_KEY: &'static str = "nspr.githubAuthToken";

/// What a source gives: its value without the space around it, if anything is
/// left.
pub open spec fn token_in(value: Option<String>) -> Option<Seq<char>> {
    match value {
        Some(raw) => if text::trim(raw@).len() > 0 {
            Some(text::trim(raw@))
        } else {
            None
        },
        None => None,
    }
}

/// Trailing newlines come with `gh auth token`, and a token with one attached
/// produces a header that the forge rejects as malformed.
pub fn clean(value: String) -> (r: Option<String>)
    ensures
        r.deep_view() == token_in(Some(value)),
{
    let token = trim_text(value.as_str());
    if token.as_str().is_empty() {
        None
    } else {
        Some(token)
    }
}

/// The environment answered for a variable.
pub open spec fn env_gave<E: Fn(&str) -> Option<String>>(env: E, name: Seq<char>, value: Option<String>) -> bool {
    exists|asked: &str| #[trigger] call_ensures(env, (asked,), value) && asked@ == name
}

/// The environment gave a value for a variable that holds no token.
pub open spec fn env_lacks<E: Fn(&str) -> Option<String>>(env: E, name: Seq<char>) -> bool {
    exists|value: Option<String>| #[trigger] env_gave(env, name, value) && token_in(value) is None
}

/// A source gave a value that holds no token.
pub open spec fn source_lacks<G: FnOnce() -> Option<String>>(source: G) -> bool {
    exists|value: Option<String>| #[trigger]
        call_ensures(source, (), value) && token_in(value) is None
}

/// The token is the one that the first source with any gave: the variable of
/// this tool, the general one, `gh`, and the git config.
pub open spec fn first_source<
    E: Fn(&str) -> Option<String>,
    G: FnOnce() -> Option<String>,
    C: FnOnce() -> Option<String>,
>(env: E, gh: G, git_config: C, token: Option<Seq<char>>) -> bool {
    ||| token is Some && exists|value: Option<String>| #[trigger]
        env_gave(env, TOKEN_ENV_VAR@, value) && token_in(value) == token
    ||| env_lacks(env, TOKEN_ENV_VAR@) && token is Some && exists|value: Option<String>| #[trigger]
        env_gave(env, FALLBACK_ENV_VAR@, value) && token_in(value) == token
    ||| env_lacks(env, TOKEN_ENV_VAR@) && env_lacks(env, FALLBACK_ENV_VAR@) && token is Some
        && exists|value: Option<String>| #[trigger]
        call_ensures(gh, (), value) && token_in(value) == token
    ||| env_lacks(env, TOKEN_ENV_VAR@) && env_lacks(env, FALLBACK_ENV_VAR@) && source_lacks(gh)
        && exists|value: Option<String>| #[trigger]
        call_ensures(git_config, (), value) && token_in(value) == token
}

fn cleaned(value: Option<String>) -> (r: Option<String>)
    ensures
        r.deep_view() == token_in(value),
{
    match value {
        Some(raw) => clean(raw),
        None => None,
    }
}

/// A variable may be asked for: the general one only where that of this tool holds no
/// token.
pub open spec fn may_ask<E: Fn(&str) -> Option<String>>(env: E, name: Seq<char>) -> bool {
    name == TOKEN_ENV_VAR@ || (name == FALLBACK_ENV_VAR@ && env_lacks(env, TOKEN_ENV_VAR@))
}

/// The source chain, with its inputs injected. A source is asked only where every
/// earlier one was absent or blank, so that it need not be ready for more.
pub fn first_token<
    E: Fn(&str) -> Option<String>,
    G: FnOnce() -> Option<String>,
    C: FnOnce() -> Option<String>,
>(env: E, gh: G, git_config: C) -> (r: Option<String>)
    requires
        forall|name: &str| may_ask(env, name@) ==> #[trigger] call_requires(env, (name,)),
        env_lacks(env, TOKEN_ENV_VAR@) && env_lacks(env, FALLBACK_ENV_VAR@) ==> call_requires(
            gh,
            (),
        ),
        env_lacks(env, TOKEN_ENV_VAR@) && env_lacks(env, FALLBACK_ENV_VAR@) && source_lacks(gh)
            ==> call_requires(git_config, ()),
    ensures
        first_source(env, gh, git_config, r.deep_view()),
{
    let value = env(TOKEN_ENV_VAR);
    assert(env_gave(env, TOKEN_ENV_VAR@, value));
    let token = cleaned(value);
    if token.is_some() {
        return token;
    }
    let value = env(FALLBACK_ENV_VAR);
    assert(env_gave(env, FALLBACK_ENV_VAR@, value));
    let token = cleaned(value);
    if token.is_some() {
        return token;
    }
    let token = cleaned(gh());
    if token.is_some() {
        return token;
    }
    cleaned(git_config())
}

/// What to do where no token is found.
pub const NO_TOKEN: &'static str =
    "no GitHub token found. Run `gh auth login`, or set $NSPR_GITHUB_TOKEN, or set `nspr.githubAuthToken` in your git config.";

} // verus!
