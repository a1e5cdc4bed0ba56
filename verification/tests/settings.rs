//! Names, references, configuration and descriptions.

use nspr::auth::{first_token, FALLBACK_ENV_VAR, TOKEN_ENV_VAR};
use nspr::config::{parse_remote_url, parse_repo_slug, Config};
use nspr::pr_body::{splice_warning, strip_warning, WARNING_BEGIN, WARNING_BLOCK, WARNING_END};
use nspr::reference::{parse_dep_spec, parse_pr_ref, DepSpec};
use nspr::utils::slugify;


#[test]
fn slugify_basics() {
    assert_eq!(slugify("Add the widget cache"), "add-the-widget-cache");
    assert_eq!(slugify("Fix   multiple   spaces"), "fix-multiple-spaces");
    assert_eq!(slugify("Punctuation!?"), "punctuation");
    assert_eq!(slugify("  leading and trailing  "), "leading-and-trailing");
}

#[test]
fn slugify_strips_accents() {
    assert_eq!(slugify("Café update"), "cafe-update");
}

#[test]
fn slugify_truncates_on_a_word_boundary() {
    let s = slugify(
        "This is an extremely long commit subject line that goes on and on \
         well past any reasonable branch name length",
    );
    assert!(s.len() <= 60);
    assert!(!s.ends_with('-'));
}

#[test]
fn slugify_handles_empty() {
    assert_eq!(slugify(""), "");
    assert_eq!(slugify("!!!"), "");
}


#[test]
fn branch_names_use_the_users_prefix() {
    let c = Config::new(
        "o".into(),
        "r".into(),
        "main".into(),
        "arichardson".into(),
    );
    assert_eq!(
        c.branch_name_for("Add the widget cache!"),
        "users/arichardson/add-the-widget-cache"
    );
}

#[test]
fn parses_every_shape_of_github_remote() {
    let expected = ("o".to_string(), "r".to_string());
    for url in [
        "git@github.com:o/r.git",
        "ssh://git@github.com/o/r.git",
        "https://github.com/o/r.git",
        "https://github.com/o/r",
        "git://github.com/o/r.git",
        "  https://github.com/o/r/  ",
    ] {
        assert_eq!(parse_remote_url(url).unwrap(), expected, "{url}");
    }

    // A non-GitHub host is not silently mangled into a wrong slug.
    assert!(parse_remote_url("git@gitlab.com:o/r.git").is_err());
}

#[test]
fn parses_repo_slugs() {
    assert_eq!(
        parse_repo_slug("o/r.git").unwrap(),
        ("o".to_string(), "r".to_string())
    );
    assert!(parse_repo_slug("nope").is_err());
}


#[test]
fn parse_dep_spec_forms() {
    assert_eq!(parse_dep_spec("main", "main").unwrap(), DepSpec::Main);
    assert_eq!(parse_dep_spec("MAIN", "main").unwrap(), DepSpec::Main);
    assert_eq!(parse_dep_spec("trunk", "trunk").unwrap(), DepSpec::Main);
    assert_eq!(parse_dep_spec("#101", "main").unwrap(), DepSpec::Pr(101));
    assert_eq!(parse_dep_spec("101", "main").unwrap(), DepSpec::Pr(101));
    assert_eq!(
        parse_dep_spec("https://github.com/o/r/pull/101", "main").unwrap(),
        DepSpec::Pr(101)
    );
    assert_eq!(
        parse_dep_spec("a1b2c3d", "main").unwrap(),
        DepSpec::Commit("a1b2c3d".into())
    );
    assert!(parse_dep_spec("not a ref", "main").is_err());
}

#[test]
fn parse_pr_ref_forms() {
    assert_eq!(parse_pr_ref("#42"), Some(42));
    assert_eq!(parse_pr_ref("42"), Some(42));
    assert_eq!(parse_pr_ref("https://github.com/o/r/pull/42"), Some(42));
    assert_eq!(
        parse_pr_ref("https://github.com/o/r/pull/42#issue-1"),
        Some(42)
    );
    assert_eq!(parse_pr_ref("nonsense"), None);
}


#[test]
fn splice_warning_leaves_clean_body_untouched_when_false() {
    let desc = "This adds the widget trait.";
    assert_eq!(splice_warning(desc, false), desc);
}

#[test]
fn splice_warning_appends_at_bottom_when_true() {
    let desc = "This adds the widget trait.";
    let expected = format!("{desc}\n\n{WARNING_BLOCK}");
    let result = splice_warning(desc, true);
    assert_eq!(result, expected);
    assert_eq!(splice_warning(&result, true), expected);
    assert_eq!(splice_warning(&result, false), desc);
}

#[test]
fn splice_warning_strips_legacy_warning() {
    let old = format!(
        "{WARNING_BEGIN}\nOld warning\n{WARNING_END}\n\nOriginal text"
    );
    assert_eq!(splice_warning(&old, false), "Original text");
    assert_eq!(
        splice_warning(&old, true),
        format!("Original text\n\n{WARNING_BLOCK}")
    );
}

#[test]
fn strip_warning_on_clean_body() {
    let text = "Nothing special\nMultiple lines";
    assert_eq!(strip_warning(text), text);
}

#[test]
fn strip_warning_on_warning_alone() {
    let with_warning =
        format!("{WARNING_BEGIN}\nOld warning\n{WARNING_END}");
    assert_eq!(strip_warning(&with_warning), "");
}

#[test]
fn strip_warning_surrounding_text() {
    let body = format!(
        "Before note\n\n{WARNING_BEGIN}\nOld warning\n{WARNING_END}\n\nAfter details"
    );
    assert_eq!(strip_warning(&body), "Before note\n\nAfter details");
}

#[test]
fn strip_warning_unterminated_marker_is_untouched() {
    let malformed = format!("{WARNING_BEGIN}\nSome text without end tag");
    assert_eq!(strip_warning(&malformed), malformed);
}



fn none() -> Option<String> {
    None
}

#[test]
fn prefers_the_nspr_variable_over_everything_else() {
    let token = first_token(
        |name| Some(name.to_string()),
        || Some("gh".to_string()),
        || Some("config".to_string()),
    );
    assert_eq!(token.as_deref(), Some(TOKEN_ENV_VAR));
}

#[test]
fn falls_back_through_the_chain_in_order() {
    let github_token_only =
        |name: &str| (name == FALLBACK_ENV_VAR).then_some("env".to_string());
    assert_eq!(
        first_token(
            github_token_only,
            || Some("gh".into()),
            || Some("config".into())
        )
        .as_deref(),
        Some("env")
    );
    assert_eq!(
        first_token(
            |_| None,
            || Some("gh".into()),
            || Some("config".into())
        )
        .as_deref(),
        Some("gh")
    );
    assert_eq!(
        first_token(|_| None, none, || Some("config".into())).as_deref(),
        Some("config")
    );
    assert_eq!(first_token(|_| None, none, none), None);
}

#[test]
fn treats_a_blank_source_as_absent() {
    let blank_env =
        |name: &str| (name == FALLBACK_ENV_VAR).then_some("  \n".to_string());
    assert_eq!(
        first_token(blank_env, || Some("gh\n".into()), none).as_deref(),
        Some("gh")
    );
}

#[test]
fn a_source_is_asked_only_where_every_earlier_one_is_blank() {
    let token = first_token(
        |name: &str| {
            assert_eq!(name, TOKEN_ENV_VAR);
            Some("mine".to_string())
        },
        || panic!("gh was asked"),
        || panic!("the git config was asked"),
    );
    assert_eq!(token.as_deref(), Some("mine"));
    let token = first_token(
        |name: &str| Some(if name == TOKEN_ENV_VAR { " " } else { "general" }.to_string()),
        || panic!("gh was asked"),
        || panic!("the git config was asked"),
    );
    assert_eq!(token.as_deref(), Some("general"));
    let token = first_token(
        |_: &str| None,
        || Some("gh".to_string()),
        || panic!("the git config was asked"),
    );
    assert_eq!(token.as_deref(), Some("gh"));
}
