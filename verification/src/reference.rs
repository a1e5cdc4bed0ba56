//! How a commit message names a pull request or a commit.

use vstd::prelude::*;

use crate::config;
use crate::config::ConfigView;
use crate::text;
use crate::data::Duplicate;
use crate::text::{chars_of, digit, same_text_ignoring_case, space, trim_text};
use crate::trailers::DEPENDS_ON;

verus! {

/// A `Depends-On:` value exactly as written in the commit message.
#[derive(Debug, Clone, PartialEq, Eq)]
pub enum DepSpec {
    /// `Depends-On: main`: stack directly on the trunk.
    Main,
    /// `Depends-On: #101` or a pull request URL.
    Pr(u64),
    /// `Depends-On: a1b2c3d`: a local commit, resolved at submit time.
    Commit(String),
}

#[verifier::ext_equal]
pub enum DepSpecView {
    Main,
    Pr(u64),
    Commit(Seq<char>),
}

impl DeepView for DepSpec {
    type V = DepSpecView;

    open spec fn deep_view(&self) -> DepSpecView {
        match self {
            DepSpec::Main => DepSpecView::Main,
            DepSpec::Pr(n) => DepSpecView::Pr(*n),
            DepSpec::Commit(name) => DepSpecView::Commit(name@),
        }
    }
}

impl Duplicate for DepSpec {
    fn duplicate(&self) -> (r: Self) {
        match self {
            DepSpec::Main => DepSpec::Main,
            DepSpec::Pr(n) => DepSpec::Pr(*n),
            DepSpec::Commit(name) => DepSpec::Commit(name.clone()),
        }
    }
}

/// The pattern of a single word character.
pub const WORD: &'static str = r"\A\w\z";

/// The pattern of a single decimal digit, of any script.
pub const DIGIT: &'static str = r"\A\d\z";

/// Whether a text matches a regular expression of the `regex` crate.
pub uninterp spec fn regex_matches(pattern: Seq<char>, text: Seq<char>) -> bool;

pub open spec fn is_ascii_word(c: char) -> bool {
    text::is_letter(c) || text::is_digit(c) || c == '_'
}

/// `Regex::new` and `Regex::is_match` of the `regex` crate, as `lazy_regex`
/// hands them out: whether the text matches the pattern, which depends on the
/// two alone. Both patterns are valid. Of the ASCII characters the class `\w`
/// holds the letters, the digits and the underscore, and `\d` the digits.
#[verifier::external_body]
fn is_match(pattern: &str, text: &str) -> (r: bool)
    requires
        pattern@ == WORD@ || pattern@ == DIGIT@,
    ensures
        r == regex_matches(pattern@, text@),
        pattern@ == WORD@ && text@.len() == 1 && text@[0] <= '\x7f' ==> r == is_ascii_word(
            text@[0],
        ),
        pattern@ == DIGIT@ && text@.len() == 1 && text@[0] <= '\x7f' ==> r
            == text::is_digit(text@[0]),
{
    lazy_regex::Regex::new(pattern).unwrap().is_match(text)
}

/// The characters of the class `\w`.
pub open spec fn is_word(c: char) -> bool {
    if c <= '\x7f' {
        is_ascii_word(c)
    } else {
        regex_matches(WORD@, seq![c])
    }
}

/// The characters of the class `\d`.
pub open spec fn is_decimal(c: char) -> bool {
    if c <= '\x7f' {
        text::is_digit(c)
    } else {
        regex_matches(DIGIT@, seq![c])
    }
}

fn word(c: char) -> (r: bool)
    ensures
        r == is_word(c),
{
    let mut s: String = String::new();
    s.push(c);
    assert(s@ =~= seq![c]);
    is_match(WORD, s.as_str())
}

fn decimal_digit(c: char) -> (r: bool)
    ensures
        r == is_decimal(c),
{
    let mut s: String = String::new();
    s.push(c);
    assert(s@ =~= seq![c]);
    is_match(DIGIT, s.as_str())
}

pub const TOO_LARGE: &'static str = "number too large to fit in target type";

pub const INVALID_DIGIT: &'static str = "invalid digit found in string";

/// The number that the digits from `i` on make of the number before them, or
/// why they make none.
pub open spec fn number_from(s: Seq<char>, i: int, before: int) -> Result<u64, Seq<char>>
    decreases s.len() - i,
{
    if i < 0 || i >= s.len() {
        Ok(before as u64)
    } else if !text::is_digit(s[i]) {
        Err(INVALID_DIGIT@)
    } else {
        let n = before * 10 + (s[i] as int - '0' as int);
        if n > u64::MAX {
            Err(TOO_LARGE@)
        } else {
            number_from(s, i + 1, n)
        }
    }
}

/// The number that a run of digits stands for.
pub open spec fn number_of(s: Seq<char>) -> Result<u64, Seq<char>> {
    number_from(s, 0, 0)
}

/// Reads the number that a run of digits stands for.
pub fn read_number(chars: &Vec<char>, from: usize, to: usize) -> (r: Result<u64, String>)
    requires
        from <= to <= chars@.len(),
    ensures
        match r {
            Ok(n) => number_of(chars@.subrange(from as int, to as int)) == Ok::<u64, Seq<char>>(n),
            Err(reason) => number_of(chars@.subrange(from as int, to as int)) == Err::<
                u64,
                Seq<char>,
            >(reason@),
        },
{
    let ghost s = chars@.subrange(from as int, to as int);
    let mut n: u64 = 0;
    let mut i: usize = from;
    while i < to
        invariant
            from <= i <= to <= chars@.len(),
            s == chars@.subrange(from as int, to as int),
            number_from(s, i - from, n as int) == number_of(s),
        decreases to - i,
    {
        let c = chars[i];
        assert(s[i - from] == c);
        if !digit(c) {
            return Err(INVALID_DIGIT.to_owned());
        }
        let d: u64 = (c as u32 - 48) as u64;
        if n > u64::MAX / 10 || n * 10 > u64::MAX - d {
            return Err(TOO_LARGE.to_owned());
        }
        n = n * 10 + d;
        i = i + 1;
    }
    Ok(n)
}

/// The length of the run of decimal digits that the text starts with.
pub open spec fn digit_run(s: Seq<char>) -> int
    decreases s.len(),
{
    if s.len() > 0 && is_decimal(s[0]) {
        1 + digit_run(s.skip(1))
    } else {
        0
    }
}

fn digits_end(chars: &Vec<char>, from: usize) -> (r: usize)
    requires
        from <= chars@.len(),
    ensures
        from <= r <= chars@.len(),
        r - from == digit_run(chars@.skip(from as int)),
{
    let mut i: usize = from;
    while i < chars.len() && decimal_digit(chars[i])
        invariant
            from <= i <= chars@.len(),
            (i - from) + digit_run(chars@.skip(i as int)) == digit_run(chars@.skip(from as int)),
        decreases chars@.len() - i,
    {
        assert(chars@.skip(i as int).skip(1) =~= chars@.skip(i + 1));
        i = i + 1;
    }
    i
}

/// The digits of a number that is written alone, with or without a number sign
/// before it: the text is `#?\s*\d+`.
pub open spec fn plain_digits(s: Seq<char>) -> Option<Seq<char>> {
    let rest = text::trim_start(
        if s.len() > 0 && s[0] == '#' {
            s.skip(1)
        } else {
            s
        },
    );
    if rest.len() > 0 && digit_run(rest) == rest.len() {
        Some(rest)
    } else {
        None
    }
}

/// What stands before and after the first slash.
pub open spec fn at_slash(s: Seq<char>) -> Option<(Seq<char>, Seq<char>)> {
    match text::find_char_from(s, '/', 0) {
        Some(i) => Some((s.take(i), s.skip(i + 1))),
        None => None,
    }
}

/// A name of an owner or a repository: `[\w\-.]+`.
pub open spec fn is_name(s: Seq<char>) -> bool {
    s.len() > 0 && forall|i: int|
        0 <= i < s.len() ==> is_word(#[trigger] s[i]) || s[i] == '-' || s[i] == '.'
}

/// What may follow the number in the URL of a pull request: nothing, or
/// `[/?#].*`.
pub open spec fn is_url_tail(s: Seq<char>) -> bool {
    s.len() == 0 || (s[0] == '/' || s[0] == '?' || s[0] == '#') && forall|i: int|
        1 <= i < s.len() ==> s[i] != '\n'
}

/// The digits after `pull/`.
pub open spec fn pull_digits(s: Seq<char>) -> Option<Seq<char>> {
    if text::starts_with(s, "pull/"@) {
        let rest = s.skip(5);
        let n = digit_run(rest);
        if n > 0 && is_url_tail(rest.skip(n)) {
            Some(rest.take(n))
        } else {
            None
        }
    } else {
        None
    }
}

/// The digits of the number in the URL of a pull request: the text is
/// `https?://[^/]+/[\w\-.]+/[\w\-.]+/pull/(\d+)(?:[/?#].*)?`.
pub open spec fn url_digits(s: Seq<char>) -> Option<Seq<char>> {
    let rest = if text::starts_with(s, "https://"@) {
        Some(s.skip(8))
    } else if text::starts_with(s, "http://"@) {
        Some(s.skip(7))
    } else {
        None
    };
    match rest {
        None => None,
        Some(rest) => match at_slash(rest) {
            None => None,
            Some((host, rest)) => match at_slash(rest) {
                None => None,
                Some((owner, rest)) => match at_slash(rest) {
                    None => None,
                    Some((repo, rest)) => if host.len() > 0 && is_name(owner) && is_name(repo) {
                        pull_digits(rest)
                    } else {
                        None
                    },
                },
            },
        },
    }
}

/// The digits of the number of a pull request, however it is written.
pub open spec fn pr_digits(s: Seq<char>) -> Option<Seq<char>> {
    match plain_digits(s) {
        Some(digits) => Some(digits),
        None => url_digits(s),
    }
}

/// The number of the pull request that a trailer value names.
pub open spec fn pr_meant(value: Seq<char>) -> Option<u64> {
    match pr_digits(text::trim(value)) {
        Some(digits) => match number_of(digits) {
            Ok(n) => Some(n),
            Err(_) => None,
        },
        None => None,
    }
}

/// Seven to forty hexadecimal digits.
pub open spec fn is_commit_name(s: Seq<char>) -> bool {
    7 <= s.len() <= 40 && forall|i: int|
        0 <= i < s.len() ==> text::is_hex_digit(#[trigger] s[i])
}

/// A word for the trunk, in whatever case.
pub open spec fn names_trunk(s: Seq<char>, trunk: Seq<char>) -> bool {
    text::same_ignoring_case(s, trunk) || text::same_ignoring_case(s, "main"@)
        || text::same_ignoring_case(s, "master"@) || text::same_ignoring_case(
        s,
        "trunk"@,
    )
}

/// What a `Depends-On:` value means, or why it means nothing.
pub open spec fn dep_meant(value: Seq<char>, trunk: Seq<char>) -> Result<DepSpecView, Seq<char>> {
    let s = text::trim(value);
    if names_trunk(s, trunk) {
        Ok(DepSpecView::Main)
    } else {
        match pr_digits(s) {
            Some(digits) => match number_of(digits) {
                Ok(n) => Ok(DepSpecView::Pr(n)),
                Err(reason) => Err(reason),
            },
            None => if is_commit_name(s) {
                Ok(DepSpecView::Commit(s))
            } else {
                Err(
                    "cannot parse `"@ + DEPENDS_ON@ + ": "@ + s
                        + "`; expected `main`, `#123`, a pull request URL, or a commit hash"@,
                )
            },
        }
    }
}

/// Where the digits of a number that is written alone stand.
fn find_plain_digits(chars: &Vec<char>) -> (r: Option<(usize, usize)>)
    ensures
        match r {
            Some((a, b)) => a <= b <= chars@.len() && plain_digits(chars@) == Some(
                chars@.subrange(a as int, b as int),
            ),
            None => plain_digits(chars@) is None,
        },
{
    let mut a: usize = 0;
    if chars.len() > 0 && chars[0] == '#' {
        a = 1;
    }
    let ghost first = chars@.skip(a as int);
    assert(a == 0 ==> first =~= chars@);
    while a < chars.len() && space(chars[a])
        invariant
            a <= chars@.len(),
            text::trim_start(chars@.skip(a as int)) == text::trim_start(first),
        decreases chars@.len() - a,
    {
        assert(chars@.skip(a as int).skip(1) =~= chars@.skip(a + 1));
        a = a + 1;
    }
    assert(text::trim_start(first) == chars@.skip(a as int)) by {
        if a < chars@.len() {
            assert(chars@.skip(a as int)[0] == chars@[a as int]);
        }
    }
    let b = digits_end(chars, a);
    if b == chars.len() && a < b {
        assert(chars@.subrange(a as int, b as int) =~= chars@.skip(a as int));
        Some((a, b))
    } else {
        None
    }
}

/// Where the first slash from `from` on stands.
fn slash_from(chars: &Vec<char>, from: usize) -> (r: Option<usize>)
    requires
        from <= chars@.len(),
    ensures
        match r {
            Some(i) => from <= i < chars@.len() && at_slash(chars@.skip(from as int)) == Some(
                (chars@.subrange(from as int, i as int), chars@.skip(i + 1)),
            ),
            None => at_slash(chars@.skip(from as int)) is None,
        },
{
    let ghost s = chars@.skip(from as int);
    let mut i: usize = from;
    while i < chars.len()
        invariant
            from <= i <= chars@.len(),
            s == chars@.skip(from as int),
            text::find_char_from(s, '/', i - from) == text::find_char_from(s, '/', 0),
        decreases chars@.len() - i,
    {
        assert(s[i - from] == chars@[i as int]);
        if chars[i] == '/' {
            proof {
                assert(s.take(i - from) =~= chars@.subrange(from as int, i as int));
                assert(s.skip(i - from + 1) =~= chars@.skip(i + 1));
            }
            return Some(i);
        }
        i = i + 1;
    }
    None
}

fn is_name_between(chars: &Vec<char>, from: usize, to: usize) -> (r: bool)
    requires
        from <= to <= chars@.len(),
    ensures
        r == is_name(chars@.subrange(from as int, to as int)),
{
    let ghost s = chars@.subrange(from as int, to as int);
    if from == to {
        return false;
    }
    let mut i: usize = from;
    while i < to
        invariant
            from <= i <= to <= chars@.len(),
            s == chars@.subrange(from as int, to as int),
            forall|k: int|
                0 <= k < i - from ==> is_word(#[trigger] s[k]) || s[k] == '-' || s[k] == '.',
        decreases to - i,
    {
        let c = chars[i];
        assert(s[i - from] == c);
        if !(c == '-' || c == '.' || word(c)) {
            return false;
        }
        i = i + 1;
    }
    true
}

fn is_url_tail_from(chars: &Vec<char>, from: usize) -> (r: bool)
    requires
        from <= chars@.len(),
    ensures
        r == is_url_tail(chars@.skip(from as int)),
{
    let ghost s = chars@.skip(from as int);
    if from == chars.len() {
        return true;
    }
    let c = chars[from];
    assert(s[0] == c);
    if !(c == '/' || c == '?' || c == '#') {
        return false;
    }
    let mut i: usize = from + 1;
    while i < chars.len()
        invariant
            from < i <= chars@.len(),
            s == chars@.skip(from as int),
            forall|k: int| 1 <= k < i - from ==> s[k] != '\n',
        decreases chars@.len() - i,
    {
        assert(s[i - from] == chars@[i as int]);
        if chars[i] == '\n' {
            return false;
        }
        i = i + 1;
    }
    true
}

fn starts_at(chars: &Vec<char>, from: usize, prefix: &str) -> (r: bool)
    requires
        from <= chars@.len(),
    ensures
        r == text::starts_with(chars@.skip(from as int), prefix@),
{
    let p = chars_of(prefix);
    let r = text::stands_at(chars, &p, from);
    proof {
        let s = chars@.skip(from as int);
        if p@.len() <= s.len() {
            assert(s.take(p@.len() as int) =~= chars@.subrange(from as int, from + p@.len()));
        }
    }
    r
}

/// Where the digits of the number in the URL of a pull request stand.
fn find_url_digits(chars: &Vec<char>) -> (r: Option<(usize, usize)>)
    ensures
        match r {
            Some((a, b)) => a <= b <= chars@.len() && url_digits(chars@) == Some(
                chars@.subrange(a as int, b as int),
            ),
            None => url_digits(chars@) is None,
        },
{
    proof {
        assert(chars@.skip(0) =~= chars@);
        reveal_strlit("https://");
        reveal_strlit("http://");
        reveal_strlit("pull/");
    }
    let _length: usize = chars.len();
    let host: usize = if starts_at(chars, 0, "https://") {
        8
    } else if starts_at(chars, 0, "http://") {
        7
    } else {
        return None;
    };
    let owner = match slash_from(chars, host) {
        Some(i) => i + 1,
        None => {
            return None;
        },
    };
    let repo = match slash_from(chars, owner) {
        Some(i) => i + 1,
        None => {
            return None;
        },
    };
    let pull = match slash_from(chars, repo) {
        Some(i) => i + 1,
        None => {
            return None;
        },
    };
    if owner - 1 == host || !is_name_between(chars, owner, repo - 1) || !is_name_between(
        chars,
        repo,
        pull - 1,
    ) {
        return None;
    }
    if !starts_at(chars, pull, "pull/") {
        return None;
    }
    let start = pull + 5;
    let end = digits_end(chars, start);
    proof {
        assert(chars@.skip(pull as int).skip(5) =~= chars@.skip(start as int));
        assert(chars@.skip(start as int).skip(end - start) =~= chars@.skip(end as int));
        assert(chars@.skip(start as int).take(end - start) =~= chars@.subrange(
            start as int,
            end as int,
        ));
    }
    if start < end && is_url_tail_from(chars, end) {
        Some((start, end))
    } else {
        None
    }
}

fn find_pr_digits(chars: &Vec<char>) -> (r: Option<(usize, usize)>)
    ensures
        match r {
            Some((a, b)) => a <= b <= chars@.len() && pr_digits(chars@) == Some(
                chars@.subrange(a as int, b as int),
            ),
            None => pr_digits(chars@) is None,
        },
{
    match find_plain_digits(chars) {
        Some(range) => Some(range),
        None => find_url_digits(chars),
    }
}

/// Extracts a pull request number from a `Pull-Request:` trailer value.
pub fn parse_pr_ref(value: &str) -> (r: Option<u64>)
    ensures
        r == pr_meant(value@),
{
    let chars = chars_of(trim_text(value).as_str());
    match find_pr_digits(&chars) {
        Some((a, b)) => match read_number(&chars, a, b) {
            Ok(n) => Some(n),
            Err(_) => None,
        },
        None => None,
    }
}

fn is_commit_text(chars: &Vec<char>) -> (r: bool)
    ensures
        r == is_commit_name(chars@),
{
    if chars.len() < 7 || chars.len() > 40 {
        return false;
    }
    let mut i: usize = 0;
    while i < chars.len()
        invariant
            i <= chars@.len(),
            forall|k: int| 0 <= k < i ==> text::is_hex_digit(#[trigger] chars@[k]),
        decreases chars@.len() - i,
    {
        let c = chars[i];
        if !(digit(c) || ('a' <= c && c <= 'f') || ('A' <= c && c <= 'F')) {
            assert(!text::is_hex_digit(chars@[i as int]));
            return false;
        }
        i = i + 1;
    }
    true
}

/// Parses a `Depends-On:` value.
///
/// Permissive on input, canonical on storage: `main`, `#101`, `101`, a full
/// pull request URL or a local commit-ish is accepted, and `#101` or `main` is
/// what gets written back.
pub fn parse_dep_spec(value: &str, trunk: &str) -> (r: Result<DepSpec, String>)
    ensures
        match r {
            Ok(spec) => dep_meant(value@, trunk@) == Ok::<DepSpecView, Seq<char>>(spec.deep_view()),
            Err(reason) => dep_meant(value@, trunk@) == Err::<DepSpecView, Seq<char>>(reason@),
        },
{
    let text = trim_text(value);
    let s = text.as_str();
    if same_text_ignoring_case(s, trunk) || same_text_ignoring_case(s, "main")
        || same_text_ignoring_case(s, "master") || same_text_ignoring_case(s, "trunk") {
        return Ok(DepSpec::Main);
    }
    let chars = chars_of(s);
    match find_pr_digits(&chars) {
        Some((a, b)) => match read_number(&chars, a, b) {
            Ok(n) => Ok(DepSpec::Pr(n)),
            Err(reason) => Err(reason),
        },
        None => if is_commit_text(&chars) {
            Ok(DepSpec::Commit(text))
        } else {
            let mut reason = "cannot parse `".to_owned();
            reason.append(DEPENDS_ON);
            reason.append(": ");
            reason.append(s);
            reason.append("`; expected `main`, `#123`, a pull request URL, or a commit hash");
            Err(reason)
        },
    }
}

/// The decimal digits of a number are ASCII digits.
proof fn lemma_decimal_digits(n: nat)
    ensures
        text::decimal(n).len() > 0,
        forall|i: int|
            0 <= i < text::decimal(n).len() ==> text::is_digit(#[trigger] text::decimal(n)[i]),
    decreases n,
{
    if n >= 10 {
        lemma_decimal_digits(n / 10);
    }
}

/// Reading the decimal digits of a number brings one to that number.
proof fn lemma_number_from_decimal(n: nat, rest: Seq<char>)
    requires
        n <= u64::MAX,
    ensures
        number_from(text::decimal(n) + rest, 0, 0) == number_from(
            text::decimal(n) + rest,
            text::decimal(n).len() as int,
            n as int,
        ),
    decreases n,
{
    let s = text::decimal(n) + rest;
    let digit = ('0' as u32 + n % 10) as char;
    if n < 10 {
        assert(s[0] == digit);
    } else {
        let front = text::decimal(n / 10);
        assert(s =~= front + (seq![digit] + rest));
        lemma_number_from_decimal(n / 10, seq![digit] + rest);
        assert(s[front.len() as int] == digit);
    }
}

/// The decimal digits of a number are read as that number.
pub proof fn law_number_is_read_back(n: u64)
    ensures
        number_of(text::decimal(n as nat)) == Ok::<u64, Seq<char>>(n),
{
    let s = text::decimal(n as nat);
    assert(s + Seq::<char>::empty() =~= s);
    lemma_number_from_decimal(n as nat, Seq::empty());
}

/// Digits up to the end are one run.
proof fn lemma_all_digits(s: Seq<char>)
    requires
        forall|i: int| 0 <= i < s.len() ==> text::is_digit(#[trigger] s[i]),
    ensures
        digit_run(s) == s.len(),
    decreases s.len(),
{
    if s.len() > 0 {
        assert(text::is_digit(s[0]));
        assert forall|i: int| 0 <= i < s.skip(1).len() implies text::is_digit(
            #[trigger] s.skip(1)[i],
        ) by {
            assert(text::is_digit(s[i + 1]));
        }
        lemma_all_digits(s.skip(1));
    }
}

proof fn lemma_at_slash(a: Seq<char>, b: Seq<char>)
    requires
        forall|i: int| 0 <= i < a.len() ==> a[i] != '/',
    ensures
        at_slash(a + seq!['/'] + b) == Some((a, b)),
{
    let s = a + seq!['/'] + b;
    text::lemma_find_char(s, '/', 0);
    let at = a.len() as int;
    assert(s[at] == '/');
    let found = text::find_char_from(s, '/', 0)->0;
    if found < at {
        assert(s[found] == a[found]);
    }
    assert(s.take(at) =~= a);
    assert(s.skip(at + 1) =~= b);
}

/// A number behind a number sign names the pull request of that number.
pub proof fn law_number_names_pr(n: u64)
    ensures
        pr_digits("#"@ + text::decimal(n as nat)) == Some(text::decimal(n as nat)),
        pr_meant("#"@ + text::decimal(n as nat)) == Some(n),
{
    reveal_strlit("#");
    let digits = text::decimal(n as nat);
    let s = "#"@ + digits;
    lemma_decimal_digits(n as nat);
    assert(s[0] == '#');
    assert(s.last() == digits[digits.len() - 1]);
    text::lemma_trim_id(s);
    assert(s.skip(1) =~= digits);
    assert(!text::is_space(digits[0]));
    lemma_all_digits(digits);
    law_number_is_read_back(n);
}

/// The web page of a pull request, which a commit message stores, names that
/// pull request.
pub proof fn law_url_names_pr(c: ConfigView, n: u64)
    requires
        is_name(c.owner),
        is_name(c.repo),
    ensures
        pr_digits(config::pr_url(c, n)) == Some(text::decimal(n as nat)),
        pr_meant(config::pr_url(c, n)) == Some(n),
{
    let url = config::pr_url(c, n);
    let digits = text::decimal(n as nat);
    lemma_decimal_digits(n as nat);
    reveal_strlit("https://github.com/");
    reveal_strlit("https://");
    reveal_strlit("/");
    reveal_strlit("/pull/");
    reveal_strlit("pull/");
    let host = "https://github.com/"@.subrange(8, 18);
    assert(url[0] == 'h');
    assert(url.last() == digits[digits.len() - 1]);
    text::lemma_trim_id(url);
    assert(plain_digits(url) is None);
    assert(url.take(8) =~= "https://"@);
    let end = "pull/"@ + digits;
    assert(url.skip(8) =~= host + seq!['/'] + (c.owner + seq!['/'] + (c.repo + seq!['/'] + end)));
    lemma_at_slash(host, c.owner + seq!['/'] + (c.repo + seq!['/'] + end));
    lemma_at_slash(c.owner, c.repo + seq!['/'] + end);
    lemma_at_slash(c.repo, end);
    assert(end.take(5) =~= "pull/"@);
    assert(end.skip(5) =~= digits);
    lemma_all_digits(digits);
    assert(digits.take(digits.len() as int) =~= digits);
    law_number_is_read_back(n);
}

/// A dependency that is written as a number is read as that pull request,
/// unless the trunk has that very name.
pub proof fn law_number_names_dependency(n: u64, trunk: Seq<char>)
    requires
        !text::same_ignoring_case("#"@ + text::decimal(n as nat), trunk),
    ensures
        dep_meant("#"@ + text::decimal(n as nat), trunk) == Ok::<DepSpecView, Seq<char>>(
            DepSpecView::Pr(n),
        ),
{
    law_number_names_pr(n);
    law_number_is_read_back(n);
    lemma_decimal_digits(n as nat);
    reveal_strlit("#");
    reveal_strlit("main");
    reveal_strlit("master");
    reveal_strlit("trunk");
    let digits = text::decimal(n as nat);
    let s = "#"@ + digits;
    assert(s.last() == digits[digits.len() - 1]);
    text::lemma_trim_id(s);
    let lowered = s.map_values(|c: char| text::lower(c));
    assert(lowered[0] == '#');
    assert("main"@.map_values(|c: char| text::lower(c))[0] == 'm');
    assert("master"@.map_values(|c: char| text::lower(c))[0] == 'm');
    assert("trunk"@.map_values(|c: char| text::lower(c))[0] == 't');
}

/// The name of the trunk is read as the trunk, whatever it is.
pub proof fn law_trunk_names_trunk(trunk: Seq<char>)
    ensures
        dep_meant(text::trim(trunk), text::trim(trunk)) == Ok::<DepSpecView, Seq<char>>(
            DepSpecView::Main,
        ),
{
    text::lemma_trim_twice(trunk);
}

} // verus!
