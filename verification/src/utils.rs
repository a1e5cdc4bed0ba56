//! Branch names out of commit subjects.

use unicode_normalization::UnicodeNormalization;
use vstd::prelude::*;

use crate::text;
use crate::text::{chars_of, digit, letter, lower_char, text_between};

verus! {

/// How long a slug may get.
pub const MAX_SLUG: usize = 60;

/// What `unicode_normalization`'s `nfkd` makes of a text: its compatibility
/// decomposition.
pub uninterp spec fn nfkd(s: Seq<char>) -> Seq<char>;

/// `UnicodeNormalization::nfkd` of the `unicode_normalization` crate, collected
/// into a string: the Unicode Normalization Form KD of the text, which depends
/// on the text alone. ASCII text is its own decomposition.
#[verifier::external_body]
fn decompose(s: &str) -> (r: String)
    ensures
        r@ == nfkd(s@),
        (forall|i: int| 0 <= i < s@.len() ==> #[trigger] s@[i] <= '\x7f') ==> r@ == s@,
{
    s.nfkd().collect()
}

/// The marks that a decomposition leaves behind the letters they belong to.
pub open spec fn is_mark(c: char) -> bool {
    '\u{300}' <= c <= '\u{36f}'
}

pub open spec fn is_slug_letter(c: char) -> bool {
    text::is_letter(c) || text::is_digit(c)
}

/// The words of a decomposed text in lower case, with a dash between each two;
/// and whether something other than a letter, a digit or a mark comes after the
/// last of them.
pub open spec fn words(s: Seq<char>) -> (Seq<char>, bool)
    decreases s.len(),
{
    if s.len() == 0 {
        (Seq::empty(), false)
    } else {
        let (out, gap) = words(s.drop_last());
        let c = s.last();
        if is_mark(c) {
            (out, gap)
        } else if is_slug_letter(c) {
            let joined = if gap && out.len() > 0 {
                out.push('-')
            } else {
                out
            };
            (joined.push(text::lower(c)), false)
        } else {
            (out, true)
        }
    }
}

/// The last position before `to` at which the character `c` stands in `s`.
pub open spec fn last_char_before(s: Seq<char>, c: char, to: int) -> Option<int>
    decreases to,
{
    if to <= 0 {
        None
    } else if s[to - 1] == c {
        Some(to - 1)
    } else {
        last_char_before(s, c, to - 1)
    }
}

/// A text that is not too long, and otherwise as much of it as fits without
/// cutting a word.
pub open spec fn shortened(s: Seq<char>) -> Seq<char> {
    if s.len() <= MAX_SLUG {
        s
    } else {
        match last_char_before(s, '-', MAX_SLUG as int) {
            Some(i) => s.take(i),
            None => s.take(MAX_SLUG as int),
        }
    }
}

/// The slug of a decomposed text.
pub open spec fn slug_of(decomposed: Seq<char>) -> Seq<char> {
    shortened(words(decomposed).0)
}

pub fn is_combining_mark(c: char) -> (r: bool)
    ensures
        r == is_mark(c),
{
    '\u{300}' <= c && c <= '\u{36f}'
}

/// The slug of a text that is already decomposed.
pub fn slug_from_decomposed(text: &str) -> (r: String)
    ensures
        r@ == slug_of(text@),
{
    let chars = chars_of(text);
    let mut out: Vec<char> = Vec::new();
    let mut gap = false;
    let mut i: usize = 0;
    assert(chars@.take(0) =~= Seq::<char>::empty());
    while i < chars.len()
        invariant
            i <= chars@.len(),
            (out@, gap) == words(chars@.take(i as int)),
        decreases chars@.len() - i,
    {
        let c = chars[i];
        assert(chars@.take(i + 1).drop_last() =~= chars@.take(i as int));
        if !is_combining_mark(c) {
            if letter(c) || digit(c) {
                if gap && out.len() > 0 {
                    out.push('-');
                }
                gap = false;
                out.push(lower_char(c));
            } else {
                gap = true;
            }
        }
        i = i + 1;
    }
    assert(chars@.take(i as int) =~= chars@);
    if out.len() <= MAX_SLUG {
        assert(out@.subrange(0, out@.len() as int) =~= out@);
        return text_between(&out, 0, out.len());
    }
    // Keep branch names reasonable, without cutting mid-word.
    let mut cut: usize = MAX_SLUG;
    while cut > 0 && out[cut - 1] != '-'
        invariant
            cut <= MAX_SLUG < out@.len(),
            last_char_before(out@, '-', cut as int) == last_char_before(
                out@,
                '-',
                MAX_SLUG as int,
            ),
        decreases cut,
    {
        cut = cut - 1;
    }
    let end: usize = if cut > 0 {
        cut - 1
    } else {
        MAX_SLUG
    };
    assert(out@.subrange(0, end as int) =~= out@.take(end as int));
    text_between(&out, 0, end)
}

/// Converts a commit subject into a branch-name-safe slug.
pub fn slugify(text: &str) -> (r: String)
    ensures
        r@ == slug_of(nfkd(text@)),
        (forall|i: int| 0 <= i < text@.len() ==> #[trigger] text@[i] <= '\x7f') ==> r@ == slug_of(
            text@,
        ),
{
    let decomposed = decompose(text);
    slug_from_decomposed(decomposed.as_str())
}

pub open spec fn is_slug_char(c: char) -> bool {
    'a' <= c <= 'z' || text::is_digit(c) || c == '-'
}

/// A slug holds lower-case ASCII letters, digits and single dashes between
/// them, and is at most sixty characters long.
pub proof fn law_slug_shape(decomposed: Seq<char>)
    ensures
        slug_of(decomposed).len() <= MAX_SLUG,
        forall|i: int|
            0 <= i < slug_of(decomposed).len() ==> is_slug_char(#[trigger] slug_of(decomposed)[i]),
        slug_of(decomposed).len() > 0 ==> slug_of(decomposed)[0] != '-',
        slug_of(decomposed).len() > 0 ==> slug_of(decomposed).last() != '-',
        forall|i: int|
            0 <= i < slug_of(decomposed).len() - 1 && slug_of(decomposed)[i] == '-'
                ==> #[trigger] slug_of(decomposed)[i + 1] != '-',
{
    let s = words(decomposed).0;
    lemma_words_shape(decomposed);
    if s.len() > MAX_SLUG {
        lemma_last_char_before(s, '-', MAX_SLUG as int);
        match last_char_before(s, '-', MAX_SLUG as int) {
            Some(i) => {
                let r = s.take(i);
                if i > 0 {
                    assert(r.last() == s[i - 1]);
                    assert(s[(i - 1) + 1] == '-');
                }
                assert forall|k: int| 0 <= k < r.len() - 1 && r[k] == '-' implies #[trigger] r[k + 1]
                    != '-' by {
                    assert(s[k] == '-');
                    assert(s[k + 1] != '-');
                }
            },
            None => {
                let r = s.take(MAX_SLUG as int);
                assert(r.last() == s[MAX_SLUG - 1]);
                assert forall|k: int| 0 <= k < r.len() - 1 && r[k] == '-' implies #[trigger] r[k + 1]
                    != '-' by {
                    assert(s[k] == '-');
                    assert(s[k + 1] != '-');
                }
            },
        }
    }
}

proof fn lemma_last_char_before(s: Seq<char>, c: char, to: int)
    requires
        to <= s.len(),
    ensures
        match last_char_before(s, c, to) {
            Some(i) => 0 <= i < to && s[i] == c && forall|k: int| i < k < to ==> s[k] != c,
            None => forall|k: int| 0 <= k < to ==> s[k] != c,
        },
    decreases to,
{
    if to > 0 && s[to - 1] != c {
        lemma_last_char_before(s, c, to - 1);
    }
}

proof fn lemma_words_shape(t: Seq<char>)
    ensures
        forall|i: int| 0 <= i < words(t).0.len() ==> is_slug_char(#[trigger] words(t).0[i]),
        words(t).0.len() > 0 ==> words(t).0[0] != '-' && words(t).0.last() != '-',
        forall|i: int|
            0 <= i < words(t).0.len() - 1 && words(t).0[i] == '-' ==> #[trigger] words(t).0[i + 1]
                != '-',
    decreases t.len(),
{
    if t.len() > 0 {
        lemma_words_shape(t.drop_last());
        let before = words(t.drop_last()).0;
        let s = words(t).0;
        let c = text::lower(t.last());
        if !is_mark(t.last()) && is_slug_letter(t.last()) {
            assert(is_slug_char(c) && c != '-');
            assert forall|i: int| 0 <= i < s.len() implies is_slug_char(#[trigger] s[i]) by {
                if i < before.len() {
                    assert(s[i] == before[i]);
                }
            }
            assert forall|i: int| 0 <= i < s.len() - 1 && s[i] == '-' implies #[trigger] s[i + 1]
                != '-' by {
                if i + 1 < before.len() {
                    assert(before[i] == '-');
                    assert(before[i + 1] != '-');
                } else if i + 1 == before.len() {
                    assert(s[i] == before[i]);
                    assert(before.last() == before[i]);
                }
            }
            if before.len() > 0 {
                assert(s[0] == before[0]);
            }
        }
    }
}

} // verus!
