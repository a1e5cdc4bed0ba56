//! Blocks of generated text between two markers.

use vstd::prelude::*;

use crate::text;
use crate::text::{chars_of, find};

verus! {

/// Where the first block between the two markers stands, from its start marker
/// to behind its end marker. A start marker without an end marker behind it is
/// no block.
pub open spec fn block_in(s: Seq<char>, begin: Seq<char>, end: Seq<char>) -> Option<(int, int)> {
    match text::find_from(s, begin, 0) {
        Some(a) => match text::find_from(s, end, a) {
            Some(b) => Some((a, b + end.len())),
            None => None,
        },
        None => None,
    }
}

/// Finds the first block between the two markers.
pub fn find_block(chars: &Vec<char>, begin: &str, end: &str) -> (r: Option<(usize, usize)>)
    ensures
        match r {
            Some((a, b)) => a <= b <= chars@.len() && block_in(chars@, begin@, end@) == Some(
                (a as int, b as int),
            ),
            None => block_in(chars@, begin@, end@) is None,
        },
{
    let start = chars_of(begin);
    let stop = chars_of(end);
    assert(chars@.len() == chars.len());
    proof {
        text::lemma_find(chars@, begin@, 0);
    }
    match find(chars, &start, 0) {
        Some(a) => {
            proof {
                text::lemma_find(chars@, end@, a as int);
            }
            match find(chars, &stop, a) {
                Some(b) => Some((a, b + stop.len())),
                None => None,
            }
        },
        None => None,
    }
}

/// Whether a text holds the other one.
pub open spec fn holds(s: Seq<char>, pattern: Seq<char>) -> bool {
    text::find_from(s, pattern, 0) is Some
}

pub fn contains(s: &str, pattern: &str) -> (r: bool)
    ensures
        r == holds(s@, pattern@),
{
    let chars = chars_of(s);
    let p = chars_of(pattern);
    find(&chars, &p, 0).is_some()
}

/// The first position at which a pattern occurs is the one that is found.
pub proof fn lemma_find_at(s: Seq<char>, pattern: Seq<char>, from: int, k: int)
    requires
        0 <= from <= k,
        text::occurs_at(s, pattern, k),
        forall|i: int| from <= i < k ==> !text::occurs_at(s, pattern, i),
    ensures
        text::find_from(s, pattern, from) == Some(k),
    decreases k - from,
{
    if from < k {
        assert(!text::occurs_at(s, pattern, from));
        lemma_find_at(s, pattern, from + 1, k);
    }
}

/// A pattern without the character `c` does not reach over one.
pub proof fn lemma_no_straddle(s: Seq<char>, pattern: Seq<char>, c: char, at: int, i: int)
    requires
        0 <= at < s.len(),
        s[at] == c,
        !pattern.contains(c),
        text::occurs_at(s, pattern, i),
    ensures
        i + pattern.len() <= at || at < i,
{
    if i <= at && at < i + pattern.len() {
        assert(s.subrange(i, i + pattern.len())[at - i] == c);
        assert(pattern[at - i] == c);
    }
}

/// The characters of `s` from `i` up to `n` are all different from `c`.
pub open spec fn free_of(s: Seq<char>, c: char, i: int, n: int) -> bool
    decreases n - i,
{
    if n <= i {
        true
    } else if n == i + 1 {
        s[i] != c
    } else {
        free_of(s, c, i, (i + n) / 2) && free_of(s, c, (i + n) / 2, n)
    }
}

pub proof fn lemma_free_of(s: Seq<char>, c: char, i: int, n: int)
    requires
        free_of(s, c, i, n),
    ensures
        forall|k: int| i <= k < n ==> s[k] != c,
    decreases n - i,
{
    if i + 1 < n {
        lemma_free_of(s, c, i, (i + n) / 2);
        lemma_free_of(s, c, (i + n) / 2, n);
    }
}

} // verus!
