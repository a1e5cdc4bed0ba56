//! The warning block in the description of a pull request.
//!
//! When a repository allows merge commits or rebase merges (rather than only
//! "Squash and merge"), merging a branch through the web page with the wrong
//! merge strategy would put intermediate revision commits into the history of
//! the trunk. On such repositories [`splice_warning`] puts a disclaimer at the
//! bottom of the description; on all others it takes any disclaimer out.

use vstd::prelude::*;

use crate::markers;
use crate::markers::find_block;
use crate::text;
use crate::text::{chars_of, text_between, trimmed};

verus! {

pub const WARNING_BEGIN: &'static str = "<!-- nspr:warning -->";

pub const WARNING_END: &'static str = "<!-- /nspr:warning -->";

pub const WARNING_BLOCK: &'static str = "<!-- nspr:warning -->
---

> [!WARNING]
> It is recommended that this PR is merged using `nspr land`. If merging via the GitHub Web UI, please make sure to select **Squash and merge** and use the **PR title and description** as the commit message (rather than the default `[nspr]` branch commits).
<!-- /nspr:warning -->";

/// The description without its warning block; what stands around the block is
/// trimmed and kept as two paragraphs.
pub open spec fn without_warning(body: Seq<char>) -> Seq<char> {
    match markers::block_in(body, WARNING_BEGIN@, WARNING_END@) {
        Some((a, b)) => {
            let before = text::trim(body.take(a));
            let after = text::trim(body.skip(b));
            if before.len() == 0 {
                after
            } else if after.len() == 0 {
                before
            } else {
                before + "\n\n"@ + after
            }
        },
        None => body,
    }
}

/// The description with the warning block at its bottom.
pub open spec fn below(clean: Seq<char>) -> Seq<char> {
    if clean.len() == 0 {
        WARNING_BLOCK@
    } else {
        clean + "\n\n"@ + WARNING_BLOCK@
    }
}

/// The description with the warning block at its bottom, or without any.
pub open spec fn with_warning(body: Seq<char>, warn: bool) -> Seq<char> {
    if warn {
        below(without_warning(body))
    } else {
        without_warning(body)
    }
}

/// Makes sure that `body` ends with [`WARNING_BLOCK`] when `warn_merge_strategy`
/// is `true`, and has any existing warning block stripped when `false`.
pub fn splice_warning(body: &str, warn_merge_strategy: bool) -> (r: String)
    ensures
        r@ == with_warning(body@, warn_merge_strategy),
{
    let clean = strip_warning(body);
    if !warn_merge_strategy {
        return clean;
    }
    if clean.as_str().is_empty() {
        WARNING_BLOCK.to_owned()
    } else {
        let mut out = clean;
        out.append("\n\n");
        out.append(WARNING_BLOCK);
        out
    }
}

/// Strips a warning block from `body`, returning the clean description.
///
/// If the body contains a start marker but no end marker, it is treated as
/// having no valid warning block to avoid eating human-written content.
pub fn strip_warning(body: &str) -> (r: String)
    ensures
        r@ == without_warning(body@),
{
    let chars = chars_of(body);
    match find_block(&chars, WARNING_BEGIN, WARNING_END) {
        Some((a, b)) => {
            let (a0, a1) = trimmed(&chars, 0, a);
            let (b0, b1) = trimmed(&chars, b, chars.len());
            let before = text_between(&chars, a0, a1);
            let after = text_between(&chars, b0, b1);
            proof {
                assert(chars@.subrange(0, a as int) =~= body@.take(a as int));
                assert(chars@.subrange(b as int, chars@.len() as int) =~= body@.skip(b as int));
            }
            if before.as_str().is_empty() {
                after
            } else if after.as_str().is_empty() {
                before
            } else {
                let mut out = before;
                out.append("\n\n");
                out.append(after.as_str());
                out
            }
        },
        None => body.to_owned(),
    }
}

/// The block starts with the start marker, and its first end marker is the one
/// at its end.
proof fn lemma_block()
    ensures
        WARNING_BLOCK@.len() > WARNING_BEGIN@.len() + WARNING_END@.len(),
        text::occurs_at(WARNING_BLOCK@, WARNING_BEGIN@, 0),
        text::occurs_at(
            WARNING_BLOCK@,
            WARNING_END@,
            WARNING_BLOCK@.len() - WARNING_END@.len(),
        ),
        forall|i: int|
            0 <= i < WARNING_BLOCK@.len() - WARNING_END@.len() ==> !text::occurs_at(
                WARNING_BLOCK@,
                WARNING_END@,
                i,
            ),
{
    reveal_strlit("<!-- nspr:warning -->");
    reveal_strlit("<!-- /nspr:warning -->");
    reveal_strlit("<!-- nspr:warning -->
---

> [!WARNING]
> It is recommended that this PR is merged using `nspr land`. If merging via the GitHub Web UI, please make sure to select **Squash and merge** and use the **PR title and description** as the commit message (rather than the default `[nspr]` branch commits).
<!-- /nspr:warning -->");
    let s = WARNING_BLOCK@;
    let end = s.len() - WARNING_END@.len();
    assert(s.subrange(0, WARNING_BEGIN@.len() as int) =~= WARNING_BEGIN@);
    assert(s.subrange(end, s.len() as int) =~= WARNING_END@);
    assert(end == 298);
    assert(markers::free_of(s, '<', 1, 298)) by {
        reveal_with_fuel(markers::free_of, 11);
    }
    markers::lemma_free_of(s, '<', 1, 298);
    assert forall|i: int| 0 <= i < end implies !text::occurs_at(s, WARNING_END@, i) by {
        if text::occurs_at(s, WARNING_END@, i) {
            let part = s.subrange(i, i + WARNING_END@.len());
            assert(part[0] == '<');
            assert(s[i] == '<');
            assert(part[5] == '/');
            assert(s[5] != '/');
        }
    }
}

/// A description that gets a warning block and loses it again is what it was,
/// provided that it is trimmed and holds no start marker of its own.
pub proof fn law_warning_comes_off(clean: Seq<char>)
    requires
        text::trim(clean) == clean,
        !markers::holds(clean, WARNING_BEGIN@),
    ensures
        without_warning(below(clean)) == clean,
{
    lemma_block();
    let s = below(clean);
    let n = WARNING_END@.len();
    let block = WARNING_BLOCK@;
    text::lemma_find(clean, WARNING_BEGIN@, 0);
    if clean.len() == 0 {
        markers::lemma_find_at(s, WARNING_BEGIN@, 0, 0);
        markers::lemma_find_at(s, WARNING_END@, 0, s.len() - n);
        assert(s.take(0) =~= Seq::<char>::empty());
        assert(s.skip(s.len() as int) =~= Seq::<char>::empty());
        assert(without_warning(s) =~= clean);
    } else {
        let k: int = clean.len() as int + 2;
        assert(s.len() == k + block.len()) by {
            reveal_strlit("\n\n");
        }
        assert(s[clean.len() as int] == '\n' && s[clean.len() as int + 1] == '\n') by {
            reveal_strlit("\n\n");
        }
        assert(s.subrange(k, k + WARNING_BEGIN@.len()) =~= block.subrange(
            0,
            WARNING_BEGIN@.len() as int,
        ));
        assert forall|i: int| 0 <= i < k implies !text::occurs_at(s, WARNING_BEGIN@, i) by {
            if text::occurs_at(s, WARNING_BEGIN@, i) {
                assert(!WARNING_BEGIN@.contains('\n') && WARNING_BEGIN@[0] == '<'
                    && WARNING_BEGIN@.len() > 0) by {
                    reveal_strlit("<!-- nspr:warning -->");
                }
                markers::lemma_no_straddle(s, WARNING_BEGIN@, '\n', clean.len() as int, i);
                if i + WARNING_BEGIN@.len() <= clean.len() {
                    assert(clean.subrange(i, i + WARNING_BEGIN@.len()) =~= s.subrange(
                        i,
                        i + WARNING_BEGIN@.len(),
                    ));
                    assert(text::occurs_at(clean, WARNING_BEGIN@, i));
                } else {
                    assert(s.subrange(i, i + WARNING_BEGIN@.len())[0] == s[i]);
                }
            }
        }
        markers::lemma_find_at(s, WARNING_BEGIN@, 0, k);
        assert(s.subrange(s.len() - n, s.len() as int) =~= block.subrange(
            block.len() - n,
            block.len() as int,
        ));
        assert forall|i: int| k <= i < s.len() - n implies !text::occurs_at(s, WARNING_END@, i) by {
            if text::occurs_at(s, WARNING_END@, i) {
                assert(block.subrange(i - k, i - k + n) =~= s.subrange(i, i + n));
                assert(text::occurs_at(block, WARNING_END@, i - k));
            }
        }
        markers::lemma_find_at(s, WARNING_END@, k, s.len() - n);
        assert(s.skip(s.len() as int) =~= Seq::<char>::empty());
        assert(s.take(k) =~= clean + "\n\n"@);
        text::lemma_trim(clean);
        assert(text::trim_start(clean + "\n\n"@) == clean + "\n\n"@) by {
            assert((clean + "\n\n"@)[0] == clean[0]);
        }
        text::lemma_trim_id(clean);
        assert forall|i: int| 0 <= i < "\n\n"@.len() implies text::is_space(
            #[trigger] "\n\n"@[i],
        ) by {
            reveal_strlit("\n\n");
        }
        text::lemma_trim_end_drops(clean, "\n\n"@);
    }
}

/// Warning twice is warning once, and a warning can be taken back, provided
/// that the description without its warning is trimmed and holds no start
/// marker of its own.
pub proof fn law_warning_idempotent(body: Seq<char>)
    requires
        text::trim(without_warning(body)) == without_warning(body),
        !markers::holds(without_warning(body), WARNING_BEGIN@),
    ensures
        with_warning(with_warning(body, true), true) == with_warning(body, true),
        with_warning(with_warning(body, true), false) == with_warning(body, false),
        with_warning(with_warning(body, false), false) == with_warning(body, false),
        with_warning(with_warning(body, false), true) == with_warning(body, true),
{
    law_warning_comes_off(without_warning(body));
}

/// A description without a start marker is not touched, and neither is one
/// whose start marker has no end marker behind it.
pub proof fn law_no_block_untouched(body: Seq<char>)
    requires
        markers::block_in(body, WARNING_BEGIN@, WARNING_END@) is None,
    ensures
        with_warning(body, false) == body,
{
}

} // verus!
