//! Commit messages with their trailers.
//!
//! All per-commit state lives in the commit message, as git trailers:
//!
//! ```text
//! Add the widget cache
//!
//! Some explanation of the change.
//!
//! Pull-Request: https://github.com/o/r/pull/103
//! Depends-On: #101
//! ```
//!
//! The subject becomes the title of the pull request and the body becomes its
//! description. There is no other store.

use vstd::prelude::*;

use crate::text;
use crate::text::{
    blank, chars_of, find_char, join_texts, letter, lines_of, same_text_ignoring_case, stripped,
    text_between, trim_end_text, trim_text,
};

verus! {

broadcast use crate::text::group_views;

/// Trailer key linking a commit to its pull request.
pub const PULL_REQUEST: &'static str = "Pull-Request";

/// Trailer key that `spr` wrote for the same purpose.
pub const LEGACY_SPR_PULL_REQUEST: &'static str = "Pull Request";

/// Trailer key declaring which layer this commit stacks on.
pub const DEPENDS_ON: &'static str = "Depends-On";

/// A parsed commit message.
#[derive(Debug, PartialEq, Eq)]
pub struct CommitMessage {
    /// First line of the message. Becomes the pull request title.
    pub subject: String,
    /// Everything between the subject and the trailer block, trimmed. Becomes
    /// the pull request description.
    pub body: String,
    /// The trailer block, in the order the trailers appeared.
    pub trailers: Vec<(String, String)>,
}

/// What a commit message says.
#[verifier::ext_equal]
pub struct MessageView {
    pub subject: Seq<char>,
    pub body: Seq<char>,
    pub trailers: Seq<(Seq<char>, Seq<char>)>,
}

impl View for CommitMessage {
    type V = MessageView;

    open spec fn view(&self) -> MessageView {
        MessageView {
            subject: self.subject@,
            body: self.body@,
            trailers: text::views(self.trailers@),
        }
    }
}

/// Keys are compared without regard to case, and the key that `spr` wrote
/// stands for [`PULL_REQUEST`].
pub open spec fn key_matches(actual: Seq<char>, query: Seq<char>) -> bool {
    ||| text::same_ignoring_case(actual, query)
    ||| text::same_ignoring_case(query, PULL_REQUEST@) && text::same_ignoring_case(
        actual,
        LEGACY_SPR_PULL_REQUEST@,
    )
}

pub open spec fn is_token_char(c: char) -> bool {
    text::is_letter(c) || text::is_digit(c) || c == '-' || c == '_'
}

/// What may stand before the colon of a trailer.
pub open spec fn is_token(token: Seq<char>) -> bool {
    ||| text::same_ignoring_case(token, LEGACY_SPR_PULL_REQUEST@)
    ||| token.len() > 0 && text::is_letter(token[0]) && forall|i: int|
        0 <= i < token.len() ==> is_token_char(#[trigger] token[i])
}

/// A line of the form `Token: value`.
pub open spec fn trailer_line(line: Seq<char>) -> bool {
    match text::find_char_from(line, ':', 0) {
        None => false,
        Some(i) => is_token(line.take(i)),
    }
}

/// An indented line, which goes on with the value of the trailer before it.
pub open spec fn continuation_line(line: Seq<char>) -> bool {
    line.len() > 0 && (line[0] == ' ' || line[0] == '\t')
}

/// The text with every carriage return before a line feed taken out.
pub open spec fn normalized(s: Seq<char>) -> Seq<char>
    decreases s.len(),
{
    if s.len() == 0 {
        s
    } else if s.len() >= 2 && s.last() == '\n' && s[s.len() - 2] == '\r' {
        normalized(s.drop_last().drop_last()).push('\n')
    } else {
        normalized(s.drop_last()).push(s.last())
    }
}

/// The lines of a message, without empty lines at its two ends.
pub open spec fn message_lines(raw: Seq<char>) -> Seq<Seq<char>> {
    text::split_lines(
        text::strip_trailing(text::strip_leading(normalized(raw), '\n'), '\n'),
    )
}

/// The lines from the first one that is not blank.
pub open spec fn skip_blank(lines: Seq<Seq<char>>) -> Seq<Seq<char>>
    decreases lines.len(),
{
    if lines.len() > 0 && text::is_blank(lines[0]) {
        skip_blank(lines.skip(1))
    } else {
        lines
    }
}

/// Where the last paragraph of the lines starts.
pub open spec fn last_paragraph(lines: Seq<Seq<char>>) -> int
    decreases lines.len(),
{
    if lines.len() == 0 || text::is_blank(lines.last()) {
        lines.len() as int
    } else if lines.len() == 1 || text::is_blank(lines[lines.len() - 2]) {
        lines.len() - 1
    } else {
        last_paragraph(lines.drop_last())
    }
}

/// A paragraph in which every line is a trailer or goes on with one, and at
/// least one line is a trailer.
pub open spec fn trailer_block(lines: Seq<Seq<char>>) -> bool {
    &&& exists|i: int| 0 <= i < lines.len() && trailer_line(#[trigger] lines[i])
    &&& forall|i: int|
        0 <= i < lines.len() ==> trailer_line(#[trigger] lines[i]) || continuation_line(lines[i])
}

/// The trailers that the lines of a trailer block hold.
pub open spec fn block_trailers(lines: Seq<Seq<char>>) -> Seq<(Seq<char>, Seq<char>)>
    decreases lines.len(),
{
    if lines.len() == 0 {
        Seq::empty()
    } else {
        let before = block_trailers(lines.drop_last());
        let line = lines.last();
        if continuation_line(line) {
            if before.len() > 0 {
                let (token, value) = before.last();
                before.drop_last().push((token, value.push('\n') + line))
            } else {
                before
            }
        } else {
            match text::find_char_from(line, ':', 0) {
                Some(i) => before.push((line.take(i), text::trim(line.skip(i + 1)))),
                None => before,
            }
        }
    }
}

/// The message that the lines make up.
pub open spec fn message_of_lines(lines: Seq<Seq<char>>) -> MessageView {
    let subject = text::trim_end(lines[0]);
    let rest = skip_blank(lines.skip(1));
    let start = last_paragraph(rest);
    if trailer_block(rest.skip(start)) {
        MessageView {
            subject,
            body: text::trim(text::join(rest.take(start), seq!['\n'])),
            trailers: block_trailers(rest.skip(start)),
        }
    } else {
        MessageView {
            subject,
            body: text::trim(text::join(rest, seq!['\n'])),
            trailers: Seq::empty(),
        }
    }
}

/// The message that a raw commit message says.
pub open spec fn parsed(raw: Seq<char>) -> MessageView {
    message_of_lines(message_lines(raw))
}

/// The line that a trailer is written as.
pub open spec fn trailer_text(trailer: (Seq<char>, Seq<char>)) -> Seq<char> {
    trailer.0 + ": "@ + trailer.1 + "\n"@
}

pub open spec fn trailers_text(trailers: Seq<(Seq<char>, Seq<char>)>) -> Seq<char>
    decreases trailers.len(),
{
    if trailers.len() == 0 {
        Seq::empty()
    } else {
        trailers_text(trailers.drop_last()) + trailer_text(trailers.last())
    }
}

/// The raw commit message for a message: the subject, the body and the
/// trailers, with an empty line between each two.
pub open spec fn rendered(m: MessageView) -> Seq<char> {
    let subject = text::trim_end(m.subject) + "\n"@;
    let body = if text::is_blank(m.body) {
        Seq::empty()
    } else {
        "\n"@ + text::trim(m.body) + "\n"@
    };
    let trailers = if m.trailers.len() == 0 {
        Seq::empty()
    } else {
        "\n"@ + trailers_text(m.trailers)
    };
    subject + body + trailers
}

/// Where the first trailer with the given key stands.
pub open spec fn trailer_index(
    trailers: Seq<(Seq<char>, Seq<char>)>,
    key: Seq<char>,
    from: int,
) -> Option<int>
    decreases trailers.len() - from,
{
    if from < 0 || from >= trailers.len() {
        None
    } else if key_matches(trailers[from].0, key) {
        Some(from)
    } else {
        trailer_index(trailers, key, from + 1)
    }
}

/// The value of the first trailer with the given key.
pub open spec fn trailer_value(m: MessageView, key: Seq<char>) -> Option<Seq<char>> {
    match trailer_index(m.trailers, key, 0) {
        Some(i) => Some(m.trailers[i].1),
        None => None,
    }
}

/// The message with the given trailer in place of the first one with that key,
/// or at the end where there is none.
pub open spec fn with_trailer(m: MessageView, key: Seq<char>, value: Seq<char>) -> MessageView {
    MessageView {
        trailers: match trailer_index(m.trailers, key, 0) {
            Some(i) => m.trailers.update(i, (key, value)),
            None => m.trailers.push((key, value)),
        },
        ..m
    }
}

/// The trailers without those with the given key.
pub open spec fn dropped(trailers: Seq<(Seq<char>, Seq<char>)>, key: Seq<char>) -> Seq<
    (Seq<char>, Seq<char>),
>
    decreases trailers.len(),
{
    if trailers.len() == 0 {
        Seq::empty()
    } else if key_matches(trailers.last().0, key) {
        dropped(trailers.drop_last(), key)
    } else {
        dropped(trailers.drop_last(), key).push(trailers.last())
    }
}

/// The message without the trailers with the given key.
pub open spec fn without_trailer(m: MessageView, key: Seq<char>) -> MessageView {
    MessageView { trailers: dropped(m.trailers, key), ..m }
}

/// The message holds the trailer that `spr` wrote.
pub open spec fn legacy_trailer(m: MessageView) -> bool {
    exists|i: int|
        0 <= i < m.trailers.len() && text::same_ignoring_case(
            (#[trigger] m.trailers[i]).0,
            LEGACY_SPR_PULL_REQUEST@,
        )
}

/// The message without what belongs to the review alone.
pub open spec fn for_branch(m: MessageView) -> MessageView {
    without_trailer(without_trailer(m, DEPENDS_ON@), PULL_REQUEST@)
}

pub fn matches_trailer_key(actual: &str, query: &str) -> (r: bool)
    ensures
        r == key_matches(actual@, query@),
{
    same_text_ignoring_case(actual, query) || (same_text_ignoring_case(query, PULL_REQUEST)
        && same_text_ignoring_case(actual, LEGACY_SPR_PULL_REQUEST))
}

fn is_token_text(token: &str) -> (r: bool)
    ensures
        r == is_token(token@),
{
    if same_text_ignoring_case(token, LEGACY_SPR_PULL_REQUEST) {
        return true;
    }
    let chars = chars_of(token);
    if chars.len() == 0 || !letter(chars[0]) {
        return false;
    }
    let mut i: usize = 0;
    while i < chars.len()
        invariant
            i <= chars@.len(),
            chars@ == token@,
            !text::same_ignoring_case(token@, LEGACY_SPR_PULL_REQUEST@),
            forall|k: int| 0 <= k < i ==> is_token_char(#[trigger] chars@[k]),
        decreases chars@.len() - i,
    {
        let c = chars[i];
        if !(letter(c) || text::digit(c) || c == '-' || c == '_') {
            assert(!is_token_char(token@[i as int]));
            return false;
        }
        i = i + 1;
    }
    true
}

/// Whether `line` looks like `Token: value`.
pub fn is_trailer_line(line: &str) -> (r: bool)
    ensures
        r == trailer_line(line@),
{
    let chars = chars_of(line);
    match find_char(&chars, ':') {
        None => false,
        Some(i) => {
            proof {
                text::lemma_find_char(line@, ':', 0);
            }
            let token = text_between(&chars, 0, i);
            assert(token@ =~= line@.take(i as int));
            is_token_text(token.as_str())
        },
    }
}

/// Whether `line` goes on with the value of the trailer before it.
pub fn is_continuation_line(line: &str) -> (r: bool)
    ensures
        r == continuation_line(line@),
{
    let chars = chars_of(line);
    chars.len() > 0 && (chars[0] == ' ' || chars[0] == '\t')
}

fn normalize(raw: &str) -> (r: Vec<char>)
    ensures
        r@ == normalized(raw@),
{
    let chars = chars_of(raw);
    let mut out: Vec<char> = Vec::new();
    let mut i: usize = 0;
    assert(chars@.take(0) =~= Seq::<char>::empty());
    while i < chars.len()
        invariant
            i <= chars@.len(),
            out@ == normalized(chars@.take(i as int)),
        decreases chars@.len() - i,
    {
        let c = chars[i];
        let ghost next = chars@.take(i + 1);
        assert(next.drop_last() =~= chars@.take(i as int));
        if c == '\n' && i > 0 && chars[i - 1] == '\r' {
            proof {
                assert(chars@.take(i as int).drop_last() =~= chars@.take(i - 1));
                assert(chars@.take(i as int).last() == '\r');
                assert(out@ == normalized(chars@.take(i - 1)).push('\r'));
                assert(out@.drop_last() =~= normalized(chars@.take(i - 1)));
            }
            let _ = out.pop();
        }
        out.push(c);
        i = i + 1;
    }
    assert(chars@.take(i as int) =~= chars@);
    out
}

/// The lines from `from` on, with a line feed between each two, trimmed.
fn paragraph_text(lines: &Vec<String>, from: usize, to: usize) -> (r: String)
    requires
        from <= to <= lines@.len(),
    ensures
        r@ == text::trim(
            text::join(
                text::views(lines@).subrange(from as int, to as int),
                seq!['\n'],
            ),
        ),
{
    let mut part: Vec<String> = Vec::new();
    let mut i: usize = from;
    while i < to
        invariant
            from <= i <= to <= lines@.len(),
            text::views(part@) == text::views(lines@).subrange(from as int, i as int),
        decreases to - i,
    {
        part.push(lines[i].clone());
        assert(text::views(lines@).subrange(from as int, i as int).push(lines@[i as int]@)
            =~= text::views(lines@).subrange(from as int, i + 1));
        i = i + 1;
    }
    proof {
        reveal_strlit("\n");
        assert("\n"@ =~= seq!['\n']);
    }
    let joined = join_texts(&part, "\n");
    trim_text(joined.as_str())
}

/// The trailers that the lines from `from` on hold.
fn read_trailers(lines: &Vec<String>, from: usize) -> (r: Vec<(String, String)>)
    requires
        from <= lines@.len(),
    ensures
        text::views(r@) == block_trailers(text::views(lines@).skip(from as int)),
{
    let mut trailers: Vec<(String, String)> = Vec::new();
    let ghost all = text::views(lines@).skip(from as int);
    let mut i: usize = from;
    assert(all.take(0) =~= Seq::<Seq<char>>::empty());
    assert(text::views(trailers@) =~= block_trailers(all.take(0)));
    while i < lines.len()
        invariant
            from <= i <= lines@.len(),
            all == text::views(lines@).skip(from as int),
            text::views(trailers@) == block_trailers(all.take(i - from)),
        decreases lines@.len() - i,
    {
        let line = lines[i].as_str();
        let ghost before = text::views(trailers@);
        proof {
            let next = all.take(i + 1 - from);
            assert(next.drop_last() =~= all.take(i - from));
            assert(next.last() == line@);
        }
        if is_continuation_line(line) {
            match trailers.pop() {
                Some((token, value)) => {
                    let mut longer = value;
                    longer.push('\n');
                    longer.append(line);
                    trailers.push((token, longer));
                    assert(text::views(trailers@) =~= before.drop_last().push(
                        (before.last().0, before.last().1.push('\n') + line@),
                    ));
                },
                None => {},
            }
        } else {
            let chars = chars_of(line);
            match find_char(&chars, ':') {
                Some(k) => {
                    proof {
                        text::lemma_find_char(line@, ':', 0);
                    }
                    let token = text_between(&chars, 0, k);
                    let value = text_between(&chars, k + 1, chars.len());
                    assert(token@ =~= line@.take(k as int));
                    assert(value@ =~= line@.skip(k + 1));
                    trailers.push((token, trim_text(value.as_str())));
                    assert(text::views(trailers@) =~= before.push(
                        (line@.take(k as int), text::trim(line@.skip(k + 1))),
                    ));
                },
                None => {},
            }
        }
        i = i + 1;
    }
    assert(all.take(lines@.len() - from) =~= all);
    trailers
}

/// Whether the lines from `from` on are a trailer block.
fn is_trailer_block(lines: &Vec<String>, from: usize) -> (r: bool)
    requires
        from <= lines@.len(),
    ensures
        r == trailer_block(text::views(lines@).skip(from as int)),
{
    let ghost all = text::views(lines@).skip(from as int);
    let mut any = false;
    let mut i: usize = from;
    while i < lines.len()
        invariant
            from <= i <= lines@.len(),
            all == text::views(lines@).skip(from as int),
            any == exists|k: int| 0 <= k < i - from && trailer_line(#[trigger] all[k]),
            forall|k: int|
                0 <= k < i - from ==> trailer_line(#[trigger] all[k]) || continuation_line(all[k]),
        decreases lines@.len() - i,
    {
        let line = lines[i].as_str();
        assert(all[i - from] == line@);
        if is_trailer_line(line) {
            any = true;
        } else if !is_continuation_line(line) {
            assert(!trailer_line(all[i - from]) && !continuation_line(all[i - from]));
            return false;
        }
        i = i + 1;
    }
    any
}

impl CommitMessage {
    /// Parses a raw commit message.
    ///
    /// The trailer block is the final paragraph, and only if *every* line in it
    /// is a trailer or a continuation. A message that is only a subject line
    /// never yields trailers, so a subject like `Fix: the thing` is kept as a
    /// subject rather than being eaten as a trailer.
    pub fn parse(raw: &str) -> (r: Self)
        ensures
            r@ == parsed(raw@),
    {
        let chars = normalize(raw);
        let (a, b) = stripped(&chars, '\n');
        let inner = chars_of(text_between(&chars, a, b).as_str());
        let lines = lines_of(&inner);
        let ghost all = text::views(lines@);
        let subject = trim_end_text(lines[0].as_str());

        // The blank lines immediately after the subject.
        let mut start: usize = 1;
        while start < lines.len() && blank(lines[start].as_str())
            invariant
                1 <= start <= lines@.len(),
                all == text::views(lines@),
                skip_blank(all.skip(start as int)) == skip_blank(all.skip(1)),
            decreases lines@.len() - start,
        {
            assert(all.skip(start as int).skip(1) =~= all.skip(start + 1));
            start = start + 1;
        }
        let ghost rest = skip_blank(all.skip(1));
        assert(rest == all.skip(start as int)) by {
            if start < lines@.len() {
                assert(all.skip(start as int)[0] == lines@[start as int]@);
            }
        }

        // The start of the final paragraph.
        let mut para: usize = lines.len();
        while para > start && !blank(lines[para - 1].as_str())
            invariant
                1 <= start <= para <= lines@.len(),
                all == text::views(lines@),
                rest == all.skip(start as int),
                forall|k: int| para <= k < lines@.len() ==> !text::is_blank(#[trigger] all[k]),
            decreases para,
        {
            para = para - 1;
        }
        proof {
            lemma_last_paragraph(rest, para - start);
            assert(rest.skip(para - start) =~= all.skip(para as int));
            assert(rest.take(para - start) =~= all.subrange(start as int, para as int));
            assert(rest =~= all.subrange(start as int, all.len() as int));
        }
        if is_trailer_block(&lines, para) {
            let trailers = read_trailers(&lines, para);
            let body = paragraph_text(&lines, start, para);
            CommitMessage { subject, body, trailers }
        } else {
            let body = paragraph_text(&lines, start, lines.len());
            let r = CommitMessage { subject, body, trailers: Vec::new() };
            assert(r@.trailers =~= Seq::empty());
            r
        }
    }

    /// Renders back to a commit message, in `git interpret-trailers` layout.
    pub fn render(&self) -> (r: String)
        ensures
            r@ == rendered(self@),
    {
        let mut out = trim_end_text(self.subject.as_str());
        out.append("\n");
        let ghost subject = text::trim_end(self@.subject) + "\n"@;

        if !blank(self.body.as_str()) {
            out.append("\n");
            out.append(trim_text(self.body.as_str()).as_str());
            out.append("\n");
            assert(out@ =~= subject + ("\n"@ + text::trim(self@.body) + "\n"@));
        } else {
            assert(out@ =~= subject + Seq::empty());
        }
        let ghost front = out@;

        if self.trailers.len() > 0 {
            out.append("\n");
            let mut i: usize = 0;
            let ghost all = text::views(self.trailers@);
            assert(all.take(0) =~= Seq::empty());
            assert(out@ =~= front + ("\n"@ + trailers_text(all.take(0))));
            while i < self.trailers.len()
                invariant
                    i <= self.trailers@.len(),
                    all == text::views(self.trailers@),
                    out@ == front + ("\n"@ + trailers_text(all.take(i as int))),
                decreases self.trailers@.len() - i,
            {
                let trailer = &self.trailers[i];
                out.append(trailer.0.as_str());
                out.append(": ");
                out.append(trailer.1.as_str());
                out.append("\n");
                proof {
                    assert(all[i as int] == (trailer.0@, trailer.1@));
                    assert(all.take(i + 1).drop_last() =~= all.take(i as int));
                    assert(out@ =~= front + ("\n"@ + trailers_text(all.take(i + 1))));
                }
                i = i + 1;
            }
            assert(all.take(i as int) =~= all);
        } else {
            assert(out@ =~= front + Seq::empty());
        }
        out
    }

    /// Where the first trailer with the given key stands.
    fn position(&self, key: &str) -> (r: Option<usize>)
        ensures
            match r {
                Some(i) => i < self.trailers@.len() && trailer_index(self@.trailers, key@, 0)
                    == Some(i as int),
                None => trailer_index(self@.trailers, key@, 0) is None,
            },
    {
        let mut i: usize = 0;
        while i < self.trailers.len()
            invariant
                i <= self.trailers@.len(),
                trailer_index(self@.trailers, key@, i as int) == trailer_index(
                    self@.trailers,
                    key@,
                    0,
                ),
            decreases self.trailers@.len() - i,
        {
            if matches_trailer_key(self.trailers[i].0.as_str(), key) {
                return Some(i);
            }
            i = i + 1;
        }
        None
    }

    /// Looks up a trailer value, case-insensitively on the key.
    pub fn get(&self, key: &str) -> (r: Option<&str>)
        ensures
            text::view_of(r) == trailer_value(self@, key@),
    {
        match self.position(key) {
            Some(i) => Some(self.trailers[i].1.as_str()),
            None => None,
        }
    }

    /// Whether the message holds the trailer that `spr` wrote.
    pub fn has_legacy_spr_trailer(&self) -> (r: bool)
        ensures
            r == legacy_trailer(self@),
    {
        let mut i: usize = 0;
        while i < self.trailers.len()
            invariant
                i <= self.trailers@.len(),
                forall|k: int|
                    0 <= k < i ==> !text::same_ignoring_case(
                        (#[trigger] self@.trailers[k]).0,
                        LEGACY_SPR_PULL_REQUEST@,
                    ),
            decreases self.trailers@.len() - i,
        {
            if same_text_ignoring_case(self.trailers[i].0.as_str(), LEGACY_SPR_PULL_REQUEST) {
                assert(text::same_ignoring_case(
                    self@.trailers[i as int].0,
                    LEGACY_SPR_PULL_REQUEST@,
                ));
                return true;
            }
            i = i + 1;
        }
        false
    }

    /// Inserts or replaces a trailer, keeping its position if already present.
    pub fn set(&mut self, key: &str, value: &str)
        ensures
            final(self)@ == with_trailer(old(self)@, key@, value@),
    {
        let entry = (key.to_owned(), value.to_owned());
        match self.position(key) {
            Some(i) => {
                self.trailers.set(i, entry);
                assert(self@.trailers =~= old(self)@.trailers.update(i as int, (key@, value@)));
            },
            None => {
                self.trailers.push(entry);
            },
        }
    }

    /// Removes a trailer, returning whether anything was removed.
    pub fn remove(&mut self, key: &str) -> (r: bool)
        ensures
            final(self)@ == without_trailer(old(self)@, key@),
            r == (final(self)@.trailers.len() != old(self)@.trailers.len()),
    {
        let before = self.trailers.len();
        let mut kept: Vec<(String, String)> = Vec::new();
        let mut i: usize = 0;
        let ghost all = text::views(self.trailers@);
        assert(all.take(0) =~= Seq::empty());
        assert(text::views(kept@) =~= Seq::empty());
        while i < self.trailers.len()
            invariant
                i <= self.trailers@.len(),
                all == text::views(self.trailers@),
                text::views(kept@) == dropped(all.take(i as int), key@),
            decreases self.trailers@.len() - i,
        {
            assert(all.take(i + 1).drop_last() =~= all.take(i as int));
            if !matches_trailer_key(self.trailers[i].0.as_str(), key) {
                kept.push((self.trailers[i].0.clone(), self.trailers[i].1.clone()));
            }
            i = i + 1;
        }
        assert(all.take(i as int) =~= all);
        self.trailers = kept;
        self.trailers.len() != before
    }

    /// Renders the message for a commit on the branch of a pull request:
    /// without the trailers of the review (`Depends-On`, `Pull-Request`), with
    /// the subject, the body and all other trailers (`Signed-off-by`, etc.).
    pub fn clean_for_branch(&self) -> (r: String)
        ensures
            r@ == rendered(for_branch(self@)),
    {
        let mut copy = self.clone();
        let _ = copy.remove(DEPENDS_ON);
        let _ = copy.remove(PULL_REQUEST);
        copy.render()
    }
}

impl Clone for CommitMessage {
    fn clone(&self) -> (r: Self)
        ensures
            r@ == self@,
    {
        let mut trailers: Vec<(String, String)> = Vec::new();
        let mut i: usize = 0;
        while i < self.trailers.len()
            invariant
                i <= self.trailers@.len(),
                text::views(trailers@) == self@.trailers.take(i as int),
            decreases self.trailers@.len() - i,
        {
            trailers.push((self.trailers[i].0.clone(), self.trailers[i].1.clone()));
            assert(self@.trailers.take(i as int).push(self@.trailers[i as int])
                =~= self@.trailers.take(i + 1));
            i = i + 1;
        }
        assert(self@.trailers.take(i as int) =~= self@.trailers);
        CommitMessage { subject: self.subject.clone(), body: self.body.clone(), trailers }
    }
}

impl Default for CommitMessage {
    fn default() -> (r: Self)
        ensures
            r@ == (MessageView {
                subject: Seq::empty(),
                body: Seq::empty(),
                trailers: Seq::empty(),
            }),
    {
        let r = CommitMessage { subject: String::new(), body: String::new(), trailers: Vec::new() };
        assert(r@.trailers =~= Seq::empty());
        r
    }
}

/// A trailer that was just set is the one that is found.
pub proof fn law_get_after_set(m: MessageView, key: Seq<char>, value: Seq<char>)
    ensures
        trailer_value(with_trailer(m, key, value), key) == Some(value),
{
    lemma_trailer_index(m.trailers, key, 0);
    let after = with_trailer(m, key, value);
    lemma_trailer_index(after.trailers, key, 0);
    match trailer_index(m.trailers, key, 0) {
        Some(i) => {
            assert(after.trailers[i] == (key, value));
            assert forall|k: int| 0 <= k < i implies !key_matches(
                (#[trigger] after.trailers[k]).0,
                key,
            ) by {
                assert(after.trailers[k] == m.trailers[k]);
            }
        },
        None => {
            let last = m.trailers.len() as int;
            assert(after.trailers[last] == (key, value));
            assert forall|k: int| 0 <= k < last implies !key_matches(
                (#[trigger] after.trailers[k]).0,
                key,
            ) by {
                assert(after.trailers[k] == m.trailers[k]);
            }
        },
    }
}

/// Setting a trailer leaves the trailers with other keys where they are.
pub proof fn law_set_keeps_others(
    m: MessageView,
    key: Seq<char>,
    value: Seq<char>,
    other: Seq<char>,
)
    requires
        forall|k: Seq<char>| key_matches(k, key) ==> !#[trigger] key_matches(k, other),
    ensures
        trailer_value(with_trailer(m, key, value), other) == trailer_value(m, other),
        with_trailer(m, key, value).trailers.len() <= m.trailers.len() + 1,
        with_trailer(m, key, value).subject == m.subject,
        with_trailer(m, key, value).body == m.body,
{
    let after = with_trailer(m, key, value);
    lemma_trailer_index(m.trailers, key, 0);
    lemma_trailer_index(m.trailers, other, 0);
    lemma_trailer_index(after.trailers, other, 0);
    assert(key_matches(key, key));
    assert(!key_matches(key, other));
    match trailer_index(m.trailers, key, 0) {
        Some(i) => {
            assert(!key_matches(m.trailers[i].0, other));
            assert(after.trailers[i].0 == key);
            assert forall|k: int| 0 <= k < m.trailers.len() && k != i implies
                #[trigger] after.trailers[k] == m.trailers[k] by {}
        },
        None => {
            assert(after.trailers[m.trailers.len() as int].0 == key);
            assert forall|k: int| 0 <= k < m.trailers.len() implies
                #[trigger] after.trailers[k] == m.trailers[k] by {}
        },
    }
    match trailer_index(m.trailers, other, 0) {
        Some(j) => {
            assert(after.trailers[j] == m.trailers[j]);
        },
        None => {},
    }
    match trailer_index(after.trailers, other, 0) {
        Some(j) => {
            assert(key_matches(after.trailers[j].0, other));
            assert(j < m.trailers.len());
            assert(after.trailers[j] == m.trailers[j]);
        },
        None => {},
    }
}

/// A removed trailer is not found any more, and removing it once more changes
/// nothing.
pub proof fn law_get_after_remove(m: MessageView, key: Seq<char>)
    ensures
        trailer_value(without_trailer(m, key), key) is None,
        without_trailer(without_trailer(m, key), key) == without_trailer(m, key),
{
    lemma_dropped(m.trailers, key);
    lemma_trailer_index(dropped(m.trailers, key), key, 0);
    lemma_dropped_id(dropped(m.trailers, key), key);
}

/// A message for a branch has neither of the trailers of the review, and holds
/// every other trailer in order, with subject and body as they were.
pub proof fn law_for_branch(m: MessageView)
    ensures
        trailer_value(for_branch(m), DEPENDS_ON@) is None,
        trailer_value(for_branch(m), PULL_REQUEST@) is None,
        for_branch(m).subject == m.subject,
        for_branch(m).body == m.body,
        for_branch(m).trailers == dropped(dropped(m.trailers, DEPENDS_ON@), PULL_REQUEST@),
{
    let first = dropped(m.trailers, DEPENDS_ON@);
    let second = dropped(first, PULL_REQUEST@);
    lemma_dropped(m.trailers, DEPENDS_ON@);
    lemma_dropped(first, PULL_REQUEST@);
    lemma_trailer_index(second, PULL_REQUEST@, 0);
    lemma_trailer_index(second, DEPENDS_ON@, 0);
    assert forall|k: int| 0 <= k < second.len() implies !key_matches(
        (#[trigger] second[k]).0,
        DEPENDS_ON@,
    ) by {
        assert(first.contains(second[k]));
    }
}

proof fn lemma_trailer_index(trailers: Seq<(Seq<char>, Seq<char>)>, key: Seq<char>, from: int)
    requires
        0 <= from,
    ensures
        match trailer_index(trailers, key, from) {
            Some(i) => from <= i < trailers.len() && key_matches(trailers[i].0, key) && forall|k: int|
                from <= k < i ==> !key_matches((#[trigger] trailers[k]).0, key),
            None => forall|k: int|
                from <= k < trailers.len() ==> !key_matches((#[trigger] trailers[k]).0, key),
        },
    decreases trailers.len() - from,
{
    if from < trailers.len() && !key_matches(trailers[from].0, key) {
        lemma_trailer_index(trailers, key, from + 1);
    }
}

proof fn lemma_dropped(trailers: Seq<(Seq<char>, Seq<char>)>, key: Seq<char>)
    ensures
        forall|k: int|
            0 <= k < dropped(trailers, key).len() ==> !key_matches(
                (#[trigger] dropped(trailers, key)[k]).0,
                key,
            ) && trailers.contains(dropped(trailers, key)[k]),
    decreases trailers.len(),
{
    if trailers.len() > 0 {
        let front = trailers.drop_last();
        lemma_dropped(front, key);
        let all = dropped(trailers, key);
        assert forall|k: int| 0 <= k < all.len() implies !key_matches((#[trigger] all[k]).0, key)
            && trailers.contains(all[k]) by {
            if k < dropped(front, key).len() {
                assert(all[k] == dropped(front, key)[k]);
                let j = choose|j: int| 0 <= j < front.len() && front[j] == all[k];
                assert(trailers[j] == all[k]);
            } else {
                assert(all[k] == trailers[trailers.len() - 1]);
            }
        }
    }
}

proof fn lemma_dropped_id(trailers: Seq<(Seq<char>, Seq<char>)>, key: Seq<char>)
    requires
        forall|k: int| 0 <= k < trailers.len() ==> !key_matches((#[trigger] trailers[k]).0, key),
    ensures
        dropped(trailers, key) == trailers,
    decreases trailers.len(),
{
    if trailers.len() > 0 {
        let front = trailers.drop_last();
        assert forall|k: int| 0 <= k < front.len() implies !key_matches(
            (#[trigger] front[k]).0,
            key,
        ) by {
            assert(front[k] == trailers[k]);
        }
        lemma_dropped_id(front, key);
        assert(!key_matches(trailers[trailers.len() - 1].0, key));
        assert(front.push(trailers.last()) =~= trailers);
    } else {
        assert(dropped(trailers, key) =~= trailers);
    }
}

/// The last paragraph starts after the last blank line.
proof fn lemma_last_paragraph(lines: Seq<Seq<char>>, start: int)
    requires
        0 <= start <= lines.len(),
        start == 0 || text::is_blank(lines[start - 1]),
        forall|k: int| start <= k < lines.len() ==> !text::is_blank(#[trigger] lines[k]),
    ensures
        last_paragraph(lines) == start,
    decreases lines.len(),
{
    if lines.len() > 0 && start < lines.len() - 1 {
        assert(!text::is_blank(lines[lines.len() - 2]));
        assert forall|k: int| start <= k < lines.len() - 1 implies !text::is_blank(
            #[trigger] lines.drop_last()[k],
        ) by {
            assert(!text::is_blank(lines[k]));
        }
        lemma_last_paragraph(lines.drop_last(), start);
    } else if start == lines.len() - 1 {
        assert(!text::is_blank(lines[start]));
    }
}

/// A value that can be told from what stands around it: its first line is
/// trimmed, and every other line goes on with it.
pub open spec fn value_fits(value: Seq<char>) -> bool {
    let lines = text::split_lines(value);
    &&& text::trim(lines[0]) == lines[0]
    &&& forall|i: int|
        1 <= i < lines.len() ==> continuation_line(#[trigger] lines[i]) && !text::is_blank(
            lines[i],
        )
}

/// A message in the form that a parsed one has: a subject of one line, a
/// trimmed body that does not end in what reads as trailers where there are
/// none, trailers that read as such, and no carriage return before a line feed.
pub open spec fn canonical(m: MessageView) -> bool {
    &&& m.subject.len() > 0
    &&& text::trim_end(m.subject) == m.subject
    &&& forall|i: int| 0 <= i < m.subject.len() ==> #[trigger] m.subject[i] != '\n'
    &&& text::trim(m.body) == m.body
    &&& forall|i: int|
        0 <= i < m.trailers.len() ==> is_token((#[trigger] m.trailers[i]).0) && value_fits(
            m.trailers[i].1,
        )
    &&& m.trailers.len() == 0 ==> ({
        let lines = text::split_lines(m.body);
        !trailer_block(lines.skip(last_paragraph(lines)))
    })
    &&& normalized(rendered(m)) == rendered(m)
}

/// The lines of a trailer.
pub open spec fn lines_of_trailer(trailer: (Seq<char>, Seq<char>)) -> Seq<Seq<char>> {
    text::split_lines(trailer.0 + ": "@ + trailer.1)
}

/// The lines of a trailer block.
pub open spec fn lines_of_trailers(trailers: Seq<(Seq<char>, Seq<char>)>) -> Seq<Seq<char>>
    decreases trailers.len(),
{
    if trailers.len() == 0 {
        Seq::empty()
    } else {
        lines_of_trailers(trailers.drop_last()) + lines_of_trailer(trailers.last())
    }
}

proof fn lemma_token(token: Seq<char>)
    requires
        is_token(token),
    ensures
        token.len() > 0,
        !text::is_space(token[0]),
        forall|i: int| 0 <= i < token.len() ==> #[trigger] token[i] != ':' && token[i] != '\n',
{
    if text::same_ignoring_case(token, LEGACY_SPR_PULL_REQUEST@) {
        reveal_strlit("Pull Request");
        let lit = LEGACY_SPR_PULL_REQUEST@;
        let a = token.map_values(|c: char| text::lower(c));
        let b = lit.map_values(|c: char| text::lower(c));
        assert(a.len() == token.len() && b.len() == lit.len());
        assert forall|i: int| 0 <= i < token.len() implies #[trigger] token[i] != ':' && token[i]
            != '\n' by {
            assert(a[i] == b[i]);
            assert(text::lower(token[i]) == text::lower(lit[i]));
        }
        assert(a[0] == b[0]);
        assert(text::lower(token[0]) == text::lower(lit[0]));
    }
}

/// The lines of a trailer are its key with the first line of its value, and the
/// other lines of its value.
proof fn lemma_lines_of_trailer(trailer: (Seq<char>, Seq<char>))
    requires
        is_token(trailer.0),
        value_fits(trailer.1),
    ensures
        ({
            let lines = lines_of_trailer(trailer);
            let value = text::split_lines(trailer.1);
            &&& lines.len() == value.len() > 0
            &&& lines[0] == trailer.0 + ": "@ + value[0]
            &&& forall|i: int| 1 <= i < lines.len() ==> #[trigger] lines[i] == value[i]
            &&& trailer_line(lines[0]) && !continuation_line(lines[0])
            &&& text::find_char_from(lines[0], ':', 0) == Some(trailer.0.len() as int)
            &&& lines[0].take(trailer.0.len() as int) == trailer.0
            &&& text::trim(lines[0].skip(trailer.0.len() as int + 1)) == value[0]
            &&& forall|i: int| 0 <= i < lines.len() ==> !text::is_blank(#[trigger] lines[i])
            &&& forall|i: int|
                0 <= i < lines.len() ==> trailer_line(#[trigger] lines[i]) || continuation_line(
                    lines[i],
                )
        }),
{
    let (key, value) = trailer;
    reveal_strlit(": ");
    lemma_token(key);
    let prefix = key + ": "@;
    assert forall|i: int| 0 <= i < prefix.len() implies #[trigger] prefix[i] != '\n' by {
        if i < key.len() {
            assert(prefix[i] == key[i]);
        }
    }
    text::lemma_split_prefix(prefix, value);
    text::lemma_split_some(value);
    let lines = lines_of_trailer(trailer);
    let parts = text::split_lines(value);
    let first = lines[0];
    assert(first == prefix + parts[0]);
    assert(first[key.len() as int] == ':');
    text::lemma_find_char(first, ':', 0);
    match text::find_char_from(first, ':', 0) {
        Some(k) => {
            if k < key.len() {
                assert(first[k] == key[k]);
            }
            assert(k == key.len());
        },
        None => {},
    }
    assert(first.take(key.len() as int) =~= key);
    let rest = first.skip(key.len() as int + 1);
    assert(rest =~= seq![' '] + parts[0]);
    assert(rest[0] == ' ');
    assert(rest.skip(1) =~= parts[0]);
    assert(text::trim(rest) == text::trim(parts[0]));
    assert(first[0] == key[0]);
    text::lemma_not_blank(first);
    assert forall|i: int| 0 <= i < lines.len() implies !text::is_blank(#[trigger] lines[i]) by {
        if i > 0 {
            assert(lines[i] == parts[i]);
        }
    }
    assert forall|i: int| 0 <= i < lines.len() implies trailer_line(#[trigger] lines[i])
        || continuation_line(lines[i]) by {
        if i > 0 {
            assert(lines[i] == parts[i]);
        }
    }
}

/// Reading the lines of one more trailer gives one more trailer.
proof fn lemma_read_trailer(above: Seq<Seq<char>>, trailer: (Seq<char>, Seq<char>), n: int)
    requires
        is_token(trailer.0),
        value_fits(trailer.1),
        1 <= n <= lines_of_trailer(trailer).len(),
    ensures
        block_trailers(above + lines_of_trailer(trailer).take(n)) == block_trailers(above).push(
            (trailer.0, text::join(text::split_lines(trailer.1).take(n), seq!['\n'])),
        ),
    decreases n,
{
    lemma_lines_of_trailer(trailer);
    let lines = lines_of_trailer(trailer);
    let value = text::split_lines(trailer.1);
    let all = above + lines.take(n);
    assert(all.last() == lines[n - 1]);
    if n == 1 {
        assert(all.drop_last() =~= above);
        assert(value.take(1)[0] == value[0]);
        assert(text::join(value.take(1), seq!['\n']) == value[0]);
    } else {
        assert(all.drop_last() =~= above + lines.take(n - 1));
        lemma_read_trailer(above, trailer, n - 1);
        assert(lines[n - 1] == value[n - 1]);
        assert(continuation_line(value[n - 1]));
        let before = block_trailers(above + lines.take(n - 1));
        let joined = text::join(value.take(n - 1), seq!['\n']);
        assert(before.drop_last() =~= block_trailers(above));
        assert(value.take(n).drop_last() =~= value.take(n - 1));
        assert(value.take(n).last() == value[n - 1]);
        assert(joined.push('\n') + value[n - 1] =~= joined + seq!['\n'] + value[n - 1]);
    }
}

/// Reading the lines of a trailer block gives its trailers.
proof fn lemma_read_trailers(trailers: Seq<(Seq<char>, Seq<char>)>)
    requires
        forall|i: int|
            0 <= i < trailers.len() ==> is_token((#[trigger] trailers[i]).0) && value_fits(
                trailers[i].1,
            ),
    ensures
        block_trailers(lines_of_trailers(trailers)) == trailers,
        forall|i: int|
            0 <= i < lines_of_trailers(trailers).len() ==> !text::is_blank(
                #[trigger] lines_of_trailers(trailers)[i],
            ),
        forall|i: int|
            0 <= i < lines_of_trailers(trailers).len() ==> trailer_line(
                #[trigger] lines_of_trailers(trailers)[i],
            ) || continuation_line(lines_of_trailers(trailers)[i]),
        trailers.len() > 0 ==> lines_of_trailers(trailers).len() > 0 && trailer_line(
            lines_of_trailers(trailers)[0],
        ),
    decreases trailers.len(),
{
    if trailers.len() > 0 {
        let front = trailers.drop_last();
        let last = trailers[trailers.len() - 1];
        assert forall|i: int| 0 <= i < front.len() implies is_token((#[trigger] front[i]).0)
            && value_fits(front[i].1) by {
            assert(front[i] == trailers[i]);
        }
        lemma_read_trailers(front);
        lemma_lines_of_trailer(last);
        let above = lines_of_trailers(front);
        let lines = lines_of_trailer(last);
        let value = text::split_lines(last.1);
        assert(lines.take(lines.len() as int) =~= lines);
        assert(value.take(lines.len() as int) =~= value);
        lemma_read_trailer(above, last, lines.len() as int);
        text::lemma_join_split(last.1);
        assert(front.push((last.0, last.1)) =~= trailers);
        let all = above + lines;
        assert forall|i: int| 0 <= i < all.len() implies !text::is_blank(#[trigger] all[i]) && (
        trailer_line(all[i]) || continuation_line(all[i])) by {
            if i < above.len() {
                assert(all[i] == above[i]);
            } else {
                assert(all[i] == lines[i - above.len()]);
            }
        }
        if front.len() == 0 {
            assert(all[0] == lines[0]);
        } else {
            assert(all[0] == above[0]);
        }
    } else {
        assert(block_trailers(lines_of_trailers(trailers)) =~= trailers);
    }
}

/// A trailer block is its lines, each with a line feed at its end.
proof fn lemma_split_trailers(trailers: Seq<(Seq<char>, Seq<char>)>)
    requires
        trailers.len() > 0,
    ensures
        trailers_text(trailers).len() > 0,
        trailers_text(trailers).last() == '\n',
        text::split_lines(trailers_text(trailers).drop_last()) == lines_of_trailers(trailers),
    decreases trailers.len(),
{
    reveal_strlit("\n");
    let front = trailers.drop_last();
    let last = trailers.last();
    let line = last.0 + ": "@ + last.1;
    let whole = trailers_text(trailers);
    assert(trailer_text(last) =~= line.push('\n'));
    assert(whole.last() == '\n');
    if front.len() == 0 {
        assert(trailers_text(front) =~= Seq::<char>::empty());
        assert(lines_of_trailers(front) =~= Seq::<Seq<char>>::empty());
        assert(whole.drop_last() =~= line);
        assert(lines_of_trailers(trailers) =~= lines_of_trailer(last));
    } else {
        lemma_split_trailers(front);
        let above = trailers_text(front);
        assert(above.drop_last().push('\n') =~= above);
        assert(whole.drop_last() =~= above.drop_last().push('\n') + line);
        text::lemma_split_at_feed(above.drop_last(), line);
    }
}

/// A text whose last character is one line feed that stands alone.
proof fn lemma_strip_one(s: Seq<char>)
    requires
        s.len() >= 2,
        s[0] != '\n',
        s.last() == '\n',
        s[s.len() - 2] != '\n',
    ensures
        text::strip_trailing(text::strip_leading(s, '\n'), '\n') == s.drop_last(),
{
    assert(text::strip_leading(s, '\n') == s);
    assert(s.drop_last().last() == s[s.len() - 2]);
    assert(text::strip_trailing(s.drop_last(), '\n') == s.drop_last());
}

/// The last character of the last line of a value that fits is no line feed.
proof fn lemma_value_end(value: Seq<char>)
    requires
        value_fits(value),
        value.len() > 0,
    ensures
        value.last() != '\n',
{
    if value.last() == '\n' {
        let before = text::split_lines(value.drop_last());
        text::lemma_split_some(value.drop_last());
        let lines = text::split_lines(value);
        let last = lines.len() - 1;
        assert(lines[last] =~= Seq::<char>::empty());
        assert(lines.len() == before.len() + 1);
        assert(continuation_line(lines[last]));
    }
}

/// The lines that a rendered message is read as.
pub open spec fn rendered_lines(m: MessageView) -> Seq<Seq<char>> {
    let body = if m.body.len() == 0 {
        Seq::empty()
    } else {
        seq![Seq::<char>::empty()] + text::split_lines(m.body)
    };
    let trailers = if m.trailers.len() == 0 {
        Seq::empty()
    } else {
        seq![Seq::<char>::empty()] + lines_of_trailers(m.trailers)
    };
    seq![m.subject] + body + trailers
}

/// A rendered message is its lines.
proof fn lemma_rendered_lines(m: MessageView)
    requires
        canonical(m),
    ensures
        message_lines(rendered(m)) == rendered_lines(m),
{
    reveal_strlit("\n");
    let raw = rendered(m);
    let subject = m.subject;
    let empty = Seq::<char>::empty();
    let feed = seq!['\n'];
    assert("\n"@ =~= feed);
    text::lemma_split_prefix(subject, empty);
    assert(subject + empty =~= subject);
    assert(text::split_lines(empty) =~= seq![empty]);
    assert(text::split_lines(subject) =~= seq![subject]);
    assert(subject[0] != '\n');
    assert(subject[subject.len() - 1] != '\n');
    assert(text::is_blank(m.body) == (m.body.len() == 0));
    text::lemma_trim(m.body);
    // The text above the trailers, without its last line feed.
    let head = if m.body.len() == 0 {
        subject
    } else {
        subject.push('\n').push('\n') + m.body
    };
    let head_lines = if m.body.len() == 0 {
        seq![subject]
    } else {
        seq![subject, empty] + text::split_lines(m.body)
    };
    if m.body.len() > 0 {
        text::lemma_split_at_feed(subject, empty);
        assert(subject.push('\n') + empty =~= subject.push('\n'));
        text::lemma_split_at_feed(subject.push('\n'), m.body);
        assert(text::split_lines(head) =~= head_lines);
        assert(head.last() == m.body.last());
        assert(m.body.last() != '\n');
    }
    assert(text::split_lines(head) == head_lines);
    assert(head.last() != '\n');
    if m.trailers.len() == 0 {
        assert(raw =~= head.push('\n'));
        assert(raw[raw.len() - 2] == head.last());
        lemma_strip_one(raw);
        assert(raw.drop_last() =~= head);
        assert(rendered_lines(m) =~= head_lines);
    } else {
        lemma_split_trailers(m.trailers);
        let block = trailers_text(m.trailers);
        let last = m.trailers[m.trailers.len() - 1];
        reveal_strlit(": ");
        let line = last.0 + ": "@ + last.1;
        assert(m.trailers.last() == last);
        assert(trailer_text(last) =~= line.push('\n'));
        if last.1.len() > 0 {
            lemma_value_end(last.1);
            assert(line.last() == last.1.last());
        } else {
            assert(line =~= last.0 + ": "@);
            assert(line.last() == ' ');
        }
        assert(raw =~= head.push('\n').push('\n') + block);
        assert(block =~= trailers_text(m.trailers.drop_last()) + line.push('\n'));
        assert(raw[raw.len() - 2] == line.last());
        lemma_strip_one(raw);
        assert(raw.drop_last() =~= head.push('\n').push('\n') + block.drop_last());
        text::lemma_split_at_feed(head, empty);
        assert(head.push('\n') + empty =~= head.push('\n'));
        text::lemma_split_at_feed(head.push('\n'), block.drop_last());
        assert(text::split_lines(raw.drop_last()) =~= rendered_lines(m));
    }
}

/// What is written out is read in again: rendering a message in canonical form
/// and parsing the result gives the same message.
pub proof fn law_parse_after_render(m: MessageView)
    requires
        canonical(m),
    ensures
        parsed(rendered(m)) == m,
{
    lemma_rendered_lines(m);
    lemma_read_trailers(m.trailers);
    let lines = rendered_lines(m);
    let empty = Seq::<char>::empty();
    let body_lines = text::split_lines(m.body);
    let block = lines_of_trailers(m.trailers);
    assert(lines[0] == m.subject);
    assert(text::is_blank(empty));
    text::lemma_split_some(m.body);
    text::lemma_join_split(m.body);
    text::lemma_trim(m.body);
    let after = lines.skip(1);
    if m.body.len() == 0 && m.trailers.len() == 0 {
        assert(after =~= Seq::<Seq<char>>::empty());
        assert(skip_blank(after) == after);
        assert(after.skip(last_paragraph(after)) =~= Seq::<Seq<char>>::empty());
        assert(!trailer_block(after.skip(last_paragraph(after))));
        assert(text::join(after, seq!['\n']) =~= m.body);
        assert(parsed(rendered(m)).trailers =~= m.trailers);
    } else {
        assert(after[0] == empty);
        let rest = after.skip(1);
        assert(skip_blank(after) == skip_blank(rest));
        if m.body.len() == 0 {
            assert(rest =~= block);
            assert(!text::is_blank(block[0]));
            lemma_last_paragraph(block, 0);
            assert(block.skip(0) =~= block);
            assert(trailer_block(block));
            assert(block.take(0) =~= Seq::<Seq<char>>::empty());
            assert(text::join(block.take(0), seq!['\n']) =~= m.body);
        } else {
            text::lemma_first_line(m.body);
            if m.trailers.len() == 0 {
                assert(rest =~= body_lines);
                assert(parsed(rendered(m)).trailers =~= m.trailers);
            } else {
                let start = body_lines.len() as int + 1;
                assert(rest =~= body_lines + seq![empty] + block);
                assert(rest[0] == body_lines[0]);
                assert forall|k: int| start <= k < rest.len() implies !text::is_blank(
                    #[trigger] rest[k],
                ) by {
                    assert(rest[k] == block[k - start]);
                }
                assert(rest[start - 1] == empty);
                lemma_last_paragraph(rest, start);
                assert(rest.skip(start) =~= block);
                assert(trailer_block(block));
                let above = rest.take(start);
                assert(above =~= body_lines.push(empty));
                assert(above.drop_last() =~= body_lines);
                assert(text::join(above, seq!['\n']) =~= m.body + seq!['\n'] + empty);
                assert(m.body + seq!['\n'] + empty =~= m.body + seq!['\n']);
                assert(text::trim_start(m.body + seq!['\n']) == m.body + seq!['\n']) by {
                    assert((m.body + seq!['\n'])[0] == m.body[0]);
                }
                text::lemma_trim_end_drops(m.body, seq!['\n']);
            }
        }
    }
}

/// What is stored in a trailer is read back: a trailer that is set in a message
/// is there after the message was rendered and parsed, and so is all the rest of
/// the message.
pub proof fn law_stored_trailer_is_read_back(m: MessageView, key: Seq<char>, value: Seq<char>)
    requires
        canonical(m),
        is_token(key),
        value_fits(value),
        normalized(rendered(with_trailer(m, key, value))) == rendered(with_trailer(m, key, value)),
    ensures
        parsed(rendered(with_trailer(m, key, value))) == with_trailer(m, key, value),
        trailer_value(parsed(rendered(with_trailer(m, key, value))), key) == Some(value),
{
    let after = with_trailer(m, key, value);
    lemma_trailer_index(m.trailers, key, 0);
    assert forall|i: int| 0 <= i < after.trailers.len() implies is_token(
        (#[trigger] after.trailers[i]).0,
    ) && value_fits(after.trailers[i].1) by {
        if i < m.trailers.len() {
            assert(after.trailers[i] == m.trailers[i] || after.trailers[i] == (key, value));
        }
    }
    law_parse_after_render(after);
    law_get_after_set(m, key, value);
}

proof fn lemma_index_of_last(
    trailers: Seq<(Seq<char>, Seq<char>)>,
    last: (Seq<char>, Seq<char>),
    key: Seq<char>,
)
    ensures
        trailer_index(trailers.push(last), key, 0) == match trailer_index(trailers, key, 0) {
            Some(i) => Some(i),
            None => if key_matches(last.0, key) {
                Some(trailers.len() as int)
            } else {
                None
            },
        },
{
    let all = trailers.push(last);
    lemma_trailer_index(trailers, key, 0);
    lemma_trailer_index(all, key, 0);
    assert forall|k: int| 0 <= k < trailers.len() implies all[k] == trailers[k] by {}
    match trailer_index(trailers, key, 0) {
        Some(i) => {
            assert(all[i] == trailers[i]);
            if trailer_index(all, key, 0) is Some && trailer_index(all, key, 0)->0 < i {
                assert(all[trailer_index(all, key, 0)->0] == trailers[trailer_index(all, key, 0)->0]);
            }
        },
        None => {
            assert(all[trailers.len() as int] == last);
            if trailer_index(all, key, 0) is Some && trailer_index(all, key, 0)->0
                < trailers.len() {
                assert(all[trailer_index(all, key, 0)->0] == trailers[trailer_index(all, key, 0)->0]);
            }
        },
    }
}

proof fn lemma_dropped_keeps(
    trailers: Seq<(Seq<char>, Seq<char>)>,
    key: Seq<char>,
    other: Seq<char>,
)
    requires
        forall|k: Seq<char>| key_matches(k, key) ==> !#[trigger] key_matches(k, other),
    ensures
        match trailer_index(trailers, other, 0) {
            Some(i) => trailer_index(dropped(trailers, key), other, 0) matches Some(j) && dropped(
                trailers,
                key,
            )[j].1 == trailers[i].1,
            None => trailer_index(dropped(trailers, key), other, 0) is None,
        },
    decreases trailers.len(),
{
    if trailers.len() > 0 {
        let front = trailers.drop_last();
        let last = trailers.last();
        let kept = dropped(front, key);
        lemma_dropped_keeps(front, key, other);
        assert(front.push(last) =~= trailers);
        lemma_index_of_last(front, last, other);
        lemma_trailer_index(front, other, 0);
        lemma_trailer_index(kept, other, 0);
        if key_matches(last.0, key) {
            assert(!key_matches(last.0, other));
        } else {
            lemma_index_of_last(kept, last, other);
        }
    }
}

/// Removing a trailer keeps the value of every other key, and subject and body.
pub proof fn law_remove_keeps_others(m: MessageView, key: Seq<char>, other: Seq<char>)
    requires
        forall|k: Seq<char>| key_matches(k, key) ==> !#[trigger] key_matches(k, other),
    ensures
        trailer_value(without_trailer(m, key), other) == trailer_value(m, other),
        without_trailer(m, key).subject == m.subject,
        without_trailer(m, key).body == m.body,
{
    lemma_dropped_keeps(m.trailers, key, other);
}

/// No key names both the pull request and the dependency.
pub proof fn lemma_keys_apart(k: Seq<char>)
    requires
        key_matches(k, DEPENDS_ON@),
    ensures
        !key_matches(k, PULL_REQUEST@),
{
    reveal_strlit("Depends-On");
    reveal_strlit("Pull-Request");
    reveal_strlit("Pull Request");
    text::lemma_same_length(k, DEPENDS_ON@);
    text::lemma_same_length(k, PULL_REQUEST@);
    text::lemma_same_length(k, LEGACY_SPR_PULL_REQUEST@);
    text::lemma_same_length(DEPENDS_ON@, PULL_REQUEST@);
}

/// A link to a pull request takes the place of the only one there was.
pub proof fn lemma_no_legacy_left(m: MessageView, value: Seq<char>)
    requires
        forall|a: int, b: int|
            0 <= a < b < m.trailers.len() && key_matches((#[trigger] m.trailers[a]).0, PULL_REQUEST@)
                ==> !key_matches((#[trigger] m.trailers[b]).0, PULL_REQUEST@),
    ensures
        !legacy_trailer(with_trailer(m, PULL_REQUEST@, value)),
{
    reveal_strlit("Pull-Request");
    reveal_strlit("Pull Request");
    let after = with_trailer(m, PULL_REQUEST@, value);
    lemma_trailer_index(m.trailers, PULL_REQUEST@, 0);
    assert(text::same_ignoring_case(PULL_REQUEST@, PULL_REQUEST@));
    assert(!text::same_ignoring_case(PULL_REQUEST@, LEGACY_SPR_PULL_REQUEST@)) by {
        if text::same_ignoring_case(PULL_REQUEST@, LEGACY_SPR_PULL_REQUEST@) {
            text::lemma_same_char(PULL_REQUEST@, LEGACY_SPR_PULL_REQUEST@, 4);
        }
    }
    if legacy_trailer(after) {
        let k = choose|k: int|
            0 <= k < after.trailers.len() && text::same_ignoring_case(
                (#[trigger] after.trailers[k]).0,
                LEGACY_SPR_PULL_REQUEST@,
            );
        assert(key_matches(after.trailers[k].0, PULL_REQUEST@));
        match trailer_index(m.trailers, PULL_REQUEST@, 0) {
            Some(i) => {
                assert(k != i);
                assert(after.trailers[k] == m.trailers[k]);
                if i < k {
                    assert(key_matches(m.trailers[i].0, PULL_REQUEST@));
                }
            },
            None => {
                if k < m.trailers.len() {
                    assert(after.trailers[k] == m.trailers[k]);
                }
            },
        }
    }
}

/// To name a dependency adds no link to a pull request.
pub proof fn lemma_depending_is_not_legacy(m: MessageView, value: Seq<char>)
    ensures
        legacy_trailer(with_trailer(m, DEPENDS_ON@, value)) ==> legacy_trailer(m),
{
    reveal_strlit("Depends-On");
    reveal_strlit("Pull Request");
    let after = with_trailer(m, DEPENDS_ON@, value);
    lemma_trailer_index(m.trailers, DEPENDS_ON@, 0);
    text::lemma_same_length(DEPENDS_ON@, LEGACY_SPR_PULL_REQUEST@);
    if legacy_trailer(after) {
        let k = choose|k: int|
            0 <= k < after.trailers.len() && text::same_ignoring_case(
                (#[trigger] after.trailers[k]).0,
                LEGACY_SPR_PULL_REQUEST@,
            );
        match trailer_index(m.trailers, DEPENDS_ON@, 0) {
            Some(i) => {
                assert(k != i);
                assert(after.trailers[k] == m.trailers[k]);
            },
            None => {
                assert(k < m.trailers.len());
                assert(after.trailers[k] == m.trailers[k]);
            },
        }
    }
}

} // verus!
