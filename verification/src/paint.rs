//! Text on a terminal: colours, widths and padding.

use vstd::prelude::*;

use console::{Alignment, Attribute, Color, Style};

use crate::text;

verus! {

#[derive(Debug, Clone, Copy, PartialEq, Eq, Structural)]
pub enum Hue {
    Red,
    Green,
    Yellow,
    Blue,
    Magenta,
    Cyan,
}

#[derive(Debug, Clone, Copy, PartialEq, Eq, Structural)]
pub enum Weight {
    Bold,
    Dim,
}

/// How a text is to look.
#[derive(Debug, Clone, Copy, PartialEq, Eq, Structural)]
pub struct Paint {
    pub hue: Option<Hue>,
    pub weight: Option<Weight>,
}

/// A colour and nothing else.
pub open spec fn hued(hue: Hue) -> Paint {
    Paint { hue: Some(hue), weight: None }
}

/// A colour in bold.
pub open spec fn bold(hue: Hue) -> Paint {
    Paint { hue: Some(hue), weight: Some(Weight::Bold) }
}

/// Dim, in whatever colour.
pub open spec fn dimmed() -> Paint {
    Paint { hue: None, weight: Some(Weight::Dim) }
}

/// Bold, in whatever colour.
pub open spec fn strong() -> Paint {
    Paint { hue: None, weight: Some(Weight::Bold) }
}

impl Paint {
    pub fn hued(hue: Hue) -> (r: Paint)
        ensures
            r == hued(hue),
    {
        Paint { hue: Some(hue), weight: None }
    }

    pub fn bold(hue: Hue) -> (r: Paint)
        ensures
            r == bold(hue),
    {
        Paint { hue: Some(hue), weight: Some(Weight::Bold) }
    }

    pub fn dimmed() -> (r: Paint)
        ensures
            r == dimmed(),
    {
        Paint { hue: None, weight: Some(Weight::Dim) }
    }

    pub fn strong() -> (r: Paint)
        ensures
            r == strong(),
    {
        Paint { hue: None, weight: Some(Weight::Bold) }
    }
}

/// The escape sequence that switches a colour on.
pub open spec fn hue_code(hue: Option<Hue>) -> Seq<char> {
    match hue {
        None => Seq::empty(),
        Some(Hue::Red) => "\x1b[31m"@,
        Some(Hue::Green) => "\x1b[32m"@,
        Some(Hue::Yellow) => "\x1b[33m"@,
        Some(Hue::Blue) => "\x1b[34m"@,
        Some(Hue::Magenta) => "\x1b[35m"@,
        Some(Hue::Cyan) => "\x1b[36m"@,
    }
}

/// The escape sequence that switches bold or dim text on.
pub open spec fn weight_code(weight: Option<Weight>) -> Seq<char> {
    match weight {
        None => Seq::empty(),
        Some(Weight::Bold) => "\x1b[1m"@,
        Some(Weight::Dim) => "\x1b[2m"@,
    }
}

/// A text between escape sequences, where there is anything to switch on and
/// colours are wanted.
pub open spec fn painted(text: Seq<char>, paint: Paint, on: bool) -> Seq<char> {
    if on && (paint.hue is Some || paint.weight is Some) {
        hue_code(paint.hue) + weight_code(paint.weight) + text + "\x1b[0m"@
    } else {
        text
    }
}

/// Styles a text with `console::Style`, forced on or off.
///
/// Trusted: the text comes out between the escape sequence of the foreground
/// colour (30 and the number of the colour), that of the attribute (1 for bold,
/// 2 for dim) and the one that resets both, and unchanged if styling is forced
/// off or neither a colour nor an attribute is set.
#[verifier::external_body]
pub(crate) fn styled(text: &str, hue: Option<Hue>, weight: Option<Weight>, on: bool) -> (r: String)
    ensures
        r@ == painted(text@, (Paint { hue, weight }), on),
{
    let color = hue.map(|h| match h {
        Hue::Red => Color::Red,
        Hue::Green => Color::Green,
        Hue::Yellow => Color::Yellow,
        Hue::Blue => Color::Blue,
        Hue::Magenta => Color::Magenta,
        Hue::Cyan => Color::Cyan,
    });
    let attr = weight.map(|w| match w { Weight::Bold => Attribute::Bold, Weight::Dim => Attribute::Dim });
    let style = Style::new().force_styling(on);
    let style = color.map_or(style.clone(), |c| style.fg(c));
    let style = attr.map_or(style.clone(), |a| style.attr(a));
    style.apply_to(text).to_string()
}

/// Paints a text.
pub fn paint(text: &str, look: Paint, on: bool) -> (r: String)
    ensures
        r@ == painted(text@, look, on),
{
    styled(text, look.hue, look.weight, on)
}

/// Whether standard output takes colours, as `console::colors_enabled` tells it
/// from the terminal and the environment.
///
/// Trusted: nothing is said of the answer.
#[verifier::external_body]
pub(crate) fn colors_enabled() -> (r: bool) {
    console::colors_enabled()
}

/// How many columns of a terminal a text takes, as
/// `console::measure_text_width` has it.
pub uninterp spec fn displayed_width(text: Seq<char>) -> usize;

/// A text of printable ASCII characters and nothing else.
pub open spec fn printable(text: Seq<char>) -> bool {
    forall|i: int| 0 <= i < text.len() ==> ' ' <= #[trigger] text[i] <= '~'
}

/// A character that starts an escape sequence.
pub open spec fn is_escape(c: char) -> bool {
    c == '\x1b' || c == '\u{9b}'
}

/// A text without any escape sequence.
pub open spec fn unmarked(text: Seq<char>) -> bool {
    forall|i: int| 0 <= i < text.len() ==> !is_escape(#[trigger] text[i])
}

/// How long the colour sequence is that a text starts with, `ESC [ n m` with one or
/// two digits; 0 if it starts with none.
pub open spec fn color_code(s: Seq<char>) -> int {
    if s.len() >= 4 && s[0] == '\x1b' && s[1] == '[' && text::is_digit(s[2]) && s[3] == 'm' {
        4
    } else if s.len() >= 5 && s[0] == '\x1b' && s[1] == '[' && text::is_digit(s[2])
        && text::is_digit(s[3]) && s[4] == 'm' {
        5
    } else {
        0
    }
}

/// How long the link sequence is that a text starts with, `ESC ] 8 ; ; target ESC \`;
/// 0 if it starts with none.
pub open spec fn link_code(s: Seq<char>) -> int {
    if s.len() >= 5 && s[0] == '\x1b' && s[1] == ']' && s[2] == '8' && s[3] == ';' && s[4] == ';' {
        match text::find_char_from(s, '\x1b', 5) {
            Some(k) => if 5 <= k && k + 1 < s.len() && s[k + 1] == '\\' {
                k + 2
            } else {
                0
            },
            None => 0,
        }
    } else {
        0
    }
}

/// How long the colour or link sequence is that a text starts with.
pub open spec fn code(s: Seq<char>) -> int {
    if color_code(s) > 0 {
        color_code(s)
    } else {
        link_code(s)
    }
}

/// A text without its colour and link sequences.
pub open spec fn unescaped(s: Seq<char>) -> Seq<char>
    decreases s.len(),
{
    if s.len() == 0 {
        s
    } else if code(s) > 0 {
        unescaped(s.skip(code(s)))
    } else {
        seq![s[0]] + unescaped(s.skip(1))
    }
}

/// All escape sequences of a text are colour sequences, and where one stands in the
/// middle of the text, a space or an ASCII letter comes behind it, which no character
/// before it combines with. `shown` says that something else was there before, and
/// `cut` that a sequence stands between it and the text.
pub open spec fn tidy(s: Seq<char>, shown: bool, cut: bool) -> bool
    decreases s.len(),
{
    if s.len() == 0 {
        true
    } else if color_code(s) > 0 {
        tidy(s.skip(color_code(s)), shown, shown)
    } else {
        !is_escape(s[0]) && (cut ==> s[0] == ' ' || text::is_letter(s[0])) && tidy(
            s.skip(1),
            true,
            false,
        )
    }
}

/// Measures a text with `console::measure_text_width`.
///
/// Trusted: the width is a function of the text, and where the text is
/// printable ASCII it is its length. Colour sequences take no columns, as long as
/// they do not come between characters that combine. For the rest it rests on a
/// table of character widths.
#[verifier::external_body]
pub(crate) fn width(text: &str) -> (r: usize)
    ensures
        r == displayed_width(text@),
        printable(text@) ==> r == text@.len(),
        tidy(text@, false, false) ==> r == displayed_width(unescaped(text@)),
{
    console::measure_text_width(text)
}

/// The side of a column that its texts stand on.
#[derive(Debug, Clone, Copy, PartialEq, Eq, Structural)]
pub enum Side {
    Left,
    Right,
}

/// A number of spaces.
pub open spec fn spaces(n: nat) -> Seq<char> {
    Seq::new(n, |i: int| ' ')
}

/// A text that takes `taken` columns, filled up with spaces to the width of a
/// column, if it is narrower.
pub open spec fn filled_up(text: Seq<char>, taken: usize, columns: usize, side: Side) -> Seq<char> {
    if taken >= columns {
        text
    } else {
        let fill = spaces((columns - taken) as nat);
        match side {
            Side::Left => text + fill,
            Side::Right => fill + text,
        }
    }
}

/// A text filled up with spaces to the width of a column, if it is narrower.
pub open spec fn padded(text: Seq<char>, columns: usize, side: Side) -> Seq<char> {
    filled_up(text, displayed_width(text), columns, side)
}

/// Fills a text up with `console::pad_str`, without truncation.
///
/// Trusted: a text that is narrower than the column gets as many spaces as are
/// missing, behind it or before it, and any other comes out unchanged. It goes by
/// the same width as [`width`], so colour sequences do not count.
#[verifier::external_body]
pub(crate) fn pad(text: &str, columns: usize, side: Side) -> (r: String)
    ensures
        r@ == padded(text@, columns, side),
        tidy(text@, false, false) ==> r@ == filled_up(
            text@,
            displayed_width(unescaped(text@)),
            columns,
            side,
        ),
{
    let alignment = match side { Side::Left => Alignment::Left, Side::Right => Alignment::Right };
    console::pad_str(text, columns, alignment, None).into_owned()
}

/// What `console::truncate_str` makes of a text that is to fit into a number of
/// columns, with a tail where something is cut off.
pub uninterp spec fn truncated(text: Seq<char>, columns: usize, tail: Seq<char>) -> Seq<char>;

/// Cuts a text off with `console::truncate_str`.
///
/// Trusted: the result is a function of the arguments, and a text that fits
/// comes out unchanged. One without escape sequences comes out unchanged or as one
/// of its beginnings with the tail behind it. Printable ASCII takes one column for each
/// character, so such a text with such a tail fits into the columns, where the tail does.
#[verifier::external_body]
pub(crate) fn truncate(text: &str, columns: usize, tail: &str) -> (r: String)
    ensures
        r@ == truncated(text@, columns, tail@),
        displayed_width(text@) <= columns ==> r@ == text@,
        unmarked(text@) ==> r@ == text@ || exists|n: int|
            0 <= n <= text@.len() && r@ == #[trigger] text@.take(n) + tail@,
        printable(text@) && printable(tail@) && tail@.len() <= columns ==> r@.len() <= columns,
{
    console::truncate_str(text, columns, tail).into_owned()
}

/// Appends spaces.
pub fn push_spaces(out: &mut String, n: usize)
    ensures
        final(out)@ == old(out)@ + spaces(n as nat),
{
    let mut k: usize = 0;
    assert(out@ =~= old(out)@ + spaces(0));
    while k < n
        invariant
            k <= n,
            out@ == old(out)@ + spaces(k as nat),
        decreases n - k,
    {
        out.push(' ');
        assert(spaces((k + 1) as nat) =~= spaces(k as nat).push(' '));
        assert(out@ =~= old(out)@ + spaces((k + 1) as nat));
        k = k + 1;
    }
}

/// The width of the widest text below `n`, and at least `least`.
pub open spec fn widest(texts: Seq<Seq<char>>, n: int, least: usize) -> usize
    decreases n,
{
    if n <= 0 {
        least
    } else {
        let below = widest(texts, n - 1, least);
        if displayed_width(texts[n - 1]) > below {
            displayed_width(texts[n - 1])
        } else {
            below
        }
    }
}

/// The texts without their colour and link sequences.
pub open spec fn all_unescaped(texts: Seq<Seq<char>>) -> Seq<Seq<char>> {
    texts.map_values(|s: Seq<char>| unescaped(s))
}

pub open spec fn all_tidy(texts: Seq<Seq<char>>) -> bool {
    forall|i: int| 0 <= i < texts.len() ==> tidy(#[trigger] texts[i], false, false)
}

/// Measures the widest text.
pub fn widest_of(texts: &Vec<String>, least: usize) -> (r: usize)
    ensures
        r == widest(texts.deep_view(), texts@.len() as int, least),
        all_tidy(texts.deep_view()) ==> r == widest(
            all_unescaped(texts.deep_view()),
            texts@.len() as int,
            least,
        ),
{
    let mut best: usize = least;
    let mut i: usize = 0;
    while i < texts.len()
        invariant
            i <= texts@.len(),
            best == widest(texts.deep_view(), i as int, least),
            all_tidy(texts.deep_view()) ==> best == widest(
                all_unescaped(texts.deep_view()),
                i as int,
                least,
            ),
        decreases texts@.len() - i,
    {
        assert(texts.deep_view()[i as int] == texts@[i as int]@);
        let columns = width(texts[i].as_str());
        if columns > best {
            best = columns;
        }
        i = i + 1;
    }
    best
}

/// Every escape sequence of a text is a whole colour or link sequence.
pub open spec fn closed(s: Seq<char>) -> bool
    decreases s.len(),
{
    if s.len() == 0 {
        true
    } else if code(s) > 0 {
        closed(s.skip(code(s)))
    } else {
        !is_escape(s[0]) && closed(s.skip(1))
    }
}

/// What comes behind a sequence does not change it.
proof fn lemma_code_stays(a: Seq<char>, b: Seq<char>)
    requires
        code(a) > 0,
    ensures
        code(a + b) == code(a),
        code(a) <= a.len(),
{
    let s = a + b;
    assert forall|i: int| 0 <= i < a.len() implies s[i] == a[i] by {}
    if color_code(a) > 0 {
    } else {
        text::lemma_find_char(a, '\x1b', 5);
        text::lemma_find_char(s, '\x1b', 5);
        let k = text::find_char_from(a, '\x1b', 5)->0;
        let m = text::find_char_from(s, '\x1b', 5)->0;
        assert(s[k] == '\x1b');
        assert(m == k) by {
            if m < k {
                assert(a[m] == '\x1b');
            }
        }
    }
}

/// Sequences that are whole do not reach over into what comes behind them.
pub proof fn lemma_unescaped_concat(a: Seq<char>, b: Seq<char>)
    requires
        closed(a),
    ensures
        unescaped(a + b) == unescaped(a) + unescaped(b),
        closed(b) ==> closed(a + b),
    decreases a.len(),
{
    if a.len() == 0 {
        assert(a + b =~= b);
        assert(unescaped(a) + unescaped(b) =~= unescaped(b));
    } else {
        let n = if code(a) > 0 {
            lemma_code_stays(a, b);
            code(a)
        } else {
            assert((a + b)[0] == a[0]);
            1
        };
        assert((a + b).skip(n) =~= a.skip(n) + b);
        lemma_unescaped_concat(a.skip(n), b);
        if code(a) <= 0 {
            assert(unescaped(a + b) =~= seq![a[0]] + (unescaped(a.skip(1)) + unescaped(b)));
            assert(unescaped(a + b) =~= unescaped(a) + unescaped(b));
        }
    }
}

/// A text without escape sequences is all there is to see of it.
pub proof fn lemma_unmarked(s: Seq<char>)
    requires
        unmarked(s),
    ensures
        closed(s),
        unescaped(s) == s,
    decreases s.len(),
{
    if s.len() > 0 {
        assert(!is_escape(s[0]));
        let rest = s.skip(1);
        assert forall|i: int| 0 <= i < rest.len() implies !is_escape(#[trigger] rest[i]) by {
            assert(rest[i] == s[i + 1]);
        }
        lemma_unmarked(rest);
        assert(seq![s[0]] + rest =~= s);
    }
}

/// A colour sequence by itself.
spec fn is_color(s: Seq<char>) -> bool {
    color_code(s) > 0 && color_code(s) == s.len()
}

proof fn lemma_color(s: Seq<char>)
    requires
        is_color(s),
    ensures
        closed(s),
        unescaped(s) == Seq::<char>::empty(),
{
    lemma_nothing_behind(s);
}

/// A text that is one sequence shows nothing.
proof fn lemma_nothing_behind(s: Seq<char>)
    requires
        code(s) > 0,
        code(s) == s.len(),
    ensures
        closed(s),
        unescaped(s) == Seq::<char>::empty(),
{
    let rest = s.skip(code(s));
    assert(rest =~= Seq::<char>::empty());
    assert(closed(rest));
    assert(unescaped(rest) =~= Seq::<char>::empty());
}

proof fn lemma_codes(paint: Paint)
    ensures
        paint.hue is Some ==> is_color(hue_code(paint.hue)),
        paint.weight is Some ==> is_color(weight_code(paint.weight)),
        is_color("\x1b[0m"@),
{
    reveal_strlit("\x1b[0m");
    reveal_strlit("\x1b[1m");
    reveal_strlit("\x1b[2m");
    reveal_strlit("\x1b[31m");
    reveal_strlit("\x1b[32m");
    reveal_strlit("\x1b[33m");
    reveal_strlit("\x1b[34m");
    reveal_strlit("\x1b[35m");
    reveal_strlit("\x1b[36m");
}

proof fn lemma_tidy_code(c: Seq<char>, s: Seq<char>, shown: bool, cut: bool)
    requires
        is_color(c),
        tidy(s, shown, shown),
    ensures
        tidy(c + s, shown, cut),
{
    assert forall|i: int| 0 <= i < c.len() implies (c + s)[i] == c[i] by {}
    assert(color_code(c + s) == c.len());
    assert((c + s).skip(c.len() as int) =~= s);
}

/// What may stand behind anything may stand anywhere.
pub proof fn lemma_tidy_anywhere(s: Seq<char>, shown: bool, cut: bool)
    requires
        tidy(s, true, true),
    ensures
        tidy(s, shown, cut),
    decreases s.len(),
{
    if s.len() > 0 && color_code(s) > 0 {
        lemma_tidy_anywhere(s.skip(color_code(s)), shown, shown);
    }
}

pub proof fn lemma_tidy_concat(a: Seq<char>, b: Seq<char>, shown: bool, cut: bool)
    requires
        tidy(a, shown, cut),
        tidy(b, true, true),
    ensures
        tidy(a + b, shown, cut),
    decreases a.len(),
{
    if a.len() == 0 {
        assert(a + b =~= b);
        lemma_tidy_anywhere(b, shown, cut);
    } else {
        let s = a + b;
        assert forall|i: int| 0 <= i < a.len() implies s[i] == a[i] by {}
        if color_code(a) > 0 {
            assert(color_code(s) == color_code(a));
            assert(s.skip(color_code(a)) =~= a.skip(color_code(a)) + b);
            lemma_tidy_concat(a.skip(color_code(a)), b, shown, shown);
        } else {
            assert(color_code(s) <= 0);
            assert(s.skip(1) =~= a.skip(1) + b);
            lemma_tidy_concat(a.skip(1), b, true, false);
        }
    }
}

/// A text starts with a letter or a space, or may start with anything because
/// nothing stands before it.
pub proof fn lemma_tidy_unmarked(s: Seq<char>, shown: bool, cut: bool)
    requires
        unmarked(s),
        cut && s.len() > 0 ==> s[0] == ' ' || text::is_letter(s[0]),
    ensures
        tidy(s, shown, cut),
    decreases s.len(),
{
    if s.len() > 0 {
        assert(!is_escape(s[0]));
        let rest = s.skip(1);
        assert forall|i: int| 0 <= i < rest.len() implies !is_escape(#[trigger] rest[i]) by {
            assert(rest[i] == s[i + 1]);
        }
        lemma_tidy_unmarked(rest, true, false);
    }
}

/// Painting a text adds whole colour sequences and nothing else.
pub proof fn lemma_painted(text: Seq<char>, paint: Paint, on: bool)
    requires
        unmarked(text),
    ensures
        closed(painted(text, paint, on)),
        unescaped(painted(text, paint, on)) == text,
        tidy(painted(text, paint, on), false, false),
        text.len() > 0 && text::is_letter(text[0]) ==> tidy(
            painted(text, paint, on),
            true,
            true,
        ),
{
    lemma_unmarked(text);
    lemma_tidy_unmarked(text, false, false);
    let letter = text.len() > 0 && text::is_letter(text[0]);
    if letter {
        lemma_tidy_unmarked(text, true, true);
    }
    if on && (paint.hue is Some || paint.weight is Some) {
        lemma_codes(paint);
        let reset = "\x1b[0m"@;
        lemma_color(reset);
        lemma_unescaped_concat(text, reset);
        assert(text + Seq::<char>::empty() =~= text);
        assert(tidy(reset, true, true)) by {
            let rest = reset.skip(color_code(reset));
            assert(rest =~= Seq::<char>::empty());
            assert(tidy(rest, true, true));
        }
        lemma_tidy_concat(text, reset, false, false);
        if letter {
            lemma_tidy_concat(text, reset, true, true);
        }
        let inner = text + reset;
        let weighted = weight_code(paint.weight) + inner;
        if paint.weight is Some {
            lemma_color(weight_code(paint.weight));
            lemma_unescaped_concat(weight_code(paint.weight), inner);
            assert(Seq::<char>::empty() + text =~= text);
            lemma_tidy_code(weight_code(paint.weight), inner, false, false);
            if letter {
                lemma_tidy_code(weight_code(paint.weight), inner, true, true);
            }
        } else {
            assert(weighted =~= inner);
        }
        let hued = hue_code(paint.hue) + weighted;
        if paint.hue is Some {
            lemma_color(hue_code(paint.hue));
            lemma_unescaped_concat(hue_code(paint.hue), weighted);
            assert(Seq::<char>::empty() + text =~= text);
            lemma_tidy_code(hue_code(paint.hue), weighted, false, false);
            if letter {
                lemma_tidy_code(hue_code(paint.hue), weighted, true, true);
            }
        } else {
            assert(hued =~= weighted);
        }
        assert(painted(text, paint, on) =~= hued);
    }
}

pub proof fn lemma_spaces(n: nat)
    ensures
        unmarked(spaces(n)),
        closed(spaces(n)),
        unescaped(spaces(n)) == spaces(n),
{
    lemma_unmarked(spaces(n));
}

/// Filling a text up fills up what is to see of it.
pub proof fn lemma_filled_up(text: Seq<char>, taken: usize, columns: usize, side: Side)
    requires
        closed(text),
    ensures
        closed(filled_up(text, taken, columns, side)),
        unescaped(filled_up(text, taken, columns, side)) == filled_up(
            unescaped(text),
            taken,
            columns,
            side,
        ),
{
    if taken < columns {
        let fill = spaces((columns - taken) as nat);
        lemma_spaces((columns - taken) as nat);
        lemma_unescaped_concat(text, fill);
        lemma_unescaped_concat(fill, text);
    }
}

/// A link shows the text that it is put on.
pub proof fn lemma_linked(target: Seq<char>, text: Seq<char>)
    requires
        unmarked(target),
        closed(text),
    ensures
        closed("\x1b]8;;"@ + target + "\x1b\\"@ + text + "\x1b]8;;\x1b\\"@),
        unescaped("\x1b]8;;"@ + target + "\x1b\\"@ + text + "\x1b]8;;\x1b\\"@) == unescaped(text),
{
    reveal_strlit("\x1b]8;;");
    reveal_strlit("\x1b\\");
    reveal_strlit("\x1b]8;;\x1b\\");
    let open = "\x1b]8;;"@ + target + "\x1b\\"@;
    let end = "\x1b]8;;\x1b\\"@;
    lemma_link_code(open, (5 + target.len()) as int);
    lemma_link_code(end, 5);
    lemma_unescaped_concat(text, end);
    lemma_unescaped_concat(open, text + end);
    assert("\x1b]8;;"@ + target + "\x1b\\"@ + text + "\x1b]8;;\x1b\\"@ =~= open + (text + end));
    assert(Seq::<char>::empty() + (unescaped(text) + Seq::<char>::empty()) =~= unescaped(text));
}

proof fn lemma_link_code(s: Seq<char>, k: int)
    requires
        k >= 5,
        s.len() == k + 2,
        s[0] == '\x1b',
        s[1] == ']',
        s[2] == '8',
        s[3] == ';',
        s[4] == ';',
        s[k] == '\x1b',
        s[k + 1] == '\\',
        forall|i: int| 5 <= i < k ==> #[trigger] s[i] != '\x1b',
    ensures
        closed(s),
        unescaped(s) == Seq::<char>::empty(),
{
    text::lemma_find_char(s, '\x1b', 5);
    assert(link_code(s) == k + 2);
    lemma_nothing_behind(s);
}

} // verus!
