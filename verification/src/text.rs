//! Characters and text: the few operations on strings that the rest of the
//! library is built from, each with its meaning over sequences of characters.

use vstd::prelude::*;

verus! {

/// `String::push` of std: appends the given character to the end of the string.
pub assume_specification[ String::push ](s: &mut String, c: char)
    ensures
        final(s)@ == old(s)@.push(c),
;

/// The characters with Unicode's `White_Space` property.
pub open spec fn is_space(c: char) -> bool {
    ||| '\u{9}' <= c <= '\u{d}'
    ||| c == ' '
    ||| c == '\u{85}'
    ||| c == '\u{a0}'
    ||| c == '\u{1680}'
    ||| '\u{2000}' <= c <= '\u{200a}'
    ||| c == '\u{2028}'
    ||| c == '\u{2029}'
    ||| c == '\u{202f}'
    ||| c == '\u{205f}'
    ||| c == '\u{3000}'
}

pub open spec fn is_digit(c: char) -> bool {
    '0' <= c <= '9'
}

pub open spec fn is_hex_digit(c: char) -> bool {
    is_digit(c) || 'a' <= c <= 'f' || 'A' <= c <= 'F'
}

/// The ASCII lower case of a character; every other character is itself.
pub open spec fn lower(c: char) -> char {
    if 'A' <= c <= 'Z' {
        (c as u32 + 32) as char
    } else {
        c
    }
}

/// Two texts that differ at most in the case of ASCII letters.
pub open spec fn same_ignoring_case(a: Seq<char>, b: Seq<char>) -> bool {
    a.map_values(|c: char| lower(c)) == b.map_values(|c: char| lower(c))
}

pub open spec fn trim_start(s: Seq<char>) -> Seq<char>
    decreases s.len(),
{
    if s.len() > 0 && is_space(s[0]) {
        trim_start(s.skip(1))
    } else {
        s
    }
}

pub open spec fn trim_end(s: Seq<char>) -> Seq<char>
    decreases s.len(),
{
    if s.len() > 0 && is_space(s.last()) {
        trim_end(s.drop_last())
    } else {
        s
    }
}

/// The text without the white space at its two ends.
pub open spec fn trim(s: Seq<char>) -> Seq<char> {
    trim_end(trim_start(s))
}

pub open spec fn starts_with(s: Seq<char>, prefix: Seq<char>) -> bool {
    prefix.len() <= s.len() && s.take(prefix.len() as int) == prefix
}

pub open spec fn ends_with(s: Seq<char>, suffix: Seq<char>) -> bool {
    suffix.len() <= s.len() && s.skip(s.len() - suffix.len()) == suffix
}

/// `pattern` stands in `s` at position `i`.
pub open spec fn occurs_at(s: Seq<char>, pattern: Seq<char>, i: int) -> bool {
    0 <= i && i + pattern.len() <= s.len() && s.subrange(i, i + pattern.len()) == pattern
}

/// The first position from `from` on at which `pattern` stands in `s`.
pub open spec fn find_from(s: Seq<char>, pattern: Seq<char>, from: int) -> Option<int>
    decreases s.len() + 1 - from,
{
    if from < 0 || from + pattern.len() > s.len() {
        None
    } else if occurs_at(s, pattern, from) {
        Some(from)
    } else {
        find_from(s, pattern, from + 1)
    }
}

/// The first position from `from` on at which the character `c` stands in `s`.
pub open spec fn find_char_from(s: Seq<char>, c: char, from: int) -> Option<int>
    decreases s.len() - from,
{
    if from < 0 || from >= s.len() {
        None
    } else if s[from] == c {
        Some(from)
    } else {
        find_char_from(s, c, from + 1)
    }
}

/// The text cut at every line feed. There is always at least one line.
pub open spec fn split_lines(s: Seq<char>) -> Seq<Seq<char>>
    decreases s.len(),
{
    if s.len() == 0 {
        seq![Seq::empty()]
    } else {
        let before = split_lines(s.drop_last());
        if s.last() == '\n' {
            before.push(Seq::empty())
        } else {
            before.drop_last().push(before.last().push(s.last()))
        }
    }
}

/// The text without the characters `c` that it starts with.
pub open spec fn strip_leading(s: Seq<char>, c: char) -> Seq<char>
    decreases s.len(),
{
    if s.len() > 0 && s[0] == c {
        strip_leading(s.skip(1), c)
    } else {
        s
    }
}

/// The text without the characters `c` that it ends with.
pub open spec fn strip_trailing(s: Seq<char>, c: char) -> Seq<char>
    decreases s.len(),
{
    if s.len() > 0 && s.last() == c {
        strip_trailing(s.drop_last(), c)
    } else {
        s
    }
}

/// A text with nothing but white space in it.
pub open spec fn is_blank(s: Seq<char>) -> bool {
    trim(s).len() == 0
}

pub open spec fn is_letter(c: char) -> bool {
    'a' <= c <= 'z' || 'A' <= c <= 'Z'
}

/// The decimal digits of a number.
pub open spec fn decimal(n: nat) -> Seq<char>
    decreases n,
{
    let digit = ('0' as u32 + n % 10) as char;
    if n < 10 {
        seq![digit]
    } else {
        decimal(n / 10).push(digit)
    }
}

/// The parts one after the other, with `separator` between each two.
pub open spec fn join(parts: Seq<Seq<char>>, separator: Seq<char>) -> Seq<char>
    decreases parts.len(),
{
    if parts.len() == 0 {
        Seq::empty()
    } else if parts.len() == 1 {
        parts[0]
    } else {
        join(parts.drop_last(), separator) + separator + parts.last()
    }
}

/// The views of a sequence of values.
pub open spec fn views<T: View>(s: Seq<T>) -> Seq<T::V> {
    s.map_values(|t: T| t@)
}

/// The view of a value that may be missing.
pub open spec fn view_of<T: View>(o: Option<T>) -> Option<T::V> {
    match o {
        Some(t) => Some(t@),
        None => None,
    }
}

pub broadcast proof fn lemma_views_len<T: View>(s: Seq<T>)
    ensures
        (#[trigger] views(s)).len() == s.len(),
{
}

pub broadcast proof fn lemma_views_index<T: View>(s: Seq<T>, i: int)
    requires
        0 <= i < s.len(),
    ensures
        (#[trigger] views(s)[i]) == s[i]@,
{
}

pub broadcast proof fn lemma_views_push<T: View>(s: Seq<T>, t: T)
    ensures
        #[trigger] views(s.push(t)) == views(s).push(t@),
{
    assert(views(s.push(t)) =~= views(s).push(t@));
}

pub broadcast group group_views {
    lemma_views_len,
    lemma_views_index,
    lemma_views_push,
}

/// The characters of a text.
pub fn chars_of(s: &str) -> (r: Vec<char>)
    ensures
        r@ == s@,
{
    broadcast use vstd::string::group_string_axioms;
    let mut r: Vec<char> = Vec::new();
    for c in it: s.chars()
        invariant
            r@ == it.seq().take(it.index() as int),
            it.seq() == s@,
    {
        r.push(c);
        assert(r@ =~= it.seq().take(it.index() as int + 1));
    }
    assert(r@ =~= s@);
    r
}

/// The text made of the characters from `from` up to `to`.
pub fn text_between(chars: &Vec<char>, from: usize, to: usize) -> (r: String)
    requires
        from <= to <= chars@.len(),
    ensures
        r@ == chars@.subrange(from as int, to as int),
{
    let mut r: String = String::new();
    let mut i: usize = from;
    while i < to
        invariant
            from <= i <= to <= chars@.len(),
            r@ == chars@.subrange(from as int, i as int),
        decreases to - i,
    {
        r.push(chars[i]);
        assert(chars@.subrange(from as int, i as int).push(chars@[i as int])
            =~= chars@.subrange(from as int, i + 1));
        i = i + 1;
    }
    r
}

/// The text made of the given characters.
pub fn text_of(chars: &Vec<char>) -> (r: String)
    ensures
        r@ == chars@,
{
    let r = text_between(chars, 0, chars.len());
    assert(chars@.subrange(0, chars@.len() as int) =~= chars@);
    r
}

pub fn space(c: char) -> (r: bool)
    ensures
        r == is_space(c),
{
    ('\u{9}' <= c && c <= '\u{d}') || c == ' ' || c == '\u{85}' || c == '\u{a0}' || c == '\u{1680}'
        || ('\u{2000}' <= c && c <= '\u{200a}') || c == '\u{2028}' || c == '\u{2029}'
        || c == '\u{202f}' || c == '\u{205f}' || c == '\u{3000}'
}

/// Whether two texts are the same.
pub fn same(a: &str, b: &str) -> (r: bool)
    ensures
        r == (a@ == b@),
{
    let x = chars_of(a);
    let y = chars_of(b);
    same_chars(&x, &y)
}

/// Whether two runs of characters are the same.
pub fn same_chars(x: &Vec<char>, y: &Vec<char>) -> (r: bool)
    ensures
        r == (x@ == y@),
{
    if x.len() != y.len() {
        return false;
    }
    let mut i: usize = 0;
    while i < x.len()
        invariant
            i <= x@.len() == y@.len(),
            forall|k: int| 0 <= k < i ==> x@[k] == y@[k],
        decreases x@.len() - i,
    {
        if x[i] != y[i] {
            assert(x@[i as int] != y@[i as int]);
            return false;
        }
        i = i + 1;
    }
    assert(x@ =~= y@);
    true
}

/// The given range of characters without the white space at its two ends, as a
/// range.
pub fn trimmed(chars: &Vec<char>, from: usize, to: usize) -> (r: (usize, usize))
    requires
        from <= to <= chars@.len(),
    ensures
        from <= r.0 <= r.1 <= to,
        chars@.subrange(r.0 as int, r.1 as int) == trim(chars@.subrange(from as int, to as int)),
{
    let ghost whole = chars@.subrange(from as int, to as int);
    let mut a: usize = from;
    assert(chars@.subrange(a as int, to as int) =~= whole);
    while a < to && space(chars[a])
        invariant
            from <= a <= to <= chars@.len(),
            trim_start(chars@.subrange(a as int, to as int)) == trim_start(whole),
        decreases to - a,
    {
        assert(chars@.subrange(a as int, to as int).skip(1) =~= chars@.subrange(a + 1, to as int));
        a = a + 1;
    }
    assert(chars@.subrange(a as int, to as int) == trim_start(whole)) by {
        if a < to {
            assert(chars@.subrange(a as int, to as int)[0] == chars@[a as int]);
        }
    }
    let ghost rest = trim_start(whole);
    let mut b: usize = to;
    while a < b && space(chars[b - 1])
        invariant
            from <= a <= b <= to <= chars@.len(),
            trim_end(chars@.subrange(a as int, b as int)) == trim_end(rest),
        decreases b - a,
    {
        assert(chars@.subrange(a as int, b as int).drop_last() =~= chars@.subrange(
            a as int,
            b - 1,
        ));
        b = b - 1;
    }
    assert(chars@.subrange(a as int, b as int) == trim_end(rest)) by {
        if a < b {
            assert(chars@.subrange(a as int, b as int).last() == chars@[b - 1]);
        }
    }
    (a, b)
}

/// The text without the white space at its two ends.
pub fn trim_text(s: &str) -> (r: String)
    ensures
        r@ == trim(s@),
{
    let chars = chars_of(s);
    let (a, b) = trimmed(&chars, 0, chars.len());
    assert(chars@.subrange(0, chars@.len() as int) =~= chars@);
    text_between(&chars, a, b)
}

/// Whether `pattern` stands in `chars` at position `i`.
pub fn stands_at(chars: &Vec<char>, pattern: &Vec<char>, i: usize) -> (r: bool)
    ensures
        r == occurs_at(chars@, pattern@, i as int),
{
    if i > chars.len() || pattern.len() > chars.len() - i {
        return false;
    }
    let n: usize = chars.len();
    let mut k: usize = 0;
    while k < pattern.len()
        invariant
            k <= pattern@.len(),
            n == chars@.len(),
            i + pattern@.len() <= n,
            forall|m: int| 0 <= m < k ==> chars@[i + m] == pattern@[m],
        decreases pattern@.len() - k,
    {
        if chars[i + k] != pattern[k] {
            assert(chars@.subrange(i as int, i + pattern@.len())[k as int] != pattern@[k as int]);
            return false;
        }
        k = k + 1;
    }
    assert(chars@.subrange(i as int, i + pattern@.len()) =~= pattern@);
    true
}

/// The first position from `from` on at which `pattern` stands in `chars`.
pub fn find(chars: &Vec<char>, pattern: &Vec<char>, from: usize) -> (r: Option<usize>)
    ensures
        match r {
            Some(i) => find_from(chars@, pattern@, from as int) == Some(i as int),
            None => find_from(chars@, pattern@, from as int) is None,
        },
{
    let mut i: usize = from;
    while i <= chars.len() && pattern.len() <= chars.len() - i
        invariant
            from <= i,
            find_from(chars@, pattern@, i as int) == find_from(chars@, pattern@, from as int),
        decreases chars@.len() + 1 - i,
    {
        if stands_at(chars, pattern, i) {
            return Some(i);
        }
        if i == chars.len() {
            assert(chars@.subrange(i as int, i + pattern@.len()) =~= pattern@);
            return None;
        }
        i = i + 1;
    }
    None
}

/// What `find_from` finds is an occurrence, and none starts before it.
pub proof fn lemma_find(s: Seq<char>, pattern: Seq<char>, from: int)
    requires
        0 <= from,
    ensures
        match find_from(s, pattern, from) {
            Some(i) => from <= i && occurs_at(s, pattern, i) && forall|k: int|
                from <= k < i ==> !occurs_at(s, pattern, k),
            None => forall|k: int| from <= k ==> !occurs_at(s, pattern, k),
        },
    decreases s.len() + 1 - from,
{
    if from + pattern.len() <= s.len() && !occurs_at(s, pattern, from) {
        lemma_find(s, pattern, from + 1);
    }
}

pub fn lower_char(c: char) -> (r: char)
    ensures
        r == lower(c),
{
    if 'A' <= c && c <= 'Z' {
        (c as u8 + 32) as char
    } else {
        c
    }
}

/// Whether two texts differ at most in the case of ASCII letters.
pub fn same_text_ignoring_case(a: &str, b: &str) -> (r: bool)
    ensures
        r == same_ignoring_case(a@, b@),
{
    let x = chars_of(a);
    let y = chars_of(b);
    let ghost p = x@.map_values(|c: char| lower(c));
    let ghost q = y@.map_values(|c: char| lower(c));
    if x.len() != y.len() {
        assert(p.len() != q.len());
        return false;
    }
    let mut i: usize = 0;
    while i < x.len()
        invariant
            i <= x@.len() == y@.len(),
            p == x@.map_values(|c: char| lower(c)),
            q == y@.map_values(|c: char| lower(c)),
            p == a@.map_values(|c: char| lower(c)),
            q == b@.map_values(|c: char| lower(c)),
            forall|k: int| 0 <= k < i ==> p[k] == q[k],
        decreases x@.len() - i,
    {
        if lower_char(x[i]) != lower_char(y[i]) {
            assert(p[i as int] != q[i as int]);
            return false;
        }
        assert(p[i as int] == q[i as int]);
        i = i + 1;
    }
    assert(p =~= q);
    true
}

pub proof fn lemma_decimal_step(n: nat)
    ensures
        n >= 10 ==> decimal(n) == decimal(n / 10).push(('0' as u32 + n % 10) as char),
        n < 10 ==> decimal(n) == seq![('0' as u32 + n % 10) as char],
{
}

/// Appends the decimal digits of a number to a text.
pub fn push_decimal(s: &mut String, n: u64)
    ensures
        final(s)@ == old(s)@ + decimal(n as nat),
    decreases n,
{
    let digit: char = (48u8 + (n % 10) as u8) as char;
    proof {
        lemma_decimal_step(n as nat);
    }
    if n < 10 {
        s.push(digit);
        assert(s@ =~= old(s)@ + decimal(n as nat));
    } else {
        push_decimal(s, n / 10);
        s.push(digit);
        assert(s@ =~= old(s)@ + decimal(n as nat));
    }
}

/// The parts one after the other, with `separator` between each two.
pub fn join_texts(parts: &Vec<String>, separator: &str) -> (r: String)
    ensures
        r@ == join(views(parts@), separator@),
{
    broadcast use group_views;
    let mut r: String = String::new();
    let mut i: usize = 0;
    assert(views(parts@).take(0) =~= Seq::<Seq<char>>::empty());
    while i < parts.len()
        invariant
            i <= parts@.len(),
            r@ == join(views(parts@).take(i as int), separator@),
        decreases parts@.len() - i,
    {
        if i > 0 {
            r.append(separator);
        }
        r.append(parts[i].as_str());
        proof {
            let done = views(parts@).take(i as int);
            let next = views(parts@).take(i + 1);
            assert(next.drop_last() =~= done);
            assert(next.last() == parts@[i as int]@);
            if i == 0 {
                assert(r@ =~= next[0]);
            }
        }
        i = i + 1;
    }
    assert(views(parts@).take(i as int) =~= views(parts@));
    r
}

/// The first position at which the character `c` stands in `chars`.
pub fn find_char(chars: &Vec<char>, c: char) -> (r: Option<usize>)
    ensures
        match r {
            Some(i) => find_char_from(chars@, c, 0) == Some(i as int),
            None => find_char_from(chars@, c, 0) is None,
        },
{
    let mut i: usize = 0;
    while i < chars.len()
        invariant
            i <= chars@.len(),
            find_char_from(chars@, c, i as int) == find_char_from(chars@, c, 0),
        decreases chars@.len() - i,
    {
        if chars[i] == c {
            return Some(i);
        }
        i = i + 1;
    }
    None
}

/// What `find_char_from` finds is the first such character.
pub proof fn lemma_find_char(s: Seq<char>, c: char, from: int)
    requires
        0 <= from,
    ensures
        match find_char_from(s, c, from) {
            Some(i) => from <= i < s.len() && s[i] == c && forall|k: int|
                from <= k < i ==> s[k] != c,
            None => forall|k: int| from <= k < s.len() ==> s[k] != c,
        },
    decreases s.len() - from,
{
    if from < s.len() && s[from] != c {
        lemma_find_char(s, c, from + 1);
    }
}

/// The text cut at every line feed.
pub fn lines_of(chars: &Vec<char>) -> (r: Vec<String>)
    ensures
        views(r@) == split_lines(chars@),
        r@.len() > 0,
{
    broadcast use group_views;
    let mut lines: Vec<String> = Vec::new();
    let mut current: String = String::new();
    let mut i: usize = 0;
    assert(chars@.take(0) =~= Seq::<char>::empty());
    assert(views(lines@).push(current@) =~= split_lines(chars@.take(0)));
    while i < chars.len()
        invariant
            i <= chars@.len(),
            split_lines(chars@.take(i as int)) == views(lines@).push(current@),
        decreases chars@.len() - i,
    {
        let c = chars[i];
        proof {
            let next = chars@.take(i + 1);
            assert(next.drop_last() =~= chars@.take(i as int));
            assert(next.last() == c);
            assert(views(lines@).push(current@).drop_last() =~= views(lines@));
        }
        if c == '\n' {
            lines.push(current);
            current = String::new();
        } else {
            current.push(c);
        }
        i = i + 1;
    }
    assert(chars@.take(i as int) =~= chars@);
    lines.push(current);
    lines
}

/// The range of `chars` without the characters `c` at its two ends.
pub fn stripped(chars: &Vec<char>, c: char) -> (r: (usize, usize))
    ensures
        r.0 <= r.1 <= chars@.len(),
        chars@.subrange(r.0 as int, r.1 as int) == strip_trailing(strip_leading(chars@, c), c),
{
    let n: usize = chars.len();
    let mut a: usize = 0;
    assert(chars@.subrange(0, n as int) =~= chars@);
    while a < n && chars[a] == c
        invariant
            a <= n == chars@.len(),
            strip_leading(chars@.subrange(a as int, n as int), c) == strip_leading(chars@, c),
        decreases n - a,
    {
        assert(chars@.subrange(a as int, n as int).skip(1) =~= chars@.subrange(a + 1, n as int));
        a = a + 1;
    }
    let ghost rest = strip_leading(chars@, c);
    assert(chars@.subrange(a as int, n as int) == rest) by {
        if a < n {
            assert(chars@.subrange(a as int, n as int)[0] == chars@[a as int]);
        }
    }
    let mut b: usize = n;
    while a < b && chars[b - 1] == c
        invariant
            a <= b <= n == chars@.len(),
            strip_trailing(chars@.subrange(a as int, b as int), c) == strip_trailing(rest, c),
        decreases b - a,
    {
        assert(chars@.subrange(a as int, b as int).drop_last() =~= chars@.subrange(
            a as int,
            b - 1,
        ));
        b = b - 1;
    }
    assert(chars@.subrange(a as int, b as int) == strip_trailing(rest, c)) by {
        if a < b {
            assert(chars@.subrange(a as int, b as int).last() == chars@[b - 1]);
        }
    }
    (a, b)
}

/// The text without the white space at its end.
pub fn trim_end_text(s: &str) -> (r: String)
    ensures
        r@ == trim_end(s@),
{
    let chars = chars_of(s);
    let mut b: usize = chars.len();
    assert(chars@.take(b as int) =~= chars@);
    while 0 < b && space(chars[b - 1])
        invariant
            b <= chars@.len(),
            trim_end(chars@.take(b as int)) == trim_end(chars@),
        decreases b,
    {
        assert(chars@.take(b as int).drop_last() =~= chars@.take(b - 1));
        b = b - 1;
    }
    assert(chars@.take(b as int) == trim_end(chars@)) by {
        if 0 < b {
            assert(chars@.take(b as int).last() == chars@[b - 1]);
        }
    }
    assert(chars@.subrange(0, b as int) =~= chars@.take(b as int));
    text_between(&chars, 0, b)
}

pub fn blank(s: &str) -> (r: bool)
    ensures
        r == is_blank(s@),
{
    let chars = chars_of(s);
    let (a, b) = trimmed(&chars, 0, chars.len());
    assert(chars@.subrange(0, chars@.len() as int) =~= chars@);
    assert(chars@.subrange(a as int, b as int).len() == b - a);
    a == b
}

pub fn letter(c: char) -> (r: bool)
    ensures
        r == is_letter(c),
{
    ('a' <= c && c <= 'z') || ('A' <= c && c <= 'Z')
}

pub fn digit(c: char) -> (r: bool)
    ensures
        r == is_digit(c),
{
    '0' <= c && c <= '9'
}

/// What is left of a text at its start starts with no white space.
pub proof fn lemma_trim_start(s: Seq<char>)
    ensures
        trim_start(s).len() <= s.len(),
        trim_start(s) == s.skip(s.len() - trim_start(s).len()),
        trim_start(s).len() > 0 ==> !is_space(trim_start(s)[0]),
        forall|i: int| 0 <= i < s.len() - trim_start(s).len() ==> is_space(#[trigger] s[i]),
    decreases s.len(),
{
    if s.len() > 0 && is_space(s[0]) {
        let rest = s.skip(1);
        lemma_trim_start(rest);
        assert(trim_start(s) =~= s.skip(s.len() - trim_start(s).len()));
        assert forall|i: int| 0 <= i < s.len() - trim_start(s).len() implies is_space(
            #[trigger] s[i],
        ) by {
            if i > 0 {
                assert(s[i] == rest[i - 1]);
            }
        }
    } else {
        assert(s.skip(0) =~= s);
    }
}

/// What is left of a text at its end ends with no white space.
pub proof fn lemma_trim_end(s: Seq<char>)
    ensures
        trim_end(s).len() <= s.len(),
        trim_end(s) == s.take(trim_end(s).len() as int),
        trim_end(s).len() > 0 ==> !is_space(trim_end(s).last()),
        forall|i: int| trim_end(s).len() <= i < s.len() ==> is_space(#[trigger] s[i]),
    decreases s.len(),
{
    if s.len() > 0 && is_space(s.last()) {
        let rest = s.drop_last();
        lemma_trim_end(rest);
        assert(trim_end(s) =~= s.take(trim_end(s).len() as int));
        assert forall|i: int| trim_end(s).len() <= i < s.len() implies is_space(#[trigger] s[i]) by {
            if i < s.len() - 1 {
                assert(s[i] == rest[i]);
            }
        }
    } else {
        assert(s.take(s.len() as int) =~= s);
    }
}

/// A trimmed text has white space at neither end.
pub proof fn lemma_trim(s: Seq<char>)
    ensures
        trim(s).len() <= s.len(),
        trim(s).len() > 0 ==> !is_space(trim(s)[0]) && !is_space(trim(s).last()),
{
    lemma_trim_start(s);
    lemma_trim_end(trim_start(s));
}

/// A text with white space at neither end is trimmed.
pub proof fn lemma_trim_id(s: Seq<char>)
    requires
        s.len() > 0 ==> !is_space(s[0]) && !is_space(s.last()),
    ensures
        trim_start(s) == s,
        trim_end(s) == s,
        trim(s) == s,
{
}

/// White space at the end of a text is trimmed off.
pub proof fn lemma_trim_end_drops(s: Seq<char>, space: Seq<char>)
    requires
        forall|i: int| 0 <= i < space.len() ==> is_space(#[trigger] space[i]),
    ensures
        trim_end(s + space) == trim_end(s),
    decreases space.len(),
{
    if space.len() > 0 {
        assert((s + space).drop_last() =~= s + space.drop_last());
        assert((s + space).last() == space[space.len() - 1]);
        assert forall|i: int| 0 <= i < space.drop_last().len() implies is_space(
            #[trigger] space.drop_last()[i],
        ) by {
            assert(is_space(space[i]));
        }
        lemma_trim_end_drops(s, space.drop_last());
    } else {
        assert(s + space =~= s);
    }
}

/// Trimming twice is trimming once.
pub proof fn lemma_trim_twice(s: Seq<char>)
    ensures
        trim(trim(s)) == trim(s),
{
    lemma_trim(s);
    lemma_trim_id(trim(s));
}

/// There is always a line.
pub proof fn lemma_split_some(s: Seq<char>)
    ensures
        split_lines(s).len() > 0,
    decreases s.len(),
{
    if s.len() > 0 {
        lemma_split_some(s.drop_last());
    }
}

/// A line feed cuts a text in two.
pub proof fn lemma_split_at_feed(a: Seq<char>, b: Seq<char>)
    ensures
        split_lines(a.push('\n') + b) == split_lines(a) + split_lines(b),
    decreases b.len(),
{
    if b.len() == 0 {
        assert(a.push('\n') + b =~= a.push('\n'));
        assert(a.push('\n').drop_last() =~= a);
        assert(split_lines(a.push('\n')) =~= split_lines(a) + split_lines(b));
    } else {
        let all = a.push('\n') + b;
        assert(all.drop_last() =~= a.push('\n') + b.drop_last());
        assert(all.last() == b.last());
        lemma_split_at_feed(a, b.drop_last());
        lemma_split_some(b.drop_last());
        let x = split_lines(a);
        let y = split_lines(b.drop_last());
        assert((x + y).drop_last() =~= x + y.drop_last());
        assert((x + y).last() == y.last());
        assert(split_lines(all) =~= x + split_lines(b));
    }
}

/// A text without a line feed before another one only makes its first line
/// longer.
pub proof fn lemma_split_prefix(prefix: Seq<char>, s: Seq<char>)
    requires
        forall|i: int| 0 <= i < prefix.len() ==> #[trigger] prefix[i] != '\n',
    ensures
        split_lines(prefix + s) == split_lines(s).update(0, prefix + split_lines(s)[0]),
    decreases prefix.len() + s.len(),
{
    lemma_split_some(s);
    if s.len() == 0 {
        assert(prefix + s =~= prefix);
        let lines = split_lines(s);
        assert(lines =~= seq![Seq::<char>::empty()]);
        if prefix.len() > 0 {
            let front = prefix.drop_last();
            assert forall|i: int| 0 <= i < front.len() implies #[trigger] front[i] != '\n' by {
                assert(prefix[i] != '\n');
            }
            lemma_split_prefix(front, s);
            assert(front + s =~= front);
            assert(front + lines[0] =~= front);
            assert(split_lines(front) =~= seq![front]);
            assert(prefix[prefix.len() - 1] != '\n');
            assert(front.push(prefix.last()) =~= prefix);
            assert(split_lines(prefix) =~= seq![prefix]);
            assert(prefix + lines[0] =~= prefix);
        } else {
            assert(prefix + lines[0] =~= Seq::<char>::empty());
            assert(prefix =~= Seq::<char>::empty());
        }
        assert(split_lines(prefix + s) =~= lines.update(0, prefix + lines[0]));
    } else {
        let front = s.drop_last();
        assert((prefix + s).drop_last() =~= prefix + front);
        assert((prefix + s).last() == s.last());
        lemma_split_prefix(prefix, front);
        lemma_split_some(front);
        let before = split_lines(front);
        let lines = split_lines(s);
        if s.last() == '\n' {
            assert(split_lines(prefix + s) =~= lines.update(0, prefix + lines[0]));
        } else if before.len() == 1 {
            assert((prefix + before[0]).push(s.last()) =~= prefix + before[0].push(s.last()));
            assert(split_lines(prefix + s) =~= lines.update(0, prefix + lines[0]));
        } else {
            assert(split_lines(prefix + s) =~= lines.update(0, prefix + lines[0]));
        }
    }
}

/// The lines of a text, put together again, are the text.
pub proof fn lemma_join_split(s: Seq<char>)
    ensures
        join(split_lines(s), seq!['\n']) == s,
    decreases s.len(),
{
    if s.len() > 0 {
        let front = s.drop_last();
        lemma_join_split(front);
        lemma_split_some(front);
        let before = split_lines(front);
        let lines = split_lines(s);
        assert(front.push(s.last()) =~= s);
        if s.last() == '\n' {
            assert(lines.drop_last() =~= before);
            assert(join(lines, seq!['\n']) =~= front + seq!['\n'] + Seq::<char>::empty());
            assert(front + seq!['\n'] + Seq::<char>::empty() =~= s);
        } else if before.len() == 1 {
            assert(join(lines, seq!['\n']) =~= s);
        } else {
            assert(lines.drop_last() =~= before.drop_last());
            assert(join(lines, seq!['\n']) =~= s);
        }
    }
}

/// A text that starts with something else than a line feed or white space has a
/// first line that is not blank.
pub proof fn lemma_first_line(s: Seq<char>)
    requires
        s.len() > 0,
        s[0] != '\n',
    ensures
        split_lines(s)[0].len() > 0,
        split_lines(s)[0][0] == s[0],
        !is_space(s[0]) ==> !is_blank(split_lines(s)[0]),
    decreases s.len(),
{
    lemma_split_some(s.drop_last());
    if s.len() == 1 {
        assert(s.drop_last() =~= Seq::<char>::empty());
        assert(split_lines(s)[0] =~= s);
    } else {
        lemma_first_line(s.drop_last());
    }
    if !is_space(s[0]) {
        lemma_not_blank(split_lines(s)[0]);
    }
}

/// A text that starts with no white space is not blank.
pub proof fn lemma_not_blank(s: Seq<char>)
    requires
        s.len() > 0,
        !is_space(s[0]),
    ensures
        !is_blank(s),
{
    lemma_trim_end(s);
}

/// Texts that differ in case alone are equally long.
pub proof fn lemma_same_length(a: Seq<char>, b: Seq<char>)
    ensures
        same_ignoring_case(a, b) ==> a.len() == b.len(),
{
    assert(a.map_values(|c: char| lower(c)).len() == a.len());
    assert(b.map_values(|c: char| lower(c)).len() == b.len());
}

/// Texts that differ in case alone have the same letters.
pub proof fn lemma_same_char(a: Seq<char>, b: Seq<char>, i: int)
    requires
        same_ignoring_case(a, b),
        0 <= i < a.len(),
    ensures
        i < b.len(),
        lower(a[i]) == lower(b[i]),
{
    lemma_same_length(a, b);
    let x = a.map_values(|c: char| lower(c));
    let y = b.map_values(|c: char| lower(c));
    assert(x[i] == lower(a[i]));
    assert(y[i] == lower(b[i]));
    assert(x == y);
}

} // verus!
