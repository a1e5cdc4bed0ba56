//! Local refs mirroring each pull request's head branch.
//!
//! There is no metadata store: everything lives in commit trailers or is
//! recomputed from the graph. That is deliberate (a metadata store is a thing
//! that can disagree with reality), but it does mean the synthesized commits
//! that get pushed are not reachable from anything local, so they are invisible
//! to `git log`, `git range-diff` and friends, and are eventually garbage
//! collected. These refs fix that.

use vstd::prelude::*;

use crate::oid::Oid;
use crate::reference;
use crate::reference::read_number;
use crate::tape;
use crate::tape::{Halt, HaltView, Request, RequestView, Tape, TapeView};
use crate::text;
use crate::text::{chars_of, push_decimal};

verus! {

/// The reference that points at the head of a pull request.
pub open spec fn head_ref(number: u64) -> Seq<char> {
    "refs/nspr/pr/"@ + text::decimal(number as nat)
}

/// The reference that points at the first commit of a pull request's branch.
pub open spec fn root_ref(number: u64) -> Seq<char> {
    "refs/nspr/root/"@ + text::decimal(number as nat)
}

pub fn ref_name(number: u64) -> (r: String)
    ensures
        r@ == head_ref(number),
{
    let mut name = "refs/nspr/pr/".to_owned();
    push_decimal(&mut name, number);
    name
}

pub fn root_ref_name(number: u64) -> (r: String)
    ensures
        r@ == root_ref(number),
{
    let mut name = "refs/nspr/root/".to_owned();
    push_decimal(&mut name, number);
    name
}

pub open spec fn updated(t: TapeView, number: u64, oid: Oid) -> (TapeView, Result<(), HaltView>) {
    tape::ask_unit(
        t,
        RequestView::SetReference {
            name: head_ref(number),
            oid,
            reason: "nspr: pull request head"@,
        },
    )
}

pub open spec fn root_updated(t: TapeView, number: u64, oid: Oid) -> (
    TapeView,
    Result<(), HaltView>,
) {
    tape::ask_unit(
        t,
        RequestView::SetReference {
            name: root_ref(number),
            oid,
            reason: "nspr: pull request root commit"@,
        },
    )
}

pub open spec fn removed(t: TapeView, number: u64) -> (TapeView, Result<(), HaltView>) {
    tape::bind(
        tape::ask_unit(t, RequestView::DeleteReference { name: head_ref(number) }),
        |t: TapeView, u: ()|
            tape::ask_unit(t, RequestView::DeleteReference { name: root_ref(number) }),
    )
}

/// Points `refs/nspr/pr/<number>` at `oid`.
pub fn update(t: &mut Tape, number: u64, oid: Oid) -> (r: Result<(), Halt>)
    ensures
        (final(t)@, tape::outcome(r)) == updated(old(t)@, number, oid),
{
    t.unit(
        Request::SetReference {
            name: ref_name(number),
            oid,
            reason: "nspr: pull request head".to_owned(),
        },
    )
}

/// Records the initial commit of a pull request's branch.
pub fn update_root(t: &mut Tape, number: u64, root_oid: Oid) -> (r: Result<(), Halt>)
    ensures
        (final(t)@, tape::outcome(r)) == root_updated(old(t)@, number, root_oid),
{
    t.unit(
        Request::SetReference {
            name: root_ref_name(number),
            oid: root_oid,
            reason: "nspr: pull request root commit".to_owned(),
        },
    )
}

/// Looks up the head of a pull request that was last pushed, if recorded.
pub fn get(t: &mut Tape, number: u64) -> (r: Result<Option<Oid>, Halt>)
    ensures
        (final(t)@, tape::outcome(r)) == tape::ask_maybe_object(
            old(t)@,
            RequestView::ReferenceTarget { name: head_ref(number) },
        ),
{
    t.maybe_object(Request::ReferenceTarget { name: ref_name(number) })
}

/// Looks up the initial commit of a pull request's branch, if recorded.
pub fn get_root(t: &mut Tape, number: u64) -> (r: Result<Option<Oid>, Halt>)
    ensures
        (final(t)@, tape::outcome(r)) == tape::ask_maybe_object(
            old(t)@,
            RequestView::ReferenceTarget { name: root_ref(number) },
        ),
{
    t.maybe_object(Request::ReferenceTarget { name: root_ref_name(number) })
}

/// Drops the refs for a pull request, once it is merged or closed.
pub fn remove(t: &mut Tape, number: u64) -> (r: Result<(), Halt>)
    ensures
        (final(t)@, tape::outcome(r)) == removed(old(t)@, number),
{
    t.unit(Request::DeleteReference { name: ref_name(number) })?;
    t.unit(Request::DeleteReference { name: root_ref_name(number) })
}

/// Where the part after the last slash starts.
pub open spec fn last_part(s: Seq<char>, n: int) -> int
    decreases n,
{
    if n <= 0 || s[n - 1] == '/' {
        n
    } else {
        last_part(s, n - 1)
    }
}

/// The number of the pull request that a reference belongs to.
pub open spec fn number_in(name: Seq<char>) -> Option<u64> {
    let part = name.skip(last_part(name, name.len() as int));
    if part.len() == 0 {
        None
    } else {
        match reference::number_of(
            if part[0] == '+' && part.len() > 1 {
                part.skip(1)
            } else {
                part
            },
        ) {
            Ok(n) => Some(n),
            Err(_) => None,
        }
    }
}

fn read_ref_number(name: &str) -> (r: Option<u64>)
    ensures
        r == number_in(name@),
{
    let chars = chars_of(name);
    let mut n: usize = chars.len();
    while n > 0 && chars[n - 1] != '/'
        invariant
            n <= chars@.len(),
            last_part(chars@, n as int) == last_part(chars@, chars@.len() as int),
        decreases n,
    {
        n = n - 1;
    }
    let ghost part = name@.skip(n as int);
    if n == chars.len() {
        return None;
    }
    assert(part[0] == chars@[n as int]);
    let mut from: usize = n;
    if chars[n] == '+' && n + 1 < chars.len() {
        from = n + 1;
        assert(chars@.subrange(from as int, chars@.len() as int) =~= part.skip(1));
    } else {
        assert(chars@.subrange(from as int, chars@.len() as int) =~= part);
    }
    match read_number(&chars, from, chars.len()) {
        Ok(n) => Some(n),
        Err(_) => None,
    }
}

/// The numbers among the first `n` references.
pub open spec fn numbers_in(names: Seq<Seq<char>>, n: int) -> Seq<u64>
    decreases n,
{
    if n <= 0 {
        Seq::empty()
    } else {
        match number_in(names[n - 1]) {
            Some(number) => inserted(numbers_in(names, n - 1), number),
            None => numbers_in(names, n - 1),
        }
    }
}

/// Where a number goes into a sorted sequence: after all that are not larger.
pub open spec fn place_in(s: Seq<u64>, number: u64, n: int) -> int
    decreases n,
{
    if n <= 0 || s[n - 1] <= number {
        n
    } else {
        place_in(s, number, n - 1)
    }
}

pub open spec fn inserted(s: Seq<u64>, number: u64) -> Seq<u64> {
    s.insert(place_in(s, number, s.len() as int), number)
}

/// Every pull request that the given references, those under `refs/nspr/pr/`,
/// are for, in ascending order.
pub fn all(names: &Vec<String>) -> (r: Vec<u64>)
    ensures
        r@ == numbers_in(names.deep_view(), names@.len() as int),
{
    let mut out: Vec<u64> = Vec::new();
    let mut i: usize = 0;
    while i < names.len()
        invariant
            i <= names@.len(),
            out@ == numbers_in(names.deep_view(), i as int),
        decreases names@.len() - i,
    {
        assert(names.deep_view()[i as int] == names@[i as int]@);
        match read_ref_number(names[i].as_str()) {
            Some(number) => {
                let mut k: usize = out.len();
                while k > 0 && out[k - 1] > number
                    invariant
                        k <= out@.len(),
                        place_in(out@, number, k as int) == place_in(
                            out@,
                            number,
                            out@.len() as int,
                        ),
                    decreases k,
                {
                    k = k - 1;
                }
                out.insert(k, number);
            },
            None => {},
        }
        i = i + 1;
    }
    out
}

pub open spec fn is_sorted(s: Seq<u64>) -> bool {
    forall|i: int, j: int| 0 <= i <= j < s.len() ==> s[i] <= s[j]
}

proof fn lemma_place_in(s: Seq<u64>, number: u64, n: int)
    requires
        0 <= n <= s.len(),
    ensures
        0 <= place_in(s, number, n) <= n,
        place_in(s, number, n) > 0 ==> s[place_in(s, number, n) - 1] <= number,
        forall|k: int| place_in(s, number, n) <= k < n ==> s[k] > number,
    decreases n,
{
    if n > 0 && s[n - 1] > number {
        lemma_place_in(s, number, n - 1);
    }
}

/// The numbers come out in ascending order, and they are exactly those that the
/// references name.
pub proof fn law_all(names: Seq<Seq<char>>, n: int)
    requires
        0 <= n <= names.len(),
    ensures
        is_sorted(numbers_in(names, n)),
        forall|number: u64|
            #[trigger] numbers_in(names, n).contains(number) <==> exists|i: int|
                0 <= i < n && number_in(#[trigger] names[i]) == Some(number),
    decreases n,
{
    if n > 0 {
        law_all(names, n - 1);
        let before = numbers_in(names, n - 1);
        match number_in(names[n - 1]) {
            Some(number) => {
                let k = place_in(before, number, before.len() as int);
                lemma_place_in(before, number, before.len() as int);
                let after = before.insert(k, number);
                assert(after == numbers_in(names, n));
                assert forall|i: int, j: int| 0 <= i <= j < after.len() implies after[i]
                    <= after[j] by {
                    if i < k && j > k {
                        assert(before[i] <= before[j - 1]);
                    } else if i < k && j < k {
                        assert(before[i] <= before[j]);
                    } else if i < k && j == k {
                        assert(before[i] <= before[k - 1]);
                    } else if i > k {
                        assert(before[i - 1] <= before[j - 1]);
                    }
                }
                assert forall|m: u64| #[trigger] after.contains(m) <==> exists|i: int|
                    0 <= i < n && number_in(#[trigger] names[i]) == Some(m) by {
                    if after.contains(m) {
                        let i = choose|i: int| 0 <= i < after.len() && after[i] == m;
                        if i == k {
                            assert(number_in(names[n - 1]) == Some(m));
                        } else {
                            let b = if i < k {
                                i
                            } else {
                                i - 1
                            };
                            assert(before[b] == m);
                            assert(before.contains(m));
                        }
                    }
                    if exists|i: int| 0 <= i < n && number_in(#[trigger] names[i]) == Some(m) {
                        let i = choose|i: int|
                            0 <= i < n && number_in(#[trigger] names[i]) == Some(m);
                        if i == n - 1 {
                            assert(after[k] == m);
                        } else {
                            assert(before.contains(m));
                            let b = choose|b: int| 0 <= b < before.len() && before[b] == m;
                            if b < k {
                                assert(after[b] == m);
                            } else {
                                assert(after[b + 1] == m);
                            }
                        }
                    }
                }
            },
            None => {
                assert forall|m: u64| #[trigger] before.contains(m) <==> exists|i: int|
                    0 <= i < n && number_in(#[trigger] names[i]) == Some(m) by {
                    if exists|i: int| 0 <= i < n && number_in(#[trigger] names[i]) == Some(m) {
                        let i = choose|i: int|
                            0 <= i < n && number_in(#[trigger] names[i]) == Some(m);
                        assert(i < n - 1);
                    }
                }
            },
        }
    } else {
        assert(numbers_in(names, n) =~= Seq::<u64>::empty());
    }
}

proof fn lemma_digits_apart(a: nat, b: nat)
    requires
        text::decimal(a) == text::decimal(b),
    ensures
        a == b,
    decreases a,
{
    text::lemma_decimal_step(a);
    text::lemma_decimal_step(b);
    let x = text::decimal(a);
    let y = text::decimal(b);
    assert(x.last() == y.last());
    assert(a % 10 == b % 10);
    if a >= 10 {
        text::lemma_decimal_step(a / 10);
        if b >= 10 {
            assert(x.drop_last() =~= text::decimal(a / 10));
            assert(y.drop_last() =~= text::decimal(b / 10));
            lemma_digits_apart(a / 10, b / 10);
        }
    } else if b >= 10 {
        text::lemma_decimal_step(b / 10);
    }
}

/// Every reference is known by its number: no two pull requests have one in common, and
/// the two kinds differ.
pub proof fn law_references_differ(a: u64, b: u64)
    ensures
        root_ref(a) == root_ref(b) ==> a == b,
        head_ref(a) == head_ref(b) ==> a == b,
        head_ref(a) != root_ref(b),
{
    reveal_strlit("refs/nspr/pr/");
    reveal_strlit("refs/nspr/root/");
    let x = text::decimal(a as nat);
    let y = text::decimal(b as nat);
    if root_ref(a) == root_ref(b) {
        assert(x =~= root_ref(a).skip(15));
        assert(y =~= root_ref(b).skip(15));
        lemma_digits_apart(a as nat, b as nat);
    }
    if head_ref(a) == head_ref(b) {
        assert(x =~= head_ref(a).skip(13));
        assert(y =~= head_ref(b).skip(13));
        lemma_digits_apart(a as nat, b as nat);
    }
    assert(head_ref(a)[10] == 'p');
    assert(root_ref(b)[10] == 'r');
}

} // verus!
