//! Names of git objects.

use vstd::prelude::*;

use crate::text;

verus! {

/// The name of a git object: a number of one hundred and sixty bits.
#[derive(Debug, Clone, Copy, PartialEq, Eq, Structural)]
pub struct Oid {
    /// The first sixteen bytes of the name, the most significant one first.
    pub high: u128,
    /// The last four bytes of the name, the most significant one first.
    pub low: u32,
}

/// The number that an object name is.
pub open spec fn oid_value(oid: Oid) -> nat {
    (oid.high * 0x1_0000_0000 + oid.low) as nat
}

pub open spec fn hex_digit(n: nat) -> char {
    if n < 10 {
        ('0' as u32 + n) as char
    } else {
        ('a' as u32 + (n - 10)) as char
    }
}

/// The last `len` hexadecimal digits of a number.
pub open spec fn hex_digits(n: nat, len: nat) -> Seq<char>
    decreases len,
{
    if len == 0 {
        Seq::empty()
    } else {
        hex_digits(n / 16, (len - 1) as nat).push(hex_digit(n % 16))
    }
}

/// The forty hexadecimal digits of an object name.
pub open spec fn oid_hex(oid: Oid) -> Seq<char> {
    hex_digits(oid_value(oid), 40)
}

/// The number that a hexadecimal digit stands for.
pub open spec fn digit_value(c: char) -> nat {
    if text::is_digit(c) {
        (c as nat - '0' as nat) as nat
    } else if 'a' <= c <= 'f' {
        (c as nat - 'a' as nat + 10) as nat
    } else {
        (c as nat - 'A' as nat + 10) as nat
    }
}

/// The number that a run of hexadecimal digits stands for.
pub open spec fn hex_value(s: Seq<char>) -> nat
    decreases s.len(),
{
    if s.len() == 0 {
        0
    } else {
        hex_value(s.drop_last()) * 16 + digit_value(s.last())
    }
}

/// One to forty hexadecimal digits.
pub open spec fn names_object(s: Seq<char>) -> bool {
    0 < s.len() <= 40 && forall|i: int|
        0 <= i < s.len() ==> text::is_hex_digit(#[trigger] s[i])
}

/// The digits filled up with zeros to forty.
pub open spec fn filled(s: Seq<char>) -> Seq<char> {
    s + Seq::new((40 - s.len()) as nat, |i: int| '0')
}

/// `git2::Oid::from_str`: reads one to forty hexadecimal digits, of either
/// case, as an object name, a shorter run being filled up with zeros at its
/// end; any other text is refused.
#[verifier::external_body]
fn read_oid(text: &str) -> (r: Option<Oid>)
    ensures
        r is Some <==> names_object(text@),
        r matches Some(oid) ==> oid_value(oid) == hex_value(filled(text@)),
{
    let oid = git2::Oid::from_str(text).ok()?;
    let bytes = oid.as_bytes();
    Some(Oid {
        high: u128::from_be_bytes(bytes[..16].try_into().ok()?),
        low: u32::from_be_bytes(bytes[16..].try_into().ok()?),
    })
}

/// The `Display` of `git2::Oid`: the forty hexadecimal digits of the name, in
/// lower case.
#[verifier::external_body]
fn write_oid(oid: Oid) -> (r: String)
    ensures
        r@ == oid_hex(oid),
{
    let mut bytes = [0u8; 20];
    bytes[..16].copy_from_slice(&oid.high.to_be_bytes());
    bytes[16..].copy_from_slice(&oid.low.to_be_bytes());
    git2::Oid::from_bytes(&bytes).unwrap().to_string()
}

impl Oid {
    /// The name of no object.
    pub fn zero() -> (r: Oid)
        ensures
            oid_value(r) == 0,
            r == zero_oid(),
    {
        Oid { high: 0, low: 0 }
    }

    /// Reads one to forty hexadecimal digits.
    pub fn parse(text: &str) -> (r: Option<Oid>)
        ensures
            r is Some <==> names_object(text@),
            r matches Some(oid) ==> oid_value(oid) == hex_value(filled(text@)),
    {
        read_oid(text)
    }

    /// The forty hexadecimal digits of the name.
    pub fn text(self) -> (r: String)
        ensures
            r@ == oid_hex(self),
    {
        write_oid(self)
    }
}

pub open spec fn zero_oid() -> Oid {
    Oid { high: 0, low: 0 }
}

/// Two names with the same number are the same.
pub proof fn law_number_tells_oid(a: Oid, b: Oid)
    requires
        oid_value(a) == oid_value(b),
    ensures
        a == b,
{
    assert(a.high == b.high && a.low == b.low) by (nonlinear_arith)
        requires
            a.high * 0x1_0000_0000 + a.low == b.high * 0x1_0000_0000 + b.low,
            0 <= a.low < 0x1_0000_0000,
            0 <= b.low < 0x1_0000_0000,
    ;
}

proof fn lemma_hex_round_trip(n: nat, len: nat)
    requires
        n < vstd::arithmetic::power::pow(16, len),
    ensures
        hex_value(hex_digits(n, len)) == n,
        hex_digits(n, len).len() == len,
        forall|i: int|
            0 <= i < len ==> text::is_hex_digit(#[trigger] hex_digits(n, len)[i]),
    decreases len,
{
    reveal(vstd::arithmetic::power::pow);
    if len > 0 {
        let front = hex_digits(n / 16, (len - 1) as nat);
        assert(n / 16 < vstd::arithmetic::power::pow(16, (len - 1) as nat)) by (nonlinear_arith)
            requires
                n < 16 * vstd::arithmetic::power::pow(16, (len - 1) as nat),
        ;
        lemma_hex_round_trip(n / 16, (len - 1) as nat);
        let all = hex_digits(n, len);
        assert(all.drop_last() =~= front);
        assert forall|i: int| 0 <= i < len implies text::is_hex_digit(#[trigger] all[i]) by {
            if i < len - 1 {
                assert(all[i] == front[i]);
            }
        }
    }
}

/// An object name that is written out and read in again is the same name.
pub proof fn law_oid_round_trip(oid: Oid)
    ensures
        names_object(oid_hex(oid)),
        hex_value(filled(oid_hex(oid))) == oid_value(oid),
{
    assert(oid_value(oid) < vstd::arithmetic::power::pow(16, 40)) by {
        assert(vstd::arithmetic::power::pow(16, 40) == 0x1_0000_0000_0000_0000_0000_0000_0000_0000_0000_0000)
            by {
            reveal_with_fuel(vstd::arithmetic::power::pow, 41);
        }
        assert(oid.high * 0x1_0000_0000 + oid.low
            <= 0xffff_ffff_ffff_ffff_ffff_ffff_ffff_ffff_ffff_ffffint);
    }
    lemma_hex_round_trip(oid_value(oid), 40);
    assert(filled(oid_hex(oid)) =~= oid_hex(oid));
}

} // verus!
