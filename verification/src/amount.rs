//! 256-bit amounts and their decimal text form.
//!
//! An amount is four 64-bit limbs, least significant first; its view is the
//! natural number those limbs spell. Subtraction, parsing and printing are
//! done by the `ethers` big-integer type; what is assumed of it is stated on
//! the three private functions at the end of this file.
use vstd::prelude::*;
use vstd::std_specs::cmp::PartialEqSpecImpl;

verus! {

/// The largest amount, 2^256 - 1.
pub open spec fn max_amount() -> nat {
    0xffff_ffff_ffff_ffff_ffff_ffff_ffff_ffff_ffff_ffff_ffff_ffff_ffff_ffff_ffff_ffffnat
}

/// An unsigned 256-bit integer.
#[derive(Debug, Clone, Copy, Eq)]
pub struct U256 {
    pub limbs: [u64; 4],
}

impl View for U256 {
    type V = nat;

    open spec fn view(&self) -> nat {
        self.limbs@[0] as nat + self.limbs@[1] as nat * 0x1_0000_0000_0000_0000
            + self.limbs@[2] as nat * 0x1_0000_0000_0000_0000_0000_0000_0000_0000nat
            + self.limbs@[3] as nat
            * 0x1_0000_0000_0000_0000_0000_0000_0000_0000_0000_0000_0000_0000nat
    }
}

impl PartialEq for U256 {
    fn eq(&self, other: &U256) -> (r: bool) {
        let r = self.limbs[0] == other.limbs[0] && self.limbs[1] == other.limbs[1]
            && self.limbs[2] == other.limbs[2] && self.limbs[3] == other.limbs[3];
        proof {
            if r {
                assert(self.limbs =~= other.limbs);
            }
        }
        r
    }
}

impl PartialEqSpecImpl for U256 {
    open spec fn obeys_eq_spec() -> bool {
        true
    }

    open spec fn eq_spec(&self, other: &U256) -> bool {
        *self == *other
    }
}

/// Why a text is not the decimal form of an amount.
#[derive(Debug, Clone, Copy, PartialEq, Eq, Structural)]
pub enum DecimalError {
    /// Some character is not one of `0` to `9`.
    InvalidCharacter,
    /// The digits spell a number above 2^256 - 1.
    InvalidLength,
}

impl DecimalError {
    /// The fault in words.
    pub open spec fn text(self) -> Seq<char> {
        match self {
            DecimalError::InvalidCharacter => "a character is not in the range 0-9"@,
            DecimalError::InvalidLength => "the number is too large for the type"@,
        }
    }

    /// The fault in words.
    pub fn message(&self) -> (words: String)
        ensures
            words@ == self.text(),
    {
        match self {
            DecimalError::InvalidCharacter => "a character is not in the range 0-9".to_owned(),
            DecimalError::InvalidLength => "the number is too large for the type".to_owned(),
        }
    }
}

/// Whether `c` is one of the ten ASCII digits.
pub open spec fn is_decimal_digit(c: char) -> bool {
    '0' <= c && c <= '9'
}

/// The number that the digit `c` stands for.
pub open spec fn digit_value(c: char) -> nat {
    (c as u32 - '0' as u32) as nat
}

/// The digit that stands for `d`, for `d` below ten.
pub open spec fn digit_char(d: nat) -> char {
    (d + '0' as u32) as char
}

/// What a text means as a decimal amount, reading left to right: the number
/// it spells, or the first fault met. A character that is no digit is a
/// fault where it stands; a digit is a fault where the number read so far,
/// that digit included, exceeds the largest amount. The empty text spells
/// zero.
pub open spec fn parse_decimal(s: Seq<char>) -> Result<nat, DecimalError>
    decreases s.len(),
{
    if s.len() == 0 {
        Ok(0nat)
    } else {
        match parse_decimal(s.drop_last()) {
            Err(e) => Err(e),
            Ok(v) => if !is_decimal_digit(s.last()) {
                Err(DecimalError::InvalidCharacter)
            } else if v * 10 + digit_value(s.last()) > max_amount() {
                Err(DecimalError::InvalidLength)
            } else {
                Ok(v * 10 + digit_value(s.last()))
            },
        }
    }
}

/// The decimal form of `n`: its digits, most significant first, without
/// leading zeros; zero is the single digit `0`.
pub open spec fn decimal_digits(n: nat) -> Seq<char>
    decreases n,
{
    if n < 10 {
        seq![digit_char(n)]
    } else {
        decimal_digits(n / 10).push(digit_char(n % 10))
    }
}

/// An amount is told by its number: two amounts that spell the same number
/// are the same amount, and no amount exceeds the largest.
pub proof fn lemma_amount_is_its_number(a: U256, b: U256)
    ensures
        a@ <= max_amount(),
        a@ == b@ ==> a == b,
{
    if a@ == b@ {
        assert(a.limbs@[3] == b.limbs@[3]);
        assert(a.limbs@[2] == b.limbs@[2]);
        assert(a.limbs@[1] == b.limbs@[1]);
        assert(a.limbs@[0] == b.limbs@[0]);
        assert(a.limbs =~= b.limbs);
    }
}

/// Reading what was printed gives back the amount that was printed.
pub proof fn lemma_decimal_round_trip(n: nat)
    requires
        n <= max_amount(),
    ensures
        parse_decimal(decimal_digits(n)) == Ok::<nat, DecimalError>(n),
    decreases n,
{
    let text = decimal_digits(n);
    if n < 10 {
        assert(text.drop_last() =~= Seq::<char>::empty());
        assert(parse_decimal(text.drop_last()) == Ok::<nat, DecimalError>(0nat));
        assert(text.last() == digit_char(n));
    } else {
        lemma_decimal_round_trip(n / 10);
        assert(text.drop_last() =~= decimal_digits(n / 10));
        assert(text.last() == digit_char(n % 10));
    }
}

impl U256 {
    /// The amount zero.
    pub fn zero() -> (z: U256)
        ensures
            z@ == 0,
    {
        U256 { limbs: [0u64; 4] }
    }

    /// Whether the amount is zero.
    pub fn is_zero(&self) -> (r: bool)
        ensures
            r == (self@ == 0),
    {
        self.limbs[0] == 0 && self.limbs[1] == 0 && self.limbs[2] == 0 && self.limbs[3] == 0
    }

    /// `self - other`, or zero where `other` is the larger.
    pub fn saturating_sub(&self, other: &U256) -> (d: U256)
        ensures
            d@ == if self@ >= other@ {
                self@ - other@
            } else {
                0
            },
    {
        match checked_sub(self, other) {
            Some(d) => d,
            None => U256::zero(),
        }
    }

    /// Reads a decimal text as an amount.
    pub fn from_dec_str(text: &str) -> (r: Result<U256, DecimalError>)
        ensures
            match r {
                Ok(v) => parse_decimal(text@) == Ok::<nat, DecimalError>(v@),
                Err(e) => parse_decimal(text@) == Err::<nat, DecimalError>(e),
            },
    {
        parse_dec(text)
    }

    /// The amount in decimal.
    pub fn to_dec_string(&self) -> (text: String)
        ensures
            text@ == decimal_digits(self@),
    {
        format_dec(self)
    }
}

/// `ethers::types::U256::checked_sub`: the difference of two amounts where
/// the first is at least the second, and nothing where it is smaller.
#[verifier::external_body]
fn checked_sub(a: &U256, b: &U256) -> (r: Option<U256>)
    ensures
        r is Some <==> a@ >= b@,
        r matches Some(d) ==> d@ == a@ - b@,
{
    match ethers::types::U256(a.limbs).checked_sub(ethers::types::U256(b.limbs)) {
        Some(d) => Some(U256 { limbs: d.0 }),
        None => None,
    }
}

/// `ethers::types::U256::from_dec_str`: reads the text byte by byte from the
/// left, fails on the first byte that is no ASCII digit and on the first
/// digit with which the number leaves the 256-bit range, and otherwise gives
/// the number spelled. Its two errors are handed on under the same names.
#[verifier::external_body]
fn parse_dec(text: &str) -> (r: Result<U256, DecimalError>)
    ensures
        match r {
            Ok(v) => parse_decimal(text@) == Ok::<nat, DecimalError>(v@),
            Err(e) => parse_decimal(text@) == Err::<nat, DecimalError>(e),
        },
{
    match ethers::types::U256::from_dec_str(text) {
        Ok(v) => Ok(U256 { limbs: v.0 }),
        Err(ethers::abi::ethereum_types::FromDecStrErr::InvalidCharacter) => Err(
            DecimalError::InvalidCharacter,
        ),
        Err(ethers::abi::ethereum_types::FromDecStrErr::InvalidLength) => Err(
            DecimalError::InvalidLength,
        ),
    }
}

/// `Display` of `ethers::types::U256`, through `to_string`: the decimal
/// digits of the number, most significant first, `0` for zero, with no sign,
/// padding or separators.
#[verifier::external_body]
fn format_dec(a: &U256) -> (text: String)
    ensures
        text@ == decimal_digits(a@),
{
    ethers::types::U256(a.limbs).to_string()
}

} // verus!
