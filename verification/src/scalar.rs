//! Scalars as IEEE-754 double-precision bit patterns.
//!
//! The engine carries every scalar as the `u64` bit pattern of a double.
//! Arithmetic on those patterns is delegated to the `rustc_apfloat` software
//! float library, which rounds exactly as IEEE-754 prescribes and therefore
//! returns the same bits for the same operands on every machine. Each
//! operation's result is named by an uninterpreted spec function, so contracts
//! can speak of folded values exactly.
use rustc_apfloat::Float;
use vstd::prelude::*;

verus! {

/// Bit pattern of `0.0`, the identity element of addition.
pub const ZERO_BITS: u64 = 0x0000_0000_0000_0000;

/// Bit pattern of `1.0`, the identity element of multiplication.
pub const ONE_BITS: u64 = 0x3FF0_0000_0000_0000;

/// Bit pattern of the canonical quiet NaN, the engine's result for
/// operations outside its domain (such as a non-integer exponent).
pub const NAN_BITS: u64 = 0x7FF8_0000_0000_0000;

/// The sign bit of a double's bit pattern.
pub const SIGN_BIT: u64 = 0x8000_0000_0000_0000;

/// What IEEE-754 addition of the doubles encoded by `a` and `b` returns.
pub uninterp spec fn add_bits_spec(a: u64, b: u64) -> u64;

/// What IEEE-754 multiplication of the doubles encoded by `a` and `b` returns.
pub uninterp spec fn mul_bits_spec(a: u64, b: u64) -> u64;

/// What IEEE-754 division of the double encoded by `a` by the one encoded by
/// `b` returns.
pub uninterp spec fn div_bits_spec(a: u64, b: u64) -> u64;

/// Relies on `rustc_apfloat::ieee::Double`'s addition: correctly rounded
/// IEEE-754 binary64 addition on bit patterns, a function of its operands
/// alone.
#[verifier::external_body]
pub fn add_bits(a: u64, b: u64) -> (r: u64)
    ensures
        r == add_bits_spec(a, b),
{
    let x = rustc_apfloat::ieee::Double::from_bits(a as u128);
    let y = rustc_apfloat::ieee::Double::from_bits(b as u128);
    (x + y).value.to_bits() as u64
}

/// Relies on `rustc_apfloat::ieee::Double`'s multiplication: correctly rounded
/// IEEE-754 binary64 multiplication on bit patterns, a function of its
/// operands alone.
#[verifier::external_body]
pub fn mul_bits(a: u64, b: u64) -> (r: u64)
    ensures
        r == mul_bits_spec(a, b),
{
    let x = rustc_apfloat::ieee::Double::from_bits(a as u128);
    let y = rustc_apfloat::ieee::Double::from_bits(b as u128);
    (x * y).value.to_bits() as u64
}

/// Relies on `rustc_apfloat::ieee::Double`'s division: correctly rounded
/// IEEE-754 binary64 division on bit patterns, a function of its operands
/// alone.
#[verifier::external_body]
pub fn div_bits(a: u64, b: u64) -> (r: u64)
    ensures
        r == div_bits_spec(a, b),
{
    let x = rustc_apfloat::ieee::Double::from_bits(a as u128);
    let y = rustc_apfloat::ieee::Double::from_bits(b as u128);
    (x / y).value.to_bits() as u64
}

/// Negation of the double encoded by `b`: IEEE-754 negation flips the sign
/// bit and nothing else, so it is defined here directly.
pub open spec fn neg_bits_spec(b: u64) -> u64 {
    b ^ SIGN_BIT
}

/// Flips the sign bit, which is exactly IEEE-754 negation.
pub fn neg_bits(b: u64) -> (r: u64)
    ensures
        r == neg_bits_spec(b),
{
    b ^ SIGN_BIT
}

/// Whether `b` encodes a finite double (exponent field not all ones).
pub open spec fn is_finite_bits(b: u64) -> bool {
    (b >> 52) & 0x7FF != 0x7FF
}

/// Executable twin of `is_finite_bits`.
pub fn finite(b: u64) -> (r: bool)
    ensures
        r == is_finite_bits(b),
{
    (b >> 52) & 0x7FF != 0x7FF
}

/// The engine's exponentiation semantics: `a` raised to the `n`-th power by
/// repeated IEEE-754 multiplication, left to right.
pub open spec fn pow_bits_spec(a: u64, n: nat) -> u64
    decreases n,
{
    if n == 0 {
        ONE_BITS
    } else {
        mul_bits_spec(pow_bits_spec(a, (n - 1) as nat), a)
    }
}

/// Largest exponent accepted by the integer-power fold.
pub const MAX_EXPONENT: u64 = 65535;

/// Reads the bit pattern `b` as a double and, when it encodes a non-negative
/// integer no greater than `MAX_EXPONENT`, returns that integer. Decoded
/// directly from the IEEE-754 fields: an unbiased exponent `k` in `0..=15`
/// leaves an integer exactly when the low `52 - k` mantissa bits are zero.
pub open spec fn int_exp_of_bits(b: u64) -> Option<u64> {
    let e = (b >> 52) & 0x7FF;
    let frac = b & 0xF_FFFF_FFFF_FFFF;
    if b == 0 {
        Some(0)
    } else if b >> 63 != 0 {
        None
    } else if e < 1023 || e > 1038 {
        None
    } else {
        let k = (e - 1023) as u64;
        let low = ((1u64 << ((52 - k) as u64)) - 1) as u64;
        if frac & low != 0 {
            None
        } else {
            Some((frac | 0x10_0000_0000_0000u64) >> ((52 - k) as u64))
        }
    }
}

/// Executable twin of `int_exp_of_bits`.
pub fn int_exp_of(b: u64) -> (r: Option<u64>)
    ensures
        r == int_exp_of_bits(b),
{
    let e = (b >> 52) & 0x7FF;
    let frac = b & 0xF_FFFF_FFFF_FFFF;
    if b == 0 {
        Some(0)
    } else if b >> 63 != 0 {
        None
    } else if e < 1023 || e > 1038 {
        None
    } else {
        let k = e - 1023;
        assert(1u64 << ((52 - k) as u64) >= 1) by (bit_vector)
            requires
                k <= 15,
        ;
        let low = (1u64 << (52 - k)) - 1;
        if frac & low != 0 {
            None
        } else {
            Some((frac | 0x10_0000_0000_0000u64) >> (52 - k))
        }
    }
}

/// `a` raised to the `n`-th power by repeated multiplication.
pub fn pow_bits(a: u64, n: u64) -> (r: u64)
    requires
        n <= MAX_EXPONENT,
    ensures
        r == pow_bits_spec(a, n as nat),
{
    let mut acc: u64 = ONE_BITS;
    let mut i: u64 = 0;
    while i < n
        invariant
            i <= n,
            acc == pow_bits_spec(a, i as nat),
        decreases n - i,
    {
        acc = mul_bits(acc, a);
        i = i + 1;
    }
    acc
}

/// The engine's semantics for the exponentiation operator on scalars:
/// integer powers by repeated multiplication; any other exponent is outside
/// the domain and yields the canonical quiet NaN.
pub open spec fn pow_sem(a: u64, b: u64) -> u64 {
    match int_exp_of_bits(b) {
        Some(n) => pow_bits_spec(a, n as nat),
        None => NAN_BITS,
    }
}

/// Executable twin of `pow_sem`.
pub fn pow_scalar(a: u64, b: u64) -> (r: u64)
    ensures
        r == pow_sem(a, b),
{
    match int_exp_of(b) {
        Some(n) => {
            proof {
                lemma_int_exp_bounded(b);
            }
            pow_bits(a, n)
        }
        None => NAN_BITS,
    }
}

/// A decoded integer exponent never exceeds `MAX_EXPONENT`.
proof fn lemma_int_exp_bounded(b: u64)
    ensures
        int_exp_of_bits(b) matches Some(n) ==> n <= MAX_EXPONENT,
{
    if int_exp_of_bits(b) is Some && b != 0 {
        let e = (b >> 52) & 0x7FF;
        let frac = b & 0xF_FFFF_FFFF_FFFF;
        let k = (e - 1023) as u64;
        assert(k <= 15);
        assert(b & 0xF_FFFF_FFFF_FFFF <= 0xF_FFFF_FFFF_FFFF) by (bit_vector);
        assert((frac | 0x10_0000_0000_0000u64) >> ((52 - k) as u64) <= MAX_EXPONENT) by (bit_vector)
            requires
                k <= 15,
                frac <= 0xF_FFFF_FFFF_FFFF,
        ;
    }
}

/// Whether `c` is an ASCII decimal digit.
pub open spec fn is_digit(c: u8) -> bool {
    48 <= c <= 57
}

/// Whether every byte of `s` is an ASCII decimal digit.
pub open spec fn all_digits(s: Seq<u8>) -> bool {
    forall|i: int| 0 <= i < s.len() ==> is_digit(#[trigger] s[i])
}

/// The shape of a printed scalar literal: one or more digits, an optional
/// fraction introduced by `.`, and an optional exponent introduced by `E`
/// with an explicit sign.
pub open spec fn is_literal_bytes(s: Seq<u8>) -> bool {
    exists|d: Seq<u8>, f: Seq<u8>, e: Seq<u8>|
        {
            &&& s == d + f + e
            &&& d.len() >= 1
            &&& all_digits(d)
            &&& (f.len() == 0 || (f.len() >= 2 && f[0] == 46 && all_digits(f.skip(1))))
            &&& (e.len() == 0 || (e.len() >= 3 && e[0] == 69 && (e[1] == 43 || e[1] == 45)
                && all_digits(e.skip(2))))
        }
}

/// The text that the scalar formatter produces for the bit pattern `b`.
pub uninterp spec fn literal_of_bits(b: u64) -> Seq<u8>;

/// The bit pattern, if any, that the scalar reader recovers from the text `s`.
pub uninterp spec fn bits_of_literal(s: Seq<u8>) -> Option<u64>;

/// Renders a finite, non-negative scalar as decimal text.
///
/// Relies on the `Display` impl of `rustc_apfloat::ieee::Double`: a finite
/// non-negative double prints as digits with an optional `.` fraction and an
/// optional `E`-and-sign exponent, carrying enough digits (Steele & White)
/// that parsing the text returns exactly the same value.
#[verifier::external_body]
pub fn format_bits(b: u64) -> (r: Vec<u8>)
    requires
        is_finite_bits(b),
        b & SIGN_BIT == 0,
    ensures
        r@ == literal_of_bits(b),
        is_literal_bytes(r@),
        bits_of_literal(r@) == Some(b),
{
    format!("{}", rustc_apfloat::ieee::Double::from_bits(b as u128)).into_bytes()
}

/// Reads decimal text as a double, rounding to nearest-even.
///
/// Relies on `rustc_apfloat::ieee::Double`'s `FromStr`: correctly rounded
/// decimal-to-binary conversion, a function of the text alone.
#[verifier::external_body]
pub fn parse_literal(s: &[u8]) -> (r: Option<u64>)
    ensures
        r == bits_of_literal(s@),
{
    match core::str::from_utf8(s) {
        Ok(t) => match t.parse::<rustc_apfloat::ieee::Double>() {
            Ok(d) => Some(d.to_bits() as u64),
            Err(_) => None,
        },
        Err(_) => None,
    }
}

} // verus!
