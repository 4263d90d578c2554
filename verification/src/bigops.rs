//! Arbitrary-precision arithmetic, delegated to outside crates.
//!
//! The store's own values carry big numbers as digit text; each function
//! here converts that text into the outside crate's type, makes one
//! arithmetic call, and converts the result back.

use vstd::prelude::*;

use crate::digits::{is_dec_digits, is_canon_dec, nat_of_dec};
use crate::value::{BigDecVal, dec_max_scale, dec_add_m, dec_le};
use bigdecimal::num_bigint::BigInt;

verus! {

/// Relies on num_bigint::BigUint: base-10 parse of digit text, exact
/// addition, and base-10 formatting with no leading zeros.
#[verifier::external_body]
pub(crate) fn biguint_add(a: &str, b: &str) -> (r: String)
    requires
        is_dec_digits(a@),
        is_dec_digits(b@),
    ensures
        is_canon_dec(r@),
        nat_of_dec(r@) == nat_of_dec(a@) + nat_of_dec(b@),
{
    let x = num_bigint::BigUint::parse_bytes(a.as_bytes(), 10).unwrap();
    let y = num_bigint::BigUint::parse_bytes(b.as_bytes(), 10).unwrap();
    (x + y).to_string()
}

/// Relies on num_bigint::BigUint: base-10 parse of digit text, the numeric
/// `Ord` on magnitudes behind `Ord::min`, and base-10 formatting with no
/// leading zeros.
#[verifier::external_body]
pub(crate) fn biguint_min(a: &str, b: &str) -> (r: String)
    requires
        is_dec_digits(a@),
        is_dec_digits(b@),
    ensures
        is_canon_dec(r@),
        nat_of_dec(r@) == if nat_of_dec(a@) <= nat_of_dec(b@) {
            nat_of_dec(a@)
        } else {
            nat_of_dec(b@)
        },
{
    let x = num_bigint::BigUint::parse_bytes(a.as_bytes(), 10).unwrap();
    let y = num_bigint::BigUint::parse_bytes(b.as_bytes(), 10).unwrap();
    x.min(y).to_string()
}

/// Relies on bigdecimal::BigDecimal: `new` and `into_bigint_and_exponent`
/// keep the mantissa and scale verbatim, and owned addition aligns both
/// operands to the larger scale and adds the aligned mantissas. The
/// mantissa text passes through num_bigint::BigInt's base-10 parse and
/// formatting.
#[verifier::external_body]
pub(crate) fn bigdec_add(a: &BigDecVal, b: &BigDecVal) -> (r: BigDecVal)
    requires
        a.wf(),
        b.wf(),
    ensures
        r.wf(),
        r.scale == dec_max_scale(a.scale as int, b.scale as int),
        r.num() == dec_add_m(a.num(), a.scale as int, b.num(), b.scale as int),
{
    let xm = BigInt::parse_bytes(a.mantissa.as_bytes(), 10).unwrap();
    let ym = BigInt::parse_bytes(b.mantissa.as_bytes(), 10).unwrap();
    let x = bigdecimal::BigDecimal::new(xm, a.scale as i64);
    let y = bigdecimal::BigDecimal::new(ym, b.scale as i64);
    let (m, e) = (x + y).into_bigint_and_exponent();
    BigDecVal { mantissa: m.to_string(), scale: e as u64 }
}

/// Relies on bigdecimal::BigDecimal: its `Ord` compares by numeric value,
/// `Ord::min` returns its first argument when the two are equal, and `new`
/// / `into_bigint_and_exponent` keep the mantissa and scale verbatim. The
/// mantissa text passes through num_bigint::BigInt's base-10 parse and
/// formatting, which keeps the denoted integer.
#[verifier::external_body]
pub(crate) fn bigdec_min(a: &BigDecVal, b: &BigDecVal) -> (r: BigDecVal)
    requires
        a.wf(),
        b.wf(),
    ensures
        r.wf(),
        dec_le(a.num(), a.scale as int, b.num(), b.scale as int) ==> r.num() == a.num()
            && r.scale == a.scale,
        !dec_le(a.num(), a.scale as int, b.num(), b.scale as int) ==> r.num() == b.num()
            && r.scale == b.scale,
{
    let xm = BigInt::parse_bytes(a.mantissa.as_bytes(), 10).unwrap();
    let ym = BigInt::parse_bytes(b.mantissa.as_bytes(), 10).unwrap();
    let x = bigdecimal::BigDecimal::new(xm, a.scale as i64);
    let y = bigdecimal::BigDecimal::new(ym, b.scale as i64);
    let (m, e) = x.min(y).into_bigint_and_exponent();
    BigDecVal { mantissa: m.to_string(), scale: e as u64 }
}

} // verus!
