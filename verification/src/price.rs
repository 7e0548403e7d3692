//! Exact decimal prices, modelled as a mantissa and a power-of-ten scale.
//!
//! A `Price` holds the plain values `mantissa` and `scale` and represents the
//! rational number `mantissa / 10^scale`, exactly as `rust_decimal::Decimal`
//! does. All ordering reasoning is done over that rational value, stated with
//! integer cross-multiplication so that specifications never divide.

use vstd::prelude::*;
use vstd::arithmetic::power::*;

verus! {

/// Largest mantissa magnitude a 96-bit decimal can carry.
pub const MAX_MANTISSA: i128 = 79_228_162_514_264_337_593_543_950_335;

/// Largest power-of-ten scale a 96-bit decimal can carry.
pub const MAX_SCALE: u32 = 28;

/// An exact decimal price: the rational value `mantissa / 10^scale`.
#[derive(Clone, Copy, Debug, PartialEq, Eq, Structural)]
pub struct Price {
    pub mantissa: i128,
    pub scale: u32,
}

/// `10^e` as a mathematical integer.
pub open spec fn pow10(e: nat) -> int {
    pow(10, e)
}

impl Price {
    /// The bounds under which the price fits a 96-bit decimal representation.
    pub open spec fn wf(self) -> bool {
        &&& -MAX_MANTISSA <= self.mantissa <= MAX_MANTISSA
        &&& self.scale <= MAX_SCALE
    }

    /// Builds a price, refusing a mantissa or scale outside the
    /// representable range.
    pub fn new(mantissa: i128, scale: u32) -> (r: Option<Price>)
        ensures
            r is Some <==> (-MAX_MANTISSA <= mantissa <= MAX_MANTISSA && scale <= MAX_SCALE),
            r matches Some(p) ==> p.mantissa == mantissa && p.scale == scale && p.wf(),
    {
        if -MAX_MANTISSA <= mantissa && mantissa <= MAX_MANTISSA && scale <= MAX_SCALE {
            Some(Price { mantissa, scale })
        } else {
            None
        }
    }
}

/// `a < b` as rational values: `a.m / 10^a.s < b.m / 10^b.s`, cross-multiplied.
#[verifier::opaque]
pub open spec fn price_lt(a: Price, b: Price) -> bool {
    a.mantissa * pow10(b.scale as nat) < b.mantissa * pow10(a.scale as nat)
}

/// `a <= b` as rational values.
#[verifier::opaque]
pub open spec fn price_le(a: Price, b: Price) -> bool {
    a.mantissa * pow10(b.scale as nat) <= b.mantissa * pow10(a.scale as nat)
}

/// `a == b` as rational values (`1.0` equals `1.00`).
#[verifier::opaque]
pub open spec fn price_eq_val(a: Price, b: Price) -> bool {
    a.mantissa * pow10(b.scale as nat) == b.mantissa * pow10(a.scale as nat)
}

pub proof fn lemma_pow10_pos(e: nat)
    ensures
        pow10(e) > 0,
{
    lemma_pow_positive(10, e);
}

/// The rational order on prices is transitive.
pub proof fn lemma_price_le_trans(a: Price, b: Price, c: Price)
    requires
        price_le(a, b),
        price_le(b, c),
    ensures
        price_le(a, c),
{
    reveal(price_le);
    lemma_pow10_pos(a.scale as nat);
    lemma_pow10_pos(b.scale as nat);
    lemma_pow10_pos(c.scale as nat);
    assert(a.mantissa * pow10(c.scale as nat) <= c.mantissa * pow10(a.scale as nat))
        by (nonlinear_arith)
        requires
            a.mantissa * pow10(b.scale as nat) <= b.mantissa * pow10(a.scale as nat),
            b.mantissa * pow10(c.scale as nat) <= c.mantissa * pow10(b.scale as nat),
            pow10(a.scale as nat) > 0,
            pow10(b.scale as nat) > 0,
            pow10(c.scale as nat) > 0;
}

/// The rational order is total: strictly-below is exactly the negation of
/// at-least, and strictly-below implies at-most.
pub proof fn lemma_price_order(a: Price, b: Price)
    ensures
        price_lt(a, b) <==> !price_le(b, a),
        price_lt(a, b) ==> price_le(a, b),
        price_le(a, a),
{
    reveal(price_le);
    reveal(price_lt);
}

/// Mutual domination means equal decimal values.
pub proof fn lemma_price_le_antisym(a: Price, b: Price)
    requires
        price_le(a, b),
        price_le(b, a),
    ensures
        price_eq_val(a, b),
{
    reveal(price_le);
    reveal(price_eq_val);
}

/// The midpoint `(a + b) / 2` of two decimals, as `rust_decimal` computes
/// it: mantissa and scale of the result. One name covers the whole composite
/// computation, sum then halving, which is a function of the operands alone.
pub uninterp spec fn mid_of(am: int, asc: int, bm: int, bsc: int) -> (int, int);

/// Whether that midpoint can be computed: false exactly when the sum of the
/// two decimals overflows the representable range, which again depends on
/// the operands alone.
pub uninterp spec fn mid_available(am: int, asc: int, bm: int, bsc: int) -> bool;

/// Relies on `rust_decimal::Decimal`: `checked_add` returns the exact sum,
/// and `None` exactly when the sum overflows the 96-bit range, a function of
/// the operands alone; division by two never fails and returns the quotient
/// rounded to the representable precision.
#[verifier::external_body]
pub(crate) fn mid_price(a: &Price, b: &Price) -> (r: Option<Price>)
    requires
        a.wf(),
        b.wf(),
    ensures
        r is Some <==> mid_available(
            a.mantissa as int,
            a.scale as int,
            b.mantissa as int,
            b.scale as int,
        ),
        r matches Some(p) ==> p.wf() && (p.mantissa as int, p.scale as int) == mid_of(
            a.mantissa as int,
            a.scale as int,
            b.mantissa as int,
            b.scale as int,
        ),
{
    let da = rust_decimal::Decimal::from_i128_with_scale(a.mantissa, a.scale);
    let db = rust_decimal::Decimal::from_i128_with_scale(b.mantissa, b.scale);
    let sum = da.checked_add(db)?;
    let mid = sum / rust_decimal::Decimal::TWO;
    Some(Price { mantissa: mid.mantissa(), scale: mid.scale() })
}

/// Relies on `rust_decimal::Decimal`: `from_i128_with_scale` builds the exact
/// decimal `mantissa / 10^scale` for in-range inputs, and `Ord` compares
/// decimals by that represented rational value.
#[verifier::external_body]
pub(crate) fn price_is_lt(a: &Price, b: &Price) -> (r: bool)
    requires
        a.wf(),
        b.wf(),
    ensures
        r == price_lt(*a, *b),
{
    let da = rust_decimal::Decimal::from_i128_with_scale(a.mantissa, a.scale);
    let db = rust_decimal::Decimal::from_i128_with_scale(b.mantissa, b.scale);
    da < db
}

} // verus!
