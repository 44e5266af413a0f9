//! Double-precision numbers held by their 64-bit encoding, with the
//! mathematical value of every encoding spelled out over the integers.
//!
//! An encoding is a sign bit, eleven bits of exponent and fifty-two bits of
//! fraction. Without the sign bit it is the magnitude: magnitudes up to
//! [`INFINITY_BITS`] are ordered as the absolute values that they encode,
//! and the larger ones are NaNs. Every finite value is a whole number of
//! units of `2^-1074`, so all arithmetic here is stated over `nat` and
//! `int`.

use vstd::prelude::*;
use vstd::arithmetic::div_mod::*;
use vstd::arithmetic::power2::*;

verus! {

/// Encoding of the sign bit alone.
pub const SIGN_BIT: u64 = 0x8000_0000_0000_0000;

/// Weight of the lowest bit of the exponent field.
pub const HIDDEN_BIT: u64 = 0x0010_0000_0000_0000;

/// Encoding of positive infinity; every larger magnitude is a NaN.
pub const INFINITY_BITS: u64 = 0x7FF0_0000_0000_0000;

/// Encoding of the quiet NaN that arithmetic hands out.
pub const NAN_BITS: u64 = 0x7FF8_0000_0000_0000;

/// Encoding of `1.0`.
pub const ONE_BITS: u64 = 0x3FF0_0000_0000_0000;

/// The magnitude encoded in `bits`: everything but the sign bit.
pub open spec fn magnitude_of(bits: u64) -> nat {
    (bits % SIGN_BIT) as nat
}

/// The absolute value encoded by the magnitude `mag`, counted in units of
/// `2^-1074` (the smallest positive number). Infinity counts as `2^1024`.
pub open spec fn units_of(mag: nat) -> nat {
    let e = mag / (HIDDEN_BIT as nat);
    let f = mag % (HIDDEN_BIT as nat);
    if e == 0 {
        f
    } else {
        ((HIDDEN_BIT as nat + f) * pow2((e - 1) as nat)) as nat
    }
}

/// A double-precision number, held by its encoding.
#[derive(Clone, Copy, Debug)]
pub struct Binary64 {
    pub bits: u64,
}

impl View for Binary64 {
    type V = u64;

    open spec fn view(&self) -> u64 {
        self.bits
    }
}

impl Binary64 {
    /// The encoding without its sign bit.
    pub open spec fn magnitude(self) -> nat {
        magnitude_of(self@)
    }

    /// Whether the sign bit is set.
    pub open spec fn is_negative(self) -> bool {
        self@ >= SIGN_BIT
    }

    /// Not a number: the exponent field is full and the fraction is not
    /// zero.
    pub open spec fn is_nan(self) -> bool {
        self.magnitude() > INFINITY_BITS
    }

    /// Positive or negative infinity.
    pub open spec fn is_infinite(self) -> bool {
        self.magnitude() == INFINITY_BITS
    }

    /// Neither an infinity nor a NaN.
    pub open spec fn is_finite(self) -> bool {
        self.magnitude() < INFINITY_BITS
    }

    /// Positive or negative zero.
    pub open spec fn is_zero(self) -> bool {
        self.magnitude() == 0
    }

    /// The absolute value in units of `2^-1074`; it says nothing of a NaN.
    pub open spec fn units(self) -> nat {
        units_of(self.magnitude())
    }

    /// The value in units of `2^-1074`; it says nothing of a NaN.
    pub open spec fn signed_units(self) -> int {
        if self.is_negative() {
            -(self.units() as int)
        } else {
            self.units() as int
        }
    }

    /// The number with its sign bit cleared.
    pub open spec fn spec_abs(self) -> Binary64 {
        Binary64 { bits: self@ % SIGN_BIT }
    }

    /// The number `1.0`.
    pub open spec fn one() -> Binary64 {
        Binary64 { bits: ONE_BITS }
    }

    /// `self < other` as numbers: false whenever a NaN is involved.
    pub open spec fn spec_lt(self, other: Binary64) -> bool {
        !self.is_nan() && !other.is_nan() && self.signed_units() < other.signed_units()
    }

    /// `self >= other` as numbers: false whenever a NaN is involved.
    pub open spec fn spec_ge(self, other: Binary64) -> bool {
        !self.is_nan() && !other.is_nan() && self.signed_units() >= other.signed_units()
    }

    /// The number that `bits` encodes.
    pub fn from_bits(bits: u64) -> (r: Binary64)
        ensures
            r@ == bits,
    {
        Binary64 { bits }
    }

    /// The encoding of the number.
    pub fn to_bits(self) -> (r: u64)
        ensures
            r == self@,
    {
        self.bits
    }

    /// The number with its sign bit cleared.
    pub fn abs(self) -> (r: Binary64)
        ensures
            r == self.spec_abs(),
    {
        Binary64 { bits: self.bits % SIGN_BIT }
    }

    /// Whether `self < other` as numbers; the two zeros are equal, and a
    /// NaN is below nothing.
    pub fn lt(self, other: Binary64) -> (r: bool)
        ensures
            r == self.spec_lt(other),
    {
        let a: u64 = self.bits % SIGN_BIT;
        let b: u64 = other.bits % SIGN_BIT;
        if a > INFINITY_BITS || b > INFINITY_BITS {
            return false;
        }
        proof {
            lemma_units_order(a as nat, b as nat);
            lemma_units_order(b as nat, a as nat);
            lemma_units_zero(a as nat);
            lemma_units_zero(b as nat);
        }
        if self.bits >= SIGN_BIT {
            if other.bits >= SIGN_BIT {
                a > b
            } else {
                a != 0 || b != 0
            }
        } else {
            if other.bits >= SIGN_BIT {
                false
            } else {
                a < b
            }
        }
    }

    /// Whether `self >= other` as numbers; the two zeros are equal, and a
    /// NaN is at least nothing.
    pub fn ge(self, other: Binary64) -> (r: bool)
        ensures
            r == self.spec_ge(other),
    {
        let a: u64 = self.bits % SIGN_BIT;
        let b: u64 = other.bits % SIGN_BIT;
        if a > INFINITY_BITS || b > INFINITY_BITS {
            return false;
        }
        !self.lt(other)
    }
}

/// Only the zero magnitude counts no units.
pub proof fn lemma_units_zero(mag: nat)
    ensures
        units_of(mag) == 0 <==> mag == 0,
{
    let e = mag / (HIDDEN_BIT as nat);
    let f = mag % (HIDDEN_BIT as nat);
    if e != 0 {
        lemma_pow2_pos((e - 1) as nat);
        assert((HIDDEN_BIT as nat + f) * pow2((e - 1) as nat) > 0) by (nonlinear_arith)
            requires
                HIDDEN_BIT as nat + f > 0,
                pow2((e - 1) as nat) > 0,
        ;
    }
}

/// Magnitudes are ordered as the absolute values that they encode.
pub proof fn lemma_units_order(a: nat, b: nat)
    ensures
        a < b ==> units_of(a) < units_of(b),
        a == b ==> units_of(a) == units_of(b),
{
    let h = HIDDEN_BIT as nat;
    let ea = a / h;
    let fa = a % h;
    let eb = b / h;
    let fb = b % h;
    if a < b {
        assert(ea <= eb) by (nonlinear_arith)
            requires
                a < b,
                ea == a / h,
                eb == b / h,
                h > 0,
        ;
        if ea == eb {
            assert(fa < fb);
            if ea != 0 {
                lemma_pow2_pos((ea - 1) as nat);
                assert((h + fa) * pow2((ea - 1) as nat) < (h + fb) * pow2((ea - 1) as nat))
                    by (nonlinear_arith)
                    requires
                        fa < fb,
                        pow2((ea - 1) as nat) > 0,
                ;
            }
        } else {
            let pb = pow2((eb - 1) as nat);
            lemma_pow2_pos((eb - 1) as nat);
            assert(h * pb <= (h + fb) * pb) by (nonlinear_arith)
                requires
                    pb > 0,
                    fb >= 0,
            ;
            if ea == 0 {
                assert(h * 1 <= h * pb) by (nonlinear_arith)
                    requires
                        pb >= 1,
                ;
            } else {
                let pa = pow2((ea - 1) as nat);
                lemma_pow2_pos((ea - 1) as nat);
                lemma_pow2_unfold(ea as nat);
                assert(pow2(ea as nat) == 2 * pa);
                if ea < eb - 1 {
                    lemma_pow2_strictly_increases(ea as nat, (eb - 1) as nat);
                }
                assert(pow2(ea as nat) <= pb);
                assert((h + fa) * pa < h * pb) by (nonlinear_arith)
                    requires
                        fa < h,
                        pa > 0,
                        2 * pa <= pb,
                ;
            }
        }
    }
}


/// A magnitude written as `e * 2^52 + m` encodes `m * 2^e` units, whether
/// `m` carries the hidden bit or not.
pub proof fn lemma_units_encoding(e: nat, m: nat)
    requires
        m <= 2 * HIDDEN_BIT,
        e >= 1 ==> m >= HIDDEN_BIT,
    ensures
        units_of(e * (HIDDEN_BIT as nat) + m) == m * pow2(e),
{
    let h = HIDDEN_BIT as nat;
    let mag = e * h + m;
    lemma_pow2_unfold(e + 1);
    if m < h {
        lemma_fundamental_div_mod_converse(mag as int, h as int, 0, m as int);
        lemma2_to64();
        assert(m * pow2(0) == m) by (nonlinear_arith)
            requires
                pow2(0) == 1,
        ;
    } else if m < 2 * h {
        assert(mag == (e + 1) * h + (m - h)) by (nonlinear_arith)
            requires
                mag == e * h + m,
        ;
        lemma_fundamental_div_mod_converse(mag as int, h as int, (e + 1) as int, (m - h) as int);
    } else {
        assert(mag == (e + 2) * h + 0) by (nonlinear_arith)
            requires
                mag == e * h + m,
                m == 2 * h,
        ;
        lemma_fundamental_div_mod_converse(mag as int, h as int, (e + 2) as int, 0);
        assert((h + 0) * pow2(e + 1) == m * pow2(e)) by (nonlinear_arith)
            requires
                pow2(e + 1) == 2 * pow2(e),
                m == 2 * h,
        ;
    }
}

/// Splits a magnitude into a significand and a power of two whose product
/// counts its units.
pub fn split_magnitude(mag: u64) -> (r: (u64, u32))
    requires
        mag <= INFINITY_BITS,
    ensures
        units_of(mag as nat) == r.0 * pow2(r.1 as nat),
        r.0 < 2 * HIDDEN_BIT,
        r.1 <= 2046,
        r.1 >= 1 ==> r.0 >= HIDDEN_BIT,
        mag == r.1 * HIDDEN_BIT + r.0,
        mag > 0 ==> r.0 > 0,
{
    let field: u64 = mag / HIDDEN_BIT;
    let fraction: u64 = mag % HIDDEN_BIT;
    if field == 0 {
        proof {
            lemma_units_encoding(0, fraction as nat);
        }
        (fraction, 0)
    } else {
        proof {
            lemma_units_encoding((field - 1) as nat, (HIDDEN_BIT + fraction) as nat);
        }
        (HIDDEN_BIT + fraction, (field - 1) as u32)
    }
}

} // verus!
