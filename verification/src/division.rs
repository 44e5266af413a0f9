//! Division of double-precision numbers, rounded to the nearest encoding
//! with ties to the even one.
//!
//! What the quotient is, is said by [`is_quotient`] and [`is_nearest`]
//! over the exact ratio of the two values. How it is found: both
//! significands are shifted up to carry the hidden bit, one is divided by
//! the other as integers with as many bits behind as the result has room
//! for, and the remainder decides the rounding.

use vstd::prelude::*;
use vstd::arithmetic::div_mod::*;
use vstd::arithmetic::power2::*;
use crate::binary64::{
    lemma_units_encoding, lemma_units_order, split_magnitude, units_of, Binary64, HIDDEN_BIT,
    INFINITY_BITS, NAN_BITS, SIGN_BIT,
};

verus! {

/// Twice the midpoint, in units, between the magnitude `mag` and the next one.
pub open spec fn midpoint2(mag: nat) -> nat {
    units_of(mag) + units_of(mag + 1)
}

/// `r` is the magnitude nearest to the ratio `num / den`, read in units;
/// where two magnitudes are equally near, `r` is the even one. Ratios from
/// halfway between the largest finite magnitude and `2^1024` on go to infinity.
pub open spec fn is_nearest(num: nat, den: nat, r: nat) -> bool {
    &&& r <= INFINITY_BITS
    &&& r > 0 ==> (2 * num > midpoint2((r - 1) as nat) * den || (2 * num == midpoint2(
        (r - 1) as nat,
    ) * den && r % 2 == 0))
    &&& r < INFINITY_BITS ==> (2 * num < midpoint2(r) * den || (2 * num == midpoint2(r) * den && r
        % 2 == 0))
}

/// Midpoints grow with the magnitude.
pub proof fn lemma_midpoint_order(a: nat, b: nat)
    requires
        a < b,
    ensures
        midpoint2(a) < midpoint2(b),
{
    lemma_units_order(a, b);
    lemma_units_order(a + 1, b + 1);
}

/// Of two magnitudes nearest to one ratio, neither is above the other.
proof fn lemma_nearest_ordered(num: nat, den: nat, r1: nat, r2: nat)
    requires
        den > 0,
        is_nearest(num, den, r1),
        is_nearest(num, den, r2),
    ensures
        r2 <= r1,
{
    if r1 < r2 {
        let m1 = midpoint2(r1);
        let m2 = midpoint2((r2 - 1) as nat);
        assert(2 * num <= m1 * den);
        assert(2 * num >= m2 * den);
        if r1 < r2 - 1 {
            lemma_midpoint_order(r1, (r2 - 1) as nat);
            assert(m1 * den < m2 * den) by (nonlinear_arith)
                requires
                    m1 < m2,
                    den > 0,
            ;
        }
    }
}

/// At most one magnitude is nearest to a ratio.
pub proof fn lemma_nearest_unique(num: nat, den: nat, r1: nat, r2: nat)
    requires
        den > 0,
        is_nearest(num, den, r1),
        is_nearest(num, den, r2),
    ensures
        r1 == r2,
{
    lemma_nearest_ordered(num, den, r1, r2);
    lemma_nearest_ordered(num, den, r2, r1);
}

/// Rounding from the magnitude just below the ratio: it stays, or the next
/// one is taken, as the ratio lies below or above their midpoint.
pub proof fn lemma_nearest_from_floor(num: nat, den: nat, lo: nat, up: bool)
    requires
        den > 0,
        lo < INFINITY_BITS,
        units_of(lo) * den <= num < units_of(lo + 1) * den,
        up <==> (2 * num > midpoint2(lo) * den || (2 * num == midpoint2(lo) * den && lo % 2 == 1)),
    ensures
        is_nearest(num, den, if up { lo + 1 } else { lo }),
{
    let u0 = units_of(lo);
    let u1 = units_of(lo + 1);
    if up {
        if lo + 1 < INFINITY_BITS {
            lemma_units_order(lo + 1, lo + 2);
            let u2 = units_of(lo + 2);
            assert(2 * num < (u1 + u2) * den) by (nonlinear_arith)
                requires
                    num < u1 * den,
                    u1 < u2,
                    den > 0,
            ;
        }
    } else {
        if lo > 0 {
            lemma_units_order((lo - 1) as nat, lo);
            let um = units_of((lo - 1) as nat);
            assert(2 * num > (um + u0) * den) by (nonlinear_arith)
                requires
                    u0 * den <= num,
                    um < u0,
                    den > 0,
            ;
        }
    }
}

/// Shifts a significand up until it carries the hidden bit.
pub fn normalize(m: u64) -> (r: (u64, u32))
    requires
        0 < m < 2 * HIDDEN_BIT,
    ensures
        r.0 == m * pow2(r.1 as nat),
        HIDDEN_BIT <= r.0 < 2 * HIDDEN_BIT,
        r.1 <= 52,
        m >= HIDDEN_BIT ==> r.1 == 0,
{
    let mut n: u64 = m;
    let mut s: u32 = 0;
    proof {
        lemma2_to64();
        assert(m * pow2(0) == m) by (nonlinear_arith)
            requires
                pow2(0) == 1,
        ;
    }
    while n < HIDDEN_BIT
        invariant
            0 < m,
            0 < n < 2 * HIDDEN_BIT,
            n == m * pow2(s as nat),
            s <= 52,
            m >= HIDDEN_BIT ==> s == 0,
        decreases 2 * HIDDEN_BIT - n,
    {
        proof {
            lemma_pow2_unfold((s + 1) as nat);
            lemma_pow2_pos(s as nat);
            assert(m * (2 * pow2(s as nat)) == 2 * (m * pow2(s as nat))) by (nonlinear_arith);
            assert(m * pow2(s as nat) >= m) by (nonlinear_arith)
                requires
                    pow2(s as nat) >= 1,
            ;
            if s == 52 {
                lemma2_to64_rest();
                assert(m * pow2(52) >= pow2(52)) by (nonlinear_arith)
                    requires
                        m >= 1,
                ;
            }
        }
        n = 2 * n;
        s = s + 1;
    }
    (n, s)
}

/// Two to the power `k`.
pub fn power_of_two(k: u32) -> (r: u128)
    requires
        k <= 64,
    ensures
        r == pow2(k as nat),
        r <= 0x1_0000_0000_0000_0000,
{
    let mut r: u128 = 1;
    let mut i: u32 = 0;
    proof {
        lemma2_to64();
        lemma2_to64_rest();
    }
    while i < k
        invariant
            i <= k <= 64,
            r == pow2(i as nat),
            pow2(64) == 0x1_0000_0000_0000_0000,
            r <= 0x1_0000_0000_0000_0000,
        decreases k - i,
    {
        proof {
            lemma_pow2_unfold((i + 1) as nat);
            if i + 1 < 64 {
                lemma_pow2_strictly_increases((i + 1) as nat, 64);
            }
        }
        r = 2 * r;
        i = i + 1;
    }
    r
}


/// The units of two numbers, set against their normalized significands:
/// what one side has in powers of two, the other has too.
proof fn lemma_ratio(
    ma: nat,
    ea: nat,
    sa: nat,
    mb: nat,
    eb: nat,
    sb: nat,
    yp: nat,
    yn: nat,
)
    requires
        ea + 1074 + sb + yn == sa + eb + yp,
    ensures
        ((ma * pow2(ea)) * pow2(1074)) * ((mb * pow2(sb)) * pow2(yn)) == ((ma * pow2(sa)) * (mb
            * pow2(eb))) * pow2(yp),
{
    let x = pow2(ea) * pow2(1074) * pow2(sb) * pow2(yn);
    let y = pow2(sa) * pow2(eb) * pow2(yp);
    lemma_pow2_adds(ea, 1074);
    lemma_pow2_adds(ea + 1074, sb);
    lemma_pow2_adds(ea + 1074 + sb, yn);
    lemma_pow2_adds(sa, eb);
    lemma_pow2_adds(sa + eb, yp);
    assert(x == y);
    let (a, b, c, d) = (pow2(ea), pow2(1074), pow2(sb), pow2(yn));
    assert(((ma * a) * b) * ((mb * c) * d) == (ma * mb) * (a * b * c * d)) by (nonlinear_arith);
    let (f, g, h) = (pow2(sa), pow2(eb), pow2(yp));
    assert(((ma * f) * (mb * g)) * h == (ma * mb) * (f * g * h)) by (nonlinear_arith);
}

/// Cancelling a positive factor keeps the order.
proof fn lemma_cancel(x: int, y: int, c: int)
    requires
        c > 0,
    ensures
        x * c < y * c <==> x < y,
        x * c == y * c <==> x == y,
        x * c <= y * c <==> x <= y,
{
    assert(x < y ==> x * c < y * c) by (nonlinear_arith)
        requires
            c > 0,
    ;
    assert(y < x ==> y * c < x * c) by (nonlinear_arith)
        requires
            c > 0,
    ;
}

/// A ratio of at least `2^1024` rounds to infinity.
proof fn lemma_overflow(num: nat, den: nat, na: nat, nb: nat, z: nat)
    requires
        den > 0,
        nb > 0,
        2 * na > nb,
        z >= 2098,
        na >= nb ==> num * nb == (na * den) * pow2(z),
        na < nb ==> num * nb == (na * den) * pow2(z + 1),
    ensures
        is_nearest(num, den, INFINITY_BITS as nat),
{
    lemma_units_encoding(2046, HIDDEN_BIT as nat);
    lemma2_to64_rest();
    lemma_pow2_adds(52, 2046);
    assert(units_of(INFINITY_BITS as nat) == pow2(2098));
    lemma_units_order((INFINITY_BITS - 1) as nat, INFINITY_BITS as nat);
    let top = pow2(2098);
    let below = units_of((INFINITY_BITS - 1) as nat);
    let w = pow2(z);
    lemma_pow2_unfold(z + 1);
    lemma_pow2_pos(z);
    if z > 2098 {
        lemma_pow2_strictly_increases(2098, z);
    }
    assert(top <= w);
    assert(num * nb >= (den * w) * nb) by (nonlinear_arith)
        requires
            na >= nb ==> num * nb == (na * den) * w,
            na < nb ==> num * nb == (na * den) * (2 * w),
            2 * na > nb,
            den > 0,
            w > 0,
            nb > 0,
    ;
    lemma_cancel((den * w) as int, num as int, nb as int);
    assert(2 * num > (below + top) * den) by (nonlinear_arith)
        requires
            num >= den * w,
            top <= w,
            below < top,
            den > 0,
    ;
}

/// A ratio below a quarter of a unit rounds to zero.
proof fn lemma_underflow(num: nat, den: nat, na: nat, nb: nat, yn: nat)
    requires
        den > 0,
        nb > 0,
        na < 2 * nb,
        yn >= 2,
        num * (nb * pow2(yn)) == na * den,
    ensures
        is_nearest(num, den, 0),
{
    lemma_pow2_unfold(yn);
    lemma_pow2_unfold((yn - 1) as nat);
    lemma_pow2_pos((yn - 2) as nat);
    let w = pow2(yn);
    assert(w >= 4);
    assert((2 * num) * nb < den * nb) by (nonlinear_arith)
        requires
            num * (nb * w) == na * den,
            na < 2 * nb,
            w >= 4,
            den > 0,
            nb > 0,
            num >= 0,
    ;
    lemma_cancel((2 * num) as int, den as int, nb as int);
    assert(units_of(0) == 0);
    assert(units_of(1) == 1);
    assert(midpoint2(0) * den == den) by (nonlinear_arith)
        requires
            midpoint2(0) == 1,
    ;
}

/// An integer quotient stays below a bound that the ratio stays below.
proof fn lemma_quotient_below(p: nat, q: nat, m: nat, rem: nat, bound: nat)
    requires
        p == q * m + rem,
        rem < q,
        p < bound * q,
    ensures
        m < bound,
{
    assert(m < bound) by (nonlinear_arith)
        requires
            p == q * m + rem,
            0 <= rem < q,
            p < bound * q,
            m >= 0,
            bound >= 0,
    ;
}

/// An integer quotient reaches a bound that the ratio reaches.
proof fn lemma_quotient_above(p: nat, q: nat, m: nat, rem: nat, bound: nat)
    requires
        p == q * m + rem,
        rem < q,
        bound * q <= p,
    ensures
        bound <= m,
{
    assert(bound <= m) by (nonlinear_arith)
        requires
            p == q * m + rem,
            0 <= rem < q,
            bound * q <= p,
            m >= 0,
            bound >= 0,
    ;
}

/// Rounding the quotient `p / q`, which states the ratio `num / den` in
/// steps of `2^e` units, by its remainder.
proof fn lemma_round_by_remainder(
    num: nat,
    den: nat,
    p: nat,
    q: nat,
    m: nat,
    rem: nat,
    e: nat,
    lo: nat,
    up: bool,
)
    requires
        den > 0,
        q > 0,
        p == q * m + rem,
        rem < q,
        num * q == (p * den) * pow2(e),
        lo == e * HIDDEN_BIT + m,
        lo < INFINITY_BITS,
        m < 2 * HIDDEN_BIT,
        e >= 1 ==> m >= HIDDEN_BIT,
        up <==> (2 * rem > q || (2 * rem == q && lo % 2 == 1)),
    ensures
        is_nearest(num, den, if up { lo + 1 } else { lo }),
{
    let pe = pow2(e);
    lemma_pow2_pos(e);
    lemma_units_encoding(e, m);
    lemma_units_encoding(e, m + 1);
    let u0 = units_of(lo);
    let u1 = units_of(lo + 1);
    assert(u0 == m * pe);
    assert(u1 == (m + 1) * pe);
    let mid = midpoint2(lo);
    let g = pe * den;
    assert(g > 0) by (nonlinear_arith)
        requires
            pe > 0,
            den > 0,
            g == pe * den,
    ;
    let mq = m * q;
    assert((u0 * den) * q == mq * g) by (nonlinear_arith)
        requires
            u0 == m * pe,
            g == pe * den,
            mq == m * q,
    ;
    assert((u1 * den) * q == (mq + q) * g) by (nonlinear_arith)
        requires
            u1 == (m + 1) * pe,
            g == pe * den,
            mq == m * q,
    ;
    assert(num * q == (mq + rem) * g) by (nonlinear_arith)
        requires
            num * q == (p * den) * pe,
            p == q * m + rem,
            g == pe * den,
            mq == m * q,
    ;
    assert((mid * den) * q == (2 * mq + q) * g) by (nonlinear_arith)
        requires
            mid == u0 + u1,
            (u0 * den) * q == mq * g,
            (u1 * den) * q == (mq + q) * g,
    ;
    assert((2 * num) * q == (2 * mq + 2 * rem) * g) by (nonlinear_arith)
        requires
            num * q == (mq + rem) * g,
    ;
    lemma_cancel(mq as int, (mq + rem) as int, g as int);
    lemma_cancel((mq + rem) as int, (mq + q) as int, g as int);
    lemma_cancel((2 * mq + q) as int, (2 * mq + 2 * rem) as int, g as int);
    lemma_cancel((u0 * den) as int, num as int, q as int);
    lemma_cancel(num as int, (u1 * den) as int, q as int);
    lemma_cancel((mid * den) as int, (2 * num) as int, q as int);
    lemma_nearest_from_floor(num, den, lo, up);
}

/// Where the significand of the quotient lies: below twice the hidden bit,
/// and, where the result has a scaled exponent (`e > 0`), not below the
/// hidden bit.
proof fn lemma_quotient_range(
    na: nat,
    nb: nat,
    tp: nat,
    tn: nat,
    e: nat,
    p: nat,
    q: nat,
    m: nat,
    rem: nat,
)
    requires
        HIDDEN_BIT <= na < 2 * HIDDEN_BIT,
        HIDDEN_BIT <= nb < 2 * HIDDEN_BIT,
        p == na * pow2(tp),
        q == nb * pow2(tn),
        p == q * m + rem,
        rem < q,
        e > 0 ==> tn == 0 && tp == (if na >= nb { 52nat } else { 53nat }),
        e == 0 ==> tp <= (if na >= nb { 52nat } else { 53nat }),
    ensures
        m < 2 * HIDDEN_BIT,
        e >= 1 ==> m >= HIDDEN_BIT,
{
    let h = HIDDEN_BIT as nat;
    let su = pow2(tp);
    let sd = pow2(tn);
    lemma2_to64();
    lemma2_to64_rest();
    lemma_pow2_pos(tp);
    lemma_pow2_pos(tn);
    if e > 0 {
        if na >= nb {
            assert(h * q <= p && p < (2 * h) * q) by (nonlinear_arith)
                requires
                    p == na * h,
                    q == nb * 1,
                    nb <= na < 2 * nb,
                    h > 0,
            ;
        } else {
            assert(h * q <= p && p < (2 * h) * q) by (nonlinear_arith)
                requires
                    p == na * (2 * h),
                    q == nb * 1,
                    na < nb <= 2 * na,
                    h > 0,
            ;
        }
        lemma_quotient_above(p, q, m, rem, h);
        lemma_quotient_below(p, q, m, rem, 2 * h);
    } else {
        if na >= nb {
            if tp < 52 {
                lemma_pow2_strictly_increases(tp, 52);
            }
            assert(p < (2 * h) * q) by (nonlinear_arith)
                requires
                    p == na * su,
                    q == nb * sd,
                    sd >= 1,
                    su <= h,
                    na < 2 * nb,
                    nb > 0,
                    su > 0,
            ;
        } else {
            if tp < 53 {
                lemma_pow2_strictly_increases(tp, 53);
            }
            assert(p < (2 * h) * q) by (nonlinear_arith)
                requires
                    p == na * su,
                    q == nb * sd,
                    sd >= 1,
                    su <= 2 * h,
                    na < nb,
                    su > 0,
            ;
        }
        lemma_quotient_below(p, q, m, rem, 2 * h);
    }
}

/// The ratio of two numbers in units, stated by their normalized
/// significands `na`, `nb` and the exponent `y` between them.
proof fn lemma_ratio_of_units(
    a: nat,
    b: nat,
    ma: nat,
    ea: nat,
    na: nat,
    sa: nat,
    mb: nat,
    eb: nat,
    nb: nat,
    sb: nat,
    y: int,
)
    requires
        units_of(a) == ma * pow2(ea),
        units_of(b) == mb * pow2(eb),
        na == ma * pow2(sa),
        nb == mb * pow2(sb),
        mb > 0,
        y == ea + 1074 - eb - sa + sb,
    ensures
        units_of(b) > 0,
        (units_of(a) * pow2(1074)) * (nb * pow2((if y < 0 { -y } else { 0 }) as nat)) == (na
            * units_of(b)) * pow2((if y > 0 { y } else { 0 }) as nat),
{
    let yp = (if y > 0 { y } else { 0 }) as nat;
    let yn = (if y < 0 { -y } else { 0 }) as nat;
    lemma_ratio(ma, ea, sa, mb, eb, sb, yp, yn);
    lemma_pow2_pos(eb);
    assert(mb * pow2(eb) > 0) by (nonlinear_arith)
        requires
            mb > 0,
            pow2(eb) > 0,
    ;
}

/// The quotient of two positive finite magnitudes.
pub fn divide_magnitudes(a: u64, b: u64) -> (r: u64)
    requires
        0 < a < INFINITY_BITS,
        0 < b < INFINITY_BITS,
    ensures
        is_nearest(units_of(a as nat) * pow2(1074), units_of(b as nat), r as nat),
{
    let (ma, ea) = split_magnitude(a);
    let (mb, eb) = split_magnitude(b);
    let (na, sa) = normalize(ma);
    let (nb, sb) = normalize(mb);
    // The ratio is (na / nb) * 2^y units, with na / nb between a half and two,
    let y: i64 = ea as i64 + 1074 - eb as i64 - sa as i64 + sb as i64;
    // so it lies from 2^z up to 2^(z + 1).
    let z: i64 = if na >= nb {
        y
    } else {
        y - 1
    };
    let ghost num = units_of(a as nat) * pow2(1074);
    let ghost den = units_of(b as nat);
    let ghost yp: nat = (if y > 0 { y } else { 0 }) as nat;
    let ghost yn: nat = (if y < 0 { -y } else { 0 }) as nat;
    proof {
        lemma_ratio_of_units(
            a as nat,
            b as nat,
            ma as nat,
            ea as nat,
            na as nat,
            sa as nat,
            mb as nat,
            eb as nat,
            nb as nat,
            sb as nat,
            y as int,
        );
        lemma2_to64();
    }
    assert(num * (nb * pow2(yn)) == (na * den) * pow2(yp));
    if z >= 2098 {
        proof {
            assert(num * nb == (na * den) * pow2(yp)) by (nonlinear_arith)
                requires
                    num * (nb * 1) == (na * den) * pow2(yp),
            ;
            lemma_overflow(num, den, na as nat, nb as nat, z as nat);
        }
        return INFINITY_BITS;
    }
    // The result counts steps of 2^e units: as many as the whole part of
    // (na / nb) * 2^t, and one more where the rest is above a half.
    let e: i64 = if z >= 52 {
        z - 52
    } else {
        0
    };
    let t: i64 = y - e;
    if t <= -2 {
        proof {
            assert(num * (nb * pow2(yn)) == na * den) by (nonlinear_arith)
                requires
                    num * (nb * pow2(yn)) == (na * den) * 1,
            ;
            lemma_underflow(num, den, na as nat, nb as nat, yn);
        }
        return 0;
    }
    let tp: u32 = if t > 0 {
        t as u32
    } else {
        0
    };
    let tn: u32 = if t < 0 {
        (-t) as u32
    } else {
        0
    };
    let shift_up: u128 = power_of_two(tp);
    let shift_down: u128 = power_of_two(tn);
    proof {
        lemma2_to64_rest();
        if tp < 53 {
            lemma_pow2_strictly_increases(tp as nat, 53);
        }
        assert(shift_up <= 0x20_0000_0000_0000);
        assert(shift_down <= 2);
        assert(na * shift_up <= 0x20_0000_0000_0000 * 0x20_0000_0000_0000) by (nonlinear_arith)
            requires
                na <= 0x20_0000_0000_0000,
                shift_up <= 0x20_0000_0000_0000,
        ;
        assert(nb * shift_down <= 0x20_0000_0000_0000 * 2) by (nonlinear_arith)
            requires
                nb <= 0x20_0000_0000_0000,
                shift_down <= 2,
        ;
        assert(nb * shift_down >= nb) by (nonlinear_arith)
            requires
                shift_down >= 1,
        ;
    }
    let p: u128 = (na as u128) * shift_up;
    let q: u128 = (nb as u128) * shift_down;
    let m: u128 = p / q;
    let rem: u128 = p % q;
    proof {
        lemma_fundamental_div_mod(p as int, q as int);
        lemma_quotient_range(
            na as nat,
            nb as nat,
            tp as nat,
            tn as nat,
            e as nat,
            p as nat,
            q as nat,
            m as nat,
            rem as nat,
        );
    }
    let lo: u64 = (e as u64) * HIDDEN_BIT + (m as u64);
    let up: bool = 2 * rem > q || (2 * rem == q && lo % 2 == 1);
    proof {
        let pe = pow2(e as nat);
        if e == 0 {
            assert(num * q == (p * den) * pe) by (nonlinear_arith)
                requires
                    num * (nb * shift_down) == (na * den) * shift_up,
                    p == na * shift_up,
                    q == nb * shift_down,
                    pe == 1,
            ;
        } else {
            lemma_pow2_adds(tp as nat, e as nat);
            assert(num * q == (p * den) * pe) by (nonlinear_arith)
                requires
                    num * (nb * 1) == (na * den) * (shift_up * pe),
                    p == na * shift_up,
                    q == nb * 1,
            ;
        }
        lemma_round_by_remainder(
            num,
            den,
            p as nat,
            q as nat,
            m as nat,
            rem as nat,
            e as nat,
            lo as nat,
            up,
        );
    }
    if up {
        lo + 1
    } else {
        lo
    }
}

/// `q` is the quotient `a / b`: the double-precision number nearest to the
/// exact quotient, with the sign of the two operands combined. Dividing by
/// zero gives infinity; what has no value (a NaN operand, zero by zero,
/// infinity by infinity) gives the quiet NaN.
pub open spec fn is_quotient(a: Binary64, b: Binary64, q: Binary64) -> bool {
    if a.is_nan() || b.is_nan() || (a.is_infinite() && b.is_infinite()) || (a.is_zero()
        && b.is_zero()) {
        q@ == NAN_BITS
    } else {
        &&& q.is_negative() == (a.is_negative() != b.is_negative())
        &&& if a.is_infinite() || b.is_zero() {
            q.magnitude() == INFINITY_BITS
        } else if b.is_infinite() || a.is_zero() {
            q.magnitude() == 0
        } else {
            is_nearest(a.units() * pow2(1074), b.units(), q.magnitude())
        }
    }
}

/// Two numbers have one quotient.
pub proof fn lemma_quotient_unique(a: Binary64, b: Binary64, q1: Binary64, q2: Binary64)
    requires
        is_quotient(a, b, q1),
        is_quotient(a, b, q2),
    ensures
        q1 == q2,
{
    if a.is_nan() || b.is_nan() || (a.is_infinite() && b.is_infinite()) || (a.is_zero()
        && b.is_zero()) {
    } else {
        if a.is_infinite() || b.is_zero() {
        } else if b.is_infinite() || a.is_zero() {
        } else {
            crate::binary64::lemma_units_zero(b.magnitude());
            lemma_nearest_unique(
                a.units() * pow2(1074),
                b.units(),
                q1.magnitude(),
                q2.magnitude(),
            );
        }
        assert(q1.magnitude() == q2.magnitude());
        assert(q1@ == q2@);
    }
}

/// The largest magnitude up to `k` whose units, times `den`, stay within
/// `num`.
pub open spec fn floor_magnitude(num: nat, den: nat, k: nat) -> nat
    decreases k,
{
    if k == 0 {
        0
    } else if units_of(k) * den <= num {
        k
    } else {
        floor_magnitude(num, den, (k - 1) as nat)
    }
}

/// The magnitude found is within the ratio, and the next one is not.
proof fn lemma_floor_magnitude(num: nat, den: nat, k: nat)
    ensures
        floor_magnitude(num, den, k) <= k,
        units_of(floor_magnitude(num, den, k)) * den <= num,
        floor_magnitude(num, den, k) < k ==> units_of(floor_magnitude(num, den, k) + 1) * den
            > num,
    decreases k,
{
    if k == 0 {
        assert(units_of(0) * den == 0) by (nonlinear_arith)
            requires
                units_of(0) == 0,
        ;
    } else if units_of(k) * den <= num {
    } else {
        lemma_floor_magnitude(num, den, (k - 1) as nat);
    }
}

/// Every ratio has a nearest magnitude.
pub proof fn lemma_nearest_exists(num: nat, den: nat) -> (r: nat)
    requires
        den > 0,
    ensures
        is_nearest(num, den, r),
{
    let top = INFINITY_BITS as nat;
    let lo = floor_magnitude(num, den, top);
    lemma_floor_magnitude(num, den, top);
    if lo == top {
        lemma_units_order((top - 1) as nat, top);
        let below = units_of((top - 1) as nat);
        let at = units_of(top);
        assert(2 * num > (below + at) * den) by (nonlinear_arith)
            requires
                at * den <= num,
                below < at,
                den > 0,
        ;
        top
    } else {
        let up = 2 * num > midpoint2(lo) * den || (2 * num == midpoint2(lo) * den && lo % 2 == 1);
        lemma_nearest_from_floor(num, den, lo, up);
        if up {
            lo + 1
        } else {
            lo
        }
    }
}

/// Any two numbers have a quotient, and `spec_div` names it.
pub proof fn lemma_quotient_exists(a: Binary64, b: Binary64)
    ensures
        is_quotient(a, b, a.spec_div(b)),
{
    if a.is_nan() || b.is_nan() || (a.is_infinite() && b.is_infinite()) || (a.is_zero()
        && b.is_zero()) {
        assert(is_quotient(a, b, Binary64 { bits: NAN_BITS }));
    } else {
        let mag: nat = if a.is_infinite() || b.is_zero() {
            INFINITY_BITS as nat
        } else if b.is_infinite() || a.is_zero() {
            0
        } else {
            crate::binary64::lemma_units_zero(b.magnitude());
            lemma_nearest_exists(a.units() * pow2(1074), b.units())
        };
        let sign: nat = if a.is_negative() != b.is_negative() {
            SIGN_BIT as nat
        } else {
            0
        };
        let q = Binary64 { bits: (sign + mag) as u64 };
        assert(q.magnitude() == mag);
        assert(is_quotient(a, b, q));
    }
}

impl Binary64 {
    /// The quotient `self / rhs`.
    pub open spec fn spec_div(self, rhs: Binary64) -> Binary64 {
        choose|q: Binary64| is_quotient(self, rhs, q)
    }

    /// Divides `self` by `rhs`.
    pub fn div(self, rhs: Binary64) -> (q: Binary64)
        ensures
            is_quotient(self, rhs, q),
            q == self.spec_div(rhs),
    {
        let a: u64 = self.bits % SIGN_BIT;
        let b: u64 = rhs.bits % SIGN_BIT;
        let q = if a > INFINITY_BITS || b > INFINITY_BITS || (a == INFINITY_BITS && b
            == INFINITY_BITS) || (a == 0 && b == 0) {
            Binary64 { bits: NAN_BITS }
        } else {
            let negative: bool = (self.bits >= SIGN_BIT) != (rhs.bits >= SIGN_BIT);
            let mag: u64 = if a == INFINITY_BITS || b == 0 {
                INFINITY_BITS
            } else if b == INFINITY_BITS || a == 0 {
                0
            } else {
                divide_magnitudes(a, b)
            };
            Binary64 { bits: if negative { SIGN_BIT + mag } else { mag } }
        };
        proof {
            assert(is_quotient(self, rhs, q));
            lemma_quotient_unique(self, rhs, q, self.spec_div(rhs));
        }
        q
    }
}

} // verus!
