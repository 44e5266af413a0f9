//! Decimal digit strings: numbers held digit by digit, lowest digit first,
//! and the text of a number in fixed-point notation.

use vstd::prelude::*;
use vstd::arithmetic::div_mod::*;
use vstd::arithmetic::power2::*;
use vstd::string::*;

verus! {

/// Ten to the power `e`.
pub open spec fn pow10(e: nat) -> nat
    decreases e,
{
    if e == 0 {
        1
    } else {
        10 * pow10((e - 1) as nat)
    }
}

/// Every entry is a decimal digit.
pub open spec fn digits_valid(s: Seq<u8>) -> bool {
    forall|i: int| 0 <= i < s.len() ==> s[i] < 10
}

/// The number whose decimal digits are `s`, lowest digit first.
pub open spec fn le_value(s: Seq<u8>) -> nat
    decreases s.len(),
{
    if s.len() == 0 {
        0
    } else {
        s[0] as nat + 10 * le_value(s.drop_first())
    }
}

/// Powers of ten are positive.
pub proof fn lemma_pow10_positive(e: nat)
    ensures
        pow10(e) > 0,
    decreases e,
{
    if e > 0 {
        lemma_pow10_positive((e - 1) as nat);
    }
}

/// Exponents add where powers multiply.
pub proof fn lemma_pow10_adds(a: nat, b: nat)
    ensures
        pow10(a + b) == pow10(a) * pow10(b),
    decreases a,
{
    if a == 0 {
        assert(pow10(b) == 1 * pow10(b));
    } else {
        lemma_pow10_adds((a - 1) as nat, b);
        assert(pow10(a + b) == 10 * pow10((a - 1 + b) as nat));
        assert(10 * (pow10((a - 1) as nat) * pow10(b)) == (10 * pow10((a - 1) as nat)) * pow10(b))
            by (nonlinear_arith);
    }
}

/// Appending a digit at the top adds it with the weight of its place.
pub proof fn lemma_value_push(s: Seq<u8>, d: u8)
    ensures
        le_value(s.push(d)) == le_value(s) + d * pow10(s.len()),
    decreases s.len(),
{
    if s.len() == 0 {
        assert(s.push(d).drop_first() =~= Seq::<u8>::empty());
        assert(le_value(s.push(d)) == d as nat + 10 * le_value(s.push(d).drop_first()));
        assert(d * pow10(0) == d) by (nonlinear_arith)
            requires
                pow10(0) == 1,
        ;
    } else {
        assert(s.push(d).drop_first() =~= s.drop_first().push(d));
        lemma_value_push(s.drop_first(), d);
        assert(10 * (d * pow10(s.drop_first().len())) == d * pow10(s.len())) by (nonlinear_arith)
            requires
                pow10(s.len()) == 10 * pow10(s.drop_first().len()),
        ;
    }
}

/// A string of `n` digits stays below `10^n`.
pub proof fn lemma_value_bound(s: Seq<u8>)
    requires
        digits_valid(s),
    ensures
        le_value(s) < pow10(s.len()),
    decreases s.len(),
{
    if s.len() > 0 {
        lemma_value_bound(s.drop_first());
    }
}

/// The low `n` digits and the digits above them make up the whole.
pub proof fn lemma_value_split(s: Seq<u8>, n: int)
    requires
        0 <= n <= s.len(),
    ensures
        le_value(s) == le_value(s.take(n)) + pow10(n as nat) * le_value(s.skip(n)),
    decreases n,
{
    if n == 0 {
        assert(s.skip(0) =~= s);
        assert(s.take(0) =~= Seq::<u8>::empty());
        assert(pow10(0) * le_value(s) == le_value(s)) by (nonlinear_arith)
            requires
                pow10(0) == 1,
        ;
    } else {
        let t = s.drop_first();
        lemma_value_split(t, n - 1);
        assert(s.take(n).drop_first() =~= t.take(n - 1));
        assert(s.skip(n) =~= t.skip(n - 1));
        assert(10 * (pow10((n - 1) as nat) * le_value(t.skip(n - 1))) == pow10(n as nat) * le_value(
            s.skip(n),
        )) by (nonlinear_arith)
            requires
                pow10(n as nat) == 10 * pow10((n - 1) as nat),
                le_value(t.skip(n - 1)) == le_value(s.skip(n)),
        ;
    }
}

/// The decimal digits of `n`, lowest first.
pub fn digits_of(n: u64) -> (out: Vec<u8>)
    ensures
        digits_valid(out@),
        le_value(out@) == n,
        out.len() <= 20,
{
    let mut out: Vec<u8> = Vec::new();
    let mut rest: u64 = n;
    proof {
        assert(rest * pow10(0) == rest) by (nonlinear_arith)
            requires
                pow10(0) == 1,
        ;
    }
    while rest > 0
        invariant
            digits_valid(out@),
            le_value(out@) + rest * pow10(out.len() as nat) == n,
            out.len() <= 20,
        decreases rest,
    {
        let d: u8 = (rest % 10) as u8;
        proof {
            lemma_value_push(out@, d);
            let p = pow10(out.len() as nat);
            assert((rest / 10) * (10 * p) + d * p == rest * p) by (nonlinear_arith)
                requires
                    rest == 10 * (rest / 10) + d,
            ;
            if out.len() == 20 {
                lemma_pow10_twenty();
                assert(rest * p >= p) by (nonlinear_arith)
                    requires
                        rest >= 1,
                        p > 0,
                ;
            }
        }
        out.push(d);
        rest = rest / 10;
    }
    proof {
        assert(rest * pow10(out.len() as nat) == 0) by (nonlinear_arith)
            requires
                rest == 0,
        ;
    }
    out
}

/// Twenty digits hold every `u64`.
proof fn lemma_pow10_twenty()
    ensures
        pow10(20) > u64::MAX,
{
    reveal_with_fuel(pow10, 21);
}

/// The digits of `factor` times the number held in `digits`, plus `addend`.
pub fn mul_add_small(digits: &Vec<u8>, factor: u8, addend: u8) -> (out: Vec<u8>)
    requires
        digits_valid(digits@),
        factor <= 9,
        addend <= 9,
    ensures
        digits_valid(out@),
        le_value(out@) == factor * le_value(digits@) + addend,
        digits.len() <= out.len() <= digits.len() + 1,
{
    let mut out: Vec<u8> = Vec::new();
    let mut carry: u8 = addend;
    let mut i: usize = 0;
    proof {
        assert(digits@.take(0) =~= Seq::<u8>::empty());
        assert(carry * pow10(0) == carry) by (nonlinear_arith)
            requires
                pow10(0) == 1,
        ;
        assert(factor * le_value(digits@.take(0)) == 0) by (nonlinear_arith)
            requires
                le_value(digits@.take(0)) == 0,
        ;
    }
    while i < digits.len()
        invariant
            i <= digits.len(),
            out.len() == i,
            digits_valid(out@),
            digits_valid(digits@),
            factor <= 9,
            carry <= 9,
            le_value(out@) + carry * pow10(i as nat) == factor * le_value(digits@.take(i as int))
                + addend,
        decreases digits.len() - i,
    {
        assert(digits[i as int] * factor <= 81) by (nonlinear_arith)
            requires
                digits[i as int] <= 9,
                factor <= 9,
        ;
        let cur: u8 = digits[i] * factor + carry;
        proof {
            let low = digits@.take(i as int);
            assert(digits@.take(i + 1) =~= low.push(digits@[i as int]));
            lemma_value_push(low, digits@[i as int]);
            lemma_value_push(out@, cur % 10);
            let p = pow10(i as nat);
            assert((cur % 10) * p + (cur / 10) * (10 * p) == carry * p + factor * (digits@[i as int]
                * p)) by (nonlinear_arith)
                requires
                    cur == 10 * (cur / 10) + cur % 10,
                    cur == digits@[i as int] * factor + carry,
            ;
            assert(factor * (le_value(low) + digits@[i as int] * p) == factor * le_value(low)
                + factor * (digits@[i as int] * p)) by (nonlinear_arith);
        }
        out.push(cur % 10);
        carry = cur / 10;
        i = i + 1;
    }
    proof {
        assert(digits@.take(i as int) =~= digits@);
    }
    if carry > 0 {
        proof {
            lemma_value_push(out@, carry);
        }
        out.push(carry);
    } else {
        proof {
            assert(carry * pow10(i as nat) == 0) by (nonlinear_arith)
                requires
                    carry == 0,
            ;
        }
    }
    out
}

/// The character that shows the digit `d`.
pub open spec fn digit_char(d: nat) -> char {
    if d == 0 {
        '0'
    } else if d == 1 {
        '1'
    } else if d == 2 {
        '2'
    } else if d == 3 {
        '3'
    } else if d == 4 {
        '4'
    } else if d == 5 {
        '5'
    } else if d == 6 {
        '6'
    } else if d == 7 {
        '7'
    } else if d == 8 {
        '8'
    } else {
        '9'
    }
}

/// The decimal notation of `n`, highest digit first, without leading zeros.
pub open spec fn decimal_digits(n: nat) -> Seq<char>
    decreases n,
{
    if n < 10 {
        seq![digit_char(n)]
    } else {
        decimal_digits(n / 10).push(digit_char(n % 10))
    }
}

/// The lowest `width` decimal digits of `n`, highest first.
pub open spec fn padded_digits(n: nat, width: nat) -> Seq<char>
    decreases width,
{
    if width == 0 {
        Seq::empty()
    } else {
        padded_digits(n / 10, (width - 1) as nat).push(digit_char(n % 10))
    }
}

/// The integer nearest to `num / den`; of two equally near, the even one.
pub open spec fn round_half_even(num: nat, den: nat) -> nat {
    let q = num / den;
    let r = num % den;
    if 2 * r < den || (2 * r == den && q % 2 == 0) {
        q
    } else {
        q + 1
    }
}

/// Fixed-point notation, with `decimals` digits behind the point, of the
/// number that counts `units` units of `2^-1074`: the number is rounded to
/// the nearest multiple of `10^-decimals`, ties to the even one; the whole
/// part is written without leading zeros, and the point only where digits
/// follow it.
pub open spec fn fixed_point_digits(units: nat, decimals: nat) -> Seq<char> {
    let rounded = round_half_even(units * pow10(decimals), pow2(1074));
    let whole = decimal_digits(rounded / pow10(decimals));
    if decimals == 0 {
        whole
    } else {
        whole + seq!['.'] + padded_digits(rounded % pow10(decimals), decimals)
    }
}

/// The digits of `s` as text, highest first.
pub open spec fn msb_text(s: Seq<u8>) -> Seq<char>
    decreases s.len(),
{
    if s.len() == 0 {
        Seq::empty()
    } else {
        msb_text(s.drop_first()).push(digit_char(s[0] as nat))
    }
}

/// `n` times the character `0`.
pub open spec fn zeros(n: nat) -> Seq<char> {
    Seq::new(n, |i: int| '0')
}

/// The one-character text of a digit.
pub fn digit_str(d: u8) -> (r: &'static str)
    requires
        d < 10,
    ensures
        r@ == seq![digit_char(d as nat)],
{
    proof {
        reveal_strlit("0");
        reveal_strlit("1");
        reveal_strlit("2");
        reveal_strlit("3");
        reveal_strlit("4");
        reveal_strlit("5");
        reveal_strlit("6");
        reveal_strlit("7");
        reveal_strlit("8");
        reveal_strlit("9");
    }
    let r = if d == 0 {
        "0"
    } else if d == 1 {
        "1"
    } else if d == 2 {
        "2"
    } else if d == 3 {
        "3"
    } else if d == 4 {
        "4"
    } else if d == 5 {
        "5"
    } else if d == 6 {
        "6"
    } else if d == 7 {
        "7"
    } else if d == 8 {
        "8"
    } else {
        "9"
    };
    assert(r@ =~= seq![digit_char(d as nat)]);
    r
}

/// Appends the digits `digits[from..to]`, highest first.
pub fn push_digits(out: &mut String, digits: &Vec<u8>, from: usize, to: usize)
    requires
        digits_valid(digits@),
        from <= to <= digits.len(),
    ensures
        final(out)@ == old(out)@ + msb_text(digits@.subrange(from as int, to as int)),
{
    let ghost before = out@;
    let mut i: usize = to;
    proof {
        assert(digits@.subrange(to as int, to as int) =~= Seq::<u8>::empty());
        assert(before + msb_text(Seq::<u8>::empty()) =~= before);
    }
    while i > from
        invariant
            from <= i <= to <= digits.len(),
            digits_valid(digits@),
            out@ == before + msb_text(digits@.subrange(i as int, to as int)),
        decreases i,
    {
        i = i - 1;
        proof {
            let cur = digits@.subrange(i as int, to as int);
            assert(cur.drop_first() =~= digits@.subrange(i + 1, to as int));
            assert(before + msb_text(cur) =~= (before + msb_text(cur.drop_first())) + seq![
                digit_char(digits@[i as int] as nat),
            ]);
        }
        out.append(digit_str(digits[i]));
    }
}

/// Appends `count` zeros.
pub fn push_zeros(out: &mut String, count: usize)
    ensures
        final(out)@ == old(out)@ + zeros(count as nat),
{
    let ghost before = out@;
    let mut i: usize = 0;
    proof {
        assert(before + zeros(0) =~= before);
    }
    while i < count
        invariant
            i <= count,
            out@ == before + zeros(i as nat),
        decreases count - i,
    {
        proof {
            reveal_strlit("0");
            assert(before + zeros((i + 1) as nat) =~= (before + zeros(i as nat)) + "0"@);
        }
        out.append("0");
        i = i + 1;
    }
}


/// A string of digits spells its own value, place for place.
pub proof fn lemma_padded_text(s: Seq<u8>)
    requires
        digits_valid(s),
    ensures
        padded_digits(le_value(s), s.len()) == msb_text(s),
    decreases s.len(),
{
    if s.len() > 0 {
        lemma_padded_text(s.drop_first());
    }
}

/// A string of digits whose top digit is not zero holds a positive number.
pub proof fn lemma_value_positive(s: Seq<u8>)
    requires
        s.len() >= 1,
        s.last() != 0,
    ensures
        le_value(s) >= 1,
{
    assert(s =~= s.drop_last().push(s.last()));
    lemma_value_push(s.drop_last(), s.last());
    lemma_pow10_positive(s.drop_last().len());
    assert(s.last() * pow10(s.drop_last().len()) >= 1) by (nonlinear_arith)
        requires
            s.last() >= 1,
            pow10(s.drop_last().len()) >= 1,
    ;
}

/// A string of digits without leading zeros is the decimal notation of its
/// value.
pub proof fn lemma_decimal_text(s: Seq<u8>)
    requires
        digits_valid(s),
        s.len() >= 1,
        s.len() == 1 || s.last() != 0,
    ensures
        decimal_digits(le_value(s)) == msb_text(s),
    decreases s.len(),
{
    let t = s.drop_first();
    if s.len() == 1 {
        assert(le_value(t) == 0);
        assert(msb_text(t) =~= Seq::<char>::empty());
        assert(msb_text(s) =~= seq![digit_char(s[0] as nat)]);
    } else {
        assert(t.last() == s.last());
        lemma_value_positive(t);
        lemma_decimal_text(t);
    }
}

/// Multiplying by a power of ten appends zeros.
pub proof fn lemma_padded_shift(x: nat, w: nat, z: nat)
    ensures
        padded_digits(x * pow10(z), w + z) == padded_digits(x, w) + zeros(z),
    decreases z,
{
    if z == 0 {
        assert(x * pow10(0) == x) by (nonlinear_arith)
            requires
                pow10(0) == 1,
        ;
        assert(padded_digits(x, w) + zeros(0) =~= padded_digits(x, w));
    } else {
        let y = x * pow10((z - 1) as nat);
        assert(x * pow10(z) == 10 * y) by (nonlinear_arith)
            requires
                pow10(z) == 10 * pow10((z - 1) as nat),
                y == x * pow10((z - 1) as nat),
        ;
        lemma_padded_shift(x, w, (z - 1) as nat);
        assert((padded_digits(x, w) + zeros((z - 1) as nat)).push('0') =~= padded_digits(x, w)
            + zeros(z));
    }
}

/// Rounding sees the ratio alone, not the pair that states it.
pub proof fn lemma_round_ratio(n1: nat, d1: nat, n2: nat, d2: nat)
    requires
        d1 > 0,
        d2 > 0,
        n1 * d2 == n2 * d1,
    ensures
        round_half_even(n1, d1) == round_half_even(n2, d2),
{
    let q = n1 / d1;
    let r1 = n1 % d1;
    lemma_fundamental_div_mod(n1 as int, d1 as int);
    assert(n1 == d1 * q + r1);
    assert(q * d2 <= n2 && n2 - q * d2 < d2) by (nonlinear_arith)
        requires
            n1 == d1 * q + r1,
            0 <= r1 < d1,
            n1 * d2 == n2 * d1,
            d1 > 0,
            d2 > 0,
            q >= 0,
    ;
    let r2 = n2 - q * d2;
    lemma_fundamental_div_mod_converse(n2 as int, d2 as int, q as int, r2 as int);
    assert(r1 * d2 == r2 * d1) by (nonlinear_arith)
        requires
            n1 == d1 * q + r1,
            n2 == q * d2 + r2,
            n1 * d2 == n2 * d1,
    ;
    assert((2 * r1 < d1) == (2 * r2 < d2) && (2 * r1 == d1) == (2 * r2 == d2)) by (nonlinear_arith)
        requires
            r1 * d2 == r2 * d1,
            d1 > 0,
            d2 > 0,
            r1 >= 0,
            r2 >= 0,
    ;
}

/// The number held in `digits`, divided by `10^drop` and rounded to the
/// nearest integer, ties to even.
pub fn round_drop(digits: &Vec<u8>, drop: usize) -> (out: Vec<u8>)
    requires
        digits_valid(digits@),
        drop >= 1,
    ensures
        digits_valid(out@),
        le_value(out@) == round_half_even(le_value(digits@), pow10(drop as nat)),
        out.len() <= digits.len() + 1,
{
    let n: usize = digits.len();
    let ghost value = le_value(digits@);
    let ghost unit = pow10((drop - 1) as nat);
    proof {
        lemma_pow10_positive((drop - 1) as nat);
    }
    if drop > n {
        proof {
            lemma_value_bound(digits@);
            lemma_pow10_adds((drop - 1 - n) as nat, n as nat);
            lemma_pow10_positive((drop - 1 - n) as nat);
            assert(pow10(n as nat) <= unit) by (nonlinear_arith)
                requires
                    unit == pow10((drop - 1 - n) as nat) * pow10(n as nat),
                    pow10((drop - 1 - n) as nat) >= 1,
            ;
            lemma_fundamental_div_mod_converse(value as int, (10 * unit) as int, 0, value as int);
        }
        return Vec::new();
    }
    let half: u8 = digits[drop - 1];
    let mut sticky: bool = false;
    let mut i: usize = 0;
    proof {
        assert(digits@.take(0) =~= Seq::<u8>::empty());
    }
    while i < drop - 1
        invariant
            i <= drop - 1 < n == digits.len(),
            sticky <==> le_value(digits@.take(i as int)) != 0,
        decreases drop - 1 - i,
    {
        proof {
            let low = digits@.take(i as int);
            assert(digits@.take(i + 1) =~= low.push(digits@[i as int]));
            lemma_value_push(low, digits@[i as int]);
            lemma_pow10_positive(i as nat);
            assert(digits@[i as int] * pow10(i as nat) == 0 <==> digits@[i as int] == 0)
                by (nonlinear_arith)
                requires
                    pow10(i as nat) > 0,
            ;
        }
        if digits[i] != 0 {
            sticky = true;
        }
        i = i + 1;
    }
    let mut kept: Vec<u8> = Vec::new();
    let mut j: usize = drop;
    while j < n
        invariant
            drop <= j <= n == digits.len(),
            kept@ == digits@.subrange(drop as int, j as int),
        decreases n - j,
    {
        kept.push(digits[j]);
        j = j + 1;
        proof {
            assert(kept@ =~= digits@.subrange(drop as int, j as int));
        }
    }
    let odd: bool = drop < n && digits[drop] % 2 == 1;
    let up: bool = half > 5 || (half == 5 && (sticky || odd));
    proof {
        let low = digits@.take(drop as int);
        let rest = digits@.take(drop - 1);
        let high = digits@.skip(drop as int);
        assert(kept@ =~= high);
        lemma_value_split(digits@, drop as int);
        lemma_value_bound(low);
        assert(low =~= rest.push(half));
        lemma_value_push(rest, half);
        lemma_value_bound(rest);
        assert(pow10(drop as nat) * le_value(high) == le_value(high) * (10 * unit))
            by (nonlinear_arith)
            requires
                pow10(drop as nat) == 10 * unit,
        ;
        lemma_fundamental_div_mod_converse(
            value as int,
            (10 * unit) as int,
            le_value(high) as int,
            le_value(low) as int,
        );
        if drop < n {
            assert(high.len() > 0);
            assert(high[0] == digits@[drop as int]);
            assert(le_value(high) == high[0] as nat + 10 * le_value(high.drop_first()));
        } else {
            assert(le_value(high) == 0);
        }
        assert(odd <==> le_value(high) % 2 == 1);
        let l = le_value(low);
        let r = le_value(rest);
        assert((2 * l < 10 * unit <==> half < 5) && (2 * l == 10 * unit <==> (half == 5 && r == 0)))
            by (nonlinear_arith)
            requires
                l == r + half * unit,
                0 <= r < unit,
        ;
    }
    if up {
        mul_add_small(&kept, 1, 1)
    } else {
        kept
    }
}

/// What the emitted pieces spell: the whole part and the fraction of the
/// number `le_value(kept) * 10^pad`, read with `held + pad` decimals.
pub proof fn lemma_fixed_text(kept: Seq<u8>, held: nat, pad: nat)
    requires
        digits_valid(kept),
        kept.len() >= held + 1,
        kept.len() == held + 1 || kept.last() != 0,
    ensures
        decimal_digits((le_value(kept) * pow10(pad)) / pow10(held + pad)) == msb_text(
            kept.skip(held as int),
        ),
        padded_digits((le_value(kept) * pow10(pad)) % pow10(held + pad), held + pad) == msb_text(
            kept.take(held as int),
        ) + zeros(pad),
{
    let low = kept.take(held as int);
    let high = kept.skip(held as int);
    lemma_value_split(kept, held as int);
    lemma_value_bound(low);
    lemma_pow10_adds(held, pad);
    lemma_pow10_positive(pad);
    lemma_pow10_positive(held + pad);
    let p = pow10(pad);
    let h = pow10(held);
    let lv = le_value(low);
    let hv = le_value(high);
    assert(le_value(kept) * p == hv * (h * p) + lv * p && lv * p < h * p && 0 <= lv * p)
        by (nonlinear_arith)
        requires
            le_value(kept) == lv + h * hv,
            0 <= lv < h,
            p > 0,
    ;
    lemma_fundamental_div_mod_converse(
        (le_value(kept) * p) as int,
        (h * p) as int,
        hv as int,
        (lv * p) as int,
    );
    assert(high.last() == kept.last());
    lemma_decimal_text(high);
    lemma_padded_text(low);
    lemma_padded_shift(lv, held, pad);
}

/// Fixed-point notation, with `decimals` digits behind the point, of the
/// number `mantissa * 2^exponent` counted in units of `2^-1074`. The
/// exponent is that of a double-precision magnitude, so at most 2046.
///
/// The number is first written out exactly: its digits are those of the
/// mantissa, doubled once for each power of two above the unit, or
/// multiplied by five once for each decimal place that it needs. Only then
/// is it rounded to the places asked for.
pub fn fixed_point_text(mantissa: u64, exponent: u32, decimals: usize) -> (out: String)
    requires
        exponent <= 2046,
    ensures
        out@ == fixed_point_digits(mantissa as nat * pow2(exponent as nat), decimals as nat),
{
    let ghost units = mantissa as nat * pow2(exponent as nat);
    let mut digits: Vec<u8> = digits_of(mantissa);
    let mut scale: usize = 0;
    if exponent >= 1074 {
        let mut left: u32 = exponent - 1074;
        while left > 0
            invariant
                left <= exponent - 1074,
                exponent <= 2046,
                digits_valid(digits@),
                digits.len() <= 20 + (exponent - 1074 - left),
                le_value(digits@) * pow2((1074 + left) as nat) == units,
            decreases left,
        {
            proof {
                lemma_pow2_unfold((1074 + left) as nat);
                assert(2 * le_value(digits@) * pow2((1074 + left - 1) as nat) == le_value(digits@)
                    * (2 * pow2((1074 + left - 1) as nat))) by (nonlinear_arith);
            }
            digits = mul_add_small(&digits, 2, 0);
            left = left - 1;
        }
        proof {
            assert(units * pow10(0) == units) by (nonlinear_arith)
                requires
                    pow10(0) == 1,
            ;
        }
    } else {
        let mut e: u32 = exponent;
        proof {
            assert(units * pow10(0) == units) by (nonlinear_arith)
                requires
                    pow10(0) == 1,
            ;
        }
        while e < 1074
            invariant
                exponent <= e <= 1074,
                scale == e - exponent,
                digits_valid(digits@),
                digits.len() <= 20 + scale,
                le_value(digits@) * pow2(e as nat) == units * pow10(scale as nat),
            decreases 1074 - e,
        {
            proof {
                lemma_pow2_unfold((e + 1) as nat);
                assert(5 * le_value(digits@) * (2 * pow2(e as nat)) == units * (10 * pow10(
                    scale as nat,
                ))) by (nonlinear_arith)
                    requires
                        le_value(digits@) * pow2(e as nat) == units * pow10(scale as nat),
                ;
            }
            digits = mul_add_small(&digits, 5, 0);
            e = e + 1;
            scale = scale + 1;
        }
    }
    assert(le_value(digits@) * pow2(1074) == units * pow10(scale as nat));
    let ghost exact = le_value(digits@);
    let held: usize;
    let pad: usize;
    let mut kept: Vec<u8>;
    proof {
        lemma_pow2_pos(1074);
    }
    if decimals >= scale {
        held = scale;
        pad = decimals - scale;
        kept = digits;
        proof {
            lemma_pow10_adds(scale as nat, pad as nat);
            assert((units * pow10(decimals as nat)) * 1 == (exact * pow10(pad as nat)) * pow2(1074))
                by (nonlinear_arith)
                requires
                    exact * pow2(1074) == units * pow10(scale as nat),
                    pow10(decimals as nat) == pow10(scale as nat) * pow10(pad as nat),
            ;
            lemma_round_ratio(
                units * pow10(decimals as nat),
                pow2(1074),
                exact * pow10(pad as nat),
                1,
            );
            assert(round_half_even(exact * pow10(pad as nat), 1) == exact * pow10(pad as nat));
        }
    } else {
        held = decimals;
        pad = 0;
        kept = round_drop(&digits, scale - decimals);
        proof {
            let t = (scale - decimals) as nat;
            lemma_pow10_adds(decimals as nat, t);
            lemma_pow10_positive(t);
            assert((units * pow10(decimals as nat)) * pow10(t) == exact * pow2(1074))
                by (nonlinear_arith)
                requires
                    exact * pow2(1074) == units * pow10(scale as nat),
                    pow10(scale as nat) == pow10(decimals as nat) * pow10(t),
            ;
            lemma_round_ratio(units * pow10(decimals as nat), pow2(1074), exact, pow10(t));
            assert(le_value(kept@) * pow10(0) == le_value(kept@)) by (nonlinear_arith)
                requires
                    pow10(0) == 1,
            ;
        }
    }
    let ghost rounded = round_half_even(units * pow10(decimals as nat), pow2(1074));
    assert(le_value(kept@) * pow10(pad as nat) == rounded);
    assert(held + pad == decimals);
    while kept.len() < held + 1
        invariant
            held <= 1074,
            kept.len() <= 1200,
            digits_valid(kept@),
            le_value(kept@) * pow10(pad as nat) == rounded,
        decreases held + 1 - kept.len(),
    {
        proof {
            lemma_value_push(kept@, 0);
            assert(0 * pow10(kept@.len()) == 0) by (nonlinear_arith);
        }
        kept.push(0);
    }
    while kept.len() > held + 1 && kept[kept.len() - 1] == 0
        invariant
            held <= 1074,
            kept.len() >= held + 1,
            digits_valid(kept@),
            le_value(kept@) * pow10(pad as nat) == rounded,
        decreases kept.len(),
    {
        proof {
            assert(kept@ =~= kept@.drop_last().push(0));
            lemma_value_push(kept@.drop_last(), 0);
            assert(0 * pow10(kept@.drop_last().len()) == 0) by (nonlinear_arith);
        }
        kept.pop();
    }
    let mut out: String = String::new();
    push_digits(&mut out, &kept, held, kept.len());
    proof {
        lemma_fixed_text(kept@, held as nat, pad as nat);
        assert(kept@.subrange(held as int, kept.len() as int) =~= kept@.skip(held as int));
        assert(kept@.subrange(0, held as int) =~= kept@.take(held as int));
        assert(Seq::<char>::empty() + msb_text(kept@.skip(held as int)) =~= msb_text(
            kept@.skip(held as int),
        ));
    }
    if decimals > 0 {
        proof {
            reveal_strlit(".");
            assert("."@ =~= seq!['.']);
        }
        out.append(".");
        push_digits(&mut out, &kept, 0, held);
        push_zeros(&mut out, pad);
        proof {
            let whole = msb_text(kept@.skip(held as int));
            let frac = msb_text(kept@.take(held as int)) + zeros(pad as nat);
            assert(out@ =~= whole + seq!['.'] + frac);
        }
    }
    out
}

} // verus!
