use human_number::decimal::{digits_of, mul_add_small, round_drop};
use human_number::division::{divide_magnitudes, normalize, power_of_two};
use human_number::binary64::split_magnitude;
use human_number::Binary64;

fn num(x: f64) -> Binary64 {
    Binary64::from_bits(x.to_bits())
}

struct Sequence(u64);

impl Sequence {
    fn next(&mut self) -> u64 {
        self.0 ^= self.0 << 13;
        self.0 ^= self.0 >> 7;
        self.0 ^= self.0 << 17;
        self.0
    }
}

fn same_quotient(a: f64, b: f64) {
    let expected = a / b;
    let got = f64::from_bits(num(a).div(num(b)).to_bits());
    if expected.is_nan() {
        assert!(got.is_nan(), "{:e} / {:e}", a, b);
    } else {
        assert_eq!(got.to_bits(), expected.to_bits(), "{:e} / {:e}", a, b);
    }
}

fn same_text(x: f64, decimals: usize) {
    assert_eq!(
        num(x).to_fixed(decimals, false),
        format!("{:.*}", decimals, x),
        "{:e} with {} decimals",
        x,
        decimals
    );
    assert_eq!(
        num(x).to_fixed(decimals, true),
        format!("{:+.*}", decimals, x),
        "{:e} with {} decimals and a sign",
        x,
        decimals
    );
}

#[test]
fn quotient_of_simple_values() {
    assert_eq!(num(4234.0).div(num(1000.0)).to_bits(), 4.234f64.to_bits());
    assert_eq!(num(1.0).div(num(3.0)).to_bits(), (1.0f64 / 3.0).to_bits());
    assert_eq!(num(-6.0).div(num(2.0)).to_bits(), (-3.0f64).to_bits());
    assert_eq!(num(6.0).div(num(-2.0)).to_bits(), (-3.0f64).to_bits());
    assert_eq!(num(-6.0).div(num(-2.0)).to_bits(), 3.0f64.to_bits());
    assert_eq!(num(0.01234).div(num(0.001)).to_bits(), (0.01234f64 / 0.001).to_bits());
}

#[test]
fn quotient_of_special_values() {
    let values = [
        0.0,
        -0.0,
        1.0,
        -1.0,
        f64::INFINITY,
        f64::NEG_INFINITY,
        f64::NAN,
        f64::MAX,
        f64::MIN_POSITIVE,
        f64::from_bits(1),
        f64::from_bits(0x000F_FFFF_FFFF_FFFF),
        2.0,
        0.5,
        3.0,
        1e308,
        1e-308,
        4e-324,
        1.5,
        f64::from_bits(0x3FFF_FFFF_FFFF_FFFF),
        f64::from_bits(0x7FEF_FFFF_FFFF_FFFE),
    ];
    for a in values {
        for b in values {
            same_quotient(a, b);
        }
    }
    assert_eq!(num(0.0).div(num(0.0)).to_bits(), 0x7FF8_0000_0000_0000);
    assert_eq!(num(1.0).div(num(0.0)).to_bits(), f64::INFINITY.to_bits());
    assert_eq!(num(-1.0).div(num(0.0)).to_bits(), f64::NEG_INFINITY.to_bits());
    assert_eq!(num(1.0).div(num(f64::INFINITY)).to_bits(), 0);
}

#[test]
fn quotient_of_any_encodings() {
    let mut sequence = Sequence(0x9E37_79B9_7F4A_7C15);
    for _ in 0..20000 {
        let a = f64::from_bits(sequence.next());
        let b = f64::from_bits(sequence.next());
        same_quotient(a, b);
    }
}

#[test]
fn quotient_near_the_ends_of_the_range() {
    let mut sequence = Sequence(0x0123_4567_89AB_CDEF);
    for _ in 0..20000 {
        let fraction_a = sequence.next() >> 12;
        let fraction_b = sequence.next() >> 12;
        let choice = sequence.next();
        let small = (choice % 64) << 52;
        let large = (0x7FE - (choice >> 8) % 64) << 52;
        let middle = (0x3FF - 32 + (choice >> 16) % 64) << 52;
        let tiny = f64::from_bits(fraction_a >> (choice >> 24) % 52);
        same_quotient(f64::from_bits(small | fraction_a), f64::from_bits(large | fraction_b));
        same_quotient(f64::from_bits(large | fraction_a), f64::from_bits(small | fraction_b));
        same_quotient(f64::from_bits(small | fraction_a), f64::from_bits(middle | fraction_b));
        same_quotient(f64::from_bits(large | fraction_a), f64::from_bits(middle | fraction_b));
        same_quotient(tiny, f64::from_bits(middle | fraction_b));
        same_quotient(f64::from_bits(small | fraction_a), tiny);
        same_quotient(f64::from_bits(middle | fraction_a), f64::from_bits(middle | fraction_b));
    }
}

#[test]
fn quotient_on_ties() {
    // 2^53 + 1 is halfway between two numbers when it is halved into the
    // subnormal range.
    let smallest = f64::from_bits(1);
    for k in 1..200u64 {
        let x = f64::from_bits(k);
        same_quotient(x, 2.0);
        same_quotient(x, 4.0);
        same_quotient(x, 8.0);
        same_quotient(x, 3.0);
        same_quotient(smallest, k as f64);
    }
    for k in 0..64u64 {
        let x = f64::from_bits((1u64 << 52) | k);
        same_quotient(x, 2.0);
        same_quotient(x, 4.0);
        same_quotient(x, 1024.0);
    }
    same_quotient(f64::MAX, 0.5);
    same_quotient(f64::MAX, 0.999_999_999_999_999_9);
    same_quotient(f64::MAX, f64::from_bits(0x3FEF_FFFF_FFFF_FFFF));
}

#[test]
fn comparison_follows_the_numbers() {
    let values = [
        f64::NEG_INFINITY,
        -1e300,
        -1.0,
        -1e-300,
        -4e-324,
        -0.0,
        0.0,
        4e-324,
        1e-300,
        0.999,
        1.0,
        1.001,
        1e300,
        f64::INFINITY,
        f64::NAN,
    ];
    for a in values {
        for b in values {
            assert_eq!(num(a).lt(num(b)), a < b, "{:e} < {:e}", a, b);
            assert_eq!(num(a).ge(num(b)), a >= b, "{:e} >= {:e}", a, b);
        }
        assert_eq!(num(a).abs().to_bits(), a.abs().to_bits());
    }
}

#[test]
fn fixed_text_of_simple_values() {
    assert_eq!(num(4.234).to_fixed(2, false), "4.23");
    assert_eq!(num(12.34).to_fixed(2, false), "12.34");
    assert_eq!(num(100.0).to_fixed(2, false), "100.00");
    assert_eq!(num(100.0).to_fixed(0, false), "100");
    assert_eq!(num(0.0).to_fixed(0, false), "0");
    assert_eq!(num(0.0).to_fixed(3, true), "+0.000");
    assert_eq!(num(-0.0).to_fixed(3, false), "-0.000");
    assert_eq!(num(-0.001).to_fixed(2, false), "-0.00");
    assert_eq!(num(9.999).to_fixed(2, false), "10.00");
    assert_eq!(num(0.999).to_fixed(0, false), "1");
    assert_eq!(num(1.0).to_fixed(1, true), "+1.0");
    assert_eq!(num(-1.0).to_fixed(1, true), "-1.0");
}

#[test]
fn fixed_text_rounds_ties_to_even() {
    assert_eq!(num(0.5).to_fixed(0, false), "0");
    assert_eq!(num(1.5).to_fixed(0, false), "2");
    assert_eq!(num(2.5).to_fixed(0, false), "2");
    assert_eq!(num(3.5).to_fixed(0, false), "4");
    assert_eq!(num(0.125).to_fixed(2, false), "0.12");
    assert_eq!(num(0.375).to_fixed(2, false), "0.38");
    assert_eq!(num(0.25).to_fixed(1, false), "0.2");
    assert_eq!(num(0.75).to_fixed(1, false), "0.8");
    assert_eq!(num(99.5).to_fixed(0, false), "100");
    assert_eq!(num(98.5).to_fixed(0, false), "98");
    for x in [0.5, 1.5, 2.5, 3.5, 0.125, 0.375, 0.25, 0.75, 99.5, 98.5, 0.0625, 0.1875] {
        for decimals in 0..6 {
            same_text(x, decimals);
            same_text(-x, decimals);
        }
    }
}

#[test]
fn fixed_text_of_special_values() {
    assert_eq!(num(f64::NAN).to_fixed(2, false), "NaN");
    assert_eq!(num(f64::NAN).to_fixed(2, true), "NaN");
    assert_eq!(num(-f64::NAN).to_fixed(2, true), "NaN");
    assert_eq!(num(f64::INFINITY).to_fixed(2, false), "inf");
    assert_eq!(num(f64::INFINITY).to_fixed(2, true), "+inf");
    assert_eq!(num(f64::NEG_INFINITY).to_fixed(2, false), "-inf");
    same_text(f64::NAN, 3);
    same_text(f64::INFINITY, 3);
    same_text(f64::NEG_INFINITY, 3);
}

#[test]
fn fixed_text_at_the_ends_of_the_range() {
    for x in [f64::MAX, f64::MIN_POSITIVE, f64::from_bits(1), 1e308, 1e-308, 1e-320, 1e22, 1e23] {
        for decimals in [0usize, 1, 2, 17, 40, 330, 1074, 1080] {
            same_text(x, decimals);
            same_text(-x, decimals);
        }
    }
}

#[test]
fn fixed_text_of_any_encodings() {
    let mut sequence = Sequence(0x2545_F491_4F6C_DD1D);
    for _ in 0..300 {
        let x = f64::from_bits(sequence.next());
        let decimals = (sequence.next() % 25) as usize;
        same_text(x, decimals);
    }
}

#[test]
fn fixed_text_of_everyday_values() {
    let mut sequence = Sequence(0xDEAD_BEEF_CAFE_F00D);
    for _ in 0..4000 {
        let exponent = 0x3FF - 40 + sequence.next() % 80;
        let x = f64::from_bits((exponent << 52) | (sequence.next() >> 12));
        let decimals = (sequence.next() % 12) as usize;
        same_text(x, decimals);
        same_text(-x, decimals);
    }
}

#[test]
fn fixed_text_of_short_decimals() {
    // Numbers with few decimal digits lie close to rounding boundaries.
    for thousandths in 0..20000u32 {
        let x = thousandths as f64 / 1000.0;
        same_text(x, 0);
        same_text(x, 1);
        same_text(x, 2);
        same_text(x, 3);
    }
}

#[test]
fn digits_lowest_first() {
    assert_eq!(digits_of(0), Vec::<u8>::new());
    assert_eq!(digits_of(7), vec![7]);
    assert_eq!(digits_of(1203), vec![3, 0, 2, 1]);
    assert_eq!(digits_of(u64::MAX).len(), 20);
}

#[test]
fn multiply_and_add_on_digits() {
    assert_eq!(mul_add_small(&vec![9, 9], 1, 1), vec![0, 0, 1]);
    assert_eq!(mul_add_small(&vec![5, 2, 1], 2, 0), vec![0, 5, 2]);
    assert_eq!(mul_add_small(&vec![5, 2, 1], 5, 0), vec![5, 2, 6]);
    assert_eq!(mul_add_small(&vec![9, 9, 9], 9, 9), vec![0, 0, 0, 9]);
    assert_eq!(mul_add_small(&vec![], 9, 0), Vec::<u8>::new());
    assert_eq!(mul_add_small(&vec![], 9, 3), vec![3]);
}

#[test]
fn rounding_on_digits() {
    // 12345 / 100 = 123.45
    assert_eq!(round_drop(&vec![5, 4, 3, 2, 1], 2), vec![3, 2, 1]);
    // 12350 / 100 = 123.5, odd: up
    assert_eq!(round_drop(&vec![0, 5, 3, 2, 1], 2), vec![4, 2, 1]);
    // 12250 / 100 = 122.5, even: stays
    assert_eq!(round_drop(&vec![0, 5, 2, 2, 1], 2), vec![2, 2, 1]);
    // 12251 / 100: above the half
    assert_eq!(round_drop(&vec![1, 5, 2, 2, 1], 2), vec![3, 2, 1]);
    // 999 / 10 = 99.9
    assert_eq!(round_drop(&vec![9, 9, 9], 1), vec![0, 0, 1]);
    // 5 / 10 = 0.5: to the even zero
    assert_eq!(round_drop(&vec![5], 1), Vec::<u8>::new());
    // 6 / 10
    assert_eq!(round_drop(&vec![6], 1), vec![1]);
    // 49 / 1000
    assert_eq!(round_drop(&vec![9, 4], 3), Vec::<u8>::new());
}

#[test]
fn normalized_significands() {
    assert_eq!(normalize(1), (1u64 << 52, 52));
    assert_eq!(normalize(3), (3u64 << 51, 51));
    assert_eq!(normalize(1u64 << 52), (1u64 << 52, 0));
    assert_eq!(normalize((1u64 << 53) - 1), ((1u64 << 53) - 1, 0));
    assert_eq!(power_of_two(0), 1);
    assert_eq!(power_of_two(10), 1024);
    assert_eq!(power_of_two(64), 1u128 << 64);
}

#[test]
fn magnitudes_divide() {
    assert_eq!(
        divide_magnitudes(1.0f64.to_bits(), 3.0f64.to_bits()),
        (1.0f64 / 3.0).to_bits()
    );
    assert_eq!(
        divide_magnitudes(f64::MAX.to_bits(), 0.5f64.to_bits()),
        f64::INFINITY.to_bits()
    );
    assert_eq!(divide_magnitudes(1, 4.0f64.to_bits()), 0);
    assert_eq!(divide_magnitudes(1, 2.0f64.to_bits()), 0);
    assert_eq!(divide_magnitudes(3, 2.0f64.to_bits()), 2);
}

#[test]
fn magnitudes_split_into_significand_and_exponent() {
    assert_eq!(split_magnitude(0), (0, 0));
    assert_eq!(split_magnitude(1), (1, 0));
    assert_eq!(split_magnitude(1.0f64.to_bits()), (1u64 << 52, 1022));
    assert_eq!(split_magnitude(f64::INFINITY.to_bits()), (1u64 << 52, 2046));
    let mut sequence = Sequence(0x1357_9BDF_0246_8ACE);
    for _ in 0..2000 {
        let x = f64::from_bits(sequence.next()).abs();
        if x.is_finite() {
            let (significand, exponent) = split_magnitude(x.to_bits());
            let mut value = significand as f64;
            let mut left = exponent as i32 - 1074;
            while left > 0 {
                value *= 2.0;
                left -= 1;
            }
            while left < 0 {
                value /= 2.0;
                left += 1;
            }
            assert_eq!(value, x);
        }
    }
}
