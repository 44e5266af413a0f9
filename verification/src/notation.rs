//! Fixed-point notation of double-precision numbers.

use vstd::prelude::*;
use vstd::string::*;
use crate::binary64::{split_magnitude, Binary64, INFINITY_BITS, SIGN_BIT};
use crate::decimal::{fixed_point_digits, fixed_point_text};

verus! {

impl Binary64 {
    /// The sign that stands before the digits: `-` for a negative number,
    /// `+` for any other where a sign is asked for.
    pub open spec fn sign_text(self, force_sign: bool) -> Seq<char> {
        if self.is_negative() {
            seq!['-']
        } else if force_sign {
            seq!['+']
        } else {
            Seq::empty()
        }
    }

    /// The number in fixed-point notation with `decimals` digits behind the
    /// point, rounded to the nearest such number, ties to the even digit.
    /// A NaN reads `NaN`, without a sign; an infinity reads `inf`.
    pub open spec fn fixed_text(self, decimals: nat, force_sign: bool) -> Seq<char> {
        if self.is_nan() {
            seq!['N', 'a', 'N']
        } else if self.is_infinite() {
            self.sign_text(force_sign) + seq!['i', 'n', 'f']
        } else {
            self.sign_text(force_sign) + fixed_point_digits(self.units(), decimals)
        }
    }

    /// Writes the number in fixed-point notation.
    pub fn to_fixed(self, decimals: usize, force_sign: bool) -> (out: String)
        ensures
            out@ == self.fixed_text(decimals as nat, force_sign),
    {
        let mag: u64 = self.bits % SIGN_BIT;
        if mag > INFINITY_BITS {
            proof {
                reveal_strlit("NaN");
                assert("NaN"@ =~= seq!['N', 'a', 'N']);
            }
            return String::from_str("NaN");
        }
        let mut out: String = String::new();
        if self.bits >= SIGN_BIT {
            proof {
                reveal_strlit("-");
            }
            out.append("-");
        } else if force_sign {
            proof {
                reveal_strlit("+");
            }
            out.append("+");
        }
        assert(out@ =~= self.sign_text(force_sign));
        if mag == INFINITY_BITS {
            proof {
                reveal_strlit("inf");
                assert("inf"@ =~= seq!['i', 'n', 'f']);
            }
            out.append("inf");
        } else {
            let (mantissa, exponent) = split_magnitude(mag);
            let digits: String = fixed_point_text(mantissa, exponent, decimals);
            out.append(digits.as_str());
        }
        out
    }
}

} // verus!
