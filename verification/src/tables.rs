//! The two tables that ship with the library: the decimal prefixes of the
//! SI, and the binary prefixes.

use vstd::prelude::*;
use crate::binary64::Binary64;
use crate::scale::{views_of, Scale, ScaleView, Scales, ScalesView};

verus! {

/// Encoding of `1e-3`.
pub const MILLI: u64 = 0x3F50_624D_D2F1_A9FC;

/// Encoding of `1e-6`.
pub const MICRO: u64 = 0x3EB0_C6F7_A0B5_ED8D;

/// Encoding of `1e-9`.
pub const NANO: u64 = 0x3E11_2E0B_E826_D695;

/// Encoding of `1e-12`.
pub const PICO: u64 = 0x3D71_9799_812D_EA11;

/// Encoding of `1e-15`.
pub const FEMTO: u64 = 0x3CD2_03AF_9EE7_5616;

/// Encoding of `1e-18`.
pub const ATTO: u64 = 0x3C32_725D_D1D2_43AC;

/// Encoding of `1e-21`.
pub const ZEPTO: u64 = 0x3B92_E3B4_0A0E_9B4F;

/// Encoding of `1e-24`.
pub const YOCTO: u64 = 0x3AF3_57C2_99A8_8EA7;

/// Encoding of `1e-27`.
pub const RONTO: u64 = 0x3A53_CE9A_36F2_3C10;

/// Encoding of `1e-30`.
pub const QUECTO: u64 = 0x39B4_484B_FEEB_C2A0;

/// Encoding of `1e3`.
pub const KILO: u64 = 0x408F_4000_0000_0000;

/// Encoding of `1e6`.
pub const MEGA: u64 = 0x412E_8480_0000_0000;

/// Encoding of `1e9`.
pub const GIGA: u64 = 0x41CD_CD65_0000_0000;

/// Encoding of `1e12`.
pub const TERA: u64 = 0x426D_1A94_A200_0000;

/// Encoding of `1e15`.
pub const PETA: u64 = 0x430C_6BF5_2634_0000;

/// Encoding of `1e18`.
pub const EXA: u64 = 0x43AB_C16D_674E_C800;

/// Encoding of `1e21`.
pub const ZETTA: u64 = 0x444B_1AE4_D6E2_EF50;

/// Encoding of `1e24`.
pub const YOTTA: u64 = 0x44EA_7843_79D9_9DB4;

/// Encoding of `1e27`.
pub const RONNA: u64 = 0x4589_D971_E4FE_8402;

/// Encoding of `1e30`.
pub const QUETTA: u64 = 0x4629_3E59_39A0_8CEA;

/// Encoding of `2^10`.
pub const KIBI: u64 = 0x4090_0000_0000_0000;

/// Encoding of `2^20`.
pub const MEBI: u64 = 0x4130_0000_0000_0000;

/// Encoding of `2^30`.
pub const GIBI: u64 = 0x41D0_0000_0000_0000;

/// Encoding of `2^40`.
pub const TEBI: u64 = 0x4270_0000_0000_0000;

/// Encoding of `2^50`.
pub const PEBI: u64 = 0x4310_0000_0000_0000;

/// Encoding of `2^60`.
pub const EXBI: u64 = 0x43B0_0000_0000_0000;

/// Encoding of `2^70`.
pub const ZEBI: u64 = 0x4450_0000_0000_0000;

/// Encoding of `2^80`.
pub const YOBI: u64 = 0x44F0_0000_0000_0000;

/// Encoding of `2^90`.
pub const ROBI: u64 = 0x4590_0000_0000_0000;

/// Encoding of `2^100`.
pub const QUEBI: u64 = 0x4630_0000_0000_0000;

/// The scale with the factor encoded by `bits` and the given prefix.
pub open spec fn entry(bits: u64, prefix: Seq<char>) -> ScaleView {
    ScaleView { factor: Binary64 { bits }, prefix }
}

impl ScalesView {
    /// The decimal prefixes: milli down to quecto below one, kilo up to
    /// quetta above.
    pub open spec fn si() -> ScalesView {
        ScalesView {
            negatives: seq![
                entry(MILLI, "m"@),
                entry(MICRO, "μ"@),
                entry(NANO, "n"@),
                entry(PICO, "p"@),
                entry(FEMTO, "f"@),
                entry(ATTO, "a"@),
                entry(ZEPTO, "z"@),
                entry(YOCTO, "y"@),
                entry(RONTO, "r"@),
                entry(QUECTO, "q"@),
            ],
            positives: seq![
                entry(KILO, "k"@),
                entry(MEGA, "M"@),
                entry(GIGA, "G"@),
                entry(TERA, "T"@),
                entry(PETA, "P"@),
                entry(EXA, "E"@),
                entry(ZETTA, "Z"@),
                entry(YOTTA, "Y"@),
                entry(RONNA, "R"@),
                entry(QUETTA, "Q"@),
            ],
        }
    }

    /// The binary prefixes: kibi up to quebi, and none below one.
    pub open spec fn binary() -> ScalesView {
        ScalesView {
            negatives: Seq::empty(),
            positives: seq![
                entry(KIBI, "ki"@),
                entry(MEBI, "Mi"@),
                entry(GIBI, "Gi"@),
                entry(TEBI, "Ti"@),
                entry(PEBI, "Pi"@),
                entry(EXBI, "Ei"@),
                entry(ZEBI, "Zi"@),
                entry(YOBI, "Yi"@),
                entry(ROBI, "Ri"@),
                entry(QUEBI, "Qi"@),
            ],
        }
    }
}

/// The table of the decimal prefixes.
pub fn si_scale() -> (r: Scales)
    ensures
        r@ == ScalesView::si(),
{
    let mut negatives: Vec<Scale> = Vec::new();
    negatives.push(Scale::new(Binary64::from_bits(MILLI), "m"));
    negatives.push(Scale::new(Binary64::from_bits(MICRO), "μ"));
    negatives.push(Scale::new(Binary64::from_bits(NANO), "n"));
    negatives.push(Scale::new(Binary64::from_bits(PICO), "p"));
    negatives.push(Scale::new(Binary64::from_bits(FEMTO), "f"));
    negatives.push(Scale::new(Binary64::from_bits(ATTO), "a"));
    negatives.push(Scale::new(Binary64::from_bits(ZEPTO), "z"));
    negatives.push(Scale::new(Binary64::from_bits(YOCTO), "y"));
    negatives.push(Scale::new(Binary64::from_bits(RONTO), "r"));
    negatives.push(Scale::new(Binary64::from_bits(QUECTO), "q"));
    let mut positives: Vec<Scale> = Vec::new();
    positives.push(Scale::new(Binary64::from_bits(KILO), "k"));
    positives.push(Scale::new(Binary64::from_bits(MEGA), "M"));
    positives.push(Scale::new(Binary64::from_bits(GIGA), "G"));
    positives.push(Scale::new(Binary64::from_bits(TERA), "T"));
    positives.push(Scale::new(Binary64::from_bits(PETA), "P"));
    positives.push(Scale::new(Binary64::from_bits(EXA), "E"));
    positives.push(Scale::new(Binary64::from_bits(ZETTA), "Z"));
    positives.push(Scale::new(Binary64::from_bits(YOTTA), "Y"));
    positives.push(Scale::new(Binary64::from_bits(RONNA), "R"));
    positives.push(Scale::new(Binary64::from_bits(QUETTA), "Q"));
    proof {
        assert(views_of(negatives@) =~= ScalesView::si().negatives);
        assert(views_of(positives@) =~= ScalesView::si().positives);
    }
    Scales::new(negatives, positives)
}

/// The table of the binary prefixes.
pub fn binary_scale() -> (r: Scales)
    ensures
        r@ == ScalesView::binary(),
{
    let negatives: Vec<Scale> = Vec::new();
    let mut positives: Vec<Scale> = Vec::new();
    positives.push(Scale::new(Binary64::from_bits(KIBI), "ki"));
    positives.push(Scale::new(Binary64::from_bits(MEBI), "Mi"));
    positives.push(Scale::new(Binary64::from_bits(GIBI), "Gi"));
    positives.push(Scale::new(Binary64::from_bits(TEBI), "Ti"));
    positives.push(Scale::new(Binary64::from_bits(PEBI), "Pi"));
    positives.push(Scale::new(Binary64::from_bits(EXBI), "Ei"));
    positives.push(Scale::new(Binary64::from_bits(ZEBI), "Zi"));
    positives.push(Scale::new(Binary64::from_bits(YOBI), "Yi"));
    positives.push(Scale::new(Binary64::from_bits(ROBI), "Ri"));
    positives.push(Scale::new(Binary64::from_bits(QUEBI), "Qi"));
    proof {
        assert(views_of(negatives@) =~= ScalesView::binary().negatives);
        assert(views_of(positives@) =~= ScalesView::binary().positives);
    }
    Scales::new(negatives, positives)
}

} // verus!
