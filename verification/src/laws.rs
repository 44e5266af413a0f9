//! What holds of every number, table and set of options: the laws that
//! callers of the library may rely on.

use vstd::prelude::*;
use vstd::arithmetic::div_mod::*;
use vstd::arithmetic::power2::*;
use crate::binary64::{lemma_units_order, Binary64, INFINITY_BITS};
use crate::decimal::{pow10, round_half_even};
use crate::division::{is_nearest, is_quotient, lemma_quotient_exists, midpoint2};
use crate::formatter::FormatterView;
use crate::options::OptionsView;
use crate::scale::{ascending, descending, first_above, first_at_most, ScaleView, ScalesView};
use crate::scaled::ScaledValueView;
use crate::tables::{
    entry, ATTO, EXA, EXBI, FEMTO, GIBI, GIGA, KIBI, KILO, MEBI, MEGA, MICRO, MILLI, NANO, PEBI, PETA,
    PICO, QUEBI, QUECTO, QUETTA, ROBI, RONNA, RONTO, TEBI, TERA, YOBI, YOCTO, YOTTA, ZEBI, ZEPTO,
    ZETTA,
};

verus! {

/// Under the SI table a number whose magnitude lies from 1 up to, but not
/// at, 1000 gets no scale and keeps its value; where no unit is set, its
/// text is the number in fixed-point notation and nothing more.
pub proof fn law_si_plain(options: OptionsView, x: Binary64)
    requires
        x.spec_abs().spec_ge(Binary64::one()),
        x.spec_abs().spec_lt(Binary64 { bits: KILO }),
        options.unit is None,
    ensures
        ScalesView::si().scaled(options, x).scale is None,
        ScalesView::si().scaled(options, x).value == x,
        ScalesView::si().scaled(options, x).text() == x.fixed_text(
            options.decimals,
            options.force_sign,
        ),
{
    let si = ScalesView::si();
    let absolute = x.spec_abs();
    assert(si.positives[0].factor == Binary64 { bits: KILO });
    assert(first_above(si.positives, absolute, 0) == 0);
    assert(si.scale_of(x) is None);
    let scaled = si.scaled(options, x);
    assert(scaled.suffix() =~= Seq::<char>::empty());
    assert(scaled.text() =~= x.fixed_text(options.decimals, options.force_sign));
}

/// Under the SI table a number whose magnitude lies from 1000 up to, but
/// not at, 1 000 000 gets the prefix `k`, and its scaled value is the
/// quotient of the number by 1000.
pub proof fn law_si_kilo(options: OptionsView, x: Binary64)
    requires
        x.spec_abs().spec_ge(Binary64 { bits: KILO }),
        x.spec_abs().spec_lt(Binary64 { bits: MEGA }),
    ensures
        ScalesView::si().scaled(options, x).scale == Some(entry(KILO, "k"@)),
        is_quotient(x, Binary64 { bits: KILO }, ScalesView::si().scaled(options, x).value),
{
    let si = ScalesView::si();
    let absolute = x.spec_abs();
    lemma_units_order(Binary64::one().magnitude(), (Binary64 { bits: KILO }).magnitude());
    assert(si.positives[0].factor == Binary64 { bits: KILO });
    assert(si.positives[1].factor == Binary64 { bits: MEGA });
    assert(first_above(si.positives, absolute, 1) == 1);
    assert(first_above(si.positives, absolute, 0) == 1);
    assert(si.scale_of(x) == Some(si.positives[0]));
    lemma_quotient_exists(x, Binary64 { bits: KILO });
}

/// The factors of the SI scales below one lie from `1e-30` up to `1e-3`.
proof fn lemma_si_negative_factors(i: int)
    requires
        0 <= i < 10,
    ensures
        ScalesView::si().negatives.len() == 10,
        QUECTO <= ScalesView::si().negatives[i].factor@ <= MILLI,
{
    let negatives = ScalesView::si().negatives;
    if i == 0 {
        assert(negatives[0].factor@ == MILLI);
    } else if i == 1 {
        assert(negatives[1].factor@ == MICRO);
    } else if i == 2 {
        assert(negatives[2].factor@ == NANO);
    } else if i == 3 {
        assert(negatives[3].factor@ == PICO);
    } else if i == 4 {
        assert(negatives[4].factor@ == FEMTO);
    } else if i == 5 {
        assert(negatives[5].factor@ == ATTO);
    } else if i == 6 {
        assert(negatives[6].factor@ == ZEPTO);
    } else if i == 7 {
        assert(negatives[7].factor@ == YOCTO);
    } else if i == 8 {
        assert(negatives[8].factor@ == RONTO);
    } else {
        assert(negatives[9].factor@ == QUECTO);
    }
}

/// Under the SI table every number whose magnitude lies below 1 gets a
/// scale, and one whose magnitude lies below `1e-30` gets the smallest,
/// with the prefix `q`.
pub proof fn law_si_small(x: Binary64)
    requires
        x.spec_abs().spec_lt(Binary64::one()),
    ensures
        ScalesView::si().scale_of(x) is Some,
        x.spec_abs().spec_lt(Binary64 { bits: QUECTO }) ==> ScalesView::si().scale_of(x) == Some(
            entry(QUECTO, "q"@),
        ),
{
    let negatives = ScalesView::si().negatives;
    let absolute = x.spec_abs();
    lemma_si_negative_factors(9);
    if absolute.spec_lt(Binary64 { bits: QUECTO }) {
        assert forall|i: int| 0 <= i < negatives.len() implies !absolute.spec_ge(
            #[trigger] negatives[i].factor,
        ) by {
            lemma_si_negative_factors(i);
            let factor = negatives[i].factor;
            lemma_units_order(QUECTO as nat, factor.magnitude());
        }
        lemma_none_at_most(negatives, absolute, 0);
        assert(negatives[9] == entry(QUECTO, "q"@));
    }
}

/// Where no scale from `from` on has a factor at most `x`, the search
/// runs to the end of the list.
pub proof fn lemma_none_at_most(scales: Seq<ScaleView>, x: Binary64, from: int)
    requires
        0 <= from <= scales.len(),
        forall|i: int| from <= i < scales.len() ==> !x.spec_ge(#[trigger] scales[i].factor),
    ensures
        first_at_most(scales, x, from) == scales.len(),
    decreases scales.len() - from,
{
    if from < scales.len() {
        lemma_none_at_most(scales, x, from + 1);
    }
}

/// The integer that rounding gives lies within half a step of the ratio.
pub proof fn law_rounding_is_near(num: nat, den: nat)
    requires
        den > 0,
    ensures
        2 * (round_half_even(num, den) * den - num) <= den,
        2 * (num - round_half_even(num, den) * den) <= den,
{
    let q = num / den;
    let r = num % den;
    lemma_fundamental_div_mod(num as int, den as int);
    assert((q + 1) * den == den * q + den) by (nonlinear_arith);
    assert(q * den == den * q) by (nonlinear_arith);
}

/// What is written comes back to what was given: the scaled value lies
/// between the midpoints to its two neighbours, measured on the exact
/// quotient of the number by the factor, and the number that the digits
/// with `decimals` places spell lies within half a unit of the last place
/// of the scaled value.
pub proof fn law_round_trip(x: Binary64, factor: Binary64, decimals: nat)
    requires
        x.is_finite(),
        factor.is_finite(),
        !x.is_zero(),
        !factor.is_zero(),
        0 < x.spec_div(factor).magnitude() < INFINITY_BITS,
    ensures
        ({
            let q = x.spec_div(factor);
            let exact = x.units() * pow2(1074);
            let written = round_half_even(q.units() * pow10(decimals), pow2(1074));
            &&& midpoint2((q.magnitude() - 1) as nat) * factor.units() <= 2 * exact
            &&& 2 * exact <= midpoint2(q.magnitude()) * factor.units()
            &&& 2 * (written * pow2(1074) - q.units() * pow10(decimals)) <= pow2(1074)
            &&& 2 * (q.units() * pow10(decimals) - written * pow2(1074)) <= pow2(1074)
        }),
{
    lemma_quotient_exists(x, factor);
    lemma_pow2_pos(1074);
    law_rounding_is_near(x.spec_div(factor).units() * pow10(decimals), pow2(1074));
}

/// Two formatters that hold the same table and the same options write the
/// same text for the same number.
pub proof fn law_same_configuration_same_text(a: FormatterView, b: FormatterView, x: Binary64)
    requires
        a.scales == b.scales,
        a.options == b.options,
    ensures
        a.text(x) == b.text(x),
{
}

/// The separator is written where there is a scale or a unit, and only
/// there: without both, the text is the number alone; else the number,
/// the separator, the prefix of the scale if any and the unit if any.
pub proof fn law_separator(value: ScaledValueView)
    ensures
        value.scale is None && value.options.unit is None ==> value.text()
            == value.value.fixed_text(value.options.decimals, value.options.force_sign),
        value.scale is Some && value.options.unit is None ==> value.text()
            == value.value.fixed_text(value.options.decimals, value.options.force_sign)
            + value.options.separator + value.scale->0.prefix,
        value.scale is None && value.options.unit is Some ==> value.text()
            == value.value.fixed_text(value.options.decimals, value.options.force_sign)
            + value.options.separator + value.options.unit->0,
        value.scale is Some && value.options.unit is Some ==> value.text()
            == value.value.fixed_text(value.options.decimals, value.options.force_sign)
            + value.options.separator + value.scale->0.prefix + value.options.unit->0,
{
    let number = value.value.fixed_text(value.options.decimals, value.options.force_sign);
    let separator = value.options.separator;
    let none = Seq::<char>::empty();
    assert(number + none =~= number);
    assert(separator + none =~= separator);
    if value.scale is Some {
        let prefix = value.scale->0.prefix;
        assert(number + (separator + prefix + none) =~= number + separator + prefix);
        if value.options.unit is Some {
            let unit = value.options.unit->0;
            assert(number + (separator + prefix + unit) =~= number + separator + prefix + unit);
        }
    } else if value.options.unit is Some {
        let unit = value.options.unit->0;
        assert(number + (separator + none + unit) =~= number + separator + unit);
    }
}


/// In an ascending list every factor is below all that come after it.
pub proof fn lemma_ascending_pairs(scales: Seq<ScaleView>, i: int, j: int)
    requires
        ascending(scales),
        0 <= i < j < scales.len(),
    ensures
        scales[i].factor.spec_lt(scales[j].factor),
    decreases j - i,
{
    if i + 1 < j {
        lemma_ascending_pairs(scales, i, j - 1);
        assert(scales[j - 1].factor.spec_lt(scales[j - 1 + 1].factor));
    }
}

/// In a descending list every factor is above all that come after it.
pub proof fn lemma_descending_pairs(scales: Seq<ScaleView>, i: int, j: int)
    requires
        descending(scales),
        0 <= i < j < scales.len(),
    ensures
        scales[j].factor.spec_lt(scales[i].factor),
    decreases j - i,
{
    if i + 1 < j {
        lemma_descending_pairs(scales, i, j - 1);
        assert(scales[j - 1 + 1].factor.spec_lt(scales[j - 1].factor));
    }
}

/// What the search for the first factor above `x` finds: a place before
/// which no factor is above `x`, and at which, unless it is the end of the
/// list, the factor is.
pub proof fn lemma_first_above(scales: Seq<ScaleView>, x: Binary64, from: int)
    requires
        0 <= from <= scales.len(),
    ensures
        from <= first_above(scales, x, from) <= scales.len(),
        forall|j: int|
            from <= j < first_above(scales, x, from) ==> !x.spec_lt(#[trigger] scales[j].factor),
        first_above(scales, x, from) < scales.len() ==> x.spec_lt(
            scales[first_above(scales, x, from)].factor,
        ),
    decreases scales.len() - from,
{
    if from < scales.len() && !x.spec_lt(scales[from].factor) {
        lemma_first_above(scales, x, from + 1);
    }
}

/// What the search for the first factor at most `x` finds: a place before
/// which every factor is not at most `x`, and at which, unless it is the
/// end of the list, the factor is.
pub proof fn lemma_first_at_most(scales: Seq<ScaleView>, x: Binary64, from: int)
    requires
        0 <= from <= scales.len(),
    ensures
        from <= first_at_most(scales, x, from) <= scales.len(),
        forall|j: int|
            from <= j < first_at_most(scales, x, from) ==> !x.spec_ge(#[trigger] scales[j].factor),
        first_at_most(scales, x, from) < scales.len() ==> x.spec_ge(
            scales[first_at_most(scales, x, from)].factor,
        ),
    decreases scales.len() - from,
{
    if from < scales.len() && !x.spec_ge(scales[from].factor) {
        lemma_first_at_most(scales, x, from + 1);
    }
}

/// In a well-formed table a number whose magnitude is 1 or more gets the
/// largest scale that is not above the magnitude: the factor of the scale
/// is at most the magnitude, and every scale with a larger factor lies
/// above the magnitude. It gets none only where every scale from one on
/// lies above the magnitude.
pub proof fn law_largest_scale_not_above(scales: ScalesView, x: Binary64)
    requires
        scales.well_formed(),
        x.spec_abs().spec_ge(Binary64::one()),
    ensures
        match scales.scale_of(x) {
            Some(scale) => {
                &&& x.spec_abs().spec_ge(scale.factor)
                &&& forall|j: int|
                    0 <= j < scales.positives.len() && scale.factor.spec_lt(
                        (#[trigger] scales.positives[j]).factor,
                    ) ==> x.spec_abs().spec_lt(scales.positives[j].factor)
            },
            None => forall|j: int|
                0 <= j < scales.positives.len() ==> x.spec_abs().spec_lt(
                    (#[trigger] scales.positives[j]).factor,
                ),
        },
{
    let absolute = x.spec_abs();
    let list = scales.positives;
    let i = first_above(list, absolute, 0);
    lemma_first_above(list, absolute, 0);
    assert forall|j: int| i <= j < list.len() implies absolute.spec_lt(
        (#[trigger] list[j]).factor,
    ) by {
        if i < j {
            lemma_ascending_pairs(list, i, j);
        }
    }
    if i > 0 {
        let chosen = list[i - 1];
        assert(!absolute.spec_lt(chosen.factor));
        assert forall|j: int|
            0 <= j < list.len() && chosen.factor.spec_lt(
                (#[trigger] list[j]).factor,
            ) implies absolute.spec_lt(list[j].factor) by {
            if j < i - 1 {
                lemma_ascending_pairs(list, j, i - 1);
            }
        }
    }
}

/// In a well-formed table with scales below one, a number whose magnitude
/// is below 1 gets the largest scale that is not above the magnitude, and
/// the smallest scale of all where every scale lies above the magnitude.
pub proof fn law_scale_below_one(scales: ScalesView, x: Binary64)
    requires
        scales.well_formed(),
        scales.negatives.len() > 0,
        x.spec_abs().spec_lt(Binary64::one()),
    ensures
        scales.scale_of(x) is Some,
        ({
            let scale = scales.scale_of(x)->0;
            if x.spec_abs().spec_ge(scale.factor) {
                forall|j: int|
                    0 <= j < scales.negatives.len() && scale.factor.spec_lt(
                        (#[trigger] scales.negatives[j]).factor,
                    ) ==> x.spec_abs().spec_lt(scales.negatives[j].factor)
            } else {
                &&& scale == scales.negatives.last()
                &&& forall|j: int|
                    0 <= j < scales.negatives.len() ==> x.spec_abs().spec_lt(
                        (#[trigger] scales.negatives[j]).factor,
                    )
            }
        }),
{
    let absolute = x.spec_abs();
    let list = scales.negatives;
    let i = first_at_most(list, absolute, 0);
    lemma_first_at_most(list, absolute, 0);
    if i < list.len() {
        let chosen = list[i];
        assert forall|j: int|
            0 <= j < list.len() && chosen.factor.spec_lt(
                (#[trigger] list[j]).factor,
            ) implies absolute.spec_lt(list[j].factor) by {
            if i < j {
                lemma_descending_pairs(list, i, j);
            }
        }
    } else {
        assert forall|j: int| 0 <= j < list.len() implies absolute.spec_lt(
            (#[trigger] list[j]).factor,
        ) by {
            assert(!absolute.spec_ge(list[j].factor));
        }
        assert(!absolute.spec_ge(list.last().factor));
    }
}

/// The factors of the SI scales from one on, in their order.
proof fn lemma_si_positive_factors(i: int)
    requires
        0 <= i < 10,
    ensures
        ScalesView::si().positives.len() == 10,
        KILO <= ScalesView::si().positives[i].factor@ <= QUETTA,
        i < 9 ==> ScalesView::si().positives[i].factor@ < ScalesView::si().positives[i + 1].factor@,
{
    let positives = ScalesView::si().positives;
    assert(positives[0].factor@ == KILO);
    assert(positives[1].factor@ == MEGA);
    assert(positives[2].factor@ == GIGA);
    assert(positives[3].factor@ == TERA);
    assert(positives[4].factor@ == PETA);
    assert(positives[5].factor@ == EXA);
    assert(positives[6].factor@ == ZETTA);
    assert(positives[7].factor@ == YOTTA);
    assert(positives[8].factor@ == RONNA);
    assert(positives[9].factor@ == QUETTA);
}

/// The factors of the SI scales below one, in their order.
proof fn lemma_si_negative_order(i: int)
    requires
        0 <= i < 9,
    ensures
        ScalesView::si().negatives[i + 1].factor@ < ScalesView::si().negatives[i].factor@,
{
    let negatives = ScalesView::si().negatives;
    assert(negatives[0].factor@ == MILLI);
    assert(negatives[1].factor@ == MICRO);
    assert(negatives[2].factor@ == NANO);
    assert(negatives[3].factor@ == PICO);
    assert(negatives[4].factor@ == FEMTO);
    assert(negatives[5].factor@ == ATTO);
    assert(negatives[6].factor@ == ZEPTO);
    assert(negatives[7].factor@ == YOCTO);
    assert(negatives[8].factor@ == RONTO);
    assert(negatives[9].factor@ == QUECTO);
}

/// The factors of the binary scales, in their order.
proof fn lemma_binary_factors(i: int)
    requires
        0 <= i < 10,
    ensures
        ScalesView::binary().positives.len() == 10,
        KIBI <= ScalesView::binary().positives[i].factor@ <= QUEBI,
        i < 9 ==> ScalesView::binary().positives[i].factor@ < ScalesView::binary().positives[i
            + 1].factor@,
{
    let positives = ScalesView::binary().positives;
    assert(positives[0].factor@ == KIBI);
    assert(positives[1].factor@ == MEBI);
    assert(positives[2].factor@ == GIBI);
    assert(positives[3].factor@ == TEBI);
    assert(positives[4].factor@ == PEBI);
    assert(positives[5].factor@ == EXBI);
    assert(positives[6].factor@ == ZEBI);
    assert(positives[7].factor@ == YOBI);
    assert(positives[8].factor@ == ROBI);
    assert(positives[9].factor@ == QUEBI);
}

/// Numbers that are not negative are ordered as their encodings.
proof fn lemma_encoding_order(a: Binary64, b: Binary64)
    requires
        a@ < b@ <= INFINITY_BITS,
    ensures
        a.spec_lt(b),
        b.spec_ge(a),
        a.is_finite(),
        !a.is_negative(),
        !b.is_negative(),
        !b.is_zero(),
{
    lemma_units_order(a.magnitude(), b.magnitude());
}

proof fn lemma_si_negatives_well_formed()
    ensures
        descending(ScalesView::si().negatives),
        forall|i: int|
            0 <= i < ScalesView::si().negatives.len() ==> {
                let factor = (#[trigger] ScalesView::si().negatives[i]).factor;
                !factor.is_negative() && !factor.is_zero() && factor.spec_lt(Binary64::one())
            },
{
    let list = ScalesView::si().negatives;
    lemma_si_negative_factors(0);
    assert forall|i: int| 0 <= i < list.len() implies {
        let factor = (#[trigger] list[i]).factor;
        !factor.is_negative() && !factor.is_zero() && factor.spec_lt(Binary64::one())
    } by {
        lemma_si_negative_factors(i);
        lemma_encoding_order(list[i].factor, Binary64::one());
        lemma_encoding_order(Binary64 { bits: 0 }, list[i].factor);
    }
    assert forall|i: int| 0 <= i && i + 1 < list.len() implies list[i + 1].factor.spec_lt(
        (#[trigger] list[i]).factor,
    ) by {
        lemma_si_negative_factors(i);
        lemma_si_negative_order(i);
        lemma_encoding_order(list[i + 1].factor, list[i].factor);
    }
}

proof fn lemma_si_positives_well_formed()
    ensures
        ascending(ScalesView::si().positives),
        forall|i: int|
            0 <= i < ScalesView::si().positives.len() ==> {
                let factor = (#[trigger] ScalesView::si().positives[i]).factor;
                factor.is_finite() && factor.spec_ge(Binary64::one())
            },
{
    let list = ScalesView::si().positives;
    lemma_si_positive_factors(0);
    assert forall|i: int| 0 <= i < list.len() implies {
        let factor = (#[trigger] list[i]).factor;
        factor.is_finite() && factor.spec_ge(Binary64::one())
    } by {
        lemma_si_positive_factors(i);
        lemma_encoding_order(Binary64::one(), list[i].factor);
        lemma_encoding_order(list[i].factor, Binary64 { bits: INFINITY_BITS });
    }
    assert forall|i: int| 0 <= i && i + 1 < list.len() implies (#[trigger] list[i]).factor.spec_lt(
        list[i + 1].factor,
    ) by {
        lemma_si_positive_factors(i);
        lemma_si_positive_factors(i + 1);
        lemma_encoding_order(list[i].factor, list[i + 1].factor);
    }
}

proof fn lemma_binary_positives_well_formed()
    ensures
        ascending(ScalesView::binary().positives),
        forall|i: int|
            0 <= i < ScalesView::binary().positives.len() ==> {
                let factor = (#[trigger] ScalesView::binary().positives[i]).factor;
                factor.is_finite() && factor.spec_ge(Binary64::one())
            },
{
    let list = ScalesView::binary().positives;
    lemma_binary_factors(0);
    assert forall|i: int| 0 <= i < list.len() implies {
        let factor = (#[trigger] list[i]).factor;
        factor.is_finite() && factor.spec_ge(Binary64::one())
    } by {
        lemma_binary_factors(i);
        lemma_encoding_order(Binary64::one(), list[i].factor);
        lemma_encoding_order(list[i].factor, Binary64 { bits: INFINITY_BITS });
    }
    assert forall|i: int| 0 <= i && i + 1 < list.len() implies (#[trigger] list[i]).factor.spec_lt(
        list[i + 1].factor,
    ) by {
        lemma_binary_factors(i);
        lemma_binary_factors(i + 1);
        lemma_encoding_order(list[i].factor, list[i + 1].factor);
    }
}

/// The two tables that ship with the library are well formed.
pub proof fn law_tables_well_formed()
    ensures
        ScalesView::si().well_formed(),
        ScalesView::binary().well_formed(),
{
    lemma_si_negatives_well_formed();
    lemma_si_positives_well_formed();
    lemma_binary_positives_well_formed();
    assert(ScalesView::binary().negatives.len() == 0);
}

} // verus!
