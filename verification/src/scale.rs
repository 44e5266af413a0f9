//! Scales, the tables that hold them, and the search for the scale that
//! fits a number.

use vstd::prelude::*;
use vstd::string::*;
use crate::binary64::{Binary64, ONE_BITS};
use crate::options::{Options, OptionsView};
use crate::scaled::{ScaledValue, ScaledValueView};

verus! {

/// One step of a ladder of units: a threshold and the prefix that stands
/// for it.
#[derive(Clone, Debug)]
pub struct Scale {
    factor: Binary64,
    prefix: String,
}

/// What a scale holds.
pub struct ScaleView {
    pub factor: Binary64,
    pub prefix: Seq<char>,
}

impl View for Scale {
    type V = ScaleView;

    closed spec fn view(&self) -> ScaleView {
        ScaleView { factor: self.factor, prefix: self.prefix@ }
    }
}

impl Scale {
    /// The scale with the given factor and prefix.
    pub fn new(factor: Binary64, prefix: &str) -> (r: Self)
        ensures
            r@ == (ScaleView { factor, prefix: prefix@ }),
    {
        Scale { factor, prefix: String::from_str(prefix) }
    }

    /// The threshold from which on this scale applies, and the number that
    /// a value is divided by under it.
    pub fn factor(&self) -> (r: Binary64)
        ensures
            r == self@.factor,
    {
        self.factor
    }

    /// The text that stands for this scale.
    pub fn prefix(&self) -> (r: &str)
        ensures
            r@ == self@.prefix,
    {
        self.prefix.as_str()
    }
}

/// What an optional reference to a scale holds.
pub open spec fn view_of(scale: Option<&Scale>) -> Option<ScaleView> {
    match scale {
        Some(scale) => Some(scale@),
        None => None,
    }
}

/// What a list of scales holds.
pub open spec fn views_of(scales: Seq<Scale>) -> Seq<ScaleView> {
    Seq::new(scales.len(), |i: int| scales[i]@)
}

/// The scales below one, nearest to one first, and the scales from one on,
/// smallest first.
#[derive(Clone, Debug)]
pub struct Scales {
    negatives: Vec<Scale>,
    positives: Vec<Scale>,
}

/// What a table of scales holds.
pub struct ScalesView {
    pub negatives: Seq<ScaleView>,
    pub positives: Seq<ScaleView>,
}

impl View for Scales {
    type V = ScalesView;

    closed spec fn view(&self) -> ScalesView {
        ScalesView { negatives: views_of(self.negatives@), positives: views_of(self.positives@) }
    }
}

/// The place, from `from` on, of the first scale whose factor is at most
/// `x`; the length of the list if there is none.
pub open spec fn first_at_most(scales: Seq<ScaleView>, x: Binary64, from: int) -> int
    decreases scales.len() - from,
{
    if from < 0 || from >= scales.len() {
        scales.len() as int
    } else if x.spec_ge(scales[from].factor) {
        from
    } else {
        first_at_most(scales, x, from + 1)
    }
}

/// The place, from `from` on, of the first scale whose factor is above
/// `x`; the length of the list if there is none.
pub open spec fn first_above(scales: Seq<ScaleView>, x: Binary64, from: int) -> int
    decreases scales.len() - from,
{
    if from < 0 || from >= scales.len() {
        scales.len() as int
    } else if x.spec_lt(scales[from].factor) {
        from
    } else {
        first_above(scales, x, from + 1)
    }
}

/// Each factor is below the next.
pub open spec fn ascending(scales: Seq<ScaleView>) -> bool {
    forall|i: int| 0 <= i && i + 1 < scales.len() ==> (#[trigger] scales[i]).factor.spec_lt(
        scales[i + 1].factor,
    )
}

/// Each factor is above the next.
pub open spec fn descending(scales: Seq<ScaleView>) -> bool {
    forall|i: int| 0 <= i && i + 1 < scales.len() ==> scales[i + 1].factor.spec_lt(
        (#[trigger] scales[i]).factor,
    )
}

impl ScalesView {
    /// The order that a table is meant to have, which nothing enforces:
    /// the scales below one have factors between zero and one, largest
    /// first; the others have finite factors from one on, smallest first.
    pub open spec fn well_formed(self) -> bool {
        &&& forall|i: int|
            0 <= i < self.negatives.len() ==> {
                let factor = (#[trigger] self.negatives[i]).factor;
                !factor.is_negative() && !factor.is_zero() && factor.spec_lt(Binary64::one())
            }
        &&& descending(self.negatives)
        &&& forall|i: int|
            0 <= i < self.positives.len() ==> {
                let factor = (#[trigger] self.positives[i]).factor;
                factor.is_finite() && factor.spec_ge(Binary64::one())
            }
        &&& ascending(self.positives)
    }

    /// The scale of a magnitude below one: the first whose factor is at
    /// most the magnitude, and the last of the list for a magnitude below
    /// them all. None only where the list is empty.
    pub open spec fn negative_scale(self, absolute: Binary64) -> Option<ScaleView> {
        if self.negatives.len() == 0 {
            None
        } else {
            let i = first_at_most(self.negatives, absolute, 0);
            if i < self.negatives.len() {
                Some(self.negatives[i])
            } else {
                Some(self.negatives.last())
            }
        }
    }

    /// The scale of a magnitude from one on: the one before the first
    /// whose factor is above the magnitude. None where the first factor
    /// already is above it.
    pub open spec fn positive_scale(self, absolute: Binary64) -> Option<ScaleView> {
        let i = first_above(self.positives, absolute, 0);
        if i == 0 {
            None
        } else {
            Some(self.positives[i - 1])
        }
    }

    /// The scale that applies to `value`.
    pub open spec fn scale_of(self, value: Binary64) -> Option<ScaleView> {
        let absolute = value.spec_abs();
        if absolute.spec_lt(Binary64::one()) {
            self.negative_scale(absolute)
        } else {
            self.positive_scale(absolute)
        }
    }

    /// `value` under its scale: divided by the factor of the scale that
    /// applies to it, and unchanged where none does.
    pub open spec fn scaled(self, options: OptionsView, value: Binary64) -> ScaledValueView {
        match self.scale_of(value) {
            Some(scale) => ScaledValueView {
                value: value.spec_div(scale.factor),
                scale: Some(scale),
                options,
            },
            None => ScaledValueView { value, scale: None, options },
        }
    }
}

impl Scales {
    /// A table of the given scales. Nothing is sorted or checked: the
    /// search takes the lists as they are.
    pub fn new(negatives: Vec<Scale>, positives: Vec<Scale>) -> (r: Self)
        ensures
            r@ == (ScalesView {
                negatives: views_of(negatives@),
                positives: views_of(positives@),
            }),
    {
        Scales { negatives, positives }
    }

    fn get_negative_scale(&self, absolute: Binary64) -> (r: Option<&Scale>)
        ensures
            view_of(r) == self@.negative_scale(absolute),
    {
        let n: usize = self.negatives.len();
        let mut i: usize = 0;
        while i < n
            invariant
                i <= n == self.negatives.len(),
                first_at_most(self@.negatives, absolute, 0) == first_at_most(
                    self@.negatives,
                    absolute,
                    i as int,
                ),
            decreases n - i,
        {
            if absolute.ge(self.negatives[i].factor) {
                return Some(&self.negatives[i]);
            }
            i = i + 1;
        }
        if n == 0 {
            None
        } else {
            Some(&self.negatives[n - 1])
        }
    }

    fn get_positive_scale(&self, absolute: Binary64) -> (r: Option<&Scale>)
        ensures
            view_of(r) == self@.positive_scale(absolute),
    {
        let n: usize = self.positives.len();
        let mut previous: Option<&Scale> = None;
        let mut i: usize = 0;
        while i < n
            invariant
                i <= n == self.positives.len(),
                first_above(self@.positives, absolute, 0) == first_above(
                    self@.positives,
                    absolute,
                    i as int,
                ),
                i == 0 ==> previous is None,
                i > 0 ==> view_of(previous) == Some(self@.positives[i - 1]),
            decreases n - i,
        {
            if absolute.lt(self.positives[i].factor) {
                return previous;
            }
            previous = Some(&self.positives[i]);
            i = i + 1;
        }
        previous
    }

    /// Finds the scale that applies to `value`: by its magnitude, among
    /// the scales below one where the magnitude is below one, and among
    /// the others where it is not. A NaN compares above nothing and below
    /// nothing, so it runs through the scales from one on to the last.
    pub fn get_scale(&self, value: Binary64) -> (r: Option<&Scale>)
        ensures
            view_of(r) == self@.scale_of(value),
    {
        let absolute = value.abs();
        if absolute.lt(Binary64::from_bits(ONE_BITS)) {
            self.get_negative_scale(absolute)
        } else {
            self.get_positive_scale(absolute)
        }
    }

    /// Puts `value` under the scale that applies to it.
    pub fn into_scaled<'a>(&'a self, options: &'a Options, value: Binary64) -> (r: ScaledValue<'a>)
        ensures
            r@ == self@.scaled(options@, value),
    {
        match self.get_scale(value) {
            Some(scale) => ScaledValue::new(value.div(scale.factor), Some(scale), options),
            None => ScaledValue::new(value, None, options),
        }
    }
}

} // verus!
