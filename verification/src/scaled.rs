//! A number under its scale, and the text that shows it.

use vstd::prelude::*;
use vstd::string::*;
use crate::binary64::Binary64;
use crate::options::{Options, OptionsView};
use crate::scale::{view_of, Scale, ScaleView};

verus! {

/// A number divided by the factor of its scale, with the scale and the
/// options to write it with.
#[derive(Clone, Debug)]
pub struct ScaledValue<'a> {
    value: Binary64,
    scale: Option<&'a Scale>,
    options: &'a Options,
}

/// What a scaled value holds.
pub struct ScaledValueView {
    pub value: Binary64,
    pub scale: Option<ScaleView>,
    pub options: OptionsView,
}

impl<'a> View for ScaledValue<'a> {
    type V = ScaledValueView;

    closed spec fn view(&self) -> ScaledValueView {
        ScaledValueView { value: self.value, scale: view_of(self.scale), options: self.options@ }
    }
}

impl ScaledValueView {
    /// What follows the number: nothing where there is neither a scale nor
    /// a unit; else the separator, the prefix of the scale if there is
    /// one, and the unit if there is one.
    pub open spec fn suffix(self) -> Seq<char> {
        let prefix = match self.scale {
            Some(scale) => scale.prefix,
            None => Seq::empty(),
        };
        let unit = match self.options.unit {
            Some(unit) => unit,
            None => Seq::empty(),
        };
        if self.scale is Some || self.options.unit is Some {
            self.options.separator + prefix + unit
        } else {
            Seq::empty()
        }
    }

    /// The text of the scaled value: the number in fixed-point notation,
    /// then its suffix.
    pub open spec fn text(self) -> Seq<char> {
        self.value.fixed_text(self.options.decimals, self.options.force_sign) + self.suffix()
    }
}

impl<'a> ScaledValue<'a> {
    pub(crate) fn new(value: Binary64, scale: Option<&'a Scale>, options: &'a Options) -> (r: Self)
        ensures
            r@ == (ScaledValueView { value, scale: view_of(scale), options: options@ }),
    {
        ScaledValue { value, scale, options }
    }

    /// The number after division by the factor of its scale.
    pub fn value(&self) -> (r: Binary64)
        ensures
            r == self@.value,
    {
        self.value
    }

    /// The scale that the number was put under, if any.
    pub fn scale(&self) -> (r: Option<&'a Scale>)
        ensures
            view_of(r) == self@.scale,
    {
        self.scale
    }

    /// Writes the scaled value out.
    pub fn to_string(&self) -> (out: String)
        ensures
            out@ == self@.text(),
    {
        let mut out: String = self.value.to_fixed(
            self.options.decimals(),
            self.options.force_sign(),
        );
        let ghost number = out@;
        let unit: Option<&str> = self.options.unit();
        if self.scale.is_some() || unit.is_some() {
            out.append(self.options.separator());
        }
        match self.scale {
            Some(scale) => {
                out.append(scale.prefix());
            },
            None => {},
        }
        match unit {
            Some(unit) => {
                out.append(unit);
            },
            None => {},
        }
        proof {
            assert(out@ =~= number + self@.suffix());
        }
        out
    }
}

} // verus!
