//! The formatter: a table of scales with the options to write under.

use vstd::prelude::*;
use crate::binary64::Binary64;
use crate::options::{Options, OptionsView};
use crate::scale::{Scales, ScalesView};
use crate::scaled::ScaledValue;
use crate::tables::{binary_scale, si_scale};

verus! {

/// Structure containing options and scales used to format numbers with the
/// right scale prefix, separators and units.
#[derive(Clone, Debug)]
pub struct Formatter {
    scales: Scales,
    options: Options,
}

/// What a formatter holds.
pub struct FormatterView {
    pub scales: ScalesView,
    pub options: OptionsView,
}

impl View for Formatter {
    type V = FormatterView;

    closed spec fn view(&self) -> FormatterView {
        FormatterView { scales: self.scales@, options: self.options@ }
    }
}

impl FormatterView {
    /// The text that the formatter writes for `value`.
    pub open spec fn text(self, value: Binary64) -> Seq<char> {
        self.scales.scaled(self.options, value).text()
    }
}

impl Formatter {
    /// Create a formatter with a given scale set and some options.
    pub fn new(scales: Scales, options: Options) -> (r: Self)
        ensures
            r@ == (FormatterView { scales: scales@, options: options@ }),
    {
        Formatter { scales, options }
    }

    /// Forces the sign to be displayed.
    pub fn set_force_sign(&mut self, force_sign: bool)
        ensures
            final(self)@ == (FormatterView {
                options: OptionsView { force_sign, ..old(self)@.options },
                ..old(self)@
            }),
    {
        self.options.set_force_sign(force_sign);
    }

    /// Forces the sign to be displayed.
    pub fn with_force_sign(self, force_sign: bool) -> (r: Self)
        ensures
            r@ == (FormatterView { options: OptionsView { force_sign, ..self@.options }, ..self@ }),
    {
        Formatter { scales: self.scales, options: self.options.with_force_sign(force_sign) }
    }

    /// Sets the number of decimals to display.
    pub fn set_decimals(&mut self, decimals: usize)
        ensures
            final(self)@ == (FormatterView {
                options: OptionsView { decimals: decimals as nat, ..old(self)@.options },
                ..old(self)@
            }),
    {
        self.options.set_decimals(decimals);
    }

    /// Sets the number of decimals to display.
    pub fn with_decimals(self, decimals: usize) -> (r: Self)
        ensures
            r@ == (FormatterView {
                options: OptionsView { decimals: decimals as nat, ..self@.options },
                ..self@
            }),
    {
        Formatter { scales: self.scales, options: self.options.with_decimals(decimals) }
    }

    /// Sets the expected unit, like `B` for bytes or `g` for grams.
    pub fn set_unit(&mut self, unit: &str)
        ensures
            final(self)@ == (FormatterView {
                options: OptionsView { unit: Some(unit@), ..old(self)@.options },
                ..old(self)@
            }),
    {
        self.options.set_unit(unit);
    }

    /// Sets the expected unit, like `B` for bytes or `g` for grams.
    pub fn with_unit(self, unit: &str) -> (r: Self)
        ensures
            r@ == (FormatterView {
                options: OptionsView { unit: Some(unit@), ..self@.options },
                ..self@
            }),
    {
        Formatter { scales: self.scales, options: self.options.with_unit(unit) }
    }

    /// Sets the separator between the number and the prefix.
    pub fn set_separator(&mut self, separator: &str)
        ensures
            final(self)@ == (FormatterView {
                options: OptionsView { separator: separator@, ..old(self)@.options },
                ..old(self)@
            }),
    {
        self.options.set_separator(separator);
    }

    /// Sets the separator between the number and the prefix.
    pub fn with_separator(self, separator: &str) -> (r: Self)
        ensures
            r@ == (FormatterView {
                options: OptionsView { separator: separator@, ..self@.options },
                ..self@
            }),
    {
        Formatter { scales: self.scales, options: self.options.with_separator(separator) }
    }

    /// Formats a number and returns a scaled value that can be displayed.
    /// Every encoding is taken: an infinity or a NaN goes through the
    /// search and the division like any number, and reads `inf` or `NaN`.
    pub fn format<'a>(&'a self, value: Binary64) -> (r: ScaledValue<'a>)
        ensures
            r@ == self@.scales.scaled(self@.options, value),
            r@.text() == self@.text(value),
    {
        self.scales.into_scaled(&self.options, value)
    }

    /// Formatter that uses the SI format style, with the standard options.
    pub fn si() -> (r: Self)
        ensures
            r@ == (FormatterView { scales: ScalesView::si(), options: OptionsView::standard() }),
    {
        Formatter { scales: si_scale(), options: Options::default() }
    }

    /// Formatter that uses the binary format style, with the standard
    /// options.
    pub fn binary() -> (r: Self)
        ensures
            r@ == (FormatterView {
                scales: ScalesView::binary(),
                options: OptionsView::standard(),
            }),
    {
        Formatter { scales: binary_scale(), options: Options::default() }
    }
}

} // verus!
