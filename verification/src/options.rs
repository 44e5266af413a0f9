//! The options that decide how a scaled number is written.

use vstd::prelude::*;
use vstd::string::*;

verus! {

/// Set of options used for formatting numbers.
#[derive(Clone, Debug)]
pub struct Options {
    decimals: usize,
    separator: String,
    unit: Option<String>,
    force_sign: bool,
}

/// What a set of options holds.
pub struct OptionsView {
    /// Number of digits behind the decimal point.
    pub decimals: nat,
    /// Text between the number and what follows it.
    pub separator: Seq<char>,
    /// The unit written last, if any.
    pub unit: Option<Seq<char>>,
    /// Whether a number that is not negative gets a `+`.
    pub force_sign: bool,
}

impl View for Options {
    type V = OptionsView;

    closed spec fn view(&self) -> OptionsView {
        OptionsView {
            decimals: self.decimals as nat,
            separator: self.separator@,
            unit: match self.unit {
                Some(unit) => Some(unit@),
                None => None,
            },
            force_sign: self.force_sign,
        }
    }
}

impl OptionsView {
    /// Two decimals, a single space as separator, no unit, no forced sign.
    pub open spec fn standard() -> OptionsView {
        OptionsView { decimals: 2, separator: seq![' '], unit: None, force_sign: false }
    }
}

impl Default for Options {
    fn default() -> (r: Self)
        ensures
            r@ == OptionsView::standard(),
    {
        proof {
            reveal_strlit(" ");
            assert(" "@ =~= seq![' ']);
        }
        Options { decimals: 2, separator: String::from_str(" "), unit: None, force_sign: false }
    }
}

impl Options {
    /// Options with the given number of decimals, separator and unit; no
    /// sign is forced.
    pub fn new(decimals: usize, separator: &str, unit: Option<&str>) -> (r: Self)
        ensures
            r@ == (OptionsView {
                decimals: decimals as nat,
                separator: separator@,
                unit: match unit {
                    Some(unit) => Some(unit@),
                    None => None,
                },
                force_sign: false,
            }),
    {
        let unit: Option<String> = match unit {
            Some(unit) => Some(String::from_str(unit)),
            None => None,
        };
        Options { decimals, separator: String::from_str(separator), unit, force_sign: false }
    }

    /// Number of digits behind the decimal point.
    pub fn decimals(&self) -> (r: usize)
        ensures
            r == self@.decimals,
    {
        self.decimals
    }

    /// Text between the number and what follows it.
    pub fn separator(&self) -> (r: &str)
        ensures
            r@ == self@.separator,
    {
        self.separator.as_str()
    }

    /// The unit written last, if any.
    pub fn unit(&self) -> (r: Option<&str>)
        ensures
            r is Some == self@.unit is Some,
            r is Some ==> r->0@ == self@.unit->0,
    {
        match &self.unit {
            Some(unit) => Some(unit.as_str()),
            None => None,
        }
    }

    /// Whether a number that is not negative gets a `+`.
    pub fn force_sign(&self) -> (r: bool)
        ensures
            r == self@.force_sign,
    {
        self.force_sign
    }

    /// Forces the sign to be displayed.
    pub fn set_force_sign(&mut self, force_sign: bool)
        ensures
            final(self)@ == (OptionsView { force_sign, ..old(self)@ }),
    {
        self.force_sign = force_sign;
    }

    /// Forces the sign to be displayed.
    pub fn with_force_sign(self, force_sign: bool) -> (r: Self)
        ensures
            r@ == (OptionsView { force_sign, ..self@ }),
    {
        let mut options = self;
        options.force_sign = force_sign;
        options
    }

    /// Sets the number of decimals to display.
    pub fn set_decimals(&mut self, decimals: usize)
        ensures
            final(self)@ == (OptionsView { decimals: decimals as nat, ..old(self)@ }),
    {
        self.decimals = decimals;
    }

    /// Sets the number of decimals to display.
    pub fn with_decimals(self, decimals: usize) -> (r: Self)
        ensures
            r@ == (OptionsView { decimals: decimals as nat, ..self@ }),
    {
        let mut options = self;
        options.decimals = decimals;
        options
    }

    /// Sets the expected unit, like `B` for bytes or `g` for grams.
    pub fn set_unit(&mut self, unit: &str)
        ensures
            final(self)@ == (OptionsView { unit: Some(unit@), ..old(self)@ }),
    {
        self.unit = Some(String::from_str(unit));
    }

    /// Sets the expected unit, like `B` for bytes or `g` for grams.
    pub fn with_unit(self, unit: &str) -> (r: Self)
        ensures
            r@ == (OptionsView { unit: Some(unit@), ..self@ }),
    {
        let mut options = self;
        options.unit = Some(String::from_str(unit));
        options
    }

    /// Sets the separator between the number and the prefix.
    pub fn set_separator(&mut self, separator: &str)
        ensures
            final(self)@ == (OptionsView { separator: separator@, ..old(self)@ }),
    {
        self.separator = String::from_str(separator);
    }

    /// Sets the separator between the number and the prefix.
    pub fn with_separator(self, separator: &str) -> (r: Self)
        ensures
            r@ == (OptionsView { separator: separator@, ..self@ }),
    {
        let mut options = self;
        options.separator = String::from_str(separator);
        options
    }
}

} // verus!
