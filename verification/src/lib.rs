//! Human-readable rendering of magnitudes with metric or binary prefixes:
//! `4234` reads `4.23 k`, and `4320133` bytes read `4.12 MiB`.
//!
//! A [`Formatter`] holds a table of [`Scales`] and a set of [`Options`].
//! It finds the scale that fits a number, divides the number by the factor
//! of that scale, and hands out a [`ScaledValue`], whose text is the
//! quotient in fixed-point notation, followed by the prefix of the scale
//! and the unit.
//!
//! Numbers are double-precision values held by their encoding, as
//! [`Binary64`]. Comparison, division and the fixed-point notation are
//! done over the integers and proved against the value that an encoding
//! stands for.

pub mod binary64;
pub mod decimal;
pub mod division;
pub mod formatter;
pub mod laws;
pub mod notation;
pub mod options;
pub mod scale;
pub mod scaled;
pub mod tables;

pub use binary64::Binary64;
pub use formatter::{Formatter, FormatterView};
pub use options::{Options, OptionsView};
pub use scale::{Scale, ScaleView, Scales, ScalesView};
pub use scaled::{ScaledValue, ScaledValueView};
pub use tables::{binary_scale, si_scale};
