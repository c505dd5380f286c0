//! Value types carried by tokens.

use vstd::prelude::*;

use crate::numeric::valid_mantissa;

verus! {

/// The payload of a boolean token.
pub type JSONBoolean = bool;

/// The payload of a string token: the exact characters between the two
/// `"` delimiters, with no escape processing.
pub type JSONString = String;

/// The mathematical model of a numeric literal: the mantissa text and
/// the optional exponent value.
pub struct SpecNumber {
    pub mantissa: Seq<char>,
    pub exponent: Option<i16>,
}

/// A numeric literal, representing `mantissa × 10^exponent` when the
/// exponent is present and the plain mantissa otherwise.
///
/// The mantissa is kept as its source text: an optional leading `-`
/// followed by digits with at most one decimal point.  The exponent, if
/// present, was parsed from a validated, non-empty digit run with an
/// optional single leading sign.
#[derive(Debug, Clone)]
pub struct JSONNumber {
    pub mantissa: JSONString,
    pub exponent: Option<i16>,
}

impl View for JSONNumber {
    type V = SpecNumber;

    open spec fn view(&self) -> SpecNumber {
        SpecNumber { mantissa: self.mantissa@, exponent: self.exponent }
    }
}

impl JSONNumber {
    /// The mantissa text is a valid decimal numeral.
    pub open spec fn wf(self) -> bool {
        valid_mantissa(self.mantissa@)
    }

    pub fn new(mantissa: JSONString, exponent: Option<i16>) -> (r: Self)
        requires
            valid_mantissa(mantissa@),
        ensures
            r@ == (SpecNumber { mantissa: mantissa@, exponent }),
            r.wf(),
    {
        Self { mantissa, exponent }
    }
}

impl PartialEq for JSONNumber {
    /// Numeric literals are equal when their mantissa texts and their
    /// exponents are equal.
    fn eq(&self, other: &Self) -> (r: bool) {
        let mantissa_eq = self.mantissa == other.mantissa;
        let exponent_eq = match (self.exponent, other.exponent) {
            (Some(a), Some(b)) => a == b,
            (None, None) => true,
            _ => false,
        };
        mantissa_eq && exponent_eq
    }
}

impl vstd::std_specs::cmp::PartialEqSpecImpl for JSONNumber {
    open spec fn obeys_eq_spec() -> bool {
        true
    }

    open spec fn eq_spec(&self, other: &Self) -> bool {
        self@ == other@
    }
}

} // verus!
