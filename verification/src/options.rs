//! The options that every `read_*` entry point takes.

use vstd::prelude::*;

verus! {

/// A value of the options dict, as far as the options read it.
pub enum OptionValue {
    Int(i64),
    /// A float, given as the `u32` that Rust's `as` conversion makes of it
    /// (saturating, NaN to 0).
    FloatAsU32(u32),
    Bool(bool),
    /// Any other kind of value.
    Other,
}

/// The options of a data set request.
pub struct GeoOpts {
    /// The year of the data set; `None` asks for the latest.
    pub year: Option<u32>,
    /// Whether to use the simplified geometries.
    pub simplified: bool,
}

/// The year that a `year` entry asks for: an integer, truncated to 32 bits
/// as `as u32` does, or a float as converted.
pub open spec fn year_option(entry: Option<OptionValue>) -> Option<u32> {
    match entry {
        Some(OptionValue::Int(i)) => Some(i as u32),
        Some(OptionValue::FloatAsU32(y)) => Some(y),
        _ => None,
    }
}

/// Whether a `simplified` entry asks for simplified geometries: a boolean as
/// it is, an integer when it is not zero, and anything else (or no entry) yes.
pub open spec fn simplified_option(entry: Option<OptionValue>) -> bool {
    match entry {
        Some(OptionValue::Bool(b)) => b,
        Some(OptionValue::Int(i)) => i != 0,
        _ => true,
    }
}

impl GeoOpts {
    /// The options given by the `year` and `simplified` entries of the dict
    /// (`None` where the dict has no such entry).
    pub fn from_entries(year: Option<OptionValue>, simplified: Option<OptionValue>) -> (o: GeoOpts)
        ensures
            o.year == year_option(year),
            o.simplified == simplified_option(simplified),
            simplified is None ==> o.simplified,
            match simplified {
                Some(OptionValue::Bool(b)) => o.simplified == b,
                _ => true,
            },
            year is None ==> o.year is None,
            match year {
                Some(OptionValue::Int(i)) => 0 <= i <= 0xffff_ffff ==> (o.year matches Some(y) && y
                    == i),
                _ => true,
            },
    {
        let y = match year {
            Some(OptionValue::Int(i)) => Some(#[verifier::truncate] (i as u32)),
            Some(OptionValue::FloatAsU32(f)) => Some(f),
            _ => None,
        };
        let s = match simplified {
            Some(OptionValue::Bool(b)) => b,
            Some(OptionValue::Int(i)) => i != 0,
            _ => true,
        };
        GeoOpts { year: y, simplified: s }
    }
}

impl Default for GeoOpts {
    /// No year (the latest) and simplified geometries.
    fn default() -> (o: Self)
        ensures
            o.year is None,
            o.simplified,
    {
        GeoOpts { year: None, simplified: true }
    }
}

/// The options are taken as given: a boolean `simplified` entry as it is, an
/// integer one as "not zero", and simplified files when there is no entry, as
/// by default; an integer `year` entry that fits in 32 bits asks for that very
/// year, and no entry for none.
pub proof fn lemma_options_taken_as_given(b: bool, i: i64)
    ensures
        simplified_option(Some(OptionValue::Bool(b))) == b,
        simplified_option(Some(OptionValue::Int(i))) == (i != 0),
        simplified_option(None),
        year_option(None) is None,
        0 <= i <= 0xffff_ffff ==> (year_option(Some(OptionValue::Int(i))) matches Some(y) && y
            == i),
{
}

} // verus!
