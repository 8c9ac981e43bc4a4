//! The recurrence frequency tag.
use vstd::prelude::*;
use vstd::string::StringExecFns;

use crate::text::eq_ignore_case;
use crate::text::upper_codes;

verus! {

#[derive(PartialEq, Eq, Structural, Clone, Copy, Debug)]
pub enum Frequency {
    /// The recurrence occurs on a yearly basis.
    Yearly,
    /// The recurrence occurs on a monthly basis.
    Monthly,
    /// The recurrence occurs on a weekly basis.
    Weekly,
    /// The recurrence occurs on a daily basis.
    Daily,
    /// The recurrence occurs on an hourly basis.
    Hourly,
    /// The recurrence occurs on a minutely basis.
    Minutely,
    /// The recurrence occurs on a second basis.
    Secondly,
}

/// The frequency named by `s`, read without regard to case.
pub open spec fn parse_frequency_spec(s: Seq<char>) -> Option<Frequency> {
    if upper_codes(s) == upper_codes("YEARLY"@) {
        Some(Frequency::Yearly)
    } else if upper_codes(s) == upper_codes("MONTHLY"@) {
        Some(Frequency::Monthly)
    } else if upper_codes(s) == upper_codes("WEEKLY"@) {
        Some(Frequency::Weekly)
    } else if upper_codes(s) == upper_codes("DAILY"@) {
        Some(Frequency::Daily)
    } else if upper_codes(s) == upper_codes("HOURLY"@) {
        Some(Frequency::Hourly)
    } else if upper_codes(s) == upper_codes("MINUTELY"@) {
        Some(Frequency::Minutely)
    } else if upper_codes(s) == upper_codes("SECONDLY"@) {
        Some(Frequency::Secondly)
    } else {
        None
    }
}

impl Frequency {
    /// The name of this frequency as it appears in a rule string.
    pub fn to_name(&self) -> (r: String)
        ensures
            r@ == frequency_name_spec(*self),
    {
        match self {
            Frequency::Yearly => <String as StringExecFns>::from_str("YEARLY"),
            Frequency::Monthly => <String as StringExecFns>::from_str("MONTHLY"),
            Frequency::Weekly => <String as StringExecFns>::from_str("WEEKLY"),
            Frequency::Daily => <String as StringExecFns>::from_str("DAILY"),
            Frequency::Hourly => <String as StringExecFns>::from_str("HOURLY"),
            Frequency::Minutely => <String as StringExecFns>::from_str("MINUTELY"),
            Frequency::Secondly => <String as StringExecFns>::from_str("SECONDLY"),
        }
    }
}

pub open spec fn frequency_name_spec(f: Frequency) -> Seq<char> {
    match f {
        Frequency::Yearly => "YEARLY"@,
        Frequency::Monthly => "MONTHLY"@,
        Frequency::Weekly => "WEEKLY"@,
        Frequency::Daily => "DAILY"@,
        Frequency::Hourly => "HOURLY"@,
        Frequency::Minutely => "MINUTELY"@,
        Frequency::Secondly => "SECONDLY"@,
    }
}

/// Reads a frequency name such as `WEEKLY`, in any case.
pub fn parse_frequency(value: &str) -> (r: Result<Frequency, String>)
    ensures
        match r {
            Ok(f) => parse_frequency_spec(value@) == Some(f),
            Err(e) => parse_frequency_spec(value@) is None && e@ == "invalid freq: "@ + value@,
        },
{
    if eq_ignore_case(value, "YEARLY") {
        Ok(Frequency::Yearly)
    } else if eq_ignore_case(value, "MONTHLY") {
        Ok(Frequency::Monthly)
    } else if eq_ignore_case(value, "WEEKLY") {
        Ok(Frequency::Weekly)
    } else if eq_ignore_case(value, "DAILY") {
        Ok(Frequency::Daily)
    } else if eq_ignore_case(value, "HOURLY") {
        Ok(Frequency::Hourly)
    } else if eq_ignore_case(value, "MINUTELY") {
        Ok(Frequency::Minutely)
    } else if eq_ignore_case(value, "SECONDLY") {
        Ok(Frequency::Secondly)
    } else {
        Err(<String as StringExecFns>::from_str("invalid freq: ").concat(value))
    }
}

impl core::str::FromStr for Frequency {
    type Err = String;

    fn from_str(value: &str) -> Result<Frequency, String> {
        parse_frequency(value)
    }
}

} // verus!
