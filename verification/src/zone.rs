//! Named time zones. Zone lookup and the binding of a civil time to an
//! instant are done by the `chrono-tz` and `chrono` crates; everything here
//! only carries their answers, named below, into the verified code.
use vstd::prelude::*;

verus! {

/// Whether `chrono_tz` recognises `s` as an IANA zone name.
pub uninterp spec fn zone_name_ok(s: Seq<char>) -> bool;

/// The Unix millisecond timestamp that `chrono-tz` assigns to the civil time
/// `(y, mo, d, h, mi, s)` read in the zone named `tz`: `None` when the zone
/// name is unknown, a field is out of range, or the local time falls in a
/// daylight-saving gap; the earlier instant when the local time is ambiguous.
pub uninterp spec fn zoned_unix_millis(
    y: int,
    mo: int,
    d: int,
    h: int,
    mi: int,
    s: int,
    tz: Seq<char>,
) -> Option<int>;

/// Relies on `chrono_tz::Tz::from_str`: it accepts exactly the IANA zone
/// names compiled into the crate's table, by an input-only lookup.
#[verifier::external_body]
pub fn tz_name_valid(s: &str) -> (r: bool)
    ensures
        r == zone_name_ok(s@),
{
    s.parse::<chrono_tz::Tz>().is_ok()
}

/// Relies on `chrono_tz::Tz::from_str`, `chrono::TimeZone::with_ymd_and_hms`
/// and `chrono::DateTime::timestamp_millis`: together a pure lookup of the
/// compiled zone table, so the result depends on the arguments alone.
#[verifier::external_body]
pub fn civil_to_unix_millis(y: i32, mo: u32, d: u32, h: u32, mi: u32, s: u32, tz: &str) -> (r:
    Option<i64>)
    ensures
        match r {
            Some(v) => zoned_unix_millis(
                y as int,
                mo as int,
                d as int,
                h as int,
                mi as int,
                s as int,
                tz@,
            ) == Some(v as int),
            None => zoned_unix_millis(
                y as int,
                mo as int,
                d as int,
                h as int,
                mi as int,
                s as int,
                tz@,
            ) is None,
        },
{
    let zone: chrono_tz::Tz = match tz.parse() {
        Ok(z) => z,
        Err(_) => {
            return None;
        },
    };
    match chrono::TimeZone::with_ymd_and_hms(&zone, y, mo, d, h, mi, s) {
        chrono::LocalResult::Single(t) => Some(t.timestamp_millis()),
        chrono::LocalResult::Ambiguous(t, _) => Some(t.timestamp_millis()),
        chrono::LocalResult::None => None,
    }
}

} // verus!
