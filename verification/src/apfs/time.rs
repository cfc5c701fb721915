//! APFS timestamp conversion. APFS stores times as unsigned 64-bit nanoseconds
//! since the Unix epoch (1970-01-01T00:00:00Z); they are formatted as ISO 8601
//! UTC with the civil-from-days algorithm (Howard Hinnant).
use vstd::prelude::*;

use crate::text::{self, dec_digits, zero_pad};

verus! {

/// Days since 1970-01-01 (non-negative) to `(year, month, day)`.
pub open spec fn civil(days: int) -> (int, int, int) {
    let z = days + 719_468;
    let era = z / 146_097;
    let doe = z - era * 146_097;
    let yoe = (doe - doe / 1460 + doe / 36524 - doe / 146096) / 365;
    let y = yoe + era * 400;
    let doy = doe - (365 * yoe + yoe / 4 - yoe / 100);
    let mp = (5 * doy + 2) / 153;
    let d = doy - (153 * mp + 2) / 5 + 1;
    let m = if mp < 10 { mp + 3 } else { mp - 9 };
    (if m <= 2 { y + 1 } else { y }, m, d)
}

/// Zero-padded decimal text of a non-negative number.
pub open spec fn padded(n: int, width: nat) -> Seq<char> {
    zero_pad(dec_digits(n as nat), width)
}

/// The ISO 8601 UTC text of a non-zero APFS timestamp: `YYYY-MM-DDTHH:MM:SSZ`,
/// with `.NNNNNNNNN` before the `Z` when the sub-second part is non-zero.
pub open spec fn iso_text(nanos: nat) -> Seq<char> {
    let secs = nanos / 1_000_000_000;
    let sub = nanos % 1_000_000_000;
    let days = secs / 86_400;
    let sod = secs % 86_400;
    let ymd = civil(days as int);
    let base = padded(ymd.0, 4) + "-"@ + padded(ymd.1, 2) + "-"@ + padded(ymd.2, 2) + "T"@
        + padded((sod / 3600) as int, 2) + ":"@ + padded(((sod % 3600) / 60) as int, 2) + ":"@ + padded((sod % 60) as int, 2);
    if sub == 0 {
        base + "Z"@
    } else {
        base + "."@ + padded(sub as int, 9) + "Z"@
    }
}

/// Days since 1970-01-01 -> (year, month, day), for the non-negative days an
/// unsigned timestamp can express.
fn civil_from_days(z0: u64) -> (r: (u64, u64, u64))
    requires
        z0 <= 213_503_982_334,
    ensures
        r.0 as int == civil(z0 as int).0,
        r.1 as int == civil(z0 as int).1,
        r.2 as int == civil(z0 as int).2,
{
    let z = z0 + 719_468;
    let era = z / 146_097;
    let doe = z - era * 146_097;
    assert(doe <= 146_096);
    let yoe = (doe - doe / 1460 + doe / 36524 - doe / 146096) / 365;
    assert(yoe <= 400);
    let y = yoe + era * 400;
    let doy = doe - (365 * yoe + yoe / 4 - yoe / 100);
    assert(doy <= 365);
    let mp = (5 * doy + 2) / 153;
    let d = doy - (153 * mp + 2) / 5 + 1;
    let m = if mp < 10 { mp + 3 } else { mp - 9 };
    (if m <= 2 { y + 1 } else { y }, m, d)
}

/// Convert APFS nanoseconds-since-epoch to an ISO 8601 UTC string.
/// Returns `None` for value 0 (unset) so callers can omit the field.
pub fn iso8601(nanos: u64) -> (r: Option<String>)
    ensures
        match r {
            Some(s) => nanos != 0 && s@ == iso_text(nanos as nat),
            None => nanos == 0,
        },
{
    if nanos == 0 {
        return None;
    }
    let secs = nanos / 1_000_000_000;
    let sub_ns = nanos % 1_000_000_000;
    let days = secs / 86_400;
    let secs_of_day = secs % 86_400;
    let (y, m, d) = civil_from_days(days);
    let hour = secs_of_day / 3600;
    let min = (secs_of_day % 3600) / 60;
    let sec = secs_of_day % 60;

    let mut s = String::new();
    text::push_decimal_padded(&mut s, y, 4);
    text::push_str(&mut s, "-");
    text::push_decimal_padded(&mut s, m, 2);
    text::push_str(&mut s, "-");
    text::push_decimal_padded(&mut s, d, 2);
    text::push_str(&mut s, "T");
    text::push_decimal_padded(&mut s, hour, 2);
    text::push_str(&mut s, ":");
    text::push_decimal_padded(&mut s, min, 2);
    text::push_str(&mut s, ":");
    text::push_decimal_padded(&mut s, sec, 2);
    if sub_ns != 0 {
        text::push_str(&mut s, ".");
        text::push_decimal_padded(&mut s, sub_ns, 9);
    }
    text::push_str(&mut s, "Z");
    assert(s@ =~= iso_text(nanos as nat));
    Some(s)
}

} // verus!
