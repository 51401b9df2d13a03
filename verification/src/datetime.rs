//! FITS `DATE` values (`ffpdat`): the civil UTC date and time of a Unix
//! timestamp, written `YYYY-MM-DDThh:mm:ss`.
use vstd::prelude::*;
use vstd::string::StringSliceAdditionalSpecFns;
use crate::text::{decimal_nat, format_u64, is_digit, latin1, string_of_bytes};

verus! {

/// Gregorian leap year.
pub open spec fn is_leap(y: int) -> bool {
    y % 4 == 0 && (y % 100 != 0 || y % 400 == 0)
}

/// Length of month `m` (1–12) of year `y`.
pub open spec fn days_in_month(y: int, m: int) -> int {
    if m == 2 {
        if is_leap(y) {
            29
        } else {
            28
        }
    } else if m == 4 || m == 6 || m == 9 || m == 11 {
        30
    } else {
        31
    }
}

/// Days before year `y` of a 400-year era that starts in March.
pub open spec fn days_before_year(y: int) -> int {
    365 * y + y / 4 - y / 100
}

/// Days from 1970-01-01 to the proleptic Gregorian date `y-m-d`.
pub open spec fn days_from_civil(y: int, m: int, d: int) -> int {
    let yy = if m <= 2 {
        y - 1
    } else {
        y
    };
    let era = yy / 400;
    let yoe = yy - era * 400;
    let mp = if m > 2 {
        m - 3
    } else {
        m + 9
    };
    let doy = (153 * mp + 2) / 5 + d - 1;
    era * 146097 + days_before_year(yoe) + doy - 719468
}

/// The 400-year era of the day of a timestamp (eras start on March 1st of
/// years divisible by 400).
pub open spec fn era_of(secs: int) -> int {
    (secs / 86400 + 719468) / 146097
}

/// Year of era of day `doe` (0–146096) of an era, by Hinnant's formula.
pub open spec fn year_of_era(doe: int) -> int {
    (doe - doe / 1460 + doe / 36524 - doe / 146096) / 365
}

/// Day of era of the day of a timestamp.
pub open spec fn doe_of(secs: int) -> int {
    secs / 86400 + 719468 - era_of(secs) * 146097
}

/// Month of the day of a timestamp counted from March (0–11).
pub open spec fn march_month_of(secs: int) -> int {
    let doe = doe_of(secs);
    let doy = doe - days_before_year(year_of_era(doe));
    (5 * doy + 2) / 153
}

/// The civil year of a timestamp.
pub open spec fn civil_year(secs: int) -> int {
    era_of(secs) * 400 + year_of_era(doe_of(secs)) + if march_month_of(secs) >= 10 {
        1int
    } else {
        0
    }
}

/// The year of `secs` and the era arithmetic leading to it fit in `i32`.
pub open spec fn civil_in_range(secs: int) -> bool {
    i32::MIN <= 400 * era_of(secs) && civil_year(secs) <= i32::MAX
}

/// Within an era, the year and day of year that Hinnant's formulas give
/// are a real year and a day in it; day 365 only in a leap year.
proof fn lemma_era_day(doe: u32)
    requires
        doe <= 146096,
    ensures
        ({
            let yoe = (doe - doe / 1460 + doe / 36524 - doe / 146096) / 365;
            let doy = doe - (365 * yoe + yoe / 4 - yoe / 100);
            &&& yoe <= 399
            &&& 0 <= doy <= 365
            &&& doy == 365 ==> (yoe + 1) % 4 == 0 && ((yoe + 1) % 100 != 0 || yoe == 399)
        }),
{
    assert({
        let yoe = (doe - doe / 1460 + doe / 36524 - doe / 146096) / 365;
        let doy = doe - (365 * yoe + yoe / 4 - yoe / 100);
        &&& yoe <= 399
        &&& 0 <= doy <= 365
        &&& doy == 365 ==> (yoe + 1) % 4 == 0 && ((yoe + 1) % 100 != 0 || yoe == 399)
    }) by (bit_vector)
        requires
            doe <= 146096,
    ;
}

/// Month (March-based, 0–11) and day of a day of year, by Hinnant's formulas.
proof fn lemma_month_day(doy: u32)
    requires
        doy <= 365,
    ensures
        ({
            let mp = (5 * doy + 2) / 153;
            let d = doy - (153 * mp + 2) / 5 + 1;
            &&& mp <= 11
            &&& 1 <= d
            &&& mp < 11 ==> d <= (153 * (mp + 1) + 2) / 5 - (153 * mp + 2) / 5
            &&& mp == 11 ==> d <= 28 || (doy == 365 && d == 29)
        }),
{
    assert({
        let mp = (5 * doy + 2) / 153;
        let d = doy - (153 * mp + 2) / 5 + 1;
        &&& mp <= 11
        &&& 1 <= d
        &&& mp < 11 ==> d <= (153 * (mp + 1) + 2) / 5 - (153 * mp + 2) / 5
        &&& mp == 11 ==> d <= 28 || (doy == 365 && d == 29)
    }) by (bit_vector)
        requires
            doy <= 365,
    ;
}

/// The era, year of era, day of era and second of day of a timestamp.
fn era_parts(unix_secs: i64) -> (r: (i64, u32, u32, u32))
    ensures
        r.0 == era_of(unix_secs as int),
        r.2 == doe_of(unix_secs as int),
        r.1 == year_of_era(r.2 as int),
        r.2 <= 146096,
        r.3 == unix_secs % 86400,
{
    let big: u128 = 86400 * 146097 * 1_000_000_000;
    let s: u128 = (unix_secs as i128 + big as i128) as u128;
    let days_s: u128 = s / 86400;
    let tod: u128 = s % 86400;
    let z_s: u128 = days_s + 719468;
    let era_s: u128 = z_s / 146097;
    let doe: u32 = (z_s % 146097) as u32;
    let ghost secs = unix_secs as int;
    proof {
        vstd::arithmetic::div_mod::lemma_fundamental_div_mod(s as int, 86400);
        vstd::arithmetic::div_mod::lemma_fundamental_div_mod(z_s as int, 146097);
        vstd::arithmetic::div_mod::lemma_fundamental_div_mod_converse(
            secs,
            86400,
            days_s - 146097 * 1_000_000_000,
            tod as int,
        );
        let z = secs / 86400 + 719468;
        vstd::arithmetic::div_mod::lemma_fundamental_div_mod_converse(
            z,
            146097,
            era_s - 1_000_000_000,
            doe as int,
        );
        lemma_era_day(doe);
    }
    let era: i64 = (era_s as i64) - 1_000_000_000;
    let yoe: u32 = (doe - doe / 1460 + doe / 36524 - doe / 146096) / 365;
    (era, yoe, doe, tod as u32)
}

/// Civil date and time of a Unix timestamp: `(year, month, day, hour,
/// minute, second)`, UTC, proleptic Gregorian.
fn civil_from_unix(unix_secs: i64) -> (r: (i32, u32, u32, u32, u32, u32))
    requires
        civil_in_range(unix_secs as int),
    ensures
        1 <= r.1 <= 12,
        1 <= r.2 <= days_in_month(r.0 as int, r.1 as int),
        days_from_civil(r.0 as int, r.1 as int, r.2 as int) == unix_secs / 86400,
        r.3 < 24 && r.4 < 60 && r.5 < 60,
        r.3 * 3600 + r.4 * 60 + r.5 == unix_secs % 86400,
{
    let (era, yoe, doe, tod) = era_parts(unix_secs);
    proof {
        lemma_era_day(doe);
    }
    let doy: u32 = doe - (365 * yoe + yoe / 4 - yoe / 100);
    proof {
        lemma_month_day(doy);
    }
    let mp: u32 = (5 * doy + 2) / 153;
    let d: u32 = doy - (153 * mp + 2) / 5 + 1;
    let m: u32 = if mp < 10 { mp + 3 } else { mp - 9 };
    let y0: i32 = yoe as i32 + (era as i32) * 400;
    let y: i32 = if m <= 2 { y0 + 1 } else { y0 };
    let hh = tod / 3600;
    let mm = (tod % 3600) / 60;
    let ss = tod % 60;
    proof {
        let yy = era * 400 + yoe;
        vstd::arithmetic::div_mod::lemma_fundamental_div_mod_converse(yy, 400, era as int, yoe as int);
        lemma_month_length(era as int, yoe as int, doy as int, mp as int, d as int);
        assert(hh * 3600 + mm * 60 + ss == tod) by (nonlinear_arith)
            requires
                hh == tod / 3600,
                mm == (tod % 3600) / 60,
                ss == tod % 60,
                tod < 86400,
        ;
    }
    (y, m, d, hh, mm, ss)
}

/// Does `civil_in_range` hold of `unix_secs`?
fn in_civil_range(unix_secs: i64) -> (r: bool)
    ensures
        r == civil_in_range(unix_secs as int),
{
    let (era, yoe, doe, _) = era_parts(unix_secs);
    proof {
        lemma_era_day(doe);
    }
    let doy: u32 = doe - (365 * yoe + yoe / 4 - yoe / 100);
    proof {
        lemma_month_day(doy);
    }
    let mp: u32 = (5 * doy + 2) / 153;
    let low: i128 = 400 * (era as i128);
    let year: i128 = low + yoe as i128 + if mp >= 10 { 1 } else { 0 };
    low >= -0x8000_0000 && year <= 0x7fff_ffff
}

/// The day found within its month is no later than the month's last day.
proof fn lemma_month_length(era: int, yoe: int, doy: int, mp: int, d: int)
    requires
        0 <= yoe <= 399,
        0 <= doy <= 365,
        doy == 365 ==> (yoe + 1) % 4 == 0 && ((yoe + 1) % 100 != 0 || yoe == 399),
        mp == (5 * doy + 2) / 153,
        d == doy - (153 * mp + 2) / 5 + 1,
        mp <= 11,
        1 <= d,
        mp < 11 ==> d <= (153 * (mp + 1) + 2) / 5 - (153 * mp + 2) / 5,
        mp == 11 ==> d <= 28 || (doy == 365 && d == 29),
    ensures
        ({
            let m = if mp < 10 {
                mp + 3
            } else {
                mp - 9
            };
            let y = era * 400 + yoe + if m <= 2 {
                1int
            } else {
                0
            };
            d <= days_in_month(y, m)
        }),
{
    if mp == 11 && d == 29 {
        let y = era * 400 + yoe + 1;
        let k = yoe + 1;
        vstd::arithmetic::div_mod::lemma_fundamental_div_mod(k, 4);
        vstd::arithmetic::div_mod::lemma_fundamental_div_mod_converse(y, 4, era * 100 + k / 4, k % 4);
        vstd::arithmetic::div_mod::lemma_fundamental_div_mod(k, 100);
        vstd::arithmetic::div_mod::lemma_fundamental_div_mod_converse(y, 100, era * 4 + k / 100, k % 100);
        if yoe == 399 {
            vstd::arithmetic::div_mod::lemma_fundamental_div_mod_converse(y, 400, era + 1, 0);
        }
    }
}

/// `n` ASCII zeros.
pub open spec fn zeros(n: int) -> Seq<u8> {
    Seq::new(if n > 0 { n as nat } else { 0 }, |i: int| 48u8)
}

/// `format!("{v:0w$}")`: decimal, zero-padded to `w` characters after the
/// sign.
pub open spec fn zero_pad(v: int, w: int) -> Seq<u8> {
    if v < 0 {
        let digits = decimal_nat((-v) as nat);
        seq![45u8] + zeros(w - 1 - digits.len()) + digits
    } else {
        let digits = decimal_nat(v as nat);
        zeros(w - digits.len()) + digits
    }
}

/// `YYYY-MM-DDThh:mm:ss` of the given fields.
pub open spec fn datetime_text(y: int, m: int, d: int, hh: int, mi: int, ss: int) -> Seq<u8> {
    zero_pad(y, 4) + seq![45u8] + zero_pad(m, 2) + seq![45u8] + zero_pad(d, 2) + seq![84u8]
        + zero_pad(hh, 2) + seq![58u8] + zero_pad(mi, 2) + seq![58u8] + zero_pad(ss, 2)
}

/// `y-m-d hh:mi:ss` is the UTC civil time of the timestamp `secs`.
pub open spec fn is_civil_time(secs: int, y: int, m: int, d: int, hh: int, mi: int, ss: int) -> bool {
    &&& 1 <= m <= 12
    &&& 1 <= d <= days_in_month(y, m)
    &&& days_from_civil(y, m, d) == secs / 86400
    &&& 0 <= hh < 24 && 0 <= mi < 60 && 0 <= ss < 60
    &&& hh * 3600 + mi * 60 + ss == secs % 86400
}

/// Append `v` zero-padded to `w` characters.
fn push_padded(out: &mut Vec<u8>, v: i64, w: usize)
    requires
        v > i64::MIN,
        w <= 8,
    ensures
        final(out)@ == old(out)@ + zero_pad(v as int, w as int),
{
    let neg = v < 0;
    let mag: u64 = if neg { (-v) as u64 } else { v as u64 };
    let digits = format_u64(mag);
    if neg {
        out.push(45u8);
    }
    let lead: usize = if neg { 1 } else { 0 };
    let mut k: usize = 0;
    let pad: usize = if lead <= w && digits.len() < w - lead { w - lead - digits.len() } else { 0 };
    let ghost start = out@;
    while k < pad
        invariant
            k <= pad,
            out@ == start + zeros(k as int),
        decreases pad - k,
    {
        out.push(48u8);
        assert(zeros(k + 1) =~= zeros(k as int).push(48u8));
        k += 1;
    }
    let ghost mid = out@;
    let mut j: usize = 0;
    while j < digits.len()
        invariant
            j <= digits@.len(),
            out@ == mid + digits@.subrange(0, j as int),
        decreases digits.len() - j,
    {
        out.push(digits[j]);
        assert(digits@.subrange(0, j + 1) =~= digits@.subrange(0, j as int).push(digits@[j as int]));
        j += 1;
    }
    assert(digits@.subrange(0, digits@.len() as int) =~= digits@);
    proof {
        if neg {
            assert(zeros(pad as int) =~= zeros(w - 1 - digits@.len()));
            assert(out@ =~= old(out)@ + zero_pad(v as int, w as int));
        } else {
            assert(zeros(pad as int) =~= zeros(w - digits@.len()));
            assert(out@ =~= old(out)@ + zero_pad(v as int, w as int));
        }
    }
}

/// Format a Unix timestamp as `YYYY-MM-DDThh:mm:ss` (UTC).
pub fn format_fits_datetime(unix_secs: i64) -> (r: String)
    requires
        civil_in_range(unix_secs as int),
    ensures
        exists|y: int, m: int, d: int, hh: int, mi: int, ss: int|
            is_civil_time(unix_secs as int, y, m, d, hh, mi, ss) && r@ == latin1(
                datetime_text(y, m, d, hh, mi, ss),
            ),
{
    let (y, m, d, hh, mi, ss) = civil_from_unix(unix_secs);
    let mut out: Vec<u8> = Vec::new();
    push_padded(&mut out, y as i64, 4);
    out.push(45u8);
    push_padded(&mut out, m as i64, 2);
    out.push(45u8);
    push_padded(&mut out, d as i64, 2);
    out.push(84u8);
    push_padded(&mut out, hh as i64, 2);
    out.push(58u8);
    push_padded(&mut out, mi as i64, 2);
    out.push(58u8);
    push_padded(&mut out, ss as i64, 2);
    assert(out@ =~= datetime_text(y as int, m as int, d as int, hh as int, mi as int, ss as int));
    let r = string_of_bytes(out.as_slice());
    assert(is_civil_time(unix_secs as int, y as int, m as int, d as int, hh as int, mi as int, ss as int));
    r
}

/// The system clock's time type.
#[verifier::external_type_specification]
#[verifier::external_body]
pub struct ExSystemTime(std::time::SystemTime);

/// The error of a clock reading before a given time.
#[verifier::external_type_specification]
#[verifier::external_body]
pub struct ExSystemTimeError(std::time::SystemTimeError);

/// `SystemTime::now`: the system clock. Nothing is stated of it: it is
/// the time.
#[verifier::external_body]
fn system_now() -> (r: std::time::SystemTime) {
    std::time::SystemTime::now()
}

/// `SystemTime::duration_since(UNIX_EPOCH)`: the time since the epoch, an
/// error for a clock before it. Nothing is stated of the value.
#[verifier::external_body]
fn since_epoch(t: &std::time::SystemTime) -> (r: Result<std::time::Duration, std::time::SystemTimeError>) {
    t.duration_since(std::time::UNIX_EPOCH)
}

/// `Duration::as_secs`: whole seconds. Nothing is stated of the value,
/// which the duration holds opaquely here.
#[verifier::external_body]
fn whole_secs(d: &std::time::Duration) -> (r: u64) {
    d.as_secs()
}

/// Seconds since the Unix epoch on the system clock, when the clock is not
/// before the epoch.
fn unix_time_now() -> (r: Option<u64>) {
    let now = system_now();
    match since_epoch(&now) {
        Ok(d) => Some(whole_secs(&d)),
        Err(_) => None,
    }
}

/// The timestamp `now_fits_datetime` formats for a clock reading: the
/// reading as `i64` (as Rust's `as` casts it), 0 for a clock before the
/// epoch or for a reading whose year does not fit in `i32`.
pub open spec fn clock_secs(reading: Option<u64>) -> i64 {
    match reading {
        Some(v) => if civil_in_range(v as i64 as int) {
            v as i64
        } else {
            0
        },
        None => 0,
    }
}

/// The epoch is 1970-03-based day 306 of year 369 of era 4.
proof fn lemma_epoch_in_range()
    ensures
        civil_in_range(0),
{
    assert(0int / 86400 == 0);
    assert(era_of(0) == 4);
    assert(doe_of(0) == 135080);
    assert(year_of_era(135080) == 369);
    assert(days_before_year(369) == 134774);
    assert(march_month_of(0) == 10);
    assert(civil_year(0) == 1970);
}

/// Format the timestamp of a clock reading (`None`: before the epoch).
pub fn format_clock_reading(reading: Option<u64>) -> (r: String)
    ensures
        exists|y: int, m: int, d: int, hh: int, mi: int, ss: int|
            is_civil_time(clock_secs(reading) as int, y, m, d, hh, mi, ss) && r@ == latin1(
                datetime_text(y, m, d, hh, mi, ss),
            ),
{
    proof {
        lemma_epoch_in_range();
    }
    let raw: i64 = match reading {
        Some(v) => v as i64,
        None => 0,
    };
    let secs = if in_civil_range(raw) {
        raw
    } else {
        0
    };
    assert(secs == clock_secs(reading));
    format_fits_datetime(secs)
}

/// Current UTC time as a FITS datetime string.
pub fn now_fits_datetime() -> (r: String)
    ensures
        exists|reading: Option<u64>, y: int, m: int, d: int, hh: int, mi: int, ss: int|
            is_civil_time(clock_secs(reading) as int, y, m, d, hh, mi, ss) && r@ == latin1(
                datetime_text(y, m, d, hh, mi, ss),
            ),
{
    let reading = unix_time_now();
    format_clock_reading(reading)
}

/// `s` starts with `YYYY-MM-DD`.
pub open spec fn looks_like_date(b: Seq<u8>) -> bool {
    &&& b.len() >= 10
    &&& is_digit(b[0]) && is_digit(b[1]) && is_digit(b[2]) && is_digit(b[3])
    &&& b[4] == 45
    &&& is_digit(b[5]) && is_digit(b[6])
    &&& b[7] == 45
    &&& is_digit(b[8]) && is_digit(b[9])
}

/// True if `s` looks like a CFITSIO DATE value (`YYYY-MM-DD` or with time).
pub fn is_fits_date(s: &str) -> (r: bool)
    ensures
        r == looks_like_date(s.spec_bytes()),
{
    let b = s.as_bytes();
    if b.len() < 10 {
        return false;
    }
    let dig = |x: u8| -> (r: bool)
        ensures
            r == is_digit(x),
        { 48 <= x && x <= 57 };
    dig(b[0]) && dig(b[1]) && dig(b[2]) && dig(b[3]) && b[4] == 45 && dig(b[5]) && dig(b[6])
        && b[7] == 45 && dig(b[8]) && dig(b[9])
}

} // verus!
