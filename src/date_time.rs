use vstd::prelude::*;
use crate::digits::{
    all_digits, digits_value, fixed_digits, is_digit, lemma_digits_bound, lemma_fixed_digits, lemma_pow10_small, parse_digits, pow10,
    push_fixed_digits,
};
use crate::text::{string_from_utf8, lemma_ascii_valid_utf8};
use crate::CodecError;

verus! {

/// Tag byte of a compact timestamp produced by this side of the feed.
pub const OUR_MARKER: u8 = 79;

pub open spec fn is_leap_year(y: int) -> bool {
    (y % 4 == 0 && y % 100 != 0) || y % 400 == 0
}

pub open spec fn days_in_month(y: int, m: int) -> int {
    if m == 2 {
        if is_leap_year(y) {
            29
        } else {
            28
        }
    } else if m == 4 || m == 6 || m == 9 || m == 11 {
        30
    } else {
        31
    }
}

/// A point in time, in UTC, to the microsecond, held as calendar fields.
#[derive(Clone, Copy, Debug, PartialEq, Eq, Structural)]
pub struct UtcDateTime {
    pub year: u32,
    pub month: u32,
    pub day: u32,
    pub hour: u32,
    pub minute: u32,
    pub second: u32,
    pub microsecond: u32,
}

/// The value of a fraction of a second written with 1 to 6 digits, in microseconds.
pub open spec fn fraction_micros(f: Seq<u8>) -> nat {
    digits_value(f) * pow10((6 - f.len()) as nat)
}

/// Digits of `s[a..b]`.
pub open spec fn digits_at(s: Seq<u8>, a: int, b: int) -> bool {
    all_digits(s.subrange(a, b))
}

/// Value of the digits `s[a..b]`.
pub open spec fn value_at(s: Seq<u8>, a: int, b: int) -> u32 {
    digits_value(s.subrange(a, b)) as u32
}

pub open spec fn date_time(
    year: u32,
    month: u32,
    day: u32,
    hour: u32,
    minute: u32,
    second: u32,
    microsecond: u32,
) -> UtcDateTime {
    UtcDateTime { year, month, day, hour, minute, second, microsecond }
}

/// The fraction of a compact timestamp: three digits when the microseconds are
/// whole milliseconds, else six.
pub open spec fn compact_fraction(us: nat) -> Seq<u8> {
    if us % 1000 == 0 {
        fixed_digits(us / 1000, 3)
    } else {
        fixed_digits(us, 6)
    }
}

/// The compact text of `t`: tag, `YYYYMMDDhhmmss`, fraction.
pub open spec fn compact_of(t: UtcDateTime) -> Seq<u8> {
    seq![OUR_MARKER] + fixed_digits(t.year as nat, 4) + fixed_digits(t.month as nat, 2)
        + fixed_digits(t.day as nat, 2) + fixed_digits(t.hour as nat, 2) + fixed_digits(
        t.minute as nat,
        2,
    ) + fixed_digits(t.second as nat, 2) + compact_fraction(t.microsecond as nat)
}

/// Reads a compact timestamp: an optional tag, fourteen digits `YYYYMMDDhhmmss`,
/// and a fraction of 1 to 6 digits, scaled to microseconds.
pub open spec fn compact_parse(s: Seq<u8>) -> Option<UtcDateTime> {
    let body = if s.len() > 0 && s[0] == OUR_MARKER {
        s.drop_first()
    } else {
        s
    };
    let n = body.len() as int;
    let t = date_time(
        value_at(body, 0, 4),
        value_at(body, 4, 6),
        value_at(body, 6, 8),
        value_at(body, 8, 10),
        value_at(body, 10, 12),
        value_at(body, 12, 14),
        fraction_micros(body.subrange(14, n)) as u32,
    );
    if 15 <= n <= 20 && digits_at(body, 0, 4) && digits_at(body, 4, 6) && digits_at(body, 6, 8)
        && digits_at(body, 8, 10) && digits_at(body, 10, 12) && digits_at(body, 12, 14)
        && digits_at(body, 14, n) && t.wf() {
        Some(t)
    } else {
        None
    }
}

/// The offset that ends an extended calendar string: `+00:00`.
pub open spec fn utc_offset() -> Seq<u8> {
    seq![43u8, 48, 48, 58, 48, 48]
}

/// Length of the UTC offset that ends `s`, or 0 where there is none: `Z`, or
/// `+hh:mm` / `-hh:mm` with `hh` below 24 and `mm` below 60.
pub open spec fn offset_len(s: Seq<u8>) -> int {
    let n = s.len() as int;
    if n >= 1 && s[n - 1] == 90 {
        1
    } else if n >= 6 && (s[n - 6] == 43 || s[n - 6] == 45) && s[n - 3] == 58 && digits_at(
        s,
        n - 5,
        n - 3,
    ) && digits_at(s, n - 2, n) && value_at(s, n - 5, n - 3) < 24 && value_at(s, n - 2, n) < 60 {
        6
    } else {
        0
    }
}

/// The UTC offset that ends `s`, in minutes east of UTC.
pub open spec fn offset_minutes(s: Seq<u8>) -> int {
    let n = s.len() as int;
    if offset_len(s) == 6 {
        let m = value_at(s, n - 5, n - 3) as int * 60 + value_at(s, n - 2, n) as int;
        if s[n - 6] == 43 {
            m
        } else {
            -m
        }
    } else {
        0
    }
}

/// The calendar day before `y-m-d`.
pub open spec fn day_before(y: int, m: int, d: int) -> (int, int, int) {
    if d > 1 {
        (y, m, d - 1)
    } else if m > 1 {
        (y, m - 1, days_in_month(y, m - 1))
    } else {
        (y - 1, 12, 31)
    }
}

/// The calendar day after `y-m-d`.
pub open spec fn day_after(y: int, m: int, d: int) -> (int, int, int) {
    if d < days_in_month(y, m) {
        (y, m, d + 1)
    } else if m < 12 {
        (y, m + 1, 1)
    } else {
        (y + 1, 1, 1)
    }
}

/// `t`, read at an offset of `off` minutes east of UTC (less than a day either
/// way), moved to UTC; `None` where the year leaves 0 to 9999.
pub open spec fn to_utc(t: UtcDateTime, off: int) -> Option<UtcDateTime> {
    let mins = t.hour as int * 60 + t.minute as int - off;
    let ymd = if mins < 0 {
        day_before(t.year as int, t.month as int, t.day as int)
    } else if mins >= 1440 {
        day_after(t.year as int, t.month as int, t.day as int)
    } else {
        (t.year as int, t.month as int, t.day as int)
    };
    let m2 = if mins < 0 {
        mins + 1440
    } else if mins >= 1440 {
        mins - 1440
    } else {
        mins
    };
    if 0 <= ymd.0 <= 9999 {
        Some(
            date_time(
                ymd.0 as u32,
                ymd.1 as u32,
                ymd.2 as u32,
                (m2 / 60) as u32,
                (m2 % 60) as u32,
                t.second,
                t.microsecond,
            ),
        )
    } else {
        None
    }
}

/// The extended calendar text of `t`: `YYYY-MM-DDThh:mm:ss.ffffff+00:00`.
pub open spec fn iso_of(t: UtcDateTime) -> Seq<u8> {
    fixed_digits(t.year as nat, 4) + seq![45u8] + fixed_digits(t.month as nat, 2) + seq![45u8]
        + fixed_digits(t.day as nat, 2) + seq![84u8] + fixed_digits(t.hour as nat, 2) + seq![58u8]
        + fixed_digits(t.minute as nat, 2) + seq![58u8] + fixed_digits(t.second as nat, 2) + seq![
        46u8,
    ] + fixed_digits(t.microsecond as nat, 6) + utc_offset()
}

/// Reads an extended calendar string `YYYY-MM-DDThh:mm:ss`, with an optional
/// fraction `.f` of 1 to 6 digits, ended by a UTC offset (`Z` or `±hh:mm`), and
/// gives the instant in UTC.
pub open spec fn iso_parse(s: Seq<u8>) -> Option<UtcDateTime> {
    let body = s.subrange(0, s.len() - offset_len(s));
    let n = body.len() as int;
    let us: u32 = if n == 19 {
        0
    } else {
        fraction_micros(body.subrange(20, n)) as u32
    };
    let t = date_time(
        value_at(body, 0, 4),
        value_at(body, 5, 7),
        value_at(body, 8, 10),
        value_at(body, 11, 13),
        value_at(body, 14, 16),
        value_at(body, 17, 19),
        us,
    );
    if offset_len(s) > 0 && n >= 19 && body[4] == 45 && body[7] == 45 && body[10] == 84
        && body[13] == 58 && body[16] == 58 && digits_at(body, 0, 4) && digits_at(body, 5, 7)
        && digits_at(body, 8, 10) && digits_at(body, 11, 13) && digits_at(body, 14, 16)
        && digits_at(body, 17, 19) && (n == 19 || (21 <= n <= 26 && body[19] == 46 && digits_at(
        body,
        20,
        n,
    ))) && t.wf() {
        match to_utc(t, offset_minutes(s)) {
            Some(u) => if u.wf() {
                Some(u)
            } else {
                None
            },
            None => None,
        }
    } else {
        None
    }
}

fn is_leap(y: u32) -> (r: bool)
    ensures
        r == is_leap_year(y as int),
{
    (y % 4 == 0 && y % 100 != 0) || y % 400 == 0
}

fn month_length(y: u32, m: u32) -> (r: u32)
    ensures
        r == days_in_month(y as int, m as int),
{
    if m == 2 {
        if is_leap(y) {
            29
        } else {
            28
        }
    } else if m == 4 || m == 6 || m == 9 || m == 11 {
        30
    } else {
        31
    }
}

impl UtcDateTime {
    /// Valid calendar fields: a four-digit year, a day that exists in its month.
    pub open spec fn wf(self) -> bool {
        &&& self.year <= 9999
        &&& 1 <= self.month <= 12
        &&& 1 <= self.day <= days_in_month(self.year as int, self.month as int)
        &&& self.hour < 24
        &&& self.minute < 60
        &&& self.second < 60
        &&& self.microsecond < 1_000_000
    }

    /// Builds a date and time from its fields; `None` where they name no valid instant.
    pub fn new(
        year: u32,
        month: u32,
        day: u32,
        hour: u32,
        minute: u32,
        second: u32,
        microsecond: u32,
    ) -> (r: Option<UtcDateTime>)
        ensures
            r == (if date_time(year, month, day, hour, minute, second, microsecond).wf() {
                Some(date_time(year, month, day, hour, minute, second, microsecond))
            } else {
                None::<UtcDateTime>
            }),
    {
        if year <= 9999 && 1 <= month && month <= 12 && 1 <= day && day <= month_length(year, month)
            && hour < 24 && minute < 60 && second < 60 && microsecond < 1_000_000 {
            Some(UtcDateTime { year, month, day, hour, minute, second, microsecond })
        } else {
            None
        }
    }

    /// The extended calendar text of this instant, `YYYY-MM-DDThh:mm:ss.ffffff+00:00`.
    pub fn to_rfc3339(&self) -> (r: String)
        requires
            self.wf(),
        ensures
            r@ == vstd::utf8::decode_utf8(iso_of(*self)),
    {
        let bytes = serialize_date(self);
        proof {
            lemma_iso_ascii(*self);
        }
        match string_from_utf8(bytes) {
            Some(s) => s,
            None => String::new(),
        }
    }
}

proof fn lemma_fixed_ascii(v: nat, w: nat)
    ensures
        forall|i: int| 0 <= i < fixed_digits(v, w).len() ==> #[trigger] fixed_digits(v, w)[i] < 128,
{
    lemma_fixed_digits(v, w);
    assert forall|i: int| 0 <= i < fixed_digits(v, w).len() implies #[trigger] fixed_digits(
        v,
        w,
    )[i] < 128 by {
        assert(is_digit(fixed_digits(v, w)[i]));
    }
}

proof fn lemma_iso_ascii(t: UtcDateTime)
    ensures
        vstd::utf8::valid_utf8(iso_of(t)),
{
    lemma_fixed_ascii(t.year as nat, 4);
    lemma_fixed_ascii(t.month as nat, 2);
    lemma_fixed_ascii(t.day as nat, 2);
    lemma_fixed_ascii(t.hour as nat, 2);
    lemma_fixed_ascii(t.minute as nat, 2);
    lemma_fixed_ascii(t.second as nat, 2);
    lemma_fixed_ascii(t.microsecond as nat, 6);
    let s = iso_of(t);
    assert forall|i: int| 0 <= i < s.len() implies #[trigger] s[i] < 128 by {
    }
    lemma_ascii_valid_utf8(s);
}

/// Appends a number as two digits, with a leading zero below ten; a number of
/// 100 or more takes three digits.
pub fn push_with_leading_zero(result: &mut Vec<u8>, value: u8)
    ensures
        final(result)@ == old(result)@ + (if value < 100 {
            fixed_digits(value as nat, 2)
        } else {
            fixed_digits(value as nat, 3)
        }),
{
    if value < 10 {
        result.push(48);
        result.push(48 + value);
    } else if value < 100 {
        result.push(48 + value / 10);
        result.push(48 + value % 10);
    } else {
        result.push(48 + value / 100);
        result.push(48 + (value / 10) % 10);
        result.push(48 + value % 10);
    }
    proof {
        reveal_with_fuel(fixed_digits, 4);
    }
}

/// Writes the compact text of `dt` after its tag: `YYYYMMDDhhmmss` and the fraction.
fn date_time_to_string(result: &mut Vec<u8>, dt: &UtcDateTime)
    requires
        dt.wf(),
    ensures
        final(result)@ == old(result)@ + compact_of(*dt).drop_first(),
{
    push_fixed_digits(result, dt.year, 4);
    push_with_leading_zero(result, dt.month as u8);
    push_with_leading_zero(result, dt.day as u8);
    push_with_leading_zero(result, dt.hour as u8);
    push_with_leading_zero(result, dt.minute as u8);
    push_with_leading_zero(result, dt.second as u8);
    if dt.microsecond % 1000 == 0 {
        push_fixed_digits(result, dt.microsecond / 1000, 3);
    } else {
        push_fixed_digits(result, dt.microsecond, 6);
    }
    proof {
        assert(compact_of(*dt).drop_first() =~= fixed_digits(dt.year as nat, 4) + fixed_digits(
            dt.month as nat,
            2,
        ) + fixed_digits(dt.day as nat, 2) + fixed_digits(dt.hour as nat, 2) + fixed_digits(
            dt.minute as nat,
            2,
        ) + fixed_digits(dt.second as nat, 2) + compact_fraction(dt.microsecond as nat));
    }
}

/// The extended calendar text of `date`, `YYYY-MM-DDThh:mm:ss.ffffff+00:00`.
pub fn serialize_date(date: &UtcDateTime) -> (r: Vec<u8>)
    requires
        date.wf(),
    ensures
        r@ == iso_of(*date),
{
    let mut r: Vec<u8> = Vec::with_capacity(32);
    push_fixed_digits(&mut r, date.year, 4);
    r.push(45);
    push_with_leading_zero(&mut r, date.month as u8);
    r.push(45);
    push_with_leading_zero(&mut r, date.day as u8);
    r.push(84);
    push_with_leading_zero(&mut r, date.hour as u8);
    r.push(58);
    push_with_leading_zero(&mut r, date.minute as u8);
    r.push(58);
    push_with_leading_zero(&mut r, date.second as u8);
    r.push(46);
    push_fixed_digits(&mut r, date.microsecond, 6);
    r.push(43);
    r.push(48);
    r.push(48);
    r.push(58);
    r.push(48);
    r.push(48);
    proof {
        assert(r@ =~= iso_of(*date));
    }
    r
}

/// Reads `s[start..end]`, 1 to 6 digits, as a fraction of a second in microseconds.
fn parse_fraction(s: &[u8], start: usize, end: usize) -> (r: Option<u32>)
    requires
        start < end <= s@.len(),
        end - start <= 6,
    ensures
        r == (if digits_at(s@, start as int, end as int) {
            Some(fraction_micros(s@.subrange(start as int, end as int)) as u32)
        } else {
            None::<u32>
        }),
        r is Some ==> fraction_micros(s@.subrange(start as int, end as int)) < 1_000_000,
{
    let v = match parse_digits(s, start, end) {
        Some(v) => v,
        None => return None,
    };
    let n = end - start;
    proof {
        lemma_pow10_small();
    }
    let us: u32 = if n == 1 {
        v * 100_000
    } else if n == 2 {
        v * 10_000
    } else if n == 3 {
        v * 1000
    } else if n == 4 {
        v * 100
    } else if n == 5 {
        v * 10
    } else {
        v
    };
    proof {
        let sub = s@.subrange(start as int, end as int);
        let p = pow10((6 - n) as nat);
        assert(sub.len() == n);
        assert(digits_value(sub) == v as nat);
        let scale: nat = if n == 1 {
            100_000
        } else if n == 2 {
            10_000
        } else if n == 3 {
            1000
        } else if n == 4 {
            100
        } else if n == 5 {
            10
        } else {
            1
        };
        assert(p == scale);
        assert(us as nat == v as nat * scale);
        assert(digits_value(sub) * p == v as nat * scale);
        assert(fraction_micros(sub) == us as nat);
    }
    Some(us)
}

/// Reads a compact timestamp (see `compact_parse`).
pub fn parse_date_time(line: &[u8]) -> (r: Option<UtcDateTime>)
    ensures
        r == compact_parse(line@),
{
    let off: usize = if line.len() > 0 && line[0] == OUR_MARKER {
        1
    } else {
        0
    };
    let n = line.len() - off;
    if n < 15 || n > 20 {
        return None;
    }
    let ghost body = line@.subrange(off as int, line@.len() as int);
    let ghost o = off as int;
    proof {
        if off == 1 {
            assert(body =~= line@.drop_first());
        } else {
            assert(body =~= line@);
        }
        assert(body.subrange(0, 4) =~= line@.subrange(o, o + 4));
        assert(body.subrange(4, 6) =~= line@.subrange(o + 4, o + 6));
        assert(body.subrange(6, 8) =~= line@.subrange(o + 6, o + 8));
        assert(body.subrange(8, 10) =~= line@.subrange(o + 8, o + 10));
        assert(body.subrange(10, 12) =~= line@.subrange(o + 10, o + 12));
        assert(body.subrange(12, 14) =~= line@.subrange(o + 12, o + 14));
        assert(body.subrange(14, n as int) =~= line@.subrange(o + 14, line@.len() as int));
    }
    let year = match parse_digits(line, off, off + 4) {
        Some(v) => v,
        None => return None,
    };
    let month = match parse_digits(line, off + 4, off + 6) {
        Some(v) => v,
        None => return None,
    };
    let day = match parse_digits(line, off + 6, off + 8) {
        Some(v) => v,
        None => return None,
    };
    let hour = match parse_digits(line, off + 8, off + 10) {
        Some(v) => v,
        None => return None,
    };
    let minute = match parse_digits(line, off + 10, off + 12) {
        Some(v) => v,
        None => return None,
    };
    let second = match parse_digits(line, off + 12, off + 14) {
        Some(v) => v,
        None => return None,
    };
    let us = match parse_fraction(line, off + 14, line.len()) {
        Some(v) => v,
        None => return None,
    };
    UtcDateTime::new(year, month, day, hour, minute, second, us)
}

/// Reads an extended calendar string (see `iso_parse`).
pub fn deserialize_date(date: &[u8]) -> (r: Result<UtcDateTime, CodecError>)
    ensures
        r == (match iso_parse(date@) {
            Some(t) => Ok::<UtcDateTime, CodecError>(t),
            None => Err(CodecError::MalformedRecord),
        }),
{
    let len = date.len();
    let ghost s = date@;
    let mut off: usize = 0;
    let mut off_minutes: i64 = 0;
    if len >= 1 && date[len - 1] == 90 {
        off = 1;
    } else if len >= 6 && (date[len - 6] == 43 || date[len - 6] == 45) && date[len - 3] == 58 {
        if let Some(h) = parse_digits(date, len - 5, len - 3) {
            if let Some(m) = parse_digits(date, len - 2, len) {
                if h < 24 && m < 60 {
                    off = 6;
                    let v = (h * 60 + m) as i64;
                    off_minutes = if date[len - 6] == 43 {
                        v
                    } else {
                        -v
                    };
                }
            }
        }
    }
    assert(offset_len(s) == off as int);
    assert(offset_minutes(s) == off_minutes as int);
    if off == 0 {
        return Err(CodecError::MalformedRecord);
    }
    let n = len - off;
    if n < 19 {
        return Err(CodecError::MalformedRecord);
    }
    let ghost body = s.subrange(0, n as int);
    proof {
        assert(body.subrange(0, 4) =~= s.subrange(0, 4));
        assert(body.subrange(5, 7) =~= s.subrange(5, 7));
        assert(body.subrange(8, 10) =~= s.subrange(8, 10));
        assert(body.subrange(11, 13) =~= s.subrange(11, 13));
        assert(body.subrange(14, 16) =~= s.subrange(14, 16));
        assert(body.subrange(17, 19) =~= s.subrange(17, 19));
        if n >= 20 {
            assert(body.subrange(20, n as int) =~= s.subrange(20, n as int));
        }
    }
    if date[4] != 45 || date[7] != 45 || date[10] != 84 || date[13] != 58 || date[16] != 58 {
        return Err(CodecError::MalformedRecord);
    }
    let year = match parse_digits(date, 0, 4) {
        Some(v) => v,
        None => return Err(CodecError::MalformedRecord),
    };
    let month = match parse_digits(date, 5, 7) {
        Some(v) => v,
        None => return Err(CodecError::MalformedRecord),
    };
    let day = match parse_digits(date, 8, 10) {
        Some(v) => v,
        None => return Err(CodecError::MalformedRecord),
    };
    let hour = match parse_digits(date, 11, 13) {
        Some(v) => v,
        None => return Err(CodecError::MalformedRecord),
    };
    let minute = match parse_digits(date, 14, 16) {
        Some(v) => v,
        None => return Err(CodecError::MalformedRecord),
    };
    let second = match parse_digits(date, 17, 19) {
        Some(v) => v,
        None => return Err(CodecError::MalformedRecord),
    };
    let us: u32 = if n == 19 {
        0
    } else if n >= 21 && n <= 26 && date[19] == 46 {
        match parse_fraction(date, 20, n) {
            Some(v) => v,
            None => return Err(CodecError::MalformedRecord),
        }
    } else {
        return Err(CodecError::MalformedRecord);
    };
    let local = match UtcDateTime::new(year, month, day, hour, minute, second, us) {
        Some(t) => t,
        None => return Err(CodecError::MalformedRecord),
    };
    match shift_to_utc(&local, off_minutes) {
        Some(u) => Ok(u),
        None => Err(CodecError::MalformedRecord),
    }
}

/// Moves `t`, read at `off` minutes east of UTC, to UTC (see `to_utc`).
fn shift_to_utc(t: &UtcDateTime, off: i64) -> (r: Option<UtcDateTime>)
    requires
        t.wf(),
        -1440 < off < 1440,
    ensures
        r == (match to_utc(*t, off as int) {
            Some(u) => if u.wf() {
                Some(u)
            } else {
                None::<UtcDateTime>
            },
            None => None::<UtcDateTime>,
        }),
{
    let mins: i64 = t.hour as i64 * 60 + t.minute as i64 - off;
    let year = t.year as i64;
    let (y, m, d, m2): (i64, u32, u32, i64) = if mins < 0 {
        if t.day > 1 {
            (year, t.month, t.day - 1, mins + 1440)
        } else if t.month > 1 {
            (year, t.month - 1, month_length(t.year, t.month - 1), mins + 1440)
        } else {
            (year - 1, 12, 31, mins + 1440)
        }
    } else if mins >= 1440 {
        if t.day < month_length(t.year, t.month) {
            (year, t.month, t.day + 1, mins - 1440)
        } else if t.month < 12 {
            (year, t.month + 1, 1, mins - 1440)
        } else {
            (year + 1, 1, 1, mins - 1440)
        }
    } else {
        (year, t.month, t.day, mins)
    };
    if y < 0 || y > 9999 {
        return None;
    }
    UtcDateTime::new(y as u32, m, d, (m2 / 60) as u32, (m2 % 60) as u32, t.second, t.microsecond)
}

/// A timestamp in compact form, by its source.
#[derive(Clone, Copy, Debug, PartialEq, Eq, Structural)]
pub enum BidAskTcpDateTime {
    /// Stamped on this side of the feed.
    Our(UtcDateTime),
}

impl BidAskTcpDateTime {
    pub open spec fn date(self) -> UtcDateTime {
        match self {
            BidAskTcpDateTime::Our(d) => d,
        }
    }

    pub fn unwrap_as_our_date(&self) -> (r: &UtcDateTime)
        ensures
            *r == self.date(),
    {
        match self {
            BidAskTcpDateTime::Our(data) => data,
        }
    }

    /// Appends the compact text: tag, `YYYYMMDDhhmmss`, fraction.
    pub fn serialize(&self, dest: &mut Vec<u8>)
        requires
            self.date().wf(),
        ensures
            final(dest)@ == old(dest)@ + compact_of(self.date()),
    {
        match self {
            BidAskTcpDateTime::Our(date_time) => {
                dest.push(OUR_MARKER);
                date_time_to_string(dest, date_time);
                proof {
                    assert(compact_of(*date_time) =~= seq![OUR_MARKER] + compact_of(
                        *date_time,
                    ).drop_first());
                }
            },
        }
    }

    /// Reads a compact timestamp; `None` where `src` is out of its grammar.
    pub fn parse(src: &[u8]) -> (r: Option<BidAskTcpDateTime>)
        ensures
            r == (match compact_parse(src@) {
                Some(t) => Some(BidAskTcpDateTime::Our(t)),
                None => None::<BidAskTcpDateTime>,
            }),
    {
        match parse_date_time(src) {
            Some(t) => Some(BidAskTcpDateTime::Our(t)),
            None => None,
        }
    }
}

/// Reading back the compact text of a valid instant gives that instant.
pub proof fn lemma_compact_round_trip(t: UtcDateTime)
    requires
        t.wf(),
    ensures
        compact_parse(compact_of(t)) == Some(t),
{
    lemma_pow10_small();
    lemma_fixed_digits(t.year as nat, 4);
    lemma_fixed_digits(t.month as nat, 2);
    lemma_fixed_digits(t.day as nat, 2);
    lemma_fixed_digits(t.hour as nat, 2);
    lemma_fixed_digits(t.minute as nat, 2);
    lemma_fixed_digits(t.second as nat, 2);
    let us = t.microsecond as nat;
    lemma_fixed_digits(us / 1000, 3);
    lemma_fixed_digits(us, 6);
    let f = compact_fraction(us);
    let s = compact_of(t);
    let body = s.drop_first();
    assert(body =~= fixed_digits(t.year as nat, 4) + fixed_digits(t.month as nat, 2)
        + fixed_digits(t.day as nat, 2) + fixed_digits(t.hour as nat, 2) + fixed_digits(
        t.minute as nat,
        2,
    ) + fixed_digits(t.second as nat, 2) + f);
    assert(body.subrange(0, 4) =~= fixed_digits(t.year as nat, 4));
    assert(body.subrange(4, 6) =~= fixed_digits(t.month as nat, 2));
    assert(body.subrange(6, 8) =~= fixed_digits(t.day as nat, 2));
    assert(body.subrange(8, 10) =~= fixed_digits(t.hour as nat, 2));
    assert(body.subrange(10, 12) =~= fixed_digits(t.minute as nat, 2));
    assert(body.subrange(12, 14) =~= fixed_digits(t.second as nat, 2));
    assert(body.subrange(14, body.len() as int) =~= f);
    if us % 1000 == 0 {
        assert(fraction_micros(f) == (us / 1000) * 1000);
    } else {
        assert(fraction_micros(f) == us * 1);
    }
    assert(s[0] == OUR_MARKER);
}

proof fn lemma_iso_offset(t: UtcDateTime)
    ensures
        offset_len(iso_of(t)) == 6,
        offset_minutes(iso_of(t)) == 0,
{
    let s = iso_of(t);
    let n = s.len() as int;
    lemma_fixed_digits(t.year as nat, 4);
    lemma_fixed_digits(t.month as nat, 2);
    lemma_fixed_digits(t.day as nat, 2);
    lemma_fixed_digits(t.hour as nat, 2);
    lemma_fixed_digits(t.minute as nat, 2);
    lemma_fixed_digits(t.second as nat, 2);
    lemma_fixed_digits(t.microsecond as nat, 6);
    assert(n == 32);
    assert(s.subrange(n - 6, n) =~= utc_offset());
    assert(s.subrange(n - 5, n - 3) =~= seq![48u8, 48]);
    assert(s.subrange(n - 2, n) =~= seq![48u8, 48]);
    assert(seq![48u8, 48].drop_last() =~= seq![48u8]);
    assert(seq![48u8].drop_last() =~= Seq::<u8>::empty());
    assert(digits_value(Seq::<u8>::empty()) == 0);
    assert(digits_value(seq![48u8]) == 0);
    assert(digits_value(seq![48u8, 48]) == 0);
    assert(s[n - 6] == 43 && s[n - 3] == 58 && s[n - 1] == 48);
}

proof fn lemma_to_utc_zero(t: UtcDateTime)
    requires
        t.wf(),
    ensures
        to_utc(t, 0) == Some(t),
{
    let mins = t.hour as int * 60 + t.minute as int;
    assert(mins / 60 == t.hour as int && mins % 60 == t.minute as int);
}

/// Reading back the extended calendar text of a valid instant gives that instant.
pub proof fn lemma_iso_round_trip(t: UtcDateTime)
    requires
        t.wf(),
    ensures
        iso_parse(iso_of(t)) == Some(t),
{
    lemma_pow10_small();
    lemma_fixed_digits(t.year as nat, 4);
    lemma_fixed_digits(t.month as nat, 2);
    lemma_fixed_digits(t.day as nat, 2);
    lemma_fixed_digits(t.hour as nat, 2);
    lemma_fixed_digits(t.minute as nat, 2);
    lemma_fixed_digits(t.second as nat, 2);
    lemma_fixed_digits(t.microsecond as nat, 6);
    let s = iso_of(t);
    let n = s.len() as int;
    assert(n == 32);
    lemma_iso_offset(t);
    lemma_to_utc_zero(t);
    let body = s.subrange(0, n - 6);
    assert(body.subrange(0, 4) =~= fixed_digits(t.year as nat, 4));
    assert(body.subrange(5, 7) =~= fixed_digits(t.month as nat, 2));
    assert(body.subrange(8, 10) =~= fixed_digits(t.day as nat, 2));
    assert(body.subrange(11, 13) =~= fixed_digits(t.hour as nat, 2));
    assert(body.subrange(14, 16) =~= fixed_digits(t.minute as nat, 2));
    assert(body.subrange(17, 19) =~= fixed_digits(t.second as nat, 2));
    assert(body.subrange(20, 26) =~= fixed_digits(t.microsecond as nat, 6));
    assert(fraction_micros(body.subrange(20, 26)) == t.microsecond as nat * 1);
}

/// A compact timestamp's fraction of `n` digits stands for its value times
/// 10^(6 - n) microseconds: "1" and "100000" both mean 100000, "0" means 0.
pub proof fn lemma_fraction_scaling(head: Seq<u8>, f: Seq<u8>)
    requires
        head.len() == 15,
        head[0] == OUR_MARKER,
        1 <= f.len() <= 6,
    ensures
        compact_parse(head + f) matches Some(t) ==> all_digits(f) && t.microsecond as nat
            == digits_value(f) * pow10((6 - f.len()) as nat),
{
    let s = head + f;
    let body = s.drop_first();
    assert(body.subrange(14, body.len() as int) =~= f);
    if compact_parse(s) is Some {
        lemma_digits_bound(f);
        lemma_pow10_small();
        let v = digits_value(f);
        let n = f.len();
        if n == 1 {
            assert(v * pow10(5) < 1_000_000);
        } else if n == 2 {
            assert(v * pow10(4) < 1_000_000);
        } else if n == 3 {
            assert(v * pow10(3) < 1_000_000);
        } else if n == 4 {
            assert(v * pow10(2) < 1_000_000);
        } else if n == 5 {
            assert(v * pow10(1) < 1_000_000);
        } else {
            assert(v * pow10(0) < 1_000_000);
        }
    }
}

} // verus!
