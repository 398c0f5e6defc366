//! The timestamp carried by every note: a calendar date and time of day at
//! second precision, together with a fixed UTC offset.
//!
//! On disk a date is written in the fixed-width form `YYYY-MM-DD HH:MM:SS +HHMM`.
//! Formatting and parsing of that form are verified here; only reading the
//! current wall-clock time relies on an outside crate.

use crate::digits::digit_char;
use crate::digits::digit_val;
use crate::digits::is_digit;
use crate::digits::push_2dig;
use crate::digits::push_4dig;
use chrono::Datelike;
use chrono::Timelike;
use vstd::prelude::*;

verus! {

/// A timestamp with a fixed UTC offset, second precision.
#[derive(Clone, Copy, PartialEq, Eq, Structural, Debug)]
pub struct NoteDate {
    pub year: i32,
    pub month: u32,
    pub day: u32,
    pub hour: u32,
    pub minute: u32,
    pub second: u32,
    /// Offset of the local time from UTC, in seconds east of UTC.
    pub offset_seconds: i32,
}

pub open spec fn is_leap_year(y: int) -> bool {
    (y % 4 == 0 && y % 100 != 0) || y % 400 == 0
}

pub open spec fn days_in_month(y: int, m: int) -> int {
    if m == 2 {
        if is_leap_year(y) {
            29
        } else {
            28
        }
    } else if m == 4 || m == 6 || m == 9 || m == 11 {
        30
    } else {
        31
    }
}

impl NoteDate {
    /// A date the store accepts: a real calendar date whose fields fit the
    /// fixed-width on-disk form, with a whole-minute offset below one day.
    pub open spec fn wf(self) -> bool {
        &&& 0 <= self.year <= 9999
        &&& 1 <= self.month <= 12
        &&& 1 <= self.day <= days_in_month(self.year as int, self.month as int)
        &&& self.hour <= 23
        &&& self.minute <= 59
        &&& self.second <= 59
        &&& -86340 <= self.offset_seconds <= 86340
        &&& self.offset_seconds % 60 == 0
    }
}

/// Runtime form of `NoteDate::wf`, for callers outside verified code.
pub fn date_wf(d: &NoteDate) -> (r: bool)
    ensures
        r == d.wf(),
{
    let leap: bool = (d.year % 4 == 0 && d.year % 100 != 0) || d.year % 400 == 0;
    let dim: u32 = if d.month == 2 {
        if leap {
            29
        } else {
            28
        }
    } else if d.month == 4 || d.month == 6 || d.month == 9 || d.month == 11 {
        30
    } else {
        31
    };
    0 <= d.year && d.year <= 9999 && 1 <= d.month && d.month <= 12 && 1 <= d.day && d.day <= dim
        && d.hour <= 23 && d.minute <= 59 && d.second <= 59 && -86340 <= d.offset_seconds
        && d.offset_seconds <= 86340 && d.offset_seconds % 60 == 0
}

/// The on-disk form of a date: `YYYY-MM-DD HH:MM:SS +HHMM`, fixed width,
/// with the offset's sign, hours and minutes written out.
pub open spec fn spec_format_date(d: NoteDate) -> Seq<char> {
    let y = d.year as int;
    let mo = d.month as int;
    let da = d.day as int;
    let h = d.hour as int;
    let mi = d.minute as int;
    let se = d.second as int;
    let off = if d.offset_seconds >= 0 {
        d.offset_seconds as int
    } else {
        -(d.offset_seconds as int)
    };
    let oh = off / 3600;
    let om = (off / 60) % 60;
    seq![
        digit_char(y / 1000 % 10),
        digit_char(y / 100 % 10),
        digit_char(y / 10 % 10),
        digit_char(y % 10),
        '-',
        digit_char(mo / 10),
        digit_char(mo % 10),
        '-',
        digit_char(da / 10),
        digit_char(da % 10),
        ' ',
        digit_char(h / 10),
        digit_char(h % 10),
        ':',
        digit_char(mi / 10),
        digit_char(mi % 10),
        ':',
        digit_char(se / 10),
        digit_char(se % 10),
        ' ',
        if d.offset_seconds >= 0 {
            '+'
        } else {
            '-'
        },
        digit_char(oh / 10),
        digit_char(oh % 10),
        digit_char(om / 10),
        digit_char(om % 10),
    ]
}

/// How a date field is read back: the fixed-width form above, and nothing
/// else; the calendar fields must be in range for a real date.
pub open spec fn spec_parse_date(s: Seq<char>) -> Option<NoteDate> {
    if s.len() == 25 && is_digit(s[0]) && is_digit(s[1]) && is_digit(s[2]) && is_digit(s[3]) && s[4]
        == '-' && is_digit(s[5]) && is_digit(s[6]) && s[7] == '-' && is_digit(s[8]) && is_digit(
        s[9],
    ) && s[10] == ' ' && is_digit(s[11]) && is_digit(s[12]) && s[13] == ':' && is_digit(s[14])
        && is_digit(s[15]) && s[16] == ':' && is_digit(s[17]) && is_digit(s[18]) && s[19] == ' '
        && (s[20] == '+' || s[20] == '-') && is_digit(s[21]) && is_digit(s[22]) && is_digit(s[23])
        && is_digit(s[24]) {
        let y = digit_val(s[0]) * 1000 + digit_val(s[1]) * 100 + digit_val(s[2]) * 10 + digit_val(
            s[3],
        );
        let mo = digit_val(s[5]) * 10 + digit_val(s[6]);
        let da = digit_val(s[8]) * 10 + digit_val(s[9]);
        let h = digit_val(s[11]) * 10 + digit_val(s[12]);
        let mi = digit_val(s[14]) * 10 + digit_val(s[15]);
        let se = digit_val(s[17]) * 10 + digit_val(s[18]);
        let oh = digit_val(s[21]) * 10 + digit_val(s[22]);
        let om = digit_val(s[23]) * 10 + digit_val(s[24]);
        let mag = oh * 3600 + om * 60;
        let off = if s[20] == '-' {
            -mag
        } else {
            mag
        };
        if 1 <= mo <= 12 && 1 <= da <= days_in_month(y, mo) && h <= 23 && mi <= 59 && se <= 59 && oh
            <= 23 && om <= 59 {
            Some(
                NoteDate {
                    year: y as i32,
                    month: mo as u32,
                    day: da as u32,
                    hour: h as u32,
                    minute: mi as u32,
                    second: se as u32,
                    offset_seconds: off as i32,
                },
            )
        } else {
            None
        }
    } else {
        None
    }
}

/// Appends the on-disk form of `d` to `out`.
#[verifier::rlimit(100)]
pub fn push_date(out: &mut String, d: &NoteDate)
    requires
        d.wf(),
    ensures
        final(out)@ == old(out)@ + spec_format_date(*d),
{
    proof {
        reveal_strlit("-");
        reveal_strlit(" ");
        reveal_strlit(":");
        reveal_strlit("+");
    }
    let ghost s = spec_format_date(*d);
    let ghost o = out@;
    let y = d.year as u32;
    push_4dig(out, y);
    out.append("-");
    push_2dig(out, d.month);
    proof {
        assert(out@ =~= o + s.take(7));
    }
    out.append("-");
    push_2dig(out, d.day);
    out.append(" ");
    proof {
        assert(out@ =~= o + s.take(11));
    }
    push_2dig(out, d.hour);
    out.append(":");
    push_2dig(out, d.minute);
    proof {
        assert(out@ =~= o + s.take(16));
    }
    out.append(":");
    push_2dig(out, d.second);
    out.append(" ");
    proof {
        assert(out@ =~= o + s.take(20));
    }
    let off: i32 = if d.offset_seconds >= 0 {
        out.append("+");
        d.offset_seconds
    } else {
        out.append("-");
        -d.offset_seconds
    };
    proof {
        assert(out@ =~= o + s.take(21));
    }
    let oh: u32 = (off / 3600) as u32;
    let om: u32 = ((off / 60) % 60) as u32;
    push_2dig(out, oh);
    push_2dig(out, om);
    proof {
        assert(out@ =~= o + s);
    }
}

fn dig_at(s: &str, i: usize) -> (r: Option<u32>)
    requires
        i < s@.len(),
    ensures
        match r {
            Some(v) => is_digit(s@[i as int]) && v == digit_val(s@[i as int]) && v <= 9,
            None => !is_digit(s@[i as int]),
        },
{
    let c = s.get_char(i);
    let cv = c as u32;
    if 48 <= cv && cv <= 57 {
        Some(cv - 48)
    } else {
        None
    }
}

/// Reads a date field, accepting exactly the fixed-width on-disk form.
pub fn parse_date(s: &str) -> (r: Option<NoteDate>)
    ensures
        r == spec_parse_date(s@),
{
    proof {
        reveal_strlit("-");
        reveal_strlit(" ");
        reveal_strlit(":");
        reveal_strlit("+");
    }
    let len = s.unicode_len();
    if len != 25 {
        return None;
    }
    if !(s.get_char(4) == '-' && s.get_char(7) == '-' && s.get_char(10) == ' ' && s.get_char(13)
        == ':' && s.get_char(16) == ':' && s.get_char(19) == ' ') {
        return None;
    }
    let sign = s.get_char(20);
    if !(sign == '+' || sign == '-') {
        return None;
    }
    let d0 = dig_at(s, 0);
    let d1 = dig_at(s, 1);
    let d2 = dig_at(s, 2);
    let d3 = dig_at(s, 3);
    let d5 = dig_at(s, 5);
    let d6 = dig_at(s, 6);
    let d8 = dig_at(s, 8);
    let d9 = dig_at(s, 9);
    let d11 = dig_at(s, 11);
    let d12 = dig_at(s, 12);
    let d14 = dig_at(s, 14);
    let d15 = dig_at(s, 15);
    let d17 = dig_at(s, 17);
    let d18 = dig_at(s, 18);
    let d21 = dig_at(s, 21);
    let d22 = dig_at(s, 22);
    let d23 = dig_at(s, 23);
    let d24 = dig_at(s, 24);
    match (d0, d1, d2, d3, d5, d6, d8, d9) {
        (
            Some(v0),
            Some(v1),
            Some(v2),
            Some(v3),
            Some(v5),
            Some(v6),
            Some(v8),
            Some(v9),
        ) => match (d11, d12, d14, d15, d17, d18, d21, d22, d23, d24) {
            (
                Some(v11),
                Some(v12),
                Some(v14),
                Some(v15),
                Some(v17),
                Some(v18),
                Some(v21),
                Some(v22),
                Some(v23),
                Some(v24),
            ) => {
                let y = v0 * 1000 + v1 * 100 + v2 * 10 + v3;
                let mo = v5 * 10 + v6;
                let da = v8 * 10 + v9;
                let h = v11 * 10 + v12;
                let mi = v14 * 10 + v15;
                let se = v17 * 10 + v18;
                let oh = v21 * 10 + v22;
                let om = v23 * 10 + v24;
                if !(1 <= mo && mo <= 12) {
                    return None;
                }
                let dim = days_in_month_x(y as i32, mo);
                if !(1 <= da && da <= dim && h <= 23 && mi <= 59 && se <= 59 && oh <= 23 && om
                    <= 59) {
                    return None;
                }
                let mag: i32 = (oh * 3600 + om * 60) as i32;
                let off: i32 = if sign == '-' {
                    -mag
                } else {
                    mag
                };
                Some(
                    NoteDate {
                        year: y as i32,
                        month: mo,
                        day: da,
                        hour: h,
                        minute: mi,
                        second: se,
                        offset_seconds: off,
                    },
                )
            },
            _ => None,
        },
        _ => None,
    }
}

fn days_in_month_x(y: i32, m: u32) -> (r: u32)
    requires
        0 <= y,
        1 <= m <= 12,
    ensures
        r == days_in_month(y as int, m as int),
{
    if m == 2 {
        if (y % 4 == 0 && y % 100 != 0) || y % 400 == 0 {
            29
        } else {
            28
        }
    } else if m == 4 || m == 6 || m == 9 || m == 11 {
        30
    } else {
        31
    }
}

/// A two-digit split recombines to the value.
proof fn lemma_two_digits(v: int)
    requires
        0 <= v <= 99,
    ensures
        v / 10 * 10 + v % 10 == v,
        0 <= v / 10 <= 9,
        0 <= v % 10 <= 9,
{
    vstd::arithmetic::div_mod::lemma_fundamental_div_mod(v, 10);
}

/// A four-digit split recombines to the value.
proof fn lemma_four_digits(v: int)
    requires
        0 <= v <= 9999,
    ensures
        v / 1000 % 10 * 1000 + v / 100 % 10 * 100 + v / 10 % 10 * 10 + v % 10 == v,
        0 <= v / 1000 % 10 <= 9,
        0 <= v / 100 % 10 <= 9,
        0 <= v / 10 % 10 <= 9,
        0 <= v % 10 <= 9,
{
    vstd::arithmetic::div_mod::lemma_fundamental_div_mod(v, 10);
    vstd::arithmetic::div_mod::lemma_fundamental_div_mod(v / 10, 10);
    vstd::arithmetic::div_mod::lemma_fundamental_div_mod(v / 100, 10);
    vstd::arithmetic::div_mod::lemma_div_denominator(v, 10, 10);
    vstd::arithmetic::div_mod::lemma_div_denominator(v, 100, 10);
    assert(v / 1000 <= 9) by {
        vstd::arithmetic::div_mod::lemma_div_is_ordered(v, 9999, 1000);
    }
    assert(v / 1000 >= 0) by {
        vstd::arithmetic::div_mod::lemma_div_pos_is_pos(v, 1000);
    }
    assert(v / 1000 % 10 == v / 1000) by {
        vstd::arithmetic::div_mod::lemma_small_mod((v / 1000) as nat, 10);
    }
}

/// A whole-minute offset magnitude recombines from its hour and minute parts.
proof fn lemma_offset_digits(off: int)
    requires
        0 <= off <= 86340,
        off % 60 == 0,
    ensures
        (off / 3600) * 3600 + ((off / 60) % 60) * 60 == off,
        0 <= off / 3600 <= 23,
        0 <= (off / 60) % 60 <= 59,
{
    vstd::arithmetic::div_mod::lemma_fundamental_div_mod(off, 60);
    vstd::arithmetic::div_mod::lemma_fundamental_div_mod(off / 60, 60);
    vstd::arithmetic::div_mod::lemma_div_denominator(off, 60, 60);
    assert(off / 3600 <= 23) by {
        vstd::arithmetic::div_mod::lemma_div_is_ordered(off, 86340, 3600);
    }
    assert(off / 3600 >= 0) by {
        vstd::arithmetic::div_mod::lemma_div_pos_is_pos(off, 3600);
    }
}

/// Reading back a formatted date recovers it exactly.
#[verifier::rlimit(100)]
pub proof fn lemma_date_round_trip(d: NoteDate)
    requires
        d.wf(),
    ensures
        spec_parse_date(spec_format_date(d)) == Some(d),
{
    let s = spec_format_date(d);
    let y = d.year as int;
    let off = if d.offset_seconds >= 0 {
        d.offset_seconds as int
    } else {
        -(d.offset_seconds as int)
    };
    let oh = off / 3600;
    let om = (off / 60) % 60;
    assert(off % 60 == 0) by {
        let q = d.offset_seconds as int / 60;
        vstd::arithmetic::div_mod::lemma_fundamental_div_mod(d.offset_seconds as int, 60);
        assert(off == if d.offset_seconds >= 0 {
            q * 60
        } else {
            (-q) * 60
        });
        vstd::arithmetic::div_mod::lemma_mod_multiples_basic(q, 60);
        vstd::arithmetic::div_mod::lemma_mod_multiples_basic(-q, 60);
    }
    lemma_four_digits(y);
    lemma_two_digits(d.month as int);
    lemma_two_digits(d.day as int);
    lemma_two_digits(d.hour as int);
    lemma_two_digits(d.minute as int);
    lemma_two_digits(d.second as int);
    lemma_offset_digits(off);
    lemma_two_digits(oh);
    lemma_two_digits(om);
    assert(s.len() == 25);
    assert(spec_parse_date(s) == Some(d));
}

/// No character of a formatted date can be mistaken for a delimiter
/// character of the log format.
pub proof fn lemma_format_date_clean(d: NoteDate)
    requires
        d.wf(),
    ensures
        !spec_format_date(d).contains('\u{a7}'),
        !spec_format_date(d).contains('\n'),
{
    let s = spec_format_date(d);
    assert forall|i: int| 0 <= i < s.len() implies s[i] != '\u{a7}' && s[i] != '\n' by {
        assert(s.len() == 25);
    }
    assert(!s.contains('\u{a7}'));
    assert(!s.contains('\n'));
}

/// Relies on `chrono::Local::now` and the `Datelike`/`Timelike`/offset
/// accessors: the current wall-clock time, split into calendar fields, with
/// the documented field ranges (month 1..=12, day 1..=31, hour 0..=23,
/// minute and second 0..=59, offset strictly within one day of UTC).
#[verifier::external_body]
pub fn now_date() -> (d: NoteDate)
    ensures
        1 <= d.month <= 12,
        1 <= d.day <= 31,
        d.hour <= 23,
        d.minute <= 59,
        d.second <= 59,
        -86399 <= d.offset_seconds <= 86399,
{
    let now = chrono::Local::now();
    NoteDate {
        year: now.year(),
        month: now.month(),
        day: now.day(),
        hour: now.hour(),
        minute: now.minute(),
        second: now.second(),
        offset_seconds: now.offset().local_minus_utc(),
    }
}

} // verus!
