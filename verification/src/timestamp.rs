//! The timestamp codec: decodes the RFC 3339 profile of ISO 8601 — full
//! date, literal `T`, time of day with any number of fractional-second
//! digits, and a zone of `Z` or a signed `HH:MM` offset — normalizing to an
//! instant in UTC at microsecond resolution. Encoding always emits exactly
//! six fractional digits and the `Z` suffix.

use vstd::prelude::*;
use vstd::string::StringExecFns;

use crate::errors::ParseError;
use crate::text::all_digits;
use crate::text::chars_to_string;
use crate::text::dec_chars_to_u64;
use crate::text::dec_val;
use crate::text::is_digit;
use crate::text::lemma_dec_val_bound;
use crate::text::lemma_pad_str_val;
use crate::text::pad_str;
use crate::text::pow10;
use crate::text::str_to_chars;
use crate::text::u64_to_pad_chars;
use crate::json::digits_end;

verus! {

/// An absolute instant, held as its civil fields in UTC. Two equal instants
/// always have equal fields, whatever notation they were decoded from.
#[derive(Clone, Copy, Debug, PartialEq, Eq, Structural)]
pub struct Timestamp {
    pub year: u32,
    pub month: u8,
    pub day: u8,
    pub hour: u8,
    pub minute: u8,
    pub second: u8,
    pub micros: u32,
}

pub open spec fn is_leap_year(y: int) -> bool {
    y % 4 == 0 && (y % 100 != 0 || y % 400 == 0)
}

pub open spec fn days_in_month(y: int, m: int) -> int {
    if m == 2 {
        if is_leap_year(y) {
            29
        } else {
            28
        }
    } else if m == 4 || m == 6 || m == 9 || m == 11 {
        30
    } else {
        31
    }
}

/// A well-formed instant: a real calendar date of the years `0 ..= 9999` and
/// a real time of day with microsecond fraction.
pub open spec fn ts_wf(t: Timestamp) -> bool {
    &&& t.year <= 9999
    &&& 1 <= t.month <= 12
    &&& 1 <= t.day <= days_in_month(t.year as int, t.month as int)
    &&& t.hour <= 23
    &&& t.minute <= 59
    &&& t.second <= 59
    &&& t.micros < 1000000
}

/// The canonical encoding: date, `T`, time, six fractional digits, `Z`.
pub open spec fn spec_ts_encode(t: Timestamp) -> Seq<char> {
    pad_str(t.year as int, 4) + seq!['-'] + pad_str(t.month as int, 2) + seq!['-'] + pad_str(
        t.day as int,
        2,
    ) + seq!['T'] + pad_str(t.hour as int, 2) + seq![':'] + pad_str(t.minute as int, 2)
        + seq![':'] + pad_str(t.second as int, 2) + seq!['.'] + pad_str(t.micros as int, 6)
        + seq!['Z']
}

pub open spec fn spec_ts_expected() -> Seq<char> {
    "a timestamp of the RFC 3339 profile"@
}

/// All of the `k` characters from `i` on are digits.
pub open spec fn digits_at(s: Seq<char>, i: int, k: int) -> bool {
    forall|t: int| i <= t < i + k ==> is_digit(#[trigger] s[t])
}

/// The value of the `k` digits at `i`.
pub open spec fn val_at(s: Seq<char>, i: int, k: int) -> int {
    dec_val(s.subrange(i, i + k))
}

/// The calendar day after a day.
pub open spec fn spec_date_next(y: int, m: int, d: int) -> (int, int, int) {
    if d < days_in_month(y, m) {
        (y, m, d + 1)
    } else if m < 12 {
        (y, m + 1, 1)
    } else {
        (y + 1, 1, 1)
    }
}

/// The calendar day before a day.
pub open spec fn spec_date_prev(y: int, m: int, d: int) -> (int, int, int) {
    if d > 1 {
        (y, m, d - 1)
    } else if m > 1 {
        (y, m - 1, days_in_month(y, m - 1))
    } else {
        (y - 1, 12, 31)
    }
}

/// Normalizes a decoded local time to UTC by adding `delta` minutes, moving
/// at most one calendar day, and rejects an instant that leaves the
/// representable years.
pub open spec fn spec_ts_finish(
    y: int,
    mo: int,
    d: int,
    h: int,
    mi: int,
    sec: int,
    us: int,
    delta: int,
) -> Option<Timestamp> {
    let total = h * 60 + mi + delta;
    if 0 <= total < 1440 {
        Some(
            Timestamp {
                year: y as u32,
                month: mo as u8,
                day: d as u8,
                hour: (total / 60) as u8,
                minute: (total % 60) as u8,
                second: sec as u8,
                micros: us as u32,
            },
        )
    } else if total < 0 {
        let (py, pm, pd) = spec_date_prev(y, mo, d);
        if py < 0 {
            None
        } else {
            Some(
                Timestamp {
                    year: py as u32,
                    month: pm as u8,
                    day: pd as u8,
                    hour: ((total + 1440) / 60) as u8,
                    minute: ((total + 1440) % 60) as u8,
                    second: sec as u8,
                    micros: us as u32,
                },
            )
        }
    } else {
        let (ny, nm, nd) = spec_date_next(y, mo, d);
        if ny > 9999 {
            None
        } else {
            Some(
                Timestamp {
                    year: ny as u32,
                    month: nm as u8,
                    day: nd as u8,
                    hour: ((total - 1440) / 60) as u8,
                    minute: ((total - 1440) % 60) as u8,
                    second: sec as u8,
                    micros: us as u32,
                },
            )
        }
    }
}

/// The microsecond value of the fraction written as the digits `[20, fe)`,
/// truncated beyond six digits, or `-1` for an empty fraction.
pub open spec fn spec_frac_micros(s: Seq<char>, fe: int) -> int {
    if fe <= 20 {
        -1
    } else if fe - 20 >= 6 {
        dec_val(s.subrange(20, 26))
    } else {
        dec_val(s.subrange(20, fe)) * pow10((6 - (fe - 20)) as nat)
    }
}

/// The instant a text decodes to, or `None` when the text does not conform
/// to the accepted profile.
pub open spec fn spec_ts_decode(s: Seq<char>) -> Option<Timestamp> {
    if s.len() < 20 {
        None
    } else if !(digits_at(s, 0, 4) && s[4] == '-' && digits_at(s, 5, 2) && s[7] == '-'
        && digits_at(s, 8, 2) && s[10] == 'T' && digits_at(s, 11, 2) && s[13] == ':' && digits_at(
        s,
        14,
        2,
    ) && s[16] == ':' && digits_at(s, 17, 2)) {
        None
    } else {
        let year = val_at(s, 0, 4);
        let month = val_at(s, 5, 2);
        let day = val_at(s, 8, 2);
        let hour = val_at(s, 11, 2);
        let minute = val_at(s, 14, 2);
        let second = val_at(s, 17, 2);
        if !(1 <= month <= 12 && 1 <= day <= days_in_month(year, month) && hour <= 23 && minute
            <= 59 && second <= 59) {
            None
        } else {
            let micros = if s[19] == '.' {
                spec_frac_micros(s, digits_end(s, 20))
            } else {
                0
            };
            let tz = if s[19] == '.' {
                digits_end(s, 20)
            } else {
                19
            };
            if micros < 0 || tz >= s.len() {
                None
            } else if s[tz] == 'Z' {
                if s.len() == tz + 1 {
                    spec_ts_finish(year, month, day, hour, minute, second, micros, 0)
                } else {
                    None
                }
            } else if s[tz] == '+' || s[tz] == '-' {
                if s.len() == tz + 6 && digits_at(s, tz + 1, 2) && s[tz + 3] == ':' && digits_at(
                    s,
                    tz + 4,
                    2,
                ) {
                    let oh = val_at(s, tz + 1, 2);
                    let om = val_at(s, tz + 4, 2);
                    if oh <= 23 && om <= 59 {
                        let delta = if s[tz] == '+' {
                            -(oh * 60 + om)
                        } else {
                            oh * 60 + om
                        };
                        spec_ts_finish(year, month, day, hour, minute, second, micros, delta)
                    } else {
                        None
                    }
                } else {
                    None
                }
            } else {
                None
            }
        }
    }
}

/// Every well-formed instant round-trips exactly: decoding its canonical
/// encoding gives back the same instant.
pub proof fn lemma_ts_round_trip(t: Timestamp)
    requires
        ts_wf(t),
    ensures
        spec_ts_decode(spec_ts_encode(t)) == Some(t),
{
    let s = spec_ts_encode(t);
    reveal_with_fuel(pow10, 7);
    lemma_pad_str_val(t.year as int, 4);
    lemma_pad_str_val(t.month as int, 2);
    lemma_pad_str_val(t.day as int, 2);
    lemma_pad_str_val(t.hour as int, 2);
    lemma_pad_str_val(t.minute as int, 2);
    lemma_pad_str_val(t.second as int, 2);
    lemma_pad_str_val(t.micros as int, 6);
    assert(s.len() == 27);
    assert(s.subrange(0, 4) =~= pad_str(t.year as int, 4));
    assert(s.subrange(5, 7) =~= pad_str(t.month as int, 2));
    assert(s.subrange(8, 10) =~= pad_str(t.day as int, 2));
    assert(s.subrange(11, 13) =~= pad_str(t.hour as int, 2));
    assert(s.subrange(14, 16) =~= pad_str(t.minute as int, 2));
    assert(s.subrange(17, 19) =~= pad_str(t.second as int, 2));
    assert(s.subrange(20, 26) =~= pad_str(t.micros as int, 6));
    assert(s[4] == '-' && s[7] == '-' && s[10] == 'T' && s[13] == ':' && s[16] == ':' && s[19]
        == '.' && s[26] == 'Z');
    assert(digits_at(s, 0, 4)) by {
        assert(forall|k: int| 0 <= k < 4 ==> s[k] == s.subrange(0, 4)[k]);
    }
    assert(digits_at(s, 5, 2)) by {
        assert(forall|k: int| 5 <= k < 7 ==> s[k] == s.subrange(5, 7)[k - 5]);
    }
    assert(digits_at(s, 8, 2)) by {
        assert(forall|k: int| 8 <= k < 10 ==> s[k] == s.subrange(8, 10)[k - 8]);
    }
    assert(digits_at(s, 11, 2)) by {
        assert(forall|k: int| 11 <= k < 13 ==> s[k] == s.subrange(11, 13)[k - 11]);
    }
    assert(digits_at(s, 14, 2)) by {
        assert(forall|k: int| 14 <= k < 16 ==> s[k] == s.subrange(14, 16)[k - 14]);
    }
    assert(digits_at(s, 17, 2)) by {
        assert(forall|k: int| 17 <= k < 19 ==> s[k] == s.subrange(17, 19)[k - 17]);
    }
    assert(val_at(s, 0, 4) == t.year);
    assert(val_at(s, 5, 2) == t.month);
    assert(val_at(s, 8, 10 - 8) == t.day);
    assert(val_at(s, 11, 2) == t.hour);
    assert(val_at(s, 14, 2) == t.minute);
    assert(val_at(s, 17, 2) == t.second);
    crate::json::lemma_digits_end_run(s, 20, 26);
    assert(forall|k: int| 20 <= k < 26 ==> is_digit(#[trigger] s[k])) by {
        assert(forall|k: int| 20 <= k < 26 ==> s[k] == s.subrange(20, 26)[k - 20]);
    }
    assert(digits_end(s, 20) == 26);
    assert(spec_frac_micros(s, 26) == t.micros);
    let total = t.hour * 60 + t.minute;
    assert(0 <= total < 1440);
    assert(total / 60 == t.hour && total % 60 == t.minute) by (nonlinear_arith)
        requires
            total == t.hour * 60 + t.minute,
            0 <= t.minute < 60,
            0 <= t.hour,
    ;
    assert(spec_ts_finish(
        t.year as int,
        t.month as int,
        t.day as int,
        t.hour as int,
        t.minute as int,
        t.second as int,
        t.micros as int,
        0,
    ) == Some(t));
}

/// The number of days of a month.
fn days_in_month_exec(y: u32, m: u8) -> (r: u8)
    requires
        1 <= m <= 12,
    ensures
        r as int == days_in_month(y as int, m as int),
        28 <= r <= 31,
{
    if m == 2 {
        if y % 4 == 0 && (y % 100 != 0 || y % 400 == 0) {
            29
        } else {
            28
        }
    } else if m == 4 || m == 6 || m == 9 || m == 11 {
        30
    } else {
        31
    }
}

/// Reads the fixed-width digit run `[from, to)`, or reports that one of the
/// characters is not a digit.
fn read_fixed(s: &Vec<char>, from: usize, to: usize) -> (r: Option<u64>)
    requires
        from <= to <= s@.len(),
        to - from <= 10,
    ensures
        match r {
            Some(v) => digits_at(s@, from as int, to - from) && v as int == val_at(
                s@,
                from as int,
                to - from,
            ),
            None => !digits_at(s@, from as int, to - from),
        },
{
    let mut i = from;
    while i < to
        invariant
            from <= i <= to <= s@.len(),
            forall|t: int| from <= t < i ==> is_digit(#[trigger] s@[t]),
        decreases to - i,
    {
        let c = s[i];
        if !(c >= '0' && c <= '9') {
            return None;
        }
        i = i + 1;
    }
    let ghost sub = s@.subrange(from as int, to as int);
    proof {
        assert(all_digits(sub)) by {
            assert(forall|t: int| 0 <= t < sub.len() ==> sub[t] == s@[t + from]);
        }
        lemma_dec_val_bound(sub);
        crate::text::lemma_pow10_mono(sub.len(), 10);
        reveal_with_fuel(pow10, 11);
        assert(pow10(10) == 10000000000);
    }
    match dec_chars_to_u64(s, from, to) {
        Some(v) => Some(v),
        None => {
            proof {
                assert(false);
            }
            None
        },
    }
}

/// Builds the codec error every malformed timestamp is rejected with.
fn ts_err(s: &str) -> (e: ParseError)
    ensures
        e matches ParseError::CodecError { offending, expected } && offending@ == s@ && expected@
            == spec_ts_expected(),
{
    ParseError::CodecError {
        offending: String::from_str(s),
        expected: String::from_str("a timestamp of the RFC 3339 profile"),
    }
}

impl Timestamp {
    /// Encodes the instant canonically: six fractional digits, `Z` zone.
    pub fn encode(&self) -> (r: String)
        requires
            ts_wf(*self),
        ensures
            r@ == spec_ts_encode(*self),
    {
        let mut v = u64_to_pad_chars(self.year as u64, 4);
        v.push('-');
        let mut p = u64_to_pad_chars(self.month as u64, 2);
        v.append(&mut p);
        v.push('-');
        let mut p = u64_to_pad_chars(self.day as u64, 2);
        v.append(&mut p);
        v.push('T');
        let mut p = u64_to_pad_chars(self.hour as u64, 2);
        v.append(&mut p);
        v.push(':');
        let mut p = u64_to_pad_chars(self.minute as u64, 2);
        v.append(&mut p);
        v.push(':');
        let mut p = u64_to_pad_chars(self.second as u64, 2);
        v.append(&mut p);
        v.push('.');
        let mut p = u64_to_pad_chars(self.micros as u64, 6);
        v.append(&mut p);
        v.push('Z');
        proof {
            assert(v@ =~= spec_ts_encode(*self));
        }
        chars_to_string(&v)
    }

    /// Decodes a text of the accepted profile into its UTC instant; any
    /// other text is rejected with a codec error carrying the text.
    #[verifier::rlimit(100)]
    #[verifier::spinoff_prover]
    pub fn decode(s: &str) -> (r: Result<Timestamp, ParseError>)
        ensures
            match r {
                Ok(t) => spec_ts_decode(s@) == Some(t) && ts_wf(t),
                Err(e) => {
                    &&& spec_ts_decode(s@) is None
                    &&& e matches ParseError::CodecError { offending, expected }
                    &&& offending@ == s@
                    &&& expected@ == spec_ts_expected()
                },
            },
    {
        let chars = str_to_chars(s);
        let n = chars.len();
        if n < 20 {
            return Err(ts_err(s));
        }
        let year64 = match read_fixed(&chars, 0, 4) {
            Some(v) => v,
            None => {
                return Err(ts_err(s));
            },
        };
        let month64 = match read_fixed(&chars, 5, 7) {
            Some(v) => v,
            None => {
                return Err(ts_err(s));
            },
        };
        let day64 = match read_fixed(&chars, 8, 10) {
            Some(v) => v,
            None => {
                return Err(ts_err(s));
            },
        };
        let hour64 = match read_fixed(&chars, 11, 13) {
            Some(v) => v,
            None => {
                return Err(ts_err(s));
            },
        };
        let minute64 = match read_fixed(&chars, 14, 16) {
            Some(v) => v,
            None => {
                return Err(ts_err(s));
            },
        };
        let second64 = match read_fixed(&chars, 17, 19) {
            Some(v) => v,
            None => {
                return Err(ts_err(s));
            },
        };
        if !(chars[4] == '-' && chars[7] == '-' && chars[10] == 'T' && chars[13] == ':'
            && chars[16] == ':') {
            return Err(ts_err(s));
        }
        proof {
            lemma_dec_val_bound(s@.subrange(0, 4));
            lemma_dec_val_bound(s@.subrange(5, 7));
            lemma_dec_val_bound(s@.subrange(8, 10));
            lemma_dec_val_bound(s@.subrange(11, 13));
            lemma_dec_val_bound(s@.subrange(14, 16));
            lemma_dec_val_bound(s@.subrange(17, 19));
            reveal_with_fuel(pow10, 5);
        }
        let year = year64 as u32;
        let month = month64 as u8;
        let day = day64 as u8;
        let hour = hour64 as u8;
        let minute = minute64 as u8;
        let second = second64 as u8;
        if !(1 <= month && month <= 12) {
            return Err(ts_err(s));
        }
        let dim = days_in_month_exec(year, month);
        if !(1 <= day && day <= dim && hour <= 23 && minute <= 59 && second <= 59) {
            return Err(ts_err(s));
        }
        // the optional fraction
        let mut micros: u32 = 0;
        let tz: usize;
        if chars[19] == '.' {
            let fe = crate::json::digits_end_exec(&chars, 20);
            proof {
                crate::json::lemma_digits_end(s@, 20);
            }
            if fe == 20 {
                return Err(ts_err(s));
            }
            if fe - 20 >= 6 {
                proof {
                    assert(all_digits(s@.subrange(20, 26))) by {
                        assert(forall|t: int|
                            0 <= t < 6 ==> s@.subrange(20, 26)[t] == s@[t + 20]);
                    }
                    lemma_dec_val_bound(s@.subrange(20, 26));
                    reveal_with_fuel(pow10, 7);
                }
                match dec_chars_to_u64(&chars, 20, 26) {
                    Some(v) => {
                        micros = v as u32;
                    },
                    None => {
                        proof {
                            assert(false);
                        }
                    },
                }
            } else {
                let k = fe - 20;
                proof {
                    assert(all_digits(s@.subrange(20, fe as int))) by {
                        assert(forall|t: int|
                            0 <= t < fe - 20 ==> s@.subrange(20, fe as int)[t] == s@[t + 20]);
                    }
                    lemma_dec_val_bound(s@.subrange(20, fe as int));
                    reveal_with_fuel(pow10, 7);
                }
                match dec_chars_to_u64(&chars, 20, fe) {
                    Some(v) => {
                        let mult: u32 = if k == 1 {
                            100000
                        } else if k == 2 {
                            10000
                        } else if k == 3 {
                            1000
                        } else if k == 4 {
                            100
                        } else {
                            10
                        };
                        proof {
                            assert(mult as int == pow10((6 - k) as nat));
                            crate::text::lemma_pow10_add(k as nat, (6 - k) as nat);
                            assert(dec_val(s@.subrange(20, fe as int)) * (mult as int) < pow10(6))
                                by (nonlinear_arith)
                                requires
                                    dec_val(s@.subrange(20, fe as int)) < pow10(k as nat),
                                    mult as int == pow10((6 - k) as nat),
                                    mult >= 1,
                                    pow10(k as nat) * pow10((6 - k) as nat) == pow10(6),
                            ;
                            assert(dec_val(s@.subrange(20, fe as int)) >= 0);
                        }
                        micros = (v as u32) * mult;
                    },
                    None => {
                        proof {
                            assert(false);
                        }
                    },
                }
            }
            tz = fe;
        } else {
            tz = 19;
        }
        if tz >= n {
            return Err(ts_err(s));
        }
        let tzc = chars[tz];
        let delta: i32;
        if tzc == 'Z' {
            if n - tz != 1 {
                return Err(ts_err(s));
            }
            delta = 0;
        } else if tzc == '+' || tzc == '-' {
            if n - tz != 6 {
                return Err(ts_err(s));
            }
            let oh64 = match read_fixed(&chars, tz + 1, tz + 3) {
                Some(v) => v,
                None => {
                    return Err(ts_err(s));
                },
            };
            let om64 = match read_fixed(&chars, tz + 4, tz + 6) {
                Some(v) => v,
                None => {
                    return Err(ts_err(s));
                },
            };
            if chars[tz + 3] != ':' {
                return Err(ts_err(s));
            }
            proof {
                lemma_dec_val_bound(s@.subrange(tz + 1, tz + 3));
                lemma_dec_val_bound(s@.subrange(tz + 4, tz + 6));
                reveal_with_fuel(pow10, 3);
            }
            let oh = oh64 as i32;
            let om = om64 as i32;
            if !(oh <= 23 && om <= 59) {
                return Err(ts_err(s));
            }
            delta = if tzc == '+' {
                -(oh * 60 + om)
            } else {
                oh * 60 + om
            };
        } else {
            return Err(ts_err(s));
        }
        // normalize to UTC, moving at most one calendar day
        let total: i32 = (hour as i32) * 60 + (minute as i32) + delta;
        if 0 <= total && total < 1440 {
            let t = Timestamp {
                year,
                month,
                day,
                hour: (total / 60) as u8,
                minute: (total % 60) as u8,
                second,
                micros,
            };
            Ok(t)
        } else if total < 0 {
            let shifted = total + 1440;
            if day > 1 {
                Ok(
                    Timestamp {
                        year,
                        month,
                        day: day - 1,
                        hour: (shifted / 60) as u8,
                        minute: (shifted % 60) as u8,
                        second,
                        micros,
                    },
                )
            } else if month > 1 {
                let pd = days_in_month_exec(year, month - 1);
                Ok(
                    Timestamp {
                        year,
                        month: month - 1,
                        day: pd,
                        hour: (shifted / 60) as u8,
                        minute: (shifted % 60) as u8,
                        second,
                        micros,
                    },
                )
            } else if year == 0 {
                Err(ts_err(s))
            } else {
                Ok(
                    Timestamp {
                        year: year - 1,
                        month: 12,
                        day: 31,
                        hour: (shifted / 60) as u8,
                        minute: (shifted % 60) as u8,
                        second,
                        micros,
                    },
                )
            }
        } else {
            let shifted = total - 1440;
            if day < dim {
                Ok(
                    Timestamp {
                        year,
                        month,
                        day: day + 1,
                        hour: (shifted / 60) as u8,
                        minute: (shifted % 60) as u8,
                        second,
                        micros,
                    },
                )
            } else if month < 12 {
                Ok(
                    Timestamp {
                        year,
                        month: month + 1,
                        day: 1,
                        hour: (shifted / 60) as u8,
                        minute: (shifted % 60) as u8,
                        second,
                        micros,
                    },
                )
            } else if year == 9999 {
                Err(ts_err(s))
            } else {
                Ok(
                    Timestamp {
                        year: year + 1,
                        month: 1,
                        day: 1,
                        hour: (shifted / 60) as u8,
                        minute: (shifted % 60) as u8,
                        second,
                        micros,
                    },
                )
            }
        }
    }
}

} // verus!
