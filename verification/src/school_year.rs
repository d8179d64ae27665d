//! School years and the expiry of participation tokens.
use vstd::prelude::*;

use crate::text::{concat_spec, i64_to_text, int_digits, text_of, trim, trimmed};

verus! {

/// Position of the first `-` in `s`, or `s.len()` when there is none.
pub open spec fn first_dash(s: Seq<char>) -> nat
    decreases s.len(),
{
    if s.len() == 0 {
        0
    } else if s[0] == '-' {
        0
    } else {
        1 + first_dash(s.drop_first())
    }
}

pub open spec fn is_digit_spec(c: char) -> bool {
    '0' <= c && c <= '9'
}

pub open spec fn all_digits(s: Seq<char>) -> bool {
    forall|i: int| 0 <= i < s.len() ==> is_digit_spec(#[trigger] s[i])
}

/// Value of a string of decimal digits.
pub open spec fn digits_value(s: Seq<char>) -> nat
    decreases s.len(),
{
    if s.len() == 0 {
        0
    } else {
        digits_value(s.drop_last()) * 10 + ((s.last() as nat) - 48) as nat
    }
}

/// What `str::parse::<i32>` accepts: an optional `+` or `-`, then at least
/// one ASCII digit, the value fitting in an `i32`.
pub open spec fn parse_i32_spec(s: Seq<char>) -> Option<i32> {
    let signed = s.len() > 0 && (s[0] == '+' || s[0] == '-');
    let body = if signed { s.skip(1) } else { s };
    let negative = s.len() > 0 && s[0] == '-';
    if body.len() == 0 || !all_digits(body) {
        None
    } else {
        let v: int = if negative { -(digits_value(body) as int) } else { digits_value(body) as int };
        if i32::MIN <= v && v <= i32::MAX {
            Some(v as i32)
        } else {
            None
        }
    }
}

proof fn lemma_digits_value_prefix(s: Seq<char>, i: int)
    requires
        0 <= i <= s.len(),
        all_digits(s),
    ensures
        digits_value(s.take(i)) <= digits_value(s),
    decreases s.len() - i,
{
    if i < s.len() {
        let t = s.take(i + 1);
        assert(t.drop_last() == s.take(i));
        assert(all_digits(s.take(i + 1)));
        lemma_digits_value_prefix(s, i + 1);
    } else {
        assert(s.take(i) == s);
    }
}

/// `str::parse::<i32>`.
pub fn parse_i32(s: &str) -> (r: Option<i32>)
    ensures
        r == parse_i32_spec(s@),
{
    let n = s.unicode_len();
    let mut i: usize = 0;
    let mut negative = false;
    if n > 0 {
        let c0 = s.get_char(0);
        if c0 == '+' || c0 == '-' {
            i = 1;
            negative = c0 == '-';
        }
    }
    let ghost start = i as int;
    let ghost body = s@.skip(start);
    proof {
        if start == 0 {
            assert(body == s@);
        }
    }
    if i == n {
        return None;
    }
    let mut acc: i64 = 0;
    while i < n
        invariant
            0 <= start <= i <= n,
            n == s@.len(),
            body == s@.skip(start),
            body.len() == n - start,
            body.len() > 0,
            start == (if s@.len() > 0 && (s@[0] == '+' || s@[0] == '-') { 1int } else { 0int }),
            negative == (s@.len() > 0 && s@[0] == '-'),
            all_digits(body.take(i - start)),
            acc as int == digits_value(body.take(i - start)) as int,
            acc <= 2147483648,
        decreases n - i,
    {
        let c = s.get_char(i);
        proof {
            assert(body[i - start] == c);
            assert(body.take(i - start + 1).drop_last() == body.take(i - start));
        }
        if !('0' <= c && c <= '9') {
            proof {
                assert(!is_digit_spec(body[i - start]));
            }
            return None;
        }
        let d: i64 = (c as u32 - 48) as i64;
        proof {
            assert(body.take(i - start + 1).last() == c);
            assert(digits_value(body.take(i - start + 1)) == digits_value(body.take(i - start)) * 10
                + ((c as nat) - 48) as nat);
        }
        acc = acc * 10 + d;
        i = i + 1;
        proof {
            assert(all_digits(body.take(i - start)));
        }
        if acc > 2147483648 {
            proof {
                if start == 0 {
                    assert(body =~= s@);
                }
                if all_digits(body) {
                    lemma_digits_value_prefix(body, i - start);
                    assert(digits_value(body) > 2147483648);
                    assert(parse_i32_spec(s@) is None);
                } else {
                    if start == 0 {
                        assert(body =~= s@);
                    }
                    assert(parse_i32_spec(s@) is None);
                }
            }
            return None;
        }
    }
    proof {
        assert(body.take(n - start) == body);
    }
    let v: i64 = if negative { -acc } else { acc };
    if v < -2147483648 || v > 2147483647 {
        None
    } else {
        Some(v as i32)
    }
}

/// What `parse` returns for a given input.
pub open spec fn parse_spec(input: Seq<char>) -> Result<(i32, i32), Seq<char>> {
    let k = first_dash(input) as int;
    if k >= input.len() {
        Err("année scolaire attendue au format `2026-2027`, reçu `"@ + input + "`"@)
    } else {
        let a = input.take(k);
        let b = input.skip(k + 1);
        match parse_i32_spec(trimmed(a)) {
            None => Err("millésime illisible : `"@ + a + "`"@),
            Some(start) => match parse_i32_spec(trimmed(b)) {
                None => Err("millésime illisible : `"@ + b + "`"@),
                Some(end) => if end != start + 1 {
                    Err(
                        "années non consécutives : `"@ + int_digits(start as int) + "-"@
                            + int_digits(end as int) + "`"@,
                    )
                } else if !(2000 <= start && start <= 2100) {
                    Err("millésime hors plage plausible : `"@ + int_digits(start as int) + "`"@)
                } else {
                    Ok((start, end))
                },
            },
        }
    }
}

fn first_dash_exec(s: &str) -> (k: usize)
    ensures
        k == first_dash(s@),
{
    let n = s.unicode_len();
    let mut k: usize = 0;
    proof {
        assert(s@.skip(0) == s@);
    }
    while k < n && s.get_char(k) != '-'
        invariant
            k <= n,
            n == s@.len(),
            first_dash(s@) == k + first_dash(s@.skip(k as int)),
        decreases n - k,
    {
        proof {
            assert(s@.skip(k as int).drop_first() == s@.skip(k + 1));
        }
        k = k + 1;
    }
    proof {
        if k == n {
            assert(s@.skip(k as int).len() == 0);
        }
    }
    k
}

/// Checks the `YYYY-YYYY` form and that the two years follow each other.
pub fn parse(input: &str) -> (r: Result<(i32, i32), String>)
    ensures
        match r {
            Ok(years) => parse_spec(input@) == Ok::<(i32, i32), Seq<char>>(years),
            Err(message) => parse_spec(input@) == Err::<(i32, i32), Seq<char>>(message@),
        },
{
    let n = input.unicode_len();
    let k = first_dash_exec(input);
    if k >= n {
        let r = text_of(&["année scolaire attendue au format `2026-2027`, reçu `", input, "`"]);
        proof {
            reveal_with_fuel(concat_spec, 4);
        }
        return Err(r);
    }
    let a = input.substring_char(0, k);
    let b = input.substring_char(k + 1, n);
    proof {
        assert(a@ == input@.take(k as int));
        assert(b@ == input@.skip(k + 1));
    }
    let start = match parse_i32(trim(a)) {
        Some(v) => v,
        None => {
            let r = text_of(&["millésime illisible : `", a, "`"]);
            proof {
                reveal_with_fuel(concat_spec, 4);
            }
            return Err(r);
        },
    };
    let end = match parse_i32(trim(b)) {
        Some(v) => v,
        None => {
            let r = text_of(&["millésime illisible : `", b, "`"]);
            proof {
                reveal_with_fuel(concat_spec, 4);
            }
            return Err(r);
        },
    };
    if end as i64 != start as i64 + 1 {
        let s1 = i64_to_text(start as i64);
        let s2 = i64_to_text(end as i64);
        let r = text_of(&["années non consécutives : `", s1.as_str(), "-", s2.as_str(), "`"]);
        proof {
            reveal_with_fuel(concat_spec, 6);
        }
        return Err(r);
    }
    if !(2000 <= start && start <= 2100) {
        let s1 = i64_to_text(start as i64);
        let r = text_of(&["millésime hors plage plausible : `", s1.as_str(), "`"]);
        proof {
            reveal_with_fuel(concat_spec, 4);
        }
        return Err(r);
    }
    Ok((start, end))
}

/// Days from 1970-01-01 to a date of the proleptic Gregorian calendar
/// (negative before it): years counted from March, so that the leap day
/// ends the year, in 400-year eras of 146 097 days.
pub open spec fn days_from_civil(year: int, month: int, day: int) -> int {
    let y = if month <= 2 { year - 1 } else { year };
    let era = y / 400;
    let year_of_era = y - era * 400;
    let month_from_march = (month + 9) % 12;
    let day_of_year = (153 * month_from_march + 2) / 5 + day - 1;
    let day_of_era = year_of_era * 365 + year_of_era / 4 - year_of_era / 100 + day_of_year;
    era * 146097 + day_of_era - 719468
}

/// Unix time, in seconds, of midnight UTC at the start of a calendar day.
pub open spec fn midnight_utc_spec(year: int, month: int, day: int) -> int {
    days_from_civil(year, month, day) * 86400
}

/// Days in a month of the proleptic Gregorian calendar.
pub open spec fn days_in_month(year: int, month: int) -> int {
    if month == 2 {
        if (year % 4 == 0 && year % 100 != 0) || year % 400 == 0 {
            29
        } else {
            28
        }
    } else if month == 4 || month == 6 || month == 9 || month == 11 {
        30
    } else {
        31
    }
}

/// Midnight UTC of a calendar day, through `time::Date::from_calendar_date`,
/// `Date::midnight`, `PrimitiveDateTime::assume_utc` and
/// `OffsetDateTime::unix_timestamp`.
///
/// Claimed: the timestamp, when there is one, is `midnight_utc_spec` of the
/// arguments (86 400 seconds for each day from 1970-01-01, which is what
/// `unix_timestamp` counts for a UTC midnight); a date that exists, with a
/// year within ±9999, always has one.
#[verifier::external_body]
fn midnight_utc(year: i32, month: u8, day: u8) -> (r: Option<i64>)
    ensures
        r matches Some(t) ==> t == midnight_utc_spec(year as int, month as int, day as int),
        (-9999 <= year <= 9999 && 1 <= month <= 12 && 1 <= day <= days_in_month(
            year as int,
            month as int,
        )) ==> r is Some,
{
    let month = time::Month::try_from(month).ok()?;
    time::Date::from_calendar_date(year, month, day).ok().map(
        |date| date.midnight().assume_utc().unix_timestamp(),
    )
}

/// Seconds in a day.
pub const DAY_SECONDS: i64 = 86400;

/// What `expiry` returns for a given school year.
pub open spec fn expiry_spec(school_year: Seq<char>) -> Result<i64, Seq<char>> {
    match parse_spec(school_year) {
        Err(message) => Err(message),
        Ok((_, end)) => {
            let midnight = midnight_utc_spec(end as int, 8, 31);
            if midnight <= i64::MAX - DAY_SECONDS {
                Ok((midnight + DAY_SECONDS) as i64)
            } else {
                Err("date d'échéance invalide"@)
            }
        },
    }
}

/// Expiry of a group's tokens, in Unix seconds: the end of August 31st of
/// the closing year (midnight UTC on September 1st).
///
/// The date comes from the school calendar, not from the group's creation: a
/// group created in May must not see its tokens live until the next May.
pub fn expiry(school_year: &str) -> (r: Result<i64, String>)
    ensures
        match r {
            Ok(t) => expiry_spec(school_year@) == Ok::<i64, Seq<char>>(t),
            Err(message) => expiry_spec(school_year@) == Err::<i64, Seq<char>>(message@),
        },
{
    let (_, end) = match parse(school_year) {
        Ok(years) => years,
        Err(message) => return Err(message),
    };
    match midnight_utc(end, 8, 31) {
        Some(t) => {
            if t > i64::MAX - DAY_SECONDS {
                return Err(String::from_str("date d'échéance invalide"));
            }
            Ok(t + DAY_SECONDS)
        },
        None => {
            // Out of reach: August 31st of a closing year in 2001..=2101 exists.
            proof {
                assert(false);
            }
            Err(String::new())
        },
    }
}

} // verus!
