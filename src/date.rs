use vstd::prelude::*;
use chrono::TimeZone;
use crate::decode::{all_digits, char_at, digit_val, digits_value, is_digit};
use crate::reader::SerialReader;
use crate::value::{calendar_valid, offset_valid, DataError, Date, DateParts};

verus! {

pub open spec fn pow10(n: nat) -> nat
    decreases n,
{
    if n == 0 {
        1
    } else {
        10 * pow10((n - 1) as nat)
    }
}

/// The two-digit number at `i`.
pub open spec fn two(s: Seq<char>, i: int) -> int {
    digit_val(char_at(s, i)) * 10 + digit_val(char_at(s, i + 1))
}

/// The first position from `i` on that holds no digit.
pub open spec fn digit_end(s: Seq<char>, i: int) -> int
    decreases s.len() - i,
{
    if i < s.len() && is_digit(s[i]) {
        digit_end(s, i + 1)
    } else {
        i
    }
}

/// `YYYY-MM-DDTHH:MM:SS`, the fixed head of a date.
pub open spec fn date_head_ok(s: Seq<char>) -> bool {
    &&& all_digits(s, 0, 4)
    &&& char_at(s, 4) == '-'
    &&& all_digits(s, 5, 7)
    &&& char_at(s, 7) == '-'
    &&& all_digits(s, 8, 10)
    &&& char_at(s, 10) == 'T'
    &&& all_digits(s, 11, 13)
    &&& char_at(s, 13) == ':'
    &&& all_digits(s, 14, 16)
    &&& char_at(s, 16) == ':'
    &&& all_digits(s, 17, 19)
}

pub open spec fn has_fraction(s: Seq<char>) -> bool {
    char_at(s, 19) == '.'
}

/// Where the zone suffix starts.
pub open spec fn zone_start(s: Seq<char>) -> int {
    if has_fraction(s) {
        digit_end(s, 20)
    } else {
        19
    }
}

/// The fraction of a second, at most nine digits, in nanoseconds.
pub open spec fn nano_of(s: Seq<char>) -> int {
    if has_fraction(s) {
        let f = digit_end(s, 20);
        digits_value(s.subrange(20, f)) * pow10((9 - (f - 20)) as nat)
    } else {
        0
    }
}

pub open spec fn fraction_ok(s: Seq<char>) -> bool {
    has_fraction(s) ==> digit_end(s, 20) - 20 <= 9
}

/// The offset that the zone suffix gives, in seconds east: `Z`, or a sign
/// and two digits of hours, optionally `:` and two digits of minutes; the
/// text ends right after it.
pub open spec fn offset_of(s: Seq<char>) -> Option<int> {
    offset_at(s, zone_start(s))
}

/// The size of the offset whose sign stands at `z`: hours, optionally
/// minutes, and then the end of the text.
pub open spec fn zone_magnitude(s: Seq<char>, z: int) -> Option<int> {
    if z + 3 == s.len() {
        Some(two(s, z + 1) * 3600)
    } else if char_at(s, z + 3) == ':' && all_digits(s, z + 4, z + 6) && z + 6 == s.len() {
        Some((two(s, z + 1) * 60 + two(s, z + 4)) * 60)
    } else {
        None
    }
}

/// The offset of a zone suffix that starts at `z`.
pub open spec fn offset_at(s: Seq<char>, z: int) -> Option<int> {
    let c = char_at(s, z);
    if c == 'Z' {
        if z + 1 == s.len() {
            Some(0)
        } else {
            None
        }
    } else if (c == '+' || c == '-') && all_digits(s, z + 1, z + 3) {
        match zone_magnitude(s, z) {
            Some(m) => Some(
                if c == '-' {
                    -m
                } else {
                    m
                },
            ),
            None => None,
        }
    } else {
        None
    }
}

pub open spec fn parts_of(s: Seq<char>) -> DateParts {
    DateParts {
        year: (two(s, 0) * 100 + two(s, 2)) as u32,
        month: two(s, 5) as u32,
        day: two(s, 8) as u32,
        hour: two(s, 11) as u32,
        minute: two(s, 14) as u32,
        second: two(s, 17) as u32,
        nano: nano_of(s) as u32,
    }
}

/// A text that denotes a date: well formed, a real calendar date and time,
/// and an offset under a day.
pub open spec fn is_date(s: Seq<char>) -> bool {
    &&& date_head_ok(s)
    &&& fraction_ok(s)
    &&& offset_of(s) is Some
    &&& calendar_valid(
        two(s, 0) * 100 + two(s, 2),
        two(s, 5),
        two(s, 8),
        two(s, 11),
        two(s, 14),
        two(s, 17),
    )
    &&& offset_valid(offset_of(s)->0)
}

/// The date that `s` denotes: in UTC where the offset is zero.
pub open spec fn date_of(s: Seq<char>) -> Date {
    let off = offset_of(s)->0;
    if off == 0 {
        Date::DateTimeUtc(parts_of(s))
    } else {
        Date::DateTimeOffset(parts_of(s), off as i32)
    }
}

/// Relies on chrono's `TimeZone::with_ymd_and_hms` for `Utc`: it gives a
/// time exactly when the fields name a day of the proleptic Gregorian
/// calendar and a time of day with `hour < 24`, `minute < 60`, `second < 60`.
#[verifier::external_body]
fn chrono_accepts(year: u32, month: u32, day: u32, hour: u32, minute: u32, second: u32) -> (r:
    bool)
    requires
        year <= 9999,
    ensures
        r == calendar_valid(
            year as int,
            month as int,
            day as int,
            hour as int,
            minute as int,
            second as int,
        ),
{
    chrono::Utc.with_ymd_and_hms(year as i32, month, day, hour, minute, second).single().is_some()
}

fn at(v: &Vec<char>, i: usize) -> (c: char)
    ensures
        c == char_at(v@, i as int),
{
    if i < v.len() {
        v[i]
    } else {
        '\0'
    }
}

fn two_at(v: &Vec<char>, i: usize) -> (r: Option<u32>)
    requires
        i + 1 < usize::MAX,
    ensures
        r is Some <==> all_digits(v@, i as int, i + 2),
        r matches Some(n) ==> n as int == two(v@, i as int) && n < 100,
{
    let a = at(v, i);
    let b = at(v, i + 1);
    if '0' <= a && a <= '9' && '0' <= b && b <= '9' {
        proof {
            assert forall|j: int| i <= j < i + 2 implies is_digit(#[trigger] char_at(v@, j)) by {
                if j == i {
                } else {
                    assert(j == i + 1);
                }
            }
        }
        Some((a as u32 - '0' as u32) * 10 + (b as u32 - '0' as u32))
    } else {
        proof {
            if is_digit(a) {
                assert(!is_digit(char_at(v@, i + 1)));
            } else {
                assert(!is_digit(char_at(v@, i as int)));
            }
        }
        None
    }
}

fn bad_date() -> (r: DataError) {
    DataError { message: String::from_str("Unexpected character") }
}

proof fn lemma_all_digits_split(s: Seq<char>, a: int, b: int, c: int)
    requires
        a <= b <= c,
    ensures
        all_digits(s, a, c) <==> all_digits(s, a, b) && all_digits(s, b, c),
{
    if all_digits(s, a, b) && all_digits(s, b, c) {
        assert forall|i: int| a <= i < c implies is_digit(#[trigger] char_at(s, i)) by {
            if i < b {
                assert(is_digit(char_at(s, i)));
            } else {
                assert(is_digit(char_at(s, i)));
            }
        }
    }
}

proof fn lemma_pow10_pos(n: nat)
    ensures
        pow10(n) >= 1,
    decreases n,
{
    if n > 0 {
        lemma_pow10_pos((n - 1) as nat);
    }
}

proof fn lemma_digit_end_ge(s: Seq<char>, i: int)
    ensures
        i <= digit_end(s, i),
    decreases s.len() - i,
{
    if i < s.len() && is_digit(s[i]) {
        lemma_digit_end_ge(s, i + 1);
    }
}

/// The zone's start and the nanoseconds of the fraction, or `None` where
/// the fraction has more than nine digits.
fn parse_fraction(v: &Vec<char>) -> (r: Option<(usize, u64)>)
    ensures
        r is Some <==> fraction_ok(v@),
        r matches Some((z, nano)) ==> z as int == zone_start(v@) && nano as int == nano_of(v@)
            && z <= 29 && nano < 1_000_000_000,
{
    let ghost t = v@;
    let mut z: usize = 19;
    let mut nano: u64 = 0;
    if at(&v, 19) == '.' {
        let mut i: usize = 20;
        let mut acc: u64 = 0;
        let mut scale: u64 = 1_000_000_000;
        proof {
            lemma_digit_end_ge(t, 20);
            reveal_with_fuel(pow10, 10);
            assert(t.subrange(20, 20) =~= Seq::<char>::empty());
        }
        while i < v.len() && '0' <= v[i] && v[i] <= '9'
            invariant
                t == v@,
                20 <= i <= 29,
                i <= v@.len(),
                char_at(t, 19) == '.',
                all_digits(t, 20, i as int),
                digit_end(t, 20) == digit_end(t, i as int),
                acc as int == digits_value(t.subrange(20, i as int)),
                scale as int == pow10((9 - (i - 20)) as nat),
                (acc + 1) * scale <= 1_000_000_000,
            decreases v@.len() - i,
        {
            proof {
                lemma_digit_end_ge(t, i + 1);
                assert(t.subrange(20, i + 1).drop_last() =~= t.subrange(20, i as int));
            }
            if i == 29 {
                proof {
                    assert(digit_end(t, 29) == digit_end(t, 30));
                    lemma_digit_end_ge(t, 30);
                }
                return None;
            }
            let d = (v[i] as u32 - '0' as u32) as u64;
            proof {
                assert(scale as int == 10 * pow10((9 - (i + 1 - 20)) as nat));
                lemma_pow10_pos((9 - (i + 1 - 20)) as nat);
                assert(acc < 1_000_000_000) by (nonlinear_arith)
                    requires
                        (acc + 1) * scale <= 1_000_000_000,
                        scale >= 10,
                ;
                assert((10 * acc + d + 1) * (scale / 10) <= (acc + 1) * scale) by (nonlinear_arith)
                    requires
                        d <= 9,
                        scale % 10 == 0,
                        scale >= 10,
                ;
            }
            acc = acc * 10 + d;
            scale = scale / 10;
            i += 1;
        }
        proof {
            assert(scale >= 1) by {
                reveal_with_fuel(pow10, 10);
            }
            assert(acc * scale < 1_000_000_000) by (nonlinear_arith)
                requires
                    (acc + 1) * scale <= 1_000_000_000,
                    scale >= 1,
            ;
        }
        z = i;
        nano = acc * scale;
    }
    Some((z, nano))
}

fn parse_zone(v: &Vec<char>, z: usize) -> (r: Option<i64>)
    requires
        z <= 29,
    ensures
        r matches Some(o) ==> offset_at(v@, z as int) == Some(o as int),
        r is None ==> offset_at(v@, z as int) is None,
{
    let ghost t = v@;
    let c = at(&v, z);
    let mut off: i64;
    if c == 'Z' {
        if z + 1 != v.len() {
            return None;
        }
        off = 0;
    } else if c == '+' || c == '-' {
        proof {
            lemma_all_digits_split(t, z + 1, z + 3, z + 3);
        }
        let h = match two_at(&v, z + 1) {
            Some(n) => n,
            None => return None,
        };
        let c3 = at(&v, z + 3);
        if z + 3 == v.len() {
            off = h as i64 * 3600;
        } else if c3 == ':' {
            let m = match two_at(&v, z + 4) {
                Some(n) => n,
                None => return None,
            };
            if z + 6 != v.len() {
                return None;
            }
            off = (h as i64 * 60 + m as i64) * 60;
        } else {
            return None;
        }
        if c == '-' {
            off = -off;
        }
    } else {
        return None;
    }
    Some(off)
}

/// Decodes `YYYY-MM-DDTHH:MM:SS[.fraction](Z|±HH[:MM])`. A fraction of more
/// than nine digits, a date or time that the calendar lacks, and an offset
/// of a day or more do not decode.
pub fn parse_date(s: &str) -> (r: Result<Date, DataError>)
    ensures
        r is Ok <==> is_date(s@),
        r matches Ok(d) ==> d == date_of(s@) && d.wf(),
{
    let v = SerialReader::new(s).chars;
    let ghost t = v@;
    proof {
        lemma_all_digits_split(t, 0, 2, 4);
    }
    let y1 = match two_at(&v, 0) {
        Some(n) => n,
        None => return Err(bad_date()),
    };
    let y2 = match two_at(&v, 2) {
        Some(n) => n,
        None => return Err(bad_date()),
    };
    if at(&v, 4) != '-' {
        return Err(bad_date());
    }
    let month = match two_at(&v, 5) {
        Some(n) => n,
        None => return Err(bad_date()),
    };
    if at(&v, 7) != '-' {
        return Err(bad_date());
    }
    let day = match two_at(&v, 8) {
        Some(n) => n,
        None => return Err(bad_date()),
    };
    if at(&v, 10) != 'T' {
        return Err(bad_date());
    }
    let hour = match two_at(&v, 11) {
        Some(n) => n,
        None => return Err(bad_date()),
    };
    if at(&v, 13) != ':' {
        return Err(bad_date());
    }
    let minute = match two_at(&v, 14) {
        Some(n) => n,
        None => return Err(bad_date()),
    };
    if at(&v, 16) != ':' {
        return Err(bad_date());
    }
    let second = match two_at(&v, 17) {
        Some(n) => n,
        None => return Err(bad_date()),
    };
    assert(date_head_ok(t));
    let year = y1 * 100 + y2;
    let (z, nano) = match parse_fraction(&v) {
        Some(p) => p,
        None => return Err(bad_date()),
    };
    assert(z == zone_start(t));
    assert(nano as int == nano_of(t));
    assert(fraction_ok(t));
    let off = match parse_zone(&v, z) {
        Some(o) => o,
        None => return Err(bad_date()),
    };
    if !(-86_400 < off && off < 86_400) {
        return Err(bad_date());
    }
    if !chrono_accepts(year, month, day, hour, minute, second) {
        return Err(bad_date());
    }
    let parts = DateParts { year, month, day, hour, minute, second, nano: nano as u32 };
    assert(parts == parts_of(t));
    if off == 0 {
        Ok(Date::DateTimeUtc(parts))
    } else {
        Ok(Date::DateTimeOffset(parts, off as i32))
    }
}

} // verus!
