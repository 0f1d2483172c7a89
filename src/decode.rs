use vstd::prelude::*;
use crate::reader::StringReader;
use crate::value::{DataError, Decimal, Number};
use vstd::std_specs::iter::IteratorSpec;

verus! {

/// The character at `i`, or `'\0'` past the end, as a `StringReader` hands
/// them out.
pub open spec fn char_at(s: Seq<char>, i: int) -> char {
    if 0 <= i < s.len() {
        s[i]
    } else {
        '\0'
    }
}

pub open spec fn is_digit(c: char) -> bool {
    '0' <= c <= '9'
}

pub open spec fn digit_val(c: char) -> int {
    c as int - '0' as int
}

pub open spec fn all_digits(s: Seq<char>, a: int, b: int) -> bool {
    forall|i: int| a <= i < b ==> is_digit(#[trigger] char_at(s, i))
}

/// The decimal value of a string of digits.
pub open spec fn digits_value(d: Seq<char>) -> int
    decreases d.len(),
{
    if d.len() == 0 {
        0
    } else {
        digits_value(d.drop_last()) * 10 + digit_val(d.last())
    }
}

/// The first position from `i` on that holds `'.'`, or the end.
pub open spec fn int_end(s: Seq<char>, i: int) -> int
    decreases s.len() - i,
{
    if i >= s.len() || s[i] == '.' {
        i
    } else {
        int_end(s, i + 1)
    }
}

/// What a token denotes as a number: at least one digit must come before
/// the end or the point, and any other character makes the token invalid.
/// The sign of a number with a point is dropped: `-1.5` denotes the same as `1.5`.
pub enum NumberForm {
    Int(bool, int),
    Float(int, Seq<char>),
    PositiveInfinity,
    NegativeInfinity,
    NaN,
    Invalid,
}

pub open spec fn number_form(s: Seq<char>) -> NumberForm {
    if s == "Infinity"@ {
        NumberForm::PositiveInfinity
    } else if s == "-Infinity"@ {
        NumberForm::NegativeInfinity
    } else if s == "NaN"@ {
        NumberForm::NaN
    } else {
        let neg = char_at(s, 0) == '-';
        let start: int = if neg {
            1
        } else {
            0
        };
        let p = int_end(s, start);
        if p == start || !all_digits(s, start, p) {
            NumberForm::Invalid
        } else if p >= s.len() {
            NumberForm::Int(neg, digits_value(s.subrange(start, p)))
        } else {
            if all_digits(s, p + 1, s.len() as int) {
                NumberForm::Float(
                    digits_value(s.subrange(start, p)),
                    s.subrange(p + 1, s.len() as int),
                )
            } else {
                NumberForm::Invalid
            }
        }
    }
}

/// `n` stands for the number that `s` denotes.
pub open spec fn decodes_number(s: Seq<char>, n: Number) -> bool {
    match number_form(s) {
        NumberForm::Int(neg, m) => m <= i64::MAX && n == Number::Int(
            (if neg {
                -m
            } else {
                m
            }) as i64,
        ),
        NumberForm::Float(m, f) => m <= i64::MAX && match n {
            Number::Float(d) => d.whole == m && d.fraction@.len() == f.len() && forall|i: int|
                0 <= i < f.len() ==> d.fraction@[i] as int == digit_val(#[trigger] f[i]),
            _ => false,
        },
        NumberForm::PositiveInfinity => n is PositiveInfinity,
        NumberForm::NegativeInfinity => n is NegativeInfinity,
        NumberForm::NaN => n is NaN,
        NumberForm::Invalid => false,
    }
}

/// A token that denotes a number that fits.
pub open spec fn is_number(s: Seq<char>) -> bool {
    match number_form(s) {
        NumberForm::Int(_, m) => m <= i64::MAX,
        NumberForm::Float(m, _) => m <= i64::MAX,
        NumberForm::Invalid => false,
        _ => true,
    }
}

proof fn lemma_digits_value_mono(s: Seq<char>, a: int, c: int, b: int)
    requires
        0 <= a <= c <= b <= s.len(),
        all_digits(s, a, b),
    ensures
        0 <= digits_value(s.subrange(a, c)) <= digits_value(s.subrange(a, b)),
    decreases b - a,
{
    if b > a {
        assert(s.subrange(a, b).drop_last() =~= s.subrange(a, b - 1));
        assert(is_digit(char_at(s, b - 1)));
        if c < b {
            lemma_digits_value_mono(s, a, c, b - 1);
        } else {
            lemma_digits_value_mono(s, a, c - 1, b - 1);
        }
    }
}

proof fn lemma_int_end_skip(s: Seq<char>, i: int)
    requires
        0 <= i < s.len(),
        s[i] != '.',
    ensures
        int_end(s, i) == int_end(s, i + 1),
{
}

proof fn lemma_int_end_ge(s: Seq<char>, i: int)
    requires
        0 <= i,
    ensures
        i <= int_end(s, i),
        int_end(s, i) <= s.len() || int_end(s, i) == i,
        int_end(s, i) < s.len() ==> s[int_end(s, i)] == '.',
    decreases s.len() - i,
{
    if !(i >= s.len() || s[i] == '.') {
        lemma_int_end_ge(s, i + 1);
    }
}

/// Whether two texts hold the same characters.
pub fn text_is(s: &str, w: &str) -> (r: bool)
    ensures
        r == (s@ == w@),
{
    let n = s.unicode_len();
    if n != w.unicode_len() {
        return false;
    }
    let mut i: usize = 0;
    while i < n
        invariant
            n == s@.len(),
            n == w@.len(),
            i <= n,
            forall|j: int| 0 <= j < i ==> s@[j] == w@[j],
        decreases n - i,
    {
        if s.get_char(i) != w.get_char(i) {
            return false;
        }
        i += 1;
    }
    assert(s@ =~= w@);
    true
}

fn unexpected() -> (r: DataError) {
    DataError { message: String::from_str("Unexpected character") }
}

/// Decodes a token as a number: the sentinels `Infinity`, `-Infinity` and
/// `NaN`, else an optional `-`, digits, and optionally a `.` and more digits.
/// A magnitude over `i64::MAX` does not decode.
pub fn parse_number(s: &str) -> (r: Result<Number, DataError>)
    ensures
        r is Ok <==> is_number(s@),
        r matches Ok(n) ==> decodes_number(s@, n) && n.wf(),
{
    if text_is(s, "Infinity") {
        return Ok(Number::PositiveInfinity);
    }
    if text_is(s, "-Infinity") {
        return Ok(Number::NegativeInfinity);
    }
    if text_is(s, "NaN") {
        return Ok(Number::NaN);
    }
    let ghost t = s@;
    let n = s.unicode_len();
    let mut neg = false;
    let mut whole: i64 = 0;
    let mut reader = StringReader::new(s);
    let mut c = reader.next();
    let ghost mut k: int = 0;
    let mut pos: usize = 0;
    proof {
        if t.len() > 0 {
            assert(reader.chars.remaining() =~= t.skip(1));
        }
    }
    if c == '-' {
        neg = true;
        c = reader.next();
        pos = 1;
        proof {
            k = 1;
        }
        proof {
            if t.len() > 1 {
                assert(reader.chars.remaining() =~= t.skip(2));
            }
        }
    }
    let ghost start = k;
    let ghost p = int_end(t, start);
    let mut seen: bool = false;
    proof {
        lemma_int_end_ge(t, start);
    }
    while pos < n && c != '.'
        invariant
            reader.chars.obeys_prophetic_iter_laws(),
            t == s@,
            n == t.len(),
            pos as int == k,
            k < t.len() ==> reader.chars.remaining() == t.skip(k + 1),
            k >= t.len() ==> reader.chars.remaining().len() == 0,
            c == char_at(t, k),
            0 <= start <= 1,
            start <= t.len(),
            neg == (char_at(t, 0) == '-'),
            start == (if neg { 1int } else { 0int }),
            p == int_end(t, start),
            start <= k <= p <= t.len(),
            int_end(t, k) == p,
            all_digits(t, start, k),
            seen == (k > start),
            whole >= 0,
            whole as int == digits_value(t.subrange(start, k)),
            number_form(t) == (if p == start || !all_digits(t, start, p) {
                NumberForm::Invalid
            } else if p >= t.len() {
                NumberForm::Int(neg, digits_value(t.subrange(start, p)))
            } else {
                if all_digits(t, p + 1, t.len() as int) {
                    NumberForm::Float(
                        digits_value(t.subrange(start, p)),
                        t.subrange(p + 1, t.len() as int),
                    )
                } else {
                    NumberForm::Invalid
                }
            }),
        decreases t.len() - k,
    {
        proof {
            lemma_int_end_skip(t, k);
            lemma_int_end_ge(t, k + 1);
        }
        if !('0' <= c && c <= '9') {
            proof {
                assert(!is_digit(char_at(t, k)));
            }
            return Err(unexpected());
        }
        let d = (c as u32 - '0' as u32) as i64;
        let next = match whole.checked_mul(10) {
            Some(m) => m.checked_add(d),
            None => None,
        };
        proof {
            assert(t.subrange(start, k + 1).drop_last() =~= t.subrange(start, k));
        }
        match next {
            Some(v) => {
                whole = v;
                seen = true;
            },
            None => {
                proof {
                    if all_digits(t, start, p) {
                        lemma_digits_value_mono(t, start, k + 1, p);
                        assert(all_digits(t, start, k + 1));
                    }
                }
                return Err(unexpected());
            },
        }
        c = reader.next();
        pos = pos + 1;
        proof {
            k = k + 1;
        }
        proof {
            if k < t.len() {
                assert(reader.chars.remaining() =~= t.skip(k + 1));
            }
        }
    }
    if !seen {
        return Err(unexpected());
    }
    if pos == n {
        if neg {
            whole = -whole;
        }
        return Ok(Number::Int(whole));
    }
    let mut fraction: Vec<u8> = Vec::new();
    c = reader.next();
    pos = pos + 1;
    proof {
        k = k + 1;
    }
    proof {
        if k < t.len() {
            assert(reader.chars.remaining() =~= t.skip(k + 1));
        }
    }
    let ghost q = t.len() as int;
    while pos < n
        invariant
            reader.chars.obeys_prophetic_iter_laws(),
            t == s@,
            n == t.len(),
            pos as int == k,
            k < t.len() ==> reader.chars.remaining() == t.skip(k + 1),
            k >= t.len() ==> reader.chars.remaining().len() == 0,
            c == char_at(t, k),
            p + 1 <= k <= q <= t.len(),
            q == t.len(),
            p < t.len(),
            char_at(t, p) == '.',
            whole >= 0,
            whole as int == digits_value(t.subrange(start, p)),
            number_form(t) == (if all_digits(t, p + 1, q) {
                NumberForm::Float(digits_value(t.subrange(start, p)), t.subrange(p + 1, q))
            } else {
                NumberForm::Invalid
            }),
            all_digits(t, p + 1, k),
            fraction@.len() == k - (p + 1),
            forall|i: int| 0 <= i < fraction@.len() ==> fraction@[i] < 10,
            forall|i: int|
                0 <= i < fraction@.len() ==> fraction@[i] as int == digit_val(
                    #[trigger] t[p + 1 + i],
                ),
        decreases t.len() - k,
    {
        if !('0' <= c && c <= '9') {
            proof {
                assert(!is_digit(char_at(t, k)));
            }
            return Err(unexpected());
        }
        fraction.push((c as u32 - '0' as u32) as u8);
        c = reader.next();
        pos = pos + 1;
        proof {
            k = k + 1;
        }
        proof {
            if k < t.len() {
                assert(reader.chars.remaining() =~= t.skip(k + 1));
            }
        }
    }
    proof {
        assert forall|i: int| 0 <= i < fraction@.len() implies fraction@[i] as int == digit_val(
            #[trigger] t.subrange(p + 1, q)[i],
        ) by {
            assert(t.subrange(p + 1, q)[i] == t[p + 1 + i]);
        }
    }
    Ok(Number::Float(Decimal { whole, fraction }))
}

} // verus!
