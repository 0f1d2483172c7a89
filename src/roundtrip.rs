use vstd::prelude::*;
use crate::decode::{all_digits, char_at, decodes_number, digit_val, digits_value, int_end, is_digit, is_number, number_form, NumberForm};
use crate::parser::{is_space, map_loop, MapDeserialState, Tree, bare_end, bare_token, is_stop, literal_of, quoted_closed, quoted_text, skip_space, starts_bare};
use crate::date::{date_of, digit_end, is_date, offset_at, pow10, two};
use crate::text::{date_text, digit_char, fraction_text, int_text, nat_text, ser, zone_text};
use crate::reader::{step, Cursor};
use crate::value::{offset_valid, DataValue, Date, DateParts, Number};

verus! {

proof fn lemma_digit_char(k: int)
    requires
        0 <= k < 10,
    ensures
        is_digit(digit_char(k)),
        digit_val(digit_char(k)) == k,
{
}

proof fn lemma_nat_text(m: nat)
    ensures
        nat_text(m).len() >= 1,
        forall|i: int| 0 <= i < nat_text(m).len() ==> is_digit(#[trigger] nat_text(m)[i]),
        digits_value(nat_text(m)) == m,
    decreases m,
{
    if m < 10 {
        lemma_digit_char(m as int);
        assert(nat_text(m).drop_last() =~= Seq::<char>::empty());
        assert(digits_value(Seq::<char>::empty()) == 0);
        assert(nat_text(m).last() == digit_char(m as int));
    } else {
        lemma_nat_text(m / 10);
        lemma_digit_char((m % 10) as int);
        assert(nat_text(m).drop_last() =~= nat_text(m / 10));
        assert(nat_text(m).last() == digit_char((m % 10) as int));
        assert(digits_value(nat_text(m)) == digits_value(nat_text(m / 10)) * 10 + (m % 10));
        assert((m / 10) * 10 + m % 10 == m);
    }
}

proof fn lemma_int_end_all_digits(s: Seq<char>, i: int)
    requires
        0 <= i <= s.len(),
        forall|j: int| i <= j < s.len() ==> is_digit(#[trigger] s[j]),
    ensures
        int_end(s, i) == s.len(),
    decreases s.len() - i,
{
    if i < s.len() {
        assert(is_digit(s[i]));
        lemma_int_end_all_digits(s, i + 1);
    }
}

proof fn lemma_bare_end_all_digits(s: Seq<char>, i: int)
    requires
        0 <= i <= s.len(),
        forall|j: int| i <= j < s.len() ==> is_digit(#[trigger] s[j]),
    ensures
        bare_end(s, i) == s.len(),
    decreases s.len() - i,
{
    if i < s.len() {
        assert(is_digit(s[i]));
        assert(!is_stop(s[i]));
        lemma_bare_end_all_digits(s, i + 1);
    }
}

/// An integer other than `i64::MIN`, written out and read back as a bare
/// token, is the same integer: its text starts a bare token at once, the
/// token is the whole text, and the token's value is that integer.
pub proof fn lemma_int_round_trip(n: i64, ind: Seq<char>, v: DataValue)
    requires
        n != i64::MIN,
    ensures
        ({
            let s = ser(DataValue::Number(Number::Int(n)), ind);
            &&& s.len() > 0
            &&& skip_space(s, 0) == 0
            &&& starts_bare(s[0])
            &&& bare_token(s, 0) == s
            &&& is_number(s)
            &&& literal_of(s, false, v) ==> v == DataValue::Number(Number::Int(n))
        }),
{
    let s = ser(DataValue::Number(Number::Int(n)), ind);
    let m: nat = if n < 0 {
        (-n) as nat
    } else {
        n as nat
    };
    lemma_nat_text(m);
    let start: int = if n < 0 {
        1
    } else {
        0
    };
    assert(s == int_text(n as int));
    assert(s.subrange(start, s.len() as int) =~= nat_text(m));
    assert forall|j: int| start <= j < s.len() implies is_digit(#[trigger] s[j]) by {
        assert(s[j] == nat_text(m)[j - start]);
    }
    assert(is_digit(s[start]));
    reveal_strlit("Infinity");
    reveal_strlit("-Infinity");
    reveal_strlit("NaN");
    reveal_strlit("true");
    reveal_strlit("false");
    reveal_strlit("mull");
    assert(s != "Infinity"@ && s != "NaN"@) by {
        if n < 0 {
            assert(s[0] == '-');
        } else {
            assert(is_digit(s[0]));
        }
    }
    assert(s != "-Infinity"@) by {
        if n < 0 {
            assert(is_digit(s[1]));
        } else {
            assert(is_digit(s[0]));
        }
    }
    assert(s != "true"@ && s != "false"@ && s != "mull"@) by {
        if n < 0 {
            assert(s[0] == '-');
        } else {
            assert(is_digit(s[0]));
        }
    }
    assert(char_at(s, 0) == '-' <==> n < 0);
    lemma_int_end_all_digits(s, start);
    assert(all_digits(s, start, s.len() as int));
    assert(number_form(s) == NumberForm::Int(n < 0, m as int));
    lemma_bare_end_all_digits(s, 1);
    assert(bare_token(s, 0) =~= s);
}

/// A decimal with a whole part of at least 0, written out and read back as
/// a bare token, has the same whole part and fraction digits. (A negative
/// whole part comes back without its sign.)
pub proof fn lemma_decimal_round_trip(n: Number, ind: Seq<char>, v: DataValue)
    requires
        n.wf(),
        n matches Number::Float(d) && d.whole >= 0,
    ensures
        ({
            let s = ser(DataValue::Number(n), ind);
            &&& s.len() > 0
            &&& skip_space(s, 0) == 0
            &&& starts_bare(s[0])
            &&& bare_token(s, 0) == s
            &&& is_number(s)
            &&& literal_of(s, false, v) ==> (v matches DataValue::Number(m) && decodes_number(s, m))
            &&& forall|m: Number|
                decodes_number(s, m) ==> (m matches Number::Float(e) && e.whole == (n->Float_0).whole
                    && e.fraction@ == (n->Float_0).fraction@)
        }),
{
    let d = n->Float_0;
    let s = ser(DataValue::Number(n), ind);
    let w = nat_text(d.whole as nat);
    let f = fraction_text(d.fraction@);
    lemma_nat_text(d.whole as nat);
    assert(s == w + seq!['.'] + f);
    let p = w.len() as int;
    assert forall|j: int| 0 <= j < p implies is_digit(#[trigger] s[j]) by {
        assert(s[j] == w[j]);
    }
    assert forall|j: int| p + 1 <= j < s.len() implies is_digit(#[trigger] s[j]) by {
        assert(s[j] == f[j - p - 1]);
        lemma_digit_char(d.fraction@[j - p - 1] as int);
    }
    assert(s[p] == '.');
    assert(!is_stop(s[p]));
    reveal_strlit("Infinity");
    reveal_strlit("-Infinity");
    reveal_strlit("NaN");
    reveal_strlit("true");
    reveal_strlit("false");
    reveal_strlit("mull");
    assert(is_digit(s[0]));
    assert(s != "Infinity"@ && s != "-Infinity"@ && s != "NaN"@);
    assert(s != "true"@ && s != "false"@ && s != "mull"@);
    assert(int_end(s, p) == p);
    assert(int_end(s, 0) == p) by {
        assert forall|j: int| 0 <= j <= p implies int_end(s, j) == p by {
            lemma_int_end_to(s, j, p);
        }
    }
    assert(all_digits(s, 0, p));
    assert(s.subrange(0, p) =~= w);
    assert(all_digits(s, p + 1, s.len() as int));
    assert(s.subrange(p + 1, s.len() as int) =~= f);
    assert(number_form(s) == NumberForm::Float(d.whole as int, f));
    assert forall|m: Number| decodes_number(s, m) implies (m matches Number::Float(e) && e.whole
        == d.whole && e.fraction@ == d.fraction@) by {
        if let Number::Float(e) = m {
            assert forall|i: int| 0 <= i < e.fraction@.len() implies e.fraction@[i]
                == d.fraction@[i] by {
                lemma_digit_char(d.fraction@[i] as int);
                assert(f[i] == digit_char(d.fraction@[i] as int));
            }
            assert(e.fraction@ =~= d.fraction@);
        }
    }
    assert(bare_end(s, 1) == s.len()) by {
        assert forall|j: int| 1 <= j <= s.len() implies bare_end(s, j) == s.len() by {
            lemma_bare_end_to(s, j);
        }
    }
    assert(bare_token(s, 0) =~= s);
}

proof fn lemma_int_end_to(s: Seq<char>, j: int, p: int)
    requires
        0 <= j <= p < s.len(),
        s[p] == '.',
        forall|k: int| 0 <= k < p ==> is_digit(#[trigger] s[k]),
    ensures
        int_end(s, j) == p,
    decreases p - j,
{
    if j < p {
        assert(is_digit(s[j]));
        lemma_int_end_to(s, j + 1, p);
    }
}

proof fn lemma_bare_end_to(s: Seq<char>, j: int)
    requires
        0 <= j <= s.len(),
        forall|k: int| 0 <= k < s.len() ==> !is_stop(#[trigger] s[k]),
    ensures
        bare_end(s, j) == s.len(),
    decreases s.len() - j,
{
    if j < s.len() {
        lemma_bare_end_to(s, j + 1);
    }
}

/// A boolean written out reads back as the same boolean.
pub proof fn lemma_bool_round_trip(b: bool, ind: Seq<char>, v: DataValue)
    ensures
        ({
            let s = ser(DataValue::Bool(b), ind);
            &&& s.len() > 0
            &&& skip_space(s, 0) == 0
            &&& starts_bare(s[0])
            &&& bare_token(s, 0) == s
            &&& literal_of(s, false, v) ==> v == DataValue::Bool(b)
        }),
{
    let s = ser(DataValue::Bool(b), ind);
    reveal_strlit("true");
    reveal_strlit("false");
    reveal_strlit("mull");
    assert(bare_end(s, 1) == s.len()) by {
        reveal_with_fuel(bare_end, 6);
    }
    assert(bare_token(s, 0) =~= s);
}

proof fn lemma_quoted_text_plain(s: Seq<char>, i: int)
    requires
        0 <= i < s.len(),
        s[s.len() - 1] == '"',
        forall|j: int| i <= j < s.len() - 1 ==> #[trigger] s[j] != '"' && s[j] != '\\',
    ensures
        quoted_text(s, i, false) == s.subrange(i, s.len() - 1),
        quoted_closed(s, i, false),
    decreases s.len() - i,
{
    if i < s.len() - 1 {
        lemma_quoted_text_plain(s, i + 1);
        assert(s.subrange(i, s.len() - 1) =~= seq![s[i]] + s.subrange(i + 1, s.len() - 1));
    } else {
        assert(s.subrange(i, s.len() - 1) =~= Seq::<char>::empty());
    }
}

/// A string with no `"` or backslash, which does not read as a date,
/// written out and read back as a quoted literal, is the same string.
pub proof fn lemma_string_round_trip(text: String, ind: Seq<char>, v: DataValue)
    requires
        forall|j: int| 0 <= j < text@.len() ==> #[trigger] text@[j] != '"' && text@[j] != '\\',
        !is_date(text@),
    ensures
        ({
            let s = ser(DataValue::String(text), ind);
            &&& skip_space(s, 0) == 0
            &&& s[0] == '"'
            &&& quoted_text(s, 1, false) == text@
            &&& quoted_closed(s, 1, false)
            &&& literal_of(text@, true, v) ==> (v matches DataValue::String(u) && u@ == text@)
        }),
{
    let s = ser(DataValue::String(text), ind);
    assert(s == seq!['"'] + text@ + seq!['"']);
    assert forall|j: int| 1 <= j < s.len() - 1 implies #[trigger] s[j] != '"' && s[j] != '\\' by {
        assert(s[j] == text@[j - 1]);
    }
    lemma_quoted_text_plain(s, 1);
    assert(s.subrange(1, s.len() - 1) =~= text@);
}

/// The text of a date, character by character.
spec fn date_chars(p: DateParts, off: int) -> Seq<char> {
    let y = p.year as int;
    let ms = p.nano as int / 1_000_000;
    seq![
        digit_char((y / 100) / 10),
        digit_char((y / 100) % 10),
        digit_char((y % 100) / 10),
        digit_char((y % 100) % 10),
        '-',
        digit_char(p.month as int / 10),
        digit_char(p.month as int % 10),
        '-',
        digit_char(p.day as int / 10),
        digit_char(p.day as int % 10),
        'T',
        digit_char(p.hour as int / 10),
        digit_char(p.hour as int % 10),
        ':',
        digit_char(p.minute as int / 10),
        digit_char(p.minute as int % 10),
        ':',
        digit_char(p.second as int / 10),
        digit_char(p.second as int % 10),
        '.',
        digit_char(ms / 100),
        digit_char((ms / 10) % 10),
        digit_char(ms % 10),
    ] + zone_text(off)
}

proof fn lemma_two(s: Seq<char>, i: int, n: int)
    requires
        0 <= n < 100,
        0 <= i,
        i + 1 < s.len(),
        s[i] == digit_char(n / 10),
        s[i + 1] == digit_char(n % 10),
    ensures
        is_digit(char_at(s, i)),
        is_digit(char_at(s, i + 1)),
        two(s, i) == n,
{
    lemma_digit_char(n / 10);
    lemma_digit_char(n % 10);
}

proof fn lemma_digits_value_3(d: Seq<char>, n: int)
    requires
        0 <= n < 1000,
        d.len() == 3,
        d[0] == digit_char(n / 100),
        d[1] == digit_char((n / 10) % 10),
        d[2] == digit_char(n % 10),
    ensures
        digits_value(d) == n,
{
    lemma_digit_char(n / 100);
    lemma_digit_char((n / 10) % 10);
    lemma_digit_char(n % 10);
    let d2s = d.drop_last();
    let d1s = d2s.drop_last();
    let d0s = d1s.drop_last();
    assert(d0s.len() == 0);
    assert(digits_value(d0s) == 0);
    assert(digits_value(d1s) == n / 100);
    assert(digits_value(d2s) == (n / 100) * 10 + (n / 10) % 10);
}

proof fn lemma_date_chars(p: DateParts, off: int)
    ensures
        date_text(p, off) == date_chars(p, off),
{
    assert(date_text(p, off) =~= date_chars(p, off));
}

proof fn lemma_date_head(p: DateParts, off: int)
    requires
        p.wf(),
    ensures
        crate::date::date_head_ok(date_chars(p, off)),
        crate::date::parts_of(date_chars(p, off)).year == p.year,
        crate::date::parts_of(date_chars(p, off)).month == p.month,
        crate::date::parts_of(date_chars(p, off)).day == p.day,
        crate::date::parts_of(date_chars(p, off)).hour == p.hour,
        crate::date::parts_of(date_chars(p, off)).minute == p.minute,
        crate::date::parts_of(date_chars(p, off)).second == p.second,
        date_chars(p, off)[19] == '.',
{
    let t = date_chars(p, off);
    let y = p.year as int;
    lemma_two(t, 0, y / 100);
    lemma_two(t, 2, y % 100);
    lemma_two(t, 5, p.month as int);
    lemma_two(t, 8, p.day as int);
    lemma_two(t, 11, p.hour as int);
    lemma_two(t, 14, p.minute as int);
    lemma_two(t, 17, p.second as int);
}

proof fn lemma_date_fraction(p: DateParts, off: int)
    requires
        p.wf(),
        p.nano % 1_000_000 == 0,
    ensures
        digit_end(date_chars(p, off), 20) == 23,
        crate::date::nano_of(date_chars(p, off)) == p.nano,
        crate::date::zone_start(date_chars(p, off)) == 23,
        crate::date::fraction_ok(date_chars(p, off)),
{
    let t = date_chars(p, off);
    let ms = p.nano as int / 1_000_000;
    lemma_digit_char(ms / 100);
    lemma_digit_char((ms / 10) % 10);
    lemma_digit_char(ms % 10);
    assert(t.len() >= 24);
    assert(!is_digit(t[23]));
    assert(digit_end(t, 23) == 23);
    assert(is_digit(t[22]));
    assert(digit_end(t, 22) == 23);
    assert(is_digit(t[21]));
    assert(digit_end(t, 21) == 23);
    assert(is_digit(t[20]));
    assert(digit_end(t, 20) == 23);
    lemma_digits_value_3(t.subrange(20, 23), ms);
    assert(pow10(6) == 1_000_000) by {
        reveal_with_fuel(pow10, 7);
    }
    assert(ms * 1_000_000 == p.nano);
}

proof fn lemma_date_zone(p: DateParts, off: int)
    requires
        offset_valid(off),
    ensures
        offset_at(date_chars(p, off), 23) == Some(off),
{
    let t = date_chars(p, off);
    if off == 0 {
        assert(t.len() == 24);
    } else {
        let a = if off < 0 {
            -off
        } else {
            off
        };
        let mins = (a + 30) / 60;
        assert(mins == a / 60);
        assert(mins < 1440);
        assert(t.len() == 29);
        lemma_two(t, 24, mins / 60);
        lemma_two(t, 27, mins % 60);
        assert(crate::date::zone_magnitude(t, 23) == Some(a));
    }
}

/// A well-formed date with whole milliseconds, written out in RFC 3339
/// form, decodes as the same date.
pub proof fn lemma_date_round_trip(d: Date)
    requires
        d.wf(),
        (match d {
            Date::DateTimeUtc(p) => p.nano % 1_000_000 == 0,
            Date::DateTimeOffset(p, off) => p.nano % 1_000_000 == 0 && off != 0,
        }),
    ensures
        is_date(crate::text::date_text_of(d)),
        date_of(crate::text::date_text_of(d)) == d,
{
    let (p, off) = match d {
        Date::DateTimeUtc(p) => (p, 0int),
        Date::DateTimeOffset(p, o) => (p, o as int),
    };
    let t = crate::text::date_text_of(d);
    lemma_date_chars(p, off);
    lemma_date_head(p, off);
    lemma_date_fraction(p, off);
    lemma_date_zone(p, off);
    assert(t == date_chars(p, off));
    assert(crate::date::parts_of(t) == p);
}

/// The cursor after `n` more characters are read.
pub open spec fn advance(r: Cursor, n: nat) -> Cursor
    decreases n,
{
    if n == 0 {
        r
    } else {
        step(advance(r, (n - 1) as nat)).1
    }
}

proof fn lemma_advance(r: Cursor, n: nat)
    requires
        0 <= r.i,
        r.i + n <= r.text.len(),
    ensures
        advance(r, n).text == r.text,
        advance(r, n).i == r.i + n,
    decreases n,
{
    if n > 0 {
        lemma_advance(r, (n - 1) as nat);
    }
}

proof fn lemma_quoted_key_chars(r: Cursor, k: Seq<char>, es: Seq<(Seq<char>, Tree)>, j: nat)
    requires
        0 <= r.i,
        r.i + k.len() + 3 <= r.text.len(),
        j <= k.len(),
        r.text.subrange(r.i + 1, r.i + 1 + k.len()) == k,
        forall|x: int| 0 <= x < k.len() ==> #[trigger] k[x] != '"',
        r.text[r.i + 1 + k.len()] == '"',
        r.text[r.i + 2 + k.len()] == ':',
    ensures
        map_loop(advance(r, 1 + j), MapDeserialState::InKey, k.take(j as int), true, es)
            == map_loop(
            advance(r, k.len() + 3),
            MapDeserialState::BeforeValue,
            k,
            false,
            es,
        ),
    decreases k.len() - j,
{
    let c = advance(r, 1 + j);
    lemma_advance(r, 1 + j);
    lemma_advance(r, 2 + j);
    assert(advance(r, 2 + j) == step(c).1);
    if j < k.len() {
        assert(r.text[r.i + 1 + j] == k[j as int]);
        assert(k.take(j as int).push(k[j as int]) =~= k.take(j + 1 as int));
        lemma_quoted_key_chars(r, k, es, j + 1);
    } else {
        assert(k.take(j as int) =~= k);
        lemma_advance(r, k.len() + 3);
        let c1 = advance(r, k.len() + 2);
        assert(c1 == step(c).1);
        assert(step(c).0 == '"');
        assert(c1.i == r.i + k.len() + 2);
        assert(step(c1).0 == ':');
        assert(advance(r, k.len() + 3) == step(c1).1);
        assert(map_loop(c, MapDeserialState::InKey, k, true, es) == map_loop(
            c1,
            MapDeserialState::AfterKey,
            k,
            false,
            es,
        ));
    }
}

proof fn lemma_bare_key_chars(r: Cursor, k: Seq<char>, es: Seq<(Seq<char>, Tree)>, j: nat)
    requires
        0 <= r.i,
        r.i + k.len() + 1 <= r.text.len(),
        1 <= j <= k.len(),
        r.text.subrange(r.i, r.i + k.len()) == k,
        forall|x: int|
            0 <= x < k.len() ==> !is_space(#[trigger] k[x]) && k[x] != ':' && k[x] != '"',
        r.text[r.i + k.len()] == ':',
    ensures
        map_loop(advance(r, j), MapDeserialState::InKey, k.take(j as int), false, es) == map_loop(
            advance(r, k.len() + 1),
            MapDeserialState::BeforeValue,
            k,
            false,
            es,
        ),
    decreases k.len() - j,
{
    let c = advance(r, j);
    lemma_advance(r, j);
    lemma_advance(r, j + 1);
    assert(advance(r, j + 1) == step(c).1);
    if j < k.len() {
        assert(r.text[r.i + j] == k[j as int]);
        assert(k.take(j as int).push(k[j as int]) =~= k.take(j + 1 as int));
        lemma_bare_key_chars(r, k, es, j + 1);
    } else {
        assert(k.take(j as int) =~= k);
    }
}

/// A key written in quotes, `"k":`, and the same key written bare, `k:`,
/// bring a map's body to the same point: a value is expected next, under
/// the key `k`, with the entries read so far unchanged. A bare key holds no
/// white space, `:` or `"`, and does not start with `}` where the map is
/// still empty.
pub proof fn lemma_bare_and_quoted_keys(
    rq: Cursor,
    rb: Cursor,
    k: Seq<char>,
    es: Seq<(Seq<char>, Tree)>,
)
    requires
        k.len() >= 1,
        forall|x: int|
            0 <= x < k.len() ==> !is_space(#[trigger] k[x]) && k[x] != ':' && k[x] != '"',
        es.len() == 0 ==> k[0] != '}',
        0 <= rq.i,
        rq.i + k.len() + 3 <= rq.text.len(),
        rq.text[rq.i] == '"',
        rq.text.subrange(rq.i + 1, rq.i + 1 + k.len()) == k,
        rq.text[rq.i + 1 + k.len()] == '"',
        rq.text[rq.i + 2 + k.len()] == ':',
        0 <= rb.i,
        rb.i + k.len() + 1 <= rb.text.len(),
        rb.text.subrange(rb.i, rb.i + k.len()) == k,
        rb.text[rb.i + k.len()] == ':',
    ensures
        map_loop(rq, MapDeserialState::BeforeKey, Seq::empty(), false, es) == map_loop(
            advance(rq, k.len() + 3),
            MapDeserialState::BeforeValue,
            k,
            false,
            es,
        ),
        map_loop(rb, MapDeserialState::BeforeKey, Seq::empty(), false, es) == map_loop(
            advance(rb, k.len() + 1),
            MapDeserialState::BeforeValue,
            k,
            false,
            es,
        ),
{
    lemma_quoted_key_chars(rq, k, es, 0);
    assert(advance(rq, 0) == rq);
    assert(advance(rq, 1) == step(rq).1);
    assert(k.take(0) =~= Seq::<char>::empty());
    assert(rb.text[rb.i] == k[0]);
    lemma_bare_key_chars(rb, k, es, 1);
    assert(advance(rb, 0) == rb);
    assert(advance(rb, 1) == step(rb).1);
    assert(Seq::<char>::empty().push(k[0]) =~= k.take(1));
}

} // verus!
