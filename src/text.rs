use vstd::prelude::*;
use chrono::{TimeZone, Timelike};
use crate::value::{offset_valid, value_ok, DataList, DataMap, DataValue, Date, DateParts, Number};

verus! {

pub open spec fn digit_char(n: int) -> char {
    if n == 0 {
        '0'
    } else if n == 1 {
        '1'
    } else if n == 2 {
        '2'
    } else if n == 3 {
        '3'
    } else if n == 4 {
        '4'
    } else if n == 5 {
        '5'
    } else if n == 6 {
        '6'
    } else if n == 7 {
        '7'
    } else if n == 8 {
        '8'
    } else {
        '9'
    }
}

/// The decimal digits of `n`, without leading zeros.
pub open spec fn nat_text(n: nat) -> Seq<char>
    decreases n,
{
    if n < 10 {
        seq![digit_char(n as int)]
    } else {
        nat_text(n / 10).push(digit_char((n % 10) as int))
    }
}

pub open spec fn int_text(i: int) -> Seq<char> {
    if i < 0 {
        seq!['-'] + nat_text((-i) as nat)
    } else {
        nat_text(i as nat)
    }
}

pub open spec fn fraction_text(f: Seq<u8>) -> Seq<char> {
    Seq::new(f.len(), |i: int| digit_char(f[i] as int))
}

pub open spec fn number_text(n: Number) -> Seq<char> {
    match n {
        Number::Int(i) => int_text(i as int),
        Number::Float(d) => int_text(d.whole as int) + seq!['.'] + fraction_text(d.fraction@),
        Number::PositiveInfinity => "Infinity"@,
        Number::NegativeInfinity => "-Infinity"@,
        Number::NaN => "NaN"@,
    }
}

/// Two digits, with a leading zero.
pub open spec fn d2(n: int) -> Seq<char> {
    seq![digit_char(n / 10), digit_char(n % 10)]
}

pub open spec fn d3(n: int) -> Seq<char> {
    seq![digit_char(n / 100), digit_char((n / 10) % 10), digit_char(n % 10)]
}

/// `Z` for a zero offset, else the sign and `HH:MM`.
pub open spec fn zone_text(off: int) -> Seq<char> {
    if off == 0 {
        seq!['Z']
    } else {
        let a = if off < 0 {
            -off
        } else {
            off
        };
        let mins = (a + 30) / 60;
        seq![
            if off < 0 {
                '-'
            } else {
                '+'
            },
        ] + d2(mins / 60) + seq![':'] + d2(mins % 60)
    }
}

/// RFC 3339 with milliseconds: `YYYY-MM-DDTHH:MM:SS.mmm` and the zone.
pub open spec fn date_text(p: DateParts, off: int) -> Seq<char> {
    d2(p.year as int / 100) + d2(p.year as int % 100) + seq!['-'] + d2(p.month as int) + seq!['-'] + d2(
        p.day as int,
    ) + seq!['T'] + d2(p.hour as int) + seq![':'] + d2(p.minute as int) + seq![':'] + d2(
        p.second as int,
    ) + seq!['.'] + d3(p.nano as int / 1_000_000) + zone_text(off)
}

pub open spec fn date_text_of(d: Date) -> Seq<char> {
    match d {
        Date::DateTimeUtc(p) => date_text(p, 0),
        Date::DateTimeOffset(p, off) => date_text(p, off as int),
    }
}

/// The text form of a value, as nested levels are written at `ind`.
pub open spec fn ser(v: DataValue, ind: Seq<char>) -> Seq<char>
    decreases v, 0int,
{
    match v {
        DataValue::String(s) => seq!['"'] + s@ + seq!['"'],
        DataValue::Number(n) => number_text(n),
        DataValue::Bool(b) => if b {
            "true"@
        } else {
            "false"@
        },
        DataValue::Date(d) => seq!['"'] + date_text_of(d) + seq!['"'],
        DataValue::DataMap(m) => "{\r\n"@ + ser_entries(m.map@, 0, ind) + ind + "}"@,
        DataValue::DataList(l) => "[\r\n"@ + ser_items(l.vec@, 0, ind) + ind + "]"@,
        DataValue::Null => "null"@,
        DataValue::Absent => "null"@,
    }
}

/// The entries of a map from the `i`-th on, one to a line.
pub open spec fn ser_entries(es: Seq<(String, DataValue)>, i: int, ind: Seq<char>) -> Seq<char>
    decreases es, es.len() - i,
{
    if i < 0 || i >= es.len() {
        Seq::empty()
    } else {
        ind + "  \""@ + es[i].0@ + "\":"@ + ser(es[i].1, ind + "  "@) + (if i + 1 < es.len() {
            ","@
        } else {
            Seq::empty()
        }) + "\r\n"@ + ser_entries(es, i + 1, ind)
    }
}

/// The items of a list from the `i`-th on, one to a line.
pub open spec fn ser_items(vs: Seq<DataValue>, i: int, ind: Seq<char>) -> Seq<char>
    decreases vs, vs.len() - i,
{
    if i < 0 || i >= vs.len() {
        Seq::empty()
    } else {
        ind + "  "@ + ser(vs[i], ind + "  "@) + (if i + 1 < vs.len() {
            ","@
        } else {
            Seq::empty()
        }) + "\r\n"@ + ser_items(vs, i + 1, ind)
    }
}

/// What `get_string` gives: a string's own text, a date's RFC 3339 text, a
/// container's serialization, `null` for null and absent values.
pub open spec fn value_text(v: DataValue) -> Seq<char> {
    match v {
        DataValue::String(s) => s@,
        DataValue::Number(n) => number_text(n),
        DataValue::Bool(b) => if b {
            "true"@
        } else {
            "false"@
        },
        DataValue::Date(d) => date_text_of(d),
        DataValue::DataMap(_) => ser(v, Seq::empty()),
        DataValue::DataList(_) => ser(v, Seq::empty()),
        _ => "null"@,
    }
}

/// Relies on std's `FromIterator<char>` for `String`: the characters in order.
#[verifier::external_body]
pub(crate) fn string_of(v: &Vec<char>) -> (r: String)
    ensures
        r@ == v@,
{
    v.iter().collect()
}

/// Relies on chrono's `DateTime::to_rfc3339_opts` with `SecondsFormat::Millis`
/// and `use_z`: a four-digit year, two-digit fields, three digits of
/// milliseconds, then `Z`.
#[verifier::external_body]
fn render_utc(p: DateParts) -> (r: String)
    requires
        p.wf(),
    ensures
        r@ == date_text(p, 0),
{
    chrono::Utc.with_ymd_and_hms(p.year as i32, p.month, p.day, p.hour, p.minute, p.second).unwrap()
        .with_nanosecond(p.nano).unwrap().to_rfc3339_opts(chrono::SecondsFormat::Millis, true)
}

/// Relies on chrono's `DateTime::to_rfc3339_opts` with `SecondsFormat::Millis`
/// for a `FixedOffset` date: the local fields as `render_utc` writes them,
/// then the offset as a sign and `HH:MM` (`Z` for zero).
#[verifier::external_body]
fn render_offset(p: DateParts, off: i32) -> (r: String)
    requires
        p.wf(),
        offset_valid(off as int),
    ensures
        r@ == date_text(p, off as int),
{
    chrono::FixedOffset::east_opt(off).unwrap().with_ymd_and_hms(
        p.year as i32,
        p.month,
        p.day,
        p.hour,
        p.minute,
        p.second,
    ).unwrap().with_nanosecond(p.nano).unwrap().to_rfc3339_opts(
        chrono::SecondsFormat::Millis,
        true,
    )
}

fn render_date(d: &Date) -> (r: String)
    requires
        d.wf(),
    ensures
        r@ == date_text_of(*d),
{
    match d {
        Date::DateTimeUtc(p) => render_utc(*p),
        Date::DateTimeOffset(p, off) => render_offset(*p, *off),
    }
}

fn digit_to_char(d: u8) -> (c: char)
    requires
        d < 10,
    ensures
        c == digit_char(d as int),
{
    if d == 0 {
        '0'
    } else if d == 1 {
        '1'
    } else if d == 2 {
        '2'
    } else if d == 3 {
        '3'
    } else if d == 4 {
        '4'
    } else if d == 5 {
        '5'
    } else if d == 6 {
        '6'
    } else if d == 7 {
        '7'
    } else if d == 8 {
        '8'
    } else {
        '9'
    }
}

/// Appends the characters of `s`.
pub fn push_str(buf: &mut Vec<char>, s: &str)
    ensures
        final(buf)@ == old(buf)@ + s@,
{
    let n = s.unicode_len();
    let mut i: usize = 0;
    while i < n
        invariant
            n == s@.len(),
            i <= n,
            buf@ == old(buf)@ + s@.subrange(0, i as int),
        decreases n - i,
    {
        buf.push(s.get_char(i));
        i += 1;
        proof {
            assert(buf@ =~= old(buf)@ + s@.subrange(0, i as int));
        }
    }
    proof {
        assert(s@.subrange(0, n as int) =~= s@);
    }
}

fn push_chars(buf: &mut Vec<char>, s: &Vec<char>)
    ensures
        final(buf)@ == old(buf)@ + s@,
{
    let mut i: usize = 0;
    while i < s.len()
        invariant
            i <= s@.len(),
            buf@ == old(buf)@ + s@.subrange(0, i as int),
        decreases s@.len() - i,
    {
        buf.push(s[i]);
        i += 1;
        proof {
            assert(buf@ =~= old(buf)@ + s@.subrange(0, i as int));
        }
    }
    proof {
        assert(s@.subrange(0, i as int) =~= s@);
    }
}

pub(crate) fn push_nat(buf: &mut Vec<char>, n: u64)
    ensures
        final(buf)@ == old(buf)@ + nat_text(n as nat),
    decreases n,
{
    if n >= 10 {
        push_nat(buf, n / 10);
    }
    buf.push(digit_to_char((n % 10) as u8));
    proof {
        if n >= 10 {
            assert(buf@ =~= old(buf)@ + nat_text(n as nat));
        } else {
            assert(buf@ =~= old(buf)@ + nat_text(n as nat));
        }
    }
}

fn push_int(buf: &mut Vec<char>, i: i64)
    ensures
        final(buf)@ == old(buf)@ + int_text(i as int),
{
    if i < 0 {
        buf.push('-');
        let ghost mid = buf@;
        push_nat(buf, (-(i as i128)) as u64);
        proof {
            assert(buf@ =~= old(buf)@ + int_text(i as int));
        }
    } else {
        push_nat(buf, i as u64);
    }
}

fn push_number(buf: &mut Vec<char>, n: &Number)
    requires
        n is Float ==> forall|i: int|
            0 <= i < (n->Float_0).fraction@.len() ==> (n->Float_0).fraction@[i] < 10,
    ensures
        final(buf)@ == old(buf)@ + number_text(*n),
{
    match n {
        Number::Int(i) => push_int(buf, *i),
        Number::Float(d) => {
            push_int(buf, d.whole);
            buf.push('.');
            let ghost mid = buf@;
            let mut i: usize = 0;
            while i < d.fraction.len()
                invariant
                    i <= d.fraction@.len(),
                    forall|j: int| 0 <= j < d.fraction@.len() ==> d.fraction@[j] < 10,
                    buf@ == mid + fraction_text(d.fraction@).subrange(0, i as int),
                decreases d.fraction@.len() - i,
            {
                buf.push(digit_to_char(d.fraction[i]));
                i += 1;
                proof {
                    assert(buf@ =~= mid + fraction_text(d.fraction@).subrange(0, i as int));
                }
            }
            proof {
                assert(fraction_text(d.fraction@).subrange(0, i as int) =~= fraction_text(
                    d.fraction@,
                ));
                assert(buf@ =~= old(buf)@ + number_text(*n));
            }
        },
        Number::PositiveInfinity => push_str(buf, "Infinity"),
        Number::NegativeInfinity => push_str(buf, "-Infinity"),
        Number::NaN => push_str(buf, "NaN"),
    }
}

fn serialize_value(v: &DataValue, buffer: &mut Vec<char>, indent: &Vec<char>)
    requires
        value_ok(*v),
    ensures
        final(buffer)@ == old(buffer)@ + ser(*v, indent@),
    decreases v,
{
    match v {
        DataValue::String(s) => {
            buffer.push('"');
            push_str(buffer, s.as_str());
            buffer.push('"');
            proof {
                assert(buffer@ =~= old(buffer)@ + ser(*v, indent@));
            }
        },
        DataValue::Number(n) => push_number(buffer, n),
        DataValue::Bool(b) => {
            if *b {
                push_str(buffer, "true");
            } else {
                push_str(buffer, "false");
            }
        },
        DataValue::Date(d) => {
            buffer.push('"');
            let s = render_date(d);
            push_str(buffer, s.as_str());
            buffer.push('"');
            proof {
                assert(buffer@ =~= old(buffer)@ + ser(*v, indent@));
            }
        },
        DataValue::DataMap(m) => serialize_map(m, buffer, indent),
        DataValue::DataList(l) => serialize_list(l, buffer, indent),
        DataValue::Null => push_str(buffer, "null"),
        DataValue::Absent => push_str(buffer, "null"),
    }
}

fn serialize_map(m: &DataMap, buffer: &mut Vec<char>, indent: &Vec<char>)
    requires
        m.ok(),
    ensures
        final(buffer)@ == old(buffer)@ + ("{\r\n"@ + ser_entries(m.map@, 0, indent@) + indent@
            + "}"@),
    decreases m,
{
    push_str(buffer, "{\r\n");
    let ghost start = buffer@;
    let mut deeper: Vec<char> = Vec::new();
    push_chars(&mut deeper, indent);
    push_str(&mut deeper, "  ");
    assert(deeper@ =~= indent@ + "  "@);
    let n = m.map.len();
    let mut i: usize = 0;
    while i < n
        invariant
            n == m.map@.len(),
            m.ok(),
            i <= n,
            deeper@ == indent@ + "  "@,
            buffer@ + ser_entries(m.map@, i as int, indent@) == start + ser_entries(
                m.map@,
                0,
                indent@,
            ),
        decreases n - i,
    {
        let ghost before = buffer@;
        push_chars(buffer, indent);
        push_str(buffer, "  \"");
        push_str(buffer, m.map[i].0.as_str());
        push_str(buffer, "\":");
        proof {
            assert(value_ok(m.map@[i as int].1));
        }
        serialize_value(&m.map[i].1, buffer, &deeper);
        if i + 1 < n {
            push_str(buffer, ",");
        }
        push_str(buffer, "\r\n");
        proof {
            let es = m.map@;
            let piece = indent@ + "  \""@ + es[i as int].0@ + "\":"@ + ser(
                es[i as int].1,
                indent@ + "  "@,
            ) + (if i + 1 < es.len() {
                ","@
            } else {
                Seq::empty()
            }) + "\r\n"@;
            assert(buffer@ =~= before + piece);
            assert(ser_entries(es, i as int, indent@) =~= piece + ser_entries(
                es,
                i + 1,
                indent@,
            ));
            assert(buffer@ + ser_entries(es, i + 1, indent@) =~= before + ser_entries(
                es,
                i as int,
                indent@,
            ));
        }
        i += 1;
    }
    proof {
        assert(buffer@ =~= start + ser_entries(m.map@, 0, indent@));
    }
    push_chars(buffer, indent);
    push_str(buffer, "}");
    proof {
        assert(buffer@ =~= old(buffer)@ + ("{\r\n"@ + ser_entries(m.map@, 0, indent@) + indent@
            + "}"@));
    }
}

fn serialize_list(l: &DataList, buffer: &mut Vec<char>, indent: &Vec<char>)
    requires
        l.ok(),
    ensures
        final(buffer)@ == old(buffer)@ + ("[\r\n"@ + ser_items(l.vec@, 0, indent@) + indent@
            + "]"@),
    decreases l,
{
    push_str(buffer, "[\r\n");
    let ghost start = buffer@;
    let mut deeper: Vec<char> = Vec::new();
    push_chars(&mut deeper, indent);
    push_str(&mut deeper, "  ");
    assert(deeper@ =~= indent@ + "  "@);
    let n = l.vec.len();
    let mut i: usize = 0;
    while i < n
        invariant
            n == l.vec@.len(),
            l.ok(),
            i <= n,
            deeper@ == indent@ + "  "@,
            buffer@ + ser_items(l.vec@, i as int, indent@) == start + ser_items(
                l.vec@,
                0,
                indent@,
            ),
        decreases n - i,
    {
        let ghost before = buffer@;
        push_chars(buffer, indent);
        push_str(buffer, "  ");
        proof {
            assert(value_ok(l.vec@[i as int]));
        }
        serialize_value(&l.vec[i], buffer, &deeper);
        if i + 1 < n {
            push_str(buffer, ",");
        }
        push_str(buffer, "\r\n");
        proof {
            let vs = l.vec@;
            let piece = indent@ + "  "@ + ser(vs[i as int], indent@ + "  "@) + (if i + 1
                < vs.len() {
                ","@
            } else {
                Seq::empty()
            }) + "\r\n"@;
            assert(buffer@ =~= before + piece);
            assert(ser_items(vs, i as int, indent@) =~= piece + ser_items(vs, i + 1, indent@));
            assert(buffer@ + ser_items(vs, i + 1, indent@) =~= before + ser_items(
                vs,
                i as int,
                indent@,
            ));
        }
        i += 1;
    }
    proof {
        assert(buffer@ =~= start + ser_items(l.vec@, 0, indent@));
    }
    push_chars(buffer, indent);
    push_str(buffer, "]");
    proof {
        assert(buffer@ =~= old(buffer)@ + ("[\r\n"@ + ser_items(l.vec@, 0, indent@) + indent@
            + "]"@));
    }
}

impl DataValue {
    /// The value in its indented text form.
    pub fn get_serialized_string(&self) -> (r: String)
        requires
            value_ok(*self),
        ensures
            r@ == ser(*self, Seq::empty()),
    {
        let mut buffer: Vec<char> = Vec::new();
        let indent: Vec<char> = Vec::new();
        serialize_value(self, &mut buffer, &indent);
        proof {
            assert(buffer@ =~= ser(*self, Seq::empty()));
        }
        string_of(&buffer)
    }

    /// A string's own text, a number's or a boolean's text, a date's RFC 3339
    /// text, a container's serialization, and `null` for null and absent
    /// values.
    pub fn get_string(&self) -> (r: String)
        requires
            value_ok(*self),
        ensures
            r@ == value_text(*self),
    {
        match self {
            DataValue::String(s) => s.clone(),
            DataValue::Number(n) => {
                let mut buffer: Vec<char> = Vec::new();
                push_number(&mut buffer, n);
                proof {
                    assert(buffer@ =~= number_text(*n));
                }
                string_of(&buffer)
            },
            DataValue::Bool(b) => {
                if *b {
                    String::from_str("true")
                } else {
                    String::from_str("false")
                }
            },
            DataValue::Date(d) => render_date(d),
            DataValue::DataMap(_) => self.get_serialized_string(),
            DataValue::DataList(_) => self.get_serialized_string(),
            _ => String::from_str("null"),
        }
    }
}

impl DataMap {
    pub fn get_serialized_string(&self) -> (r: String)
        requires
            self.ok(),
        ensures
            r@ == ser(DataValue::DataMap(*self), Seq::empty()),
    {
        let mut buffer: Vec<char> = Vec::new();
        let indent: Vec<char> = Vec::new();
        serialize_map(self, &mut buffer, &indent);
        proof {
            assert(buffer@ =~= ser(DataValue::DataMap(*self), Seq::empty()));
        }
        string_of(&buffer)
    }

    /// The text of the value under `k`, `null` where there is none.
    pub fn get_string(&self, k: &str) -> (r: String)
        requires
            self.ok(),
        ensures
            r@ == value_text(self.lookup(k@)),
    {
        let v = self.get(k);
        proof {
            if let Some(i) = crate::value::key_index(self.map@, k@) {
                assert(value_ok(self.map@[i].1));
            }
        }
        v.get_string()
    }
}

impl DataList {
    pub fn get_serialized_string(&self) -> (r: String)
        requires
            self.ok(),
        ensures
            r@ == ser(DataValue::DataList(*self), Seq::empty()),
    {
        let mut buffer: Vec<char> = Vec::new();
        let indent: Vec<char> = Vec::new();
        serialize_list(self, &mut buffer, &indent);
        proof {
            assert(buffer@ =~= ser(DataValue::DataList(*self), Seq::empty()));
        }
        string_of(&buffer)
    }
}

} // verus!
