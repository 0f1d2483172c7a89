use vstd::prelude::*;
use crate::date::{date_of, is_date, parse_date};
use crate::decode::{decodes_number, is_number, parse_number, text_is};
use crate::reader::{step, unstep, Cursor, SerialReader};
use crate::text::{nat_text, push_nat, push_str, string_of};
use crate::value::{key_index, keys_unique, map_put, value_ok, DataError, DataList, DataMap, DataValue};

verus! {

pub open spec fn is_space(c: char) -> bool {
    c == ' ' || c == '\r' || c == '\n' || c == '\t'
}

/// A character that ends a bare token.
pub open spec fn is_stop(c: char) -> bool {
    is_space(c) || c == '}' || c == ']' || c == ','
}

/// The first position from `i` on that holds no white space, or the end.
pub open spec fn skip_space(s: Seq<char>, i: int) -> int
    decreases s.len() - i,
{
    if 0 <= i < s.len() && is_space(s[i]) {
        skip_space(s, i + 1)
    } else {
        i
    }
}

/// The first position from `i` on that ends a bare token, or the end.
pub open spec fn bare_end(s: Seq<char>, i: int) -> int
    decreases s.len() - i,
{
    if 0 <= i < s.len() && !is_stop(s[i]) {
        bare_end(s, i + 1)
    } else {
        i
    }
}

/// A character that starts a bare token where a value is expected.
pub open spec fn starts_bare(c: char) -> bool {
    !is_space(c) && c != '{' && c != '[' && c != '}' && c != ']' && c != ',' && c != '"'
}

/// The token of the bare literal that starts at `a`.
pub open spec fn bare_token(s: Seq<char>, a: int) -> Seq<char> {
    s.subrange(a, bare_end(s, a + 1))
}

proof fn lemma_skip_space_le(s: Seq<char>, i: int)
    requires
        0 <= i <= s.len(),
    ensures
        i <= skip_space(s, i) <= s.len(),
        skip_space(s, i) < s.len() ==> !is_space(s[skip_space(s, i)]),
    decreases s.len() - i,
{
    if i < s.len() && is_space(s[i]) {
        lemma_skip_space_le(s, i + 1);
    }
}

/// What an escaped character stands for; an unknown escape stands for
/// nothing.
pub open spec fn escape_of(c: char) -> Seq<char> {
    if c == '\\' {
        seq!['\\']
    } else if c == 'n' {
        seq!['\n']
    } else if c == 'r' {
        seq!['\r']
    } else if c == 't' {
        seq!['\t']
    } else if c == '/' {
        seq!['/']
    } else if c == '"' {
        seq!['"']
    } else {
        Seq::empty()
    }
}

/// The text of a quoted literal whose body starts at `i`, up to the closing
/// quote or the end of the input, with escapes resolved; `esc` says that
/// a backslash came just before `i`.
pub open spec fn quoted_text(s: Seq<char>, i: int, esc: bool) -> Seq<char>
    decreases s.len() - i,
{
    if i < 0 || i >= s.len() {
        Seq::empty()
    } else if esc {
        escape_of(s[i]) + quoted_text(s, i + 1, false)
    } else if s[i] == '\\' {
        quoted_text(s, i + 1, true)
    } else if s[i] == '"' {
        Seq::empty()
    } else {
        seq![s[i]] + quoted_text(s, i + 1, false)
    }
}

/// What the grammar reads: a literal token (and whether it was quoted), a
/// map's entries as `put` leaves them, or a list's items in order.
pub enum Tree {
    Lit(Seq<char>, bool),
    MapOf(Seq<(Seq<char>, Tree)>),
    ListOf(Seq<Tree>),
}

/// What the grammar gives: the tree or the error message, and where the
/// reader stands after.
pub type Parsed = (Result<Tree, Seq<char>>, Cursor);

pub open spec fn tree_key_index(es: Seq<(Seq<char>, Tree)>, k: Seq<char>) -> Option<int> {
    if exists|i: int| 0 <= i < es.len() && (#[trigger] es[i]).0 == k {
        Some(choose|i: int| 0 <= i < es.len() && (#[trigger] es[i]).0 == k)
    } else {
        None
    }
}

/// `es` with `t` under `k`: replacing the entry in place, or appending.
pub open spec fn tree_put(es: Seq<(Seq<char>, Tree)>, k: Seq<char>, t: Tree) -> Seq<
    (Seq<char>, Tree),
> {
    match tree_key_index(es, k) {
        Some(i) => es.update(i, (k, t)),
        None => es.push((k, t)),
    }
}

/// `v` is the value that the tree `t` stands for.
pub open spec fn denotes(v: DataValue, t: Tree) -> bool
    decreases v,
{
    match v {
        DataValue::DataMap(m) => match t {
            Tree::MapOf(es) => entries_denote(m.map@, es) && forall|j: int|
                0 <= j < es.len() ==> denotes(#[trigger] m.map@[j].1, es[j].1),
            _ => false,
        },
        DataValue::DataList(l) => match t {
            Tree::ListOf(ts) => l.vec@.len() == ts.len() && forall|j: int|
                0 <= j < ts.len() ==> denotes(#[trigger] l.vec@[j], ts[j]),
            _ => false,
        },
        _ => match t {
            Tree::Lit(tok, q) => literal_of(tok, q, v),
            _ => false,
        },
    }
}

/// The keys of `m` are those of `es`, in the same places.
pub open spec fn entries_denote(m: Seq<(String, DataValue)>, es: Seq<(Seq<char>, Tree)>) -> bool {
    m.len() == es.len() && forall|j: int| 0 <= j < es.len() ==> (#[trigger] m[j]).0@ == es[j].0
}

/// The literal state machine, from the reader at `r` on.
pub open spec fn lit_loop(
    r: Cursor,
    state: LiteralDeserialState,
    value: Seq<char>,
    inquote: bool,
    escaping: bool,
    hasquotes: bool,
    done: bool,
) -> Parsed
    decreases r.text.len() - r.i, (if done {
        0int
    } else {
        1int
    }),
{
    if !(0 <= r.i < r.text.len()) || done {
        if state is BeforeValue || inquote {
            (Err("Unexpected end of string"@), r)
        } else {
            (Ok(Tree::Lit(value, hasquotes)), r)
        }
    } else {
        let (c, r1) = step(r);
        match state {
            LiteralDeserialState::BeforeValue => if is_space(c) {
                lit_loop(r1, state, value, inquote, escaping, hasquotes, done)
            } else if c == '"' {
                lit_loop(r1, LiteralDeserialState::InValue, value, true, escaping, true, done)
            } else {
                lit_loop(
                    r1,
                    LiteralDeserialState::InValue,
                    value.push(c),
                    inquote,
                    escaping,
                    hasquotes,
                    done,
                )
            },
            LiteralDeserialState::InValue => if inquote {
                if escaping {
                    lit_loop(r1, state, value + escape_of(c), inquote, false, hasquotes, done)
                } else if c == '\\' {
                    lit_loop(r1, state, value, inquote, true, hasquotes, done)
                } else if c == '"' {
                    lit_loop(r1, state, value, false, escaping, hasquotes, true)
                } else {
                    lit_loop(r1, state, value.push(c), inquote, escaping, hasquotes, done)
                }
            } else if is_stop(c) {
                lit_loop(unstep(r1), state, value, inquote, escaping, hasquotes, true)
            } else {
                lit_loop(r1, state, value.push(c), inquote, escaping, hasquotes, done)
            },
        }
    }
}

/// One value after optional white space.
pub open spec fn value_spec(r: Cursor) -> Parsed
    decreases r.text.len() - r.i, 1int,
{
    if !(0 <= r.i < r.text.len()) {
        (Err("Unexpected end of string"@), r)
    } else {
        let (c, r1) = step(r);
        if is_space(c) {
            value_spec(r1)
        } else {
            let r2 = unstep(r1);
            if c == '{' {
                map_entry(r2)
            } else if c == '[' {
                list_entry(r2)
            } else if c == '}' || c == ']' || c == ',' {
                (Err(located("Unexpected character"@, r2.row, r2.col)), r2)
            } else {
                lit_loop(
                    r2,
                    LiteralDeserialState::BeforeValue,
                    Seq::empty(),
                    false,
                    false,
                    false,
                    false,
                )
            }
        }
    }
}

/// A map: white space, then `{` and the map's body.
pub open spec fn map_entry(r: Cursor) -> Parsed
    decreases r.text.len() - r.i, 0int,
{
    if !(0 <= r.i < r.text.len()) {
        (Err("String unexpectedly ended"@), r)
    } else {
        let (c, r1) = step(r);
        if is_space(c) {
            map_entry(r1)
        } else if c == '{' {
            map_loop(r1, MapDeserialState::BeforeKey, Seq::empty(), false, Seq::empty())
        } else {
            let r2 = unstep(r1);
            (Err(located("Expecting '{'"@, r2.row, r2.col)), r2)
        }
    }
}

/// The body of a map after `{`, with the entries read so far.
pub open spec fn map_loop(
    r: Cursor,
    state: MapDeserialState,
    key: Seq<char>,
    inquote: bool,
    es: Seq<(Seq<char>, Tree)>,
) -> Parsed
    decreases r.text.len() - r.i, 2int,
{
    if !(0 <= r.i < r.text.len()) {
        (Err("String unexpectedly ended"@), r)
    } else {
        let (c, r1) = step(r);
        let sp = is_space(c);
        match state {
            MapDeserialState::BeforeBrace => (Err(Seq::empty()), r),
            MapDeserialState::BeforeKey => if sp {
                map_loop(r1, state, key, inquote, es)
            } else if c == '}' && es.len() == 0 {
                (Ok(Tree::MapOf(es)), r1)
            } else if c == '"' {
                map_loop(r1, MapDeserialState::InKey, key, true, es)
            } else {
                map_loop(r1, MapDeserialState::InKey, key.push(c), inquote, es)
            },
            MapDeserialState::InKey => if inquote {
                if c == '"' {
                    map_loop(r1, MapDeserialState::AfterKey, key, false, es)
                } else {
                    map_loop(r1, state, key.push(c), inquote, es)
                }
            } else if sp {
                map_loop(r1, MapDeserialState::AfterKey, key, inquote, es)
            } else if c == ':' {
                map_loop(r1, MapDeserialState::BeforeValue, key, inquote, es)
            } else if c == '"' {
                (Err(located("Unexpected '\"'"@, r1.row, r1.col)), r1)
            } else {
                map_loop(r1, state, key.push(c), inquote, es)
            },
            MapDeserialState::AfterKey => if sp {
                map_loop(r1, state, key, inquote, es)
            } else if c == ':' {
                map_loop(r1, MapDeserialState::BeforeValue, key, inquote, es)
            } else {
                (Err(located("Unexpected character"@, r1.row, r1.col)), r1)
            },
            MapDeserialState::BeforeValue => if sp {
                map_loop(r1, state, key, inquote, es)
            } else {
                let (res, r3) = value_spec(unstep(r1));
                match res {
                    Err(m) => (Err(m), r3),
                    Ok(t) => if r.i < r3.i <= r3.text.len() && r3.text == r.text {
                        map_loop(
                            r3,
                            MapDeserialState::AfterValue,
                            Seq::empty(),
                            inquote,
                            tree_put(es, key, t),
                        )
                    } else {
                        (Err(Seq::empty()), r3)
                    },
                }
            },
            MapDeserialState::AfterValue => if sp {
                map_loop(r1, state, key, inquote, es)
            } else if c == ',' {
                map_loop(r1, MapDeserialState::BeforeKey, key, inquote, es)
            } else if c == '}' {
                (Ok(Tree::MapOf(es)), r1)
            } else {
                (Err(located("Unexpected character"@, r1.row, r1.col)), r1)
            },
        }
    }
}

/// A list: white space, then `[` and the list's body.
pub open spec fn list_entry(r: Cursor) -> Parsed
    decreases r.text.len() - r.i, 0int,
{
    if !(0 <= r.i < r.text.len()) {
        (Err("String unexpectedly ended"@), r)
    } else {
        let (c, r1) = step(r);
        if is_space(c) {
            list_entry(r1)
        } else if c == '[' {
            list_loop(r1, ListDeserialState::BeforeValue, Seq::empty())
        } else {
            let r2 = unstep(r1);
            (Err(located("Expected ["@, r2.row, r2.col)), r2)
        }
    }
}

/// The body of a list after `[`, with the items read so far.
pub open spec fn list_loop(r: Cursor, state: ListDeserialState, ts: Seq<Tree>) -> Parsed
    decreases r.text.len() - r.i, 2int,
{
    if !(0 <= r.i < r.text.len()) {
        (Err("String unexpectedly ended"@), r)
    } else {
        let (c, r1) = step(r);
        let sp = is_space(c);
        match state {
            ListDeserialState::BeforeBracket => (Err(Seq::empty()), r),
            ListDeserialState::BeforeValue => if sp {
                list_loop(r1, state, ts)
            } else if c == ']' && ts.len() == 0 {
                (Ok(Tree::ListOf(ts)), r1)
            } else {
                let (res, r3) = value_spec(unstep(r1));
                match res {
                    Err(m) => (Err(m), r3),
                    Ok(t) => if r.i < r3.i <= r3.text.len() && r3.text == r.text {
                        list_loop(r3, ListDeserialState::AfterValue, ts.push(t))
                    } else {
                        (Err(Seq::empty()), r3)
                    },
                }
            },
            ListDeserialState::AfterValue => if sp {
                list_loop(r1, state, ts)
            } else if c == ',' {
                list_loop(r1, ListDeserialState::BeforeValue, ts)
            } else if c == ']' {
                (Ok(Tree::ListOf(ts)), r1)
            } else {
                (Err(located("Expected ]"@, r1.row, r1.col)), r1)
            },
        }
    }
}

/// The start of a text.
pub open spec fn start(s: Seq<char>) -> Cursor {
    Cursor { text: s, i: 0, row: 0, col: 0 }
}

/// `r` is what the grammar's result `p` says of a value.
pub open spec fn value_result(r: Result<DataValue, DataError>, p: Result<Tree, Seq<char>>) -> bool {
    match p {
        Ok(t) => r matches Ok(v) && denotes(v, t) && !(v is Absent),
        Err(m) => r matches Err(e) && e.message@ == m,
    }
}

/// `r` is what the grammar's result `p` says of a map.
pub open spec fn map_result(r: Result<DataMap, DataError>, p: Result<Tree, Seq<char>>) -> bool {
    match p {
        Ok(t) => r matches Ok(m) && denotes(DataValue::DataMap(m), t),
        Err(msg) => r matches Err(e) && e.message@ == msg,
    }
}

/// `r` is what the grammar's result `p` says of a list.
pub open spec fn list_result(r: Result<DataList, DataError>, p: Result<Tree, Seq<char>>) -> bool {
    match p {
        Ok(t) => r matches Ok(l) && denotes(DataValue::DataList(l), t),
        Err(msg) => r matches Err(e) && e.message@ == msg,
    }
}

proof fn lemma_put_denotes(
    m: Seq<(String, DataValue)>,
    es: Seq<(Seq<char>, Tree)>,
    k: String,
    v: DataValue,
    t: Tree,
)
    requires
        keys_unique(m),
        entries_denote(m, es),
    ensures
        entries_denote(map_put(m, k, v), tree_put(es, k@, t)),
        match key_index(m, k@) {
            Some(i) => tree_key_index(es, k@) == Some(i) && map_put(m, k, v) == m.update(
                i,
                (m[i].0, v),
            ) && tree_put(es, k@, t) == es.update(i, (k@, t)),
            None => tree_key_index(es, k@) is None && map_put(m, k, v) == m.push((k, v))
                && tree_put(es, k@, t) == es.push((k@, t)),
        },
{
    match key_index(m, k@) {
        Some(i) => {
            assert(es[i].0 == k@);
            let j = tree_key_index(es, k@)->0;
            assert(m[j].0@ == k@);
            if j < i {
                assert(m[j].0@ != m[i].0@);
            } else if j > i {
                assert(m[i].0@ != m[j].0@);
            }
        },
        None => {
            if exists|i: int| 0 <= i < es.len() && (#[trigger] es[i]).0 == k@ {
                let i = choose|i: int| 0 <= i < es.len() && (#[trigger] es[i]).0 == k@;
                assert(m[i].0@ == k@);
            }
        },
    }
}

/// A closing quote ends the quoted literal whose body starts at `i`.
pub open spec fn quoted_closed(s: Seq<char>, i: int, esc: bool) -> bool
    decreases s.len() - i,
{
    if i < 0 || i >= s.len() {
        false
    } else if esc {
        quoted_closed(s, i + 1, false)
    } else if s[i] == '\\' {
        quoted_closed(s, i + 1, true)
    } else if s[i] == '"' {
        true
    } else {
        quoted_closed(s, i + 1, false)
    }
}

/// What a scanned token stands for: a quoted token is a date where it
/// decodes as one, else a string; a bare one is `true`, `false`, `mull`
/// (null), a number where it decodes as one, else a string.
pub open spec fn literal_of(t: Seq<char>, quoted: bool, v: DataValue) -> bool {
    if quoted {
        if is_date(t) {
            v == DataValue::Date(date_of(t))
        } else {
            v matches DataValue::String(s) && s@ == t
        }
    } else if t == "true"@ {
        v == DataValue::Bool(true)
    } else if t == "false"@ {
        v == DataValue::Bool(false)
    } else if t == "mull"@ {
        v == DataValue::Null
    } else if is_number(t) {
        v matches DataValue::Number(n) && decodes_number(t, n)
    } else {
        v matches DataValue::String(s) && s@ == t
    }
}

/// The value of a scanned token.
pub fn literal_value(token: &Vec<char>, quoted: bool) -> (r: DataValue)
    ensures
        literal_of(token@, quoted, r),
        value_ok(r),
{
    let s = string_of(token);
    if quoted {
        match parse_date(s.as_str()) {
            Ok(d) => DataValue::Date(d),
            Err(_) => DataValue::String(s),
        }
    } else if text_is(s.as_str(), "true") {
        DataValue::Bool(true)
    } else if text_is(s.as_str(), "false") {
        DataValue::Bool(false)
    } else if text_is(s.as_str(), "mull") {
        DataValue::Null
    } else {
        match parse_number(s.as_str()) {
            Ok(n) => DataValue::Number(n),
            Err(_) => DataValue::String(s),
        }
    }
}

/// The message of an error at the reader's row and column.
pub open spec fn located(msg: Seq<char>, row: usize, col: usize) -> Seq<char> {
    msg + " at line "@ + nat_text(row as nat) + ", col "@ + nat_text(col as nat)
}

fn error_at(msg: &str, reader: &SerialReader) -> (r: DataError)
    ensures
        r.message@ == located(msg@, reader.row, reader.col),
{
    let mut buf: Vec<char> = Vec::new();
    push_str(&mut buf, msg);
    push_str(&mut buf, " at line ");
    push_nat(&mut buf, reader.row as u64);
    push_str(&mut buf, ", col ");
    push_nat(&mut buf, reader.col as u64);
    proof {
        assert(buf@ =~= located(msg@, reader.row, reader.col));
    }
    DataError { message: string_of(&buf) }
}

fn error(msg: &str) -> (r: DataError)
    ensures
        r.message@ == msg@,
{
    DataError { message: String::from_str(msg) }
}

/// What every parse step keeps: the same text, a well-formed reader, and a
/// cursor that has not moved back.
pub open spec fn kept(old_r: SerialReader, new_r: SerialReader) -> bool {
    &&& new_r.wf()
    &&& new_r.chars == old_r.chars
    &&& new_r.len == old_r.len
    &&& old_r.i <= new_r.i
}

fn is_space_char(c: char) -> (r: bool)
    ensures
        r == is_space(c),
{
    c == ' ' || c == '\r' || c == '\n' || c == '\t'
}

pub enum LiteralDeserialState {
    BeforeValue,
    InValue,
}

/// Scans one literal: a quoted string with escapes, or a bare token that
/// ends before white space, `}`, `]` or `,`.
fn parse_literal_from_reader(reader: &mut SerialReader) -> (r: Result<DataValue, DataError>)
    requires
        old(reader).wf(),
    ensures
        kept(*old(reader), *final(reader)),
        r matches Ok(v) ==> value_ok(v) && final(reader).i > old(reader).i,
        old(reader).i < old(reader).len && starts_bare(old(reader).chars@[old(reader).i as int])
            ==> (r matches Ok(v) && literal_of(
            bare_token(old(reader).chars@, old(reader).i as int),
            false,
            v,
        )),
        old(reader).i < old(reader).len && old(reader).chars@[old(reader).i as int] == '"'
            && quoted_closed(old(reader).chars@, old(reader).i + 1, false) ==> (r matches Ok(v)
            && literal_of(quoted_text(old(reader).chars@, old(reader).i + 1, false), true, v)),
        ({
            let (p, c) = lit_loop(
                old(reader).cur(),
                LiteralDeserialState::BeforeValue,
                Seq::empty(),
                false,
                false,
                false,
                false,
            );
            &&& final(reader).cur() == c
            &&& match p {
                Ok(t) => r matches Ok(v) && denotes(v, t) && !(v is Absent),
                Err(m) => r matches Err(e) && e.message@ == m,
            }
        }),
{
    let ghost i0 = reader.i;
    let ghost cs = reader.chars@;
    let ghost bare = i0 < reader.len && starts_bare(cs[i0 as int]);
    let ghost quoted = i0 < reader.len && cs[i0 as int] == '"';
    let mut state = LiteralDeserialState::BeforeValue;
    let mut value: Vec<char> = Vec::new();
    let mut inquote: bool = false;
    let mut escaping: bool = false;
    let mut hasquotes: bool = false;
    let mut done: bool = false;
    while reader.has_more() && !done
        invariant
            kept(*old(reader), *reader),
            reader.i >= i0,
            i0 == old(reader).i,
            state is InValue ==> reader.i > i0,
            state is BeforeValue ==> !done,
            done ==> !inquote,
            cs == reader.chars@,
            bare ==> i0 < cs.len() && starts_bare(cs[i0 as int]),
            bare && state is BeforeValue ==> reader.i == i0,
            quoted ==> i0 < cs.len() && cs[i0 as int] == '"',
            quoted && state is BeforeValue ==> reader.i == i0,
            quoted && state is InValue ==> {
                &&& hasquotes
                &&& !done ==> inquote
                &&& !done ==> value@ + quoted_text(cs, reader.i as int, escaping) == quoted_text(
                    cs,
                    i0 + 1,
                    false,
                )
                &&& done ==> value@ == quoted_text(cs, i0 + 1, false)
                &&& !done ==> quoted_closed(cs, reader.i as int, escaping) == quoted_closed(
                    cs,
                    i0 + 1,
                    false,
                )
                &&& done ==> quoted_closed(cs, i0 + 1, false)
            },
            lit_loop(reader.cur(), state, value@, inquote, escaping, hasquotes, done) == lit_loop(
                old(reader).cur(),
                LiteralDeserialState::BeforeValue,
                Seq::empty(),
                false,
                false,
                false,
                false,
            ),
            state is BeforeValue ==> value@.len() == 0 && !inquote && !hasquotes && !escaping,
            bare && state is InValue ==> {
                &&& !inquote
                &&& !hasquotes
                &&& value@ == cs.subrange(i0 as int, reader.i as int)
                &&& !done ==> bare_end(cs, i0 + 1) == bare_end(cs, reader.i as int)
                &&& done ==> reader.i == bare_end(cs, i0 + 1)
            },
        decreases reader.len - reader.i + (if done {
            0int
        } else {
            1int
        }),
    {
        let ghost ib = reader.i;
        let c = reader.next();
        let spaceequiv = is_space_char(c);
        match state {
            LiteralDeserialState::BeforeValue => {
                if !spaceequiv {
                    if c == '"' {
                        inquote = true;
                        hasquotes = true;
                    } else {
                        value.push(c);
                    }
                    state = LiteralDeserialState::InValue;
                    proof {
                        if bare {
                            assert(value@ =~= cs.subrange(i0 as int, reader.i as int));
                        }
                        if quoted {
                            assert(value@ + quoted_text(cs, reader.i as int, escaping)
                                =~= quoted_text(cs, i0 + 1, false));
                        }
                    }
                }
            },
            LiteralDeserialState::InValue => {
                proof {
                    if quoted && !done && inquote {
                        assert(ib < cs.len());
                    }
                }
                if inquote {
                    if escaping {
                        let ghost before = value@;
                        if c == '\\' {
                            value.push('\\');
                        } else if c == 'n' {
                            value.push('\n');
                        } else if c == 'r' {
                            value.push('\r');
                        } else if c == 't' {
                            value.push('\t');
                        } else if c == '/' {
                            value.push('/');
                        } else if c == '"' {
                            value.push('"');
                        }
                        escaping = false;
                        proof {
                            assert(value@ =~= before + escape_of(c));
                            if quoted {
                                assert(quoted_text(cs, ib as int, true) == escape_of(c)
                                    + quoted_text(cs, ib + 1, false));
                                assert(value@ + quoted_text(cs, reader.i as int, escaping)
                                    =~= quoted_text(cs, i0 + 1, false));
                            }
                        }
                    } else if c == '\\' {
                        escaping = true;
                        proof {
                            if quoted {
                                assert(quoted_text(cs, ib as int, false) == quoted_text(
                                    cs,
                                    ib + 1,
                                    true,
                                ));
                            }
                        }
                    } else if c == '"' {
                        inquote = false;
                        done = true;
                        proof {
                            if quoted {
                                assert(value@ =~= quoted_text(cs, i0 + 1, false));
                            }
                        }
                    } else {
                        value.push(c);
                        proof {
                            if quoted {
                                assert(value@ + quoted_text(cs, reader.i as int, escaping)
                                    =~= quoted_text(cs, i0 + 1, false));
                            }
                        }
                    }
                } else {
                    if spaceequiv || c == '}' || c == ']' || c == ',' {
                        reader.back();
                        done = true;
                        proof {
                            assert(bare_end(cs, ib as int) == ib);
                        }
                    } else {
                        proof {
                            assert(bare_end(cs, ib as int) == bare_end(cs, ib + 1));
                        }
                        value.push(c);
                        proof {
                            if bare {
                                assert(value@ =~= cs.subrange(i0 as int, reader.i as int));
                            }
                        }
                    }
                }
            },
        }
    }
    if let LiteralDeserialState::BeforeValue = state {
        return Err(error("Unexpected end of string"));
    }
    if inquote {
        proof {
            if quoted {
                assert(!done);
                assert(!quoted_closed(cs, reader.i as int, escaping));
            }
        }
        return Err(error("Unexpected end of string"));
    }
    proof {
        if bare && !done {
            assert(bare_end(cs, reader.i as int) == reader.i);
        }
        if quoted && !done {
            assert(value@ =~= quoted_text(cs, i0 + 1, false));
        }
    }
    Ok(literal_value(&value, hasquotes))
}

/// Parses one value after optional white space: `{` starts a map, `[` a
/// list, anything else a literal. A `}`, `]` or `,` where a value should
/// start is an error at its position.
fn parse_from_reader(reader: &mut SerialReader) -> (r: Result<DataValue, DataError>)
    requires
        old(reader).wf(),
    ensures
        kept(*old(reader), *final(reader)),
        r matches Ok(v) ==> value_ok(v) && final(reader).i > old(reader).i,
        ({
            let s = old(reader).chars@;
            let a = skip_space(s, old(reader).i as int);
            &&& a == s.len() ==> (r matches Err(e) && e.message@ == "Unexpected end of string"@)
            &&& a < s.len() && (s[a] == '}' || s[a] == ']' || s[a] == ',') ==> r is Err
            &&& a < s.len() && starts_bare(s[a]) ==> (r matches Ok(v) && literal_of(
                bare_token(s, a),
                false,
                v,
            ))
            &&& a < s.len() && s[a] == '"' && quoted_closed(s, a + 1, false) ==> (r matches Ok(v) && literal_of(
                quoted_text(s, a + 1, false),
                true,
                v,
            ))
        }),
        value_result(r, value_spec(old(reader).cur()).0),
        final(reader).cur() == value_spec(old(reader).cur()).1,
    decreases old(reader).len - old(reader).i, 1int,
{
    let ghost i0 = reader.i;
    proof {
        lemma_skip_space_le(reader.chars@, i0 as int);
    }
    while reader.has_more()
        invariant
            kept(*old(reader), *reader),
            i0 == old(reader).i,
            skip_space(reader.chars@, reader.i as int) == skip_space(reader.chars@, i0 as int),
            value_spec(reader.cur()) == value_spec(old(reader).cur()),
        decreases reader.len - reader.i,
    {
        let c = reader.next();
        let spaceequiv = is_space_char(c);
        if !spaceequiv {
            reader.back();
            assert(skip_space(reader.chars@, reader.i as int) == reader.i);
            if c == '{' {
                match parse_map_from_reader(reader) {
                    Ok(m) => {
                        return Ok(DataValue::DataMap(m));
                    },
                    Err(e) => {
                        return Err(e);
                    },
                }
            } else if c == '[' {
                match parse_list_from_reader(reader) {
                    Ok(l) => {
                        return Ok(DataValue::DataList(l));
                    },
                    Err(e) => {
                        return Err(e);
                    },
                }
            } else if c == '}' || c == ']' || c == ',' {
                return Err(error_at("Unexpected character", reader));
            } else {
                return parse_literal_from_reader(reader);
            }
        }
    }
    proof {
        assert(skip_space(reader.chars@, reader.i as int) == reader.i);
    }
    Err(error("Unexpected end of string"))
}

pub enum MapDeserialState {
    BeforeBrace,
    BeforeKey,
    InKey,
    AfterKey,
    BeforeValue,
    AfterValue,
}

/// Parses `{ key: value, ... }` or `{}`. Keys are quoted (no escapes) or bare (up to
/// white space or `:`); a key put twice keeps its last value.
fn parse_map_from_reader(reader: &mut SerialReader) -> (r: Result<DataMap, DataError>)
    requires
        old(reader).wf(),
    ensures
        kept(*old(reader), *final(reader)),
        r matches Ok(m) ==> m.ok() && final(reader).i > old(reader).i,
        ({
            let s = old(reader).chars@;
            let a = skip_space(s, old(reader).i as int);
            &&& a == s.len() ==> (r matches Err(e) && e.message@ == "String unexpectedly ended"@)
            &&& a < s.len() && s[a] != '{' ==> r is Err
        }),
        map_result(r, map_entry(old(reader).cur()).0),
        final(reader).cur() == map_entry(old(reader).cur()).1,
    decreases old(reader).len - old(reader).i, 0int,
{
    let ghost mut es: Seq<(Seq<char>, Tree)> = Seq::empty();
    let ghost i0 = reader.i;
    proof {
        lemma_skip_space_le(reader.chars@, i0 as int);
    }
    let mut state = MapDeserialState::BeforeBrace;
    let mut key: Vec<char> = Vec::new();
    let mut inquote: bool = false;
    let mut map = DataMap::new();
    while reader.has_more()
        invariant
            kept(*old(reader), *reader),
            i0 == old(reader).i,
            !(state is BeforeBrace) ==> reader.i > i0,
            state is BeforeBrace ==> skip_space(reader.chars@, reader.i as int) == skip_space(
                reader.chars@,
                i0 as int,
            ),
            !(state is BeforeBrace) ==> skip_space(reader.chars@, i0 as int) < reader.len
                && reader.chars@[skip_space(reader.chars@, i0 as int)] == '{',
            map.ok(),
            state is BeforeBrace ==> map_entry(reader.cur()) == map_entry(old(reader).cur())
                && es == Seq::<(Seq<char>, Tree)>::empty() && key@ == Seq::<char>::empty()
                && !inquote,
            !(state is BeforeBrace) ==> map_loop(reader.cur(), state, key@, inquote, es)
                == map_entry(old(reader).cur()),
            entries_denote(map.map@, es),
            forall|j: int| 0 <= j < es.len() ==> denotes(#[trigger] map.map@[j].1, es[j].1),
        decreases reader.len - reader.i,
    {
        let ghost r_prev = reader.cur();
        let c = reader.next();
        let spaceequiv = is_space_char(c);
        match state {
            MapDeserialState::BeforeBrace => {
                proof {
                    if !spaceequiv {
                        assert(skip_space(reader.chars@, reader.i - 1) == reader.i - 1);
                    }
                }
                if !spaceequiv {
                    if c == '{' {
                        state = MapDeserialState::BeforeKey;
                    } else {
                        reader.back();
                        return Err(error_at("Expecting '{'", reader));
                    }
                }
            },
            MapDeserialState::BeforeKey => {
                if !spaceequiv {
                    if c == '}' && map.map.len() == 0 {
                        return Ok(map);
                    }
                    if c == '"' {
                        inquote = true;
                    } else {
                        key.push(c);
                    }
                    state = MapDeserialState::InKey;
                }
            },
            MapDeserialState::InKey => {
                if inquote {
                    if c == '"' {
                        inquote = false;
                        state = MapDeserialState::AfterKey;
                    } else {
                        key.push(c);
                    }
                } else {
                    if spaceequiv {
                        state = MapDeserialState::AfterKey;
                    } else if c == ':' {
                        state = MapDeserialState::BeforeValue;
                    } else if c == '"' {
                        return Err(error_at("Unexpected '\"'", reader));
                    } else {
                        key.push(c);
                    }
                }
            },
            MapDeserialState::AfterKey => {
                if !spaceequiv {
                    if c == ':' {
                        state = MapDeserialState::BeforeValue;
                    } else {
                        return Err(error_at("Unexpected character", reader));
                    }
                }
            },
            MapDeserialState::BeforeValue => {
                if !spaceequiv {
                    reader.back();
                    let ghost r_at = reader.cur();
                    let ghost key_prev = key@;
                    let ghost es_prev = es;
                    let value = match parse_from_reader(reader) {
                        Ok(v) => v,
                        Err(e) => {
                            return Err(e);
                        },
                    };
                    let ghost t = value_spec(r_at).0->Ok_0;
                    proof {
                        assert(r_at == unstep(step(r_prev).1));
                        assert(reader.cur().text == r_prev.text);
                        assert(r_prev.i < reader.cur().i <= reader.cur().text.len());
                        assert(map_loop(r_prev, MapDeserialState::BeforeValue, key_prev, inquote, es_prev)
                            == map_loop(
                            reader.cur(),
                            MapDeserialState::AfterValue,
                            Seq::empty(),
                            inquote,
                            tree_put(es_prev, key_prev, t),
                        ));
                    }
                    let k = string_of(&key);
                    let ghost m_old = map.map@;
                    map.put(k.as_str(), value);
                    proof {
                        lemma_put_denotes(m_old, es, k, value, t);
                        let es2 = tree_put(es, key@, t);
                        assert forall|j: int| 0 <= j < es2.len() implies denotes(
                            #[trigger] map.map@[j].1,
                            es2[j].1,
                        ) by {
                            if j < es.len() && map.map@[j] == m_old[j] {
                            }
                        }
                        es = es2;
                    }
                    key = Vec::new();
                    state = MapDeserialState::AfterValue;
                }
            },
            MapDeserialState::AfterValue => {
                if !spaceequiv {
                    if c == ',' {
                        state = MapDeserialState::BeforeKey;
                    } else if c == '}' {
                        return Ok(map);
                    } else {
                        return Err(error_at("Unexpected character", reader));
                    }
                }
            },
        }
    }
    proof {
        if state is BeforeBrace {
            assert(skip_space(reader.chars@, reader.i as int) == reader.i);
        }
    }
    Err(error("String unexpectedly ended"))
}

pub enum ListDeserialState {
    BeforeBracket,
    BeforeValue,
    AfterValue,
}

/// Parses `[ value, ... ]` or `[]`.
fn parse_list_from_reader(reader: &mut SerialReader) -> (r: Result<DataList, DataError>)
    requires
        old(reader).wf(),
    ensures
        kept(*old(reader), *final(reader)),
        r matches Ok(l) ==> l.ok() && final(reader).i > old(reader).i,
        list_result(r, list_entry(old(reader).cur()).0),
        final(reader).cur() == list_entry(old(reader).cur()).1,
    decreases old(reader).len - old(reader).i, 0int,
{
    let ghost mut ts: Seq<Tree> = Seq::empty();
    let ghost i0 = reader.i;
    let mut state = ListDeserialState::BeforeBracket;
    let mut list = DataList::new();
    while reader.has_more()
        invariant
            kept(*old(reader), *reader),
            i0 == old(reader).i,
            !(state is BeforeBracket) ==> reader.i > i0,
            list.ok(),
            state is BeforeBracket ==> list_entry(reader.cur()) == list_entry(old(reader).cur())
                && ts == Seq::<Tree>::empty() && list.vec@.len() == 0,
            !(state is BeforeBracket) ==> list_loop(reader.cur(), state, ts) == list_entry(
                old(reader).cur(),
            ),
            list.vec@.len() == ts.len(),
            forall|j: int| 0 <= j < ts.len() ==> denotes(#[trigger] list.vec@[j], ts[j]),
        decreases reader.len - reader.i,
    {
        let ghost r_prev = reader.cur();
        let c = reader.next();
        let spaceequiv = is_space_char(c);
        match state {
            ListDeserialState::BeforeBracket => {
                if !spaceequiv {
                    if c == '[' {
                        state = ListDeserialState::BeforeValue;
                    } else {
                        reader.back();
                        return Err(error_at("Expected [", reader));
                    }
                }
            },
            ListDeserialState::BeforeValue => {
                if !spaceequiv {
                    if c == ']' && list.vec.len() == 0 {
                        return Ok(list);
                    }
                    reader.back();
                    let ghost r_at = reader.cur();
                    let value = match parse_from_reader(reader) {
                        Ok(v) => v,
                        Err(e) => {
                            return Err(e);
                        },
                    };
                    let ghost t = value_spec(r_at).0->Ok_0;
                    proof {
                        assert(r_at == unstep(step(r_prev).1));
                        assert(reader.cur().text == r_prev.text);
                        assert(r_prev.i < reader.cur().i <= reader.cur().text.len());
                        assert(list_loop(r_prev, ListDeserialState::BeforeValue, ts) == list_loop(
                            reader.cur(),
                            ListDeserialState::AfterValue,
                            ts.push(t),
                        ));
                    }
                    list.push(value);
                    proof {
                        ts = ts.push(t);
                    }
                    state = ListDeserialState::AfterValue;
                }
            },
            ListDeserialState::AfterValue => {
                if !spaceequiv {
                    if c == ',' {
                        state = ListDeserialState::BeforeValue;
                    } else if c == ']' {
                        return Ok(list);
                    } else {
                        return Err(error_at("Expected ]", reader));
                    }
                }
            },
        }
    }
    Err(error("String unexpectedly ended"))
}

/// Parses one value of the text, as the grammar `value_spec` reads it;
/// what follows it is not read. Text of
/// white space alone, or a `}`, `]` or `,` where the value should start,
/// is an error; a bare token gives its literal's value.
pub fn parse(s: &str) -> (r: Result<DataValue, DataError>)
    ensures
        value_result(r, value_spec(start(s@)).0),
        r matches Ok(v) ==> value_ok(v),
        skip_space(s@, 0) == s@.len() ==> (r matches Err(e) && e.message@
            == "Unexpected end of string"@),
        skip_space(s@, 0) < s@.len() && ({
            let c = s@[skip_space(s@, 0)];
            c == '}' || c == ']' || c == ','
        }) ==> r is Err,
        skip_space(s@, 0) < s@.len() && starts_bare(s@[skip_space(s@, 0)]) ==> (r matches Ok(v)
            && literal_of(bare_token(s@, skip_space(s@, 0)), false, v)),
        skip_space(s@, 0) < s@.len() && s@[skip_space(s@, 0)] == '"' && quoted_closed(
            s@,
            skip_space(s@, 0) + 1,
            false,
        ) ==> (r matches Ok(v)
            && literal_of(quoted_text(s@, skip_space(s@, 0) + 1, false), true, v)),
{
    let mut reader = SerialReader::new(s);
    parse_from_reader(&mut reader)
}

/// Parses a map at the start of the text. Text of white space alone, or
/// whose first other character is not `{`, is an error.
pub fn parse_map(s: &str) -> (r: Result<DataMap, DataError>)
    ensures
        map_result(r, map_entry(start(s@)).0),
        r matches Ok(m) ==> m.ok(),
        skip_space(s@, 0) == s@.len() ==> (r matches Err(e) && e.message@
            == "String unexpectedly ended"@),
        skip_space(s@, 0) < s@.len() && s@[skip_space(s@, 0)] != '{' ==> r is Err,
{
    let mut reader = SerialReader::new(s);
    parse_map_from_reader(&mut reader)
}

} // verus!
