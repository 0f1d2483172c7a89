use vstd::prelude::*;

verus! {

/// The one error kind: a human-readable message.
pub struct DataError {
    pub message: String,
}

/// A number with a decimal point: `whole`, then the digits written after
/// the point, each in `0..10`, kept as they were written.
pub struct Decimal {
    pub whole: i64,
    pub fraction: Vec<u8>,
}

pub enum Number {
    Int(i64),
    Float(Decimal),
    PositiveInfinity,
    NegativeInfinity,
    NaN,
}

/// The wall-clock fields of a timestamp.
#[derive(Clone, Copy, PartialEq, Eq, Structural)]
pub struct DateParts {
    pub year: u32,
    pub month: u32,
    pub day: u32,
    pub hour: u32,
    pub minute: u32,
    pub second: u32,
    pub nano: u32,
}

/// A timestamp in UTC, or in a fixed offset from UTC given in seconds east.
#[derive(Clone, Copy, PartialEq, Eq, Structural)]
pub enum Date {
    DateTimeUtc(DateParts),
    DateTimeOffset(DateParts, i32),
}

pub open spec fn is_leap_year(y: int) -> bool {
    (y % 4 == 0 && y % 100 != 0) || y % 400 == 0
}

pub open spec fn days_in_month(y: int, m: int) -> int {
    if m == 2 {
        if is_leap_year(y) {
            29
        } else {
            28
        }
    } else if m == 4 || m == 6 || m == 9 || m == 11 {
        30
    } else {
        31
    }
}

/// A proleptic Gregorian date and a time of day, with a four-digit year.
pub open spec fn calendar_valid(
    year: int,
    month: int,
    day: int,
    hour: int,
    minute: int,
    second: int,
) -> bool {
    &&& 0 <= year <= 9999
    &&& 1 <= month <= 12
    &&& 1 <= day <= days_in_month(year, month)
    &&& 0 <= hour < 24
    &&& 0 <= minute < 60
    &&& 0 <= second < 60
}

impl DateParts {
    pub open spec fn wf(&self) -> bool {
        &&& calendar_valid(
            self.year as int,
            self.month as int,
            self.day as int,
            self.hour as int,
            self.minute as int,
            self.second as int,
        )
        &&& self.nano < 1_000_000_000
    }
}

/// An offset that a date may carry: under a day, in whole minutes.
pub open spec fn offset_valid(off: int) -> bool {
    -86_400 < off < 86_400 && off % 60 == 0
}

impl Date {
    pub open spec fn wf(&self) -> bool {
        match self {
            Date::DateTimeUtc(p) => p.wf(),
            Date::DateTimeOffset(p, off) => p.wf() && offset_valid(*off as int),
        }
    }
}

impl Number {
    /// Each fraction digit is a decimal digit.
    pub open spec fn wf(&self) -> bool {
        match self {
            Number::Float(d) => forall|i: int| 0 <= i < d.fraction@.len() ==> d.fraction@[i] < 10,
            _ => true,
        }
    }
}

/// A value whose numbers, dates and maps are well formed, all the way down,
/// with no `Absent` inside a container.
pub open spec fn value_ok(v: DataValue) -> bool
    decreases v,
{
    match v {
        DataValue::Number(n) => n.wf(),
        DataValue::Date(d) => d.wf(),
        DataValue::DataMap(m) => m.wf() && forall|i: int|
            0 <= i < m.map@.len() ==> value_ok(#[trigger] m.map@[i].1) && !(m.map@[i].1 is Absent),
        DataValue::DataList(l) => forall|i: int|
            0 <= i < l.vec@.len() ==> value_ok(#[trigger] l.vec@[i]) && !(l.vec@[i] is Absent),
        _ => true,
    }
}

pub enum DataValue {
    String(String),
    Number(Number),
    Bool(bool),
    Date(Date),
    DataMap(DataMap),
    DataList(DataList),
    Null,
    Absent,
}

/// An ordered sequence of values.
pub struct DataList {
    pub vec: Vec<DataValue>,
}

/// Values under unique keys, held in the order in which keys came first.
pub struct DataMap {
    pub map: Vec<(String, DataValue)>,
}

impl DataList {
    pub open spec fn ok(&self) -> bool {
        forall|i: int|
            0 <= i < self.vec@.len() ==> value_ok(#[trigger] self.vec@[i]) && !(
            self.vec@[i] is Absent)
    }

    pub fn new() -> (r: Self)
        ensures
            r.vec@.len() == 0,
    {
        DataList { vec: Vec::new() }
    }

    pub fn push(&mut self, val: DataValue)
        ensures
            final(self).vec@ == old(self).vec@.push(val),
    {
        self.vec.push(val);
    }

    pub fn push_string(&mut self, val: &str)
        ensures
            final(self).vec@.len() == old(self).vec@.len() + 1,
            final(self).vec@.drop_last() == old(self).vec@,
            final(self).vec@.last() matches DataValue::String(s) && s@ == val@,
    {
        let s = val.to_string();
        self.vec.push(DataValue::String(s));
        proof {
            assert(self.vec@.drop_last() =~= old(self).vec@);
        }
    }
}

/// Where `k` stands among the keys of `m`, if it does.
pub open spec fn key_index(m: Seq<(String, DataValue)>, k: Seq<char>) -> Option<int> {
    if exists|i: int| 0 <= i < m.len() && (#[trigger] m[i]).0@ == k {
        Some(choose|i: int| 0 <= i < m.len() && (#[trigger] m[i]).0@ == k)
    } else {
        None
    }
}

/// `m` with `v` under `k`: replacing the value in place, or appending.
pub open spec fn map_put(m: Seq<(String, DataValue)>, k: String, v: DataValue) -> Seq<
    (String, DataValue),
> {
    match key_index(m, k@) {
        Some(i) => m.update(i, (m[i].0, v)),
        None => m.push((k, v)),
    }
}

pub open spec fn keys_unique(m: Seq<(String, DataValue)>) -> bool {
    forall|i: int, j: int| 0 <= i < j < m.len() ==> (#[trigger] m[i]).0@ != (#[trigger] m[j]).0@
}

proof fn lemma_key_index_at(m: Seq<(String, DataValue)>, k: Seq<char>, i: int)
    requires
        keys_unique(m),
        0 <= i < m.len(),
        m[i].0@ == k,
    ensures
        key_index(m, k) == Some(i),
{
    let j = key_index(m, k)->0;
    if j < i {
        assert(m[j].0@ != m[i].0@);
    } else if j > i {
        assert(m[i].0@ != m[j].0@);
    }
}

/// After `map_put`, keys other than `k` give what they gave before.
proof fn lemma_map_put_others(m: Seq<(String, DataValue)>, k: String, v: DataValue, o: Seq<char>)
    requires
        keys_unique(m),
        keys_unique(map_put(m, k, v)),
        o != k@,
    ensures
        match key_index(m, o) {
            Some(j) => key_index(map_put(m, k, v), o) == Some(j) && map_put(m, k, v)[j].1 == m[j].1,
            None => key_index(map_put(m, k, v), o) is None,
        },
{
    let n = map_put(m, k, v);
    match key_index(m, o) {
        Some(j) => {
            assert(0 <= j < m.len() && m[j].0@ == o);
            if let Some(i) = key_index(m, k@) {
                assert(m[i].0@ == k@);
                assert(j != i);
            }
            assert(n[j] == m[j]);
            lemma_key_index_at(n, o, j);
        },
        None => {
            if exists|i: int| 0 <= i < n.len() && (#[trigger] n[i]).0@ == o {
                let i = choose|i: int| 0 <= i < n.len() && (#[trigger] n[i]).0@ == o;
                if i < m.len() {
                    if let Some(x) = key_index(m, k@) {
                        if i == x {
                            assert(n[i].0@ == m[x].0@);
                        } else {
                            assert(n[i] == m[i]);
                        }
                    } else {
                        assert(n[i] == m[i]);
                    }
                    assert(m[i].0@ == o);
                } else {
                    assert(n[i].0@ == k@);
                }
            }
        },
    }
}

impl DataMap {
    /// Keys are unique.
    pub open spec fn wf(&self) -> bool {
        keys_unique(self.map@)
    }

    /// Unique keys, and well-formed values.
    pub open spec fn ok(&self) -> bool {
        self.wf() && forall|i: int|
            0 <= i < self.map@.len() ==> value_ok(#[trigger] self.map@[i].1) && !(
            self.map@[i].1 is Absent)
    }

    /// The value under `k`, or `DataValue::Absent` where there is none.
    pub open spec fn lookup(&self, k: Seq<char>) -> DataValue {
        match key_index(self.map@, k) {
            Some(i) => self.map@[i].1,
            None => DataValue::Absent,
        }
    }

    pub fn new() -> (r: Self)
        ensures
            r.wf(),
            r.map@.len() == 0,
    {
        DataMap { map: Vec::new() }
    }

    fn find(&self, k: &String) -> (r: Option<usize>)
        ensures
            r matches Some(i) ==> i < self.map@.len() && self.map@[i as int].0@ == k@,
            r is None ==> key_index(self.map@, k@) is None,
    {
        let mut i: usize = 0;
        while i < self.map.len()
            invariant
                i <= self.map@.len(),
                forall|j: int| 0 <= j < i ==> (#[trigger] self.map@[j]).0@ != k@,
            decreases self.map@.len() - i,
        {
            if self.map[i].0 == *k {
                return Some(i);
            }
            i += 1;
        }
        None
    }

    /// Looks `k` up; a missing key gives `DataValue::Absent`.
    pub fn get(&self, k: &str) -> (r: &DataValue)
        requires
            self.wf(),
        ensures
            *r == self.lookup(k@),
    {
        let key = k.to_string();
        match self.find(&key) {
            Some(i) => {
                proof {
                    assert(key_index(self.map@, k@) == Some(i as int));
                }
                &self.map[i].1
            },
            None => &DataValue::Absent,
        }
    }

    /// Puts `v` under `k`: the last value put under a key wins.
    pub fn put(&mut self, k: &str, v: DataValue)
        requires
            old(self).wf(),
        ensures
            final(self).wf(),
            final(self).map@.len() >= 1,
            exists|s: String| s@ == k@ && final(self).map@ == map_put(old(self).map@, s, v),
            final(self).lookup(k@) == v,
            old(self).ok() && value_ok(v) && !(v is Absent) ==> final(self).ok(),
            forall|o: Seq<char>| o != k@ ==> #[trigger] final(self).lookup(o) == old(self).lookup(o),
    {
        let key = k.to_string();
        let ghost k_old = old(self).map@;
        match self.find(&key) {
            Some(i) => {
                proof {
                    assert(key_index(self.map@, k@) == Some(i as int));
                }
                let ghost s = self.map@[i as int].0;
                let mut entry = (key, DataValue::Null);
                std::mem::swap(&mut entry, &mut self.map[i]);
                let (name, _) = entry;
                self.map.set(i, (name, v));
                proof {
                    assert(self.map@ =~= map_put(old(self).map@, s, v));
                    assert(self.map@[i as int].0@ == k@);
                    assert(self.wf());
                    if old(self).ok() && value_ok(v) && !(v is Absent) {
                        assert forall|j: int| 0 <= j < self.map@.len() implies value_ok(
                            #[trigger] self.map@[j].1,
                        ) by {
                            if j != i {
                                assert(self.map@[j] == old(self).map@[j]);
                            }
                        }
                    }
                    assert(key_index(self.map@, k@) == Some(i as int));
                    assert forall|o: Seq<char>| o != k@ implies #[trigger] self.lookup(o)
                        == old(self).lookup(o) by {
                        lemma_map_put_others(k_old, s, v, o);
                    }
                }
            },
            None => {
                self.map.push((key, v));
                proof {
                    assert(self.map@ == map_put(old(self).map@, key, v));
                    assert(self.map@[self.map@.len() - 1].0@ == k@);
                    if old(self).ok() && value_ok(v) && !(v is Absent) {
                        assert forall|j: int| 0 <= j < self.map@.len() implies value_ok(
                            #[trigger] self.map@[j].1,
                        ) by {
                            if j < old(self).map@.len() {
                                assert(self.map@[j] == old(self).map@[j]);
                            }
                        }
                    }
                    assert(key_index(self.map@, k@) == Some(self.map@.len() - 1));
                    assert forall|o: Seq<char>| o != k@ implies #[trigger] self.lookup(o)
                        == old(self).lookup(o) by {
                        lemma_map_put_others(k_old, key, v, o);
                    }
                }
            },
        }
    }
}

/// The last `j` below `n - 1` with `arr[j] == k`, if any.
pub open spec fn last_key_at(arr: Seq<&str>, n: int, k: Seq<char>) -> Option<int>
    decreases n,
{
    if n <= 0 {
        None
    } else if arr[n - 1]@ == k {
        Some(n - 1)
    } else {
        last_key_at(arr, n - 1, k)
    }
}

impl DataMap {
    /// Puts each element of `arr` but the last as a key, with the element
    /// after it as its string value: neighbours pair up, overlapping.
    pub fn new_with(arr: &[&str]) -> (r: Self)
        ensures
            r.ok(),
            forall|k: Seq<char>|
                #![trigger r.lookup(k)]
                match last_key_at(arr@, arr@.len() - 1, k) {
                    Some(j) => r.lookup(k) matches DataValue::String(s) && s@ == arr@[j + 1]@,
                    None => r.lookup(k) == DataValue::Absent,
                },
            forall|k: Seq<char>|
                #![trigger key_index(r.map@, k)]
                key_index(r.map@, k) is Some <==> last_key_at(arr@, arr@.len() - 1, k) is Some,
    {
        let mut s: Self = Self::new();
        let mut i: usize = 0;
        proof {
            assert forall|k: Seq<char>| #![trigger s.lookup(k)] s.lookup(k) == DataValue::Absent by {
                assert(key_index(s.map@, k) is None);
            }
        }
        while i < arr.len() && i + 1 < arr.len()
            invariant
                s.ok(),
                i + 1 <= arr@.len() || i == 0,
                forall|k: Seq<char>|
                    #![trigger s.lookup(k)]
                    match last_key_at(arr@, i as int, k) {
                        Some(j) => s.lookup(k) matches DataValue::String(v) && v@ == arr@[j + 1]@,
                        None => s.lookup(k) == DataValue::Absent,
                    },
            decreases arr@.len() - i,
        {
            let key = arr[i];
            let val = arr[i + 1];
            let ghost before = s;
            s.put_string(key, val);
            proof {
                assert forall|k: Seq<char>| #![trigger s.lookup(k)] match last_key_at(
                    arr@,
                    i + 1,
                    k,
                ) {
                    Some(j) => s.lookup(k) matches DataValue::String(v) && v@ == arr@[j + 1]@,
                    None => s.lookup(k) == DataValue::Absent,
                } by {
                    if k != key@ {
                        assert(s.lookup(k) == before.lookup(k));
                    }
                }
            }
            i += 1;
        }
        proof {
            assert forall|k: Seq<char>| #![trigger key_index(s.map@, k)] key_index(s.map@, k) is Some
                <==> last_key_at(arr@, arr@.len() - 1, k) is Some by {
                assert(last_key_at(arr@, i as int, k) == last_key_at(arr@, arr@.len() - 1, k));
                let lk = s.lookup(k);
                if let Some(j) = key_index(s.map@, k) {
                    assert(!(s.map@[j].1 is Absent));
                    assert(!(lk is Absent));
                } else {
                    assert(lk is Absent);
                }
            }
        }
        s
    }

    pub fn put_string(&mut self, k: &str, v: &str)
        requires
            old(self).ok(),
        ensures
            final(self).ok(),
            final(self).lookup(k@) matches DataValue::String(s) && s@ == v@,
            forall|o: Seq<char>| o != k@ ==> #[trigger] final(self).lookup(o) == old(self).lookup(o),
            exists|s: String, t: String|
                s@ == k@ && t@ == v@ && final(self).map@ == map_put(
                    old(self).map@,
                    s,
                    DataValue::String(t),
                ),
    {
        let t = v.to_string();
        let ghost tg = t;
        self.put(k, DataValue::String(t));
        proof {
            let s = choose|s: String|
                s@ == k@ && self.map@ == map_put(old(self).map@, s, DataValue::String(tg));
            assert(s@ == k@ && tg@ == v@ && self.map@ == map_put(
                old(self).map@,
                s,
                DataValue::String(tg),
            ));
        }
    }

    pub fn put_int(&mut self, k: &str, v: i64)
        requires
            old(self).ok(),
        ensures
            final(self).ok(),
            final(self).lookup(k@) == DataValue::Number(Number::Int(v)),
            exists|s: String| s@ == k@ && final(self).map@ == map_put(old(self).map@, s, DataValue::Number(Number::Int(v))),
            forall|o: Seq<char>| o != k@ ==> #[trigger] final(self).lookup(o) == old(self).lookup(o),
    {
        self.put(k, DataValue::Number(Number::Int(v)));
    }

    pub fn put_bool(&mut self, k: &str, v: bool)
        requires
            old(self).ok(),
        ensures
            final(self).ok(),
            final(self).lookup(k@) == DataValue::Bool(v),
            exists|s: String| s@ == k@ && final(self).map@ == map_put(old(self).map@, s, DataValue::Bool(v)),
            forall|o: Seq<char>| o != k@ ==> #[trigger] final(self).lookup(o) == old(self).lookup(o),
    {
        self.put(k, DataValue::Bool(v));
    }

    /// Puts a UTC date; `v` holds its wall-clock fields.
    pub fn put_date_utc(&mut self, k: &str, v: DateParts)
        requires
            old(self).ok(),
            v.wf(),
        ensures
            final(self).ok(),
            final(self).lookup(k@) == DataValue::Date(Date::DateTimeUtc(v)),
            exists|s: String| s@ == k@ && final(self).map@ == map_put(old(self).map@, s, DataValue::Date(Date::DateTimeUtc(v))),
            forall|o: Seq<char>| o != k@ ==> #[trigger] final(self).lookup(o) == old(self).lookup(o),
    {
        self.put(k, DataValue::Date(Date::DateTimeUtc(v)));
    }

    pub fn put_map(&mut self, k: &str, v: DataMap)
        requires
            old(self).ok(),
            v.ok(),
        ensures
            final(self).ok(),
            final(self).lookup(k@) == DataValue::DataMap(v),
            exists|s: String| s@ == k@ && final(self).map@ == map_put(old(self).map@, s, DataValue::DataMap(v)),
            forall|o: Seq<char>| o != k@ ==> #[trigger] final(self).lookup(o) == old(self).lookup(o),
    {
        self.put(k, DataValue::DataMap(v));
    }

    pub fn put_list(&mut self, k: &str, v: DataList)
        requires
            old(self).ok(),
            v.ok(),
        ensures
            final(self).ok(),
            final(self).lookup(k@) == DataValue::DataList(v),
            exists|s: String| s@ == k@ && final(self).map@ == map_put(old(self).map@, s, DataValue::DataList(v)),
            forall|o: Seq<char>| o != k@ ==> #[trigger] final(self).lookup(o) == old(self).lookup(o),
    {
        self.put(k, DataValue::DataList(v));
    }
}

} // verus!
