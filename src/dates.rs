//! Dates written as three numbers in an unknown order of day, month and
//! two-digit year.
use crate::names::first_colon_at;
use crate::text::{chars_of, lines_spec, rows, split_on};
use vstd::prelude::*;

verus! {

/// Three numbers as written, in the order they stand.
pub type Triple = (u8, u8, u8);

pub open spec fn digit_value(c: char) -> int {
    c as u32 - '0' as u32
}

pub open spec fn all_digits(s: Seq<char>) -> bool {
    forall|i: int| 0 <= i < s.len() ==> '0' <= #[trigger] s[i] <= '9'
}

/// The value of a string of decimal digits.
pub open spec fn decimal_value(s: Seq<char>) -> int
    decreases s.len(),
{
    if s.len() == 0 {
        0
    } else {
        decimal_value(s.drop_last()) * 10 + digit_value(s.last())
    }
}

proof fn lemma_decimal_grows(s: Seq<char>, k: int)
    requires
        all_digits(s),
        0 <= k <= s.len(),
    ensures
        0 <= decimal_value(s.take(k)) <= decimal_value(s),
    decreases s.len(),
{
    if s.len() > 0 {
        let t = s.drop_last();
        assert forall|i: int| 0 <= i < t.len() implies '0' <= #[trigger] t[i] <= '9' by {
            assert(t[i] == s[i]);
        }
        if k == s.len() {
            assert(s.take(k) =~= s);
            lemma_decimal_grows(t, t.len() as int);
            assert(t.take(t.len() as int) =~= t);
        } else {
            assert(s.take(k) =~= t.take(k));
            lemma_decimal_grows(t, k);
        }
        assert('0' <= s[s.len() - 1] <= '9');
    } else {
        assert(s.take(k) =~= s);
    }
}

/// Reads a number from 0 to 255 written in decimal digits; `None` where
/// `s` is empty, holds another character, or writes a larger number.
pub fn parse_u8(s: &[char]) -> (r: Option<u8>)
    ensures
        r == (if s@.len() > 0 && all_digits(s@) && decimal_value(s@) <= 255 {
            Some(decimal_value(s@) as u8)
        } else {
            None
        }),
        r matches Some(v) ==> v == decimal_value(s@),
{
    if s.len() == 0 {
        return None;
    }
    let mut acc: u32 = 0;
    let mut i: usize = 0;
    while i < s.len()
        invariant
            i <= s@.len(),
            all_digits(s@.take(i as int)),
            acc == decimal_value(s@.take(i as int)),
            acc <= 255,
        decreases s@.len() - i,
    {
        let c = s[i];
        assert(s@.take(i + 1).drop_last() =~= s@.take(i as int));
        if c < '0' || c > '9' {
            assert(!all_digits(s@)) by {
                assert(!('0' <= s@[i as int] <= '9'));
            }
            return None;
        }
        let next = acc * 10 + (c as u32 - '0' as u32);
        if next > 255 {
            proof {
                assert forall|j: int| 0 <= j < i + 1 implies '0' <= #[trigger] s@.take(i + 1)[j]
                    <= '9' by {
                    if j < i {
                        assert(s@.take(i + 1)[j] == s@.take(i as int)[j]);
                    }
                }
                if all_digits(s@) {
                    lemma_decimal_grows(s@, i + 1);
                }
            }
            return None;
        }
        proof {
            assert forall|j: int| 0 <= j < i + 1 implies '0' <= #[trigger] s@.take(i + 1)[j]
                <= '9' by {
                if j < i {
                    assert(s@.take(i + 1)[j] == s@.take(i as int)[j]);
                }
            }
        }
        acc = next;
        i += 1;
    }
    assert(s@.take(i as int) =~= s@);
    Some(acc as u8)
}

/// "a-b-c…" with at least three parts, each a number from 0 to 255 in
/// decimal digits.
pub open spec fn date_text(t: Seq<char>) -> bool {
    let parts = crate::text::split_spec(t, '-');
    parts.len() >= 3 && forall|i: int|
        0 <= i < parts.len() ==> (#[trigger] parts[i]).len() > 0 && all_digits(parts[i])
            && decimal_value(parts[i]) <= 255
}

/// Reads "a-b-c" into its first three numbers.
pub fn parse_date(date: &str) -> (r: Triple)
    requires
        date_text(date@),
    ensures
        r.0 == decimal_value(crate::text::split_spec(date@, '-')[0]),
        r.1 == decimal_value(crate::text::split_spec(date@, '-')[1]),
        r.2 == decimal_value(crate::text::split_spec(date@, '-')[2]),
{
    match try_parse_date(date) {
        Some(t) => t,
        None => {
            assert(false);
            (0, 0, 0)
        },
    }
}

/// `parse_date` where the text reads; `None` where it does not.
fn try_parse_date(date: &str) -> (r: Option<Triple>)
    ensures
        r matches Some(t) ==> {
            let parts = crate::text::split_spec(date@, '-');
            &&& parts.len() >= 3
            &&& t.0 == decimal_value(parts[0])
            &&& t.1 == decimal_value(parts[1])
            &&& t.2 == decimal_value(parts[2])
        },
        r is Some <==> date_text(date@),
{
    let cs = chars_of(date);
    let parts = split_on(cs.as_slice(), '-');
    let mut nums: Vec<u8> = Vec::new();
    let mut i: usize = 0;
    while i < parts.len()
        invariant
            i <= parts@.len(),
            nums@.len() == i,
            crate::text::rows(parts@) == crate::text::split_spec(date@, '-'),
            forall|j: int| 0 <= j < i ==> nums@[j] == decimal_value((#[trigger] parts@[j])@),
            forall|j: int|
                0 <= j < i ==> (#[trigger] parts@[j])@.len() > 0 && all_digits(parts@[j]@)
                    && decimal_value(parts@[j]@) <= 255,
        decreases parts@.len() - i,
    {
        match parse_u8(parts[i].as_slice()) {
            Some(v) => nums.push(v),
            None => {
                assert(crate::text::rows(parts@)[i as int] == parts@[i as int]@);
                return None;
            },
        }
        i += 1;
    }
    if nums.len() < 3 {
        assert(crate::text::rows(parts@).len() == parts@.len());
        return None;
    }
    assert(crate::text::rows(parts@)[0] == parts@[0]@);
    assert(crate::text::rows(parts@)[1] == parts@[1]@);
    assert(crate::text::rows(parts@)[2] == parts@[2]@);
    assert forall|j: int| 0 <= j < parts@.len() implies {
        let p = #[trigger] crate::text::split_spec(date@, '-')[j];
        p.len() > 0 && all_digits(p) && decimal_value(p) <= 255
    } by {
        assert(crate::text::rows(parts@)[j] == parts@[j]@);
    }
    Some((nums[0], nums[1], nums[2]))
}

pub open spec fn is_long_month(m: int) -> bool {
    m == 1 || m == 3 || m == 5 || m == 7 || m == 8 || m == 10 || m == 12
}

pub open spec fn is_short_month(m: int) -> bool {
    m == 4 || m == 6 || m == 9 || m == 11
}

/// A day of the month in 19xx or 20xx, with a leap day only in years
/// divisible by four.
pub open spec fn valid_dmy(d: int, m: int, y: int) -> bool {
    d != 0 && (m == 2 && d <= 29 || is_long_month(m) && d <= 31 || is_short_month(m) && d <= 30)
        && !(d == 29 && m == 2 && y % 4 != 0)
}

/// Whether the numbers read as day, month, year.
pub fn is_valid_dmy(date: Triple) -> (r: bool)
    ensures
        r == valid_dmy(date.0 as int, date.1 as int, date.2 as int),
{
    let (d, m, y) = date;
    d != 0 && (m == 2 && d <= 29 || (m == 1 || m == 3 || m == 5 || m == 7 || m == 8 || m == 10
        || m == 12) && d <= 31 || (m == 4 || m == 6 || m == 9 || m == 11) && d <= 30) && !(d == 29
        && m == 2 && y % 4 != 0)
}

/// Whether the numbers read as month, day, year.
pub fn is_valid_mdy(date: Triple) -> (r: bool)
    ensures
        r == valid_dmy(date.1 as int, date.0 as int, date.2 as int),
{
    let (m, d, y) = date;
    is_valid_dmy((d, m, y))
}

/// Whether the numbers read as year, month, day.
pub fn is_valid_ymd(date: Triple) -> (r: bool)
    ensures
        r == valid_dmy(date.2 as int, date.1 as int, date.0 as int),
{
    let (y, m, d) = date;
    is_valid_dmy((d, m, y))
}

/// Whether the numbers read as year, day, month.
pub fn is_valid_ydm(date: Triple) -> (r: bool)
    ensures
        r == valid_dmy(date.1 as int, date.2 as int, date.0 as int),
{
    let (y, d, m) = date;
    is_valid_dmy((d, m, y))
}

/// Reads a number written in decimal digits; `None` where `s` is empty,
/// holds another character, or writes a number beyond `u64`.
pub fn parse_decimal(s: &[char]) -> (r: Option<u64>)
    ensures
        r matches Some(v) ==> s@.len() > 0 && all_digits(s@) && v == decimal_value(s@),
        r is None ==> !(s@.len() > 0 && all_digits(s@) && decimal_value(s@) <= u64::MAX),
{
    if s.len() == 0 {
        return None;
    }
    let mut acc: u64 = 0;
    let mut i: usize = 0;
    while i < s.len()
        invariant
            i <= s@.len(),
            all_digits(s@.take(i as int)),
            acc == decimal_value(s@.take(i as int)),
        decreases s@.len() - i,
    {
        let c = s[i];
        assert(s@.take(i + 1).drop_last() =~= s@.take(i as int));
        if c < '0' || c > '9' {
            assert(!('0' <= s@[i as int] <= '9'));
            return None;
        }
        let d = (c as u32 - '0' as u32) as u64;
        assert forall|j: int| 0 <= j < i + 1 implies '0' <= #[trigger] s@.take(i + 1)[j] <= '9' by {
            if j < i {
                assert(s@.take(i + 1)[j] == s@.take(i as int)[j]);
            }
        }
        let next = match acc.checked_mul(10) {
            Some(x) => x.checked_add(d),
            None => None,
        };
        acc = match next {
            Some(x) => x,
            None => {
                proof {
                    if all_digits(s@) {
                        lemma_decimal_grows(s@, i + 1);
                    }
                }
                return None;
            },
        };
        assert forall|j: int| 0 <= j < i + 1 implies '0' <= #[trigger] s@.take(i + 1)[j] <= '9' by {
            if j < i {
                assert(s@.take(i + 1)[j] == s@.take(i as int)[j]);
            }
        }
        i += 1;
    }
    assert(s@.take(i as int) =~= s@);
    Some(acc)
}

fn same_name(a: &String, b: &String) -> (r: bool)
    ensures
        r == (a@ == b@),
{
    *a == *b
}

/// Reads the lines "a-b-c: Name, Name" into each name with the dates
/// written beside it, names in order of first appearance; `None` where a
/// line has no colon or its date does not read.
pub fn parse(input: &str) -> (r: Vec<(String, Vec<Triple>)>)
    requires
        forall|i: int|
            0 <= i < lines_spec(input@).len() ==> record_line(#[trigger] lines_spec(input@)[i]),
    ensures
        forall|i: int, j: int|
            0 <= i < j < r@.len() ==> (#[trigger] r@[i]).0@ != (#[trigger] r@[j]).0@,
{
    match try_parse(input) {
        Some(v) => v,
        None => {
            assert(false);
            Vec::new()
        },
    }
}

/// A line "a-b-c: names": a colon, and a date text before the first one.
pub open spec fn record_line(l: Seq<char>) -> bool {
    exists|k: int| #[trigger] first_colon_at(l, k) && date_text(l.take(k))
}

fn first_colon(line: &Vec<char>) -> (r: Option<usize>)
    ensures
        r matches Some(k) ==> first_colon_at(line@, k as int),
        r is None ==> forall|k: int| !first_colon_at(line@, k),
{
    let n = line.len();
    let mut k: usize = 0;
    while k < n && line[k] != ':'
        invariant
            n == line@.len(),
            k <= n,
            forall|j: int| 0 <= j < k ==> line@[j] != ':',
        decreases n - k,
    {
        k += 1;
    }
    if k == n {
        assert forall|q: int| !first_colon_at(line@, q) by {
            if first_colon_at(line@, q) {
                assert(line@[q] != ':');
            }
        }
        None
    } else {
        Some(k)
    }
}

proof fn lemma_first_colon_unique(l: Seq<char>, a: int, b: int)
    requires
        first_colon_at(l, a),
        first_colon_at(l, b),
    ensures
        a == b,
{
    if a < b {
        assert(l[a] != ':');
    }
    if b < a {
        assert(l[b] != ':');
    }
}

/// Whether `line` is a record line.
pub fn is_record_line(line: &str) -> (r: bool)
    ensures
        r == record_line(line@),
{
    let cs = chars_of(line);
    match first_colon(&cs) {
        None => false,
        Some(k) => {
            let text = crate::text::string_of(crate::text::slice_of(cs.as_slice(), 0, k).as_slice());
            assert(text@ =~= line@.take(k as int));
            let ok = try_parse_date(text.as_str()).is_some();
            proof {
                if record_line(line@) {
                    let k2 = choose|k2: int| #[trigger] first_colon_at(line@, k2) && date_text(line@.take(k2));
                    lemma_first_colon_unique(line@, k as int, k2);
                }
                if ok {
                    assert(first_colon_at(line@, k as int));
                }
            }
            ok
        },
    }
}

fn try_parse(input: &str) -> (r: Option<Vec<(String, Vec<Triple>)>>)
    ensures
        r matches Some(v) ==> forall|i: int, j: int|
            0 <= i < j < v@.len() ==> (#[trigger] v@[i]).0@ != (#[trigger] v@[j]).0@,
        r is None ==> exists|i: int|
            0 <= i < lines_spec(input@).len() && !record_line(#[trigger] lines_spec(input@)[i]),
{
    let cs = chars_of(input);
    let lines = crate::text::lines_of(cs.as_slice());
    let mut entries: Vec<(String, Vec<Triple>)> = Vec::new();
    let mut i: usize = 0;
    while i < lines.len()
        invariant
            i <= lines@.len(),
            rows(lines@) == lines_spec(input@),
            forall|a: int, b: int|
                0 <= a < b < entries@.len() ==> (#[trigger] entries@[a]).0@ != (#[trigger] entries@[b]).0@,
        decreases lines@.len() - i,
    {
        let line = &lines[i];
        let n = line.len();
        assert(rows(lines@)[i as int] == line@);
        let k = match first_colon(line) {
            Some(k) => k,
            None => {
                assert(!record_line(lines_spec(input@)[i as int]));
                return None;
            },
        };
        let written = crate::text::string_of(crate::text::slice_of(line.as_slice(), 0, k).as_slice());
        assert(written@ =~= line@.take(k as int));
        let date = match try_parse_date(written.as_str()) {
            Some(t) => t,
            None => {
                proof {
                    if record_line(line@) {
                        let k2 = choose|k2: int|
                            #[trigger] first_colon_at(line@, k2) && date_text(line@.take(k2));
                        lemma_first_colon_unique(line@, k as int, k2);
                    }
                }
                assert(!record_line(lines_spec(input@)[i as int]));
                return None;
            },
        };
        let names = split_on(crate::text::slice_of(line.as_slice(), k + 1, n).as_slice(), ',');
        let mut j: usize = 0;
        while j < names.len()
            invariant
                j <= names@.len(),
                forall|a: int, b: int|
                    0 <= a < b < entries@.len() ==> (#[trigger] entries@[a]).0@ != (
                    #[trigger] entries@[b]).0@,
            decreases names@.len() - j,
        {
            let name = crate::text::string_of(crate::text::trim(names[j].as_slice()).as_slice());
            let mut e: usize = 0;
            while e < entries.len() && !same_name(&entries[e].0, &name)
                invariant
                    e <= entries@.len(),
                    forall|q: int| 0 <= q < e ==> (#[trigger] entries@[q]).0@ != name@,
                decreases entries@.len() - e,
            {
                e += 1;
            }
            if e == entries.len() {
                let ghost before = entries@;
                let mut ds: Vec<Triple> = Vec::new();
                ds.push(date);
                entries.push((name, ds));
                assert forall|a: int, b: int|
                    0 <= a < b < entries@.len() implies (#[trigger] entries@[a]).0@ != (
                    #[trigger] entries@[b]).0@ by {
                    if b == before.len() {
                        assert(entries@[a] == before[a]);
                    } else {
                        assert(entries@[a] == before[a] && entries@[b] == before[b]);
                    }
                }
            } else {
                let ghost before = entries@;
                let mut entry = entries.remove(e);
                entry.1.push(date);
                entries.insert(e, entry);
                assert forall|a: int, b: int|
                    0 <= a < b < entries@.len() implies (#[trigger] entries@[a]).0@ != (
                    #[trigger] entries@[b]).0@ by {
                    assert(entries@[a].0 == before[a].0 && entries@[b].0 == before[b].0);
                }
            }
            j += 1;
        }
        i += 1;
    }
    Some(entries)
}

fn holds(dates: &Vec<Triple>, t: Triple) -> (r: bool)
    ensures
        r == exists|i: int| 0 <= i < dates@.len() && #[trigger] dates@[i] == t,
{
    let mut i: usize = 0;
    while i < dates.len()
        invariant
            i <= dates@.len(),
            forall|j: int| 0 <= j < i ==> #[trigger] dates@[j] != t,
        decreases dates@.len() - i,
    {
        let d = dates[i];
        if d.0 == t.0 && d.1 == t.1 && d.2 == t.2 {
            return true;
        }
        i += 1;
    }
    false
}

/// The order in which the three numbers of a date are written.
#[derive(Clone, Copy, PartialEq, Eq, Structural)]
pub enum Order {
    Dmy,
    Mdy,
    Ymd,
    Ydm,
}

/// The numbers read as a valid date in `order`.
pub open spec fn valid_as(t: Triple, order: Order) -> bool {
    match order {
        Order::Dmy => valid_dmy(t.0 as int, t.1 as int, t.2 as int),
        Order::Mdy => valid_dmy(t.1 as int, t.0 as int, t.2 as int),
        Order::Ymd => valid_dmy(t.2 as int, t.1 as int, t.0 as int),
        Order::Ydm => valid_dmy(t.1 as int, t.2 as int, t.0 as int),
    }
}

/// 11 September 2001 written in `order`.
pub open spec fn nine_eleven(order: Order) -> Triple {
    match order {
        Order::Dmy => (11, 9, 1),
        Order::Mdy => (9, 11, 1),
        Order::Ymd => (1, 9, 11),
        Order::Ydm => (1, 11, 9),
    }
}

/// Every date reads in `order`, and one of them is 11 September 2001.
pub open spec fn nine_eleven_in(dates: Seq<Triple>, order: Order) -> bool {
    (forall|i: int| 0 <= i < dates.len() ==> valid_as(#[trigger] dates[i], order)) && exists|i: int|
        0 <= i < dates.len() && #[trigger] dates[i] == nine_eleven(order)
}

fn valid_in(order: &Order, t: Triple) -> (r: bool)
    ensures
        r == valid_as(t, *order),
{
    match order {
        Order::Dmy => is_valid_dmy(t),
        Order::Mdy => is_valid_mdy(t),
        Order::Ymd => is_valid_ymd(t),
        Order::Ydm => is_valid_ydm(t),
    }
}

/// Whether every date reads in `order` and one of them is 11 September 2001.
pub fn wrote_nine_eleven(dates: &Vec<Triple>, order: Order) -> (r: bool)
    ensures
        r == nine_eleven_in(dates@, order),
{
    let mut i: usize = 0;
    while i < dates.len()
        invariant
            i <= dates@.len(),
            forall|j: int| 0 <= j < i ==> valid_as(#[trigger] dates@[j], order),
        decreases dates@.len() - i,
    {
        if !valid_in(&order, dates[i]) {
            return false;
        }
        i += 1;
    }
    let target: Triple = match order {
        Order::Dmy => (11, 9, 1),
        Order::Mdy => (9, 11, 1),
        Order::Ymd => (1, 9, 11),
        Order::Ydm => (1, 11, 9),
    };
    holds(dates, target)
}

/// The names, sorted and joined by spaces, of those whose dates all read
/// in one order that makes one of them 11 September 2001; `None` where the
/// input does not read.
pub fn solution(input: &str) -> Option<String> {
    let cs = chars_of(input);
    let lines = crate::text::lines_of(cs.as_slice());
    let mut l: usize = 0;
    while l < lines.len()
        invariant
            l <= lines@.len(),
            rows(lines@) == lines_spec(input@),
            forall|q: int| 0 <= q < l ==> record_line(#[trigger] lines_spec(input@)[q]),
        decreases lines@.len() - l,
    {
        let text = crate::text::string_of(lines[l].as_slice());
        assert(rows(lines@)[l as int] == text@);
        if !is_record_line(text.as_str()) {
            return None;
        }
        l += 1;
    }
    let entries = parse(input);
    let mut names: Vec<String> = Vec::new();
    let mut keys: Vec<Vec<u32>> = Vec::new();
    let mut i: usize = 0;
    while i < entries.len()
        invariant
            i <= entries@.len(),
            names@.len() == keys@.len(),
        decreases entries@.len() - i,
    {
        let dates = &entries[i].1;
        if wrote_nine_eleven(dates, Order::Dmy) || wrote_nine_eleven(dates, Order::Mdy)
            || wrote_nine_eleven(dates, Order::Ymd) || wrote_nine_eleven(dates, Order::Ydm) {
            let name = entries[i].0.clone();
            let cs = chars_of(name.as_str());
            let mut key: Vec<u32> = Vec::new();
            let mut k: usize = 0;
            while k < cs.len()
                invariant
                    k <= cs@.len(),
                decreases cs@.len() - k,
            {
                key.push(cs[k] as u32);
                k += 1;
            }
            names.push(name);
            keys.push(key);
        }
        i += 1;
    }
    let sorted = crate::collation::sort_by_keys(&names, &keys);
    let mut out: Vec<char> = Vec::new();
    let mut p: usize = 0;
    while p < sorted.len()
        invariant
            p <= sorted@.len(),
        decreases sorted@.len() - p,
    {
        if p > 0 {
            out.push(' ');
        }
        let cs = chars_of(sorted[p].as_str());
        let mut k: usize = 0;
        while k < cs.len()
            invariant
                k <= cs@.len(),
            decreases cs@.len() - k,
        {
            out.push(cs[k]);
            k += 1;
        }
        p += 1;
    }
    Some(crate::text::string_of(out.as_slice()))
}

} // verus!
