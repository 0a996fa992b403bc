//! Japanese numerals and the traditional units of length, read into numbers
//! and areas in square metres.
use crate::text::{chars_of, lines_of, slice_of, string_of};
use vstd::prelude::*;

verus! {

/// The value of a numeral character, or 0 for any other character.
pub open spec fn numeral_value(c: char) -> int {
    if c == '一' {
        1
    } else if c == '二' {
        2
    } else if c == '三' {
        3
    } else if c == '四' {
        4
    } else if c == '五' {
        5
    } else if c == '六' {
        6
    } else if c == '七' {
        7
    } else if c == '八' {
        8
    } else if c == '九' {
        9
    } else if c == '十' {
        10
    } else if c == '百' {
        100
    } else if c == '千' {
        1000
    } else if c == '万' {
        10_000
    } else if c == '億' {
        100_000_000
    } else {
        0
    }
}

/// Whether `c` is a numeral.
pub fn is_numeral(c: char) -> (r: bool)
    ensures
        r == (numeral_value(c) > 0),
{
    c == '一' || c == '二' || c == '三' || c == '四' || c == '五' || c == '六' || c == '七' || c
        == '八' || c == '九' || c == '十' || c == '百' || c == '千' || c == '万' || c == '億'
}

/// The value of a numeral.
pub fn parse_numeral(c: char) -> (r: u64)
    requires
        numeral_value(c) > 0,
    ensures
        r == numeral_value(c),
{
    match c {
        '一' => 1,
        '二' => 2,
        '三' => 3,
        '四' => 4,
        '五' => 5,
        '六' => 6,
        '七' => 7,
        '八' => 8,
        '九' => 9,
        '十' => 10,
        '百' => 100,
        '千' => 1000,
        '万' => 10_000,
        _ => 100_000_000,
    }
}

/// The reading state after the numerals `s`: the pending digit, the sum of
/// the groups below ten thousand, and the total of the completed groups.
pub open spec fn read_state(s: Seq<char>) -> (int, int, int)
    decreases s.len(),
{
    if s.len() == 0 {
        (0, 0, 0)
    } else {
        let (p, a, t) = read_state(s.drop_last());
        let v = numeral_value(s.last());
        if v >= 10_000 {
            (0, 0, t + (a + p) * v)
        } else if v >= 10 {
            (
                0,
                a + (if p > 1 {
                    p
                } else {
                    1
                }) * v,
                t,
            )
        } else {
            (v, a, t)
        }
    }
}

/// The number that the numerals `s` write.
pub open spec fn number_value(s: Seq<char>) -> int {
    let (p, a, t) = read_state(s);
    t + a + p
}

pub open spec fn all_numerals(s: Seq<char>) -> bool {
    forall|i: int| 0 <= i < s.len() ==> numeral_value(#[trigger] s[i]) > 0
}

/// Reading `s` never leaves the range of `u64`.
pub open spec fn fits(s: Seq<char>) -> bool {
    &&& forall|k: int|
        0 <= k <= s.len() ==> {
            let (p, a, t) = #[trigger] read_state(s.take(k));
            p <= u64::MAX && a <= u64::MAX && t <= u64::MAX
        }
    &&& number_value(s) <= u64::MAX
}

proof fn lemma_state_nonneg(s: Seq<char>)
    ensures
        read_state(s).0 >= 0,
        read_state(s).1 >= 0,
        read_state(s).2 >= 0,
    decreases s.len(),
{
    if s.len() > 0 {
        lemma_state_nonneg(s.drop_last());
        let (p, a, t) = read_state(s.drop_last());
        let v = numeral_value(s.last());
        assert((a + p) * v >= 0) by (nonlinear_arith)
            requires
                a + p >= 0,
                v >= 0,
        ;
        assert((if p > 1 {
            p
        } else {
            1
        }) * v >= 0) by (nonlinear_arith)
            requires
                v >= 0,
        ;
    }
}

/// Reads a number written in Japanese numerals; `None` where a character is
/// not a numeral or the number does not fit in a `u64`.
pub fn parse_number(number: &str) -> (r: Option<u64>)
    ensures
        r == (if all_numerals(number@) && fits(number@) {
            Some(number_value(number@) as u64)
        } else {
            None
        }),
{
    let cs = chars_of(number);
    let ghost s = number@;
    let mut prev: u64 = 0;
    let mut acc: u64 = 0;
    let mut total: u64 = 0;
    let mut i: usize = 0;
    assert(s.take(0) =~= Seq::<char>::empty());
    while i < cs.len()
        invariant
            s == number@,
            cs@ == s,
            i <= s.len(),
            read_state(s.take(i as int)) == (prev as int, acc as int, total as int),
            all_numerals(s.take(i as int)),
            forall|k: int|
                0 <= k <= i ==> {
                    let (p, a, t) = #[trigger] read_state(s.take(k));
                    p <= u64::MAX && a <= u64::MAX && t <= u64::MAX
                },
        decreases s.len() - i,
    {
        let c = cs[i];
        let ghost next = s.take(i + 1);
        proof {
            assert(next.drop_last() =~= s.take(i as int));
            lemma_state_nonneg(s.take(i as int));
        }
        if !is_numeral(c) {
            assert(numeral_value(s[i as int]) == 0);
            assert(!all_numerals(s));
            return None;
        }
        let value = parse_numeral(c);
        if value >= 10_000 {
            let grouped = match acc.checked_add(prev) {
                Some(g) => g,
                None => {
                    proof {
                        assert((acc + prev) * value >= acc + prev) by (nonlinear_arith)
                            requires
                                acc + prev >= 0,
                                value >= 1,
                        ;
                        assert(read_state(s.take(i + 1)).2 > u64::MAX);
                    }
                    return None;
                },
            };
            let scaled = match grouped.checked_mul(value) {
                Some(x) => x,
                None => {
                    proof {
                        let (p, a, t) = read_state(s.take(i as int));
                        assert(grouped * value == (a + p) * numeral_value(s.take(i + 1).last()));
                        assert(read_state(s.take(i + 1)).2 > u64::MAX);
                        assert(!fits(s));
                    }
                    return None;
                },
            };
            total = match total.checked_add(scaled) {
                Some(x) => x,
                None => {
                    assert(read_state(s.take(i + 1)).2 > u64::MAX);
                    return None;
                },
            };
            acc = 0;
            prev = 0;
        } else if value >= 10 {
            let factor = if prev > 1 {
                prev
            } else {
                1
            };
            let scaled = match factor.checked_mul(value) {
                Some(x) => x,
                None => {
                    assert(read_state(s.take(i + 1)).1 > u64::MAX);
                    return None;
                },
            };
            acc = match acc.checked_add(scaled) {
                Some(x) => x,
                None => {
                    assert(read_state(s.take(i + 1)).1 > u64::MAX);
                    return None;
                },
            };
            prev = 0;
        } else {
            prev = value;
        }
        proof {
            assert forall|j: int| 0 <= j < i + 1 implies numeral_value(#[trigger] next[j]) > 0 by {
                if j < i {
                    assert(next[j] == s.take(i as int)[j]);
                }
            }
        }
        i += 1;
    }
    assert(s.take(i as int) =~= s);
    let sum = match total.checked_add(acc) {
        Some(x) => x,
        None => return None,
    };
    match sum.checked_add(prev) {
        Some(x) => Some(x),
        None => None,
    }
}

/// A ratio `numerator / denominator`.
#[derive(Clone, Copy, Debug, PartialEq, Eq, Structural)]
pub struct Fraction(pub u64, pub u64);

impl Fraction {
    pub fn mul(self, rhs: Fraction) -> (r: Fraction)
        requires
            self.0 * rhs.0 <= u64::MAX,
            self.1 * rhs.1 <= u64::MAX,
        ensures
            r.0 == self.0 * rhs.0,
            r.1 == self.1 * rhs.1,
    {
        Fraction(self.0 * rhs.0, self.1 * rhs.1)
    }
}

/// A length: a count of a unit, the unit given in shaku.
#[derive(Clone, Copy, Debug, PartialEq, Eq, Structural)]
pub struct Length {
    pub value: u64,
    pub unit: Fraction,
}

/// An area: a count of a unit, the unit given in square shaku.
#[derive(Clone, Copy, Debug, PartialEq, Eq, Structural)]
pub struct Area {
    pub value: u64,
    pub unit: Fraction,
}

impl Length {
    pub fn mul(self, rhs: Length) -> (r: Area)
        requires
            self.value * rhs.value <= u64::MAX,
            self.unit.0 * rhs.unit.0 <= u64::MAX,
            self.unit.1 * rhs.unit.1 <= u64::MAX,
        ensures
            r.value == self.value * rhs.value,
            r.unit.0 == self.unit.0 * rhs.unit.0,
            r.unit.1 == self.unit.1 * rhs.unit.1,
    {
        Area { value: self.value * rhs.value, unit: self.unit.mul(rhs.unit) }
    }
}

impl Area {
    /// Square metres in the area, rounded down; a shaku is 10/33 of a metre.
    pub open spec fn metric(self) -> int {
        self.value * self.unit.0 * 100 / (self.unit.1 as int) / 1089
    }

    pub fn to_metric(&self) -> (r: u64)
        requires
            self.value * self.unit.0 * 100 <= u64::MAX,
            self.unit.1 > 0,
        ensures
            r == self.metric(),
    {
        proof {
            assert(self.value * self.unit.0 <= self.value * self.unit.0 * 100) by (nonlinear_arith)
                requires
                    self.value * self.unit.0 >= 0,
            ;
        }
        self.value * self.unit.0 * (10 * 10) / self.unit.1 / (33 * 33)
    }
}

/// The size of a unit of length in shaku, or `None` for a character that is no unit.
pub open spec fn unit_fraction(c: char) -> Option<(int, int)> {
    if c == '尺' {
        Some((1, 1))
    } else if c == '間' {
        Some((6, 1))
    } else if c == '丈' {
        Some((10, 1))
    } else if c == '町' {
        Some((360, 1))
    } else if c == '里' {
        Some((12_960, 1))
    } else if c == '毛' {
        Some((1, 10_000))
    } else if c == '厘' {
        Some((1, 1000))
    } else if c == '分' {
        Some((1, 100))
    } else if c == '寸' {
        Some((1, 10))
    } else {
        None
    }
}

fn parse_unit(c: char) -> (r: Option<Fraction>)
    ensures
        r matches Some(f) ==> unit_fraction(c) == Some((f.0 as int, f.1 as int)),
        r is None <==> unit_fraction(c) is None,
{
    match c {
        '尺' => Some(Fraction(1, 1)),
        '間' => Some(Fraction(6, 1)),
        '丈' => Some(Fraction(10, 1)),
        '町' => Some(Fraction(360, 1)),
        '里' => Some(Fraction(12_960, 1)),
        '毛' => Some(Fraction(1, 10_000)),
        '厘' => Some(Fraction(1, 1000)),
        '分' => Some(Fraction(1, 100)),
        '寸' => Some(Fraction(1, 10)),
        _ => None,
    }
}

/// A length reads: a number in numerals, within `u64`, then one unit.
pub open spec fn length_reads(s: Seq<char>) -> bool {
    s.len() > 0 && unit_fraction(s.last()) is Some && all_numerals(s.drop_last()) && fits(
        s.drop_last(),
    )
}

/// Reads a length: a number in numerals followed by one unit character.
pub fn parse_length(length: &[char]) -> (r: Length)
    requires
        length_reads(length@),
    ensures
        unit_fraction(length@.last()) == Some((r.unit.0 as int, r.unit.1 as int)),
        r.value == number_value(length@.drop_last()),
{
    match read_length(length) {
        Some(l) => l,
        None => {
            assert(false);
            Length { value: 0, unit: Fraction(1, 1) }
        },
    }
}

/// Reads a length; `None` where it does not read.
fn read_length(length: &[char]) -> (r: Option<Length>)
    ensures
        r matches Some(l) ==> length@.len() > 0 && unit_fraction(length@.last()) == Some(
            (l.unit.0 as int, l.unit.1 as int),
        ) && all_numerals(length@.drop_last()) && fits(length@.drop_last()) && l.value
            == number_value(length@.drop_last()),
        length@.len() > 0 && unit_fraction(length@.last()) is Some && all_numerals(
            length@.drop_last(),
        ) && fits(length@.drop_last()) ==> r is Some,
{
    let n = length.len();
    if n == 0 {
        return None;
    }
    assert(length@[n - 1] == length@.last());
    let unit = match parse_unit(length[n - 1]) {
        Some(u) => u,
        None => return None,
    };
    let number = string_of(slice_of(length, 0, n - 1).as_slice());
    assert(length@.subrange(0, n - 1) =~= length@.drop_last());
    assert(number@ == length@.drop_last());
    let text = number.as_str();
    let value = match parse_number(text) {
        Some(v) => v,
        None => return None,
    };
    assert(text@ == length@.drop_last());
    proof {
        lemma_state_nonneg(length@.drop_last());
    }
    Some(Length { value, unit })
}

/// " × " starts at `i`.
pub open spec fn times_at(s: Seq<char>, i: int) -> bool {
    0 <= i && i + 3 <= s.len() && s[i] == ' ' && s[i + 1] == '×' && s[i + 2] == ' '
}

/// `i` is where the first " × " starts.
pub open spec fn first_times_at(s: Seq<char>, i: int) -> bool {
    times_at(s, i) && forall|j: int| 0 <= j < i ==> !times_at(s, j)
}

/// The value and the unit, as numerator and denominator, of a length that reads.
pub open spec fn length_parts(s: Seq<char>) -> (int, int, int) {
    (number_value(s.drop_last()), (unit_fraction(s.last())->0).0, (unit_fraction(s.last())->0).1)
}

/// Every product on the way to the area of `w` by `h` fits in a `u64`.
pub open spec fn area_fits(w: Seq<char>, h: Seq<char>) -> bool {
    let (wv, wn, wd) = length_parts(w);
    let (hv, hn, hd) = length_parts(h);
    &&& wv * hv <= u64::MAX
    &&& wn * hn <= u64::MAX
    &&& wd * hd <= u64::MAX
    &&& wv * hv * (wn * hn) <= u64::MAX
    &&& wv * hv * (wn * hn) * 100 <= u64::MAX
}

/// Square metres, rounded down, of a rectangle of sides `w` by `h`.
pub open spec fn area_value(w: Seq<char>, h: Seq<char>) -> int {
    let (wv, wn, wd) = length_parts(w);
    let (hv, hn, hd) = length_parts(h);
    wv * hv * (wn * hn) * 100 / (wd * hd) / 1089
}

/// The area in square metres of a rectangle written as "<length> × <length>";
/// `None` where it does not read or the product leaves the range of `u64`.
pub fn area(dimensions: &str) -> (r: Option<u64>)
    ensures
        r matches Some(m) ==> exists|i: int|
            #[trigger] first_times_at(dimensions@, i) && length_reads(dimensions@.take(i))
                && length_reads(dimensions@.skip(i + 3)) && m == area_value(
                dimensions@.take(i),
                dimensions@.skip(i + 3),
            ),
        forall|i: int|
            #[trigger] first_times_at(dimensions@, i) && length_reads(dimensions@.take(i))
                && length_reads(dimensions@.skip(i + 3)) && area_fits(
                dimensions@.take(i),
                dimensions@.skip(i + 3),
            ) ==> r is Some,
{
    let cs = chars_of(dimensions);
    let n = cs.len();
    let mut i: usize = 0;
    while i < n && !(n - i >= 3 && cs[i] == ' ' && cs[i + 1] == '×' && cs[i + 2] == ' ')
        invariant
            cs@ == dimensions@,
            n == cs@.len(),
            i <= n,
            forall|j: int| 0 <= j < i ==> !times_at(dimensions@, j),
        decreases n - i,
    {
        i += 1;
    }
    if i >= n {
        assert forall|j: int| !first_times_at(dimensions@, j) by {
            if first_times_at(dimensions@, j) {
                assert(j < i);
            }
        }
        return None;
    }
    let ghost w = dimensions@.take(i as int);
    let ghost h = dimensions@.skip(i + 3);
    assert(first_times_at(dimensions@, i as int));
    assert forall|j: int| #[trigger] first_times_at(dimensions@, j) implies j == i by {
        if j < i {
        } else if j > i {
            assert(times_at(dimensions@, i as int));
        }
    }
    let wc = slice_of(cs.as_slice(), 0, i);
    let hc = slice_of(cs.as_slice(), i + 3, n);
    assert(wc@ =~= w);
    assert(hc@ =~= h);
    let width = match read_length(wc.as_slice()) {
        Some(l) => l,
        None => return None,
    };
    let height = match read_length(hc.as_slice()) {
        Some(l) => l,
        None => return None,
    };
    assert(length_parts(w) == (width.value as int, width.unit.0 as int, width.unit.1 as int));
    assert(length_parts(h) == (height.value as int, height.unit.0 as int, height.unit.1 as int));
    let value = match width.value.checked_mul(height.value) {
        Some(v) => v,
        None => return None,
    };
    let num = match width.unit.0.checked_mul(height.unit.0) {
        Some(v) => v,
        None => return None,
    };
    let den = match width.unit.1.checked_mul(height.unit.1) {
        Some(v) => v,
        None => return None,
    };
    let scaled = match value.checked_mul(num) {
        Some(v) => v,
        None => return None,
    };
    if den == 0 || scaled.checked_mul(100).is_none() {
        proof {
            assert(width.unit.1 > 0 && height.unit.1 > 0);
            assert(den > 0) by (nonlinear_arith)
                requires
                    den == width.unit.1 * height.unit.1,
                    width.unit.1 > 0,
                    height.unit.1 > 0,
            ;
        }
        return None;
    }
    let a = width.mul(height);
    let m = a.to_metric();
    assert(m == area_value(w, h));
    Some(m)
}

/// The sum of the areas of the lines of `input`; `None` where a line does
/// not read or the sum leaves the `u64` range.
pub fn solution(input: &str) -> Option<u64> {
    let cs = chars_of(input);
    let lines = lines_of(cs.as_slice());
    let mut sum: u64 = 0;
    let mut i: usize = 0;
    while i < lines.len()
        invariant
            i <= lines@.len(),
        decreases lines@.len() - i,
    {
        let line = string_of(lines[i].as_slice());
        let a = area(line.as_str())?;
        sum = sum.checked_add(a)?;
        i += 1;
    }
    Some(sum)
}

} // verus!
