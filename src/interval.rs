//! Time-of-day intervals within one UTC day, and the algebra on sorted,
//! separated lists of them: insertion with fusion, complement and intersection.
//!
//! A time of day is a count of nanoseconds since 00:00; `DAY` (24:00) marks the
//! end of the day.
use vstd::prelude::*;

verus! {

/// Nanoseconds in one day: the time of day 24:00.
pub const DAY: u64 = 86_400_000_000_000;

/// Nanoseconds in one minute.
pub const MINUTE: u64 = 60_000_000_000;

/// Half a minute, the point at which a duration rounds up.
pub const HALF_MINUTE: u64 = 30_000_000_000;

/// A closed span `[start, end]` of times of day.
#[derive(Clone, Copy, Debug, PartialEq, Eq, Structural)]
pub struct Interval {
    pub start: u64,
    pub end: u64,
}

impl Interval {
    pub open spec fn wf(self) -> bool {
        self.start <= self.end <= DAY
    }

    /// Whether the point `x` (on a grid of half nanoseconds) lies in the closed span.
    pub open spec fn holds(self, x: int) -> bool {
        2 * self.start <= x <= 2 * self.end
    }

    /// Whether the point `x` (on a grid of half nanoseconds) lies strictly inside.
    pub open spec fn inside(self, x: int) -> bool {
        2 * self.start < x < 2 * self.end
    }

    pub open spec fn length(self) -> int {
        self.end - self.start
    }

    /// Length rounded to the nearest minute, halves rounding up.
    pub open spec fn minutes(self) -> int {
        (self.length() + HALF_MINUTE) / (MINUTE as int)
    }

    pub fn new(start: u64, end: u64) -> (r: Interval)
        requires
            start <= end <= DAY,
        ensures
            r.start == start,
            r.end == end,
            r.wf(),
    {
        Interval { start, end }
    }

    /// The length of the interval in whole minutes, rounded to the nearest one.
    pub fn duration(&self) -> (r: u64)
        requires
            self.wf(),
        ensures
            r == self.minutes(),
    {
        (self.end - self.start + HALF_MINUTE) / MINUTE
    }
}

/// Sorted, with each interval ending strictly before the next one starts.
pub open spec fn canonical(s: Seq<Interval>) -> bool {
    &&& forall|i: int| 0 <= i < s.len() ==> (#[trigger] s[i]).wf()
    &&& forall|i: int, j: int| 0 <= i < j < s.len() ==> (#[trigger] s[i]).end < (#[trigger] s[j]).start
}

/// No interval of zero length.
pub open spec fn proper(s: Seq<Interval>) -> bool {
    forall|i: int| 0 <= i < s.len() ==> (#[trigger] s[i]).start < s[i].end
}

/// The closed point set of the list.
pub open spec fn covers(s: Seq<Interval>, x: int) -> bool {
    exists|j: int| 0 <= j < s.len() && (#[trigger] s[j]).holds(x)
}

/// The open point set of the list: the interiors of its intervals.
pub open spec fn interior(s: Seq<Interval>, x: int) -> bool {
    exists|j: int| 0 <= j < s.len() && (#[trigger] s[j]).inside(x)
}

/// The spans between consecutive intervals.
pub open spec fn gaps_between(s: Seq<Interval>) -> Seq<Interval>
    recommends
        s.len() > 0,
{
    Seq::new((s.len() - 1) as nat, |j: int| Interval { start: s[j].end, end: s[j + 1].start })
}

/// The parts of the day `[00:00, 24:00]` between the intervals of `s`.
pub open spec fn complement(s: Seq<Interval>) -> Seq<Interval> {
    if s.len() == 0 {
        seq![Interval { start: 0, end: DAY }]
    } else {
        let lead = if s[0].start > 0 {
            seq![Interval { start: 0, end: s[0].start }]
        } else {
            Seq::empty()
        };
        let trail = if s.last().end < DAY {
            seq![Interval { start: s.last().end, end: DAY }]
        } else {
            Seq::empty()
        };
        lead + gaps_between(s) + trail
    }
}

/// Sum of the exact lengths, in nanoseconds.
pub open spec fn total_length(s: Seq<Interval>) -> int
    decreases s.len(),
{
    if s.len() == 0 {
        0
    } else {
        total_length(s.drop_last()) + s.last().length()
    }
}

/// Sum of the lengths, each rounded to the nearest minute.
pub open spec fn total_minutes(s: Seq<Interval>) -> int
    decreases s.len(),
{
    if s.len() == 0 {
        0
    } else {
        total_minutes(s.drop_last()) + s.last().minutes()
    }
}

pub proof fn lemma_covers_append(a: Seq<Interval>, b: Seq<Interval>, x: int)
    ensures
        covers(a + b, x) <==> covers(a, x) || covers(b, x),
{
    let ab = a + b;
    if covers(ab, x) {
        let j = choose|j: int| 0 <= j < ab.len() && (#[trigger] ab[j]).holds(x);
        if j < a.len() {
            assert(a[j] == ab[j]);
        } else {
            assert(b[j - a.len()] == ab[j]);
        }
    }
    if covers(a, x) {
        let j = choose|j: int| 0 <= j < a.len() && (#[trigger] a[j]).holds(x);
        assert(ab[j] == a[j]);
    }
    if covers(b, x) {
        let j = choose|j: int| 0 <= j < b.len() && (#[trigger] b[j]).holds(x);
        assert(ab[j + a.len()] == b[j]);
    }
}

pub proof fn lemma_covers_single(c: Interval, x: int)
    ensures
        covers(seq![c], x) <==> c.holds(x),
{
    if c.holds(x) {
        assert(seq![c][0] == c);
    }
}

proof fn lemma_covers_split(a: Seq<Interval>, c: Interval, b: Seq<Interval>, x: int)
    ensures
        covers(a.push(c) + b, x) <==> covers(a, x) || c.holds(x) || covers(b, x),
{
    assert(a.push(c) =~= a + seq![c]);
    lemma_covers_append(a.push(c), b, x);
    lemma_covers_append(a, seq![c], x);
    lemma_covers_single(c, x);
}

proof fn lemma_covers_first(s: Seq<Interval>, x: int)
    requires
        canonical(s),
        s.len() > 0,
    ensures
        covers(s, x) <==> s[0].holds(x) || covers(s.drop_first(), x),
        covers(s.drop_first(), x) ==> x > 2 * s[0].end + 1,
{
    let t = s.drop_first();
    if covers(s, x) {
        let j = choose|j: int| 0 <= j < s.len() && (#[trigger] s[j]).holds(x);
        if j > 0 {
            assert(t[j - 1] == s[j]);
        }
    }
    if covers(t, x) {
        let j = choose|j: int| 0 <= j < t.len() && (#[trigger] t[j]).holds(x);
        assert(s[j + 1] == t[j]);
        assert(s[0].end < s[j + 1].start);
    }
}

/// A canonical list is fixed by the points it covers: two canonical lists
/// that cover the same points are equal.
pub proof fn lemma_covers_determines(r1: Seq<Interval>, r2: Seq<Interval>)
    requires
        canonical(r1),
        canonical(r2),
        forall|x: int| covers(r1, x) <==> covers(r2, x),
    ensures
        r1 == r2,
    decreases r1.len() + r2.len(),
{
    if r1.len() == 0 || r2.len() == 0 {
        if r1.len() > 0 {
            assert(r1[0].holds(2 * r1[0].start));
            assert(covers(r1, 2 * r1[0].start));
        }
        if r2.len() > 0 {
            assert(r2[0].holds(2 * r2[0].start));
            assert(covers(r2, 2 * r2[0].start));
        }
        assert(r1 =~= r2);
    } else {
        let a = r1[0];
        let b = r2[0];
        if a.start < b.start {
            let x = 2 * a.start;
            assert(a.holds(x));
            assert(covers(r1, x));
            let j = choose|j: int| 0 <= j < r2.len() && (#[trigger] r2[j]).holds(x);
            if j > 0 {
                assert(r2[0].end < r2[j].start);
            }
        }
        if b.start < a.start {
            let x = 2 * b.start;
            assert(b.holds(x));
            assert(covers(r2, x));
            let j = choose|j: int| 0 <= j < r1.len() && (#[trigger] r1[j]).holds(x);
            if j > 0 {
                assert(r1[0].end < r1[j].start);
            }
        }
        if a.end < b.end {
            let x = 2 * a.end + 1;
            assert(b.holds(x));
            assert(covers(r2, x));
            lemma_covers_first(r1, x);
        }
        if b.end < a.end {
            let x = 2 * b.end + 1;
            assert(a.holds(x));
            assert(covers(r1, x));
            lemma_covers_first(r2, x);
        }
        assert(a == b);
        let t1 = r1.drop_first();
        let t2 = r2.drop_first();
        assert forall|x: int| covers(t1, x) <==> covers(t2, x) by {
            lemma_covers_first(r1, x);
            lemma_covers_first(r2, x);
            if covers(t1, x) && a.holds(x) {
                assert(false);
            }
            if covers(t2, x) && b.holds(x) {
                assert(false);
            }
        }
        assert forall|i: int, j: int| 0 <= i < j < t1.len() implies (#[trigger] t1[i]).end < (
        #[trigger] t1[j]).start by {
            assert(t1[i] == r1[i + 1] && t1[j] == r1[j + 1]);
        }
        assert forall|i: int, j: int| 0 <= i < j < t2.len() implies (#[trigger] t2[i]).end < (
        #[trigger] t2[j]).start by {
            assert(t2[i] == r2[i + 1] && t2[j] == r2[j + 1]);
        }
        assert forall|i: int| 0 <= i < t1.len() implies (#[trigger] t1[i]).wf() by {
            assert(t1[i] == r1[i + 1]);
        }
        assert forall|i: int| 0 <= i < t2.len() implies (#[trigger] t2[i]).wf() by {
            assert(t2[i] == r2[i + 1]);
        }
        lemma_covers_determines(t1, t2);
        assert(r1.len() == t1.len() + 1 && r2.len() == t2.len() + 1);
        assert forall|i: int| 0 <= i < r1.len() implies r1[i] == r2[i] by {
            if i > 0 {
                assert(r1[i] == t1[i - 1] && r2[i] == t2[i - 1]);
            }
        }
        assert(r1 =~= r2);
    }
}

/// `r` is the canonical list that covers what `s` covers and `other` too.
pub open spec fn inserted(s: Seq<Interval>, other: Interval, r: Seq<Interval>) -> bool {
    &&& canonical(r)
    &&& forall|x: int| covers(r, x) <==> (covers(s, x) || other.holds(x))
}

/// Inserting an interval a second time changes nothing.
pub proof fn lemma_insert_idempotent(
    s: Seq<Interval>,
    other: Interval,
    r1: Seq<Interval>,
    r2: Seq<Interval>,
)
    requires
        canonical(s),
        other.wf(),
        inserted(s, other, r1),
        inserted(r1, other, r2),
    ensures
        r2 == r1,
{
    lemma_covers_determines(r2, r1);
}

/// Inserts `other` into the canonical list `intervals`, fusing it with every
/// interval that it overlaps or touches.
pub fn add_interval(intervals: &mut Vec<Interval>, other: Interval)
    requires
        canonical(old(intervals)@),
        other.wf(),
    ensures
        inserted(old(intervals)@, other, final(intervals)@),
        proper(old(intervals)@) && other.start < other.end ==> proper(final(intervals)@),
{
    let ghost s = intervals@;
    let n = intervals.len();
    let mut i: usize = 0;
    while i < n && intervals[i].end < other.start
        invariant
            n == intervals.len(),
            intervals@ == s,
            i <= n,
            forall|j: int| 0 <= j < i ==> (#[trigger] s[j]).end < other.start,
        decreases n - i,
    {
        i += 1;
    }
    if i == n {
        intervals.push(other);
        proof {
            assert forall|x: int| covers(intervals@, x) <==> (covers(s, x) || other.holds(x)) by {
                lemma_covers_split(s, other, Seq::empty(), x);
                assert(s.push(other) + Seq::empty() =~= s.push(other));
            }
        }
        return;
    }
    intervals.insert(i, other);
    let ghost mut k: int = i as int;
    proof {
        assert(intervals@ =~= s.subrange(0, i as int).push(other) + s.subrange(k, n as int));
        assert forall|x: int|
            covers(s.subrange(0, i as int), x) || other.holds(x) || covers(s.subrange(k, n as int), x)
                <==> (covers(s, x) || other.holds(x)) by {
            lemma_covers_append(s.subrange(0, i as int), s.subrange(k, n as int), x);
            assert(s.subrange(0, i as int) + s.subrange(k, n as int) =~= s);
        }
    }
    while i + 1 < intervals.len() && intervals[i].end >= intervals[i + 1].start
        invariant
            s.len() == n,
            i < n,
            i <= k <= n,
            intervals.len() == i + 1 + (n - k),
            intervals@ == s.subrange(0, i as int).push(intervals@[i as int]) + s.subrange(k, n as int),
            canonical(s),
            intervals@[i as int].wf(),
            forall|j: int| 0 <= j < i ==> (#[trigger] s[j]).end < intervals@[i as int].start,
            k < n ==> intervals@[i as int].start <= s[k].end,
            other.start < other.end ==> intervals@[i as int].start < intervals@[i as int].end,
            forall|x: int|
                covers(s.subrange(0, i as int), x) || intervals@[i as int].holds(x) || covers(
                    s.subrange(k, n as int),
                    x,
                ) <==> (covers(s, x) || other.holds(x)),
        decreases n - k,
    {
        let cur = intervals[i];
        let next = intervals[i + 1];
        proof {
            let ghost head = s.subrange(0, i as int).push(intervals@[i as int]);
            assert(head.len() == i + 1);
            assert(k < n);
            assert((head + s.subrange(k, n as int))[i + 1] == s.subrange(k, n as int)[0]);
        }
        assert(next == s[k]);
        let start = if cur.start < next.start {
            cur.start
        } else {
            next.start
        };
        let end = if cur.end > next.end {
            cur.end
        } else {
            next.end
        };
        let fused = Interval { start, end };
        intervals.set(i, fused);
        intervals.remove(i + 1);
        proof {
            let ghost pre = s.subrange(0, i as int);
            assert forall|x: int|
                covers(pre, x) || fused.holds(x) || covers(s.subrange(k + 1, n as int), x) <==> (
                covers(s, x) || other.holds(x)) by {
                assert(s.subrange(k, n as int) =~= seq![s[k]] + s.subrange(k + 1, n as int));
                lemma_covers_append(seq![s[k]], s.subrange(k + 1, n as int), x);
                lemma_covers_single(s[k], x);
            }
            k = k + 1;
            assert(intervals@ =~= pre.push(fused) + s.subrange(k, n as int));
        }
    }
    proof {
        let ghost pre = s.subrange(0, i as int);
        let ghost cur = intervals@[i as int];
        let ghost post = s.subrange(k, n as int);
        let ghost r = intervals@;
        assert(k < n ==> cur.end < s[k].start);
        assert forall|a: int, b: int| 0 <= a < b < r.len() implies (#[trigger] r[a]).end < (
        #[trigger] r[b]).start by {
            if b < i {
            } else if b == i {
                assert(r[a] == s[a]);
            } else if a == i {
                assert(r[b] == s[b - i - 1 + k]);
                assert(s[k].start <= s[b - i - 1 + k].start);
            } else if a < i {
                assert(r[b] == s[b - i - 1 + k]);
            } else {
                assert(r[a] == s[a - i - 1 + k]);
                assert(r[b] == s[b - i - 1 + k]);
            }
        }
        assert forall|a: int| 0 <= a < r.len() implies (#[trigger] r[a]).wf() by {
            if a < i {
                assert(r[a] == s[a]);
            } else if a > i {
                assert(r[a] == s[a - i - 1 + k]);
            }
        }
        if proper(s) && other.start < other.end {
            assert forall|a: int| 0 <= a < r.len() implies (#[trigger] r[a]).start < r[a].end by {
                if a < i {
                    assert(r[a] == s[a]);
                } else if a > i {
                    assert(r[a] == s[a - i - 1 + k]);
                }
            }
        }
        assert forall|x: int| covers(r, x) <==> (covers(s, x) || other.holds(x)) by {
            lemma_covers_split(pre, cur, post, x);
        }
    }
}

/// Number of intervals that `complement` puts before the first gap between intervals of `s`.
pub open spec fn lead_count(s: Seq<Interval>) -> int {
    if s.len() > 0 && s[0].start > 0 {
        1
    } else {
        0
    }
}

proof fn lemma_complement_index(s: Seq<Interval>)
    requires
        s.len() > 0,
    ensures
        complement(s).len() == lead_count(s) + s.len() - 1 + (if s.last().end < DAY {
            1int
        } else {
            0
        }),
        forall|m: int|
            0 <= m < complement(s).len() ==> (#[trigger] complement(s)[m]).start == (if lead_count(
                s,
            ) == 1 && m == 0 {
                0
            } else {
                s[m - lead_count(s)].end as int
            }) && complement(s)[m].end == (if m - lead_count(s) + 1 < s.len() {
                s[m - lead_count(s) + 1].start as int
            } else {
                DAY as int
            }),
{
    let c = complement(s);
    let o = lead_count(s);
    let g = gaps_between(s);
    assert forall|m: int| 0 <= m < c.len() implies (#[trigger] c[m]).start == (if o == 1 && m
        == 0 {
        0
    } else {
        s[m - o].end as int
    }) && c[m].end == (if m - o + 1 < s.len() {
        s[m - o + 1].start as int
    } else {
        DAY as int
    }) by {
        if o <= m < o + s.len() - 1 {
            assert(c[m] == g[m - o]);
        }
    }
}

/// The complement of a canonical list without intervals of zero length is again such a list.
pub proof fn lemma_complement_canonical(s: Seq<Interval>)
    requires
        canonical(s),
        proper(s),
    ensures
        canonical(complement(s)),
        proper(complement(s)),
{
    if s.len() > 0 {
        lemma_complement_index(s);
        let c = complement(s);
        let o = lead_count(s);
        assert forall|a: int, b: int| 0 <= a < b < c.len() implies (#[trigger] c[a]).end < (
        #[trigger] c[b]).start by {
            if b - o > a - o + 1 {
                assert(s[a - o + 1].end < s[b - o].start);
            }
        }
    }
}

/// Taking the complement twice gives back any canonical list, except one that
/// starts with the empty interval at 00:00 or ends with the empty interval at 24:00.
pub proof fn lemma_complement_involution(s: Seq<Interval>)
    requires
        canonical(s),
        s.len() > 0 ==> s[0].end > 0 && s.last().start < DAY,
    ensures
        complement(complement(s)) == s,
{
    let c = complement(s);
    if s.len() == 0 {
        assert(complement(c) =~= s);
    } else {
        lemma_complement_index(s);
        if c.len() == 0 {
            assert(complement(c) =~= s);
        } else {
            lemma_complement_index(c);
            let cc = complement(c);
            assert(cc.len() == s.len());
            assert forall|m: int| 0 <= m < s.len() implies cc[m] == s[m] by {
                assert(cc[m].start == s[m].start);
                assert(cc[m].end == s[m].end);
            }
            assert(cc =~= s);
        }
    }
}

/// The part of the day that `intervals` leaves free: a leading span before
/// the first interval, the spans between consecutive intervals, and a
/// trailing span after the last; the whole day where there is no interval.
pub fn invert_intervals(intervals: &[Interval]) -> (r: Vec<Interval>)
    requires
        canonical(intervals@),
    ensures
        r@ == complement(intervals@),
        proper(intervals@) ==> canonical(r@) && proper(r@),
{
    let ghost s = intervals@;
    proof {
        if proper(s) {
            lemma_complement_canonical(s);
        }
    }
    let n = intervals.len();
    if n == 0 {
        let r = vec![Interval { start: 0, end: DAY }];
        assert(r@ =~= complement(s));
        return r;
    }
    let mut inverted: Vec<Interval> = Vec::new();
    if intervals[0].start > 0 {
        inverted.push(Interval { start: 0, end: intervals[0].start });
    }
    let ghost lead = inverted@;
    let mut j: usize = 0;
    while j + 1 < n
        invariant
            n == s.len(),
            n > 0,
            j < n,
            intervals@ == s,
            inverted@ == lead + gaps_between(s).take(j as int),
        decreases n - j,
    {
        inverted.push(Interval { start: intervals[j].end, end: intervals[j + 1].start });
        assert(gaps_between(s).take(j + 1) =~= gaps_between(s).take(j as int).push(
            gaps_between(s)[j as int],
        ));
        j += 1;
    }
    assert(gaps_between(s).take(j as int) =~= gaps_between(s));
    if intervals[n - 1].end < DAY {
        inverted.push(Interval { start: intervals[n - 1].end, end: DAY });
    }
    assert(inverted@ =~= complement(s));
    inverted
}

proof fn lemma_total_length_append(a: Seq<Interval>, b: Seq<Interval>)
    ensures
        total_length(a + b) == total_length(a) + total_length(b),
    decreases b.len(),
{
    if b.len() > 0 {
        assert((a + b).drop_last() =~= a + b.drop_last());
        lemma_total_length_append(a, b.drop_last());
    } else {
        assert(a + b =~= a);
    }
}

proof fn lemma_gaps_telescope(s: Seq<Interval>)
    requires
        s.len() > 0,
    ensures
        total_length(s) + total_length(gaps_between(s)) == s.last().end - s[0].start,
    decreases s.len(),
{
    reveal_with_fuel(total_length, 2);
    let g = gaps_between(s);
    if s.len() > 1 {
        let t = s.drop_last();
        lemma_gaps_telescope(t);
        assert(g.drop_last() =~= gaps_between(t));
        assert(g.last() == Interval { start: s[s.len() - 2].end, end: s.last().start });
        assert(t.last() == s[s.len() - 2]);
        assert(t[0] == s[0]);
    } else {
        assert(s.drop_last().len() == 0);
        assert(g.len() == 0);
    }
}

/// The lengths of a list of intervals and of its complement add up to one day.
pub proof fn lemma_complement_length(s: Seq<Interval>)
    requires
        forall|i: int| 0 <= i < s.len() ==> (#[trigger] s[i]).wf(),
    ensures
        total_length(s) + total_length(complement(s)) == DAY,
{
    reveal_with_fuel(total_length, 2);
    if s.len() == 0 {
        assert(complement(s).drop_last().len() == 0);
    } else {
        let lead = if s[0].start > 0 {
            seq![Interval { start: 0, end: s[0].start }]
        } else {
            Seq::<Interval>::empty()
        };
        let trail = if s.last().end < DAY {
            seq![Interval { start: s.last().end, end: DAY }]
        } else {
            Seq::<Interval>::empty()
        };
        lemma_gaps_telescope(s);
        lemma_total_length_append(lead, gaps_between(s));
        lemma_total_length_append(lead + gaps_between(s), trail);
        assert(s[s.len() - 1].wf());
        if s[0].start > 0 {
            assert(lead.drop_last() =~= Seq::<Interval>::empty());
        }
        assert(total_length(lead) == s[0].start);
        if s.last().end < DAY {
            assert(trail.drop_last() =~= Seq::<Interval>::empty());
        }
        assert(total_length(trail) == DAY - s.last().end);
        assert(complement(s) == lead + gaps_between(s) + trail);
    }
}

/// Every end point falls on a whole minute.
pub open spec fn on_minutes(s: Seq<Interval>) -> bool {
    forall|i: int|
        0 <= i < s.len() ==> (#[trigger] s[i]).start % MINUTE == 0 && s[i].end % MINUTE == 0
}

proof fn lemma_minutes_exact(s: Seq<Interval>)
    requires
        forall|i: int| 0 <= i < s.len() ==> (#[trigger] s[i]).wf(),
        on_minutes(s),
    ensures
        total_minutes(s) * MINUTE == total_length(s),
    decreases s.len(),
{
    if s.len() > 0 {
        let t = s.drop_last();
        assert forall|i: int| 0 <= i < t.len() implies (#[trigger] t[i]).wf() && t[i].start
            % MINUTE == 0 && t[i].end % MINUTE == 0 by {
            assert(t[i] == s[i]);
        }
        lemma_minutes_exact(t);
        let l = s.last();
        assert(s[s.len() - 1] == l);
        let a = l.start / MINUTE;
        let b = l.end / MINUTE;
        assert(l.start == a * MINUTE && l.end == b * MINUTE);
        assert(l.length() == (b - a) * MINUTE) by (nonlinear_arith)
            requires
                l.start == a * MINUTE,
                l.end == b * MINUTE,
                l.length() == l.end - l.start,
        ;
        assert(l.minutes() == b - a) by (nonlinear_arith)
            requires
                l.length() == (b - a) * MINUTE,
                l.minutes() == (l.length() + HALF_MINUTE) / (MINUTE as int),
                b >= a,
        ;
        assert(total_minutes(s) * MINUTE == total_minutes(t) * MINUTE + (b - a) * MINUTE)
            by (nonlinear_arith)
            requires
                total_minutes(s) == total_minutes(t) + (b - a),
        ;
    }
}

/// Where every end point falls on a whole minute, the minutes of a list of
/// intervals and of its complement add up to the 1440 minutes of a day.
pub proof fn lemma_complement_minutes(s: Seq<Interval>)
    requires
        canonical(s),
        on_minutes(s),
    ensures
        total_minutes(s) + total_minutes(complement(s)) == 1440,
{
    lemma_complement_length(s);
    let c = complement(s);
    if s.len() > 0 {
        lemma_complement_index(s);
    }
    assert forall|i: int| 0 <= i < c.len() implies (#[trigger] c[i]).wf() && c[i].start % MINUTE
        == 0 && c[i].end % MINUTE == 0 by {
        if s.len() == 0 {
            assert(c[i] == Interval { start: 0, end: DAY });
        } else {
            let o = lead_count(s);
            if !(o == 1 && i == 0) {
                assert(s[i - o].wf());
            }
            if i - o + 1 < s.len() {
                assert(s[i - o + 1].wf());
            }
        }
    }
    lemma_minutes_exact(s);
    lemma_minutes_exact(c);
    assert((total_minutes(s) + total_minutes(c)) * MINUTE == DAY) by (nonlinear_arith)
        requires
            total_minutes(s) * MINUTE == total_length(s),
            total_minutes(c) * MINUTE == total_length(c),
            total_length(s) + total_length(c) == DAY,
    ;
}

proof fn lemma_interior_push(a: Seq<Interval>, c: Interval, x: int)
    ensures
        interior(a.push(c), x) <==> interior(a, x) || c.inside(x),
{
    let ac = a.push(c);
    if interior(ac, x) {
        let j = choose|j: int| 0 <= j < ac.len() && (#[trigger] ac[j]).inside(x);
        if j < a.len() {
            assert(a[j] == ac[j]);
        }
    }
    if interior(a, x) {
        let j = choose|j: int| 0 <= j < a.len() && (#[trigger] a[j]).inside(x);
        assert(ac[j] == a[j]);
    }
    if c.inside(x) {
        assert(ac[a.len() as int] == c);
    }
}

proof fn lemma_interior_first(s: Seq<Interval>, x: int)
    requires
        canonical(s),
        s.len() > 0,
    ensures
        interior(s, x) <==> s[0].inside(x) || interior(s.drop_first(), x),
        interior(s.drop_first(), x) ==> x > 2 * s[0].end,
        s[0].inside(x) ==> x < 2 * s[0].end,
{
    let t = s.drop_first();
    if interior(s, x) {
        let j = choose|j: int| 0 <= j < s.len() && (#[trigger] s[j]).inside(x);
        if j > 0 {
            assert(t[j - 1] == s[j]);
        }
    }
    if interior(t, x) {
        let j = choose|j: int| 0 <= j < t.len() && (#[trigger] t[j]).inside(x);
        assert(s[j + 1] == t[j]);
        assert(s[0].end < s[j + 1].start);
    }
}

/// A canonical list without intervals of zero length is fixed by its interior:
/// two such lists with the same interior points are equal.
pub proof fn lemma_interior_determines(r1: Seq<Interval>, r2: Seq<Interval>)
    requires
        canonical(r1),
        proper(r1),
        canonical(r2),
        proper(r2),
        forall|x: int| interior(r1, x) <==> interior(r2, x),
    ensures
        r1 == r2,
    decreases r1.len() + r2.len(),
{
    if r1.len() == 0 || r2.len() == 0 {
        if r1.len() > 0 {
            assert(r1[0].inside(2 * r1[0].start + 1));
            assert(interior(r1, 2 * r1[0].start + 1));
        }
        if r2.len() > 0 {
            assert(r2[0].inside(2 * r2[0].start + 1));
            assert(interior(r2, 2 * r2[0].start + 1));
        }
        assert(r1 =~= r2);
    } else {
        let a = r1[0];
        let b = r2[0];
        if a.start < b.start {
            let x = 2 * a.start + 1;
            assert(a.inside(x));
            assert(interior(r1, x));
            let j = choose|j: int| 0 <= j < r2.len() && (#[trigger] r2[j]).inside(x);
            if j > 0 {
                assert(r2[0].end < r2[j].start);
            }
        }
        if b.start < a.start {
            let x = 2 * b.start + 1;
            assert(b.inside(x));
            assert(interior(r2, x));
            let j = choose|j: int| 0 <= j < r1.len() && (#[trigger] r1[j]).inside(x);
            if j > 0 {
                assert(r1[0].end < r1[j].start);
            }
        }
        if a.end < b.end {
            let x = 2 * a.end + 1;
            assert(b.inside(x));
            assert(interior(r2, x));
            lemma_interior_first(r1, x);
        }
        if b.end < a.end {
            let x = 2 * b.end + 1;
            assert(a.inside(x));
            assert(interior(r1, x));
            lemma_interior_first(r2, x);
        }
        assert(a == b);
        let t1 = r1.drop_first();
        let t2 = r2.drop_first();
        assert forall|x: int| interior(t1, x) <==> interior(t2, x) by {
            lemma_interior_first(r1, x);
            lemma_interior_first(r2, x);
        }
        assert forall|i: int, j: int| 0 <= i < j < t1.len() implies (#[trigger] t1[i]).end < (
        #[trigger] t1[j]).start by {
            assert(t1[i] == r1[i + 1] && t1[j] == r1[j + 1]);
        }
        assert forall|i: int, j: int| 0 <= i < j < t2.len() implies (#[trigger] t2[i]).end < (
        #[trigger] t2[j]).start by {
            assert(t2[i] == r2[i + 1] && t2[j] == r2[j + 1]);
        }
        assert forall|i: int| 0 <= i < t1.len() implies (#[trigger] t1[i]).wf() && t1[i].start
            < t1[i].end by {
            assert(t1[i] == r1[i + 1]);
        }
        assert forall|i: int| 0 <= i < t2.len() implies (#[trigger] t2[i]).wf() && t2[i].start
            < t2[i].end by {
            assert(t2[i] == r2[i + 1]);
        }
        lemma_interior_determines(t1, t2);
        assert(r1.len() == t1.len() + 1 && r2.len() == t2.len() + 1);
        assert forall|i: int| 0 <= i < r1.len() implies r1[i] == r2[i] by {
            if i > 0 {
                assert(r1[i] == t1[i - 1] && r2[i] == t2[i - 1]);
            }
        }
        assert(r1 =~= r2);
    }
}

/// `o` is the overlap of `xs` and `ys`: a canonical list without empty
/// intervals whose interior is the time strictly inside an interval of each.
pub open spec fn is_overlap(xs: Seq<Interval>, ys: Seq<Interval>, o: Seq<Interval>) -> bool {
    &&& canonical(o)
    &&& proper(o)
    &&& forall|x: int| interior(o, x) <==> (interior(xs, x) && interior(ys, x))
}

/// Some interval of `xs` from index `ix` on and some interval of `ys` from
/// index `iy` on both hold `x` strictly inside.
spec fn pending(xs: Seq<Interval>, ys: Seq<Interval>, ix: int, iy: int, x: int) -> bool {
    exists|j: int, k: int|
        ix <= j < xs.len() && iy <= k < ys.len() && (#[trigger] xs[j]).inside(x) && (
        #[trigger] ys[k]).inside(x)
}

proof fn lemma_sweep_step(
    xs: Seq<Interval>,
    ys: Seq<Interval>,
    ix: int,
    iy: int,
    ix2: int,
    iy2: int,
    x: int,
)
    requires
        canonical(xs),
        canonical(ys),
        0 <= ix < xs.len(),
        0 <= iy < ys.len(),
        xs[ix].end < ys[iy].end ==> ix2 == ix + 1 && iy2 == iy,
        ys[iy].end < xs[ix].end ==> ix2 == ix && iy2 == iy + 1,
        xs[ix].end == ys[iy].end ==> ix2 == ix + 1 && iy2 == iy + 1,
    ensures
        pending(xs, ys, ix, iy, x) <==> (xs[ix].inside(x) && ys[iy].inside(x)) || pending(
            xs,
            ys,
            ix2,
            iy2,
            x,
        ),
        xs[ix].inside(x) && ys[iy].inside(x) ==> !pending(xs, ys, ix2, iy2, x),
{
    if pending(xs, ys, ix, iy, x) {
        let (j, k) = choose|j: int, k: int|
            ix <= j < xs.len() && iy <= k < ys.len() && (#[trigger] xs[j]).inside(x) && (
            #[trigger] ys[k]).inside(x);
        if j > ix {
            assert(xs[ix].end < xs[j].start);
        }
        if k > iy {
            assert(ys[iy].end < ys[k].start);
        }
    }
    if xs[ix].inside(x) && ys[iy].inside(x) {
        assert(pending(xs, ys, ix, iy, x));
        if pending(xs, ys, ix2, iy2, x) {
            let (j, k) = choose|j: int, k: int|
                ix2 <= j < xs.len() && iy2 <= k < ys.len() && (#[trigger] xs[j]).inside(x) && (
                #[trigger] ys[k]).inside(x);
            if j > ix {
                assert(xs[ix].end < xs[j].start);
            }
            if k > iy {
                assert(ys[iy].end < ys[k].start);
            }
        }
    }
    if pending(xs, ys, ix2, iy2, x) {
        let (j, k) = choose|j: int, k: int|
            ix2 <= j < xs.len() && iy2 <= k < ys.len() && (#[trigger] xs[j]).inside(x) && (
            #[trigger] ys[k]).inside(x);
        assert(ix <= j && iy <= k);
    }
}

/// The overlaps of two canonical lists, by a sweep over both: the time that
/// lies strictly inside an interval of each.
pub fn find_overlaps(xs: &[Interval], ys: &[Interval]) -> (r: Vec<Interval>)
    requires
        canonical(xs@),
        canonical(ys@),
    ensures
        is_overlap(xs@, ys@, r@),
{
    let mut overlaps: Vec<Interval> = Vec::new();
    let mut ix: usize = 0;
    let mut iy: usize = 0;
    proof {
        assert forall|x: int| interior(xs@, x) && interior(ys@, x) implies pending(
            xs@,
            ys@,
            0,
            0,
            x,
        ) by {
            let j = choose|j: int| 0 <= j < xs@.len() && (#[trigger] xs@[j]).inside(x);
            let k = choose|k: int| 0 <= k < ys@.len() && (#[trigger] ys@[k]).inside(x);
            assert(xs@[j].inside(x) && ys@[k].inside(x));
        }
    }
    while ix < xs.len() && iy < ys.len()
        invariant
            ix <= xs@.len(),
            iy <= ys@.len(),
            canonical(xs@),
            canonical(ys@),
            canonical(overlaps@),
            proper(overlaps@),
            overlaps@.len() > 0 && ix < xs@.len() && iy < ys@.len() ==> overlaps@.last().end < xs@[ix as int].start
                || overlaps@.last().end < ys@[iy as int].start,
            forall|x: int|
                interior(overlaps@, x) <==> (interior(xs@, x) && interior(ys@, x) && !pending(
                    xs@,
                    ys@,
                    ix as int,
                    iy as int,
                    x,
                )),
        decreases xs@.len() - ix + ys@.len() - iy,
    {
        let a = xs[ix];
        let b = ys[iy];
        let start = if a.start > b.start {
            a.start
        } else {
            b.start
        };
        let end = if a.end < b.end {
            a.end
        } else {
            b.end
        };
        let ghost before = overlaps@;
        let piece = Interval { start, end };
        assert(xs@[ix as int].wf() && ys@[iy as int].wf());
        if end > start {
            overlaps.push(piece);
            proof {
                assert forall|i: int, j: int| 0 <= i < j < overlaps@.len() implies (
                #[trigger] overlaps@[i]).end < (#[trigger] overlaps@[j]).start by {
                    if j == before.len() {
                        assert(before[i].end <= before.last().end);
                    } else {
                        assert(overlaps@[i] == before[i] && overlaps@[j] == before[j]);
                    }
                }
                assert forall|i: int| 0 <= i < overlaps@.len() implies (
                #[trigger] overlaps@[i]).wf() && overlaps@[i].start < overlaps@[i].end by {
                    if i < before.len() {
                        assert(overlaps@[i] == before[i]);
                    }
                }
            }
        }
        let ghost (ix0, iy0) = (ix as int, iy as int);
        if a.end < b.end {
            ix += 1;
        } else if b.end < a.end {
            iy += 1;
        } else {
            ix += 1;
            iy += 1;
        }
        proof {
            assert forall|x: int|
                interior(overlaps@, x) <==> (interior(xs@, x) && interior(ys@, x) && !pending(
                    xs@,
                    ys@,
                    ix as int,
                    iy as int,
                    x,
                )) by {
                lemma_sweep_step(xs@, ys@, ix0, iy0, ix as int, iy as int, x);
                lemma_interior_push(before, piece, x);
                if xs@[ix0].inside(x) && ys@[iy0].inside(x) {
                    assert(interior(xs@, x) && interior(ys@, x));
                }
            }
            if ix < xs@.len() && ix > ix0 {
                assert(xs@[ix0].end < xs@[ix as int].start);
            }
            if iy < ys@.len() && iy > iy0 {
                assert(ys@[iy0].end < ys@[iy as int].start);
            }
        }
    }
    proof {
        assert forall|x: int| !pending(xs@, ys@, ix as int, iy as int, x) by {}
    }
    overlaps
}

/// Intersection does not depend on the order of its arguments: the overlap
/// of `xs` with `ys` is the overlap of `ys` with `xs`.
pub proof fn lemma_overlaps_commute(
    xs: Seq<Interval>,
    ys: Seq<Interval>,
    r1: Seq<Interval>,
    r2: Seq<Interval>,
)
    requires
        canonical(xs),
        canonical(ys),
        is_overlap(xs, ys, r1),
        is_overlap(ys, xs, r2),
    ensures
        r1 == r2,
{
    lemma_interior_determines(r1, r2);
}

/// The sum of the durations, in minutes, of the intervals of a canonical list.
pub fn total_duration(intervals: &[Interval]) -> (r: u64)
    requires
        canonical(intervals@),
    ensures
        r == total_minutes(intervals@),
        r <= DAY,
{
    let ghost s = intervals@;
    let mut sum: u64 = 0;
    let mut i: usize = 0;
    while i < intervals.len()
        invariant
            s == intervals@,
            canonical(s),
            i <= s.len(),
            sum == total_minutes(s.take(i as int)),
            sum <= (if i > 0 {
                s[i - 1].end as int
            } else {
                0
            }),
        decreases s.len() - i,
    {
        let iv = intervals[i];
        assert(s[i as int].wf());
        assert(iv.minutes() <= iv.length()) by (nonlinear_arith)
            requires
                iv.length() >= 0,
                iv.minutes() == (iv.length() + HALF_MINUTE) / (MINUTE as int),
        ;
        if i > 0 {
            assert(s[i - 1].end < s[i as int].start);
        }
        assert(s.take(i + 1).drop_last() =~= s.take(i as int));
        sum = sum + iv.duration();
        i += 1;
    }
    assert(s.take(i as int) =~= s);
    if i > 0 {
        assert(s[i - 1].wf());
    }
    sum
}

/// Merges intervals of the day, in any order, into one canonical list.
pub fn merge_all(pieces: &[Interval]) -> (r: Vec<Interval>)
    requires
        forall|i: int| 0 <= i < pieces@.len() ==> (#[trigger] pieces@[i]).wf(),
    ensures
        canonical(r@),
        forall|x: int| covers(r@, x) <==> covers(pieces@, x),
        proper(pieces@) ==> proper(r@),
{
    let mut merged: Vec<Interval> = Vec::new();
    let mut i: usize = 0;
    while i < pieces.len()
        invariant
            i <= pieces@.len(),
            forall|j: int| 0 <= j < pieces@.len() ==> (#[trigger] pieces@[j]).wf(),
            canonical(merged@),
            forall|x: int| covers(merged@, x) <==> covers(pieces@.take(i as int), x),
            proper(pieces@) ==> proper(merged@),
        decreases pieces@.len() - i,
    {
        let ghost before = merged@;
        add_interval(&mut merged, pieces[i]);
        proof {
            assert forall|x: int| covers(merged@, x) <==> covers(pieces@.take(i + 1), x) by {
                assert(pieces@.take(i + 1) =~= pieces@.take(i as int) + seq![pieces@[i as int]]);
                lemma_covers_append(pieces@.take(i as int), seq![pieces@[i as int]], x);
                lemma_covers_single(pieces@[i as int], x);
            }
        }
        i += 1;
    }
    assert(pieces@.take(i as int) =~= pieces@);
    merged
}

/// The minutes in which both canonical lists hold a time strictly inside
/// one of their intervals.
pub fn overlap_minutes(xs: &[Interval], ys: &[Interval]) -> (r: u64)
    requires
        canonical(xs@),
        canonical(ys@),
    ensures
        exists|o: Seq<Interval>| is_overlap(xs@, ys@, o) && r == total_minutes(o),
        r <= DAY,
{
    let o = find_overlaps(xs, ys);
    total_duration(o.as_slice())
}

} // verus!
