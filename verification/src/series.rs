//! Series of numbers: extremes, thinning for plots, and pairing by interpolation.

use crate::number::{Real, INFINITY_BITS, NEG_INFINITY_BITS};
use vstd::prelude::*;

verus! {

// ---------------------------------------------------------------------------------------------
// Extremes
// ---------------------------------------------------------------------------------------------

/// Whether there is no number in the data.
pub open spec fn all_nan(data: Seq<Real>) -> bool {
    forall|i: int| 0 <= i < data.len() ==> (#[trigger] data[i]).nan()
}

/// Whether `m` is the least number of the data; positive infinity where there is none.
pub open spec fn is_least(data: Seq<Real>, m: Real) -> bool {
    &&& forall|i: int| 0 <= i < data.len() && !(#[trigger] data[i]).nan() ==> m.le(data[i])
    &&& data.contains(m) || (m.bits == INFINITY_BITS && all_nan(data))
}

/// Whether `m` is the greatest number of the data; negative infinity where there is none.
pub open spec fn is_greatest(data: Seq<Real>, m: Real) -> bool {
    &&& forall|i: int| 0 <= i < data.len() && !(#[trigger] data[i]).nan() ==> data[i].le(m)
    &&& data.contains(m) || (m.bits == NEG_INFINITY_BITS && all_nan(data))
}

/// The least number of the data; positive infinity where there is none.
pub fn least(data: &Vec<Real>) -> (m: Real)
    ensures
        is_least(data@, m),
        !m.nan(),
{
    let mut m = Real { bits: INFINITY_BITS };
    let mut i: usize = 0;
    while i < data.len()
        invariant
            i <= data.len(),
            !m.nan(),
            is_least(data@.take(i as int), m),
        decreases data.len() - i,
    {
        let v: Real = data[i];
        let ghost before = data@.take(i as int);
        let ghost after = data@.take(i + 1);
        let ghost was = m;
        if v.is_less(m) {
            m = v;
        }
        proof {
            assert(after =~= before.push(v));
            assert(after[i as int] == v);
            if m == v {
                assert(after.contains(v));
            } else if before.contains(was) {
                let k = choose|k: int| 0 <= k < before.len() && before[k] == was;
                assert(after[k] == was);
            } else {
                assert(v.nan()) by {
                    if !v.nan() {
                        assert(!v.lt(was));
                        assert(v.rank() >= was.rank());
                    }
                }
                assert forall|j: int| 0 <= j < after.len() implies (#[trigger] after[j]).nan() by {
                    if j < i {
                        assert(before[j] == after[j]);
                    }
                }
            }
            assert forall|j: int| 0 <= j < after.len() && !(#[trigger] after[j]).nan() implies m.le(
                after[j],
            ) by {
                if j < i {
                    assert(before[j] == after[j]);
                    assert(was.le(before[j]));
                }
            }
        }
        i = i + 1;
    }
    assert(data@.take(i as int) =~= data@);
    m
}

/// The greatest number of the data; negative infinity where there is none.
pub fn greatest(data: &Vec<Real>) -> (m: Real)
    ensures
        is_greatest(data@, m),
        !m.nan(),
{
    let mut m = Real { bits: NEG_INFINITY_BITS };
    let mut i: usize = 0;
    while i < data.len()
        invariant
            i <= data.len(),
            !m.nan(),
            is_greatest(data@.take(i as int), m),
        decreases data.len() - i,
    {
        let v: Real = data[i];
        let ghost before = data@.take(i as int);
        let ghost after = data@.take(i + 1);
        let ghost was = m;
        if m.is_less(v) {
            m = v;
        }
        proof {
            assert(after =~= before.push(v));
            assert(after[i as int] == v);
            if m == v {
                assert(after.contains(v));
            } else if before.contains(was) {
                let k = choose|k: int| 0 <= k < before.len() && before[k] == was;
                assert(after[k] == was);
            } else {
                assert(v.nan()) by {
                    if !v.nan() {
                        assert(!was.lt(v));
                        assert(was.rank() >= v.rank());
                    }
                }
                assert forall|j: int| 0 <= j < after.len() implies (#[trigger] after[j]).nan() by {
                    if j < i {
                        assert(before[j] == after[j]);
                    }
                }
            }
            assert forall|j: int|
                0 <= j < after.len() && !(#[trigger] after[j]).nan() implies after[j].le(m) by {
                if j < i {
                    assert(before[j] == after[j]);
                    assert(before[j].le(was));
                }
            }
        }
        i = i + 1;
    }
    assert(data@.take(i as int) =~= data@);
    m
}

/// Summary of a numeric dataset.
#[derive(Clone, Copy, Debug)]
pub struct Stats {
    pub n: usize,
    pub min: Real,
    pub max: Real,
    pub mean: Real,
}

/// The summary of the data, whose mean is `mean`; none where there is no data.
pub fn compute_stats(data: &Vec<Real>, mean: Real) -> (r: Option<Stats>)
    ensures
        match r {
            Some(s) => {
                &&& data@.len() > 0
                &&& s.n == data@.len()
                &&& is_least(data@, s.min)
                &&& is_greatest(data@, s.max)
                &&& !s.min.nan()
                &&& !s.max.nan()
                &&& s.mean == mean
            },
            None => data@.len() == 0,
        },
{
    if data.len() == 0 {
        None
    } else {
        Some(Stats { n: data.len(), min: least(data), max: greatest(data), mean })
    }
}

// ---------------------------------------------------------------------------------------------
// Thinning
// ---------------------------------------------------------------------------------------------

/// At most this many points of a series are plotted.
pub const MAX_POINTS: usize = 20_000;

/// A longer series is cut into this many stretches.
pub const BUCKETS: usize = 10_000;

/// The first position of stretch `b` of a series of `n` points.
pub open spec fn bucket_start(n: nat, b: int) -> int {
    b * n / BUCKETS as int
}

/// The position of the smallest number of `y[from..to]`, the first of them where several are
/// level; the first position where there is no number.
pub open spec fn lowest(y: Seq<Real>, from: int, to: int) -> int
    decreases to - from,
{
    if to <= from + 1 {
        from
    } else {
        let p = lowest(y, from, to - 1);
        if y[to - 1].lt(y[p]) || (y[p].nan() && !y[to - 1].nan()) {
            to - 1
        } else {
            p
        }
    }
}

/// The position of the largest number of `y[from..to]`, the first of them where several are
/// level; the first position where there is no number.
pub open spec fn highest(y: Seq<Real>, from: int, to: int) -> int
    decreases to - from,
{
    if to <= from + 1 {
        from
    } else {
        let p = highest(y, from, to - 1);
        if y[p].lt(y[to - 1]) || (y[p].nan() && !y[to - 1].nan()) {
            to - 1
        } else {
            p
        }
    }
}

/// The points that are kept of the stretch `y[from..to]`: its extremes, in their order.
pub open spec fn kept_of(y: Seq<Real>, from: int, to: int) -> Seq<usize> {
    let lo = lowest(y, from, to);
    let hi = highest(y, from, to);
    if lo == hi {
        seq![lo as usize]
    } else if lo < hi {
        seq![lo as usize, hi as usize]
    } else {
        seq![hi as usize, lo as usize]
    }
}

/// The points that are kept of the first `b` stretches.
pub open spec fn kept_of_buckets(y: Seq<Real>, b: nat) -> Seq<usize>
    decreases b,
{
    if b == 0 {
        Seq::empty()
    } else {
        kept_of_buckets(y, (b - 1) as nat) + kept_of(
            y,
            bucket_start(y.len(), b - 1),
            bucket_start(y.len(), b as int),
        )
    }
}

/// The positions of a series that are plotted: all of a short one, the extremes of each stretch
/// of a long one.
pub open spec fn kept(y: Seq<Real>) -> Seq<usize> {
    if y.len() <= MAX_POINTS {
        Seq::new(y.len(), |i: int| i as usize)
    } else {
        kept_of_buckets(y, BUCKETS as nat)
    }
}

proof fn bucket_is_within(n: nat, b: int)
    requires
        n > MAX_POINTS,
        0 <= b < BUCKETS,
    ensures
        0 <= bucket_start(n, b) < bucket_start(n, b + 1) <= n,
{
    let q = BUCKETS as int;
    let m = n as int;
    assert((b + 1) * m == b * m + m) by (nonlinear_arith);
    assert(b * m >= 0) by (nonlinear_arith)
        requires
            b >= 0,
            m >= 0,
    ;
    assert((b + 1) * m <= q * m) by (nonlinear_arith)
        requires
            b + 1 <= q,
            m >= 0,
    ;
    assert((q * m) / q == m) by {
        vstd::arithmetic::div_mod::lemma_div_multiples_vanish(m, q);
    }
    assert((b + 1) * m / q <= (q * m) / q) by {
        vstd::arithmetic::div_mod::lemma_div_is_ordered((b + 1) * m, q * m, q);
    }
    assert(b * m / q + 1 <= (b * m + m) / q);
}

proof fn extremes_are_within(y: Seq<Real>, from: int, to: int)
    requires
        from < to,
    ensures
        from <= lowest(y, from, to) < to,
        from <= highest(y, from, to) < to,
    decreases to - from,
{
    if to > from + 1 {
        extremes_are_within(y, from, to - 1);
    }
}

/// No number of a stretch lies outside its extremes.
proof fn extremes_bound(y: Seq<Real>, from: int, to: int, i: int)
    requires
        from <= i < to,
        !y[i].nan(),
    ensures
        !y[lowest(y, from, to)].nan(),
        !y[highest(y, from, to)].nan(),
        y[lowest(y, from, to)].le(y[i]),
        y[i].le(y[highest(y, from, to)]),
    decreases to - from,
{
    if i < to - 1 {
        extremes_bound(y, from, to - 1, i);
    }
}

proof fn kept_of_buckets_are_ordered(y: Seq<Real>, b: nat)
    requires
        y.len() > MAX_POINTS,
        y.len() <= usize::MAX,
        b <= BUCKETS,
    ensures
        kept_of_buckets(y, b).len() <= 2 * b,
        forall|k: int|
            0 <= k < kept_of_buckets(y, b).len() ==> #[trigger] kept_of_buckets(y, b)[k]
                < bucket_start(y.len(), b as int),
        forall|k: int, l: int|
            0 <= k < l < kept_of_buckets(y, b).len() ==> kept_of_buckets(y, b)[k]
                < kept_of_buckets(y, b)[l],
    decreases b,
{
    if b > 0 {
        let from = bucket_start(y.len(), b - 1);
        let to = bucket_start(y.len(), b as int);
        kept_of_buckets_are_ordered(y, (b - 1) as nat);
        bucket_is_within(y.len(), b - 1);
        extremes_are_within(y, from, to);
        let before = kept_of_buckets(y, (b - 1) as nat);
        let now = kept_of_buckets(y, b);
        let added = kept_of(y, from, to);
        assert forall|k: int| 0 <= k < now.len() implies #[trigger] now[k] < to by {
            if k < before.len() {
                assert(now[k] == before[k]);
            } else {
                assert(now[k] == added[k - before.len()]);
            }
        }
        assert forall|k: int, l: int| 0 <= k < l < now.len() implies now[k] < now[l] by {
            if l < before.len() {
                assert(now[k] == before[k] && now[l] == before[l]);
            } else if k < before.len() {
                assert(now[k] == before[k]);
                assert(now[l] == added[l - before.len()]);
            } else {
                assert(now[k] == added[k - before.len()]);
                assert(now[l] == added[l - before.len()]);
            }
        }
    }
}

/// The plotted positions are in increasing order and lie within the series, and there are at
/// most `MAX_POINTS` of them.
pub proof fn kept_are_few_and_ordered(y: Seq<Real>)
    requires
        y.len() <= usize::MAX,
    ensures
        kept(y).len() <= MAX_POINTS,
        forall|k: int| 0 <= k < kept(y).len() ==> #[trigger] kept(y)[k] < y.len(),
        forall|k: int, l: int| 0 <= k < l < kept(y).len() ==> kept(y)[k] < kept(y)[l],
{
    if y.len() > MAX_POINTS {
        kept_of_buckets_are_ordered(y, BUCKETS as nat);
        bucket_is_within(y.len(), BUCKETS - 1);
    }
}

/// The points of a stretch are among those of all stretches.
proof fn kept_of_bucket_is_kept(y: Seq<Real>, b: nat, c: nat, p: usize)
    requires
        b < c,
        kept_of(y, bucket_start(y.len(), b as int), bucket_start(y.len(), b as int + 1)).contains(p),
    ensures
        kept_of_buckets(y, c).contains(p),
    decreases c,
{
    let before = kept_of_buckets(y, (c - 1) as nat);
    let now = kept_of_buckets(y, c);
    let added = kept_of(y, bucket_start(y.len(), c - 1), bucket_start(y.len(), c as int));
    if b == c - 1 {
        let k = choose|k: int| 0 <= k < added.len() && added[k] == p;
        assert(now[before.len() + k] == p);
    } else {
        kept_of_bucket_is_kept(y, b, (c - 1) as nat, p);
        let k = choose|k: int| 0 <= k < before.len() && before[k] == p;
        assert(now[k] == p);
    }
}

/// The stretch that a position lies in.
proof fn bucket_of(n: nat, i: int, b: nat) -> (r: nat)
    requires
        n > MAX_POINTS,
        0 <= i < bucket_start(n, b as int),
        b <= BUCKETS,
    ensures
        r < b,
        bucket_start(n, r as int) <= i < bucket_start(n, r as int + 1),
    decreases b,
{
    if b == 0 {
        assert(bucket_start(n, 0) == 0) by {
            assert(0 * n == 0) by (nonlinear_arith);
        }
        0
    } else if bucket_start(n, b - 1) <= i {
        (b - 1) as nat
    } else {
        bucket_of(n, i, (b - 1) as nat)
    }
}

/// Thinning hides no spike: every number lies between two plotted points of its stretch. Every
/// point of a short series is plotted.
pub proof fn spikes_are_kept(y: Seq<Real>, b: nat, i: int)
    requires
        y.len() <= usize::MAX,
        0 <= i < y.len(),
        y.len() > MAX_POINTS ==> {
            &&& b < BUCKETS
            &&& bucket_start(y.len(), b as int) <= i < bucket_start(y.len(), b as int + 1)
            &&& !y[i].nan()
        },
    ensures
        y.len() <= MAX_POINTS ==> kept(y).contains(i as usize),
        y.len() > MAX_POINTS ==> exists|lo: usize, hi: usize|
            {
                &&& #[trigger] kept(y).contains(lo)
                &&& #[trigger] kept(y).contains(hi)
                &&& bucket_start(y.len(), b as int) <= lo < bucket_start(y.len(), b as int + 1)
                &&& bucket_start(y.len(), b as int) <= hi < bucket_start(y.len(), b as int + 1)
                &&& y[lo as int].le(y[i])
                &&& y[i].le(y[hi as int])
            },
{
    if y.len() <= MAX_POINTS {
        assert(kept(y)[i] == i as usize);
    } else {
        let from = bucket_start(y.len(), b as int);
        let to = bucket_start(y.len(), b as int + 1);
        bucket_is_within(y.len(), b as int);
        extremes_are_within(y, from, to);
        extremes_bound(y, from, to, i);
        let lo = lowest(y, from, to) as usize;
        let hi = highest(y, from, to) as usize;
        let k = kept_of(y, from, to);
        assert(k.contains(lo)) by {
            assert(k[0] == lo || k[1] == lo);
        }
        assert(k.contains(hi)) by {
            assert(k[0] == hi || k[1] == hi);
        }
        kept_of_bucket_is_kept(y, b, BUCKETS as nat, lo);
        kept_of_bucket_is_kept(y, b, BUCKETS as nat, hi);
        assert(kept(y).contains(lo) && kept(y).contains(hi));
        assert(y[lo as int].le(y[i]) && y[i].le(y[hi as int]));
    }
}

/// The greatest and the least number of a series are plotted.
pub proof fn extremes_are_kept(y: Seq<Real>, i: int)
    requires
        y.len() <= usize::MAX,
        0 <= i < y.len(),
        !y[i].nan(),
    ensures
        exists|lo: usize| #[trigger] kept(y).contains(lo) && y[lo as int].le(y[i]),
        exists|hi: usize| #[trigger] kept(y).contains(hi) && y[i].le(y[hi as int]),
{
    if y.len() <= MAX_POINTS {
        spikes_are_kept(y, 0, i);
        assert(y[i].le(y[i]));
        assert(y[i as usize as int] == y[i]);
    } else {
        bucket_is_within(y.len(), BUCKETS - 1);
        assert(bucket_start(y.len(), BUCKETS as int) == y.len()) by {
            vstd::arithmetic::div_mod::lemma_div_multiples_vanish(y.len() as int, BUCKETS as int);
        }
        let b = bucket_of(y.len(), i, BUCKETS as nat);
        bucket_is_within(y.len(), b as int);
        spikes_are_kept(y, b, i);
    }
}

/// The positions of a series to plot, min/max-decimated so huge arrays stay responsive without
/// hiding spikes.
pub fn decimate(y: &Vec<Real>) -> (out: Vec<usize>)
    ensures
        out@ == kept(y@),
{
    let n: usize = y.len();
    let mut out: Vec<usize> = Vec::new();
    if n <= MAX_POINTS {
        let mut i: usize = 0;
        while i < n
            invariant
                i <= n,
                n == y.len(),
                out@.len() == i,
                forall|j: int| 0 <= j < i ==> #[trigger] out@[j] == j as usize,
            decreases n - i,
        {
            out.push(i);
            i = i + 1;
        }
        assert(out@ =~= kept(y@));
        return out;
    }
    let mut b: usize = 0;
    while b < BUCKETS
        invariant
            n == y.len(),
            n > MAX_POINTS,
            b <= BUCKETS,
            out@ == kept_of_buckets(y@, b as nat),
        decreases BUCKETS - b,
    {
        proof {
            bucket_is_within(n as nat, b as int);
            assert(b * n <= 10_000 * 0xffff_ffff_ffff_ffff) by (nonlinear_arith)
                requires
                    b <= 10_000,
                    n <= 0xffff_ffff_ffff_ffff,
            ;
            assert((b + 1) * n <= 10_000 * 0xffff_ffff_ffff_ffff) by (nonlinear_arith)
                requires
                    b + 1 <= 10_000,
                    n <= 0xffff_ffff_ffff_ffff,
            ;
        }
        let start: usize = (b as u128 * n as u128 / BUCKETS as u128) as usize;
        let end: usize = ((b as u128 + 1) * n as u128 / BUCKETS as u128) as usize;
        assert(start == bucket_start(n as nat, b as int));
        assert(end == bucket_start(n as nat, b + 1));
        let mut i_min: usize = start;
        let mut i_max: usize = start;
        let mut i: usize = start;
        while i < end
            invariant
                start <= i <= end <= y.len(),
                start < end,
                i_min < end,
                i_max < end,
                i > start ==> i_min == lowest(y@, start as int, i as int),
                i > start ==> i_max == highest(y@, start as int, i as int),
                i == start ==> i_min == start && i_max == start,
            decreases end - i,
        {
            if y[i].is_less(y[i_min]) || (y[i_min].is_nan() && !y[i].is_nan()) {
                i_min = i;
            }
            if y[i_max].is_less(y[i]) || (y[i_max].is_nan() && !y[i].is_nan()) {
                i_max = i;
            }
            i = i + 1;
        }
        let ghost before = out@;
        if i_min <= i_max {
            out.push(i_min);
            if i_max != i_min {
                out.push(i_max);
            }
        } else {
            out.push(i_max);
            out.push(i_min);
        }
        assert(out@ =~= before + kept_of(y@, start as int, end as int));
        b = b + 1;
    }
    out
}

/// How many steps of size `step` it takes to pass `n`.
pub open spec fn steps_over(n: nat, step: nat) -> nat {
    if n % step == 0 {
        n / step
    } else {
        n / step + 1
    }
}

/// Every `step`-th element, from the first.
pub open spec fn every_nth<T>(s: Seq<T>, step: nat) -> Seq<T> {
    Seq::new(steps_over(s.len(), step), |i: int| s[i * step])
}

/// At most `max` of the elements: all of them, or every n-th.
pub open spec fn capped<T>(s: Seq<T>, max: nat) -> Seq<T> {
    if s.len() <= max {
        s
    } else {
        every_nth(s, steps_over(s.len(), max))
    }
}

/// Capping keeps to the cap.
pub proof fn capped_is_few<T>(s: Seq<T>, max: nat)
    requires
        max > 0,
    ensures
        capped(s, max).len() <= max,
{
    if s.len() > max {
        let n = s.len() as int;
        let m = max as int;
        let step = steps_over(s.len(), max) as int;
        vstd::arithmetic::div_mod::lemma_fundamental_div_mod(n, m);
        assert(step * m >= n) by (nonlinear_arith)
            requires
                n == m * (n / m) + n % m,
                0 <= n % m < m,
                step == n / m + if n % m == 0 {
                    0int
                } else {
                    1int
                },
        ;
        assert(step >= 1) by (nonlinear_arith)
            requires
                step * m >= n,
                n > 0,
                m > 0,
        ;
        vstd::arithmetic::div_mod::lemma_fundamental_div_mod(n, step);
        let k = n / step;
        if n % step == 0 {
            assert(k <= m) by (nonlinear_arith)
                requires
                    n == step * k,
                    step * m >= n,
                    step >= 1,
            ;
        } else {
            assert(k + 1 <= m) by (nonlinear_arith)
                requires
                    n == step * k + n % step,
                    n % step > 0,
                    step * m >= n,
                    step >= 1,
            ;
        }
    }
}

/// Thins out a list that has more than `max` elements to every n-th of them.
pub fn stride_cap<T: Copy>(points: Vec<T>, max: usize) -> (r: Vec<T>)
    requires
        max > 0 || points@.len() == 0,
    ensures
        r@ == capped(points@, max as nat),
{
    let n: usize = points.len();
    if n <= max {
        return points;
    }
    proof {
        if n % max != 0 {
            assert(max > 1) by {
                if max == 1 {
                    assert(n % 1 == 0);
                }
            }
            vstd::arithmetic::div_mod::lemma_div_decreases(n as int, max as int);
        }
    }
    let step: usize = if n % max == 0 {
        n / max
    } else {
        n / max + 1
    };
    proof {
        let q = (n / max) as int;
        assert(q >= 1) by {
            vstd::arithmetic::div_mod::lemma_div_is_ordered(max as int, n as int, max as int);
            vstd::arithmetic::div_mod::lemma_div_by_self(max as int);
        }
    }
    let mut r: Vec<T> = Vec::new();
    let mut i: usize = 0;
    let ghost want = capped(points@, max as nat);
    loop
        invariant_except_break
            n == points.len(),
            n > 0,
            step >= 1,
            step == steps_over(n as nat, max as nat),
            n > max,
            want == capped(points@, max as nat),
            i < n,
            i == r@.len() * step,
            forall|k: int| 0 <= k < r@.len() ==> #[trigger] r@[k] == points@[k * step],
        ensures
            r@ == want,
        decreases n - i,
    {
        r.push(points[i]);
        if n - i <= step {
            proof {
                let k = r@.len() as int;
                let s = step as int;
                let m = n as int;
                assert((k - 1) * s < m <= k * s) by (nonlinear_arith)
                    requires
                        i == (k - 1) * s,
                        i < m,
                        m - i <= s,
                ;
                vstd::arithmetic::div_mod::lemma_fundamental_div_mod(m, s);
                let q = m / s;
                let rest = m % s;
                assert(if rest == 0 {
                    k == q
                } else {
                    k == q + 1
                }) by (nonlinear_arith)
                    requires
                        (k - 1) * s < m <= k * s,
                        m == s * q + rest,
                        0 <= rest < s,
                        s >= 1,
                ;
                assert(k == steps_over(m as nat, s as nat));
                assert(r@ =~= want);
            }
            break;
        }
        proof {
            let k = r@.len() as int;
            assert(k * step == (k - 1) * step + step) by (nonlinear_arith);
        }
        i = i + step;
    }
    r
}

// ---------------------------------------------------------------------------------------------
// Interpolation
// ---------------------------------------------------------------------------------------------

/// How the value at a time is taken from samples.
#[derive(Clone, Copy, Debug, PartialEq, Eq, Structural)]
pub enum Pick {
    /// The sample at this position.
    At(usize),
    /// On the straight line from the sample at this position to the next.
    Between(usize),
}

/// The first position from `j` on whose successor does not lie before `x`.
pub open spec fn advanced(t: Seq<Real>, j: int, x: Real) -> int
    decreases t.len() - j,
{
    if 0 <= j && j + 1 < t.len() && t[j + 1].lt(x) {
        advanced(t, j + 1, x)
    } else {
        j
    }
}

/// Where the search among the sample times stands after the first `k` times of the grid.
pub open spec fn cursor(grid: Seq<Real>, t: Seq<Real>, k: nat) -> int
    decreases k,
{
    if k == 0 {
        0
    } else {
        advanced(t, cursor(grid, t, (k - 1) as nat), grid[k - 1])
    }
}

/// Whether `x` lies at or outside the ends of the sample times.
pub open spec fn is_clamped(t: Seq<Real>, x: Real) -> bool {
    x.le(t[0]) || t.last().le(x)
}

/// How the value at time `x` is taken when the search stands at `j`.
pub open spec fn pick_at(t: Seq<Real>, j: int, x: Real) -> Pick {
    if x.le(t[0]) {
        Pick::At(0)
    } else if t.last().le(x) {
        Pick::At((t.len() - 1) as usize)
    } else if t[j + 1].le(t[j]) {
        Pick::At(j as usize)
    } else {
        Pick::Between(j as usize)
    }
}

/// Whether every time of the grid that lies within the sample times has a sample after the one
/// where the search stands. So it is where the grid is sorted and all times are numbers.
pub open spec fn is_interpolable(grid: Seq<Real>, t: Seq<Real>) -> bool {
    &&& t.len() > 0
    &&& forall|k: int|
        0 <= k < grid.len() && !is_clamped(t, #[trigger] grid[k]) ==> cursor(
            grid,
            t,
            (k + 1) as nat,
        ) + 1 < t.len()
}

/// How the values at the times of the grid are taken from samples at times `t`.
pub open spec fn picks(grid: Seq<Real>, t: Seq<Real>) -> Seq<Pick> {
    Seq::new(grid.len(), |k: int| pick_at(t, cursor(grid, t, (k + 1) as nat), grid[k]))
}

proof fn advanced_is_within(t: Seq<Real>, j: int, x: Real)
    requires
        0 <= j < t.len(),
    ensures
        j <= advanced(t, j, x) < t.len(),
        advanced(t, j, x) > j ==> t[advanced(t, j, x)].lt(x),
        advanced(t, j, x) + 1 < t.len() ==> !t[advanced(t, j, x) + 1].lt(x),
    decreases t.len() - j,
{
    if j + 1 < t.len() && t[j + 1].lt(x) {
        advanced_is_within(t, j + 1, x);
    }
}

proof fn cursor_is_within(grid: Seq<Real>, t: Seq<Real>, k: nat)
    requires
        t.len() > 0,
    ensures
        0 <= cursor(grid, t, k) < t.len(),
    decreases k,
{
    if k > 0 {
        cursor_is_within(grid, t, (k - 1) as nat);
        advanced_is_within(t, cursor(grid, t, (k - 1) as nat), grid[k - 1]);
    }
}

/// Whether a pick takes samples that exist.
pub open spec fn pick_is_within(p: Pick, n: nat) -> bool {
    match p {
        Pick::At(i) => i < n,
        Pick::Between(i) => i + 1 < n,
    }
}

/// Interpolation takes samples that exist.
pub proof fn picks_are_within(grid: Seq<Real>, t: Seq<Real>, k: int)
    requires
        is_interpolable(grid, t),
        t.len() <= usize::MAX,
        0 <= k < grid.len(),
    ensures
        pick_is_within(picks(grid, t)[k], t.len()),
{
    cursor_is_within(grid, t, (k + 1) as nat);
    if !is_clamped(t, grid[k]) {
        assert(cursor(grid, t, (k + 1) as nat) + 1 < t.len());
    }
}

/// Whether times are numbers in order.
pub open spec fn is_sorted(t: Seq<Real>) -> bool {
    &&& forall|i: int| 0 <= i < t.len() ==> !(#[trigger] t[i]).nan()
    &&& forall|i: int, j: int| 0 <= i <= j < t.len() ==> t[i].le(t[j])
}

proof fn cursor_lies_before(grid: Seq<Real>, t: Seq<Real>, k: nat)
    requires
        t.len() > 0,
        is_sorted(grid),
        0 < k <= grid.len(),
    ensures
        cursor(grid, t, k) > 0 ==> t[cursor(grid, t, k)].lt(grid[k - 1]),
    decreases k,
{
    let j = cursor(grid, t, (k - 1) as nat);
    cursor_is_within(grid, t, (k - 1) as nat);
    advanced_is_within(t, j, grid[k - 1]);
    if cursor(grid, t, k) == j && j > 0 {
        cursor_lies_before(grid, t, (k - 1) as nat);
        assert(grid[k - 2].le(grid[k - 1]));
    }
}

/// Any times can be interpolated onto a sorted grid, and a time within the samples is taken
/// from the two samples around it.
pub proof fn sorted_times_interpolate(grid: Seq<Real>, t: Seq<Real>, k: int)
    requires
        t.len() > 0,
        is_sorted(grid),
        forall|i: int| 0 <= i < t.len() ==> !(#[trigger] t[i]).nan(),
        0 <= k < grid.len(),
    ensures
        is_interpolable(grid, t),
        !is_clamped(t, grid[k]) ==> ({
            let j = cursor(grid, t, (k + 1) as nat);
            &&& 0 <= j
            &&& j + 1 < t.len()
            &&& t[j].lt(grid[k])
            &&& grid[k].le(t[j + 1])
            &&& picks(grid, t)[k] == Pick::Between(j as usize)
        }),
{
    assert forall|l: int| 0 <= l < grid.len() && !is_clamped(t, #[trigger] grid[l]) implies cursor(
        grid,
        t,
        (l + 1) as nat,
    ) + 1 < t.len() by {
        sorted_time_is_bracketed(grid, t, l);
    }
    if !is_clamped(t, grid[k]) {
        sorted_time_is_bracketed(grid, t, k);
    }
}

proof fn sorted_time_is_bracketed(grid: Seq<Real>, t: Seq<Real>, k: int)
    requires
        t.len() > 0,
        is_sorted(grid),
        forall|i: int| 0 <= i < t.len() ==> !(#[trigger] t[i]).nan(),
        0 <= k < grid.len(),
        !is_clamped(t, grid[k]),
    ensures
        ({
            let j = cursor(grid, t, (k + 1) as nat);
            &&& 0 <= j
            &&& j + 1 < t.len()
            &&& t[j].lt(grid[k])
            &&& grid[k].le(t[j + 1])
        }),
{
    let j = cursor(grid, t, (k + 1) as nat);
    cursor_is_within(grid, t, k as nat);
    cursor_is_within(grid, t, (k + 1) as nat);
    cursor_lies_before(grid, t, (k + 1) as nat);
    advanced_is_within(t, cursor(grid, t, k as nat), grid[k]);
    assert(!t[0].nan());
    assert(!t[j].nan());
    if j + 1 == t.len() {
        if j == 0 {
            assert(t.last() == t[0]);
        } else {
            assert(t[j] == t.last());
        }
        assert(false);
    }
    assert(!t[j + 1].nan());
}

/// Whether the times can be interpolated onto the grid.
pub fn can_interpolate(grid: &Vec<Real>, t: &Vec<Real>) -> (r: bool)
    ensures
        r == is_interpolable(grid@, t@),
{
    if t.len() == 0 {
        return false;
    }
    let last: usize = t.len() - 1;
    let mut j: usize = 0;
    let mut k: usize = 0;
    while k < grid.len()
        invariant
            last == t.len() - 1,
            t.len() > 0,
            j <= last,
            k <= grid.len(),
            j == cursor(grid@, t@, k as nat),
            forall|l: int|
                0 <= l < k && !is_clamped(t@, #[trigger] grid@[l]) ==> cursor(
                    grid@,
                    t@,
                    (l + 1) as nat,
                ) + 1 < t@.len(),
        decreases grid.len() - k,
    {
        let x: Real = grid[k];
        j = advance(t, j, x);
        if !x.is_at_most(t[0]) && !t[last].is_at_most(x) && j == last {
            assert(!is_clamped(t@, grid@[k as int]));
            return false;
        }
        k = k + 1;
    }
    true
}

/// The first position from `j` on whose successor does not lie before `x`.
fn advance(t: &Vec<Real>, j: usize, x: Real) -> (r: usize)
    requires
        j < t.len(),
    ensures
        r == advanced(t@, j as int, x),
        j <= r < t.len(),
{
    let mut i: usize = j;
    while i < t.len() - 1 && t[i + 1].is_less(x)
        invariant
            j <= i < t.len(),
            advanced(t@, j as int, x) == advanced(t@, i as int, x),
        decreases t.len() - i,
    {
        i = i + 1;
    }
    i
}

/// How linear interpolation of samples at times `t` takes its values at the (sorted) times
/// `grid`, clamped at both ends.
pub fn interp_onto(grid: &Vec<Real>, t: &Vec<Real>) -> (out: Vec<Pick>)
    requires
        is_interpolable(grid@, t@),
    ensures
        out@ == picks(grid@, t@),
{
    let last: usize = t.len() - 1;
    let mut out: Vec<Pick> = Vec::new();
    let mut j: usize = 0;
    let mut k: usize = 0;
    while k < grid.len()
        invariant
            is_interpolable(grid@, t@),
            last == t.len() - 1,
            j <= last,
            k <= grid.len(),
            j == cursor(grid@, t@, k as nat),
            out@ == picks(grid@, t@).take(k as int),
        decreases grid.len() - k,
    {
        let x: Real = grid[k];
        j = advance(t, j, x);
        assert(!is_clamped(t@, grid@[k as int]) ==> j + 1 < t.len());
        let pick = if x.is_at_most(t[0]) {
            Pick::At(0)
        } else if t[last].is_at_most(x) {
            Pick::At(last)
        } else if t[j + 1].is_at_most(t[j]) {
            Pick::At(j)
        } else {
            Pick::Between(j)
        };
        out.push(pick);
        assert(picks(grid@, t@)[k as int] == pick);
        assert(picks(grid@, t@).take(k + 1) =~= picks(grid@, t@).take(k as int).push(pick));
        k = k + 1;
    }
    assert(picks(grid@, t@).take(k as int) =~= picks(grid@, t@));
    out
}

// ---------------------------------------------------------------------------------------------
// Laws
// ---------------------------------------------------------------------------------------------

/// The least and the greatest of data that hold a number are numbers of the data that bound all
/// others; without a number they are the infinities, the wrong way round.
pub proof fn extremes_bound_the_data(data: Seq<Real>, lo: Real, hi: Real, i: int)
    requires
        is_least(data, lo),
        is_greatest(data, hi),
        0 <= i < data.len(),
    ensures
        !data[i].nan() ==> {
            &&& lo.rank() <= data[i].rank() <= hi.rank()
            &&& exists|j: int| 0 <= j < data.len() && #[trigger] data[j] == lo
            &&& exists|j: int| 0 <= j < data.len() && #[trigger] data[j] == hi
        },
        (forall|j: int| 0 <= j < data.len() ==> (#[trigger] data[j]).nan()) && !lo.nan() ==> lo.bits
            == 0x7ff0_0000_0000_0000,
        (forall|j: int| 0 <= j < data.len() ==> (#[trigger] data[j]).nan()) && !hi.nan() ==> hi.bits
            == 0xfff0_0000_0000_0000,
{
}

/// Every point of a series of at most twenty thousand is plotted, in its place.
pub proof fn short_series_are_plotted_whole(y: Seq<Real>, i: int)
    requires
        y.len() <= 20_000,
        0 <= i < y.len(),
    ensures
        kept(y).len() == y.len(),
        kept(y)[i] == i,
{
}

/// Near every number of a longer series, within a ten-thousandth of its length, two points are
/// plotted that it lies between.
pub proof fn spikes_are_kept_nearby(y: Seq<Real>, i: int)
    requires
        20_000 < y.len() <= usize::MAX,
        0 <= i < y.len(),
        !y[i].nan(),
    ensures
        exists|lo: usize, hi: usize|
            {
                &&& #[trigger] kept(y).contains(lo)
                &&& #[trigger] kept(y).contains(hi)
                &&& -(y.len() / 10_000) <= lo - i <= y.len() / 10_000
                &&& -(y.len() / 10_000) <= hi - i <= y.len() / 10_000
                &&& y[lo as int].rank() <= y[i].rank() <= y[hi as int].rank()
            },
{
    let n = y.len();
    bucket_is_within(n, BUCKETS - 1);
    assert(bucket_start(n, BUCKETS as int) == n) by {
        vstd::arithmetic::div_mod::lemma_div_multiples_vanish(n as int, BUCKETS as int);
    }
    let b = bucket_of(n, i, BUCKETS as nat);
    spikes_are_kept(y, b, i);
    let from = bucket_start(n, b as int);
    let to = bucket_start(n, b as int + 1);
    assert((b + 1) * n == b * n + n) by (nonlinear_arith);
    assert(to - from <= n / 10_000 + 1);
    let (lo, hi) = choose|lo: usize, hi: usize|
        {
            &&& #[trigger] kept(y).contains(lo)
            &&& #[trigger] kept(y).contains(hi)
            &&& from <= lo < to
            &&& from <= hi < to
            &&& y[lo as int].le(y[i])
            &&& y[i].le(y[hi as int])
        };
    assert(kept(y).contains(lo) && kept(y).contains(hi));
}

/// Of a longer series the first least and the first greatest number of each of its ten thousand
/// stretches are plotted.
pub proof fn first_extremes_are_kept(y: Seq<Real>, b: nat, p: int)
    requires
        20_000 < y.len() <= usize::MAX,
        b < 10_000,
        b * y.len() / 10_000 <= p < (b + 1) * y.len() / 10_000,
        !y[p].nan(),
        ({
            let from = b * y.len() / 10_000;
            let to = (b + 1) * y.len() / 10_000;
            ||| forall|i: int|
                from <= i < to && !(#[trigger] y[i]).nan() ==> y[p].rank() <= y[i].rank() && (i < p
                    ==> y[p].rank() < y[i].rank())
            ||| forall|i: int|
                from <= i < to && !(#[trigger] y[i]).nan() ==> y[i].rank() <= y[p].rank() && (i < p
                    ==> y[i].rank() < y[p].rank())
        }),
    ensures
        kept(y).contains(p as usize),
{
    let from = bucket_start(y.len(), b as int);
    let to = bucket_start(y.len(), b as int + 1);
    bucket_is_within(y.len(), b as int);
    extremes_are_within(y, from, to);
    extremes_bound(y, from, to, p);
    extremes_come_first(y, from, to, p);
    let k = kept_of(y, from, to);
    let lo = lowest(y, from, to) as usize;
    let hi = highest(y, from, to) as usize;
    assert(k.contains(lo)) by {
        assert(k[0] == lo || k[1] == lo);
    }
    assert(k.contains(hi)) by {
        assert(k[0] == hi || k[1] == hi);
    }
    assert(p == lo || p == hi) by {
        assert(!y[lo as int].nan() && !y[hi as int].nan());
    }
    kept_of_bucket_is_kept(y, b, BUCKETS as nat, p as usize);
}

/// No number before the chosen extreme of a stretch is level with it.
proof fn extremes_come_first(y: Seq<Real>, from: int, to: int, i: int)
    requires
        from <= i < to,
        !y[i].nan(),
    ensures
        i < lowest(y, from, to) ==> y[lowest(y, from, to)].lt(y[i]),
        i < highest(y, from, to) ==> y[i].lt(y[highest(y, from, to)]),
    decreases to - from,
{
    if i < to - 1 {
        extremes_come_first(y, from, to - 1, i);
        extremes_bound(y, from, to - 1, i);
    } else {
        extremes_are_within(y, from, to);
    }
}

/// Of a longer series nothing is plotted but the least and the greatest numbers of its stretches.
pub proof fn only_extremes_are_kept(y: Seq<Real>, p: usize) -> (b: nat)
    requires
        20_000 < y.len() <= usize::MAX,
        kept(y).contains(p),
    ensures
        b < 10_000,
        b * y.len() / 10_000 <= p < (b + 1) * y.len() / 10_000,
        ({
            let from = b * y.len() / 10_000;
            let to = (b + 1) * y.len() / 10_000;
            ||| forall|i: int| from <= i < to && !(#[trigger] y[i]).nan() ==> y[p as int].le(y[i])
            ||| forall|i: int| from <= i < to && !(#[trigger] y[i]).nan() ==> y[i].le(y[p as int])
        }),
{
    let b = kept_is_of_a_bucket(y, BUCKETS as nat, p);
    let from = bucket_start(y.len(), b as int);
    let to = bucket_start(y.len(), b as int + 1);
    bucket_is_within(y.len(), b as int);
    extremes_are_within(y, from, to);
    assert forall|i: int| from <= i < to && !(#[trigger] y[i]).nan() implies (y[lowest(
        y,
        from,
        to,
    )].le(y[i]) && y[i].le(y[highest(y, from, to)])) by {
        extremes_bound(y, from, to, i);
    }
    b
}

proof fn kept_is_of_a_bucket(y: Seq<Real>, c: nat, p: usize) -> (b: nat)
    requires
        kept_of_buckets(y, c).contains(p),
    ensures
        b < c,
        kept_of(y, bucket_start(y.len(), b as int), bucket_start(y.len(), b as int + 1)).contains(p),
    decreases c,
{
    let now = kept_of_buckets(y, c);
    let before = kept_of_buckets(y, (c - 1) as nat);
    let added = kept_of(y, bucket_start(y.len(), c - 1), bucket_start(y.len(), c as int));
    let k = choose|k: int| 0 <= k < now.len() && now[k] == p;
    if k < before.len() {
        assert(before[k] == p);
        kept_is_of_a_bucket(y, (c - 1) as nat, p)
    } else {
        assert(added[k - before.len()] == p);
        (c - 1) as nat
    }
}

/// Capping takes every n-th element from the first to the end of the list, with the smallest step
/// that keeps to the cap; a list within the cap stays as it is.
pub proof fn capping_takes_every_nth<T>(s: Seq<T>, max: nat) -> (step: nat)
    requires
        max > 0,
    ensures
        step >= 1,
        s.len() <= max ==> step == 1,
        s.len() > max ==> (step - 1) * max < s.len() <= step * max,
        s.len() > 0 ==> (capped(s, max).len() - 1) * step < s.len() <= capped(s, max).len() * step,
        s.len() == 0 ==> capped(s, max).len() == 0,
        capped(s, max).len() <= max,
        forall|k: int| 0 <= k < capped(s, max).len() ==> #[trigger] capped(s, max)[k] == s[k * step],
{
    capped_is_few(s, max);
    let step: nat = if s.len() <= max {
        1
    } else {
        steps_over(s.len(), max)
    };
    let c = capped(s, max);
    if s.len() <= max {
        assert forall|k: int| 0 <= k < c.len() implies #[trigger] c[k] == s[k * step] by {
            assert(k * step == k) by (nonlinear_arith)
                requires
                    step == 1,
            ;
        }
    } else {
        let n = s.len() as int;
        let m = max as int;
        let st = step as int;
        steps_cover(s.len(), max);
        assert(st >= 1) by (nonlinear_arith)
            requires
                n <= st * m,
                n > 0,
                m > 0,
        ;
        steps_cover(s.len(), step);
        assert(c.len() == steps_over(s.len(), step));
    }
    step
}

/// Steps that pass a length: one fewer do not.
proof fn steps_cover(n: nat, step: nat)
    requires
        step > 0,
        n > 0,
    ensures
        (steps_over(n, step) - 1) * step < n <= steps_over(n, step) * step,
{
    let m = n as int;
    let s = step as int;
    vstd::arithmetic::div_mod::lemma_fundamental_div_mod(m, s);
    let q = m / s;
    let r = m % s;
    let k = steps_over(n, step) as int;
    assert((k - 1) * s < m <= k * s) by (nonlinear_arith)
        requires
            m == s * q + r,
            0 <= r < s,
            k == if r == 0 {
                q
            } else {
                q + 1
            },
    ;
}

/// At sorted times, from samples at sorted times: before the first sample and after the last the
/// value is that sample's, and between them it lies on the line from the last sample before the
/// time to the first one that is not.
pub proof fn values_are_taken_between_neighbours(grid: Seq<Real>, t: Seq<Real>, k: int)
    requires
        0 < t.len() <= usize::MAX,
        0 <= k < grid.len(),
        forall|i: int| 0 <= i < grid.len() ==> !(#[trigger] grid[i]).nan(),
        forall|i: int| 0 <= i < t.len() ==> !(#[trigger] t[i]).nan(),
        forall|i: int, j: int| 0 <= i <= j < grid.len() ==> grid[i].rank() <= grid[j].rank(),
        forall|i: int, j: int| 0 <= i <= j < t.len() ==> t[i].rank() <= t[j].rank(),
    ensures
        is_interpolable(grid, t),
        picks(grid, t).len() == grid.len(),
        grid[k].rank() <= t[0].rank() ==> picks(grid, t)[k] == Pick::At(0),
        grid[k].rank() > t[0].rank() && grid[k].rank() >= t.last().rank() ==> picks(grid, t)[k]
            == Pick::At((t.len() - 1) as usize),
        t[0].rank() < grid[k].rank() < t.last().rank() ==> (picks(grid, t)[k] matches Pick::Between(j)
            && j + 1 < t.len() && t[j as int].rank() < grid[k].rank() <= t[j + 1].rank()),
{
    assert forall|i: int, j: int| 0 <= i <= j < grid.len() implies grid[i].le(grid[j]) by {
        assert(grid[i].rank() <= grid[j].rank());
    }
    sorted_times_interpolate(grid, t, k);
    assert(!t[0].nan() && !t.last().nan() && !grid[k].nan());
}

/// Times that go back are interpolated too: a time that does not lie outside the first and the
/// last sample is taken at a position whose successor is not before it, and the positions never
/// go back.
pub proof fn search_never_goes_back(grid: Seq<Real>, t: Seq<Real>, k: int, l: int)
    requires
        is_interpolable(grid, t),
        t.len() <= usize::MAX,
        0 <= k < grid.len(),
        !grid[k].le(t[0]),
        !t.last().le(grid[k]),
        k <= l < grid.len(),
        !grid[l].le(t[0]),
        !t.last().le(grid[l]),
    ensures
        ({
            let j = match picks(grid, t)[k] {
                Pick::At(j) => j,
                Pick::Between(j) => j,
            };
            let i = match picks(grid, t)[l] {
                Pick::At(i) => i,
                Pick::Between(i) => i,
            };
            j <= i
        }),
        ({
            let j = match picks(grid, t)[k] {
                Pick::At(j) => j,
                Pick::Between(j) => j,
            };
            &&& j + 1 < t.len()
            &&& !t[j + 1].lt(grid[k])
            &&& picks(grid, t)[k] is At <==> t[j + 1].le(t[j as int])
        }),
{
    cursor_is_within(grid, t, k as nat);
    advanced_is_within(t, cursor(grid, t, k as nat), grid[k]);
    cursor_is_within(grid, t, (k + 1) as nat);
    cursor_is_within(grid, t, (l + 1) as nat);
    cursor_grows(grid, t, (k + 1) as nat, (l + 1) as nat);
    assert(!is_clamped(t, grid[k]));
    assert(!is_clamped(t, grid[l]));
}

proof fn cursor_grows(grid: Seq<Real>, t: Seq<Real>, k: nat, l: nat)
    requires
        t.len() > 0,
        k <= l,
    ensures
        cursor(grid, t, k) <= cursor(grid, t, l),
    decreases l,
{
    if k < l {
        cursor_grows(grid, t, k, (l - 1) as nat);
        cursor_is_within(grid, t, (l - 1) as nat);
        advanced_is_within(t, cursor(grid, t, (l - 1) as nat), grid[l - 1]);
    }
}

/// A time at or before the first sample takes that one, and one at or after the last takes the last,
/// in whatever order the times are; where all times of the grid are so, they can be interpolated.
pub proof fn times_outside_take_the_ends(grid: Seq<Real>, t: Seq<Real>, k: int)
    requires
        0 < t.len() <= usize::MAX,
        0 <= k < grid.len(),
    ensures
        grid[k].le(t[0]) ==> picks(grid, t)[k] == Pick::At(0),
        !grid[k].le(t[0]) && t.last().le(grid[k]) ==> picks(grid, t)[k] == Pick::At(
            (t.len() - 1) as usize,
        ),
        (forall|i: int|
            0 <= i < grid.len() ==> (#[trigger] grid[i]).le(t[0]) || t.last().le(grid[i]))
            ==> is_interpolable(grid, t),
{
}

/// The search goes no further among the samples than a time so far calls for.
pub proof fn search_goes_no_further_than_needed(grid: Seq<Real>, t: Seq<Real>, k: int) -> (m: int)
    requires
        is_interpolable(grid, t),
        t.len() <= usize::MAX,
        0 <= k < grid.len(),
        !grid[k].le(t[0]),
        !t.last().le(grid[k]),
    ensures
        ({
            let j = match picks(grid, t)[k] {
                Pick::At(j) => j,
                Pick::Between(j) => j,
            };
            j == 0 || (0 <= m <= k && j < t.len() && t[j as int].lt(grid[m]))
        }),
{
    cursor_is_within(grid, t, (k + 1) as nat);
    assert(!is_clamped(t, grid[k]));
    cursor_was_called_for(grid, t, (k + 1) as nat)
}

proof fn cursor_was_called_for(grid: Seq<Real>, t: Seq<Real>, k: nat) -> (m: int)
    requires
        t.len() > 0,
        k <= grid.len(),
    ensures
        cursor(grid, t, k) == 0 || (0 <= m < k && t[cursor(grid, t, k)].lt(grid[m])),
    decreases k,
{
    if k == 0 {
        0
    } else {
        let j = cursor(grid, t, (k - 1) as nat);
        cursor_is_within(grid, t, (k - 1) as nat);
        advanced_is_within(t, j, grid[k - 1]);
        if cursor(grid, t, k) > j {
            k - 1
        } else {
            cursor_was_called_for(grid, t, (k - 1) as nat)
        }
    }
}

} // verus!
