//! Mean and median of a series of trial measurements.
//!
//! A measurement is an elapsed time in whole nanoseconds. The mean of a
//! series is kept exact, as a whole part and a remainder over the number of
//! measurements. The median is the element in the middle of the series in
//! ascending order; for an even number of measurements, the upper of the two
//! in the middle.

use vstd::prelude::*;
use vstd::relations::{sorted_by, total_ordering};
use vstd::seq_lib::{lemma_sorted_unique, to_multiset_build, to_multiset_insert};

verus! {

/// The exact mean of `count` measurements: `whole + rem / count`.
#[derive(Clone, Copy, Debug, PartialEq, Eq, Structural)]
pub struct Mean {
    pub whole: u64,
    pub rem: usize,
    pub count: usize,
}

/// What a series of trials comes to.
#[derive(Clone, Copy, Debug, PartialEq, Eq, Structural)]
pub struct Report {
    pub mean: Mean,
    pub median: u64,
    /// The sum that the last trial computed.
    pub last: i32,
}

/// The exact sum of the measurements.
pub open spec fn sample_total(s: Seq<u64>) -> int
    decreases s.len(),
{
    if s.len() == 0 {
        0
    } else {
        sample_total(s.drop_last()) + s.last()
    }
}

/// Whether `m` is the mean of the measurements `s`.
pub open spec fn is_mean_of(m: Mean, s: Seq<u64>) -> bool {
    &&& m.count == s.len()
    &&& m.rem < m.count
    &&& m.whole * m.count + m.rem == sample_total(s)
}

/// Whether no element of `s` is followed by a smaller one.
pub open spec fn ascending(s: Seq<u64>) -> bool {
    forall|i: int, j: int| 0 <= i <= j < s.len() ==> s[i] <= s[j]
}

/// Whether `out` holds the elements of `s`, each as often as `s` does, in
/// ascending order.
pub open spec fn is_sorting_of(out: Seq<u64>, s: Seq<u64>) -> bool {
    ascending(out) && out.to_multiset() == s.to_multiset()
}

/// The elements of `s` in ascending order.
pub open spec fn sorted_form(s: Seq<u64>) -> Seq<u64> {
    s.sort_by(|a: u64, b: u64| a <= b)
}

/// The element in the middle of `s` in ascending order.
pub open spec fn median_of(s: Seq<u64>) -> u64
    recommends
        s.len() > 0,
{
    sorted_form(s)[s.len() as int / 2]
}

/// Whether `r` reports the measurements `s` of trials whose last result was `last`.
pub open spec fn is_report_of(r: Report, s: Seq<u64>, last: i32) -> bool {
    &&& is_mean_of(r.mean, s)
    &&& r.median == median_of(s)
    &&& r.last == last
}

/// `sorted_form(s)` is `s` put in ascending order.
pub proof fn lemma_sorted_form(s: Seq<u64>)
    ensures
        is_sorting_of(sorted_form(s), s),
        sorted_form(s).len() == s.len(),
{
    let leq = |a: u64, b: u64| a <= b;
    assert(total_ordering(leq));
    s.lemma_sort_by_ensures(leq);
    let out = sorted_form(s);
    assert(ascending(out)) by {
        assert forall|i: int, j: int| 0 <= i <= j < out.len() implies out[i] <= out[j] by {
            if i < j {
                assert(leq(out[i], out[j]));
            }
        }
    }
    out.to_multiset_ensures();
    s.to_multiset_ensures();
}

/// There is only one way to put `s` in ascending order.
pub proof fn lemma_sorting_unique(out: Seq<u64>, s: Seq<u64>)
    requires
        is_sorting_of(out, s),
    ensures
        out == sorted_form(s),
{
    let leq = |a: u64, b: u64| a <= b;
    lemma_sorted_form(s);
    assert(total_ordering(leq));
    assert(sorted_by(out, leq));
    assert(sorted_by(sorted_form(s), leq));
    lemma_sorted_unique(out, sorted_form(s), leq);
}

/// The median of a series that is already in ascending order is its element
/// at index `len / 2`.
pub proof fn lemma_median_of_ascending(s: Seq<u64>)
    requires
        ascending(s),
    ensures
        median_of(s) == s[s.len() as int / 2],
{
    lemma_sorting_unique(s, s);
}

/// The mean of a series is unique: two means of the same series agree in
/// every part.
pub proof fn lemma_mean_unique(a: Mean, b: Mean, s: Seq<u64>)
    requires
        is_mean_of(a, s),
        is_mean_of(b, s),
    ensures
        a == b,
{
    let n = s.len() as int;
    assert(a.whole == b.whole) by (nonlinear_arith)
        requires
            a.whole * n + a.rem == b.whole * n + b.rem,
            0 <= a.rem < n,
            0 <= b.rem < n,
    ;
    assert(a.whole * n == b.whole * n);
}

/// With a single trial, mean and median both are its measurement.
pub proof fn lemma_single_trial(r: Report, s: Seq<u64>, last: i32)
    requires
        s.len() == 1,
        is_report_of(r, s, last),
    ensures
        r.median == s[0],
        r.mean.whole == s[0],
        r.mean.rem == 0,
        r.mean.count == 1,
{
    assert(ascending(s));
    lemma_median_of_ascending(s);
    assert(s.drop_last() =~= Seq::<u64>::empty());
    assert(sample_total(s) == s[0]) by {
        reveal_with_fuel(sample_total, 2);
    }
    assert(r.mean.whole * 1 == r.mean.whole) by (nonlinear_arith);
}

/// Returns the measurements in ascending order.
pub fn sorted(samples: &[u64]) -> (out: Vec<u64>)
    ensures
        is_sorting_of(out@, samples@),
        out@ == sorted_form(samples@),
        out@.len() == samples@.len(),
{
    let mut out: Vec<u64> = Vec::new();
    let mut i: usize = 0;
    assert(samples@.take(0) =~= out@);
    while i < samples.len()
        invariant
            i <= samples@.len(),
            out@.len() == i,
            ascending(out@),
            out@.to_multiset() == samples@.take(i as int).to_multiset(),
        decreases samples@.len() - i,
    {
        let x = samples[i];
        let mut j: usize = out.len();
        while j > 0 && out[j - 1] > x
            invariant
                j <= out@.len(),
                forall|k: int| j <= k < out@.len() ==> out@[k] > x,
            decreases j,
        {
            j -= 1;
        }
        let ghost before = out@;
        out.insert(j, x);
        proof {
            to_multiset_insert(before, j as int, x);
            to_multiset_build(samples@.take(i as int), x);
            assert(samples@.take(i + 1) =~= samples@.take(i as int).push(x));
            assert forall|a: int, b: int| 0 <= a <= b < out@.len() implies out@[a] <= out@[b] by {
                let pa = if a < j { a } else { a - 1 };
                let pb = if b < j { b } else { b - 1 };
                if a != j && b != j {
                    assert(out@[a] == before[pa] && out@[b] == before[pb]);
                } else if a == j && b != j {
                    assert(out@[b] == before[pb]);
                } else if a != j && b == j {
                    assert(out@[a] == before[pa]);
                    if j > 0 {
                        assert(before[pa] <= before[j - 1]);
                    }
                }
            }
        }
        i += 1;
    }
    proof {
        assert(samples@.take(samples@.len() as int) =~= samples@);
        lemma_sorting_unique(out@, samples@);
    }
    out
}

/// The median of the measurements, or `None` where there are none.
pub fn median(samples: &[u64]) -> (m: Option<u64>)
    ensures
        m is None <==> samples@.len() == 0,
        m matches Some(x) ==> x == median_of(samples@),
{
    if samples.len() == 0 {
        return None;
    }
    let order = sorted(samples);
    Some(order[order.len() / 2])
}

/// The exact mean of the measurements, or `None` where there are none.
pub fn mean(samples: &[u64]) -> (m: Option<Mean>)
    ensures
        m is None <==> samples@.len() == 0,
        m matches Some(x) ==> is_mean_of(x, samples@),
{
    let n = samples.len();
    if n == 0 {
        return None;
    }
    let mut acc: u128 = 0;
    let mut i: usize = 0;
    assert(samples@.take(0) =~= Seq::<u64>::empty());
    while i < n
        invariant
            i <= n == samples@.len(),
            acc == sample_total(samples@.take(i as int)),
            acc <= i * 0xffff_ffff_ffff_ffff,
        decreases n - i,
    {
        proof {
            let next = samples@.take(i + 1);
            assert(next.drop_last() =~= samples@.take(i as int));
            assert(next.last() == samples@[i as int]);
        }
        acc = acc + samples[i] as u128;
        i += 1;
    }
    assert(samples@.take(n as int) =~= samples@);
    let whole = acc / (n as u128);
    let rem = acc % (n as u128);
    proof {
        let a = acc as int;
        let d = n as int;
        assert(a == (a / d) * d + a % d && 0 <= a % d < d && a / d <= 0xffff_ffff_ffff_ffff)
            by (nonlinear_arith)
            requires
                d > 0,
                0 <= a <= d * 0xffff_ffff_ffff_ffff,
        ;
    }
    Some(Mean { whole: whole as u64, rem: rem as usize, count: n })
}

/// Mean and median of the measurements, together with the result of the
/// last trial; `None` where there are no measurements.
pub fn summarize(samples: &[u64], last: i32) -> (r: Option<Report>)
    ensures
        r is None <==> samples@.len() == 0,
        r matches Some(rep) ==> is_report_of(rep, samples@, last),
{
    match (mean(samples), median(samples)) {
        (Some(mean), Some(median)) => Some(Report { mean, median, last }),
        _ => None,
    }
}

} // verus!
