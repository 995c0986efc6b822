//! Running a summation strategy for a number of timed trials.

use crate::stats::{is_report_of, summarize, Report};
use std::time::{Duration, Instant};
use vstd::prelude::*;

verus! {

/// `std::time::Instant`, a point on the monotonic clock. Nothing is known of
/// what it holds.
#[verifier::external_type_specification]
#[verifier::external_body]
pub struct ExInstant(Instant);

/// `Instant::now` reads the clock: nothing is claimed of the instant it returns.
pub assume_specification[ Instant::now ]() -> Instant;

/// `Instant::elapsed` measures the time since `start` on the clock: nothing
/// is claimed of the duration it returns.
pub assume_specification[ Instant::elapsed ](start: &Instant) -> Duration;

/// `Duration::as_nanos` gives the duration in whole nanoseconds: nothing is
/// claimed of the number, since nothing is known of the duration.
pub assume_specification[ Duration::as_nanos ](d: &Duration) -> u128;

/// The measurements of a series of trials, in the order in which they ran.
#[derive(Clone, Debug)]
pub struct Trials {
    /// Elapsed time of each trial, in nanoseconds.
    pub samples: Vec<u64>,
    /// The sum that the last trial computed; 0 where no trial ran.
    pub last: i32,
}

/// Brings a number of nanoseconds into a `u64`: `u64::MAX` stands for
/// anything longer.
pub fn clamp_nanos(nanos: u128) -> (r: u64)
    ensures
        nanos <= u64::MAX ==> r == nanos,
        nanos > u64::MAX ==> r == u64::MAX,
{
    if nanos > u64::MAX as u128 {
        u64::MAX
    } else {
        nanos as u64
    }
}

/// Nanoseconds on the clock since `start`.
fn elapsed_nanos(start: &Instant) -> u64 {
    clamp_nanos(start.elapsed().as_nanos())
}

/// Runs `strategy` on `arr` `iter` times, one run after the other, and
/// times each run on its own: the clock is read right before the call and
/// right after it.
pub fn run_trials<F: Fn(&[i32]) -> i32>(strategy: F, arr: &[i32], iter: usize) -> (t: Trials)
    requires
        call_requires(strategy, (arr,)),
    ensures
        t.samples@.len() == iter,
        iter == 0 ==> t.last == 0,
        iter > 0 ==> call_ensures(strategy, (arr,), t.last),
{
    let mut samples: Vec<u64> = Vec::new();
    let mut last: i32 = 0;
    let mut i: usize = 0;
    while i < iter
        invariant
            i <= iter,
            samples@.len() == i,
            call_requires(strategy, (arr,)),
            i == 0 ==> last == 0,
            i > 0 ==> call_ensures(strategy, (arr,), last),
        decreases iter - i,
    {
        let start = Instant::now();
        last = strategy(arr);
        samples.push(elapsed_nanos(&start));
        i += 1;
    }
    Trials { samples, last }
}

/// Times `iter` runs of `strategy` on `arr` and reports their mean and
/// median, with the sum that the last run computed. Without a run there is
/// nothing to report.
pub fn bench<F: Fn(&[i32]) -> i32>(strategy: F, arr: &[i32], iter: usize) -> (r: Option<Report>)
    requires
        call_requires(strategy, (arr,)),
    ensures
        r is None <==> iter == 0,
        r matches Some(rep) ==> {
            &&& call_ensures(strategy, (arr,), rep.last)
            &&& exists|samples: Seq<u64>|
                samples.len() == iter && #[trigger] is_report_of(rep, samples, rep.last)
        },
{
    let trials = run_trials(strategy, arr, iter);
    let r = summarize(trials.samples.as_slice(), trials.last);
    proof {
        if let Some(rep) = r {
            assert(is_report_of(rep, trials.samples@, rep.last));
        }
    }
    r
}

} // verus!
