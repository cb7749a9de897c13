//! Timing the chunked count: repeated runs at one worker count, and the
//! sweep over worker counts from one up to a maximum.

use crate::counts::{char_counts, counts_fit, lines_of, CharCounts};
use crate::parallel::count_chars_parallel;
use std::time::{Duration, Instant};
use vstd::prelude::*;

verus! {

/// `std::time::Instant`, a point on the monotonic clock. Nothing is known
/// of what a value holds.
#[verifier::external_type_specification]
#[verifier::external_body]
pub struct ExInstant(Instant);

/// `Instant::now`: the present moment. Nothing is claimed of it.
pub assume_specification[ Instant::now ]() -> (now: Instant)
;

/// `Instant::elapsed`: the time since `start`. Nothing is claimed of it.
pub assume_specification[ Instant::elapsed ](start: &Instant) -> (elapsed: Duration)
;

/// `Duration::as_nanos`: the duration in whole nanoseconds. Nothing is
/// claimed of the number.
pub assume_specification[ Duration::as_nanos ](duration: &Duration) -> (nanos: u128)
;

/// One point of a sweep: a worker count and the mean time of one run at
/// that count, in nanoseconds.
#[derive(Clone, Copy, Debug, PartialEq, Eq, Structural)]
pub struct SweepPoint {
    pub threads: usize,
    pub mean_nanos: u128,
}

/// The mean of `reruns` runs that took `total_nanos` together, rounded
/// down to whole nanoseconds.
pub fn mean_nanos(total_nanos: u128, reruns: u32) -> (mean: u128)
    requires
        reruns >= 1,
    ensures
        mean == total_nanos / (reruns as u128),
{
    total_nanos / (reruns as u128)
}

/// Counts the characters of `input` `reruns` times over, each time in the
/// chunks for `n` workers, and returns the mean time of one run in
/// nanoseconds with the counts of the last run.
pub fn benchmark(input: &[String], n: usize, reruns: u32) -> (outcome: (u128, CharCounts))
    requires
        n >= 1,
        reruns >= 1,
        counts_fit(lines_of(input@)),
    ensures
        outcome.1.wf(),
        outcome.1@ == char_counts(lines_of(input@)),
{
    let start = Instant::now();
    let mut counts = count_chars_parallel(input, n);
    let mut run: u32 = 1;
    while run < reruns
        invariant
            n >= 1,
            counts_fit(lines_of(input@)),
            counts.wf(),
            counts@ == char_counts(lines_of(input@)),
        decreases reruns - run,
    {
        counts = count_chars_parallel(input, n);
        run += 1;
    }
    let elapsed = start.elapsed();
    (mean_nanos(elapsed.as_nanos(), reruns), counts)
}

/// Runs `benchmark` at every worker count from one up to `max`, in rising
/// order, and returns one point for each with the counts of the last.
pub fn benchmark_all(input: &[String], max: usize, reruns: u32) -> (outcome: (
    Vec<SweepPoint>,
    CharCounts,
))
    requires
        max >= 1,
        reruns >= 1,
        counts_fit(lines_of(input@)),
    ensures
        outcome.0@.len() == max,
        forall|i: int| 0 <= i < max ==> (#[trigger] outcome.0@[i]).threads == i + 1,
        outcome.1.wf(),
        outcome.1@ == char_counts(lines_of(input@)),
{
    let mut points: Vec<SweepPoint> = Vec::new();
    let (mean, mut counts) = benchmark(input, 1, reruns);
    points.push(SweepPoint { threads: 1, mean_nanos: mean });
    let mut level: usize = 1;
    while level < max
        invariant
            1 <= level <= max,
            reruns >= 1,
            counts_fit(lines_of(input@)),
            points@.len() == level,
            forall|i: int| 0 <= i < level ==> (#[trigger] points@[i]).threads == i + 1,
            counts.wf(),
            counts@ == char_counts(lines_of(input@)),
        decreases max - level,
    {
        level += 1;
        let (mean, next) = benchmark(input, level, reruns);
        counts = next;
        points.push(SweepPoint { threads: level, mean_nanos: mean });
    }
    (points, counts)
}

} // verus!
