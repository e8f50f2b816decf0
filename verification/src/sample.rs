//! The data the engine works on: samples, invocation outcomes, sweep ranges.

use vstd::prelude::*;

verus! {

/// One measured observation: the sweep's independent variable paired with
/// the wall-clock duration of a single invocation, in nanoseconds.
///
/// A sample has no identity beyond its two values; several samples with the
/// same scale and different durations are distinct data points and are all
/// retained.
#[derive(Clone, Copy, PartialEq, Eq, Structural, Debug)]
pub struct Sample {
    pub scale: u32,
    pub duration_nanos: u64,
}

/// The result of one external invocation. The elapsed wall-clock time of
/// the invocation is measured whether or not it succeeded, so both variants
/// carry a duration in nanoseconds. A nonzero exit status is a normal
/// `Failed` outcome, not an exceptional condition.
#[derive(Clone, Copy, PartialEq, Eq, Structural, Debug)]
pub enum InvocationOutcome {
    Completed(u64),
    Failed(u64),
}

/// Why a bounded sampling run stopped yielding samples: either the
/// per-parameter time budget ran out (the sweep moves on to the next
/// scale), or an invocation failed (the whole sweep halts).
#[derive(Clone, Copy, PartialEq, Eq, Structural, Debug)]
pub enum StopReason {
    BudgetExhausted,
    Failure,
}

/// The scale parameters a sweep visits: `start`, `start + step`, ... up to
/// and including `end` (when `end - start` is a multiple of `step`, the
/// last visited scale is `end` itself). A range with `start > end` visits
/// nothing.
#[derive(Clone, Copy, PartialEq, Eq, Structural, Debug)]
pub struct SweepRange {
    pub start: u32,
    pub end: u32,
    pub step: u32,
}

impl InvocationOutcome {
    /// The measured duration, regardless of success.
    pub open spec fn spec_duration(self) -> u64 {
        match self {
            InvocationOutcome::Completed(d) => d,
            InvocationOutcome::Failed(d) => d,
        }
    }

    /// The measured duration of this invocation, in nanoseconds.
    pub fn duration_nanos(&self) -> (d: u64)
        ensures
            d == self.spec_duration(),
    {
        match self {
            InvocationOutcome::Completed(d) => *d,
            InvocationOutcome::Failed(d) => *d,
        }
    }

    /// Whether the invocation reported success.
    pub fn is_success(&self) -> (b: bool)
        ensures
            b == (self matches InvocationOutcome::Completed(_)),
    {
        match self {
            InvocationOutcome::Completed(_) => true,
            InvocationOutcome::Failed(_) => false,
        }
    }
}

impl SweepRange {
    /// A well-formed range steps forward.
    pub open spec fn wf(self) -> bool {
        self.step >= 1
    }

    /// How many scale parameters the range visits.
    pub open spec fn spec_count(self) -> nat {
        if self.start > self.end || self.step == 0 {
            0
        } else {
            ((self.end - self.start) as nat / self.step as nat) + 1
        }
    }

    /// The `k`-th visited scale parameter, counting from zero.
    pub open spec fn spec_scale_at(self, k: int) -> int {
        self.start + k * self.step
    }
}

} // verus!
