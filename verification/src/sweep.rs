//! The sweep driver: it visits every scale parameter of a range in
//! increasing order, runs the bounded sampler for each, concatenates the
//! yielded samples into one dataset, and halts the whole sweep the first
//! time a sampling run stops because an invocation failed.
//!
//! A whole sweep is modelled on the per-scale event sequences the sampling
//! runs reacted to; [`sweep_dataset`] is the dataset the driver returns for
//! them, and [`replay_sweep`] computes it. A live sweep iterates scales
//! with [`ScaleCursor`] and reuses the sampler's step function.

use vstd::prelude::*;

use vstd::arithmetic::div_mod::lemma_fundamental_div_mod;

use crate::sample::{Sample, StopReason, SweepRange};
use crate::sampler::{
    replay_sampling, sampler_stop, sampler_yields, SamplerEvent,
    lemma_sampler_within_budget,
};

verus! {

/// The event sequence recorded for the `k`-th visited scale; scales beyond
/// the recorded table saw no events at all.
pub open spec fn events_at(events: Seq<Seq<SamplerEvent>>, k: int) -> Seq<SamplerEvent> {
    if 0 <= k < events.len() {
        events[k]
    } else {
        Seq::empty()
    }
}

/// The dataset a sweep collects from the `k`-th visited scale onward: the
/// current scale's yields, followed by the later scales' — unless the
/// current scale's run stopped on a failure, which halts the sweep.
pub open spec fn sweep_from(
    range: SweepRange,
    budget_nanos: u64,
    events: Seq<Seq<SamplerEvent>>,
    k: int,
) -> Seq<Sample>
    decreases range.spec_count() - k,
{
    if k < 0 || k >= range.spec_count() {
        Seq::empty()
    } else {
        let sc = range.spec_scale_at(k) as u32;
        let ys = sampler_yields(sc, budget_nanos, events_at(events, k));
        if sampler_stop(sc, budget_nanos, events_at(events, k)) == Some(StopReason::Failure) {
            ys
        } else {
            ys + sweep_from(range, budget_nanos, events, k + 1)
        }
    }
}

/// The dataset of a whole sweep: what it collects from the first visited
/// scale onward.
pub open spec fn sweep_dataset(
    range: SweepRange,
    budget_nanos: u64,
    events: Seq<Seq<SamplerEvent>>,
) -> Seq<Sample> {
    sweep_from(range, budget_nanos, events, 0)
}

/// Whether the sweep, from the `k`-th visited scale onward, halts on a
/// failed invocation before visiting every scale.
pub open spec fn sweep_halts_from(
    range: SweepRange,
    budget_nanos: u64,
    events: Seq<Seq<SamplerEvent>>,
    k: int,
) -> bool
    decreases range.spec_count() - k,
{
    if k < 0 || k >= range.spec_count() {
        false
    } else {
        let sc = range.spec_scale_at(k) as u32;
        if sampler_stop(sc, budget_nanos, events_at(events, k)) == Some(StopReason::Failure) {
            true
        } else {
            sweep_halts_from(range, budget_nanos, events, k + 1)
        }
    }
}

/// Every visited scale lies between the range's two ends.
pub proof fn lemma_scale_at_bounded(range: SweepRange, k: int)
    requires
        range.wf(),
        0 <= k < range.spec_count(),
    ensures
        range.start <= range.spec_scale_at(k) <= range.end,
{
    let span = (range.end - range.start) as int;
    let step = range.step as int;
    let q = span / step;
    lemma_fundamental_div_mod(span, step);
    assert(q * step <= span);
    assert(k * step <= q * step) by (nonlinear_arith)
        requires
            k <= q,
            step >= 1,
    ;
    assert(k * step >= 0) by (nonlinear_arith)
        requires
            k >= 0,
            step >= 1,
    ;
}

/// Stepping the index once moves the scale forward by exactly the step.
pub proof fn lemma_scale_at_step(range: SweepRange, k: int)
    ensures
        range.spec_scale_at(k + 1) == range.spec_scale_at(k) + range.step,
{
    assert((k + 1) * range.step == k * range.step + range.step) by (nonlinear_arith);
}

/// Visited scales are strictly increasing: a later index is a larger scale.
pub proof fn lemma_scale_at_increasing(range: SweepRange, k1: int, k2: int)
    requires
        range.wf(),
        0 <= k1 < k2,
    ensures
        range.spec_scale_at(k1) < range.spec_scale_at(k2),
{
    assert(k1 * range.step < k2 * range.step) by (nonlinear_arith)
        requires
            k1 < k2,
            range.step >= 1,
    ;
}

/// Ordered-concatenation law: the dataset a sweep collects is exactly the
/// per-scale sampling yields laid end to end in visiting order, so each
/// sample carries the scale of the run that produced it and the scales are
/// nondecreasing along the dataset — no reordering and no drops besides a
/// halt on failure.
pub proof fn lemma_sweep_ordered(
    range: SweepRange,
    budget_nanos: u64,
    events: Seq<Seq<SamplerEvent>>,
    k: int,
)
    requires
        range.wf(),
    ensures
        forall|i: int|
            0 <= i < sweep_from(range, budget_nanos, events, k).len() ==> range.spec_scale_at(k)
                <= #[trigger] sweep_from(range, budget_nanos, events, k)[i].scale
                <= range.end,
        forall|i: int, j: int|
            0 <= i <= j < sweep_from(range, budget_nanos, events, k).len() ==> #[trigger] sweep_from(
                range,
                budget_nanos,
                events,
                k,
            )[i].scale <= #[trigger] sweep_from(range, budget_nanos, events, k)[j].scale,
    decreases range.spec_count() - k,
{
    if k < 0 || k >= range.spec_count() {
    } else {
        let ds = sweep_from(range, budget_nanos, events, k);
        let sc = range.spec_scale_at(k) as u32;
        let evs = events_at(events, k);
        let ys = sampler_yields(sc, budget_nanos, evs);
        lemma_scale_at_bounded(range, k);
        lemma_sampler_within_budget(sc, budget_nanos, evs);
        assert(forall|i: int| 0 <= i < ys.len() ==> #[trigger] ys[i].scale == sc);
        if sampler_stop(sc, budget_nanos, evs) == Some(StopReason::Failure) {
        } else {
            let rest = sweep_from(range, budget_nanos, events, k + 1);
            lemma_sweep_ordered(range, budget_nanos, events, k + 1);
            if k + 1 < range.spec_count() {
                lemma_scale_at_increasing(range, k, k + 1);
                lemma_scale_at_bounded(range, k + 1);
            }
            assert(forall|i: int| 0 <= i < ds.len() ==> ds[i] == if i < ys.len() {
                ys[i]
            } else {
                rest[i - ys.len()]
            });
        }
    }
}

/// The sampling yields of the first `k` visited scales, laid end to end in
/// visiting order.
pub open spec fn concat_yields_upto(
    range: SweepRange,
    budget_nanos: u64,
    events: Seq<Seq<SamplerEvent>>,
    k: int,
) -> Seq<Sample>
    decreases k,
{
    if k <= 0 {
        Seq::empty()
    } else {
        concat_yields_upto(range, budget_nanos, events, k - 1) + sampler_yields(
            range.spec_scale_at(k - 1) as u32,
            budget_nanos,
            events_at(events, k - 1),
        )
    }
}

/// A sweep that never halts on failure keeps halting off every tail of the
/// visiting order.
pub proof fn lemma_no_halt_onward(
    range: SweepRange,
    budget_nanos: u64,
    events: Seq<Seq<SamplerEvent>>,
    j: int,
    k: int,
)
    requires
        0 <= j <= k,
        !sweep_halts_from(range, budget_nanos, events, j),
    ensures
        !sweep_halts_from(range, budget_nanos, events, k),
    decreases k - j,
{
    if j < k {
        lemma_no_halt_onward(range, budget_nanos, events, j + 1, k);
    }
}

/// Completed-sweep law: a sweep that never halts on failure returns
/// exactly the concatenation of every visited scale's sampling yields, one
/// scale after the other in increasing order — nothing reordered, nothing
/// dropped.
pub proof fn lemma_sweep_completed_concat(
    range: SweepRange,
    budget_nanos: u64,
    events: Seq<Seq<SamplerEvent>>,
)
    requires
        range.wf(),
        !sweep_halts_from(range, budget_nanos, events, 0),
    ensures
        sweep_dataset(range, budget_nanos, events) == concat_yields_upto(
            range,
            budget_nanos,
            events,
            range.spec_count() as int,
        ),
{
    let count = range.spec_count() as int;
    lemma_sweep_prefix_split(range, budget_nanos, events, count);
    assert(concat_yields_upto(range, budget_nanos, events, count) + Seq::<Sample>::empty()
        =~= concat_yields_upto(range, budget_nanos, events, count));
}

/// Splitting a halting-free sweep after its first `k` visited scales: the
/// dataset is what those scales yielded followed by what the rest of the
/// sweep collects.
pub proof fn lemma_sweep_prefix_split(
    range: SweepRange,
    budget_nanos: u64,
    events: Seq<Seq<SamplerEvent>>,
    k: int,
)
    requires
        range.wf(),
        0 <= k <= range.spec_count(),
        !sweep_halts_from(range, budget_nanos, events, 0),
    ensures
        sweep_dataset(range, budget_nanos, events) == concat_yields_upto(
            range,
            budget_nanos,
            events,
            k,
        ) + sweep_from(range, budget_nanos, events, k),
    decreases k,
{
    if k == 0 {
        assert(concat_yields_upto(range, budget_nanos, events, 0) + sweep_from(
            range,
            budget_nanos,
            events,
            0,
        ) =~= sweep_from(range, budget_nanos, events, 0));
    } else {
        lemma_sweep_prefix_split(range, budget_nanos, events, k - 1);
        lemma_no_halt_onward(range, budget_nanos, events, 0, k - 1);
        let sc = range.spec_scale_at(k - 1) as u32;
        let ys = sampler_yields(sc, budget_nanos, events_at(events, k - 1));
        assert(sampler_stop(sc, budget_nanos, events_at(events, k - 1)) != Some(
            StopReason::Failure,
        ));
        assert(sweep_from(range, budget_nanos, events, k - 1) == ys + sweep_from(
            range,
            budget_nanos,
            events,
            k,
        ));
        assert(concat_yields_upto(range, budget_nanos, events, k - 1) + (ys + sweep_from(
            range,
            budget_nanos,
            events,
            k,
        )) =~= concat_yields_upto(range, budget_nanos, events, k) + sweep_from(
            range,
            budget_nanos,
            events,
            k,
        ));
    }
}

impl SweepRange {
    /// How many scale parameters this range visits.
    pub fn count(&self) -> (n: u64)
        ensures
            n == self.spec_count(),
    {
        if self.step == 0 || self.start > self.end {
            0
        } else {
            ((self.end - self.start) / self.step) as u64 + 1
        }
    }
}

/// Replays a whole sweep from the per-scale event sequences its sampling
/// runs reacted to. Returns the collected dataset and whether the sweep
/// halted early on a failed invocation.
pub fn replay_sweep(
    range: SweepRange,
    budget_nanos: u64,
    events: &Vec<Vec<SamplerEvent>>,
) -> (r: (Vec<Sample>, bool))
    requires
        range.wf(),
    ensures
        r.0@ == sweep_dataset(range, budget_nanos, events@.map_values(|v: Vec<SamplerEvent>| v@)),
        r.1 == sweep_halts_from(
            range,
            budget_nanos,
            events@.map_values(|v: Vec<SamplerEvent>| v@),
            0,
        ),
{
    let ghost tbl = events@.map_values(|v: Vec<SamplerEvent>| v@);
    let count = range.count();
    let empty_events: Vec<SamplerEvent> = Vec::new();
    let mut out: Vec<Sample> = Vec::new();
    let mut failed = false;
    let mut k: u64 = 0;
    let mut scale: u32 = range.start;
    while k < count && !failed
        invariant
            range.wf(),
            count == range.spec_count(),
            tbl == events@.map_values(|v: Vec<SamplerEvent>| v@),
            0 <= k <= count,
            k < count ==> scale == range.spec_scale_at(k as int),
            !failed ==> out@ + sweep_from(range, budget_nanos, tbl, k as int) == sweep_dataset(
                range,
                budget_nanos,
                tbl,
            ),
            !failed ==> sweep_halts_from(range, budget_nanos, tbl, 0) == sweep_halts_from(
                range,
                budget_nanos,
                tbl,
                k as int,
            ),
            failed ==> out@ == sweep_dataset(range, budget_nanos, tbl) && sweep_halts_from(
                range,
                budget_nanos,
                tbl,
                0,
            ),
            empty_events@ == Seq::<SamplerEvent>::empty(),
        decreases 2 * (count - k) + (if failed {
            0int
        } else {
            1int
        }),
    {
        let evs = if (k as usize) < events.len() {
            &events[k as usize]
        } else {
            &empty_events
        };
        proof {
            assert(tbl.len() == events@.len());
            if (k as usize) < events.len() {
                assert(tbl[k as int] == events@[k as int]@);
            } else {
                assert(evs@ =~= Seq::<SamplerEvent>::empty());
            }
            assert(evs@ == events_at(tbl, k as int));
        }
        let (mut ys, stop) = replay_sampling(scale, budget_nanos, evs);
        proof {
            assert(out@ + (ys@ + sweep_from(range, budget_nanos, tbl, k as int + 1)) == (out@
                + ys@) + sweep_from(range, budget_nanos, tbl, k as int + 1));
        }
        out.append(&mut ys);
        if stop == Some(StopReason::Failure) {
            failed = true;
            proof {
                assert(out@ + Seq::<Sample>::empty() =~= out@);
            }
        } else {
            proof {
                if k as int + 1 < count {
                    lemma_scale_at_step(range, k as int);
                    lemma_scale_at_bounded(range, k as int);
                    lemma_scale_at_bounded(range, k as int + 1);
                }
            }
            k = k + 1;
            if k < count {
                scale = scale + range.step;
            }
        }
    }
    proof {
        if !failed {
            assert(out@ + Seq::<Sample>::empty() =~= out@);
        }
    }
    (out, failed)
}

/// Walks the scale parameters of a range in increasing order, handing out
/// one at a time; the live sweep asks it for the next scale to sample.
pub struct ScaleCursor {
    range: SweepRange,
    next_k: u64,
    scale: u32,
}

impl ScaleCursor {
    /// A cursor is sound when its position is inside the range and its
    /// cached scale value is the one the position denotes.
    pub closed spec fn wf(self) -> bool {
        &&& self.range.wf()
        &&& 0 <= self.next_k <= self.range.spec_count()
        &&& self.next_k < self.range.spec_count() ==> self.scale == self.range.spec_scale_at(
            self.next_k as int,
        )
    }

    /// The range being walked.
    pub closed spec fn spec_range(self) -> SweepRange {
        self.range
    }

    /// The index of the next scale to hand out.
    pub closed spec fn spec_next_index(self) -> int {
        self.next_k as int
    }

    /// A cursor standing at the first scale of the range.
    pub fn new(range: SweepRange) -> (c: ScaleCursor)
        requires
            range.wf(),
        ensures
            c.wf(),
            c.spec_range() == range,
            c.spec_next_index() == 0,
    {
        ScaleCursor { range, next_k: 0, scale: range.start }
    }

    /// The next scale to visit, or `None` when the range is exhausted;
    /// advances the cursor by one scale.
    pub fn next(&mut self) -> (r: Option<u32>)
        requires
            old(self).wf(),
        ensures
            final(self).wf(),
            final(self).spec_range() == old(self).spec_range(),
            old(self).spec_next_index() < old(self).spec_range().spec_count() ==> {
                &&& r == Some(
                    old(self).spec_range().spec_scale_at(old(self).spec_next_index()) as u32,
                )
                &&& final(self).spec_next_index() == old(self).spec_next_index() + 1
            },
            old(self).spec_next_index() >= old(self).spec_range().spec_count() ==> {
                &&& r is None
                &&& *final(self) == *old(self)
            },
    {
        let count = self.range.count();
        if self.next_k < count {
            let current = self.scale;
            proof {
                lemma_scale_at_bounded(self.range, self.next_k as int);
                if self.next_k as int + 1 < count {
                    lemma_scale_at_step(self.range, self.next_k as int);
                    lemma_scale_at_bounded(self.range, self.next_k as int + 1);
                }
            }
            self.next_k = self.next_k + 1;
            if self.next_k < count {
                self.scale = self.scale + self.range.step;
            }
            Some(current)
        } else {
            None
        }
    }
}

/// The position of a progress bar scaled to a thousand steps: the fraction
/// of the informational total budget already elapsed, clamped to one, in
/// thousandths. A zero budget counts as fully elapsed.
pub fn progress_permille(elapsed_nanos: u64, total_budget_nanos: u64) -> (p: u64)
    ensures
        p == (if total_budget_nanos > 0 && elapsed_nanos < total_budget_nanos {
            (elapsed_nanos * 1000) as int / total_budget_nanos as int
        } else {
            1000int
        }),
        p <= 1000,
{
    if total_budget_nanos > 0 && elapsed_nanos < total_budget_nanos {
        let wide = (elapsed_nanos as u128) * 1000;
        let p128 = wide / (total_budget_nanos as u128);
        proof {
            assert((elapsed_nanos as int * 1000) / (total_budget_nanos as int) < 1000)
                by (nonlinear_arith)
                requires
                    0 < total_budget_nanos,
                    elapsed_nanos < total_budget_nanos,
            ;
            assert((elapsed_nanos as int * 1000) / (total_budget_nanos as int) >= 0)
                by (nonlinear_arith)
                requires
                    0 < total_budget_nanos,
                    0 <= elapsed_nanos,
            ;
        }
        p128 as u64
    } else {
        1000
    }
}

} // verus!
