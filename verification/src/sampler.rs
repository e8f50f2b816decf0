//! The bounded sampler: for one scale parameter, invocations are timed one
//! after another, and after each one the engine decides whether to keep the
//! measurement and go on, to stop because the per-parameter budget is
//! exhausted, or to stop because the invocation failed.
//!
//! A sampling run is modelled as the sequence of events it reacts to: each
//! event is the elapsed time since the run began, taken right after an
//! invocation returned, paired with that invocation's outcome. The caller
//! performs the invocations and the timing; the decision itself is
//! [`sampler_step`], and the samples a whole run yields are
//! [`sampler_yields`].

use vstd::prelude::*;

use crate::sample::{InvocationOutcome, Sample, StopReason};

verus! {

/// One event a sampling run reacts to: the elapsed time since the run
/// started, in nanoseconds, observed right after an invocation returned,
/// together with that invocation's outcome.
pub type SamplerEvent = (u64, InvocationOutcome);

/// What the sampler does after one event: yield a sample and continue, or
/// stop the run.
#[derive(Clone, Copy, PartialEq, Eq, Structural, Debug)]
pub enum SamplerStep {
    Emit(Sample),
    Stop(StopReason),
}

/// The sampling policy for a single event. The budget check comes first:
/// an invocation that pushes the elapsed time to the budget or past it
/// yields nothing, even when it succeeded. Within budget, a failure stops
/// the run (and, at the sweep level, the whole sweep), and a success
/// yields one sample carrying the invocation's own duration.
pub open spec fn sampler_decision(
    scale: u32,
    budget_nanos: u64,
    elapsed_nanos: u64,
    outcome: InvocationOutcome,
) -> SamplerStep {
    if elapsed_nanos >= budget_nanos {
        SamplerStep::Stop(StopReason::BudgetExhausted)
    } else {
        match outcome {
            InvocationOutcome::Failed(_) => SamplerStep::Stop(StopReason::Failure),
            InvocationOutcome::Completed(d) => SamplerStep::Emit(
                Sample { scale, duration_nanos: d },
            ),
        }
    }
}

/// Decides what a sampling run for `scale` does after one timed invocation.
pub fn sampler_step(
    scale: u32,
    budget_nanos: u64,
    elapsed_nanos: u64,
    outcome: InvocationOutcome,
) -> (r: SamplerStep)
    ensures
        r == sampler_decision(scale, budget_nanos, elapsed_nanos, outcome),
{
    if elapsed_nanos >= budget_nanos {
        SamplerStep::Stop(StopReason::BudgetExhausted)
    } else {
        match outcome {
            InvocationOutcome::Failed(_) => SamplerStep::Stop(StopReason::Failure),
            InvocationOutcome::Completed(d) => SamplerStep::Emit(
                Sample { scale, duration_nanos: d },
            ),
        }
    }
}

/// The samples a whole run yields when it reacts to `events` in order:
/// every event up to (and excluding) the first stopping event contributes
/// exactly one sample.
pub open spec fn sampler_yields(
    scale: u32,
    budget_nanos: u64,
    events: Seq<SamplerEvent>,
) -> Seq<Sample>
    decreases events.len(),
{
    if events.len() == 0 {
        Seq::empty()
    } else {
        match sampler_decision(scale, budget_nanos, events[0].0, events[0].1) {
            SamplerStep::Emit(s) => seq![s] + sampler_yields(
                scale,
                budget_nanos,
                events.drop_first(),
            ),
            SamplerStep::Stop(_) => Seq::empty(),
        }
    }
}

/// How a run over `events` stopped, or `None` when the events ran out
/// before any event stopped it.
pub open spec fn sampler_stop(
    scale: u32,
    budget_nanos: u64,
    events: Seq<SamplerEvent>,
) -> Option<StopReason>
    decreases events.len(),
{
    if events.len() == 0 {
        None
    } else {
        match sampler_decision(scale, budget_nanos, events[0].0, events[0].1) {
            SamplerStep::Emit(_) => sampler_stop(scale, budget_nanos, events.drop_first()),
            SamplerStep::Stop(r) => Some(r),
        }
    }
}

/// Budget law: a bounded sampling run never yields a sample past its
/// budget. Every yielded sample comes from the event of the same position,
/// that event's elapsed time is strictly below the budget (in particular it
/// precedes the first invocation to push the elapsed time to the budget or
/// beyond), its invocation succeeded, and the sample records that
/// invocation's duration for this scale.
pub proof fn lemma_sampler_within_budget(
    scale: u32,
    budget_nanos: u64,
    events: Seq<SamplerEvent>,
)
    ensures
        sampler_yields(scale, budget_nanos, events).len() <= events.len(),
        forall|i: int|
            0 <= i < sampler_yields(scale, budget_nanos, events).len() ==> {
                &&& events[i].0 < budget_nanos
                &&& events[i].1 matches InvocationOutcome::Completed(_)
                &&& #[trigger] sampler_yields(scale, budget_nanos, events)[i] == (Sample {
                    scale,
                    duration_nanos: events[i].1.spec_duration(),
                })
            },
    decreases events.len(),
{
    if events.len() > 0 {
        match sampler_decision(scale, budget_nanos, events[0].0, events[0].1) {
            SamplerStep::Emit(_) => {
                lemma_sampler_within_budget(scale, budget_nanos, events.drop_first());
                let ys = sampler_yields(scale, budget_nanos, events);
                let ys_rest = sampler_yields(scale, budget_nanos, events.drop_first());
                assert forall|i: int| 0 <= i < ys.len() implies {
                    &&& events[i].0 < budget_nanos
                    &&& events[i].1 matches InvocationOutcome::Completed(_)
                    &&& ys[i] == (Sample { scale, duration_nanos: events[i].1.spec_duration() })
                } by {
                    if i > 0 {
                        assert(ys[i] == ys_rest[i - 1]);
                        assert(events[i] == events.drop_first()[i - 1]);
                    }
                }
            },
            SamplerStep::Stop(_) => {},
        }
    }
}

/// Appending one more event to a run that has not stopped yet extends it by
/// exactly what the sampling policy decides for that event.
pub proof fn lemma_sampler_extend(
    scale: u32,
    budget_nanos: u64,
    events: Seq<SamplerEvent>,
    e: SamplerEvent,
)
    requires
        sampler_stop(scale, budget_nanos, events) is None,
    ensures
        sampler_yields(scale, budget_nanos, events.push(e)) == (match sampler_decision(
            scale,
            budget_nanos,
            e.0,
            e.1,
        ) {
            SamplerStep::Emit(s) => sampler_yields(scale, budget_nanos, events).push(s),
            SamplerStep::Stop(_) => sampler_yields(scale, budget_nanos, events),
        }),
        sampler_stop(scale, budget_nanos, events.push(e)) == (match sampler_decision(
            scale,
            budget_nanos,
            e.0,
            e.1,
        ) {
            SamplerStep::Emit(_) => None::<StopReason>,
            SamplerStep::Stop(r) => Some(r),
        }),
    decreases events.len(),
{
    if events.len() == 0 {
        assert(events.push(e)[0] == e);
        assert(events.push(e).drop_first() =~= Seq::<SamplerEvent>::empty());
        assert(sampler_yields(scale, budget_nanos, Seq::<SamplerEvent>::empty())
            == Seq::<Sample>::empty());
        assert(sampler_stop(scale, budget_nanos, Seq::<SamplerEvent>::empty())
            == None::<StopReason>);
        match sampler_decision(scale, budget_nanos, e.0, e.1) {
            SamplerStep::Emit(s) => {
                assert(sampler_yields(scale, budget_nanos, events.push(e)) =~= seq![s]);
                assert(sampler_yields(scale, budget_nanos, events).push(s) =~= seq![s]);
            },
            SamplerStep::Stop(_) => {},
        }
    } else {
        assert(events.push(e)[0] == events[0]);
        assert(events.push(e).drop_first() =~= events.drop_first().push(e));
        match sampler_decision(scale, budget_nanos, events[0].0, events[0].1) {
            SamplerStep::Emit(s0) => {
                lemma_sampler_extend(scale, budget_nanos, events.drop_first(), e);
                match sampler_decision(scale, budget_nanos, e.0, e.1) {
                    SamplerStep::Emit(s) => {
                        assert(sampler_yields(scale, budget_nanos, events.push(e)) =~= seq![s0]
                            + sampler_yields(scale, budget_nanos, events.drop_first()).push(s));
                        assert((seq![s0] + sampler_yields(
                            scale,
                            budget_nanos,
                            events.drop_first(),
                        ).push(s)) =~= sampler_yields(scale, budget_nanos, events).push(s));
                    },
                    SamplerStep::Stop(_) => {},
                }
            },
            SamplerStep::Stop(_) => {},
        }
    }
}

/// Replays a finished sampling run from its recorded events: the samples it
/// yielded, in order, and how it stopped (`None` when the recorded events
/// ran out while the run was still going).
pub fn replay_sampling(
    scale: u32,
    budget_nanos: u64,
    events: &Vec<SamplerEvent>,
) -> (r: (Vec<Sample>, Option<StopReason>))
    ensures
        r.0@ == sampler_yields(scale, budget_nanos, events@),
        r.1 == sampler_stop(scale, budget_nanos, events@),
{
    let mut out: Vec<Sample> = Vec::new();
    let mut stop: Option<StopReason> = None;
    let mut i: usize = 0;
    proof {
        assert(events@.subrange(0, 0) =~= Seq::<SamplerEvent>::empty());
    }
    while i < events.len() && stop.is_none()
        invariant
            0 <= i <= events@.len(),
            out@ == sampler_yields(scale, budget_nanos, events@.subrange(0, i as int)),
            stop == sampler_stop(scale, budget_nanos, events@.subrange(0, i as int)),
            stop is Some ==> i == events@.len(),
        decreases events@.len() - i,
    {
        let (elapsed, outcome) = events[i];
        proof {
            lemma_sampler_extend(
                scale,
                budget_nanos,
                events@.subrange(0, i as int),
                events@[i as int],
            );
            assert(events@.subrange(0, i as int).push(events@[i as int]) =~= events@.subrange(
                0,
                i as int + 1,
            ));
        }
        match sampler_step(scale, budget_nanos, elapsed, outcome) {
            SamplerStep::Emit(s) => {
                out.push(s);
                i = i + 1;
            },
            SamplerStep::Stop(r) => {
                stop = Some(r);
                // A stopping event ends the run: later events change nothing.
                proof {
                    assert(events@.subrange(0, events@.len() as int) =~= events@);
                    lemma_sampler_stopped_prefix(scale, budget_nanos, events@, i as int + 1);
                }
                i = events.len();
            },
        }
    }
    proof {
        assert(events@.subrange(0, events@.len() as int) =~= events@);
    }
    (out, stop)
}

/// Once a prefix of the events has stopped the run, the whole event
/// sequence yields and stops exactly as that prefix does.
pub proof fn lemma_sampler_stopped_prefix(
    scale: u32,
    budget_nanos: u64,
    events: Seq<SamplerEvent>,
    n: int,
)
    requires
        0 <= n <= events.len(),
        sampler_stop(scale, budget_nanos, events.subrange(0, n)) is Some,
    ensures
        sampler_yields(scale, budget_nanos, events) == sampler_yields(
            scale,
            budget_nanos,
            events.subrange(0, n),
        ),
        sampler_stop(scale, budget_nanos, events) == sampler_stop(
            scale,
            budget_nanos,
            events.subrange(0, n),
        ),
    decreases n,
{
    let pre = events.subrange(0, n);
    match sampler_decision(scale, budget_nanos, pre[0].0, pre[0].1) {
        SamplerStep::Emit(_) => {
            assert(events[0] == pre[0]);
            assert(events.drop_first().subrange(0, n - 1) =~= pre.drop_first());
            lemma_sampler_stopped_prefix(scale, budget_nanos, events.drop_first(), n - 1);
        },
        SamplerStep::Stop(_) => {
            assert(events[0] == pre[0]);
        },
    }
}

} // verus!
