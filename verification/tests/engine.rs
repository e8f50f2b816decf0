use timed_sweep::bounds::dataset_bounds;
use timed_sweep::sample::{InvocationOutcome, Sample, StopReason, SweepRange};
use timed_sweep::sampler::{replay_sampling, sampler_step, SamplerStep};
use timed_sweep::sweep::{progress_permille, replay_sweep, ScaleCursor};
use timed_sweep::trace::format_row;

const MS: u64 = 1_000_000;

fn sample(scale: u32, duration_nanos: u64) -> Sample {
    Sample { scale, duration_nanos }
}

#[test]
fn outcome_reports_duration_and_success() {
    let ok = InvocationOutcome::Completed(5);
    let bad = InvocationOutcome::Failed(7);
    assert!(ok.is_success());
    assert!(!bad.is_success());
    assert_eq!(ok.duration_nanos(), 5);
    assert_eq!(bad.duration_nanos(), 7);
}

#[test]
fn step_emits_within_budget() {
    let r = sampler_step(7, 10 * MS, 3 * MS, InvocationOutcome::Completed(2 * MS));
    assert_eq!(r, SamplerStep::Emit(sample(7, 2 * MS)));
}

#[test]
fn step_stops_at_budget_boundary() {
    let r = sampler_step(7, 10 * MS, 10 * MS, InvocationOutcome::Completed(MS));
    assert_eq!(r, SamplerStep::Stop(StopReason::BudgetExhausted));
}

#[test]
fn step_stops_past_budget_even_on_success() {
    let r = sampler_step(7, 10 * MS, 11 * MS, InvocationOutcome::Completed(MS));
    assert_eq!(r, SamplerStep::Stop(StopReason::BudgetExhausted));
}

#[test]
fn step_stops_on_failure_within_budget() {
    let r = sampler_step(7, 10 * MS, 3 * MS, InvocationOutcome::Failed(2 * MS));
    assert_eq!(r, SamplerStep::Stop(StopReason::Failure));
}

#[test]
fn step_budget_check_precedes_failure_check() {
    let r = sampler_step(7, 10 * MS, 10 * MS, InvocationOutcome::Failed(MS));
    assert_eq!(r, SamplerStep::Stop(StopReason::BudgetExhausted));
}

#[test]
fn sampling_yields_until_budget() {
    let events = vec![
        (1 * MS, InvocationOutcome::Completed(1 * MS)),
        (2 * MS, InvocationOutcome::Completed(1 * MS)),
        (3 * MS, InvocationOutcome::Completed(1 * MS)),
    ];
    let (samples, stop) = replay_sampling(4, 3 * MS, &events);
    assert_eq!(samples, vec![sample(4, 1 * MS), sample(4, 1 * MS)]);
    assert_eq!(stop, Some(StopReason::BudgetExhausted));
}

#[test]
fn sampling_yields_nothing_on_immediate_failure() {
    let events = vec![(1 * MS, InvocationOutcome::Failed(1 * MS))];
    let (samples, stop) = replay_sampling(5, 10 * MS, &events);
    assert!(samples.is_empty());
    assert_eq!(stop, Some(StopReason::Failure));
}

#[test]
fn sampling_keeps_samples_before_failure() {
    let events = vec![
        (1 * MS, InvocationOutcome::Completed(1 * MS)),
        (2 * MS, InvocationOutcome::Failed(1 * MS)),
    ];
    let (samples, stop) = replay_sampling(5, 10 * MS, &events);
    assert_eq!(samples, vec![sample(5, 1 * MS)]);
    assert_eq!(stop, Some(StopReason::Failure));
}

#[test]
fn one_sample_per_scale_until_first_success_budget() {
    // Range {1,2,3}; every invocation succeeds after one millisecond, and
    // the per-parameter budget admits exactly the first invocation.
    let range = SweepRange { start: 1, end: 3, step: 1 };
    let per_scale = vec![
        (1 * MS, InvocationOutcome::Completed(1 * MS)),
        (2 * MS, InvocationOutcome::Completed(1 * MS)),
    ];
    let events = vec![per_scale.clone(), per_scale.clone(), per_scale.clone()];
    let (dataset, halted) = replay_sweep(range, 15 * MS / 10, &events);
    assert!(!halted);
    assert_eq!(
        dataset,
        vec![sample(1, 1 * MS), sample(2, 1 * MS), sample(3, 1 * MS)]
    );
    let rows: Vec<String> = dataset.iter().map(format_row).collect();
    assert_eq!(rows, vec!["1,0.001000000", "2,0.001000000", "3,0.001000000"]);
}

#[test]
fn failure_halts_whole_sweep() {
    // The fifth scale fails on its first try: it contributes no sample and
    // the sweep stops, keeping everything sampled before it.
    let range = SweepRange { start: 1, end: 8, step: 1 };
    let good = vec![
        (1 * MS, InvocationOutcome::Completed(1 * MS)),
        (2 * MS, InvocationOutcome::Completed(1 * MS)),
    ];
    let bad = vec![(1 * MS, InvocationOutcome::Failed(1 * MS))];
    let events = vec![
        good.clone(),
        good.clone(),
        good.clone(),
        good.clone(),
        bad,
        good.clone(),
    ];
    let (dataset, halted) = replay_sweep(range, 10 * MS, &events);
    assert!(halted);
    assert_eq!(
        dataset,
        vec![
            sample(1, 1 * MS),
            sample(1, 1 * MS),
            sample(2, 1 * MS),
            sample(2, 1 * MS),
            sample(3, 1 * MS),
            sample(3, 1 * MS),
            sample(4, 1 * MS),
            sample(4, 1 * MS),
        ]
    );
    assert!(dataset.iter().all(|s| s.scale < 5));
}

#[test]
fn empty_range_gives_empty_dataset_and_degenerate_bounds() {
    let range = SweepRange { start: 3, end: 2, step: 1 };
    let events: Vec<Vec<(u64, InvocationOutcome)>> = Vec::new();
    let (dataset, halted) = replay_sweep(range, 10 * MS, &events);
    assert!(dataset.is_empty());
    assert!(!halted);
    assert_eq!(dataset_bounds(&dataset), None);
}

#[test]
fn zero_sample_scale_is_not_an_error() {
    // A budget of zero stops every scale before its first sample, and the
    // sweep still visits every scale.
    let range = SweepRange { start: 1, end: 3, step: 1 };
    let per_scale = vec![(1 * MS, InvocationOutcome::Completed(1 * MS))];
    let events = vec![per_scale.clone(), per_scale.clone(), per_scale.clone()];
    let (dataset, halted) = replay_sweep(range, 0, &events);
    assert!(dataset.is_empty());
    assert!(!halted);
}

#[test]
fn bounds_are_true_minima_and_maxima() {
    let data = vec![sample(1, 5), sample(3, 2), sample(2, 9)];
    let b = dataset_bounds(&data).unwrap();
    assert_eq!(b.scale_min, 1);
    assert_eq!(b.scale_max, 3);
    assert_eq!(b.duration_min, 2);
    assert_eq!(b.duration_max, 9);
    for s in &data {
        assert!(b.scale_min <= s.scale && s.scale <= b.scale_max);
        assert!(b.duration_min <= s.duration_nanos && s.duration_nanos <= b.duration_max);
    }
}

#[test]
fn bounds_of_single_sample_collapse() {
    let data = vec![sample(4, 7)];
    let b = dataset_bounds(&data).unwrap();
    assert_eq!((b.scale_min, b.scale_max), (4, 4));
    assert_eq!((b.duration_min, b.duration_max), (7, 7));
}

#[test]
fn cursor_walks_range_inclusive() {
    let mut c = ScaleCursor::new(SweepRange { start: 2, end: 10, step: 3 });
    assert_eq!(c.next(), Some(2));
    assert_eq!(c.next(), Some(5));
    assert_eq!(c.next(), Some(8));
    assert_eq!(c.next(), None);
    assert_eq!(c.next(), None);
}

#[test]
fn cursor_hits_end_exactly() {
    let mut c = ScaleCursor::new(SweepRange { start: 1, end: 3, step: 1 });
    assert_eq!(c.next(), Some(1));
    assert_eq!(c.next(), Some(2));
    assert_eq!(c.next(), Some(3));
    assert_eq!(c.next(), None);
}

#[test]
fn cursor_on_empty_range_is_done_at_once() {
    let mut c = ScaleCursor::new(SweepRange { start: 5, end: 4, step: 1 });
    assert_eq!(c.next(), None);
}

#[test]
fn progress_scales_and_clamps() {
    assert_eq!(progress_permille(0, 1000), 0);
    assert_eq!(progress_permille(500, 1000), 500);
    assert_eq!(progress_permille(999, 1000), 999);
    assert_eq!(progress_permille(1000, 1000), 1000);
    assert_eq!(progress_permille(2000, 1000), 1000);
    assert_eq!(progress_permille(1, 3), 333);
    assert_eq!(progress_permille(7, 0), 1000);
    assert_eq!(progress_permille(u64::MAX - 1, u64::MAX), 999);
}
