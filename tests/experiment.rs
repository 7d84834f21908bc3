use sort_bench::experiment::{decimal_string, generate_sample_sizes, ExperimentParameters, ExperimentProgress, SweepError};

fn sweep(samples: usize, variations: usize, duration: u128, min_calcs: usize) -> ExperimentParameters {
    ExperimentParameters::new(50, 50, variations, samples, duration, min_calcs, 3, false).unwrap()
}

#[test]
fn schedule_grows_by_the_step() {
    let sizes = generate_sample_sizes(50, 50);
    assert_eq!(sizes.len(), 100);
    for (i, s) in sizes.iter().enumerate() {
        assert_eq!(*s, 50 + 50 * i);
    }
    assert_eq!(&sizes[..3], &[50, 100, 150]);
}

#[test]
fn one_tick_per_step_walks_the_sweep() {
    let mut p = sweep(2, 2, 1_000_000_000, 1);
    assert_eq!(p.progress_experiment(1), Some(ExperimentProgress(0, 0, false)));
    assert_eq!((p.sample_index, p.variation_index), (1, 0));
    assert_eq!(p.progress_experiment(1), Some(ExperimentProgress(1, 0, false)));
    assert_eq!((p.sample_index, p.variation_index), (0, 1));
    assert_eq!(p.progress_experiment(1), Some(ExperimentProgress(0, 1, false)));
    assert_eq!(p.progress_experiment(1), Some(ExperimentProgress(1, 1, true)));
    assert_eq!(p.progress_experiment(1), None);
}

#[test]
fn elapsed_time_ends_a_step() {
    let mut p = sweep(3, 1, 10, 100);
    assert_eq!(p.progress_experiment(6), None);
    assert_eq!(p.current_calcs, 1);
    assert_eq!(p.current_sample_progress, 6);
    assert_eq!(p.progress_experiment(4), Some(ExperimentProgress(0, 0, false)));
    assert_eq!(p.current_calcs, 0);
    assert_eq!(p.current_sample_progress, 0);
    assert_eq!(p.current_sample_size(), 100);
}

#[test]
fn no_samples_finishes_on_the_first_tick() {
    let mut p = sweep(0, 1, 10, 1);
    assert_eq!(p.progress_experiment(0), Some(ExperimentProgress(0, 0, true)));
    assert_eq!(p.progress_experiment(0), None);
}

#[test]
fn no_samples_finishes_at_once_with_two_variations() {
    let mut p = sweep(0, 2, 1_000_000_000, 100);
    assert_eq!(p.progress_experiment(1), Some(ExperimentProgress(0, 0, true)));
    assert!(p.finished);
    assert_eq!(p.progress_experiment(1), None);
}

#[test]
fn too_many_samples_are_refused() {
    let r = ExperimentParameters::new(1, 1, 1, 101, 1, 1, 1, false);
    assert_eq!(r.err(), Some(SweepError::TooManySamples));
    assert!(ExperimentParameters::new(1, 1, 1, 100, 1, 1, 1, false).is_ok());
}

#[test]
fn labels_are_decimal() {
    let mut p = sweep(3, 1, 10, 1);
    assert_eq!(p.current_sample_size_str(), "50");
    p.progress_experiment(0);
    assert_eq!(p.current_sample_size_str(), "100");
    assert_eq!(p.relevant_samples(), vec!["50".to_string(), "100".to_string(), "150".to_string()]);
}

#[test]
fn next_sample_and_variation_report_the_end() {
    let mut p = sweep(2, 2, 10, 1);
    assert!(p.next_sample());
    assert!(!p.next_sample());
    assert!(p.next_variation());
    assert!(!p.next_variation());
}

#[test]
fn decimal_string_writes_plain_digits() {
    assert_eq!(decimal_string(0), "0");
    assert_eq!(decimal_string(7), "7");
    assert_eq!(decimal_string(10), "10");
    assert_eq!(decimal_string(1234), "1234");
    assert_eq!(decimal_string(usize::MAX), usize::MAX.to_string());
}
