use hevc_grain::profile::{print_report, time, Metric, MetricId, Profile};

#[test]
fn new_metric_is_zero() {
    let m = Metric::new();
    assert_eq!((m.nanos, m.count), (0, 0));
}

#[test]
fn time_returns_what_the_step_returns() {
    let base = 20;
    assert_eq!(time(MetricId::ReaderCopyY, || base + 22), 42);
}

#[test]
fn nothing_is_reported_of_a_run_without_steps() {
    assert!(print_report(&Profile::new()).is_empty());
}

#[test]
fn steps_are_reported_in_their_order() {
    let mut profile = Profile::new();
    profile.record(MetricId::ReaderCopyV, 5);
    profile.record(MetricId::SourceGetFrame, 7);
    profile.record(MetricId::ReaderCopyV, 6);
    let rows = print_report(&profile);
    let seen: Vec<(&str, u64, u64)> = rows.iter().map(|r| (r.label, r.count, r.nanos)).collect();
    assert_eq!(seen, vec![("source_get_frame", 1, 7), ("reader_copy_v", 2, 11)]);
}

#[test]
fn long_steps_count_as_the_longest_that_can_be_told() {
    let mut profile = Profile::new();
    profile.record(MetricId::OutputWrite, u128::from(u64::MAX) + 10);
    let rows = print_report(&profile);
    assert_eq!((rows[0].label, rows[0].nanos), ("output_write", u64::MAX));
}

#[test]
fn sums_wrap_around() {
    let mut profile = Profile::new();
    profile.record(MetricId::ConsumerRecv, u128::from(u64::MAX));
    profile.record(MetricId::ConsumerRecv, 3);
    assert_eq!(profile.metrics[MetricId::ConsumerRecv.index()].nanos, 2);
}
