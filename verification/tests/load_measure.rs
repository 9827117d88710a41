//! Schedules, samples and file descriptors.

use lug::json::{Json, Number};
use lug::load::measure::{check_fd_growth, offset, Latency, Metrics};

const SECOND: u64 = 1_000_000_000;

#[test]
fn latency_includes_queueing_not_just_round_trip() {
    let start: u64 = 5 * SECOND;
    let mut h = Latency::new().unwrap();
    for n in 0..1000 {
        h.record(start + offset(n, 1000), start + 2 * SECOND).unwrap();
    }
    assert_eq!(h.count(), 1000);
    assert!(h.samples().inner.value_at_quantile(0.5) > 1_400_000);
    assert!(h.samples().inner.value_at_quantile(0.999) >= 1_990_000);
}

#[test]
fn schedule_is_absolute_and_has_no_cumulative_roundoff() {
    assert_eq!(offset(3, 3), SECOND);
    assert_eq!(offset(10_000, 10_000), SECOND);
}

#[test]
fn fd_check_uses_fixed_baseline_not_moving_goalposts() {
    assert!(check_fd_growth(20, 20, 0).is_ok());
    assert!(check_fd_growth(20, 21, 0).is_err());
    assert!(check_fd_growth(20, 22, 2).is_ok());
    assert!(check_fd_growth(20, 23, 2).is_err());
}

#[test]
fn empty_histogram_is_not_zero_latency() {
    assert!(matches!(field(&Latency::new().unwrap(), "p99_us"), Json::Null));
}

/// What a latency reports of itself under a name, with the quantiles of its
/// samples.
fn field(latency: &Latency, name: &str) -> Json {
    let samples = &latency.samples().inner;
    let [p50, p99, p999] = [0.5, 0.99, 0.999].map(|q| samples.value_at_quantile(q));
    let Json::Object(fields) = latency.json(p50, p99, p999) else {
        panic!("not an object");
    };
    fields.into_iter().find(|(key, _)| key == name).expect("a field").1
}

#[test]
fn latencies_report_their_quantiles() {
    let mut latency = Latency::new().unwrap();
    for micros in 1..=100u64 {
        latency.record(0, micros * 1000).unwrap();
    }
    for (name, value) in [("count", 100), ("p50_us", 50), ("p99_us", 99), ("p999_us", 100)] {
        assert_eq!(field(&latency, name), Json::Number(Number::Unsigned(value)), "{name}");
    }
}

#[test]
fn samples_keep_eleven_binary_digits() {
    let pairs = [(2047, 2047), (2048, 2048), (2049, 2048), (4099, 4096), (1_234_567, 1_233_920)];
    for (micros, kept) in pairs {
        let mut latency = Latency::new().unwrap();
        latency.record(0, micros * 1000).unwrap();
        let samples = &latency.samples().inner;
        assert_eq!(samples.lowest_equivalent(samples.max()), kept, "{micros}");
    }
}

#[test]
fn latencies_are_whole_microseconds_and_never_none() {
    let mut latency = Latency::new().unwrap();
    latency.record(5, 5).unwrap();
    latency.record(0, 1001).unwrap();
    latency.record(0, 1_234_567_000).unwrap();
    let samples = &latency.samples().inner;
    assert_eq!(samples.min(), 1);
    assert_eq!(samples.value_at_quantile(0.5), 2);
    // Three significant digits are kept.
    assert_eq!(samples.lowest_equivalent(samples.max()), samples.lowest_equivalent(1_234_567));
    assert_eq!(
        latency.record(2, 1).unwrap_err().message,
        "observation precedes intended send time"
    );
    assert_eq!(latency.count(), 3);
    latency.record(0, u64::MAX).unwrap();
    assert_eq!(latency.count(), 4);
}

#[test]
fn leaks_say_how_many() {
    assert_eq!(
        check_fd_growth(20, 23, 2).unwrap_err().message,
        "FD LEAK: quiescent server fds grew from 20 to 23, allowed slack 2"
    );
    assert!(check_fd_growth(usize::MAX, usize::MAX, 1).is_ok());
    assert_eq!(Metrics::new().unwrap().scheduled, 0);
}
