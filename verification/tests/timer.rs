use statsd_client::pcg32::Pcg32;
use statsd_client::{SendStats, StartTime, StatsdOutlet};
use std::cell::RefCell;
use std::time::{Duration, Instant};

struct Recorder(RefCell<Vec<String>>);

impl SendStats for Recorder {
    fn send_stats(&self, str: String) {
        self.0.borrow_mut().push(str);
    }
}

/// Spins until `millis` milliseconds have passed.
fn wait_ms(millis: u64) {
    let begin = Instant::now();
    while begin.elapsed() < Duration::from_millis(millis) {
        std::hint::spin_loop();
    }
}

fn outlet(prefix: &str, rate: &str) -> StatsdOutlet<Recorder> {
    StatsdOutlet::outlet(Recorder(RefCell::new(Vec::new())), prefix, rate).unwrap()
}

fn sent(outlet: &StatsdOutlet<Recorder>) -> Vec<String> {
    outlet.sender().0.borrow().clone()
}

#[test]
fn elapsed_time_is_floored_to_whole_milliseconds() {
    assert_eq!(StartTime::from_nanos(1_000_000).elapsed_ms_at(3_500_000), 2);
    assert_eq!(StartTime::from_nanos(0).elapsed_ms_at(999_999), 0);
    assert_eq!(StartTime::from_nanos(0).elapsed_ms_at(1_000_000), 1);
    assert_eq!(StartTime::from_nanos(5).elapsed_ms_at(5), 0);
    assert_eq!(StartTime::from_nanos(0).elapsed_ms_at(u64::MAX), 18_446_744_073_709);
}

#[test]
fn a_clock_that_has_not_moved_forward_gives_no_elapsed_time() {
    assert_eq!(StartTime::from_nanos(3_500_000).elapsed_ms_at(1_000_000), 0);
    assert_eq!(StartTime::from_nanos(u64::MAX).elapsed_ms_at(0), 0);
}

#[test]
fn elapsed_time_is_read_from_the_clock() {
    let statsd = outlet("", "1");
    let start_time = statsd.start_time();
    wait_ms(20);
    let elapsed = start_time.elapsed_ms();
    assert!(elapsed >= 20, "{}", elapsed);
    assert!(elapsed < 20_000, "{}", elapsed);
}

#[test]
fn a_start_time_in_the_past_of_the_clock_has_elapsed() {
    assert!(StartTime::from_nanos(0).elapsed_ms() > 0);
}

#[test]
fn timer_round_trip_reports_the_elapsed_milliseconds() {
    let mut statsd = outlet("", "1");
    let mut generator = Pcg32::from_state(0x853c_49e6_748f_ea9b);
    let start_time = statsd.start_time();
    statsd.stop_time(&mut generator, "berry", start_time);
    let payloads = sent(&statsd);
    assert_eq!(payloads.len(), 1);
    let payload = &payloads[0];
    assert!(payload.starts_with("berry:"));
    assert!(payload.ends_with("|ms"));
    let value = &payload["berry:".len()..payload.len() - "|ms".len()];
    let elapsed: u64 = value.parse().unwrap();
    assert!(elapsed < 10_000, "{}", elapsed);
}

#[test]
fn stop_time_reports_what_has_elapsed() {
    let mut statsd = outlet("app.", "1");
    let mut generator = Pcg32::from_state(0x853c_49e6_748f_ea9b);
    let start_time = statsd.start_time();
    wait_ms(30);
    statsd.stop_time(&mut generator, "nap", start_time);
    let payloads = sent(&statsd);
    assert_eq!(payloads.len(), 1);
    let value = &payloads[0]["app.nap:".len()..payloads[0].len() - "|ms".len()];
    let elapsed: u64 = value.parse().unwrap();
    assert!(elapsed >= 30, "{}", elapsed);
}

#[test]
fn stop_time_sends_nothing_when_the_sample_is_rejected() {
    let mut statsd = outlet("", "0");
    let mut generator = Pcg32::seeded();
    for _ in 0..100 {
        let start_time = statsd.start_time();
        statsd.stop_time(&mut generator, "berry", start_time);
    }
    assert!(sent(&statsd).is_empty());
}

#[test]
fn timing_a_computation_hands_back_its_result() {
    let mut statsd = outlet("", "1");
    let mut generator = Pcg32::from_state(0x853c_49e6_748f_ea9b);
    let doubled = statsd.time(&mut generator, "double", || {
        wait_ms(10);
        21 * 2
    });
    assert_eq!(doubled, 42);
    let payloads = sent(&statsd);
    assert_eq!(payloads.len(), 1);
    let value = &payloads[0]["double:".len()..payloads[0].len() - "|ms".len()];
    let elapsed: u64 = value.parse().unwrap();
    assert!(elapsed >= 10, "{}", elapsed);
}
