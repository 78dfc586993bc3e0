use statsd_client::wire::{push_decimal, render, MetricKind, MAX_UDP_PAYLOAD};
use statsd_client::{SendStats, StatsdOutlet};
use std::cell::RefCell;

struct Recorder(RefCell<Vec<String>>);

impl SendStats for Recorder {
    fn send_stats(&self, str: String) {
        self.0.borrow_mut().push(str);
    }
}

fn outlet(prefix: &str, rate: &str) -> StatsdOutlet<Recorder> {
    StatsdOutlet::outlet(Recorder(RefCell::new(Vec::new())), prefix, rate).unwrap()
}

fn sent(outlet: &StatsdOutlet<Recorder>) -> Vec<String> {
    outlet.sender().0.borrow().clone()
}

fn decimal(value: u64) -> String {
    let mut buffer = String::new();
    push_decimal(&mut buffer, value);
    buffer
}

#[test]
fn packet_budget_is_576_bytes() {
    assert_eq!(MAX_UDP_PAYLOAD, 576);
}

#[test]
fn numbers_are_written_in_decimal() {
    assert_eq!(decimal(0), "0");
    assert_eq!(decimal(9), "9");
    assert_eq!(decimal(10), "10");
    assert_eq!(decimal(1234567890), "1234567890");
    assert_eq!(decimal(u64::MAX), "18446744073709551615");
    for value in [1u64, 7, 42, 99, 100, 101, 65535, 4294967296, 999999999999] {
        assert_eq!(decimal(value), value.to_string());
    }
}

#[test]
fn decimal_is_appended_to_what_the_buffer_holds() {
    let mut buffer = String::from("key:");
    push_decimal(&mut buffer, 305);
    assert_eq!(buffer, "key:305");
}

#[test]
fn render_concatenates_the_parts() {
    assert_eq!(render("app.", "hits", 22, "|c"), "app.hits:22|c");
    assert_eq!(render("", "bouring", 22, "|c|@0.999"), "bouring:22|c|@0.999");
    assert_eq!(render("", "", 0, ""), ":0");
}

#[test]
fn render_does_not_truncate() {
    let key = "k".repeat(1000);
    let payload = render("p.", &key, 1, "|g");
    assert_eq!(payload.len(), 2 + 1000 + 1 + 1 + 2);
    assert!(payload.ends_with(":1|g"));
}

#[test]
fn send_writes_one_payload_per_kind() {
    let mut statsd = outlet("svc.", "1");
    statsd.send(MetricKind::Count, "a", 1);
    statsd.send(MetricKind::Gauge, "b", 2);
    statsd.send(MetricKind::Time, "c", 3);
    statsd.send_time_ms("d", 4);
    assert_eq!(sent(&statsd), vec!["svc.a:1|c", "svc.b:2|g", "svc.c:3|ms", "svc.d:4|ms"]);
}

#[test]
fn send_names_the_rate_below_the_full_rate() {
    let mut statsd = outlet("svc.", "0.25");
    statsd.send(MetricKind::Count, "a", 1);
    statsd.send(MetricKind::Gauge, "b", 2);
    statsd.send(MetricKind::Time, "c", 3);
    assert_eq!(sent(&statsd), vec!["svc.a:1|c|@0.25", "svc.b:2|g|@0.25", "svc.c:3|ms|@0.25"]);
}

#[test]
fn the_rate_is_named_as_it_was_given() {
    let mut statsd = outlet("", "0.50");
    statsd.send(MetricKind::Count, "a", 1);
    let mut zero = outlet("", "-0");
    zero.send(MetricKind::Count, "a", 1);
    let mut whole = outlet("", "1.0");
    whole.send(MetricKind::Count, "a", 1);
    assert_eq!(sent(&statsd), vec!["a:1|c|@0.50"]);
    assert_eq!(sent(&zero), vec!["a:1|c|@-0"]);
    assert_eq!(sent(&whole), vec!["a:1|c"]);
}

#[test]
fn the_prefix_is_used_as_given() {
    let mut statsd = outlet("a.b.c", "1");
    statsd.send(MetricKind::Count, "key", 5);
    assert_eq!(sent(&statsd), vec!["a.b.ckey:5|c"]);
}
