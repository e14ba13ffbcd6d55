use pulsar_topic_health::drain::{evaluate_drain, format_eta, Trend};
use pulsar_topic_health::number::Double;

fn double(x: f64) -> Double {
    Double { bits: x.to_bits() }
}

fn number(d: Double) -> f64 {
    f64::from_bits(d.bits)
}

fn eta(secs: f64) -> String {
    format_eta(double(secs))
}

#[test]
fn draining_projects_eta() {
    // 10000 -> 7000 over 30s = -100/s; 7000 / 100 = 70s to clear.
    let d = evaluate_drain(10_000, 7_000, double(30.0), double(0.01));
    assert_eq!(d.trend, Trend::Draining);
    assert_eq!(d.delta, -3000);
    assert!((number(d.net_per_sec) + 100.0).abs() < 1e-9);
    assert!((number(d.eta_secs.unwrap()) - 70.0).abs() < 1e-6);
}

#[test]
fn growing_has_no_eta() {
    let d = evaluate_drain(10_000, 13_000, double(30.0), double(0.01));
    assert_eq!(d.trend, Trend::Growing);
    assert!(d.eta_secs.is_none());
    assert!(number(d.net_per_sec) > 0.0);
}

#[test]
fn small_drift_is_stable() {
    // 50 message move on a 10000 backlog (0.5%) is below the 1% floor.
    let d = evaluate_drain(10_000, 9_950, double(30.0), double(0.01));
    assert_eq!(d.trend, Trend::Stable);
    assert!(d.eta_secs.is_none());
}

#[test]
fn empty_stays_empty() {
    let d = evaluate_drain(0, 0, double(30.0), double(0.01));
    assert_eq!(d.trend, Trend::Empty);
    assert!(d.eta_secs.is_none());
}

#[test]
fn eta_formatting() {
    assert_eq!(eta(30.0), "<1m");
    assert_eq!(eta(300.0), "5m");
    assert_eq!(eta(3600.0), "60m");
    assert_eq!(eta(3600.0 * 10.0), "10h");
    assert_eq!(eta(86400.0 * 5.0), "5.0d");
    assert_eq!(eta(86400.0 * 400.0), ">1y");
}

#[test]
fn eta_rounds_to_even() {
    // Two minutes and a half.
    assert_eq!(eta(150.0), "2m");
    assert_eq!(eta(210.0), "4m");
    assert_eq!(eta(150.5), "3m");
    // Two days and a quarter: 2.25 is halfway between two tenths.
    assert_eq!(eta(86400.0 * 2.25), "2.2d");
    // The last minute in front of an hour and a half, and behind it.
    assert_eq!(eta(5399.0), "90m");
    assert_eq!(eta(5400.0), "2h");
    assert_eq!(eta(f64::NAN), "—");
    assert_eq!(eta(f64::INFINITY), "—");
    assert_eq!(eta(-0.0), "<1m");
}

#[test]
fn one_percent_counts_as_movement() {
    assert_eq!(evaluate_drain(10_000, 9_900, double(30.0), double(0.01)).trend, Trend::Draining);
    assert_eq!(evaluate_drain(10_000, 9_901, double(30.0), double(0.01)).trend, Trend::Stable);
    assert_eq!(evaluate_drain(10_000, 10_100, double(30.0), double(0.01)).trend, Trend::Growing);
    // A small backlog moves by whole messages.
    assert_eq!(evaluate_drain(10, 9, double(30.0), double(0.01)).trend, Trend::Draining);
    assert_eq!(evaluate_drain(5, 5, double(30.0), double(0.01)).trend, Trend::Stable);
}

#[test]
fn trend_labels() {
    assert_eq!(Trend::Empty.label(), "empty");
    assert_eq!(Trend::Draining.label(), "draining");
    assert_eq!(Trend::Growing.label(), "growing");
    assert_eq!(Trend::Stable.label(), "stable");
}

#[test]
fn no_window_has_no_rate() {
    for window in [0.0, -1.0, f64::NAN] {
        let d = evaluate_drain(100, 50, double(window), double(0.01));
        assert_eq!(d.trend, Trend::Draining);
        assert_eq!(number(d.net_per_sec), 0.0);
        assert!(d.eta_secs.is_none());
    }
    assert_eq!(eta(-1.0), "—");
}

#[test]
fn rates_are_those_of_doubles() {
    let d = evaluate_drain(510, 500, double(3.0), double(0.01));
    let rate = -10.0 / 3.0;
    assert_eq!(number(d.net_per_sec), rate);
    assert_eq!(d.eta_secs.map(number), Some(500.0 / -rate));
}

#[test]
fn nothing_left_needs_no_eta() {
    let d = evaluate_drain(1000, 0, double(30.0), double(0.01));
    assert_eq!(d.trend, Trend::Draining);
    assert_eq!(d.delta, -1000);
    assert!(d.eta_secs.is_none());
}
