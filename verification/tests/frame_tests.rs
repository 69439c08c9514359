use metco::metrics::Metric;
use metco::metrics::MetricKind;
use metco::metrics::Registry;
use metco::protocol::parse_protocol;
use metco::stats::Statistics;

fn feed(registry: &mut Registry, payload: &str) {
    for metric in parse_protocol(payload) {
        assert!(registry.add(&metric));
    }
}

#[test]
fn counters_aggregate_into_statistics() {
    let mut registry = Registry::default();
    feed(&mut registry, "abc|c|12\nabc|c|8");

    let frame = registry.finalize().unwrap();
    let stats = frame.counters.get("abc").unwrap();

    assert_eq!(2, stats.count());
    assert_eq!(20, stats.sum());
    let avg = stats.sum() as f64 / stats.count() as f64;
    assert_eq!(10.0, avg);
    let (lo, hi) = stats.median_pair();
    assert_eq!(10.0, (lo as f64 + hi as f64) / 2.0);
    assert_eq!(12, stats.percentile(75, 100));
}

#[test]
fn gauge_modifications_accumulate() {
    let mut registry = Registry::default();
    feed(&mut registry, "g|g|+=5\ng|g|+=5\ng|g|-=3");

    let frame = registry.finalize().unwrap();
    assert_eq!(Some(&7), frame.gauges.get("g"));
}

#[test]
fn timings_normalize_and_sum_in_nanoseconds() {
    let mut registry = Registry::default();
    feed(&mut registry, "t|t|2|us\nt|t|1|ms");

    let frame = registry.finalize().unwrap();
    let stats = frame.timings.get("t").unwrap();

    assert_eq!(1_002_000, stats.sum());
    assert_eq!(2, stats.count());
}

#[test]
fn removed_gauge_is_omitted_from_the_frame() {
    let mut registry = Registry::default();
    feed(&mut registry, "x|g|42");
    feed(&mut registry, "x|g|x");

    let frame = registry.finalize().unwrap();
    assert_eq!(None, frame.gauges.get("x"));
}

#[test]
fn oversized_counter_produces_no_events() {
    let mut registry = Registry::default();
    let events = parse_protocol("abc|c|123456789123456789123456789");
    assert!(events.is_empty());
    for metric in events {
        registry.add(&metric);
    }

    let frame = registry.finalize().unwrap();
    assert!(frame.counters.get("abc").is_none());
    assert_eq!(0, frame.counters.len());
}

#[test]
fn persistent_gauge_is_reported_by_successive_frames() {
    let mut registry = Registry::default();
    feed(&mut registry, "load|g|100");

    let next = registry.new_with_gauges();
    let first = registry.finalize().unwrap();
    assert_eq!(Some(&100), first.gauges.get("load"));

    let after = next.new_with_gauges();
    let second = next.finalize().unwrap();
    assert_eq!(Some(&100), second.gauges.get("load"));
    assert_eq!(Some(&100), after.gauges().get("load"));
}

#[test]
fn overflowing_series_is_silently_skipped() {
    let mut registry = Registry::default();
    assert!(registry.add(&Metric {
        name: "big".into(),
        kind: MetricKind::Counter(u64::MAX)
    }));
    assert!(registry.add(&Metric {
        name: "big".into(),
        kind: MetricKind::Counter(1)
    }));
    assert!(registry.add(&Metric {
        name: "ok".into(),
        kind: MetricKind::Counter(3)
    }));

    let frame = registry.finalize().unwrap();
    assert!(frame.counters.get("big").is_none());
    assert_eq!(3, frame.counters.get("ok").unwrap().sum());
}

#[test]
fn statistics_sum_overflow_is_an_error() {
    assert!(Statistics::new(vec![u64::MAX, 1]).is_err());
    assert!(Statistics::new(vec![u64::MAX]).is_ok());
}

#[test]
fn statistics_are_order_independent() {
    let a = Statistics::new(vec![9, 1, 5, 5, 3]).unwrap();
    let b = Statistics::new(vec![5, 3, 9, 5, 1]).unwrap();

    assert_eq!(a.samples(), b.samples());
    assert_eq!(a.sum(), b.sum());
    assert_eq!(a.count(), b.count());
    assert_eq!(a.median_pair(), b.median_pair());
    assert_eq!(a.percentile(90, 100), b.percentile(90, 100));
    assert_eq!(&vec![1, 3, 5, 5, 9], a.samples());
}

#[test]
fn percentile_boundaries_hit_minimum_and_maximum() {
    let stats = Statistics::new(vec![5, 1, 9]).unwrap();

    assert_eq!(1, stats.percentile(0, 100));
    assert_eq!(9, stats.percentile(100, 100));
    assert_eq!(9, stats.percentile(7, 3));
    assert_eq!(5, stats.percentile(1, 2));
}

#[test]
fn median_of_odd_and_even_counts() {
    let odd = Statistics::new(vec![7, 3, 11]).unwrap();
    assert_eq!((7, 7), odd.median_pair());

    let even = Statistics::new(vec![4, 10, 2, 8]).unwrap();
    assert_eq!((4, 8), even.median_pair());
}
