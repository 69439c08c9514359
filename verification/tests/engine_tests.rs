use metco::engine::ingest;
use metco::metrics::GaugeOperation;
use metco::metrics::Metric;
use metco::metrics::MetricKind;
use metco::metrics::Registry;
use metco::protocol::parse_protocol;

#[test]
fn accepted_events_accumulate_without_a_flush() {
    let mut registry = Registry::default();
    assert!(registry.add(&Metric {
        name: "load".into(),
        kind: MetricKind::Gauge(GaugeOperation::Assign(3))
    }));

    let events = parse_protocol("a|c|1\na|c|2\nload|g|+=4");
    let (flushed, live) = ingest(registry, &events);

    assert!(flushed.is_empty());
    assert_eq!(Some(&vec![1, 2]), live.counters().get("a"));
    assert_eq!(Some(&7), live.gauges().get("load"));
}

#[test]
fn overflow_flushes_and_the_run_continues_with_gauges() {
    let mut registry = Registry::default();
    assert!(registry.add(&Metric {
        name: "g".into(),
        kind: MetricKind::Gauge(GaugeOperation::Assign(i64::MAX))
    }));
    assert!(registry.add(&Metric {
        name: "a".into(),
        kind: MetricKind::Counter(5)
    }));

    let events = vec![
        Metric {
            name: "g".into(),
            kind: MetricKind::Gauge(GaugeOperation::Modify(1)),
        },
        Metric {
            name: "b".into(),
            kind: MetricKind::Counter(9),
        },
    ];
    let (flushed, live) = ingest(registry, &events);

    assert_eq!(1, flushed.len());
    assert_eq!(Some(&vec![5]), flushed[0].counters().get("a"));
    assert_eq!(Some(&i64::MAX), flushed[0].gauges().get("g"));

    assert_eq!(None, live.counters().get("a"));
    assert_eq!(Some(&vec![9]), live.counters().get("b"));
    assert_eq!(Some(&i64::MAX), live.gauges().get("g"));
}
