use metco::metrics::GaugeOperation;
use metco::metrics::Metric;
use metco::metrics::MetricKind;
use metco::metrics::Registry;
use metco::metrics::TimerResolution;

#[test]
fn counter_can_be_added() {
    let mut registry = Registry::default();

    assert!(registry.add(&Metric {
        name: "test".into(),
        kind: MetricKind::Counter(2)
    }));
    assert!(registry.add(&Metric {
        name: "demo".into(),
        kind: MetricKind::Counter(32)
    }));
    assert!(registry.add(&Metric {
        name: "test".into(),
        kind: MetricKind::Counter(7)
    }));

    assert_eq!(2, registry.counters().len());
    assert_eq!(Some(&vec![2, 7]), registry.counters().get("test"));
    assert_eq!(Some(&vec![32]), registry.counters().get("demo"));
}

#[test]
fn timings_can_be_added() {
    let mut registry = Registry::default();

    assert!(registry.add(&Metric {
        name: "test".into(),
        kind: MetricKind::Timing(2, TimerResolution::NanoSeconds)
    }));
    assert!(registry.add(&Metric {
        name: "demo".into(),
        kind: MetricKind::Timing(32, TimerResolution::MilliSeconds)
    }));
    assert!(registry.add(&Metric {
        name: "test".into(),
        kind: MetricKind::Timing(7, TimerResolution::MicroSeconds)
    }));
    assert!(registry.add(&Metric {
        name: "demo".into(),
        kind: MetricKind::Timing(64, TimerResolution::Seconds)
    }));

    assert_eq!(2, registry.timings().len());
    assert_eq!(Some(&vec![2, 7_000]), registry.timings().get("test"));
    assert_eq!(
        Some(&vec![32_000_000, 64_000_000_000]),
        registry.timings().get("demo")
    );
}

#[test]
fn gauges_can_be_added() {
    let mut registry = Registry::default();

    assert!(registry.add(&Metric {
        name: "test".into(),
        kind: MetricKind::Gauge(GaugeOperation::Modify(10))
    }));

    assert_eq!(1, registry.gauges().len());
    assert_eq!(Some(&10), registry.gauges().get("test"));

    assert!(registry.add(&Metric {
        name: "test".into(),
        kind: MetricKind::Gauge(GaugeOperation::Modify(-20))
    }));

    assert_eq!(1, registry.gauges().len());
    assert_eq!(Some(&-10), registry.gauges().get("test"));

    assert!(registry.add(&Metric {
        name: "test".into(),
        kind: MetricKind::Gauge(GaugeOperation::Assign(32))
    }));

    assert_eq!(1, registry.gauges().len());
    assert_eq!(Some(&32), registry.gauges().get("test"));

    assert!(registry.add(&Metric {
        name: "test".into(),
        kind: MetricKind::Gauge(GaugeOperation::Remove)
    }));

    assert_eq!(0, registry.gauges().len());
    assert_eq!(None, registry.gauges().get("test"));
}

#[test]
fn gauge_modify_overflow_is_rejected_without_change() {
    let mut registry = Registry::default();

    assert!(registry.add(&Metric {
        name: "g".into(),
        kind: MetricKind::Gauge(GaugeOperation::Assign(i64::MAX))
    }));
    assert!(!registry.add(&Metric {
        name: "g".into(),
        kind: MetricKind::Gauge(GaugeOperation::Modify(1))
    }));
    assert_eq!(Some(&i64::MAX), registry.gauges().get("g"));

    assert!(registry.add(&Metric {
        name: "g".into(),
        kind: MetricKind::Gauge(GaugeOperation::Assign(i64::MIN))
    }));
    assert!(!registry.add(&Metric {
        name: "g".into(),
        kind: MetricKind::Gauge(GaugeOperation::Modify(-1))
    }));
    assert_eq!(Some(&i64::MIN), registry.gauges().get("g"));
}

#[test]
fn timing_normalization_overflow_is_rejected_without_change() {
    let mut registry = Registry::default();

    assert!(!registry.add(&Metric {
        name: "t".into(),
        kind: MetricKind::Timing(u64::MAX, TimerResolution::Seconds)
    }));
    assert_eq!(0, registry.timings().len());

    assert!(registry.add(&Metric {
        name: "t".into(),
        kind: MetricKind::Timing(u64::MAX, TimerResolution::NanoSeconds)
    }));
    assert_eq!(Some(&vec![u64::MAX]), registry.timings().get("t"));
}

#[test]
fn timing_in_seconds_stores_as_nanoseconds() {
    let mut left = Registry::default();
    let mut right = Registry::default();

    assert!(left.add(&Metric {
        name: "t".into(),
        kind: MetricKind::Timing(3, TimerResolution::Seconds)
    }));
    assert!(right.add(&Metric {
        name: "t".into(),
        kind: MetricKind::Timing(3_000_000_000, TimerResolution::NanoSeconds)
    }));

    assert_eq!(left.timings().get("t"), right.timings().get("t"));
    assert_eq!(Some(&vec![3_000_000_000]), left.timings().get("t"));
}

#[test]
fn new_registry_carries_gauges_only() {
    let mut registry = Registry::default();

    assert!(registry.add(&Metric {
        name: "load".into(),
        kind: MetricKind::Gauge(GaugeOperation::Assign(100))
    }));
    assert!(registry.add(&Metric {
        name: "hits".into(),
        kind: MetricKind::Counter(4)
    }));

    let next = registry.new_with_gauges();

    assert_eq!(Some(&100), next.gauges().get("load"));
    assert_eq!(0, next.counters().len());
    assert_eq!(0, next.timings().len());
}
