use metco::metrics::GaugeOperation;
use metco::metrics::Metric;
use metco::metrics::MetricKind;
use metco::metrics::TimerResolution;
use metco::protocol::encode_name;
use metco::protocol::parse_protocol;

#[test]
fn counter_can_be_parsed() {
    assert_eq!(
        vec![Metric {
            name: "abc".to_string(),
            kind: MetricKind::Counter(12),
        }],
        parse_protocol("abc|c|12")
    );
}

#[test]
fn counter_with_escaped_chars_can_be_parsed() {
    assert_eq!(
        vec![Metric {
            name: "a\\b|c".to_string(),
            kind: MetricKind::Counter(12),
        }],
        parse_protocol("a\\\\b\\|c|c|12")
    );
}

#[test]
fn counter_with_very_big_number_is_not_parsed_but_does_not_crash_program() {
    assert!(parse_protocol(
        "abc|c|123456789123456789123456789123456789123456789123456789123456789123456789"
    )
    .is_empty());
}

#[test]
fn gauge_can_be_parsed() {
    assert_eq!(
        vec![Metric {
            name: "abc".to_string(),
            kind: MetricKind::Gauge(GaugeOperation::Assign(12)),
        }],
        parse_protocol("abc|g|12")
    );

    assert_eq!(
        vec![Metric {
            name: "abc".to_string(),
            kind: MetricKind::Gauge(GaugeOperation::Assign(-12)),
        }],
        parse_protocol("abc|g|-12")
    );

    assert_eq!(
        vec![Metric {
            name: "abc".to_string(),
            kind: MetricKind::Gauge(GaugeOperation::Modify(12)),
        }],
        parse_protocol("abc|g|+=12")
    );

    assert_eq!(
        vec![Metric {
            name: "abc".to_string(),
            kind: MetricKind::Gauge(GaugeOperation::Modify(-12)),
        }],
        parse_protocol("abc|g|-=12")
    );

    assert_eq!(
        vec![Metric {
            name: "abc".to_string(),
            kind: MetricKind::Gauge(GaugeOperation::Remove),
        }],
        parse_protocol("abc|g|x")
    );
}

#[test]
fn gauge_with_very_big_number_is_not_parsed_but_does_not_crash_program() {
    assert!(parse_protocol(
        "abc|g|123456789123456789123456789123456789123456789123456789123456789123456789"
    )
    .is_empty());

    assert!(parse_protocol(
        "abc|g|+=123456789123456789123456789123456789123456789123456789123456789123456789"
    )
    .is_empty());
}

#[test]
fn timer_can_be_parsed() {
    assert_eq!(
        vec![Metric {
            name: "abc".to_string(),
            kind: MetricKind::Timing(123, TimerResolution::MilliSeconds),
        }],
        parse_protocol("abc|t|123")
    );

    assert_eq!(
        vec![Metric {
            name: "abc".to_string(),
            kind: MetricKind::Timing(123, TimerResolution::MilliSeconds),
        }],
        parse_protocol("abc|t|123|ms")
    );

    assert_eq!(
        vec![Metric {
            name: "abc".to_string(),
            kind: MetricKind::Timing(123, TimerResolution::Seconds),
        }],
        parse_protocol("abc|t|123|s")
    );

    assert_eq!(
        vec![Metric {
            name: "abc".to_string(),
            kind: MetricKind::Timing(123, TimerResolution::MicroSeconds),
        }],
        parse_protocol("abc|t|123|us")
    );

    assert_eq!(
        vec![Metric {
            name: "abc".to_string(),
            kind: MetricKind::Timing(123, TimerResolution::NanoSeconds),
        }],
        parse_protocol("abc|t|123|ns")
    );
}

#[test]
fn timer_with_very_big_number_is_not_parsed_but_does_not_crash_program() {
    assert!(parse_protocol(
        "abc|t|123456789123456789123456789123456789123456789123456789123456789123456789"
    )
    .is_empty());

    assert!(parse_protocol(
        "abc|t|123456789123456789123456789123456789123456789123456789123456789123456789|s"
    )
    .is_empty());

    assert!(parse_protocol("abc|t|18446744073709551616|ns").is_empty());
}

#[test]
fn several_records_are_parsed_in_order() {
    assert_eq!(
        vec![
            Metric {
                name: "a".to_string(),
                kind: MetricKind::Counter(1),
            },
            Metric {
                name: "b".to_string(),
                kind: MetricKind::Gauge(GaugeOperation::Assign(2)),
            },
            Metric {
                name: "c".to_string(),
                kind: MetricKind::Timing(3, TimerResolution::Seconds),
            },
        ],
        parse_protocol("a|c|1\nb|g|2\nc|t|3|s")
    );
}

#[test]
fn payload_with_one_bad_record_yields_nothing() {
    assert!(parse_protocol("abc|c|12\nbad").is_empty());
    assert!(parse_protocol("abc|k|12").is_empty());
    assert!(parse_protocol("abc|c|").is_empty());
    assert!(parse_protocol("").is_empty());
}

#[test]
fn trailing_bytes_fail_the_payload() {
    assert!(parse_protocol("abc|c|12x").is_empty());
    assert!(parse_protocol("abc|g|x5").is_empty());
}

#[test]
fn name_with_bad_escape_fails() {
    assert!(parse_protocol("a\\zb|c|1").is_empty());
}

#[test]
fn empty_name_is_permitted() {
    assert_eq!(
        vec![Metric {
            name: String::new(),
            kind: MetricKind::Counter(7),
        }],
        parse_protocol("|c|7")
    );
}

#[test]
fn gauge_extreme_values_parse_exactly() {
    assert_eq!(
        vec![Metric {
            name: "m".to_string(),
            kind: MetricKind::Gauge(GaugeOperation::Assign(i64::MIN)),
        }],
        parse_protocol("m|g|-9223372036854775808")
    );
    assert_eq!(
        vec![Metric {
            name: "m".to_string(),
            kind: MetricKind::Gauge(GaugeOperation::Assign(i64::MAX)),
        }],
        parse_protocol("m|g|9223372036854775807")
    );
    assert!(parse_protocol("m|g|9223372036854775808").is_empty());
    assert!(parse_protocol("m|g|-=9223372036854775808").is_empty());
}

#[test]
fn encoded_name_round_trips_through_the_parser() {
    let name = "a\\b|c\nd";
    let mut wire = encode_name(name);
    wire.push_str("|c|5");
    assert_eq!(
        vec![Metric {
            name: name.to_string(),
            kind: MetricKind::Counter(5),
        }],
        parse_protocol(&wire)
    );
    assert_eq!("a\\\\b\\|c\nd|c|5", wire);
}
