use chrono::NaiveDateTime;
use ml_systems::anomaly::features::{
    extract_features, hour_of_day, FlowRecord, Normalizer, Protocol, FEATURE_LIMIT, NUM_FEATURES,
};

/// A real number in millionths.
fn fx(x: f64) -> i128 {
    (x * 1e6).round() as i128
}

/// The real number that a count of millionths stands for.
fn number(v: i128) -> f64 {
    v as f64 / 1e6
}

fn row(values: [f64; 6]) -> Vec<i128> {
    values.iter().map(|&x| fx(x)).collect()
}

fn parse_protocol(name: &str) -> Protocol {
    match name {
        "TCP" => Protocol::Tcp,
        "UDP" => Protocol::Udp,
        "ICMP" => Protocol::Icmp,
        _ => Protocol::Other,
    }
}

/// Reads `timestamp src_ip src_port dst_ip dst_port protocol bytes duration`.
fn parse_line(line: &str) -> Option<FlowRecord> {
    let fields: Vec<&str> = line.split_whitespace().collect();
    if fields.len() != 8 {
        return None;
    }
    let timestamp = NaiveDateTime::parse_from_str(fields[0], "%Y-%m-%dT%H:%M:%S").ok()?;
    let duration: f64 = fields[7].parse().ok()?;
    Some(FlowRecord {
        timestamp: timestamp.and_utc().timestamp(),
        src_port: fields[2].parse().ok()?,
        dst_port: fields[4].parse().ok()?,
        bytes: fields[6].parse().ok()?,
        duration_micros: (duration * 1e6).round() as u64,
        protocol: parse_protocol(fields[5]),
    })
}

#[test]
fn test_extract_features() {
    let line = "2024-01-15T10:30:00 192.168.1.10 54321 10.0.0.1 443 TCP 1500 0.05";
    let event = parse_line(line).unwrap();
    let features = extract_features(&event);
    assert_eq!(features.len(), NUM_FEATURES);
    assert_eq!(number(features[0]), 54321.0); // src_port
    assert_eq!(number(features[1]), 443.0); // dst_port
    assert_eq!(number(features[2]), 1500.0); // bytes
    assert!((number(features[3]) - 0.05).abs() < 1e-9); // duration
    assert_eq!(number(features[4]), 0.0); // TCP
    assert_eq!(number(features[5]), 10.0); // hour
}

#[test]
fn test_normalizer() {
    let mut norm = Normalizer::new();
    let data = vec![
        row([0.0, 10.0, 100.0, 0.0, 0.0, 0.0]),
        row([100.0, 20.0, 200.0, 1.0, 1.0, 23.0]),
    ];
    norm.fit_batch(&data);

    let result = norm.normalize(&row([50.0, 15.0, 150.0, 0.5, 0.5, 12.0]));
    assert!((number(result[0]) - 0.5).abs() < 1e-9);
    assert!((number(result[1]) - 0.5).abs() < 1e-9);
}

#[test]
fn test_normalizer_zero_range() {
    let mut norm = Normalizer::new();
    let data = vec![
        row([5.0, 5.0, 5.0, 5.0, 5.0, 5.0]),
        row([5.0, 5.0, 5.0, 5.0, 5.0, 5.0]),
    ];
    norm.fit_batch(&data);
    let result = norm.normalize(&row([5.0, 5.0, 5.0, 5.0, 5.0, 5.0]));
    // All features have zero range, should return 0.5
    for v in &result {
        assert!((number(*v) - 0.5).abs() < 1e-9);
    }
}

#[test]
fn features_are_the_fields_in_millionths() {
    let event = FlowRecord {
        timestamp: 1_705_314_600,
        src_port: 65_535,
        dst_port: 0,
        bytes: u64::MAX,
        duration_micros: 1_234_567,
        protocol: Protocol::Icmp,
    };
    let features = extract_features(&event);
    assert_eq!(
        features,
        vec![
            65_535_000_000,
            0,
            18_446_744_073_709_551_615_000_000,
            1_234_567,
            2_000_000,
            10_000_000,
        ]
    );
    assert!(features.iter().all(|v| -FEATURE_LIMIT <= *v && *v <= FEATURE_LIMIT));
}

#[test]
fn protocol_codes_are_stable() {
    assert_eq!(Protocol::Tcp.code(), 0);
    assert_eq!(Protocol::Udp.code(), 1);
    assert_eq!(Protocol::Icmp.code(), 2);
    assert_eq!(Protocol::Other.code(), 3);
}

#[test]
fn hour_of_day_covers_the_whole_day_and_times_before_the_epoch() {
    assert_eq!(hour_of_day(0), 0);
    assert_eq!(hour_of_day(3_599), 0);
    assert_eq!(hour_of_day(3_600), 1);
    assert_eq!(hour_of_day(86_399), 23);
    assert_eq!(hour_of_day(86_400), 0);
    assert_eq!(hour_of_day(-1), 23);
    assert_eq!(hour_of_day(-86_400), 0);
    assert_eq!(hour_of_day(-86_401), 23);
    assert_eq!(hour_of_day(i64::MAX), 15);
    assert_eq!(hour_of_day(i64::MIN), 8);
}

#[test]
fn hour_of_day_agrees_with_the_calendar() {
    for text in ["1969-12-31T23:59:59", "2024-02-29T00:00:00", "2038-01-19T03:14:08", "1999-07-04T17:45:10"] {
        let stamp = NaiveDateTime::parse_from_str(text, "%Y-%m-%dT%H:%M:%S").unwrap();
        let expected: u8 = text[11..13].parse().unwrap();
        assert_eq!(hour_of_day(stamp.and_utc().timestamp()), expected);
    }
}

#[test]
fn normalize_before_any_sample_is_the_identity() {
    let norm = Normalizer::new();
    assert!(!norm.is_initialized());
    let sample = row([54321.0, 443.0, 1500.0, 0.05, 0.0, 10.0]);
    assert_eq!(norm.normalize(&sample), sample);
}

#[test]
fn update_one_at_a_time_equals_fit_batch_in_any_order() {
    let data = vec![
        row([3.0, -1.0, 100.0, 0.25, 1.0, 7.0]),
        row([1.0, 4.0, 50.0, 0.75, 0.0, 23.0]),
        row([2.0, 9.0, 75.0, 0.5, 2.0, 0.0]),
        row([1.0, 4.0, 50.0, 0.75, 0.0, 23.0]),
    ];
    let mut batch = Normalizer::new();
    batch.fit_batch(&data);

    let mut single = Normalizer::new();
    for sample in &data {
        single.update(sample);
    }
    let mut reversed = Normalizer::new();
    for sample in data.iter().rev() {
        reversed.update(sample);
    }
    assert_eq!(batch.min(), single.min());
    assert_eq!(batch.max(), single.max());
    assert_eq!(batch.min(), reversed.min());
    assert_eq!(batch.max(), reversed.max());
    assert_eq!(*batch.min(), row([1.0, -1.0, 50.0, 0.25, 0.0, 0.0]));
    assert_eq!(*batch.max(), row([3.0, 9.0, 100.0, 0.75, 2.0, 23.0]));
    assert!(batch.is_initialized());
}

#[test]
fn fit_batch_of_nothing_changes_nothing() {
    let mut norm = Normalizer::new();
    let data: Vec<Vec<i128>> = Vec::new();
    norm.fit_batch(&data);
    assert!(!norm.is_initialized());
    let sample = row([1.0, 2.0, 3.0, 4.0, 5.0, 6.0]);
    assert_eq!(norm.normalize(&sample), sample);
}

#[test]
fn constant_feature_normalizes_to_half_for_any_query() {
    let mut norm = Normalizer::new();
    norm.update(&row([7.0, 1.0, 0.0, 0.0, 0.0, 0.0]));
    norm.update(&row([7.0, 2.0, 5.0, 0.0, 1.0, 0.0]));
    norm.update(&row([7.0, 3.0, 9.0, 0.0, 2.0, 0.0]));
    let inside = norm.normalize(&row([7.0, 2.0, 5.0, 0.0, 1.0, 0.0]));
    let outside = norm.normalize(&row([-1000.0, 2.0, 5.0, 123.0, 1.0, 99.0]));
    for result in [inside, outside] {
        assert_eq!(result[0], 500_000);
        assert_eq!(result[3], 500_000);
        assert_eq!(result[5], 500_000);
    }
}

#[test]
fn normalize_is_linear_rounds_down_and_does_not_clamp() {
    let mut norm = Normalizer::new();
    norm.update(&row([0.0, 10.0, 0.0, 0.0, 0.0, 0.0]));
    norm.update(&row([3.0, 20.0, 1.0, 1.0, 1.0, 1.0]));
    let result = norm.normalize(&row([1.0, 25.0, -1.0, 1.0, 0.0, 2.0]));
    assert_eq!(result[0], 333_333); // 1/3 rounded down
    assert_eq!(result[1], 1_500_000); // above the range
    assert_eq!(result[2], -1_000_000); // below the range
    assert_eq!(result[3], 1_000_000);
    assert_eq!(result[4], 0);
    assert_eq!(result[5], 2_000_000);
    let low = norm.normalize(&row([-1.0, 10.0, 0.0, 0.0, 0.0, 0.0]));
    assert_eq!(low[0], -333_334); // -1/3 rounded down
}

#[test]
fn normalize_handles_values_at_the_feature_limit() {
    let mut norm = Normalizer::new();
    norm.update(&vec![-FEATURE_LIMIT; 6]);
    norm.update(&vec![FEATURE_LIMIT - 1, 0, 0, 0, 0, 0]);
    let result = norm.normalize(&vec![FEATURE_LIMIT; 6]);
    assert_eq!(result[0], 1_000_000);
    assert_eq!(result[1], 2_000_000);
}
