use ml_systems::anomaly::detector::{AnomalyReport, ConfigError, Detector, DetectorConfig};
use ml_systems::anomaly::features::{extract_features, FlowRecord, Normalizer, Protocol};
use rand::rngs::StdRng;
use rand::SeedableRng;

fn config(buffer_size: usize) -> DetectorConfig {
    DetectorConfig { buffer_size, ..DetectorConfig::default() }
}

fn detector(config: DetectorConfig, seed: u64) -> Detector {
    match Detector::new(config, StdRng::seed_from_u64(seed)) {
        Ok(detector) => detector,
        Err(error) => panic!("{}", error.message()),
    }
}

/// A record of the tight cluster: fixed ports, protocol and hour, about 1000
/// bytes and about 0.05 seconds. Most records sit at 950 bytes and 0.04
/// seconds, every fifth a little above.
fn normal(i: usize) -> FlowRecord {
    let step = if i % 5 == 4 { (i / 5 % 10) as u64 + 1 } else { 0 };
    FlowRecord {
        timestamp: 1_705_314_600 + i as i64,
        src_port: 54_321,
        dst_port: 443,
        bytes: 950 + 10 * step,
        duration_micros: 40_000 + 2_000 * step,
        protocol: Protocol::Tcp,
    }
}

fn outlier() -> FlowRecord {
    FlowRecord {
        timestamp: 1_705_288_000,
        src_port: 31_337,
        dst_port: 6_667,
        bytes: 50_000_000,
        duration_micros: 300_000_000,
        protocol: Protocol::Udp,
    }
}

#[test]
fn default_configuration() {
    let config = DetectorConfig::default();
    assert_eq!(config.n_trees, 100);
    assert_eq!(config.threshold, 650_000);
    assert_eq!(config.buffer_size, 256);
    assert_eq!(config.retrain_interval, 1000);
    assert_eq!(config.subsample_size, 256);
    assert_eq!(config.validate(), Ok(()));
}

#[test]
fn configuration_without_trees_is_rejected() {
    let config = DetectorConfig { n_trees: 0, ..DetectorConfig::default() };
    assert_eq!(config.validate(), Err(ConfigError::NoTrees));
    assert!(matches!(Detector::new(config, StdRng::seed_from_u64(0)), Err(ConfigError::NoTrees)));
}

#[test]
fn configuration_with_small_buffer_is_rejected() {
    for buffer_size in [0, 1] {
        let config = DetectorConfig { buffer_size, ..DetectorConfig::default() };
        assert_eq!(config.validate(), Err(ConfigError::BufferTooSmall));
        assert!(matches!(
            Detector::new(config, StdRng::seed_from_u64(0)),
            Err(ConfigError::BufferTooSmall)
        ));
    }
    assert_eq!(config(2).validate(), Ok(()));
}

#[test]
fn configuration_without_retrain_interval_is_rejected() {
    let config = DetectorConfig { retrain_interval: 0, ..DetectorConfig::default() };
    assert_eq!(config.validate(), Err(ConfigError::ZeroRetrainInterval));
    assert!(matches!(
        Detector::new(config, StdRng::seed_from_u64(0)),
        Err(ConfigError::ZeroRetrainInterval)
    ));
}

#[test]
fn configuration_with_small_subsample_is_rejected() {
    for subsample_size in [0, 1] {
        let config = DetectorConfig { subsample_size, ..DetectorConfig::default() };
        assert_eq!(config.validate(), Err(ConfigError::SubsampleTooSmall));
        assert!(matches!(
            Detector::new(config, StdRng::seed_from_u64(0)),
            Err(ConfigError::SubsampleTooSmall)
        ));
    }
}

#[test]
fn first_broken_option_is_named() {
    let config = DetectorConfig {
        n_trees: 0,
        buffer_size: 0,
        threshold: 0,
        retrain_interval: 0,
        subsample_size: 0,
    };
    assert_eq!(config.validate(), Err(ConfigError::NoTrees));
    let config = DetectorConfig { n_trees: 1, ..config };
    assert_eq!(config.validate(), Err(ConfigError::BufferTooSmall));
    let config = DetectorConfig { buffer_size: 2, ..config };
    assert_eq!(config.validate(), Err(ConfigError::ZeroRetrainInterval));
    let config = DetectorConfig { retrain_interval: 1, ..config };
    assert_eq!(config.validate(), Err(ConfigError::SubsampleTooSmall));
    let config = DetectorConfig { subsample_size: 2, ..config };
    assert_eq!(config.validate(), Ok(()));
    assert!(ConfigError::NoTrees.message().contains("n_trees"));
    assert!(ConfigError::BufferTooSmall.message().contains("buffer_size"));
    assert!(ConfigError::ZeroRetrainInterval.message().contains("retrain_interval"));
    assert!(ConfigError::SubsampleTooSmall.message().contains("subsample_size"));
}

#[test]
fn new_detector_is_buffering() {
    let detector = detector(config(10), 1);
    assert_eq!(detector.total_events(), 0);
    assert_eq!(detector.total_anomalies(), 0);
    assert!(!detector.is_trained());
    assert!(detector.current_forest().is_none());
    assert!(!detector.normalizer().is_initialized());
    assert_eq!(detector.configuration().buffer_size, 10);
}

#[test]
fn trained_after_exactly_buffer_size_events() {
    let mut detector = detector(config(50), 2);
    for i in 0..49 {
        assert!(detector.process(&normal(i)).is_none());
        assert!(!detector.is_trained());
        assert_eq!(detector.total_events(), i as u64 + 1);
    }
    assert!(detector.process(&normal(49)).is_none());
    assert!(detector.is_trained());
    assert_eq!(detector.total_events(), 50);
    let forest = detector.current_forest().unwrap();
    assert_eq!(forest.n_trees(), 100);
    assert_eq!(forest.subsample_size(), 50);
    for i in 50..200 {
        detector.process(&normal(i));
        assert!(detector.is_trained());
    }
}

#[test]
fn smallest_buffer_trains_on_the_second_event() {
    let mut detector = detector(DetectorConfig { subsample_size: 2, ..config(2) }, 3);
    assert!(detector.process(&normal(0)).is_none());
    assert!(!detector.is_trained());
    assert!(detector.process(&normal(4)).is_none());
    assert!(detector.is_trained());
    assert_eq!(detector.current_forest().unwrap().subsample_size(), 2);
}

#[test]
fn events_and_anomalies_are_counted() {
    let mut detector = detector(config(50), 4);
    let mut reported = 0;
    for i in 0..400 {
        let event = if i >= 50 && i % 40 == 0 { outlier() } else { normal(i) };
        if let Some(report) = detector.process(&event) {
            assert!(i >= 50, "nothing is scored during warm-up");
            assert!(report.score > report.threshold);
            reported += 1;
        }
        assert_eq!(detector.total_events(), i as u64 + 1);
        assert_eq!(detector.total_anomalies(), reported);
    }
    assert_eq!(detector.total_events(), 400);
    assert!(reported >= 1);
}

#[test]
fn threshold_of_one_reports_nothing_and_of_zero_everything() {
    let mut silent = detector(DetectorConfig { threshold: 1_000_000, ..config(20) }, 5);
    let mut loud = detector(DetectorConfig { threshold: 0, ..config(20) }, 5);
    for i in 0..60 {
        let event = if i % 7 == 0 { outlier() } else { normal(i) };
        assert!(silent.process(&event).is_none());
        assert_eq!(loud.process(&event).is_some(), i >= 20);
    }
    assert_eq!(silent.total_anomalies(), 0);
    assert_eq!(loud.total_anomalies(), 40);
}

#[test]
fn outlier_is_reported_and_the_next_normal_record_is_not() {
    let mut detector = detector(config(50), 6);
    for i in 0..50 {
        assert!(detector.process(&normal(i)).is_none());
    }
    assert!(detector.is_trained());

    let report: AnomalyReport = detector.process(&outlier()).expect("the outlier is reported");
    assert!(report.score > report.threshold);
    assert_eq!(report.threshold, 650_000);
    assert!(report.score <= 1_000_000);
    assert_eq!(report.timestamp, outlier().timestamp);
    assert_eq!(report.src_port, 31_337);
    assert_eq!(report.dst_port, 6_667);
    assert_eq!(report.bytes, 50_000_000);
    assert_eq!(report.features, extract_features(&outlier()));

    assert!(detector.process(&normal(50)).is_none());
    assert_eq!(detector.total_events(), 52);
    assert_eq!(detector.total_anomalies(), 1);
}

#[test]
fn outlier_is_reported_whatever_the_seed() {
    for seed in 100..110 {
        let mut detector = detector(config(50), seed);
        for i in 0..50 {
            detector.process(&normal(i));
        }
        assert!(detector.process(&outlier()).is_some());
        assert!(detector.process(&normal(7)).is_none());
        assert!(detector.process(&normal(9)).is_none());
    }
}

/// A record whose only varying feature is the byte count.
fn sized(bytes: u64) -> FlowRecord {
    FlowRecord { bytes, ..normal(0) }
}

#[test]
fn retraining_resets_the_bounds_to_the_window() {
    let config = DetectorConfig { retrain_interval: 100, ..config(10) };
    let mut detector = detector(config, 7);
    // early history: 100 to 190 bytes
    for i in 0..10 {
        detector.process(&sized(100 + 10 * i));
    }
    assert!(detector.is_trained());
    assert_eq!(detector.normalizer().min()[2], 100_000_000);
    assert_eq!(detector.normalizer().max()[2], 190_000_000);
    // later: 1000 to 2000 bytes
    for i in 0..99 {
        detector.process(&sized(1_000 + 10 * (i % 101)));
        // between trainings the bounds only widen
        assert_eq!(detector.normalizer().min()[2], 100_000_000);
    }
    assert_eq!(detector.normalizer().max()[2], 1_980_000_000);
    // the 100th event after warm-up is followed by a retraining on the last 10 events
    detector.process(&sized(2_000));
    assert_eq!(detector.total_events(), 110);
    assert_eq!(detector.normalizer().min()[2], 1_900_000_000);
    assert_eq!(detector.normalizer().max()[2], 2_000_000_000);

    // 1950 bytes lies outside the early bounds and inside the window
    let query = extract_features(&sized(1_950));
    let normalized = detector.normalizer().normalize(&query);
    assert_eq!(normalized[2], 500_000);

    // the same bounds as a fresh normalizer fitted to the window alone
    let window: Vec<Vec<i128>> = (0..10)
        .map(|i| if i < 9 { 1_000 + 10 * (90 + i) } else { 2_000 })
        .map(|bytes| extract_features(&sized(bytes)))
        .collect();
    let mut fresh = Normalizer::new();
    fresh.fit_batch(&window);
    assert_eq!(detector.normalizer().min(), fresh.min());
    assert_eq!(detector.normalizer().max(), fresh.max());
}

#[test]
fn retraining_happens_every_interval() {
    let config = DetectorConfig { retrain_interval: 5, n_trees: 10, ..config(4) };
    let mut detector = detector(config, 8);
    let mut bytes = 0;
    for _ in 0..4 {
        bytes += 1;
        detector.process(&sized(bytes));
    }
    for round in 0..6 {
        for k in 0..5 {
            bytes += 1;
            detector.process(&sized(bytes));
            let expected_min = if k == 4 { bytes - 3 } else if round == 0 { 1 } else { 4 + 5 * round - 3 };
            assert_eq!(detector.normalizer().min()[2], expected_min as i128 * 1_000_000);
            assert_eq!(detector.normalizer().max()[2], bytes as i128 * 1_000_000);
        }
    }
    assert_eq!(detector.total_events(), 34);
}

#[test]
fn constant_traffic_scores_exactly_one_half() {
    // every feature is constant: each tree is a single leaf, and every event
    // has the average path length
    let config = DetectorConfig { threshold: 499_999, retrain_interval: 7, ..config(16) };
    let mut detector = detector(config, 9);
    for i in 0..100 {
        let output = detector.process(&sized(1_000));
        if i < 16 {
            assert!(output.is_none());
        } else {
            assert_eq!(output.expect("above the threshold").score, 500_000);
        }
    }
    assert_eq!(detector.total_anomalies(), 84);
    let mut quiet = detector_with_threshold(500_000);
    for _ in 0..100 {
        assert!(quiet.process(&sized(1_000)).is_none());
    }
}

fn detector_with_threshold(threshold: u64) -> Detector {
    detector(DetectorConfig { threshold, retrain_interval: 7, ..config(16) }, 10)
}
