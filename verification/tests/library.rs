use kube_requests::analysis::{calculate_requests, peak_total_request, AnalysisError, RiskTolerance};
use kube_requests::codec::{decode_dataset, encode_dataset};
use kube_requests::dataset::{classify_instance_name, ContainerId, ControllerType, MemoryInfo, MetricValue};
use kube_requests::histogram::{Histogram, HistogramError};

fn series(points: &[(u64, u64)]) -> Vec<MetricValue> {
    points
        .iter()
        .map(|&(timestamp, value)| MetricValue { timestamp, value })
        .collect()
}

fn scenario_dataset() -> MemoryInfo {
    // one entity present at every one of 10 timestamps, with one spike
    let mut data = MemoryInfo::new(3).unwrap();
    let mut points = Vec::new();
    for ts in 1..=9u64 {
        points.push((ts, 1u64));
    }
    points.push((10, 100));
    for &(ts, value) in &points {
        data.push_global(ts, value);
    }
    data.add_instance_series("ns", "app-0", "main", &series(&points))
        .unwrap();
    data
}

#[test]
fn percentile_monotone_on_samples() {
    let mut h = Histogram::new(3).unwrap();
    for v in [1u64, 1, 1, 1, 1, 1, 1, 1, 1, 100] {
        h.record(v).unwrap();
    }
    let mut last = 0u64;
    for p in 0..=100u8 {
        let v = h.value_at_percentile(p);
        assert!(v >= last, "value dropped between percentiles");
        last = v;
    }
    assert_eq!(h.value_at_percentile(0), 1);
    assert_eq!(h.value_at_percentile(50), 1);
    assert_eq!(h.value_at_percentile(90), 1);
    assert_eq!(h.value_at_percentile(91), 100);
    assert_eq!(h.value_at_percentile(100), 100);
}

#[test]
fn merge_with_empty_is_identity() {
    let mut h = Histogram::new(3).unwrap();
    for v in [5u64, 9, 2048, 70000] {
        h.record(v).unwrap();
    }
    let mut before = Vec::new();
    for p in 0..=100u8 {
        before.push(h.value_at_percentile(p));
    }
    let empty = Histogram::new(3).unwrap();
    h.merge(&empty).unwrap();
    for p in 0..=100u8 {
        assert_eq!(h.value_at_percentile(p), before[p as usize]);
    }
}

#[test]
fn merge_refuses_other_precision() {
    let mut a = Histogram::new(3).unwrap();
    let b = Histogram::new(2).unwrap();
    assert_eq!(a.merge(&b), Err(HistogramError::IncompatibleConfiguration));
}

#[test]
fn record_refuses_untrackable_value() {
    let mut h = Histogram::new(3).unwrap();
    let max = h.max_trackable();
    assert!(h.record(max).is_ok());
    assert_eq!(h.record(max + 1), Err(HistogramError::ValueOutOfRange));
    // the failed record left the contents unchanged
    assert_eq!(h.total_count(), 1);
}

#[test]
fn precision_above_five_digits_is_refused() {
    assert!(matches!(Histogram::new(6), Err(HistogramError::InvalidPrecision)));
    assert!(matches!(MemoryInfo::new(6), Err(HistogramError::InvalidPrecision)));
}

#[test]
fn tolerance_outside_unit_interval_is_refused() {
    assert!(RiskTolerance::new(0, 1).is_ok());
    assert!(RiskTolerance::new(1, 2).is_ok());
    assert!(RiskTolerance::new(1, 1).is_ok());
    assert_eq!(
        RiskTolerance::new(2, 1).err(),
        Some(AnalysisError::InvalidTolerance)
    );
    assert_eq!(
        RiskTolerance::new(0, 0).err(),
        Some(AnalysisError::InvalidTolerance)
    );
}

#[test]
fn zero_tolerance_covers_the_spike() {
    let data = scenario_dataset();
    let tolerance = RiskTolerance::new(0, 1).unwrap();
    let rec = calculate_requests(&data, &tolerance).unwrap();
    // the smallest percentile with zero risk is the one that first
    // reaches the spike: 10 samples, so 91 percent
    assert_eq!(rec.percentile, 91);
    assert_eq!(rec.entries.len(), 1);
    assert_eq!(rec.entries[0].1, 100);
}

#[test]
fn half_tolerance_accepts_the_spike() {
    let data = scenario_dataset();
    let tolerance = RiskTolerance::new(1, 2).unwrap();
    let rec = calculate_requests(&data, &tolerance).unwrap();
    // only 1 of 10 timestamps is under-covered at the low value, and
    // 1/10 <= 1/2 already holds at percentile 0
    assert_eq!(rec.percentile, 0);
    assert_eq!(rec.entries.len(), 1);
    assert_eq!(rec.entries[0].1, 1);
}

#[test]
fn disjoint_entities_each_get_recommendations() {
    let mut data = MemoryInfo::new(3).unwrap();
    let first = [(1u64, 40u64), (2, 40), (3, 60)];
    let second = [(4u64, 10u64), (5, 10), (6, 30)];
    for &(ts, value) in first.iter().chain(second.iter()) {
        data.push_global(ts, value);
    }
    data.add_instance_series("ns", "alpha-0", "main", &series(&first))
        .unwrap();
    data.add_instance_series("ns", "beta-0", "main", &series(&second))
        .unwrap();
    let tolerance = RiskTolerance::new(0, 1).unwrap();
    let rec = calculate_requests(&data, &tolerance).unwrap();
    assert_eq!(rec.entries.len(), 2);
    // each entity is absent from the other's timestamps yet still gets a
    // recommendation from its own history
    assert_eq!(rec.entries[0].1, 60);
    assert_eq!(rec.entries[1].1, 30);
    let alpha = ContainerId {
        namespace: "ns".to_string(),
        controller_type: ControllerType::StatefulSet,
        controller_id: "alpha".to_string(),
        container: "main".to_string(),
    };
    assert_eq!(rec.value_for(&alpha), Some(60));
    // peak demand: the costliest timestamp needs only one entity's value
    assert_eq!(peak_total_request(&data, &rec), Some(60));
}

#[test]
fn empty_aggregate_series_is_an_error() {
    let mut data = MemoryInfo::new(3).unwrap();
    data.add_instance_series("ns", "app-0", "main", &series(&[(1, 5)]))
        .unwrap();
    let tolerance = RiskTolerance::new(0, 1).unwrap();
    assert_eq!(
        calculate_requests(&data, &tolerance).err(),
        Some(AnalysisError::EmptyDataset)
    );
}

#[test]
fn snapshot_round_trips_every_percentile() {
    let mut data = MemoryInfo::new(3).unwrap();
    let first = [(1u64, 7u64), (2, 9), (3, 5000)];
    let second = [(1u64, 3u64), (2, 3), (3, 3)];
    for &(ts, _) in &first {
        data.push_global(ts, 20);
    }
    data.add_instance_series("ns", "web-6d4b75cb6d-abc12", "app", &series(&first))
        .unwrap();
    data.add_instance_series("ns", "db-1", "db", &series(&second))
        .unwrap();
    let bytes = encode_dataset(&data);
    let back = decode_dataset(&bytes).unwrap();
    let web = ContainerId {
        namespace: "ns".to_string(),
        controller_type: ControllerType::Deployment,
        controller_id: "web".to_string(),
        container: "app".to_string(),
    };
    let db = ContainerId {
        namespace: "ns".to_string(),
        controller_type: ControllerType::StatefulSet,
        controller_id: "db".to_string(),
        container: "db".to_string(),
    };
    for id in [&web, &db] {
        let h0 = data.histogram_for(id).expect("entity before");
        let h1 = back.histogram_for(id).expect("entity after");
        for p in 0..=100u8 {
            assert_eq!(h0.value_at_percentile(p), h1.value_at_percentile(p));
        }
    }
    // the reloaded dataset analyzes identically
    let tolerance = RiskTolerance::new(0, 1).unwrap();
    let rec0 = calculate_requests(&data, &tolerance).unwrap();
    let rec1 = calculate_requests(&back, &tolerance).unwrap();
    assert_eq!(rec0.percentile, rec1.percentile);
    assert_eq!(rec0.entries.len(), rec1.entries.len());
    for (a, b) in rec0.entries.iter().zip(rec1.entries.iter()) {
        assert_eq!(a, b);
    }
    // and re-encoding reproduces the identical snapshot
    assert_eq!(encode_dataset(&back), bytes);
}

#[test]
fn snapshot_rejects_corrupt_bytes() {
    let data = scenario_dataset();
    let mut bytes = encode_dataset(&data);
    bytes.truncate(bytes.len() - 1);
    assert!(decode_dataset(&bytes).is_err());
    assert!(decode_dataset(&vec![]).is_err());
}

#[test]
fn classifies_instance_names() {
    assert_eq!(
        classify_instance_name("web-6d4b75cb6d-abc12"),
        (ControllerType::Deployment, "web".to_string())
    );
    assert_eq!(
        classify_instance_name("node-exporter-x7k2m"),
        (ControllerType::DaemonSet, "node-exporter".to_string())
    );
    assert_eq!(
        classify_instance_name("db-0"),
        (ControllerType::StatefulSet, "db".to_string())
    );
    assert_eq!(
        classify_instance_name("standalone_pod"),
        (ControllerType::Other, "standalone_pod".to_string())
    );
    // an uppercase character in the suffix is not instance churn
    assert_eq!(
        classify_instance_name("web-ABC12"),
        (ControllerType::Other, "web-ABC12".to_string())
    );
}

#[test]
fn replicas_of_one_controller_share_a_histogram() {
    let mut data = MemoryInfo::new(3).unwrap();
    data.push_global(1, 16);
    data.add_instance_series("ns", "web-6d4b75cb6d-abc12", "app", &series(&[(1, 8)]))
        .unwrap();
    data.add_instance_series("ns", "web-6d4b75cb6d-zzz99", "app", &series(&[(1, 8)]))
        .unwrap();
    let web = ContainerId {
        namespace: "ns".to_string(),
        controller_type: ControllerType::Deployment,
        controller_id: "web".to_string(),
        container: "app".to_string(),
    };
    let h = data.histogram_for(&web).expect("merged entity");
    assert_eq!(h.total_count(), 2);
    // listed once per timestamp even though two replicas reported
    let ids = data.presence_for(1).expect("presence entry");
    assert_eq!(ids.len(), 1);
    assert_eq!(ids[0], web);
}

#[test]
fn consistency_check_accepts_aligned_data() {
    let data = scenario_dataset();
    assert!(data.is_consistent());
}

#[test]
fn consistency_check_flags_disagreeing_timestamps() {
    // entity samples without matching aggregate points
    let mut data = MemoryInfo::new(3).unwrap();
    data.add_instance_series("ns", "app-0", "main", &series(&[(1, 5)]))
        .unwrap();
    assert!(!data.is_consistent());
    // aggregate points without matching presence entries
    let mut data = MemoryInfo::new(3).unwrap();
    data.push_global(7, 5);
    data.add_instance_series("ns", "app-0", "main", &series(&[(7, 5), (8, 5)]))
        .unwrap();
    assert!(!data.is_consistent());
}

#[test]
fn infeasible_tolerance_recommends_the_maximum() {
    // even percentile 100 cannot cover an aggregate above the entity's peak
    let mut data = MemoryInfo::new(3).unwrap();
    data.push_global(1, 100);
    data.add_instance_series("ns", "app-0", "main", &series(&[(1, 1)]))
        .unwrap();
    let tolerance = RiskTolerance::new(0, 1).unwrap();
    let rec = calculate_requests(&data, &tolerance).unwrap();
    assert_eq!(rec.percentile, 100);
    assert_eq!(rec.entries[0].1, 1);
}
