use xtrace::error::ApiError;
use xtrace::label_governance::{
    parse_label_key_set, KeySet, LabelGovernance, LabelGovernanceConfig, LabelOverflowPolicy,
    MetricPointIngest,
};
use xtrace::labels::Labels;
use xtrace::number::Double;
use xtrace::time::Timestamp;

fn labels(pairs: &[(&str, &str)]) -> Labels {
    let mut l = Labels::new();
    for (k, v) in pairs {
        l.insert(k.to_string(), v.to_string());
    }
    l
}

fn point(labels: Labels) -> MetricPointIngest {
    MetricPointIngest {
        name: "test".to_string(),
        labels,
        value: Double { bits: 1.0f64.to_bits() },
        timestamp: Timestamp::now(),
    }
}

#[test]
fn drop_labels_removes_denylisted_keys() {
    let mut gov = LabelGovernance::new(LabelGovernanceConfig {
        deny_keys: KeySet::from_keys(vec!["user_id".to_string()]),
        ..Default::default()
    });
    let mut labels = Labels::new();
    labels.insert("user_id".to_string(), "u1".to_string());
    labels.insert("node".to_string(), "n1".to_string());
    let out = gov.apply_point(point(labels)).unwrap().unwrap();
    assert_eq!(out.labels.len(), 1);
    assert_eq!(out.labels.get("node").map(String::as_str), Some("n1"));
    assert_eq!(gov.stats.labels_dropped, 1);
}

#[test]
fn reject_point_fails_on_denylisted_key() {
    let mut gov = LabelGovernance::new(LabelGovernanceConfig {
        deny_keys: KeySet::from_keys(vec!["request_id".to_string()]),
        overflow_policy: LabelOverflowPolicy::RejectPoint,
        ..Default::default()
    });
    let mut labels = Labels::new();
    labels.insert("request_id".to_string(), "r1".to_string());
    assert!(gov.apply_point(point(labels)).unwrap().is_none());
    assert_eq!(gov.stats.points_rejected, 1);
}

#[test]
fn drop_labels_truncates_excess_keys() {
    let mut gov = LabelGovernance::new(LabelGovernanceConfig {
        max_labels_per_point: 2,
        ..Default::default()
    });
    let labels = labels(&[("a", "1"), ("b", "2"), ("c", "3")]);
    let out = gov.apply_point(point(labels)).unwrap().unwrap();
    assert_eq!(out.labels.len(), 2);
    assert_eq!(gov.stats.labels_dropped, 1);
}

#[test]
fn reject_batch_fails_entire_batch() {
    let mut gov = LabelGovernance::new(LabelGovernanceConfig {
        deny_keys: KeySet::from_keys(vec!["user_id".to_string()]),
        overflow_policy: LabelOverflowPolicy::RejectBatch,
        ..Default::default()
    });
    let bad = labels(&[("user_id", "u1")]);
    let good = labels(&[("node", "n1")]);
    let err = gov.apply_batch(vec![point(good), point(bad)]).unwrap_err();
    assert!(matches!(err, ApiError::BadRequest(_)));
    assert_eq!(gov.stats.batches_rejected, 1);
}

#[test]
fn excess_labels_go_in_the_order_of_their_keys() {
    let gov = LabelGovernance::new(LabelGovernanceConfig {
        max_labels_per_point: 2,
        ..Default::default()
    });
    let (kept, gone) = gov.govern_labels(labels(&[("c", "3"), ("a", "1"), ("b", "2")])).unwrap();
    assert_eq!(kept.get("a").map(String::as_str), Some("1"));
    assert_eq!(kept.get("b").map(String::as_str), Some("2"));
    assert!(kept.get("c").is_none());
    assert_eq!(gone, vec!["c".to_string()]);
}

#[test]
fn long_values_and_unlisted_keys_are_dropped() {
    let gov = LabelGovernance::new(LabelGovernanceConfig {
        max_label_value_len: 3,
        allow_keys: Some(KeySet::from_keys(vec!["ok".to_string(), "long".to_string()])),
        ..Default::default()
    });
    let (kept, gone) =
        gov.govern_labels(labels(&[("ok", "abc"), ("long", "abcd"), ("other", "x")])).unwrap();
    assert_eq!(kept.len(), 1);
    assert_eq!(kept.get("ok").map(String::as_str), Some("abc"));
    assert_eq!(gone.len(), 2);
}

#[test]
fn value_lengths_are_counted_in_bytes() {
    let gov = LabelGovernance::new(LabelGovernanceConfig {
        max_label_value_len: 2,
        ..Default::default()
    });
    assert!(gov.check_violations(&labels(&[("k", "é")])).is_ok());
    assert!(gov.check_violations(&labels(&[("k", "éa")])).is_err());
}

#[test]
fn lawful_points_pass_untouched() {
    for policy in [
        LabelOverflowPolicy::DropLabels,
        LabelOverflowPolicy::RejectPoint,
        LabelOverflowPolicy::RejectBatch,
    ] {
        let mut gov = LabelGovernance::new(LabelGovernanceConfig {
            overflow_policy: policy,
            ..Default::default()
        });
        let out = gov.apply_batch(vec![point(labels(&[("b", "2"), ("a", "1")]))]).unwrap();
        assert_eq!(out.len(), 1);
        assert_eq!(out[0].labels.len(), 2);
        let counts = gov.stats.snapshot();
        assert_eq!(counts.labels_dropped, 0);
        assert_eq!(counts.points_rejected, 0);
        assert_eq!(counts.batches_rejected, 0);
    }
}

#[test]
fn rejected_points_leave_the_rest_of_a_batch() {
    let mut gov = LabelGovernance::new(LabelGovernanceConfig {
        deny_keys: KeySet::from_keys(vec!["bad".to_string()]),
        overflow_policy: LabelOverflowPolicy::RejectPoint,
        ..Default::default()
    });
    let out = gov
        .apply_batch(vec![
            point(labels(&[("a", "1")])),
            point(labels(&[("bad", "1")])),
            point(labels(&[("b", "1")])),
        ])
        .unwrap();
    assert_eq!(out.len(), 2);
    assert!(out[0].labels.get("a").is_some());
    assert!(out[1].labels.get("b").is_some());
    assert_eq!(gov.stats.points_rejected, 1);
}

#[test]
fn policies_are_read_in_any_case() {
    assert_eq!(LabelOverflowPolicy::parse(" Drop "), Some(LabelOverflowPolicy::DropLabels));
    assert_eq!(LabelOverflowPolicy::parse("drop_labels"), Some(LabelOverflowPolicy::DropLabels));
    assert_eq!(LabelOverflowPolicy::parse("REJECT-POINT"), Some(LabelOverflowPolicy::RejectPoint));
    assert_eq!(LabelOverflowPolicy::parse("reject_batch"), Some(LabelOverflowPolicy::RejectBatch));
    assert_eq!(LabelOverflowPolicy::parse("reject"), None);
}

#[test]
fn key_sets_are_read_from_lists() {
    assert!(parse_label_key_set(None).is_none());
    assert!(parse_label_key_set(Some("  ")).is_none());
    assert!(parse_label_key_set(Some(" , ,")).is_none());
    let keys = parse_label_key_set(Some(" a, b ,,a")).unwrap();
    assert!(keys.contains("a"));
    assert!(keys.contains("b"));
    assert!(!keys.contains(" a"));
}

#[test]
fn default_rules_allow_64_labels_of_256_bytes() {
    let gov = LabelGovernance::default();
    assert_eq!(gov.config.max_labels_per_point, 64);
    assert_eq!(gov.config.max_label_value_len, 256);
    assert!(gov.config.allow_keys.is_none());
    assert_eq!(gov.config.overflow_policy, LabelOverflowPolicy::DropLabels);
}

#[test]
fn labels_hold_each_key_once() {
    let mut l = labels(&[("k", "1"), ("j", "0")]);
    l.insert("k".to_string(), "2".to_string());
    assert_eq!(l.len(), 2);
    assert_eq!(l.get("k").map(String::as_str), Some("2"));
    assert!(l.get("x").is_none());
    let pairs = l.into_pairs();
    assert_eq!(pairs.len(), 2);
}

#[test]
fn the_order_of_labels_does_not_matter() {
    let gov = LabelGovernance::new(LabelGovernanceConfig {
        max_labels_per_point: 2,
        deny_keys: KeySet::from_keys(vec!["x".to_string()]),
        ..Default::default()
    });
    let (a, _) = gov.govern_labels(labels(&[("c", "3"), ("x", "0"), ("a", "1"), ("b", "2")])).unwrap();
    let (b, _) = gov.govern_labels(labels(&[("b", "2"), ("a", "1"), ("c", "3"), ("x", "0")])).unwrap();
    assert_eq!(a.len(), 2);
    assert_eq!(b.len(), 2);
    for key in ["a", "b", "c", "x"] {
        assert_eq!(a.get(key), b.get(key));
    }
}

#[test]
fn governing_twice_changes_nothing_more() {
    for policy in [
        LabelOverflowPolicy::DropLabels,
        LabelOverflowPolicy::RejectPoint,
        LabelOverflowPolicy::RejectBatch,
    ] {
        let mut gov = LabelGovernance::new(LabelGovernanceConfig {
            max_labels_per_point: 2,
            deny_keys: KeySet::from_keys(vec!["user_id".to_string()]),
            overflow_policy: policy,
            ..Default::default()
        });
        let mut points = vec![point(labels(&[("b", "1"), ("a", "2")])), point(labels(&[]))];
        if policy != LabelOverflowPolicy::RejectBatch {
            points.push(point(labels(&[("d", "1"), ("user_id", "u"), ("c", "2"), ("a", "3")])));
        }
        let once = gov.apply_batch(points).unwrap();
        let counted = gov.stats.snapshot();
        match policy {
            LabelOverflowPolicy::DropLabels => {
                assert_eq!(once.len(), 3);
                assert_eq!((counted.labels_dropped, counted.points_rejected), (2, 0));
            }
            LabelOverflowPolicy::RejectPoint => {
                assert_eq!(once.len(), 2);
                assert_eq!((counted.labels_dropped, counted.points_rejected), (0, 1));
            }
            LabelOverflowPolicy::RejectBatch => {
                assert_eq!(once.len(), 2);
                assert_eq!((counted.labels_dropped, counted.batches_rejected), (0, 0));
            }
        }
        let before: Vec<String> = once.iter().map(|p| format!("{p:?}")).collect();
        let twice = gov.apply_batch(once).unwrap();
        let after: Vec<String> = twice.iter().map(|p| format!("{p:?}")).collect();
        assert_eq!(before, after);
        assert_eq!(format!("{:?}", gov.stats.snapshot()), format!("{counted:?}"));
    }
}
