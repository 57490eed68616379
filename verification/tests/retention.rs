use xtrace::json::Json;
use xtrace::memory_db::MemoryDb;
use xtrace::number::Double;
use xtrace::retention::{
    cap_metrics, cutoff, database_steps, expire_metrics, expire_traces, record_step,
    retain_memory_at, run_memory_retention, DatabaseStep, RetentionConfig, RetentionStats,
};
use xtrace::rows::{MetricRow, ObservationRow, TraceRow};
use xtrace::time::Timestamp;

const DAY: i64 = 86_400;

fn at(secs: i64) -> Timestamp {
    Timestamp::new(secs, 0).unwrap()
}

fn metric(secs: i64) -> MetricRow {
    MetricRow {
        project_id: "p".to_string(),
        environment: "default".to_string(),
        name: "m".to_string(),
        labels: Json::Null,
        value: Double { bits: 0 },
        timestamp: at(secs),
        created_at: at(secs),
    }
}

fn trace(id: u128, secs: i64) -> TraceRow {
    TraceRow {
        id,
        timestamp: at(secs),
        name: None,
        input: None,
        output: None,
        session_id: None,
        release: None,
        version: None,
        user_id: None,
        metadata: None,
        tags: Vec::new(),
        public: false,
        environment: "default".to_string(),
        latency: None,
        total_cost: None,
        external_id: None,
        bookmarked: false,
        project_id: "p".to_string(),
        created_at: at(secs),
        updated_at: at(secs),
    }
}

fn observation(id: u128, trace_id: u128, start: Option<i64>) -> ObservationRow {
    ObservationRow {
        id,
        trace_id,
        obs_type: "SPAN".to_string(),
        name: None,
        start_time: start.map(at),
        end_time: None,
        completion_start_time: None,
        model: None,
        model_parameters: None,
        input: None,
        output: None,
        usage: None,
        level: None,
        status_message: None,
        parent_observation_id: None,
        prompt_id: None,
        prompt_name: None,
        prompt_version: None,
        model_id: None,
        input_price: None,
        output_price: None,
        total_price: None,
        calculated_input_cost: None,
        calculated_output_cost: None,
        calculated_total_cost: None,
        latency: None,
        time_to_first_token: None,
        completion_tokens: None,
        prompt_tokens: None,
        total_tokens: None,
        unit: None,
        metadata: None,
        environment: "default".to_string(),
        project_id: "p".to_string(),
        created_at: at(0),
        updated_at: at(0),
    }
}

fn seconds(rows: &[MetricRow]) -> Vec<i64> {
    rows.iter().map(|m| m.timestamp.seconds()).collect()
}

#[test]
fn nothing_is_limited_by_default() {
    let c = RetentionConfig::default();
    assert!(!c.enabled());
    assert_eq!(c.interval_hours, 24);
    assert_eq!(c.interval_seconds(), 86_400);
    assert!(RetentionConfig { memory_max_traces: 1, ..c }.enabled());
    assert!(RetentionConfig { metrics_downsample_after_days: 1, ..c }.enabled());
    assert_eq!(RetentionConfig { interval_hours: 0, ..c }.interval_seconds(), 3600);
}

#[test]
fn old_points_expire() {
    assert_eq!(cutoff(&at(10 * DAY), 3), at(7 * DAY));
    let kept = expire_metrics(vec![metric(5), metric(4), metric(6)], &at(5));
    assert_eq!(seconds(&kept), vec![5, 6]);
}

#[test]
fn the_newest_points_stay() {
    let kept = cap_metrics(vec![metric(5), metric(1), metric(3), metric(1)], 2);
    assert_eq!(seconds(&kept), vec![3, 5]);
    let kept = cap_metrics(vec![metric(5), metric(1)], 2);
    assert_eq!(seconds(&kept), vec![5, 1]);
}

#[test]
fn old_traces_go_with_their_observations() {
    let mut db = MemoryDb::new();
    db.insert_trace(trace(1, 10));
    db.insert_trace(trace(2, 20));
    db.insert_observation(observation(11, 1, Some(30)));
    db.insert_observation(observation(12, 2, Some(5)));
    db.insert_observation(observation(13, 2, None));
    let gone = expire_traces(&mut db, &at(15));
    assert_eq!(gone, (1, 2));
    assert!(!db.has_trace(1));
    assert!(db.has_trace(2));
    let left = db.list_observations();
    assert_eq!(left.len(), 1);
    assert_eq!(left[0].id, 13);
}

#[test]
fn a_pass_applies_every_limit() {
    let mut db = MemoryDb::new();
    let now = at(100 * DAY);
    for d in 90..100 {
        db.push_metric(metric(d * DAY));
        db.insert_trace(trace(d as u128, d * DAY));
        db.insert_observation(observation(1000 + d as u128, d as u128, None));
    }
    let config = RetentionConfig {
        metrics_retention_days: 8,
        traces_retention_days: 7,
        metrics_downsample_after_days: 0,
        interval_hours: 24,
        memory_max_metrics: 3,
        memory_max_traces: 4,
    };
    let mut stats = RetentionStats::default();
    retain_memory_at(&mut db, &config, &mut stats, &now);
    assert_eq!(stats.metrics_deleted, 2);
    assert_eq!(stats.memory_metrics_evicted, 5);
    assert_eq!(stats.traces_deleted, 3);
    assert_eq!(stats.observations_deleted, 3);
    assert_eq!(stats.memory_traces_evicted, 3);
    assert_eq!(seconds(db.metric_rows()), vec![97 * DAY, 98 * DAY, 99 * DAY]);
    assert_eq!(db.trace_count(), 4);
    assert!(db.has_trace(96) && db.has_trace(99) && !db.has_trace(95));
    let mut left: Vec<u128> = db.list_observations().iter().map(|o| o.id).collect();
    left.sort();
    assert_eq!(left, vec![1096, 1097, 1098, 1099]);
}

#[test]
fn no_limit_keeps_everything() {
    let mut db = MemoryDb::new();
    db.push_metric(metric(1));
    db.insert_trace(trace(1, 1));
    let mut stats = RetentionStats::default();
    assert!(run_memory_retention(&mut db, &RetentionConfig::default(), &mut stats));
    assert_eq!(db.metric_rows().len(), 1);
    assert_eq!(db.trace_count(), 1);
    assert_eq!(stats.metrics_deleted, 0);
    let far = RetentionConfig { metrics_retention_days: u32::MAX, ..RetentionConfig::default() };
    assert!(!run_memory_retention(&mut db, &far, &mut stats));
    assert_eq!(db.metric_rows().len(), 1);
    let day = RetentionConfig {
        metrics_retention_days: 1,
        traces_retention_days: 1,
        ..RetentionConfig::default()
    };
    assert!(run_memory_retention(&mut db, &day, &mut stats));
    assert_eq!(db.metric_rows().len(), 0);
    assert_eq!(db.trace_count(), 0);
}

#[test]
fn databases_are_cleaned_in_steps() {
    let now = at(100 * DAY);
    let config = RetentionConfig {
        metrics_retention_days: 10,
        traces_retention_days: 20,
        metrics_downsample_after_days: 5,
        ..RetentionConfig::default()
    };
    let steps = database_steps(&config, &now);
    let (from, to) = (at(90 * DAY), at(95 * DAY));
    assert_eq!(
        steps,
        vec![
            DatabaseStep::Downsample { from, to },
            DatabaseStep::DeleteMetricsBefore { before: from },
            DatabaseStep::DeleteObservationsBefore { before: at(80 * DAY) },
            DatabaseStep::DeleteTracesBefore { before: at(80 * DAY) },
        ]
    );
    let only_downsampling = RetentionConfig {
        metrics_downsample_after_days: 5,
        ..RetentionConfig::default()
    };
    assert!(database_steps(&only_downsampling, &now).is_empty());
    let mut stats = RetentionStats::default();
    for (i, step) in steps.iter().enumerate() {
        record_step(&mut stats, step, 10 + i as u64, 3);
    }
    assert_eq!(stats.metrics_downsampled, 3);
    assert_eq!(stats.metrics_deleted, 10 + 11);
    assert_eq!(stats.observations_deleted, 12);
    assert_eq!(stats.traces_deleted, 13);
}

#[test]
fn what_was_done_is_told() {
    let mut stats = RetentionStats::default();
    stats.record_run();
    assert_eq!(
        stats.snapshot().to_text(),
        "{\"last_error\":null,\"memory_metrics_evicted\":0,\"memory_traces_evicted\":0,\"metrics_deleted\":0,\"metrics_downsampled\":0,\"observations_deleted\":0,\"runs\":1,\"traces_deleted\":0}"
    );
    stats.record_error("broken \"pipe\"".to_string());
    assert!(stats.snapshot().to_text().starts_with("{\"last_error\":\"broken \\\"pipe\\\"\","));
}

#[test]
fn the_clock_reaches_back_through_the_calendar() {
    let mut stats = RetentionStats::default();
    for (days, done) in [(1, true), (36_500, true), (96_465_292, true), (u32::MAX, false)] {
        let mut db = MemoryDb::new();
        db.push_metric(metric(1));
        db.insert_trace(trace(1, 1));
        db.insert_observation(observation(2, 1, None));
        let c = RetentionConfig { traces_retention_days: days, ..RetentionConfig::default() };
        assert_eq!(run_memory_retention(&mut db, &c, &mut stats), done, "{days}");
        let old = days == 1;
        assert_eq!(db.trace_count(), if old { 0 } else { 1 });
        assert_eq!(db.list_observations().len(), if old { 0 } else { 1 });
        assert_eq!(db.metric_rows().len(), 1);
    }
    assert_eq!((stats.traces_deleted, stats.observations_deleted), (1, 1));
}

#[test]
fn a_pass_removes_exactly_the_old_traces() {
    let now = at(100 * DAY);
    let c = RetentionConfig { traces_retention_days: 10, ..RetentionConfig::default() };
    let mut db = MemoryDb::new();
    db.insert_trace(trace(1, 90 * DAY - 1));
    db.insert_trace(trace(2, 90 * DAY));
    db.insert_trace(trace(3, 99 * DAY));
    db.insert_observation(observation(11, 1, Some(99 * DAY)));
    db.insert_observation(observation(12, 2, Some(90 * DAY - 1)));
    db.insert_observation(observation(13, 2, Some(90 * DAY)));
    db.insert_observation(observation(14, 3, None));
    db.insert_observation(observation(15, 7, None));
    let mut stats = RetentionStats::default();
    retain_memory_at(&mut db, &c, &mut stats, &now);
    assert!(!db.has_trace(1) && db.has_trace(2) && db.has_trace(3));
    let mut left: Vec<u128> = db.list_observations().iter().map(|o| o.id).collect();
    left.sort();
    assert_eq!(left, vec![13, 14, 15]);
    assert_eq!((stats.traces_deleted, stats.observations_deleted), (1, 2));
    assert_eq!(stats.memory_traces_evicted, 0);
}

#[test]
fn a_pass_caps_metric_points_by_age() {
    let c = RetentionConfig { memory_max_metrics: 3, ..RetentionConfig::default() };
    for (given, left, evicted) in [
        (vec![5, 1, 4, 2], vec![2, 4, 5], 1),
        (vec![5, 1, 4], vec![5, 1, 4], 0),
        (vec![2], vec![2], 0),
    ] {
        let mut db = MemoryDb::new();
        for secs in given {
            db.push_metric(metric(secs));
        }
        let mut stats = RetentionStats::default();
        retain_memory_at(&mut db, &c, &mut stats, &at(10));
        assert_eq!(seconds(db.metric_rows()), left);
        assert_eq!((stats.memory_metrics_evicted, stats.metrics_deleted), (evicted, 0));
    }
}
