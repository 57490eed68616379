use xtrace::error::ApiError;
use xtrace::json::{Json, Members};
use xtrace::label_governance::MetricPointIngest;
use xtrace::labels::Labels;
use xtrace::memory_db::MemoryDb;
use xtrace::metrics::{
    group_key_from_json, labels_and_group_key_from_json, labels_to_json, metric_names, parse_agg,
    parse_group_by_keys, parse_step_seconds, prepare_metrics, sql_string_literal,
    write_metrics_at, write_metrics_batches, MetricsBatchRequest,
};
use xtrace::metrics_daily::{
    daily_metrics, daily_page, group_days, page_count, page_fits, page_of, DailyFilter, Page,
};
use xtrace::metrics_overview::{
    error_trace_ids, list_error_traces, overview_view, overview_window, survey_traces,
    traces_overview, FilterSpec, OverviewView,
};
use xtrace::metrics_query::{
    bucket_value, filter_from, fold_limited_rows, group_metrics, labels_filter,
    labels_filter_text, limit_series, plan_query, plan_with_filter, query_metrics, query_window,
    rank_limits, window_of, BucketValue, LimitedRow, Limits, QueryRequest, Sample, Selection,
    Window,
};
use xtrace::number::Double;
use xtrace::rows::{Latency, MetricRow, ObservationRow, TraceRow};
use xtrace::sql::{
    agg_expression, conditions_of, daily_count_sql, daily_sql, metrics_query_sql,
    DailyConditions, Slot, SqlPiece,
};
use xtrace::time::Timestamp;

fn at(secs: i64) -> Timestamp {
    Timestamp::new(secs, 0).unwrap()
}

fn number(x: f64) -> Double {
    Double { bits: x.to_bits() }
}

fn labels(pairs: &[(&str, &str)]) -> Labels {
    let mut l = Labels::new();
    for (k, v) in pairs {
        l.insert(k.to_string(), v.to_string());
    }
    l
}

fn object(pairs: &[(&str, &str)]) -> Json {
    labels_to_json(labels(pairs))
}

fn point(name: &str, pairs: &[(&str, &str)], value: f64, secs: i64) -> MetricPointIngest {
    MetricPointIngest {
        name: name.to_string(),
        labels: labels(pairs),
        value: number(value),
        timestamp: at(secs),
    }
}

fn batch(project: &str, metrics: Vec<MetricPointIngest>) -> MetricsBatchRequest {
    MetricsBatchRequest { project_id: project.to_string(), metrics }
}

fn row(project: &str, pairs: &[(&str, &str)], value: f64, secs: i64) -> MetricRow {
    MetricRow {
        project_id: project.to_string(),
        environment: "default".to_string(),
        name: "m".to_string(),
        labels: object(pairs),
        value: number(value),
        timestamp: at(secs),
        created_at: at(0),
    }
}

fn selection(project: &str, keys: &[&str], filter: Option<Json>) -> Selection {
    Selection {
        project_id: project.to_string(),
        name: "m".to_string(),
        window: Window { from: at(0), to: at(1_000_000) },
        labels_filter: filter,
        group_by_keys: keys.iter().map(|k| k.to_string()).collect(),
        step_seconds: 60,
    }
}

fn trace(id: u128, project: &str, secs: i64) -> TraceRow {
    TraceRow {
        id,
        timestamp: at(secs),
        name: None,
        input: None,
        output: None,
        session_id: None,
        release: None,
        version: None,
        user_id: None,
        metadata: None,
        tags: Vec::new(),
        public: false,
        environment: "default".to_string(),
        latency: None,
        total_cost: None,
        external_id: None,
        bookmarked: false,
        project_id: project.to_string(),
        created_at: at(secs),
        updated_at: at(secs),
    }
}

fn observation(id: u128, trace_id: u128, project: &str) -> ObservationRow {
    ObservationRow {
        id,
        trace_id,
        obs_type: "GENERATION".to_string(),
        name: None,
        start_time: None,
        end_time: None,
        completion_start_time: None,
        model: None,
        model_parameters: None,
        input: None,
        output: None,
        usage: None,
        level: None,
        status_message: None,
        parent_observation_id: None,
        prompt_id: None,
        prompt_name: None,
        prompt_version: None,
        model_id: None,
        input_price: None,
        output_price: None,
        total_price: None,
        calculated_input_cost: None,
        calculated_output_cost: None,
        calculated_total_cost: None,
        latency: None,
        time_to_first_token: None,
        completion_tokens: None,
        prompt_tokens: None,
        total_tokens: None,
        unit: None,
        metadata: None,
        environment: "default".to_string(),
        project_id: project.to_string(),
        created_at: at(500),
        updated_at: at(500),
    }
}

fn no_filter() -> DailyFilter {
    DailyFilter { trace_name: None, user_id: None, tags: Vec::new(), version: None, release: None }
}

fn statement(pieces: &[SqlPiece]) -> String {
    let mut s = String::new();
    for p in pieces {
        match p {
            SqlPiece::Text(t) => s.push_str(t),
            SqlPiece::Bind(slot) => s.push_str(&format!("<{slot:?}>")),
        }
    }
    s
}

#[test]
fn steps_are_parsed() {
    assert_eq!(parse_step_seconds(None).unwrap(), 60);
    assert_eq!(parse_step_seconds(Some(" 1m ")).unwrap(), 60);
    assert_eq!(parse_step_seconds(Some("5m")).unwrap(), 300);
    assert_eq!(parse_step_seconds(Some("1h")).unwrap(), 3600);
    assert_eq!(parse_step_seconds(Some("1d")).unwrap(), 86400);
    match parse_step_seconds(Some("2m")) {
        Err(ApiError::BadRequest(m)) => {
            assert_eq!(m, "invalid step, must be one of: 1m, 5m, 1h, 1d")
        }
        _ => panic!("expected an error"),
    }
}

#[test]
fn aggregations_are_parsed() {
    assert_eq!(parse_agg(None).unwrap(), "avg");
    assert_eq!(parse_agg(Some(" P99 ")).unwrap(), "p99");
    for a in ["avg", "max", "min", "sum", "last", "count", "p50", "p90", "p99"] {
        assert_eq!(parse_agg(Some(a)).unwrap(), a);
    }
    match parse_agg(Some("median")) {
        Err(ApiError::BadRequest(m)) => assert_eq!(
            m,
            "invalid agg, must be one of: avg, max, min, sum, last, count, p50, p90, p99"
        ),
        _ => panic!("expected an error"),
    }
}

#[test]
fn group_keys_are_parsed() {
    assert!(parse_group_by_keys(None).is_empty());
    assert_eq!(
        parse_group_by_keys(Some(" a, ,b,,a")),
        vec!["a".to_string(), "b".to_string(), "a".to_string()]
    );
}

#[test]
fn sql_literals_double_their_quotes() {
    assert_eq!(sql_string_literal("a"), "'a'");
    assert_eq!(sql_string_literal("o'b''c"), "'o''b''''c'");
    assert_eq!(sql_string_literal(""), "''");
}

#[test]
fn labels_are_written_in_the_order_of_their_keys() {
    assert_eq!(object(&[("b", "2"), ("a", "1")]).to_text(), "{\"a\":\"1\",\"b\":\"2\"}");
    assert_eq!(object(&[]).to_text(), "{}");
}

#[test]
fn group_keys_name_series() {
    let l = object(&[("b", "2"), ("a", "1")]);
    assert_eq!(group_key_from_json(&l, &vec![]), "{\"a\":\"1\",\"b\":\"2\"}");
    let keys = vec!["b".to_string(), "x".to_string()];
    assert_eq!(group_key_from_json(&l, &keys), "[[\"b\",\"2\"],[\"x\",null]]");
    let (picked, key) = labels_and_group_key_from_json(&l, &keys);
    assert_eq!(picked.to_text(), "{\"b\":\"2\",\"x\":null}");
    assert_eq!(key, "[[\"b\",\"2\"],[\"x\",null]]");
    let (all, key) = labels_and_group_key_from_json(&l, &vec![]);
    assert!(all.equals(&l));
    assert_eq!(key, l.to_text());
}

#[test]
fn points_become_rows_of_their_project() {
    let rows = prepare_metrics(
        vec![
            batch("a", vec![point("x", &[("k", "v")], 1.5, 10)]),
            batch("b", vec![point("y", &[], 2.0, 20)]),
        ],
        &at(99),
    );
    assert_eq!(rows.len(), 2);
    assert_eq!(rows[0].project_id, "a");
    assert_eq!(rows[0].environment, "default");
    assert_eq!(rows[0].labels.to_text(), "{\"k\":\"v\"}");
    assert_eq!(rows[0].value, number(1.5));
    assert_eq!(rows[0].created_at, at(99));
    assert_eq!(rows[1].project_id, "b");
}

#[test]
fn names_are_listed_once_in_order() {
    let mut db = MemoryDb::new();
    write_metrics_at(
        &mut db,
        vec![batch(
            "a",
            vec![point("z", &[], 1.0, 1), point("b", &[], 1.0, 1), point("z", &[], 2.0, 2)],
        )],
        &at(5),
    );
    write_metrics_batches(&mut db, vec![batch("other", vec![point("q", &[], 1.0, 1)])]);
    assert_eq!(metric_names(db.metric_rows(), "a"), vec!["b".to_string(), "z".to_string()]);
    assert_eq!(metric_names(db.metric_rows(), "other"), vec!["q".to_string()]);
    assert!(metric_names(db.metric_rows(), "none").is_empty());
    assert_eq!(db.metric_rows().len(), 4);
}

#[test]
fn other_environments_are_not_listed() {
    let mut db = MemoryDb::new();
    let mut r = row("a", &[], 1.0, 1);
    r.environment = "prod".to_string();
    db.push_metric(r);
    assert!(metric_names(db.metric_rows(), "a").is_empty());
    let rows = db.take_metrics();
    assert_eq!(rows.len(), 1);
    assert!(db.metric_rows().is_empty());
    db.set_metrics(rows);
    assert_eq!(db.metric_rows().len(), 1);
}

#[test]
fn windows_reach_back() {
    let now = at(100_000);
    let w = window_of(None, None, 600, &now);
    assert_eq!((w.from, w.to), (at(99_400), now));
    let w = window_of(None, Some(at(5_000)), 600, &now);
    assert_eq!((w.from, w.to), (at(4_400), at(5_000)));
    let w = query_window(None, None, &now).unwrap();
    assert_eq!((w.from, w.to), (at(96_400), now));
    match query_window(Some(at(10)), Some(at(9)), &now) {
        Err(ApiError::BadRequest(m)) => assert_eq!(m, "from must be <= to"),
        _ => panic!("expected an error"),
    }
    let w = query_window(Some(at(9)), Some(at(9)), &now).unwrap();
    assert!(w.holds(&at(9)));
    assert!(!w.holds(&at(10)));
    assert!(!w.holds(&at(8)));
}

#[test]
fn blank_label_filters_are_none() {
    assert_eq!(labels_filter_text(None), None);
    assert_eq!(labels_filter_text(Some("  ")), None);
    assert_eq!(labels_filter_text(Some(" {} ")), Some(" {} "));
}

#[test]
fn label_filters_are_read() {
    assert!(labels_filter(None).unwrap().is_none());
    assert!(labels_filter(Some(" ")).unwrap().is_none());
    let f = labels_filter(Some(" {\"b\": \"2\", \"a\": \"1\"}")).unwrap().unwrap();
    assert_eq!(f.to_text(), "{\"a\":\"1\",\"b\":\"2\"}");
    match labels_filter(Some("{")) {
        Err(ApiError::BadRequest(m)) => {
            let e = serde_json::from_str::<serde_json::Value>("{").unwrap_err();
            assert_eq!(m, format!("invalid labels json: {e}"));
        }
        _ => panic!("expected an error"),
    }
    match filter_from(Err("why".to_string())) {
        Err(ApiError::BadRequest(m)) => assert_eq!(m, "invalid labels json: why"),
        _ => panic!("expected an error"),
    }
    assert!(filter_from(Ok(Json::Null)).unwrap().unwrap().equals(&Json::Null));
}

#[test]
fn points_are_grouped_by_series_and_step() {
    let rows = vec![
        row("a", &[("node", "n2")], 1.0, 61),
        row("a", &[("node", "n1")], 2.0, 59),
        row("a", &[("node", "n1")], 3.0, 60),
        row("a", &[("node", "n1")], 4.0, 0),
        row("b", &[("node", "n1")], 5.0, 0),
    ];
    let series = group_metrics(&rows, &selection("a", &[], None));
    assert_eq!(series.len(), 2);
    assert_eq!(series[0].key, "{\"node\":\"n1\"}");
    assert_eq!(series[0].buckets.len(), 2);
    assert_eq!(series[0].buckets[0].start, at(0));
    assert_eq!(series[0].buckets[0].samples.len(), 2);
    assert_eq!(series[0].buckets[0].samples[0].value, number(2.0));
    assert_eq!(series[0].buckets[1].start, at(60));
    assert_eq!(series[1].key, "{\"node\":\"n2\"}");
    assert_eq!(series[1].buckets[0].start, at(60));
}

#[test]
fn filters_and_groups_pick_labels() {
    let rows = vec![
        row("a", &[("node", "n1"), ("region", "r1")], 1.0, 1),
        row("a", &[("node", "n1"), ("region", "r2")], 2.0, 2),
        row("a", &[("node", "n2"), ("region", "r1")], 3.0, 3),
    ];
    let q = selection("a", &["region"], Some(object(&[("node", "n1")])));
    let series = group_metrics(&rows, &q);
    assert_eq!(series.len(), 2);
    assert_eq!(series[0].labels.to_text(), "{\"region\":\"r1\"}");
    assert_eq!(series[0].buckets[0].samples.len(), 1);
    let q = selection("a", &["node"], None);
    let series = group_metrics(&rows, &q);
    assert_eq!(series.len(), 2);
    assert_eq!(series[0].buckets[0].samples.len(), 2);
}

#[test]
fn other_projects_are_invisible() {
    let rows = vec![row("team-a", &[("tenant", "a")], 9.0, 5)];
    let limits = Limits { max_series: 50, max_points: 1000 };
    let b = query_metrics(&rows, &selection("team-b", &[], None), &limits);
    assert!(b.series.is_empty());
    assert!(b.latest.is_none());
    let a = query_metrics(&rows, &selection("team-a", &[], None), &limits);
    assert_eq!(a.series.len(), 1);
    assert_eq!(a.series[0].buckets[0].samples[0].value, number(9.0));
    assert_eq!(a.latest, Some(at(0)));
    assert!(!a.truncated);
}

#[test]
fn written_points_are_found() {
    let mut db = MemoryDb::new();
    let limits = Limits { max_series: 50, max_points: 1000 };
    write_metrics_at(&mut db, vec![batch("a", vec![point("m", &[("k", "v")], 1.0, 30)])], &at(1));
    write_metrics_at(&mut db, vec![batch("a", vec![point("m", &[("k", "v")], 2.0, 31)])], &at(2));
    let a = query_metrics(db.metric_rows(), &selection("a", &[], None), &limits);
    assert_eq!(a.series.len(), 1);
    let samples = &a.series[0].buckets[0].samples;
    assert!(samples.contains(&Sample { value: number(1.0), timestamp: at(30) }));
    assert!(samples.contains(&Sample { value: number(2.0), timestamp: at(31) }));
}

#[test]
fn queries_are_planned_or_refused_for_their_first_fault() {
    let now = at(10_000);
    let good = QueryRequest {
        project_id: "a",
        name: "cpu",
        from: Some(at(100)),
        to: Some(at(200)),
        step: Some(" 5m "),
        agg: Some("MAX"),
        group_by: Some("node, ,region"),
    };
    let plan = plan_query(&good, Some("{\"k\":\"v\"}"), &now).unwrap();
    assert_eq!(plan.agg, "max");
    assert_eq!(plan.selection.project_id, "a");
    assert_eq!(plan.selection.name, "cpu");
    assert_eq!(plan.selection.window, Window { from: at(100), to: at(200) });
    assert_eq!(plan.selection.step_seconds, 300);
    assert_eq!(plan.selection.group_by_keys, vec!["node", "region"]);
    assert_eq!(plan.selection.labels_filter.unwrap().to_text(), "{\"k\":\"v\"}");

    let bare = QueryRequest { from: None, to: None, step: None, agg: None, group_by: None, ..good };
    let plan = plan_query(&bare, Some("  "), &now).unwrap();
    assert_eq!(plan.agg, "avg");
    assert_eq!(plan.selection.window, Window { from: at(6_400), to: at(10_000) });
    assert_eq!(plan.selection.step_seconds, 60);
    assert!(plan.selection.group_by_keys.is_empty());
    assert!(plan.selection.labels_filter.is_none());

    let fault = |q: &QueryRequest, labels: Option<&str>| match plan_query(q, labels, &now) {
        Err(ApiError::BadRequest(m)) => m,
        other => panic!("{other:?}"),
    };
    let mut bad = QueryRequest {
        from: Some(at(201)),
        step: Some("2m"),
        agg: Some("median"),
        ..good
    };
    assert_eq!(fault(&bad, Some("{")), "from must be <= to");
    bad.from = Some(at(200));
    assert_eq!(fault(&bad, Some("{")), "invalid step, must be one of: 1m, 5m, 1h, 1d");
    bad.step = Some("1d");
    assert!(fault(&bad, Some("{")).starts_with("invalid agg, must be one of: avg,"));
    bad.agg = Some("p99");
    assert!(fault(&bad, Some("{")).starts_with("invalid labels json: "));
    assert!(plan_query(&bad, None, &now).is_ok());
    let unread = Err(ApiError::BadRequest("unread".to_string()));
    match plan_with_filter(&bad, unread, &now) {
        Err(ApiError::BadRequest(m)) => assert_eq!(m, "unread"),
        other => panic!("{other:?}"),
    }
}

#[test]
fn one_more_than_each_limit_is_fetched() {
    let l = rank_limits(&Limits { max_series: 2, max_points: 3 });
    assert_eq!((l.max_points, l.max_series), (3, 2));
    assert_eq!((l.fetched_points, l.fetched_series), (4, 3));
    let most = rank_limits(&Limits { max_series: usize::MAX, max_points: i64::MAX as usize });
    assert_eq!((most.max_points, most.fetched_points), (i64::MAX, i64::MAX));
    assert_eq!((most.max_series, most.fetched_series), (i64::MAX, i64::MAX));

    // Two series are shown of three, and of each three steps of four.
    let ranked = |points: i64, series: i64| -> Vec<LimitedRow> {
        let mut rows = Vec::new();
        for s in 1..=series {
            for p in 1..=points {
                rows.push(LimitedRow {
                    bucket: at(60 * p),
                    labels: object(&[("n", s.to_string().as_str())]),
                    value: number(1.0),
                    point_rank: p,
                    series_rank: s,
                });
            }
        }
        rows
    };
    for (points, series) in [(3, 2), (4, 2), (3, 3), (9, 9)] {
        let all = fold_limited_rows(ranked(points, series), &vec![], l.max_points, l.max_series);
        let some: Vec<LimitedRow> = ranked(points, series)
            .into_iter()
            .filter(|r| r.point_rank <= l.fetched_points && r.series_rank <= l.fetched_series)
            .collect();
        let part = fold_limited_rows(some, &vec![], l.max_points, l.max_series);
        assert_eq!(part.truncated, points > 3 || series > 2);
        assert_eq!(format!("{all:?}"), format!("{part:?}"));
        assert_eq!(part.series.len(), 2);
        assert_eq!(part.latest, Some(at(180)));
    }
}

#[test]
fn pages_too_far_away_do_not_fit() {
    assert!(page_fits(None, None));
    assert!(page_fits(Some(-5), Some(0)));
    assert!(page_fits(Some(i64::MAX), Some(1)));
    assert!(!page_fits(Some(i64::MAX), Some(2)));
    assert!(!page_fits(Some(i64::MAX), None));
}

#[test]
fn filters_name_their_conditions() {
    let mut f = no_filter();
    let none = conditions_of(&f);
    assert!(!none.trace_name && !none.user_id && !none.tags && !none.version && !none.release);
    f.tags = vec!["x".to_string()];
    f.version = Some("v".to_string());
    let some = conditions_of(&f);
    assert!(!some.trace_name && !some.user_id && some.tags && some.version && !some.release);
    f.trace_name = Some("n".to_string());
    f.user_id = Some("u".to_string());
    f.release = Some("r".to_string());
    let all = conditions_of(&f);
    assert!(all.trace_name && all.user_id && all.tags && all.version && all.release);
}

#[test]
fn counts_do_not_depend_on_grouping_or_step() {
    let rows: Vec<MetricRow> = (0..40i64)
        .map(|i| {
            let node = if i % 3 == 0 { "n1" } else { "n2" };
            let region = if i % 2 == 0 { "r1" } else { "r2" };
            row("a", &[("node", node), ("region", region)], i as f64, i * 17)
        })
        .collect();
    let limits = Limits { max_series: 50, max_points: 1000 };
    for keys in [&[][..], &["node"], &["region", "node"], &["missing"]] {
        for step in [1, 7, 60, 3600, 86_400] {
            let mut q = selection("a", keys, None);
            q.step_seconds = step;
            let a = query_metrics(&rows, &q, &limits);
            assert!(!a.truncated);
            let counted: usize =
                a.series.iter().flat_map(|s| s.buckets.iter()).map(|b| b.samples.len()).sum();
            assert_eq!(counted, 40);
        }
    }
}

#[test]
fn answers_stay_within_limits() {
    let mut rows = Vec::new();
    for s in 0..4i64 {
        for p in 0..5i64 {
            rows.push(row("a", &[("s", &format!("{s}"))], 1.0, p * 60));
        }
    }
    let all = group_metrics(&rows, &selection("a", &[], None));
    assert_eq!(all.len(), 4);
    let a = limit_series(all, &Limits { max_series: 2, max_points: 3 });
    assert_eq!(a.series.len(), 2);
    assert_eq!(a.series[0].buckets.len(), 3);
    assert_eq!(a.latest, Some(at(120)));
    assert!(a.truncated);
    let all = group_metrics(&rows, &selection("a", &[], None));
    let a = limit_series(all, &Limits { max_series: 4, max_points: 5 });
    assert!(!a.truncated);
    assert_eq!(a.latest, Some(at(240)));
}

#[test]
fn steps_have_values() {
    let samples = vec![
        Sample { value: number(1.0), timestamp: at(5) },
        Sample { value: number(2.0), timestamp: at(9) },
        Sample { value: number(3.0), timestamp: at(9) },
        Sample { value: number(4.0), timestamp: at(7) },
    ];
    assert_eq!(bucket_value("last", &samples), BucketValue::Exact(number(3.0)));
    assert_eq!(bucket_value("count", &samples), BucketValue::Count(4));
    assert_eq!(bucket_value("avg", &samples), BucketValue::Calculated);
    assert_eq!(bucket_value("last", &vec![]), BucketValue::Exact(number(0.0)));
}

#[test]
fn ranked_rows_are_folded_into_series() {
    let limited = |bucket: i64, node: &str, value: f64, point_rank: i64, series_rank: i64| {
        LimitedRow {
            bucket: at(bucket),
            labels: object(&[("node", node)]),
            value: number(value),
            point_rank,
            series_rank,
        }
    };
    let rows = vec![
        limited(60, "b", 1.0, 1, 2),
        limited(0, "a", 2.0, 1, 1),
        limited(120, "a", 3.0, 2, 1),
        limited(180, "a", 4.0, 3, 1),
        limited(600, "c", 5.0, 1, 3),
    ];
    let a = fold_limited_rows(rows, &vec![], 2, 2);
    assert_eq!(a.series.len(), 2);
    assert_eq!(a.series[0].key, "{\"node\":\"a\"}");
    assert_eq!(a.series[0].values.len(), 2);
    assert_eq!(a.series[0].values[1].start, at(120));
    assert_eq!(a.series[1].values[0].value, number(1.0));
    assert_eq!(a.latest, Some(at(120)));
    assert!(a.truncated);
}

#[test]
fn pages_are_bounded() {
    let p = page_of(None, None);
    assert_eq!((p.page, p.limit, p.offset), (1, 50, 0));
    let p = page_of(Some(-3), Some(0));
    assert_eq!((p.page, p.limit, p.offset), (1, 1, 0));
    let p = page_of(Some(3), Some(500));
    assert_eq!((p.page, p.limit, p.offset), (3, 200, 400));
    assert_eq!(page_count(0, 10), 0);
    assert_eq!(page_count(10, 10), 1);
    assert_eq!(page_count(11, 10), 2);
    assert_eq!(page_count(u64::MAX, 1), u64::MAX);
}

#[test]
fn days_count_their_traces() {
    let day = 86_400;
    let mut t1 = trace(1, "p", 10);
    t1.total_cost = Some(number(0.5));
    let t2 = trace(2, "p", day + 1);
    let t3 = trace(3, "p", day + 2);
    let mut o1 = observation(11, 2, "p");
    o1.model = Some("gpt".to_string());
    o1.prompt_tokens = Some(3);
    o1.completion_tokens = Some(4);
    o1.total_tokens = Some(7);
    o1.calculated_total_cost = Some(number(0.25));
    let mut o2 = observation(12, 3, "p");
    o2.model = Some("gpt".to_string());
    o2.prompt_tokens = Some(10);
    let mut o3 = observation(13, 3, "p");
    o3.model = Some(String::new());
    let mut o4 = observation(14, 3, "p");
    o4.obs_type = "SPAN".to_string();
    let groups = group_days(&vec![t1, t2, t3], &vec![o1, o2, o3, o4]);
    assert_eq!(groups.len(), 2);
    assert_eq!(groups[0].day, 0);
    assert_eq!(groups[0].count_traces, 1);
    assert_eq!(groups[0].costs, vec![number(0.5)]);
    assert_eq!(groups[0].count_observations, 0);
    let g = &groups[1];
    assert_eq!(g.day, 1);
    assert_eq!(g.count_traces, 2);
    assert_eq!(g.count_observations, 4);
    assert_eq!(g.usage.len(), 2);
    let gpt = g.usage.iter().find(|u| u.model == "gpt").unwrap();
    assert_eq!(gpt.input_usage, 13);
    assert_eq!(gpt.output_usage, 4);
    assert_eq!(gpt.total_usage, 7);
    assert_eq!(gpt.trace_ids.len(), 2);
    assert_eq!(gpt.count_observations, 2);
    assert_eq!(gpt.costs[0], number(0.25));
    let unknown = g.usage.iter().find(|u| u.model == "unknown").unwrap();
    assert_eq!(unknown.count_observations, 1);
}

#[test]
fn later_days_stand_on_earlier_pages() {
    let traces: Vec<TraceRow> =
        (0..5i64).map(|d| trace(d as u128, "p", d * 86_400)).collect();
    let a = daily_page(&traces, &vec![], &Page { page: 2, limit: 2, offset: 2 });
    assert_eq!(a.total_items, 5);
    assert_eq!(a.total_pages, 3);
    assert_eq!(a.items.len(), 2);
    assert_eq!(a.items[0].date, "1970-01-03");
    assert_eq!(a.items[1].date, "1970-01-02");
    let a = daily_page(&traces, &vec![], &Page { page: 4, limit: 2, offset: 6 });
    assert!(a.items.is_empty());
}

#[test]
fn pages_make_up_all_days() {
    let mut db = MemoryDb::new();
    for i in 0..50u128 {
        db.insert_trace(trace(i, "p", (i as i64 % 23) * 86_400 + 5));
    }
    db.insert_trace(trace(99, "q", 5));
    let window = Window { from: at(0), to: at(100 * 86_400) };
    for limit in [1i64, 4, 5, 23, 40] {
        let first = daily_metrics(&db, &no_filter(), "p", &window, &page_of(Some(1), Some(limit)));
        assert_eq!(first.total_items, 23);
        let mut dates = Vec::new();
        let mut traces = 0;
        for n in 1..=first.total_pages as i64 {
            let a = daily_metrics(&db, &no_filter(), "p", &window, &page_of(Some(n), Some(limit)));
            assert_eq!((a.total_items, a.total_pages), (23, first.total_pages));
            for item in a.items {
                traces += item.group.count_traces;
                dates.push(item.date);
            }
        }
        assert_eq!(traces, 50);
        assert_eq!(dates.len(), 23);
        assert_eq!(dates[0], "1970-01-23");
        assert!(dates.windows(2).all(|d| d[0] > d[1]));
    }
}

#[test]
fn daily_filters_pick_traces() {
    let mut db = MemoryDb::new();
    let mut t = trace(1, "p", 10);
    t.name = Some("n".to_string());
    t.user_id = Some("u".to_string());
    t.tags = vec!["x".to_string(), "y".to_string()];
    t.version = Some("v".to_string());
    t.release = Some("r".to_string());
    db.insert_trace(t);
    db.insert_trace(trace(2, "p", 20));
    db.insert_trace(trace(3, "q", 20));
    let window = Window { from: at(0), to: at(100) };
    let page = page_of(None, None);
    let count = |f: &DailyFilter, project: &str| {
        let a = daily_metrics(&db, f, project, &window, &page);
        a.items.first().map_or(0, |i| i.group.count_traces)
    };
    assert_eq!(count(&no_filter(), "p"), 2);
    assert_eq!(count(&no_filter(), "q"), 1);
    assert_eq!(count(&no_filter(), "z"), 0);
    let mut f = no_filter();
    f.tags = vec!["y".to_string()];
    assert_eq!(count(&f, "p"), 1);
    f.tags = vec!["y".to_string(), "z".to_string()];
    assert_eq!(count(&f, "p"), 0);
    for (name, user, version, release) in [
        (Some("n"), None, None, None),
        (None, Some("u"), None, None),
        (None, None, Some("v"), None),
        (None, None, None, Some("r")),
    ] {
        let f = DailyFilter {
            trace_name: name.map(str::to_string),
            user_id: user.map(str::to_string),
            tags: Vec::new(),
            version: version.map(str::to_string),
            release: release.map(str::to_string),
        };
        assert_eq!(count(&f, "p"), 1);
    }
}

#[test]
fn overviews_are_chosen() {
    let error = FilterSpec { column: "level".to_string(), value: "ERROR".to_string() };
    let other = FilterSpec { column: "level".to_string(), value: "DEBUG".to_string() };
    assert_eq!(overview_view("traces", &vec![]), OverviewView::Traces);
    assert_eq!(overview_view("observations", &vec![other, error]), OverviewView::ErrorTraces);
    assert_eq!(overview_view("observations", &vec![]), OverviewView::Nothing);
    assert_eq!(overview_view("scores", &vec![]), OverviewView::Nothing);
}

#[test]
fn overview_windows_span_a_year() {
    let now = at(40_000_000);
    let w = overview_window(None, None, &now);
    assert_eq!((w.from, w.to), (at(40_000_000 - 31_536_000), now));
    let w = overview_window(None, Some(at(1)), &now);
    assert_eq!((w.from, w.to), (at(40_000_000 - 31_536_000), at(1)));
    let w = overview_window(Some(at(5)), Some(at(1)), &now);
    assert_eq!((w.from, w.to), (at(5), at(1)));
}

#[test]
fn errors_are_counted_by_trace() {
    let id = 0x0123_4567_89ab_cdef_0123_4567_89ab_cdef;
    let mut db = MemoryDb::new();
    let mut t = trace(id, "p", 100);
    t.latency = Some(Latency::Millis(1500));
    db.insert_trace(t);
    let mut t = trace(2, "p", 100);
    t.latency = Some(Latency::Reported(number(-1.0)));
    db.insert_trace(t);
    let mut t = trace(3, "p", 100);
    t.latency = Some(Latency::Reported(number(2.0)));
    db.insert_trace(t);
    db.insert_trace(trace(4, "q", 100));
    for i in 0..2u128 {
        let mut o = observation(10 + i, id, "p");
        o.level = Some("ERROR".to_string());
        o.start_time = Some(at(100));
        db.insert_observation(o);
    }
    let mut late = observation(20, 2, "p");
    late.level = Some("ERROR".to_string());
    db.insert_observation(late);
    let w = Window { from: at(0), to: at(200) };
    let o = traces_overview(&db, "p", &w);
    assert_eq!(o.count, 3);
    assert_eq!(o.error_count, 1);
    assert_eq!(o.latencies.len(), 2);
    assert!(o.latencies.contains(&Latency::Millis(1500)));
    assert_eq!(
        error_trace_ids(&db, "p", &w),
        vec!["01234567-89ab-cdef-0123-456789abcdef".to_string()]
    );
    assert!(error_trace_ids(&db, "q", &w).is_empty());
    let wide = Window { from: at(0), to: at(500) };
    assert_eq!(error_trace_ids(&db, "p", &wide).len(), 2);
    assert_eq!(survey_traces(&vec![], &vec![], "p", &w).count, 0);
    assert!(list_error_traces(&vec![], "p", &w).is_empty());
}

#[test]
fn metric_statements_are_built() {
    let s = statement(&metrics_query_sql("avg", &vec![], false));
    assert_eq!(
        s,
        "WITH filtered AS (\n  SELECT\n    to_timestamp(floor(extract(epoch from timestamp) / <Step>) * <Step>) AS bucket_ts,\n    labels,\n    value,\n    timestamp\n  FROM metrics\n  WHERE project_id = <Project> AND environment = 'default' AND name = <Name> AND timestamp >= <From> AND timestamp <= <To>),\naggregated AS (\n  SELECT\n    bucket_ts,\n    labels,\n    AVG(value)::DOUBLE PRECISION AS value\n  FROM filtered\n  GROUP BY bucket_ts, labels\n),\nranked AS (\n  SELECT\n    bucket_ts,\n    labels,\n    value,\n    ROW_NUMBER() OVER (PARTITION BY labels ORDER BY bucket_ts ASC) AS point_rank,\n    DENSE_RANK() OVER (ORDER BY labels) AS series_rank\n  FROM aggregated\n)\nSELECT\n  bucket_ts,\n  labels,\n  value,\n  point_rank,\n  series_rank\nFROM ranked\nWHERE point_rank <= <MaxPoints> AND series_rank <= <MaxSeries>\nORDER BY labels, bucket_ts ASC"
    );
    let keys = vec!["a".to_string(), "o'b".to_string()];
    let s = statement(&metrics_query_sql("p99", &keys, true));
    assert!(s.contains(" AND labels @> <Labels>),\naggregated"));
    assert!(s.contains(
        "jsonb_build_object('a', labels ->> 'a', 'o''b', labels ->> 'o''b') AS labels,\n    (percentile_cont(0.99) WITHIN GROUP (ORDER BY value))::DOUBLE PRECISION AS value"
    ));
    assert!(s.contains("GROUP BY bucket_ts, labels ->> 'a', labels ->> 'o''b'\n),"));
    assert_eq!(agg_expression("sum"), "SUM(value)::DOUBLE PRECISION");
}

#[test]
fn daily_statements_are_built() {
    let none = DailyConditions {
        trace_name: false,
        user_id: false,
        tags: false,
        version: false,
        release: false,
    };
    assert_eq!(
        statement(&daily_count_sql(&none)),
        "SELECT COUNT(*)::BIGINT FROM (SELECT date_trunc('day', t.\"timestamp\")::date AS day FROM traces t WHERE 1=1 AND t.project_id = <Project> AND t.\"timestamp\" >= <From> AND t.\"timestamp\" <= <To> GROUP BY 1) x"
    );
    let all = DailyConditions {
        trace_name: true,
        user_id: true,
        tags: true,
        version: true,
        release: true,
    };
    let s = statement(&daily_sql(&all));
    assert!(s.starts_with("WITH filtered_traces AS (SELECT t.* FROM traces t WHERE 1=1 AND t.project_id = <Project>"));
    assert!(s.contains(" AND t.name = <TraceName> AND t.user_id = <UserId> AND t.tags @> <Tags> AND t.version = <Version> AND t.release = <Release>)"));
    assert!(s.ends_with("ORDER BY d.day DESC\nLIMIT <Limit> OFFSET <Offset>"));
    let binds = daily_sql(&all)
        .iter()
        .filter(|p| matches!(p, SqlPiece::Bind(Slot::Tags)))
        .count();
    assert_eq!(binds, 1);
}

#[test]
fn json_members_stand_in_order() {
    let mut m = Members::new();
    m.insert("b".to_string(), Json::Null);
    m.insert("a".to_string(), Json::Bool(true));
    m.insert("b".to_string(), Json::Number(serde_json::Number::from(2u64)));
    assert_eq!(m.len(), 2);
    assert_eq!(m.key_at(0), "a");
    assert_eq!(m.value_at(1).to_text(), "2");
    assert!(m.get("c").is_none());
}
