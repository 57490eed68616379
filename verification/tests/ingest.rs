use xtrace::error::ApiError;
use xtrace::ingest::{
    duration_secs, enrich_batch, gather_more, item_count, plan_write, post_batch, prepare_batches,
    queue_reply, resolve_observation, resolve_trace, write_batches_at, write_batches_to_memory,
    BatchIngestRequest, IngestEnvelope, ObservationIngest, QueueOutcome, TraceIngest,
};
use xtrace::memory_db::MemoryDb;
use xtrace::number::Double;
use xtrace::rows::Latency;
use xtrace::stats::IngestStats;
use xtrace::time::Timestamp;

fn at(secs: i64) -> Timestamp {
    Timestamp::new(secs, 0).unwrap()
}

fn trace(id: u128) -> TraceIngest {
    TraceIngest {
        id,
        timestamp: None,
        name: None,
        input: None,
        output: None,
        session_id: None,
        release: None,
        version: None,
        user_id: None,
        metadata: None,
        tags: Vec::new(),
        public: None,
        environment: None,
        external_id: None,
        bookmarked: None,
        latency: None,
        total_cost: None,
        project_id: None,
    }
}

fn observation(id: u128, trace_id: u128) -> ObservationIngest {
    ObservationIngest {
        id,
        trace_id,
        obs_type: None,
        name: None,
        start_time: None,
        end_time: None,
        completion_start_time: None,
        model: None,
        model_parameters: None,
        input: None,
        output: None,
        usage: None,
        level: None,
        status_message: None,
        parent_observation_id: None,
        prompt_id: None,
        prompt_name: None,
        prompt_version: None,
        model_id: None,
        input_price: None,
        output_price: None,
        total_price: None,
        calculated_input_cost: None,
        calculated_output_cost: None,
        calculated_total_cost: None,
        latency: None,
        time_to_first_token: None,
        completion_tokens: None,
        prompt_tokens: None,
        total_tokens: None,
        unit: None,
        metadata: None,
        environment: None,
        project_id: None,
    }
}

fn envelope(trace: Option<TraceIngest>, observations: Vec<ObservationIngest>) -> IngestEnvelope {
    IngestEnvelope {
        project_id: "p".to_string(),
        request: BatchIngestRequest { trace, observations },
    }
}

fn named(mut o: ObservationIngest, name: &str) -> ObservationIngest {
    o.name = Some(name.to_string());
    o
}

#[test]
fn durations_are_in_milliseconds() {
    let a = Timestamp::new(10, 0).unwrap();
    let b = Timestamp::new(11, 234_999_999).unwrap();
    assert_eq!(duration_secs(&a, &b), Some(Latency::Millis(1234)));
    assert_eq!(duration_secs(&b, &a), None);
    assert_eq!(duration_secs(&a, &a), Some(Latency::Millis(0)));
    let just_before = Timestamp::new(9, 999_500_000).unwrap();
    assert_eq!(duration_secs(&a, &just_before), Some(Latency::Millis(0)));
}

#[test]
fn missing_names_and_latencies_are_filled_in() {
    let mut child = named(observation(2, 1), "child");
    child.parent_observation_id = Some(3);
    child.start_time = Some(at(100));
    child.end_time = Some(at(103));
    let mut root = named(observation(3, 1), "root");
    root.start_time = Some(at(99));
    root.end_time = Some(at(101));
    let mut batch = BatchIngestRequest { trace: Some(trace(1)), observations: vec![child, root] };
    enrich_batch(&mut batch);
    assert_eq!(batch.observations[0].latency, Some(Latency::Millis(3000)));
    assert_eq!(batch.observations[1].latency, Some(Latency::Millis(2000)));
    let t = batch.trace.as_ref().unwrap();
    assert_eq!(t.name.as_deref(), Some("root"));
    assert_eq!(t.latency, Some(Latency::Millis(4000)));
    enrich_batch(&mut batch);
    assert_eq!(batch.trace.as_ref().unwrap().latency, Some(Latency::Millis(4000)));
}

#[test]
fn without_a_root_the_first_name_is_taken() {
    let mut a = named(observation(2, 1), "first");
    a.parent_observation_id = Some(9);
    let mut b = named(observation(3, 1), "second");
    b.parent_observation_id = Some(9);
    let mut batch = BatchIngestRequest { trace: Some(trace(1)), observations: vec![a, b] };
    enrich_batch(&mut batch);
    assert_eq!(batch.trace.unwrap().name.as_deref(), Some("first"));
}

#[test]
fn what_is_given_is_kept() {
    let reported = Latency::Reported(Double { bits: 2.5f64.to_bits() });
    let mut t = trace(1);
    t.name = Some("mine".to_string());
    t.latency = Some(reported);
    let mut o = named(observation(2, 1), "root");
    o.start_time = Some(at(1));
    o.end_time = Some(at(2));
    o.latency = Some(reported);
    let mut batch = BatchIngestRequest { trace: Some(t), observations: vec![o] };
    enrich_batch(&mut batch);
    assert_eq!(batch.trace.as_ref().unwrap().name.as_deref(), Some("mine"));
    assert_eq!(batch.trace.as_ref().unwrap().latency, Some(reported));
    assert_eq!(batch.observations[0].latency, Some(reported));
}

#[test]
fn rows_have_defaults() {
    let row = resolve_trace(trace(1), "p", &at(5));
    assert_eq!(row.project_id, "p");
    assert_eq!(row.environment, "default");
    assert_eq!(row.timestamp, at(5));
    assert!(!row.public);
    assert!(!row.bookmarked);
    let mut t = trace(1);
    t.project_id = Some("q".to_string());
    t.environment = Some("prod".to_string());
    t.timestamp = Some(at(2));
    t.public = Some(true);
    let row = resolve_trace(t, "p", &at(5));
    assert_eq!(row.project_id, "q");
    assert_eq!(row.environment, "prod");
    assert_eq!(row.timestamp, at(2));
    assert!(row.public);
    let row = resolve_observation(observation(7, 1), "p", &at(5));
    assert_eq!(row.obs_type, "GENERATION");
    assert_eq!(row.project_id, "p");
    assert_eq!(row.environment, "default");
    assert_eq!(row.trace_id, 1);
}

#[test]
fn written_rows_are_read_back() {
    let mut db = MemoryDb::new();
    let mut t = trace(1);
    t.name = Some("in-memory-test".to_string());
    t.tags = vec!["mem-tag".to_string()];
    let o = named(observation(2, 1), "llm-mock");
    write_batches_at(&mut db, vec![envelope(Some(t), vec![o])], &at(1000));
    let traces = db.list_traces();
    assert_eq!(traces.len(), 1);
    assert_eq!(traces[0].name.as_deref(), Some("in-memory-test"));
    assert_eq!(traces[0].tags, vec!["mem-tag".to_string()]);
    assert_eq!(traces[0].created_at, at(1000));
    let observations = db.list_observations();
    assert_eq!(observations.len(), 1);
    assert_eq!(observations[0].name.as_deref(), Some("llm-mock"));
    assert_eq!(observations[0].project_id, "p");
}

#[test]
fn observations_without_a_trace_get_a_placeholder() {
    let mut db = MemoryDb::new();
    let mut o = observation(2, 77);
    o.environment = Some("prod".to_string());
    write_batches_at(&mut db, vec![envelope(None, vec![o])], &at(1000));
    assert!(db.has_trace(77));
    let traces = db.list_traces();
    assert_eq!(traces[0].environment, "prod");
    assert_eq!(traces[0].timestamp, at(1000));
    assert!(traces[0].name.is_none());
    assert_eq!(db.trace_count(), 1);
}

#[test]
fn writing_again_keeps_the_instant_of_creation() {
    let mut db = MemoryDb::new();
    write_batches_at(&mut db, vec![envelope(Some(trace(1)), vec![observation(2, 1)])], &at(10));
    let mut t = trace(1);
    t.name = Some("later".to_string());
    write_batches_at(&mut db, vec![envelope(Some(t), vec![observation(2, 1)])], &at(20));
    assert_eq!(db.trace_created_at(1), Some(at(10)));
    assert_eq!(db.observation_created_at(2), Some(at(10)));
    let traces = db.list_traces();
    assert_eq!(traces[0].updated_at, at(20));
    assert_eq!(traces[0].name.as_deref(), Some("later"));
    assert_eq!(db.trace_created_at(99), None);
    assert_eq!(db.observation_created_at(99), None);
}

#[test]
fn a_write_leaves_other_ids_alone() {
    let mut db = MemoryDb::new();
    let mut t = trace(1);
    t.name = Some("first".to_string());
    write_batches_at(&mut db, vec![envelope(Some(t), vec![observation(2, 1)])], &at(10));
    write_batches_at(
        &mut db,
        vec![envelope(Some(trace(3)), vec![observation(4, 1), observation(5, 3)])],
        &at(20),
    );
    assert_eq!(db.trace_count(), 2);
    let traces = db.list_traces();
    let first = traces.iter().find(|t| t.id == 1).unwrap();
    assert_eq!(first.name.as_deref(), Some("first"));
    assert_eq!(first.updated_at, at(10));
    let observations = db.list_observations();
    assert_eq!(observations.len(), 3);
    assert_eq!(observations.iter().find(|o| o.id == 2).unwrap().updated_at, at(10));
    for o in &observations {
        assert!(db.has_trace(o.trace_id));
    }
}

#[test]
fn of_several_in_one_write_the_last_stands_in_memory() {
    let mut db = MemoryDb::new();
    let mut a = trace(1);
    a.name = Some("a".to_string());
    let mut b = trace(1);
    b.name = Some("b".to_string());
    write_batches_at(&mut db, vec![envelope(Some(a), vec![]), envelope(Some(b), vec![])], &at(1));
    assert_eq!(db.list_traces()[0].name.as_deref(), Some("b"));
}

#[test]
fn of_several_in_one_statement_the_first_stands() {
    let mut a = trace(1);
    a.name = Some("a".to_string());
    let mut b = trace(1);
    b.name = Some("b".to_string());
    let plan = plan_write(
        vec![
            envelope(Some(a), vec![named(observation(5, 1), "x")]),
            envelope(Some(b), vec![named(observation(5, 1), "y"), observation(6, 2)]),
        ],
        &at(1),
    )
    .unwrap();
    assert_eq!(plan.traces.len(), 1);
    assert_eq!(plan.traces[0].name.as_deref(), Some("a"));
    assert_eq!(plan.observations.len(), 2);
    assert_eq!(plan.observations[0].name.as_deref(), Some("x"));
    assert_eq!(plan.placeholders.len(), 2);
    assert!(plan_write(vec![], &at(1)).is_none());
}

#[test]
fn prepared_batches_keep_every_item() {
    let p = prepare_batches(
        vec![
            envelope(Some(trace(1)), vec![observation(5, 1), observation(5, 1)]),
            envelope(Some(trace(1)), vec![]),
        ],
        &at(1),
    );
    assert_eq!(p.traces.len(), 2);
    assert_eq!(p.observations.len(), 2);
    assert_eq!(p.placeholders.len(), 1);
    assert_eq!(p.placeholders[0].trace_id, 1);
    assert_eq!(p.placeholders[0].project_id, "p");
}

#[test]
fn items_are_counted() {
    let s = vec![
        envelope(Some(trace(1)), vec![observation(5, 1), observation(6, 1)]),
        envelope(None, vec![observation(7, 1)]),
        envelope(None, vec![]),
    ];
    assert_eq!(item_count(&s), 4);
}

#[test]
fn gathering_ends_with_time_or_number() {
    assert_eq!(gather_more(1, 0), Some(50_000_000));
    assert_eq!(gather_more(199, 49_999_999), Some(1));
    assert_eq!(gather_more(200, 0), None);
    assert_eq!(gather_more(1, 50_000_000), None);
    assert_eq!(gather_more(1, 60_000_000), None);
}

#[test]
fn queue_outcomes_are_counted_and_answered() {
    let mut s = IngestStats::new();
    assert!(post_batch(&mut s, QueueOutcome::Sent).is_ok());
    assert!(matches!(post_batch(&mut s, QueueOutcome::Full), Err(ApiError::TooManyRequests)));
    assert!(matches!(post_batch(&mut s, QueueOutcome::Closed), Err(ApiError::ServiceUnavailable)));
    assert_eq!(s.enqueued, 1);
    assert_eq!(s.queue_rejected, 1);
    assert!(queue_reply(QueueOutcome::Sent).is_ok());
}

#[test]
fn rows_survive_a_reload() {
    let mut db = MemoryDb::new();
    write_batches_to_memory(
        &mut db,
        vec![
            envelope(Some(trace(1)), vec![observation(2, 1)]),
            envelope(Some(trace(3)), vec![observation(4, 9)]),
        ],
    );
    let traces = db.list_traces();
    let observations = db.list_observations();
    let again = MemoryDb::restore(traces, observations, db.take_metrics());
    assert_eq!(again.trace_count(), 3);
    assert!(again.has_trace(1) && again.has_trace(3) && again.has_trace(9));
    assert_eq!(again.list_observations().len(), 2);
    assert_eq!(again.trace_created_at(1), db.trace_created_at(1));
}

#[test]
fn rows_can_be_removed() {
    let mut db = MemoryDb::new();
    write_batches_at(
        &mut db,
        vec![envelope(Some(trace(1)), vec![observation(2, 1), observation(3, 1), observation(4, 5)])],
        &at(1),
    );
    db.remove_observation(2);
    assert_eq!(db.list_observations().len(), 2);
    db.drop_observations_of(1);
    assert_eq!(db.list_observations().len(), 1);
    assert_eq!(db.list_observations()[0].id, 4);
    db.remove_trace(1);
    assert!(!db.has_trace(1));
    assert!(db.has_trace(5));
}
