//! Batches of traces and observations: what is filled in, what a row is made of
//! and how the rows are written.

use std::collections::HashSet;
use vstd::prelude::*;

use crate::error::ApiError;
use crate::error;
use crate::json::Json;
use crate::memory_db::MemoryDb;
use crate::number::Double;
use crate::rows;
use crate::rows::{Latency, ObservationRow, TraceRow};
use crate::stats::IngestStats;
use crate::text;
use crate::time::Timestamp;
use crate::time;

verus! {

/// A trace as a client sends it.
#[derive(Debug)]
pub struct TraceIngest {
    pub id: u128,
    pub timestamp: Option<Timestamp>,
    pub name: Option<String>,
    pub input: Option<Json>,
    pub output: Option<Json>,
    pub session_id: Option<String>,
    pub release: Option<String>,
    pub version: Option<String>,
    pub user_id: Option<String>,
    pub metadata: Option<Json>,
    pub tags: Vec<String>,
    pub public: Option<bool>,
    pub environment: Option<String>,
    pub external_id: Option<String>,
    pub bookmarked: Option<bool>,
    pub latency: Option<Latency>,
    pub total_cost: Option<Double>,
    pub project_id: Option<String>,
}

/// An observation as a client sends it.
#[derive(Debug)]
pub struct ObservationIngest {
    pub id: u128,
    pub trace_id: u128,
    pub obs_type: Option<String>,
    pub name: Option<String>,
    pub start_time: Option<Timestamp>,
    pub end_time: Option<Timestamp>,
    pub completion_start_time: Option<Timestamp>,
    pub model: Option<String>,
    pub model_parameters: Option<Json>,
    pub input: Option<Json>,
    pub output: Option<Json>,
    pub usage: Option<Json>,
    pub level: Option<String>,
    pub status_message: Option<String>,
    pub parent_observation_id: Option<u128>,
    pub prompt_id: Option<String>,
    pub prompt_name: Option<String>,
    pub prompt_version: Option<String>,
    pub model_id: Option<String>,
    pub input_price: Option<Double>,
    pub output_price: Option<Double>,
    pub total_price: Option<Double>,
    pub calculated_input_cost: Option<Double>,
    pub calculated_output_cost: Option<Double>,
    pub calculated_total_cost: Option<Double>,
    pub latency: Option<Latency>,
    pub time_to_first_token: Option<Double>,
    pub completion_tokens: Option<i64>,
    pub prompt_tokens: Option<i64>,
    pub total_tokens: Option<i64>,
    pub unit: Option<String>,
    pub metadata: Option<Json>,
    pub environment: Option<String>,
    pub project_id: Option<String>,
}

/// What a client sends at once.
#[derive(Debug)]
pub struct BatchIngestRequest {
    pub trace: Option<TraceIngest>,
    pub observations: Vec<ObservationIngest>,
}

/// A batch and the project of whoever sent it.
#[derive(Debug)]
pub struct IngestEnvelope {
    pub project_id: String,
    pub request: BatchIngestRequest,
}

/// How long it is from `start` to `end`, unless `end` comes first.
pub open spec fn span(start: Timestamp, end: Timestamp) -> Option<Latency> {
    let ms = time::millis_between(start@, end@);
    if ms >= 0 {
        Some(Latency::Millis(ms as i64))
    } else {
        None
    }
}

/// How long it is from `start` to `end`, unless `end` comes first.
pub fn duration_secs(start: &Timestamp, end: &Timestamp) -> (r: Option<Latency>)
    ensures
        r == span(*start, *end),
{
    let ms = start.millis_until(end);
    if ms >= 0 {
        Some(Latency::Millis(ms))
    } else {
        None
    }
}

/// An observation with its latency, where its times give one and it has none.
pub open spec fn enriched_observation(o: ObservationIngest) -> ObservationIngest {
    ObservationIngest {
        latency: match (o.latency, o.start_time, o.end_time) {
            (None, Some(start), Some(end)) => span(start, end),
            _ => o.latency,
        },
        ..o
    }
}

/// The observations of a batch with their latencies.
pub open spec fn enriched_observations(b: BatchIngestRequest) -> Seq<ObservationIngest> {
    b.observations@.map_values(|o: ObservationIngest| enriched_observation(o))
}

/// The earliest start of observations.
pub open spec fn earliest_start(s: Seq<ObservationIngest>) -> Option<Timestamp>
    decreases s.len(),
{
    if s.len() == 0 {
        None
    } else {
        match (earliest_start(s.drop_last()), s.last().start_time) {
            (Some(a), Some(b)) => if time::earlier(b@, a@) {
                Some(b)
            } else {
                Some(a)
            },
            (Some(a), None) => Some(a),
            (None, b) => b,
        }
    }
}

/// The latest end of observations.
pub open spec fn latest_end(s: Seq<ObservationIngest>) -> Option<Timestamp>
    decreases s.len(),
{
    if s.len() == 0 {
        None
    } else {
        match (latest_end(s.drop_last()), s.last().end_time) {
            (Some(a), Some(b)) => if time::earlier(a@, b@) {
                Some(b)
            } else {
                Some(a)
            },
            (Some(a), None) => Some(a),
            (None, b) => b,
        }
    }
}

/// The name of the first observation that has one and no parent.
pub open spec fn root_name(s: Seq<ObservationIngest>) -> Option<String>
    decreases s.len(),
{
    if s.len() == 0 {
        None
    } else {
        match root_name(s.drop_last()) {
            Some(n) => Some(n),
            None => if s.last().parent_observation_id is None {
                s.last().name
            } else {
                None
            },
        }
    }
}

/// The name of a trace that has none: that of a root, or of the first
/// observation.
pub open spec fn borrowed_name(s: Seq<ObservationIngest>) -> Option<String> {
    match root_name(s) {
        Some(n) => Some(n),
        None => if s.len() > 0 {
            s[0].name
        } else {
            None
        },
    }
}

/// The trace of a batch, with the name and the latency that its observations
/// give, where it has none.
pub open spec fn enriched_trace(b: BatchIngestRequest) -> Option<TraceIngest> {
    match b.trace {
        None => None,
        Some(t) => Some(
            TraceIngest {
                name: match t.name {
                    Some(n) => Some(n),
                    None => borrowed_name(b.observations@),
                },
                latency: match (
                    t.latency,
                    earliest_start(b.observations@),
                    latest_end(b.observations@),
                ) {
                    (None, Some(start), Some(end)) => span(start, end),
                    _ => t.latency,
                },
                ..t
            },
        ),
    }
}

/// An optional text equal to `o`.
fn clone_name(o: &Option<String>) -> (r: Option<String>)
    ensures
        r == *o,
{
    match o {
        Some(t) => Some(t.clone()),
        None => None,
    }
}

/// What the observations of a batch give for its trace: a name, and the
/// earliest start and the latest end.
fn survey(s: &Vec<ObservationIngest>) -> (r: (Option<String>, Option<Timestamp>, Option<Timestamp>))
    ensures
        r.0 == borrowed_name(s@),
        r.1 == earliest_start(s@),
        r.2 == latest_end(s@),
{
    let mut root: Option<String> = None;
    let mut min_start: Option<Timestamp> = None;
    let mut max_end: Option<Timestamp> = None;
    let mut i: usize = 0;
    assert(s@.take(0) =~= Seq::<ObservationIngest>::empty());
    while i < s.len()
        invariant
            0 <= i <= s@.len(),
            root == root_name(s@.take(i as int)),
            min_start == earliest_start(s@.take(i as int)),
            max_end == latest_end(s@.take(i as int)),
        decreases s.len() - i,
    {
        assert(s@.take(i + 1).drop_last() =~= s@.take(i as int));
        assert(s@.take(i + 1).last() == s@[i as int]);
        let obs = &s[i];
        if let Some(start) = obs.start_time {
            min_start = match min_start {
                Some(cur) => if start.before(&cur) {
                    Some(start)
                } else {
                    Some(cur)
                },
                None => Some(start),
            };
        }
        if let Some(end) = obs.end_time {
            max_end = match max_end {
                Some(cur) => if cur.before(&end) {
                    Some(end)
                } else {
                    Some(cur)
                },
                None => Some(end),
            };
        }
        if obs.parent_observation_id.is_none() && root.is_none() {
            root = clone_name(&obs.name);
        }
        i += 1;
    }
    assert(s@.take(s@.len() as int) =~= s@);
    if root.is_none() && s.len() > 0 {
        root = clone_name(&s[0].name);
    }
    (root, min_start, max_end)
}

/// Fills in what a batch leaves out and its times and names give: the latency of
/// each observation, and the name and latency of the trace.
pub fn enrich_batch(batch: &mut BatchIngestRequest)
    ensures
        final(batch).trace == enriched_trace(*old(batch)),
        final(batch).observations@ == enriched_observations(*old(batch)),
{
    let (name, min_start, max_end) = survey(&batch.observations);
    let ghost before = batch.observations@;
    let ghost want = enriched_observations(*batch);
    let mut i: usize = 0;
    while i < batch.observations.len()
        invariant
            0 <= i <= batch.observations@.len(),
            batch.trace == old(batch).trace,
            before == old(batch).observations@,
            want == enriched_observations(*old(batch)),
            batch.observations@.len() == before.len(),
            forall|j: int| 0 <= j < i ==> #[trigger] batch.observations@[j] == want[j],
            forall|j: int| i <= j < before.len() ==> #[trigger] batch.observations@[j] == before[j],
        decreases batch.observations.len() - i,
    {
        let ghost o = batch.observations@[i as int];
        if batch.observations[i].latency.is_none() {
            if let (Some(start), Some(end)) = (
                batch.observations[i].start_time,
                batch.observations[i].end_time,
            ) {
                let latency = duration_secs(&start, &end);
                batch.observations[i].latency = latency;
            }
        }
        assert(batch.observations@[i as int] == enriched_observation(o));
        i += 1;
    }
    assert(batch.observations@ =~= want);
    if let Some(trace) = &mut batch.trace {
        if trace.name.is_none() {
            trace.name = name;
        }
        if trace.latency.is_none() {
            if let (Some(start), Some(end)) = (min_start, max_end) {
                trace.latency = duration_secs(&start, &end);
            }
        }
    }
}

/// The latencies that are filled in change nothing that a trace is filled in
/// from.
proof fn lemma_survey_unchanged(s: Seq<ObservationIngest>)
    ensures
        earliest_start(s.map_values(|o: ObservationIngest| enriched_observation(o)))
            == earliest_start(s),
        latest_end(s.map_values(|o: ObservationIngest| enriched_observation(o))) == latest_end(s),
        root_name(s.map_values(|o: ObservationIngest| enriched_observation(o))) == root_name(s),
    decreases s.len(),
{
    let e = s.map_values(|o: ObservationIngest| enriched_observation(o));
    if s.len() > 0 {
        let head = s.drop_last();
        lemma_survey_unchanged(head);
        assert(e.drop_last() =~= head.map_values(|o: ObservationIngest| enriched_observation(o)));
        assert(e.last() == enriched_observation(s.last()));
    }
}

/// Filling in a batch a second time changes nothing.
pub proof fn lemma_enrich_idempotent(b: BatchIngestRequest, c: BatchIngestRequest)
    requires
        c.trace == enriched_trace(b),
        c.observations@ == enriched_observations(b),
    ensures
        enriched_trace(c) == c.trace,
        enriched_observations(c) == c.observations@,
{
    assert forall|i: int| 0 <= i < c.observations@.len() implies enriched_observation(
        #[trigger] c.observations@[i],
    ) == c.observations@[i] by {
        assert(c.observations@[i] == enriched_observation(b.observations@[i]));
    }
    assert(enriched_observations(c) =~= c.observations@);
    lemma_survey_unchanged(b.observations@);
}

/// What a client sends is never replaced: a name and a latency that are there
/// stay.
pub proof fn lemma_enrich_keeps_what_is_given(b: BatchIngestRequest)
    ensures
        enriched_observations(b).len() == b.observations@.len(),
        forall|i: int|
            0 <= i < b.observations@.len() && b.observations@[i].latency is Some
                ==> #[trigger] enriched_observations(b)[i] == b.observations@[i],
        b.trace matches Some(t) ==> {
            &&& enriched_trace(b) is Some
            &&& t.name is Some ==> enriched_trace(b)->0.name == t.name
            &&& t.latency is Some ==> enriched_trace(b)->0.latency == t.latency
        },
        b.trace is None ==> enriched_trace(b) is None,
{
}

/// A text, or another where there is none.
pub open spec fn or_default(o: Option<Seq<char>>, other: Seq<char>) -> Seq<char> {
    match o {
        Some(t) => t,
        None => other,
    }
}

/// A text, or another where there is none.
fn text_or(o: Option<String>, other: &str) -> (r: String)
    ensures
        r@ == or_default(text::opt_text(o), other@),
{
    match o {
        Some(t) => t,
        None => other.to_owned(),
    }
}

/// The row of a trace that is written for the first time at `now`.
pub open spec fn resolved_trace(t: TraceIngest, project: Seq<char>, now: Timestamp) -> rows::TraceModel {
    rows::TraceModel {
        id: t.id,
        timestamp: match t.timestamp {
            Some(at) => at,
            None => now,
        },
        name: text::opt_text(t.name),
        input: rows::opt_json(t.input),
        output: rows::opt_json(t.output),
        session_id: text::opt_text(t.session_id),
        release: text::opt_text(t.release),
        version: text::opt_text(t.version),
        user_id: text::opt_text(t.user_id),
        metadata: rows::opt_json(t.metadata),
        tags: text::texts(t.tags@),
        public: t.public == Some(true),
        environment: or_default(text::opt_text(t.environment), "default"@),
        latency: t.latency,
        total_cost: t.total_cost,
        external_id: text::opt_text(t.external_id),
        bookmarked: t.bookmarked == Some(true),
        project_id: or_default(text::opt_text(t.project_id), project),
        created_at: now,
        updated_at: now,
    }
}

/// The row of an observation that is written for the first time at `now`.
pub open spec fn resolved_observation(
    o: ObservationIngest,
    project: Seq<char>,
    now: Timestamp,
) -> rows::ObservationModel {
    rows::ObservationModel {
        id: o.id,
        trace_id: o.trace_id,
        obs_type: or_default(text::opt_text(o.obs_type), "GENERATION"@),
        name: text::opt_text(o.name),
        start_time: o.start_time,
        end_time: o.end_time,
        completion_start_time: o.completion_start_time,
        model: text::opt_text(o.model),
        model_parameters: rows::opt_json(o.model_parameters),
        input: rows::opt_json(o.input),
        output: rows::opt_json(o.output),
        usage: rows::opt_json(o.usage),
        level: text::opt_text(o.level),
        status_message: text::opt_text(o.status_message),
        parent_observation_id: o.parent_observation_id,
        prompt_id: text::opt_text(o.prompt_id),
        prompt_name: text::opt_text(o.prompt_name),
        prompt_version: text::opt_text(o.prompt_version),
        model_id: text::opt_text(o.model_id),
        input_price: o.input_price,
        output_price: o.output_price,
        total_price: o.total_price,
        calculated_input_cost: o.calculated_input_cost,
        calculated_output_cost: o.calculated_output_cost,
        calculated_total_cost: o.calculated_total_cost,
        latency: o.latency,
        time_to_first_token: o.time_to_first_token,
        completion_tokens: o.completion_tokens,
        prompt_tokens: o.prompt_tokens,
        total_tokens: o.total_tokens,
        unit: text::opt_text(o.unit),
        metadata: rows::opt_json(o.metadata),
        environment: or_default(text::opt_text(o.environment), "default"@),
        project_id: or_default(text::opt_text(o.project_id), project),
        created_at: now,
        updated_at: now,
    }
}

/// The row of a trace that is written for the first time at `now`: what the
/// client left out is the project that it belongs to, the default environment
/// and this instant.
pub fn resolve_trace(trace: TraceIngest, default_project_id: &str, now: &Timestamp) -> (r: TraceRow)
    ensures
        r@ == resolved_trace(trace, default_project_id@, *now),
{
    TraceRow {
        id: trace.id,
        timestamp: match trace.timestamp {
            Some(at) => at,
            None => *now,
        },
        name: trace.name,
        input: trace.input,
        output: trace.output,
        session_id: trace.session_id,
        release: trace.release,
        version: trace.version,
        user_id: trace.user_id,
        metadata: trace.metadata,
        tags: trace.tags,
        public: match trace.public {
            Some(b) => b,
            None => false,
        },
        environment: text_or(trace.environment, "default"),
        latency: trace.latency,
        total_cost: trace.total_cost,
        external_id: trace.external_id,
        bookmarked: match trace.bookmarked {
            Some(b) => b,
            None => false,
        },
        project_id: text_or(trace.project_id, default_project_id),
        created_at: *now,
        updated_at: *now,
    }
}

/// The row of an observation that is written for the first time at `now`.
pub fn resolve_observation(
    obs: ObservationIngest,
    default_project_id: &str,
    now: &Timestamp,
) -> (r: ObservationRow)
    ensures
        r@ == resolved_observation(obs, default_project_id@, *now),
{
    ObservationRow {
        id: obs.id,
        trace_id: obs.trace_id,
        obs_type: text_or(obs.obs_type, "GENERATION"),
        name: obs.name,
        start_time: obs.start_time,
        end_time: obs.end_time,
        completion_start_time: obs.completion_start_time,
        model: obs.model,
        model_parameters: obs.model_parameters,
        input: obs.input,
        output: obs.output,
        usage: obs.usage,
        level: obs.level,
        status_message: obs.status_message,
        parent_observation_id: obs.parent_observation_id,
        prompt_id: obs.prompt_id,
        prompt_name: obs.prompt_name,
        prompt_version: obs.prompt_version,
        model_id: obs.model_id,
        input_price: obs.input_price,
        output_price: obs.output_price,
        total_price: obs.total_price,
        calculated_input_cost: obs.calculated_input_cost,
        calculated_output_cost: obs.calculated_output_cost,
        calculated_total_cost: obs.calculated_total_cost,
        latency: obs.latency,
        time_to_first_token: obs.time_to_first_token,
        completion_tokens: obs.completion_tokens,
        prompt_tokens: obs.prompt_tokens,
        total_tokens: obs.total_tokens,
        unit: obs.unit,
        metadata: obs.metadata,
        environment: text_or(obs.environment, "default"),
        project_id: text_or(obs.project_id, default_project_id),
        created_at: *now,
        updated_at: *now,
    }
}

/// The trace rows of batches, in their order.
pub open spec fn resolved_traces(s: Seq<IngestEnvelope>, now: Timestamp) -> Seq<rows::TraceModel>
    decreases s.len(),
{
    if s.len() == 0 {
        Seq::empty()
    } else {
        let head = resolved_traces(s.drop_last(), now);
        match enriched_trace(s.last().request) {
            Some(t) => head.push(resolved_trace(t, s.last().project_id@, now)),
            None => head,
        }
    }
}

/// The observation rows of one batch.
pub open spec fn batch_observations(e: IngestEnvelope, now: Timestamp) -> Seq<
    rows::ObservationModel,
> {
    enriched_observations(e.request).map_values(
        |o: ObservationIngest| resolved_observation(o, e.project_id@, now),
    )
}

/// The observation rows of batches, in their order.
pub open spec fn resolved_observations(s: Seq<IngestEnvelope>, now: Timestamp) -> Seq<
    rows::ObservationModel,
>
    decreases s.len(),
{
    if s.len() == 0 {
        Seq::empty()
    } else {
        resolved_observations(s.drop_last(), now) + batch_observations(s.last(), now)
    }
}

/// A trace that observations speak of, with the project and the environment
/// that the first of them names.
#[derive(Debug)]
pub struct Placeholder {
    pub trace_id: u128,
    pub project_id: String,
    pub environment: String,
}

/// A trace that observations speak of, its texts taken as characters.
#[verifier::ext_equal]
pub ghost struct PlaceholderModel {
    pub trace_id: u128,
    pub project_id: Seq<char>,
    pub environment: Seq<char>,
}

impl View for Placeholder {
    type V = PlaceholderModel;

    open spec fn view(&self) -> PlaceholderModel {
        PlaceholderModel {
            trace_id: self.trace_id,
            project_id: self.project_id@,
            environment: self.environment@,
        }
    }
}

/// Whether one of the placeholders is for a trace.
pub open spec fn has_place(s: Seq<PlaceholderModel>, trace_id: u128) -> bool {
    exists|i: int| 0 <= i < s.len() && (#[trigger] s[i]).trace_id == trace_id
}

/// The traces that observations speak of, each once, as the first of them
/// speaks of it.
pub open spec fn places(s: Seq<rows::ObservationModel>) -> Seq<PlaceholderModel>
    decreases s.len(),
{
    if s.len() == 0 {
        Seq::empty()
    } else {
        let head = places(s.drop_last());
        let o = s.last();
        if has_place(head, o.trace_id) {
            head
        } else {
            head.push(
                PlaceholderModel {
                    trace_id: o.trace_id,
                    project_id: o.project_id,
                    environment: o.environment,
                },
            )
        }
    }
}

/// The views of placeholders.
pub open spec fn place_models(s: Seq<Placeholder>) -> Seq<PlaceholderModel> {
    s.map_values(|p: Placeholder| p@)
}

/// The rows of batches, ready to be written.
#[derive(Debug)]
pub struct PreparedBatches {
    pub placeholders: Vec<Placeholder>,
    pub traces: Vec<TraceRow>,
    pub observations: Vec<ObservationRow>,
}

/// Whether one of the placeholders is for a trace.
fn find_place(s: &Vec<Placeholder>, trace_id: u128) -> (r: bool)
    ensures
        r == has_place(place_models(s@), trace_id),
{
    let mut i: usize = 0;
    while i < s.len()
        invariant
            0 <= i <= s@.len(),
            forall|j: int|
                0 <= j < i ==> (#[trigger] place_models(s@)[j]).trace_id != trace_id,
        decreases s.len() - i,
    {
        if s[i].trace_id == trace_id {
            assert(place_models(s@)[i as int].trace_id == trace_id);
            return true;
        }
        i += 1;
    }
    false
}

/// The rows of batches that are written at `now`, and the traces that their
/// observations speak of.
pub fn prepare_batches(payloads: Vec<IngestEnvelope>, now: &Timestamp) -> (r: PreparedBatches)
    ensures
        rows::trace_models(r.traces@) == resolved_traces(payloads@, *now),
        rows::observation_models(r.observations@) == resolved_observations(payloads@, *now),
        place_models(r.placeholders@) == places(resolved_observations(payloads@, *now)),
{
    let ghost all = payloads@;
    let mut placeholders: Vec<Placeholder> = Vec::new();
    let mut traces: Vec<TraceRow> = Vec::new();
    let mut observations: Vec<ObservationRow> = Vec::new();
    assert(all.take(0) =~= Seq::<IngestEnvelope>::empty());
    for envelope in it: payloads
        invariant
            it.seq() == all,
            rows::trace_models(traces@) == resolved_traces(all.take(it.index() as int), *now),
            rows::observation_models(observations@) == resolved_observations(
                all.take(it.index() as int),
                *now,
            ),
            place_models(placeholders@) == places(rows::observation_models(observations@)),
    {
        let ghost k = it.index() as int;
        assert(all.take(k + 1).drop_last() =~= all.take(k));
        assert(all.take(k + 1).last() == envelope);
        let project_id = envelope.project_id;
        let mut request = envelope.request;
        enrich_batch(&mut request);
        let ghost rows_of_batch = batch_observations(envelope, *now);
        if let Some(trace) = request.trace {
            let ghost before = traces@;
            traces.push(resolve_trace(trace, project_id.as_str(), now));
            assert(rows::trace_models(traces@) =~= rows::trace_models(before).push(traces@.last()@));
        }
        let ghost earlier = rows::observation_models(observations@);
        let ghost sent = request.observations@;
        assert(rows_of_batch.take(0) =~= Seq::<rows::ObservationModel>::empty());
        assert(earlier + rows_of_batch.take(0) =~= earlier);
        for obs in it2: request.observations
            invariant
                it2.seq() == sent,
                sent == enriched_observations(envelope.request),
                project_id@ == envelope.project_id@,
                rows_of_batch == batch_observations(envelope, *now),
                rows::observation_models(observations@) == earlier + rows_of_batch.take(
                    it2.index() as int,
                ),
                place_models(placeholders@) == places(rows::observation_models(observations@)),
        {
            let ghost i = it2.index() as int;
            let resolved = resolve_observation(obs, project_id.as_str(), now);
            assert(rows_of_batch[i] == resolved@);
            let ghost before = rows::observation_models(observations@);
            if !find_place(&placeholders, resolved.trace_id) {
                let ghost known = placeholders@;
                placeholders.push(
                    Placeholder {
                        trace_id: resolved.trace_id,
                        project_id: resolved.project_id.clone(),
                        environment: resolved.environment.clone(),
                    },
                );
                assert(place_models(placeholders@) =~= place_models(known).push(
                    placeholders@.last()@,
                ));
            }
            observations.push(resolved);
            assert(rows::observation_models(observations@) =~= before.push(resolved@));
            assert(before.push(resolved@).drop_last() =~= before);
            assert(rows_of_batch.take(i + 1) =~= rows_of_batch.take(i).push(resolved@));
            assert(earlier + rows_of_batch.take(i + 1) =~= (earlier + rows_of_batch.take(i)).push(
                resolved@,
            ));
        }
        assert(rows_of_batch.take(rows_of_batch.len() as int) =~= rows_of_batch);
    }
    assert(all.take(all.len() as int) =~= all);
    PreparedBatches { placeholders, traces, observations }
}

/// Whether one of the rows has an id.
pub open spec fn trace_listed(s: Seq<rows::TraceModel>, id: u128) -> bool {
    exists|i: int| 0 <= i < s.len() && (#[trigger] s[i]).id == id
}

/// The rows without those that have the id of an earlier one.
pub open spec fn first_traces(s: Seq<rows::TraceModel>) -> Seq<rows::TraceModel>
    decreases s.len(),
{
    if s.len() == 0 {
        s
    } else {
        let head = first_traces(s.drop_last());
        if trace_listed(head, s.last().id) {
            head
        } else {
            head.push(s.last())
        }
    }
}

/// The rows without those that have the id of an earlier one.
fn keep_first_traces(v: Vec<TraceRow>) -> (r: Vec<TraceRow>)
    ensures
        rows::trace_models(r@) == first_traces(rows::trace_models(v@)),
{
    broadcast use vstd::std_specs::hash::group_hash_axioms;

    let ghost all = v@;
    let ghost models = rows::trace_models(v@);
    let mut seen: HashSet<u128> = HashSet::new();
    let mut out: Vec<TraceRow> = Vec::new();
    assert(models.take(0) =~= Seq::<rows::TraceModel>::empty());
    for row in it: v
        invariant
            it.seq() == all,
            models == rows::trace_models(all),
            rows::trace_models(out@) == first_traces(models.take(it.index() as int)),
            forall|id: u128| #[trigger]
                seen@.contains(id) == trace_listed(rows::trace_models(out@), id),
    {
        let ghost i = it.index() as int;
        assert(models.take(i + 1).drop_last() =~= models.take(i));
        assert(models.take(i + 1).last() == row@);
        let ghost kept = rows::trace_models(out@);
        if seen.insert(row.id) {
            out.push(row);
            assert(rows::trace_models(out@) =~= kept.push(row@));
            assert forall|id: u128| #[trigger] seen@.contains(id) == trace_listed(
                kept.push(row@),
                id,
            ) by {
                if trace_listed(kept, id) {
                    let j = choose|j: int| 0 <= j < kept.len() && (#[trigger] kept[j]).id == id;
                    assert(kept.push(row@)[j].id == id);
                }
                if id == row.id {
                    assert(kept.push(row@)[kept.len() as int].id == id);
                }
                if trace_listed(kept.push(row@), id) && id != row.id {
                    let j = choose|j: int|
                        0 <= j < kept.push(row@).len() && (#[trigger] kept.push(row@)[j]).id == id;
                    assert(kept[j].id == id);
                }
            }
        }
    }
    assert(models.take(models.len() as int) =~= models);
    out
}

/// No two of the rows that stay have one id, and every id is among theirs.
pub proof fn lemma_first_traces(s: Seq<rows::TraceModel>)
    ensures
        forall|i: int, j: int|
            0 <= i < j < first_traces(s).len() ==> (#[trigger] first_traces(s)[i]).id != (
            #[trigger] first_traces(s)[j]).id,
        forall|id: u128| #[trigger]
            trace_listed(first_traces(s), id) == trace_listed(s, id),
    decreases s.len(),
{
    if s.len() > 0 {
        let head = s.drop_last();
        lemma_first_traces(head);
        let f = first_traces(head);
        assert forall|id: u128| #[trigger] trace_listed(first_traces(s), id) == trace_listed(
            s,
            id,
        ) by {
            if trace_listed(s, id) {
                let j = choose|j: int| 0 <= j < s.len() && (#[trigger] s[j]).id == id;
                if j < head.len() {
                    assert(head[j].id == id);
                    assert(trace_listed(f, id));
                }
                if trace_listed(f, id) {
                    let i = choose|i: int| 0 <= i < f.len() && (#[trigger] f[i]).id == id;
                    assert(first_traces(s)[i].id == id);
                } else {
                    assert(first_traces(s)[f.len() as int].id == id);
                }
            }
            if trace_listed(first_traces(s), id) {
                let j = choose|j: int|
                    0 <= j < first_traces(s).len() && (#[trigger] first_traces(s)[j]).id == id;
                if j < f.len() {
                    assert(f[j].id == id);
                    assert(trace_listed(f, id));
                    assert(trace_listed(head, id));
                    let i = choose|i: int| 0 <= i < head.len() && (#[trigger] head[i]).id == id;
                    assert(s[i].id == id);
                } else {
                    assert(s[s.len() - 1].id == id);
                }
            }
        }
    }
}

/// Whether one of the rows has an id.
pub open spec fn observation_listed(s: Seq<rows::ObservationModel>, id: u128) -> bool {
    exists|i: int| 0 <= i < s.len() && (#[trigger] s[i]).id == id
}

/// The rows without those that have the id of an earlier one.
pub open spec fn first_observations(s: Seq<rows::ObservationModel>) -> Seq<rows::ObservationModel>
    decreases s.len(),
{
    if s.len() == 0 {
        s
    } else {
        let head = first_observations(s.drop_last());
        if observation_listed(head, s.last().id) {
            head
        } else {
            head.push(s.last())
        }
    }
}

/// The rows without those that have the id of an earlier one.
fn keep_first_observations(v: Vec<ObservationRow>) -> (r: Vec<ObservationRow>)
    ensures
        rows::observation_models(r@) == first_observations(rows::observation_models(v@)),
{
    broadcast use vstd::std_specs::hash::group_hash_axioms;

    let ghost all = v@;
    let ghost models = rows::observation_models(v@);
    let mut seen: HashSet<u128> = HashSet::new();
    let mut out: Vec<ObservationRow> = Vec::new();
    assert(models.take(0) =~= Seq::<rows::ObservationModel>::empty());
    for row in it: v
        invariant
            it.seq() == all,
            models == rows::observation_models(all),
            rows::observation_models(out@) == first_observations(models.take(it.index() as int)),
            forall|id: u128| #[trigger]
                seen@.contains(id) == observation_listed(rows::observation_models(out@), id),
    {
        let ghost i = it.index() as int;
        assert(models.take(i + 1).drop_last() =~= models.take(i));
        assert(models.take(i + 1).last() == row@);
        let ghost kept = rows::observation_models(out@);
        if seen.insert(row.id) {
            out.push(row);
            assert(rows::observation_models(out@) =~= kept.push(row@));
            assert forall|id: u128| #[trigger] seen@.contains(id) == observation_listed(
                kept.push(row@),
                id,
            ) by {
                if observation_listed(kept, id) {
                    let j = choose|j: int| 0 <= j < kept.len() && (#[trigger] kept[j]).id == id;
                    assert(kept.push(row@)[j].id == id);
                }
                if id == row.id {
                    assert(kept.push(row@)[kept.len() as int].id == id);
                }
                if observation_listed(kept.push(row@), id) && id != row.id {
                    let j = choose|j: int|
                        0 <= j < kept.push(row@).len() && (#[trigger] kept.push(row@)[j]).id == id;
                    assert(kept[j].id == id);
                }
            }
        }
    }
    assert(models.take(models.len() as int) =~= models);
    out
}

/// No two of the rows that stay have one id, and every id is among theirs.
pub proof fn lemma_first_observations(s: Seq<rows::ObservationModel>)
    ensures
        forall|i: int, j: int|
            0 <= i < j < first_observations(s).len() ==> (#[trigger] first_observations(s)[i]).id != (
            #[trigger] first_observations(s)[j]).id,
        forall|id: u128| #[trigger]
            observation_listed(first_observations(s), id) == observation_listed(s, id),
    decreases s.len(),
{
    if s.len() > 0 {
        let head = s.drop_last();
        lemma_first_observations(head);
        let f = first_observations(head);
        assert forall|id: u128| #[trigger] observation_listed(first_observations(s), id) == observation_listed(
            s,
            id,
        ) by {
            if observation_listed(s, id) {
                let j = choose|j: int| 0 <= j < s.len() && (#[trigger] s[j]).id == id;
                if j < head.len() {
                    assert(head[j].id == id);
                    assert(observation_listed(f, id));
                }
                if observation_listed(f, id) {
                    let i = choose|i: int| 0 <= i < f.len() && (#[trigger] f[i]).id == id;
                    assert(first_observations(s)[i].id == id);
                } else {
                    assert(first_observations(s)[f.len() as int].id == id);
                }
            }
            if observation_listed(first_observations(s), id) {
                let j = choose|j: int|
                    0 <= j < first_observations(s).len() && (#[trigger] first_observations(s)[j]).id == id;
                if j < f.len() {
                    assert(f[j].id == id);
                    assert(observation_listed(f, id));
                    assert(observation_listed(head, id));
                    let i = choose|i: int| 0 <= i < head.len() && (#[trigger] head[i]).id == id;
                    assert(s[i].id == id);
                } else {
                    assert(s[s.len() - 1].id == id);
                }
            }
        }
    }
}

/// The rows of batches to write to a database that takes no id twice at once: of
/// rows with one id the first. Nothing is to be written where there are no
/// batches.
pub fn plan_write(payloads: Vec<IngestEnvelope>, now: &Timestamp) -> (r: Option<PreparedBatches>)
    ensures
        payloads@.len() == 0 ==> r is None,
        payloads@.len() > 0 ==> {
            &&& r matches Some(plan)
            &&& place_models(plan.placeholders@) == places(resolved_observations(payloads@, *now))
            &&& rows::trace_models(plan.traces@) == first_traces(resolved_traces(payloads@, *now))
            &&& rows::observation_models(plan.observations@) == first_observations(
                resolved_observations(payloads@, *now),
            )
        },
{
    if payloads.len() == 0 {
        return None;
    }
    let prepared = prepare_batches(payloads, now);
    Some(
        PreparedBatches {
            placeholders: prepared.placeholders,
            traces: keep_first_traces(prepared.traces),
            observations: keep_first_observations(prepared.observations),
        },
    )
}

/// The row of a trace of which nothing is known but that there are observations
/// of it.
pub open spec fn place_row(p: PlaceholderModel, now: Timestamp) -> rows::TraceModel {
    rows::TraceModel {
        id: p.trace_id,
        timestamp: now,
        name: None,
        input: None,
        output: None,
        session_id: None,
        release: None,
        version: None,
        user_id: None,
        metadata: None,
        tags: Seq::empty(),
        public: false,
        environment: p.environment,
        latency: None,
        total_cost: None,
        external_id: None,
        bookmarked: false,
        project_id: p.project_id,
        created_at: now,
        updated_at: now,
    }
}

/// The row of a trace of which nothing is known but that there are observations
/// of it.
fn placeholder_row(p: Placeholder, now: &Timestamp) -> (r: TraceRow)
    ensures
        r@ == place_row(p@, *now),
{
    let row = TraceRow {
        id: p.trace_id,
        timestamp: *now,
        name: None,
        input: None,
        output: None,
        session_id: None,
        release: None,
        version: None,
        user_id: None,
        metadata: None,
        tags: Vec::new(),
        public: false,
        environment: p.environment,
        latency: None,
        total_cost: None,
        external_id: None,
        bookmarked: false,
        project_id: p.project_id,
        created_at: *now,
        updated_at: *now,
    };
    assert(text::texts(row.tags@) =~= Seq::<Seq<char>>::empty());
    row
}

/// `m` with a row for each trace that it does not hold.
pub open spec fn with_places(
    m: Map<u128, rows::TraceModel>,
    s: Seq<PlaceholderModel>,
    now: Timestamp,
) -> Map<u128, rows::TraceModel>
    decreases s.len(),
{
    if s.len() == 0 {
        m
    } else {
        let head = with_places(m, s.drop_last(), now);
        if head.contains_key(s.last().trace_id) {
            head
        } else {
            head.insert(s.last().trace_id, place_row(s.last(), now))
        }
    }
}

/// `m` with a row that keeps the instant at which its id was first written.
pub open spec fn upserted_trace(
    m: Map<u128, rows::TraceModel>,
    row: rows::TraceModel,
) -> Map<u128, rows::TraceModel> {
    m.insert(
        row.id,
        rows::TraceModel {
            created_at: if m.contains_key(row.id) {
                m[row.id].created_at
            } else {
                row.created_at
            },
            ..row
        },
    )
}

/// `m` with rows, one after the other.
pub open spec fn with_traces(
    m: Map<u128, rows::TraceModel>,
    s: Seq<rows::TraceModel>,
) -> Map<u128, rows::TraceModel>
    decreases s.len(),
{
    if s.len() == 0 {
        m
    } else {
        upserted_trace(with_traces(m, s.drop_last()), s.last())
    }
}

/// `m` with a row that keeps the instant at which its id was first written.
pub open spec fn upserted_observation(
    m: Map<u128, rows::ObservationModel>,
    row: rows::ObservationModel,
) -> Map<u128, rows::ObservationModel> {
    m.insert(
        row.id,
        rows::ObservationModel {
            created_at: if m.contains_key(row.id) {
                m[row.id].created_at
            } else {
                row.created_at
            },
            ..row
        },
    )
}

/// `m` with rows, one after the other.
pub open spec fn with_observations(
    m: Map<u128, rows::ObservationModel>,
    s: Seq<rows::ObservationModel>,
) -> Map<u128, rows::ObservationModel>
    decreases s.len(),
{
    if s.len() == 0 {
        m
    } else {
        upserted_observation(with_observations(m, s.drop_last()), s.last())
    }
}

/// The traces of a store after batches have been written to it at `now`.
pub open spec fn traces_after(
    m: Map<u128, rows::TraceModel>,
    payloads: Seq<IngestEnvelope>,
    now: Timestamp,
) -> Map<u128, rows::TraceModel> {
    with_traces(
        with_places(m, places(resolved_observations(payloads, now)), now),
        resolved_traces(payloads, now),
    )
}

/// The observations of a store after batches have been written to it at `now`.
pub open spec fn observations_after(
    m: Map<u128, rows::ObservationModel>,
    payloads: Seq<IngestEnvelope>,
    now: Timestamp,
) -> Map<u128, rows::ObservationModel> {
    with_observations(m, resolved_observations(payloads, now))
}

/// Writes batches to a store in memory, at `now`.
pub fn write_batches_at(db: &mut MemoryDb, payloads: Vec<IngestEnvelope>, now: &Timestamp)
    requires
        old(db).wf(),
    ensures
        final(db).wf(),
        final(db).traces() == traces_after(old(db).traces(), payloads@, *now),
        final(db).observations() == observations_after(old(db).observations(), payloads@, *now),
        final(db).metrics() == old(db).metrics(),
        final(db).media() == old(db).media(),
{
    let prepared = prepare_batches(payloads, now);
    let ghost traces0 = db.traces();
    let ghost observations0 = db.observations();
    let ghost ps = prepared.placeholders@;
    let ghost ts = prepared.traces@;
    let ghost os = prepared.observations@;
    assert(place_models(ps).take(0) =~= Seq::<PlaceholderModel>::empty());
    for p in it: prepared.placeholders
        invariant
            it.seq() == ps,
            db.wf(),
            db.same_but_traces(*old(db)),
            db.traces() == with_places(traces0, place_models(ps).take(it.index() as int), *now),
    {
        let ghost i = it.index() as int;
        assert(place_models(ps).take(i + 1).drop_last() =~= place_models(ps).take(i));
        assert(place_models(ps).take(i + 1).last() == p@);
        if !db.has_trace(p.trace_id) {
            let row = placeholder_row(p, now);
            db.insert_trace(row);
        }
    }
    assert(place_models(ps).take(ps.len() as int) =~= place_models(ps));
    let ghost traces1 = db.traces();
    assert(rows::trace_models(ts).take(0) =~= Seq::<rows::TraceModel>::empty());
    for row in it: prepared.traces
        invariant
            it.seq() == ts,
            db.wf(),
            db.same_but_traces(*old(db)),
            db.traces() == with_traces(traces1, rows::trace_models(ts).take(it.index() as int)),
    {
        let ghost i = it.index() as int;
        assert(rows::trace_models(ts).take(i + 1).drop_last() =~= rows::trace_models(ts).take(i));
        assert(rows::trace_models(ts).take(i + 1).last() == row@);
        let created_at = match db.trace_created_at(row.id) {
            Some(at) => at,
            None => row.created_at,
        };
        let mut row = row;
        row.created_at = created_at;
        db.insert_trace(row);
    }
    assert(rows::trace_models(ts).take(ts.len() as int) =~= rows::trace_models(ts));
    assert(rows::observation_models(os).take(0) =~= Seq::<rows::ObservationModel>::empty());
    for row in it: prepared.observations
        invariant
            it.seq() == os,
            db.wf(),
            db.traces() == with_traces(traces1, rows::trace_models(ts)),
            db.metrics() == old(db).metrics(),
            db.media() == old(db).media(),
            db.observations() == with_observations(
                observations0,
                rows::observation_models(os).take(it.index() as int),
            ),
    {
        let ghost i = it.index() as int;
        assert(rows::observation_models(os).take(i + 1).drop_last() =~= rows::observation_models(os).take(i));
        assert(rows::observation_models(os).take(i + 1).last() == row@);
        let created_at = match db.observation_created_at(row.id) {
            Some(at) => at,
            None => row.created_at,
        };
        let mut row = row;
        row.created_at = created_at;
        db.insert_observation(row);
    }
    assert(rows::observation_models(os).take(os.len() as int) =~= rows::observation_models(os));
}

/// Writes batches to a store in memory, at the instant of the system clock.
pub fn write_batches_to_memory(db: &mut MemoryDb, payloads: Vec<IngestEnvelope>)
    requires
        old(db).wf(),
    ensures
        final(db).wf(),
        exists|now: Timestamp|
            {
                &&& time::on_clock(now@)
                &&& #[trigger] traces_after(old(db).traces(), payloads@, now) == final(db).traces()
                &&& observations_after(old(db).observations(), payloads@, now)
                    == final(db).observations()
            },
        final(db).metrics() == old(db).metrics(),
        final(db).media() == old(db).media(),
{
    let now = Timestamp::now();
    write_batches_at(db, payloads, &now);
    assert(traces_after(old(db).traces(), payloads@, now) == db.traces());
}

/// Every trace that observations speak of has a placeholder.
proof fn lemma_places_cover(s: Seq<rows::ObservationModel>)
    ensures
        forall|i: int| 0 <= i < s.len() ==> has_place(places(s), (#[trigger] s[i]).trace_id),
    decreases s.len(),
{
    if s.len() > 0 {
        let head = s.drop_last();
        lemma_places_cover(head);
        let p = places(head);
        assert forall|i: int| 0 <= i < s.len() implies has_place(
            places(s),
            (#[trigger] s[i]).trace_id,
        ) by {
            let id = s[i].trace_id;
            if i < head.len() {
                assert(head[i] == s[i]);
            }
            if has_place(p, id) {
                let k = choose|k: int| 0 <= k < p.len() && (#[trigger] p[k]).trace_id == id;
                assert(places(s)[k].trace_id == id);
            } else {
                assert(places(s)[p.len() as int].trace_id == id);
            }
        }
    }
}

/// What placeholders make of a map, id by id: a trace that there is stays as it
/// is, and one that there is not gets a row if it has a placeholder.
pub proof fn lemma_with_places(
    m: Map<u128, rows::TraceModel>,
    s: Seq<PlaceholderModel>,
    now: Timestamp,
    k: u128,
)
    ensures
        with_places(m, s, now).contains_key(k) == (m.contains_key(k) || has_place(s, k)),
        m.contains_key(k) ==> with_places(m, s, now)[k] == m[k],
    decreases s.len(),
{
    if s.len() > 0 {
        let head = s.drop_last();
        lemma_with_places(m, head, now, k);
        assert(s[s.len() - 1] == s.last());
        if has_place(head, k) {
            let i = choose|i: int| 0 <= i < head.len() && (#[trigger] head[i]).trace_id == k;
            assert(s[i].trace_id == k);
        }
        if has_place(s, k) && k != s.last().trace_id {
            let i = choose|i: int| 0 <= i < s.len() && (#[trigger] s[i]).trace_id == k;
            assert(head[i].trace_id == k);
        }
    }
}

/// The last of the rows with an id, if there is one.
pub open spec fn latest_trace(s: Seq<rows::TraceModel>, id: u128) -> Option<rows::TraceModel>
    decreases s.len(),
{
    if s.len() == 0 {
        None
    } else if s.last().id == id {
        Some(s.last())
    } else {
        latest_trace(s.drop_last(), id)
    }
}

/// What rows make of a map, id by id: one that it held is still there, with the
/// instant at which it was first written; one that a row has is there, with the
/// last such row; another is as it was.
pub proof fn lemma_with_traces(m: Map<u128, rows::TraceModel>, s: Seq<rows::TraceModel>, k: u128)
    ensures
        with_traces(m, s).contains_key(k) == (m.contains_key(k) || latest_trace(s, k) is Some),
        m.contains_key(k) ==> with_traces(m, s)[k].created_at == m[k].created_at,
        match latest_trace(s, k) {
            None => m.contains_key(k) ==> with_traces(m, s)[k] == m[k],
            Some(row) => with_traces(m, s)[k] == (rows::TraceModel {
                created_at: with_traces(m, s)[k].created_at,
                ..row
            }),
        },
    decreases s.len(),
{
    if s.len() > 0 {
        lemma_with_traces(m, s.drop_last(), k);
    }
}

/// The last of the rows with an id, if there is one.
pub open spec fn latest_observation(s: Seq<rows::ObservationModel>, id: u128) -> Option<rows::ObservationModel>
    decreases s.len(),
{
    if s.len() == 0 {
        None
    } else if s.last().id == id {
        Some(s.last())
    } else {
        latest_observation(s.drop_last(), id)
    }
}

/// What rows make of a map, id by id: one that it held is still there, with the
/// instant at which it was first written; one that a row has is there, with the
/// last such row; another is as it was.
pub proof fn lemma_with_observations(m: Map<u128, rows::ObservationModel>, s: Seq<rows::ObservationModel>, k: u128)
    ensures
        with_observations(m, s).contains_key(k) == (m.contains_key(k) || latest_observation(s, k) is Some),
        m.contains_key(k) ==> with_observations(m, s)[k].created_at == m[k].created_at,
        match latest_observation(s, k) {
            None => m.contains_key(k) ==> with_observations(m, s)[k] == m[k],
            Some(row) => with_observations(m, s)[k] == (rows::ObservationModel {
                created_at: with_observations(m, s)[k].created_at,
                ..row
            }),
        },
    decreases s.len(),
{
    if s.len() > 0 {
        lemma_with_observations(m, s.drop_last(), k);
    }
}

/// Whether every observation belongs to a trace that there is.
pub open spec fn all_have_traces(
    traces: Map<u128, rows::TraceModel>,
    observations: Map<u128, rows::ObservationModel>,
) -> bool {
    forall|k: u128| #[trigger]
        observations.contains_key(k) ==> traces.contains_key(observations[k].trace_id)
}

/// The last row with an id is one of the rows.
proof fn lemma_latest_observation(s: Seq<rows::ObservationModel>, id: u128)
    ensures
        latest_observation(s, id) matches Some(row) ==> exists|i: int|
            0 <= i < s.len() && #[trigger] s[i] == row,
    decreases s.len(),
{
    if s.len() > 0 {
        if s.last().id == id {
            assert(s[s.len() - 1] == s.last());
        } else {
            lemma_latest_observation(s.drop_last(), id);
            if latest_observation(s, id) is Some {
                let row = latest_observation(s, id)->0;
                let i = choose|i: int|
                    0 <= i < s.drop_last().len() && #[trigger] s.drop_last()[i] == row;
                assert(s[i] == row);
            }
        }
    }
}

/// After a write every observation belongs to a trace that there is, if it was
/// so before.
pub proof fn lemma_no_orphans(
    traces: Map<u128, rows::TraceModel>,
    observations: Map<u128, rows::ObservationModel>,
    payloads: Seq<IngestEnvelope>,
    now: Timestamp,
)
    requires
        all_have_traces(traces, observations),
    ensures
        all_have_traces(
            traces_after(traces, payloads, now),
            observations_after(observations, payloads, now),
        ),
{
    let sent = resolved_observations(payloads, now);
    let t1 = with_places(traces, places(sent), now);
    let after = observations_after(observations, payloads, now);
    lemma_places_cover(sent);
    assert forall|k: u128| #[trigger] after.contains_key(k) implies traces_after(
        traces,
        payloads,
        now,
    ).contains_key(after[k].trace_id) by {
        let id = after[k].trace_id;
        lemma_with_observations(observations, sent, k);
        lemma_with_places(traces, places(sent), now, id);
        lemma_with_traces(t1, resolved_traces(payloads, now), id);
        if latest_observation(sent, k) is Some {
            lemma_latest_observation(sent, k);
            let i = choose|i: int|
                0 <= i < sent.len() && #[trigger] sent[i] == latest_observation(sent, k)->0;
            assert(has_place(places(sent), sent[i].trace_id));
        } else {
            assert(observations.contains_key(k));
        }
    }
}

/// A write loses nothing: every trace and observation that there was is there
/// afterwards, with the instant at which it was first written.
pub proof fn lemma_write_loses_nothing(
    traces: Map<u128, rows::TraceModel>,
    observations: Map<u128, rows::ObservationModel>,
    payloads: Seq<IngestEnvelope>,
    now: Timestamp,
    k: u128,
)
    ensures
        traces.contains_key(k) ==> traces_after(traces, payloads, now).contains_key(k)
            && traces_after(traces, payloads, now)[k].created_at == traces[k].created_at,
        observations.contains_key(k) ==> observations_after(
            observations,
            payloads,
            now,
        ).contains_key(k) && observations_after(observations, payloads, now)[k].created_at
            == observations[k].created_at,
{
    let sent = resolved_observations(payloads, now);
    let t1 = with_places(traces, places(sent), now);
    lemma_with_places(traces, places(sent), now, k);
    lemma_with_traces(t1, resolved_traces(payloads, now), k);
    lemma_with_observations(observations, sent, k);
}

/// What is written is read back: the row under the id of a trace is the last one
/// that the batches resolve to for it, but for the instant of the first write,
/// and the same holds of observations.
pub proof fn lemma_written_rows_read_back(
    traces: Map<u128, rows::TraceModel>,
    observations: Map<u128, rows::ObservationModel>,
    payloads: Seq<IngestEnvelope>,
    now: Timestamp,
    k: u128,
)
    ensures
        latest_trace(resolved_traces(payloads, now), k) matches Some(row) ==> {
            let after = traces_after(traces, payloads, now);
            after.contains_key(k) && after[k] == (rows::TraceModel {
                created_at: after[k].created_at,
                ..row
            })
        },
        latest_observation(resolved_observations(payloads, now), k) matches Some(row) ==> {
            let after = observations_after(observations, payloads, now);
            after.contains_key(k) && after[k] == (rows::ObservationModel {
                created_at: after[k].created_at,
                ..row
            })
        },
{
    let sent = resolved_observations(payloads, now);
    lemma_with_traces(
        with_places(traces, places(sent), now),
        resolved_traces(payloads, now),
        k,
    );
    lemma_with_observations(observations, sent, k);
}

/// Ids that batches do not speak of are left alone.
pub proof fn lemma_write_touches_only_its_ids(
    traces: Map<u128, rows::TraceModel>,
    observations: Map<u128, rows::ObservationModel>,
    payloads: Seq<IngestEnvelope>,
    now: Timestamp,
    k: u128,
)
    ensures
        latest_trace(resolved_traces(payloads, now), k) is None && traces.contains_key(k)
            ==> traces_after(traces, payloads, now)[k] == traces[k],
        latest_observation(resolved_observations(payloads, now), k) is None
            && observations.contains_key(k) ==> observations_after(observations, payloads, now)[k]
            == observations[k],
{
    let sent = resolved_observations(payloads, now);
    lemma_with_places(traces, places(sent), now, k);
    lemma_with_traces(
        with_places(traces, places(sent), now),
        resolved_traces(payloads, now),
        k,
    );
    lemma_with_observations(observations, sent, k);
}

/// How many traces and observations a batch holds. The count wraps around.
pub open spec fn items_in(e: IngestEnvelope) -> u64 {
    (e.request.observations@.len() as u64).wrapping_add(
        if e.request.trace is Some {
            1
        } else {
            0
        },
    )
}

/// How many traces and observations batches hold. The count wraps around.
pub open spec fn items_in_all(s: Seq<IngestEnvelope>) -> u64
    decreases s.len(),
{
    if s.len() == 0 {
        0
    } else {
        items_in_all(s.drop_last()).wrapping_add(items_in(s.last()))
    }
}

/// How many traces and observations batches hold.
pub fn item_count(s: &Vec<IngestEnvelope>) -> (r: u64)
    ensures
        r == items_in_all(s@),
{
    let mut total: u64 = 0;
    let mut i: usize = 0;
    assert(s@.take(0) =~= Seq::<IngestEnvelope>::empty());
    while i < s.len()
        invariant
            0 <= i <= s@.len(),
            total == items_in_all(s@.take(i as int)),
        decreases s.len() - i,
    {
        assert(s@.take(i + 1).drop_last() =~= s@.take(i as int));
        let own: u64 = if s[i].request.trace.is_some() {
            1
        } else {
            0
        };
        let n = s[i].request.observations.len() as u64;
        total = total.wrapping_add(n.wrapping_add(own));
        i += 1;
    }
    assert(s@.take(s@.len() as int) =~= s@);
    total
}

/// How many batches are written at once at most.
pub const MAX_BATCHES: usize = 200;

/// For how many nanoseconds batches are gathered before they are written.
pub const GATHER_NANOS: u128 = 50_000_000;

/// For how many more nanoseconds to wait for a batch, `elapsed` nanoseconds
/// after the first of those gathered came, if at all.
pub fn gather_more(gathered: usize, elapsed: u128) -> (r: Option<u64>)
    ensures
        match r {
            Some(n) => gathered < MAX_BATCHES && n > 0 && n == GATHER_NANOS - elapsed,
            None => gathered >= MAX_BATCHES || elapsed >= GATHER_NANOS,
        },
        r is Some <==> gathered < 200 && elapsed < 50_000_000,
        r matches Some(n) ==> elapsed + n == 50_000_000,
{
    if gathered < MAX_BATCHES && elapsed < GATHER_NANOS {
        Some((GATHER_NANOS - elapsed) as u64)
    } else {
        None
    }
}

/// What became of a batch that was put to the queue.
#[derive(Debug, Clone, Copy, PartialEq, Eq, Structural)]
pub enum QueueOutcome {
    Sent,
    Full,
    Closed,
}

/// What a sender is told of what became of its batch.
pub open spec fn queue_error(outcome: QueueOutcome) -> Option<error::ErrorModel> {
    match outcome {
        QueueOutcome::Sent => None,
        QueueOutcome::Full => Some(error::ErrorModel::TooManyRequests),
        QueueOutcome::Closed => Some(error::ErrorModel::ServiceUnavailable),
    }
}

/// What a sender is told of what became of its batch.
pub fn queue_reply(outcome: QueueOutcome) -> (r: Result<(), ApiError>)
    ensures
        match r {
            Ok(()) => queue_error(outcome) is None,
            Err(e) => queue_error(outcome) == Some(e@),
        },
        r is Ok <==> outcome == QueueOutcome::Sent,
        r matches Err(e) ==> (outcome == QueueOutcome::Full <==> e@
            == error::ErrorModel::TooManyRequests) && (outcome == QueueOutcome::Closed <==> e@
            == error::ErrorModel::ServiceUnavailable),
{
    match outcome {
        QueueOutcome::Sent => Ok(()),
        QueueOutcome::Full => Err(ApiError::TooManyRequests),
        QueueOutcome::Closed => Err(ApiError::ServiceUnavailable),
    }
}

/// Counts what became of a batch, and says what its sender is told.
pub fn post_batch(stats: &mut IngestStats, outcome: QueueOutcome) -> (r: Result<(), ApiError>)
    ensures
        match r {
            Ok(()) => queue_error(outcome) is None,
            Err(e) => queue_error(outcome) == Some(e@),
        },
        r is Ok <==> outcome == QueueOutcome::Sent,
        r matches Err(e) ==> (outcome == QueueOutcome::Full <==> e@
            == error::ErrorModel::TooManyRequests) && (outcome == QueueOutcome::Closed <==> e@
            == error::ErrorModel::ServiceUnavailable),
        *final(stats) == match outcome {
            QueueOutcome::Sent => IngestStats {
                enqueued: old(stats).enqueued.wrapping_add(1),
                ..*old(stats)
            },
            QueueOutcome::Full => IngestStats {
                queue_rejected: old(stats).queue_rejected.wrapping_add(1),
                ..*old(stats)
            },
            QueueOutcome::Closed => *old(stats),
        },
{
    match outcome {
        QueueOutcome::Sent => stats.record_enqueued(1),
        QueueOutcome::Full => stats.record_queue_rejected(1),
        QueueOutcome::Closed => {},
    }
    queue_reply(outcome)
}

}
