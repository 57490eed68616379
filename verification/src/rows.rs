//! The rows that are stored: traces, observations, metric points and media.

use vstd::prelude::*;

use crate::json::Json;
use crate::json;
use crate::number::Double;
use crate::number;
use crate::order::Ranked;
use crate::text;
use crate::time::Timestamp;
use crate::time;

verus! {

/// How long something took: as the client says, in seconds, or as its times
/// say, in milliseconds.
#[derive(Clone, Copy, PartialEq, Eq, Debug, Structural)]
pub enum Latency {
    Reported(Double),
    Millis(i64),
}

/// Whether a latency is finite and not below zero.
pub open spec fn latency_counts(l: Latency) -> bool {
    match l {
        Latency::Reported(d) => number::finite_nonnegative(d),
        Latency::Millis(ms) => ms >= 0,
    }
}

impl Latency {
    /// Whether this latency is finite and not below zero.
    pub fn counts(&self) -> (r: bool)
        ensures
            r == latency_counts(*self),
    {
        match self {
            Latency::Reported(d) => d.is_finite_nonnegative(),
            Latency::Millis(ms) => *ms >= 0,
        }
    }
}

/// An optional JSON value as a mathematical one.
pub open spec fn opt_json(o: Option<Json>) -> Option<json::JsonModel> {
    match o {
        Some(j) => Some(j@),
        None => None,
    }
}

/// An optional text like `o`.
pub fn copy_opt_text(o: &Option<String>) -> (r: Option<String>)
    ensures
        text::opt_text(r) == text::opt_text(*o),
{
    match o {
        Some(t) => Some(t.clone()),
        None => None,
    }
}

/// An optional JSON value like `o`.
pub fn copy_opt_json(o: &Option<Json>) -> (r: Option<Json>)
    ensures
        opt_json(r) == opt_json(*o),
{
    match o {
        Some(j) => Some(j.copy()),
        None => None,
    }
}

/// Texts like those of `v`.
pub fn copy_texts(v: &Vec<String>) -> (r: Vec<String>)
    ensures
        text::texts(r@) == text::texts(v@),
{
    let mut out: Vec<String> = Vec::new();
    let mut i: usize = 0;
    while i < v.len()
        invariant
            0 <= i <= v@.len(),
            text::texts(out@) == text::texts(v@).take(i as int),
        decreases v.len() - i,
    {
        let ghost before = out@;
        out.push(v[i].clone());
        i += 1;
        assert(text::texts(out@) =~= text::texts(before).push(v@[i - 1]@));
        assert(text::texts(v@).take(i as int) =~= text::texts(v@).take(i - 1).push(v@[i - 1]@));
    }
    assert(text::texts(v@).take(v@.len() as int) =~= text::texts(v@));
    out
}

/// A stored trace.
#[derive(Debug)]
pub struct TraceRow {
    pub id: u128,
    pub timestamp: Timestamp,
    pub name: Option<String>,
    pub input: Option<Json>,
    pub output: Option<Json>,
    pub session_id: Option<String>,
    pub release: Option<String>,
    pub version: Option<String>,
    pub user_id: Option<String>,
    pub metadata: Option<Json>,
    pub tags: Vec<String>,
    pub public: bool,
    pub environment: String,
    pub latency: Option<Latency>,
    pub total_cost: Option<Double>,
    pub external_id: Option<String>,
    pub bookmarked: bool,
    pub project_id: String,
    pub created_at: Timestamp,
    pub updated_at: Timestamp,
}

/// A stored trace, its texts taken as characters.
#[verifier::ext_equal]
pub ghost struct TraceModel {
    pub id: u128,
    pub timestamp: Timestamp,
    pub name: Option<Seq<char>>,
    pub input: Option<json::JsonModel>,
    pub output: Option<json::JsonModel>,
    pub session_id: Option<Seq<char>>,
    pub release: Option<Seq<char>>,
    pub version: Option<Seq<char>>,
    pub user_id: Option<Seq<char>>,
    pub metadata: Option<json::JsonModel>,
    pub tags: Seq<Seq<char>>,
    pub public: bool,
    pub environment: Seq<char>,
    pub latency: Option<Latency>,
    pub total_cost: Option<Double>,
    pub external_id: Option<Seq<char>>,
    pub bookmarked: bool,
    pub project_id: Seq<char>,
    pub created_at: Timestamp,
    pub updated_at: Timestamp,
}

impl View for TraceRow {
    type V = TraceModel;

    open spec fn view(&self) -> TraceModel {
        TraceModel {
            id: self.id,
            timestamp: self.timestamp,
            name: text::opt_text(self.name),
            input: opt_json(self.input),
            output: opt_json(self.output),
            session_id: text::opt_text(self.session_id),
            release: text::opt_text(self.release),
            version: text::opt_text(self.version),
            user_id: text::opt_text(self.user_id),
            metadata: opt_json(self.metadata),
            tags: text::texts(self.tags@),
            public: self.public,
            environment: self.environment@,
            latency: self.latency,
            total_cost: self.total_cost,
            external_id: text::opt_text(self.external_id),
            bookmarked: self.bookmarked,
            project_id: self.project_id@,
            created_at: self.created_at,
            updated_at: self.updated_at,
        }
    }
}

impl TraceRow {
    /// A row like this one.
    pub fn copy(&self) -> (r: TraceRow)
        ensures
            r@ == self@,
    {
        TraceRow {
            id: self.id,
            timestamp: self.timestamp,
            name: copy_opt_text(&self.name),
            input: copy_opt_json(&self.input),
            output: copy_opt_json(&self.output),
            session_id: copy_opt_text(&self.session_id),
            release: copy_opt_text(&self.release),
            version: copy_opt_text(&self.version),
            user_id: copy_opt_text(&self.user_id),
            metadata: copy_opt_json(&self.metadata),
            tags: copy_texts(&self.tags),
            public: self.public,
            environment: self.environment.clone(),
            latency: self.latency,
            total_cost: self.total_cost,
            external_id: copy_opt_text(&self.external_id),
            bookmarked: self.bookmarked,
            project_id: self.project_id.clone(),
            created_at: self.created_at,
            updated_at: self.updated_at,
        }
    }
}

/// A stored observation.
#[derive(Debug)]
pub struct ObservationRow {
    pub id: u128,
    pub trace_id: u128,
    pub obs_type: String,
    pub name: Option<String>,
    pub start_time: Option<Timestamp>,
    pub end_time: Option<Timestamp>,
    pub completion_start_time: Option<Timestamp>,
    pub model: Option<String>,
    pub model_parameters: Option<Json>,
    pub input: Option<Json>,
    pub output: Option<Json>,
    pub usage: Option<Json>,
    pub level: Option<String>,
    pub status_message: Option<String>,
    pub parent_observation_id: Option<u128>,
    pub prompt_id: Option<String>,
    pub prompt_name: Option<String>,
    pub prompt_version: Option<String>,
    pub model_id: Option<String>,
    pub input_price: Option<Double>,
    pub output_price: Option<Double>,
    pub total_price: Option<Double>,
    pub calculated_input_cost: Option<Double>,
    pub calculated_output_cost: Option<Double>,
    pub calculated_total_cost: Option<Double>,
    pub latency: Option<Latency>,
    pub time_to_first_token: Option<Double>,
    pub completion_tokens: Option<i64>,
    pub prompt_tokens: Option<i64>,
    pub total_tokens: Option<i64>,
    pub unit: Option<String>,
    pub metadata: Option<Json>,
    pub environment: String,
    pub project_id: String,
    pub created_at: Timestamp,
    pub updated_at: Timestamp,
}

/// A stored observation, its texts taken as characters.
#[verifier::ext_equal]
pub ghost struct ObservationModel {
    pub id: u128,
    pub trace_id: u128,
    pub obs_type: Seq<char>,
    pub name: Option<Seq<char>>,
    pub start_time: Option<Timestamp>,
    pub end_time: Option<Timestamp>,
    pub completion_start_time: Option<Timestamp>,
    pub model: Option<Seq<char>>,
    pub model_parameters: Option<json::JsonModel>,
    pub input: Option<json::JsonModel>,
    pub output: Option<json::JsonModel>,
    pub usage: Option<json::JsonModel>,
    pub level: Option<Seq<char>>,
    pub status_message: Option<Seq<char>>,
    pub parent_observation_id: Option<u128>,
    pub prompt_id: Option<Seq<char>>,
    pub prompt_name: Option<Seq<char>>,
    pub prompt_version: Option<Seq<char>>,
    pub model_id: Option<Seq<char>>,
    pub input_price: Option<Double>,
    pub output_price: Option<Double>,
    pub total_price: Option<Double>,
    pub calculated_input_cost: Option<Double>,
    pub calculated_output_cost: Option<Double>,
    pub calculated_total_cost: Option<Double>,
    pub latency: Option<Latency>,
    pub time_to_first_token: Option<Double>,
    pub completion_tokens: Option<i64>,
    pub prompt_tokens: Option<i64>,
    pub total_tokens: Option<i64>,
    pub unit: Option<Seq<char>>,
    pub metadata: Option<json::JsonModel>,
    pub environment: Seq<char>,
    pub project_id: Seq<char>,
    pub created_at: Timestamp,
    pub updated_at: Timestamp,
}

impl View for ObservationRow {
    type V = ObservationModel;

    open spec fn view(&self) -> ObservationModel {
        ObservationModel {
            id: self.id,
            trace_id: self.trace_id,
            obs_type: self.obs_type@,
            name: text::opt_text(self.name),
            start_time: self.start_time,
            end_time: self.end_time,
            completion_start_time: self.completion_start_time,
            model: text::opt_text(self.model),
            model_parameters: opt_json(self.model_parameters),
            input: opt_json(self.input),
            output: opt_json(self.output),
            usage: opt_json(self.usage),
            level: text::opt_text(self.level),
            status_message: text::opt_text(self.status_message),
            parent_observation_id: self.parent_observation_id,
            prompt_id: text::opt_text(self.prompt_id),
            prompt_name: text::opt_text(self.prompt_name),
            prompt_version: text::opt_text(self.prompt_version),
            model_id: text::opt_text(self.model_id),
            input_price: self.input_price,
            output_price: self.output_price,
            total_price: self.total_price,
            calculated_input_cost: self.calculated_input_cost,
            calculated_output_cost: self.calculated_output_cost,
            calculated_total_cost: self.calculated_total_cost,
            latency: self.latency,
            time_to_first_token: self.time_to_first_token,
            completion_tokens: self.completion_tokens,
            prompt_tokens: self.prompt_tokens,
            total_tokens: self.total_tokens,
            unit: text::opt_text(self.unit),
            metadata: opt_json(self.metadata),
            environment: self.environment@,
            project_id: self.project_id@,
            created_at: self.created_at,
            updated_at: self.updated_at,
        }
    }
}

impl ObservationRow {
    /// A row like this one.
    pub fn copy(&self) -> (r: ObservationRow)
        ensures
            r@ == self@,
    {
        ObservationRow {
            id: self.id,
            trace_id: self.trace_id,
            obs_type: self.obs_type.clone(),
            name: copy_opt_text(&self.name),
            start_time: self.start_time,
            end_time: self.end_time,
            completion_start_time: self.completion_start_time,
            model: copy_opt_text(&self.model),
            model_parameters: copy_opt_json(&self.model_parameters),
            input: copy_opt_json(&self.input),
            output: copy_opt_json(&self.output),
            usage: copy_opt_json(&self.usage),
            level: copy_opt_text(&self.level),
            status_message: copy_opt_text(&self.status_message),
            parent_observation_id: self.parent_observation_id,
            prompt_id: copy_opt_text(&self.prompt_id),
            prompt_name: copy_opt_text(&self.prompt_name),
            prompt_version: copy_opt_text(&self.prompt_version),
            model_id: copy_opt_text(&self.model_id),
            input_price: self.input_price,
            output_price: self.output_price,
            total_price: self.total_price,
            calculated_input_cost: self.calculated_input_cost,
            calculated_output_cost: self.calculated_output_cost,
            calculated_total_cost: self.calculated_total_cost,
            latency: self.latency,
            time_to_first_token: self.time_to_first_token,
            completion_tokens: self.completion_tokens,
            prompt_tokens: self.prompt_tokens,
            total_tokens: self.total_tokens,
            unit: copy_opt_text(&self.unit),
            metadata: copy_opt_json(&self.metadata),
            environment: self.environment.clone(),
            project_id: self.project_id.clone(),
            created_at: self.created_at,
            updated_at: self.updated_at,
        }
    }
}

/// A stored metric point.
#[derive(Debug)]
pub struct MetricRow {
    pub project_id: String,
    pub environment: String,
    pub name: String,
    pub labels: Json,
    pub value: Double,
    pub timestamp: Timestamp,
    pub created_at: Timestamp,
}

/// A stored metric point, its texts taken as characters.
#[verifier::ext_equal]
pub ghost struct MetricModel {
    pub project_id: Seq<char>,
    pub environment: Seq<char>,
    pub name: Seq<char>,
    pub labels: json::JsonModel,
    pub value: Double,
    pub timestamp: Timestamp,
    pub created_at: Timestamp,
}

impl View for MetricRow {
    type V = MetricModel;

    open spec fn view(&self) -> MetricModel {
        MetricModel {
            project_id: self.project_id@,
            environment: self.environment@,
            name: self.name@,
            labels: self.labels@,
            value: self.value,
            timestamp: self.timestamp,
            created_at: self.created_at,
        }
    }
}

/// Metric points are ordered by their instants.
impl Ranked for MetricRow {
    open spec fn before(&self, other: &MetricRow) -> bool {
        time::earlier(self.timestamp@, other.timestamp@)
    }

    proof fn order_laws(a: &MetricRow, b: &MetricRow, c: &MetricRow) {
    }

    fn stands_before(&self, other: &MetricRow) -> (r: bool) {
        self.timestamp.before(&other.timestamp)
    }
}

/// The account of a media file.
#[derive(Debug)]
pub struct MediaRow {
    pub id: String,
    pub project_id: String,
    pub content_type: String,
    pub content_length: i64,
    pub sha256_hash: String,
    pub uploaded_at: Option<Timestamp>,
    pub created_at: Timestamp,
}

/// The account of a media file, its texts taken as characters.
#[verifier::ext_equal]
pub ghost struct MediaModel {
    pub id: Seq<char>,
    pub project_id: Seq<char>,
    pub content_type: Seq<char>,
    pub content_length: i64,
    pub sha256_hash: Seq<char>,
    pub uploaded_at: Option<Timestamp>,
    pub created_at: Timestamp,
}

impl View for MediaRow {
    type V = MediaModel;

    open spec fn view(&self) -> MediaModel {
        MediaModel {
            id: self.id@,
            project_id: self.project_id@,
            content_type: self.content_type@,
            content_length: self.content_length,
            sha256_hash: self.sha256_hash@,
            uploaded_at: self.uploaded_at,
            created_at: self.created_at,
        }
    }
}

impl MediaRow {
    /// A row like this one.
    pub fn copy(&self) -> (r: MediaRow)
        ensures
            r@ == self@,
    {
        MediaRow {
            id: self.id.clone(),
            project_id: self.project_id.clone(),
            content_type: self.content_type.clone(),
            content_length: self.content_length,
            sha256_hash: self.sha256_hash.clone(),
            uploaded_at: self.uploaded_at,
            created_at: self.created_at,
        }
    }
}

/// The views of trace rows.
pub open spec fn trace_models(s: Seq<TraceRow>) -> Seq<TraceModel> {
    s.map_values(|t: TraceRow| t@)
}

/// The views of observation rows.
pub open spec fn observation_models(s: Seq<ObservationRow>) -> Seq<ObservationModel> {
    s.map_values(|o: ObservationRow| o@)
}

/// The views of metric rows.
pub open spec fn metric_models(s: Seq<MetricRow>) -> Seq<MetricModel> {
    s.map_values(|m: MetricRow| m@)
}

}
