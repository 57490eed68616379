//! Laws of the store: what the models of its rows tell, what its lists name, and
//! what a change leaves alone.

use vstd::prelude::*;

use crate::memory_db;
use crate::memory_db::MemoryDb;
use crate::order::Ranked;
use crate::rows;
use crate::rows::{MediaRow, MetricRow, ObservationRow, TraceRow};
use crate::time;

verus! {

/// The model of a trace tells each of its fields as it is.
pub proof fn lemma_trace_model(row: TraceRow)
    ensures
        row@.id == row.id,
        row@.timestamp == row.timestamp,
        row@.public == row.public,
        row@.latency == row.latency,
        row@.total_cost == row.total_cost,
        row@.bookmarked == row.bookmarked,
        row@.created_at == row.created_at,
        row@.updated_at == row.updated_at,
        row@.environment == row.environment@,
        row@.project_id == row.project_id@,
        row.name is None ==> row@.name is None,
        row.name matches Some(x) ==> row@.name == Some(x@),
        row.session_id is None ==> row@.session_id is None,
        row.session_id matches Some(x) ==> row@.session_id == Some(x@),
        row.release is None ==> row@.release is None,
        row.release matches Some(x) ==> row@.release == Some(x@),
        row.version is None ==> row@.version is None,
        row.version matches Some(x) ==> row@.version == Some(x@),
        row.user_id is None ==> row@.user_id is None,
        row.user_id matches Some(x) ==> row@.user_id == Some(x@),
        row.external_id is None ==> row@.external_id is None,
        row.external_id matches Some(x) ==> row@.external_id == Some(x@),
        row.input is None ==> row@.input is None,
        row.input matches Some(x) ==> row@.input == Some(x@),
        row.output is None ==> row@.output is None,
        row.output matches Some(x) ==> row@.output == Some(x@),
        row.metadata is None ==> row@.metadata is None,
        row.metadata matches Some(x) ==> row@.metadata == Some(x@),
        row@.tags.len() == row.tags@.len(),
        forall|i: int| 0 <= i < row.tags@.len() ==> #[trigger] row@.tags[i] == row.tags@[i]@,
{
}

/// The model of an observation tells each of its fields as it is.
pub proof fn lemma_observation_model(row: ObservationRow)
    ensures
        row@.id == row.id,
        row@.trace_id == row.trace_id,
        row@.start_time == row.start_time,
        row@.end_time == row.end_time,
        row@.completion_start_time == row.completion_start_time,
        row@.parent_observation_id == row.parent_observation_id,
        row@.input_price == row.input_price,
        row@.output_price == row.output_price,
        row@.total_price == row.total_price,
        row@.calculated_input_cost == row.calculated_input_cost,
        row@.calculated_output_cost == row.calculated_output_cost,
        row@.calculated_total_cost == row.calculated_total_cost,
        row@.latency == row.latency,
        row@.time_to_first_token == row.time_to_first_token,
        row@.completion_tokens == row.completion_tokens,
        row@.prompt_tokens == row.prompt_tokens,
        row@.total_tokens == row.total_tokens,
        row@.created_at == row.created_at,
        row@.updated_at == row.updated_at,
        row@.obs_type == row.obs_type@,
        row@.environment == row.environment@,
        row@.project_id == row.project_id@,
        row.name is None ==> row@.name is None,
        row.name matches Some(x) ==> row@.name == Some(x@),
        row.model is None ==> row@.model is None,
        row.model matches Some(x) ==> row@.model == Some(x@),
        row.level is None ==> row@.level is None,
        row.level matches Some(x) ==> row@.level == Some(x@),
        row.status_message is None ==> row@.status_message is None,
        row.status_message matches Some(x) ==> row@.status_message == Some(x@),
        row.prompt_id is None ==> row@.prompt_id is None,
        row.prompt_id matches Some(x) ==> row@.prompt_id == Some(x@),
        row.prompt_name is None ==> row@.prompt_name is None,
        row.prompt_name matches Some(x) ==> row@.prompt_name == Some(x@),
        row.prompt_version is None ==> row@.prompt_version is None,
        row.prompt_version matches Some(x) ==> row@.prompt_version == Some(x@),
        row.model_id is None ==> row@.model_id is None,
        row.model_id matches Some(x) ==> row@.model_id == Some(x@),
        row.unit is None ==> row@.unit is None,
        row.unit matches Some(x) ==> row@.unit == Some(x@),
        row.model_parameters is None ==> row@.model_parameters is None,
        row.model_parameters matches Some(x) ==> row@.model_parameters == Some(x@),
        row.input is None ==> row@.input is None,
        row.input matches Some(x) ==> row@.input == Some(x@),
        row.output is None ==> row@.output is None,
        row.output matches Some(x) ==> row@.output == Some(x@),
        row.usage is None ==> row@.usage is None,
        row.usage matches Some(x) ==> row@.usage == Some(x@),
        row.metadata is None ==> row@.metadata is None,
        row.metadata matches Some(x) ==> row@.metadata == Some(x@),
{
}

/// The model of a metric point tells each of its fields as it is.
pub proof fn lemma_metric_model(row: MetricRow)
    ensures
        row@.value == row.value,
        row@.timestamp == row.timestamp,
        row@.created_at == row.created_at,
        row@.project_id == row.project_id@,
        row@.environment == row.environment@,
        row@.name == row.name@,
        row@.labels == row.labels@,
{
}

/// The model of a media file tells each of its fields as it is.
pub proof fn lemma_media_model(row: MediaRow)
    ensures
        row@.content_length == row.content_length,
        row@.uploaded_at == row.uploaded_at,
        row@.created_at == row.created_at,
        row@.id == row.id@,
        row@.project_id == row.project_id@,
        row@.content_type == row.content_type@,
        row@.sha256_hash == row.sha256_hash@,
{
}

/// A list of rows has a model for each, in their order.
pub proof fn lemma_models(t: Seq<TraceRow>, o: Seq<ObservationRow>, m: Seq<MetricRow>)
    ensures
        rows::trace_models(t).len() == t.len(),
        rows::observation_models(o).len() == o.len(),
        rows::metric_models(m).len() == m.len(),
        forall|i: int| 0 <= i < t.len() ==> #[trigger] rows::trace_models(t)[i] == t[i]@,
        forall|i: int| 0 <= i < o.len() ==> #[trigger] rows::observation_models(o)[i] == o[i]@,
        forall|i: int| 0 <= i < m.len() ==> #[trigger] rows::metric_models(m)[i] == m[i]@,
{
}

/// Of two metric points the one of the earlier instant stands first, whatever else
/// they hold.
pub proof fn lemma_points_by_time(a: MetricRow, b: MetricRow)
    requires
        time::valid_instant(a.timestamp@.0, a.timestamp@.1),
        time::valid_instant(b.timestamp@.0, b.timestamp@.1),
    ensures
        a.before(&b) <==> time::ticks(a.timestamp@) < time::ticks(b.timestamp@),
{
    time::lemma_earlier_counts(a.timestamp@, b.timestamp@);
}

/// Of the traces of a list that have one id the last stands under it.
pub proof fn lemma_last_trace_counts(s: Seq<TraceRow>, row: TraceRow, other: u128)
    ensures
        memory_db::traces_by_id(s.push(row)).contains_key(row.id),
        memory_db::traces_by_id(s.push(row))[row.id] == row@,
        other != row.id ==> memory_db::traces_by_id(s.push(row)).contains_key(other)
            == memory_db::traces_by_id(s).contains_key(other),
        other != row.id && memory_db::traces_by_id(s).contains_key(other)
            ==> memory_db::traces_by_id(s.push(row))[other] == memory_db::traces_by_id(s)[other],
        !memory_db::traces_by_id(Seq::empty()).contains_key(other),
{
    assert(s.push(row).drop_last() == s);
}

/// Of the observations of a list that have one id the last stands under it.
pub proof fn lemma_last_observation_counts(s: Seq<ObservationRow>, row: ObservationRow, other: u128)
    ensures
        memory_db::observations_by_id(s.push(row)).contains_key(row.id),
        memory_db::observations_by_id(s.push(row))[row.id] == row@,
        other != row.id ==> memory_db::observations_by_id(s.push(row)).contains_key(other)
            == memory_db::observations_by_id(s).contains_key(other),
        other != row.id && memory_db::observations_by_id(s).contains_key(other)
            ==> memory_db::observations_by_id(s.push(row))[other]
            == memory_db::observations_by_id(s)[other],
        !memory_db::observations_by_id(Seq::empty()).contains_key(other),
{
    assert(s.push(row).drop_last() == s);
}

/// A list of the traces names every one that is stored, as it is stored, once, and
/// no other.
pub proof fn lemma_traces_listed(s: Seq<TraceRow>, m: Map<u128, rows::TraceModel>, id: u128)
    requires
        memory_db::lists_trace_rows(s, m),
    ensures
        m.contains_key(id) <==> exists|i: int| 0 <= i < s.len() && (#[trigger] s[i]).id == id,
        forall|i: int|
            0 <= i < s.len() ==> m.contains_key((#[trigger] s[i]).id) && m[s[i].id] == s[i]@,
        forall|i: int, j: int|
            0 <= i < j < s.len() ==> (#[trigger] s[i]).id != (#[trigger] s[j]).id,
{
}

/// A list of the observations names every one that is stored, as it is stored,
/// once, and no other.
pub proof fn lemma_observations_listed(
    s: Seq<ObservationRow>,
    m: Map<u128, rows::ObservationModel>,
    id: u128,
)
    requires
        memory_db::lists_observation_rows(s, m),
    ensures
        m.contains_key(id) <==> exists|i: int| 0 <= i < s.len() && (#[trigger] s[i]).id == id,
        forall|i: int|
            0 <= i < s.len() ==> m.contains_key((#[trigger] s[i]).id) && m[s[i].id] == s[i]@,
        forall|i: int, j: int|
            0 <= i < j < s.len() ==> (#[trigger] s[i]).id != (#[trigger] s[j]).id,
{
}

/// A change of the traces leaves the observations, the metric points and the
/// media alone, and likewise a change of the observations or of the metric
/// points.
pub proof fn lemma_what_else_stays(a: MemoryDb, b: MemoryDb)
    ensures
        a.same_but_traces(b) ==> a.observations() == b.observations() && a.metrics() == b.metrics()
            && a.media() == b.media(),
        a.same_but_observations(b) ==> a.traces() == b.traces() && a.metrics() == b.metrics()
            && a.media() == b.media(),
        a.same_but_metrics(b) ==> a.traces() == b.traces() && a.observations() == b.observations()
            && a.media() == b.media(),
{
}

/// In a store that is in order every row stands under its own id.
pub proof fn lemma_rows_under_their_ids(db: MemoryDb, id: u128, key: Seq<char>)
    requires
        db.wf(),
    ensures
        db.traces().contains_key(id) ==> db.traces()[id].id == id,
        db.observations().contains_key(id) ==> db.observations()[id].id == id,
        db.media().contains_key(key) ==> key == db.media()[key].project_id + ":"@
            + db.media()[key].id,
{
}

}
