//! What becomes of the traces and observations that clients send.

use vstd::prelude::*;

use crate::ingest;
use crate::ingest::{BatchIngestRequest, IngestEnvelope, ObservationIngest, TraceIngest};
use crate::json;
use crate::json::Json;
use crate::rows;
use crate::rows::Latency;
use crate::sums;
use crate::time;
use crate::time::Timestamp;

verus! {

/// The earliest start is the start of one of the observations, and none starts
/// before it; there is one wherever an observation has a start.
pub proof fn lemma_earliest_start(s: Seq<ObservationIngest>)
    ensures
        ingest::earliest_start(s) is Some <==> exists|i: int|
            0 <= i < s.len() && (#[trigger] s[i]).start_time is Some,
        ingest::earliest_start(s) matches Some(t) ==> {
            &&& exists|i: int| 0 <= i < s.len() && (#[trigger] s[i]).start_time == Some(t)
            &&& forall|i: int|
                0 <= i < s.len() && (#[trigger] s[i]).start_time is Some ==> !time::earlier(
                    s[i].start_time->0@,
                    t@,
                )
        },
    decreases s.len(),
{
    if s.len() > 0 {
        let head = s.drop_last();
        lemma_earliest_start(head);
        assert(s[s.len() - 1] == s.last());
        if ingest::earliest_start(head) is Some {
            let i = choose|i: int|
                0 <= i < head.len() && (#[trigger] head[i]).start_time == ingest::earliest_start(
                    head,
                );
            assert(s[i].start_time == ingest::earliest_start(head));
        }
        assert forall|i: int|
            0 <= i < s.len() && (#[trigger] s[i]).start_time is Some && i < s.len() - 1 implies
            head[i].start_time == s[i].start_time && ingest::earliest_start(head) is Some by {
            assert(head[i] == s[i]);
        }
    }
}

/// The latest end is the end of one of the observations, and none ends after it;
/// there is one wherever an observation has an end.
pub proof fn lemma_latest_end(s: Seq<ObservationIngest>)
    ensures
        ingest::latest_end(s) is Some <==> exists|i: int|
            0 <= i < s.len() && (#[trigger] s[i]).end_time is Some,
        ingest::latest_end(s) matches Some(t) ==> {
            &&& exists|i: int| 0 <= i < s.len() && (#[trigger] s[i]).end_time == Some(t)
            &&& forall|i: int|
                0 <= i < s.len() && (#[trigger] s[i]).end_time is Some ==> !time::earlier(
                    t@,
                    s[i].end_time->0@,
                )
        },
    decreases s.len(),
{
    if s.len() > 0 {
        let head = s.drop_last();
        lemma_latest_end(head);
        assert(s[s.len() - 1] == s.last());
        if ingest::latest_end(head) is Some {
            let i = choose|i: int|
                0 <= i < head.len() && (#[trigger] head[i]).end_time == ingest::latest_end(head);
            assert(s[i].end_time == ingest::latest_end(head));
        }
        assert forall|i: int|
            0 <= i < s.len() && (#[trigger] s[i]).end_time is Some && i < s.len() - 1 implies
            head[i].end_time == s[i].end_time && ingest::latest_end(head) is Some by {
            assert(head[i] == s[i]);
        }
    }
}

/// Whether an observation is a root with a name.
pub open spec fn is_named_root(o: ObservationIngest) -> bool {
    o.parent_observation_id is None && o.name is Some
}

/// The name that a trace without one gets: that of the first observation that has a
/// name and no parent, and where there is none, that of the first observation.
pub proof fn lemma_borrowed_name(s: Seq<ObservationIngest>)
    ensures
        forall|i: int|
            0 <= i < s.len() && is_named_root(#[trigger] s[i]) && (forall|j: int|
                0 <= j < i ==> !is_named_root(#[trigger] s[j])) ==> ingest::borrowed_name(s)
                == s[i].name,
        (forall|i: int| 0 <= i < s.len() ==> !is_named_root(#[trigger] s[i])) && s.len() > 0
            ==> ingest::borrowed_name(s) == s[0].name,
        s.len() == 0 ==> ingest::borrowed_name(s) is None,
{
    lemma_root_name(s);
    assert forall|i: int|
        0 <= i < s.len() && is_named_root(#[trigger] s[i]) && (forall|j: int|
            0 <= j < i ==> !is_named_root(#[trigger] s[j])) implies ingest::borrowed_name(s)
        == s[i].name by {
        let k = choose|k: int|
            0 <= k < s.len() && is_named_root(#[trigger] s[k]) && ingest::root_name(s) == s[k].name
                && (forall|j: int| 0 <= j < k ==> !is_named_root(#[trigger] s[j]));
        if k < i {
            assert(!is_named_root(s[k]));
        }
        if i < k {
            assert(!is_named_root(s[i]));
        }
    }
}

proof fn lemma_root_name(s: Seq<ObservationIngest>)
    ensures
        ingest::root_name(s) is None ==> forall|i: int|
            0 <= i < s.len() ==> !is_named_root(#[trigger] s[i]),
        ingest::root_name(s) is Some ==> exists|i: int|
            0 <= i < s.len() && is_named_root(#[trigger] s[i]) && ingest::root_name(s)
                == s[i].name && (forall|j: int| 0 <= j < i ==> !is_named_root(#[trigger] s[j])),
    decreases s.len(),
{
    if s.len() > 0 {
        let head = s.drop_last();
        lemma_root_name(head);
        assert(s[s.len() - 1] == s.last());
        assert forall|j: int| 0 <= j < head.len() implies #[trigger] s[j] == head[j] by {}
        if ingest::root_name(head) is Some {
            let i = choose|i: int|
                0 <= i < head.len() && is_named_root(#[trigger] head[i]) && ingest::root_name(head)
                    == head[i].name && (forall|j: int|
                    0 <= j < i ==> !is_named_root(#[trigger] head[j]));
            assert(is_named_root(s[i]));
            assert forall|j: int| 0 <= j < i implies !is_named_root(#[trigger] s[j]) by {
                assert(!is_named_root(head[j]));
            }
        } else {
            assert forall|j: int| 0 <= j < head.len() implies !is_named_root(#[trigger] s[j]) by {
                assert(!is_named_root(head[j]));
            }
        }
    }
}

/// Whether `l` is the time from `start` to `end` in whole milliseconds.
pub open spec fn lasts(start: Timestamp, end: Timestamp, l: Latency) -> bool {
    let gap = (end@.0 - start@.0) * 1_000_000_000 + (end@.1 - start@.1);
    l matches Latency::Millis(ms) && ms >= 0 && ms * 1_000_000 <= gap < (ms + 1) * 1_000_000
}

/// Whether an instant is one of the calendar, and none within a leap second.
pub open spec fn plain(t: Timestamp) -> bool {
    time::valid_instant(t@.0, t@.1) && t@.1 < time::NANOS_PER_SECOND
}

/// How long it is from a start to an end that does not come first is told in whole
/// milliseconds, and nothing is told where the end comes a millisecond or more
/// before the start.
pub proof fn lemma_span(start: Timestamp, end: Timestamp)
    requires
        plain(start),
        plain(end),
    ensures
        !time::earlier(end@, start@) ==> (ingest::span(start, end) matches Some(l) && lasts(
            start,
            end,
            l,
        )),
        (start@.0 - end@.0) * 1_000_000_000 + (start@.1 - end@.1) >= 1_000_000 ==> ingest::span(
            start,
            end,
        ) is None,
{
    time::lemma_millis_both_ways(start@, end@);
    time::lemma_millis_both_ways(end@, start@);
    let gap = (end@.0 - start@.0) * 1_000_000_000 + (end@.1 - start@.1);
    assert(-1_000_000_000_000_000_000_000_000 < gap < 1_000_000_000_000_000_000_000_000);
    let ms = time::millis_between(start@, end@);
    if !time::earlier(end@, start@) {
        assert(0 <= ms <= i64::MAX);
    }
}

/// What filling in makes of an observation: it changes nothing but a latency that is
/// missing, which is the time from its start to its end, where it has both.
pub proof fn lemma_observation_filled_in(o: ObservationIngest)
    ensures
        ({
            let r = ingest::enriched_observation(o);
            &&& r == (ObservationIngest { latency: r.latency, ..o })
            &&& o.latency is Some ==> r.latency == o.latency
            &&& o.latency is None && (o.start_time is None || o.end_time is None) ==> r.latency
                is None
            &&& (o.latency is None && o.start_time is Some && o.end_time is Some && plain(
                o.start_time->0,
            ) && plain(o.end_time->0)) ==> {
                &&& !time::earlier(o.end_time->0@, o.start_time->0@) ==> (r.latency matches Some(l)
                    && lasts(o.start_time->0, o.end_time->0, l))
                &&& r.latency matches Some(l) ==> !(l is Reported)
            }
        }),
{
    if o.latency is None && o.start_time is Some && o.end_time is Some && plain(o.start_time->0)
        && plain(o.end_time->0) {
        lemma_span(o.start_time->0, o.end_time->0);
    }
}

/// What filling in makes of the trace of a batch: it changes nothing but a name and
/// a latency that are missing. The name is borrowed from the observations; the
/// latency is the time from a start of one of them, before which none starts, to an
/// end of one of them, after which none ends.
pub proof fn lemma_trace_filled_in(b: BatchIngestRequest, first: int, last: int)
    requires
        b.trace is Some,
        0 <= first < b.observations@.len(),
        0 <= last < b.observations@.len(),
        b.observations@[first].start_time is Some,
        b.observations@[last].end_time is Some,
        plain(b.observations@[first].start_time->0),
        plain(b.observations@[last].end_time->0),
        forall|i: int|
            0 <= i < b.observations@.len() && (#[trigger] b.observations@[i]).start_time is Some
                ==> !time::earlier(
                b.observations@[i].start_time->0@,
                b.observations@[first].start_time->0@,
            ),
        forall|i: int|
            0 <= i < b.observations@.len() && (#[trigger] b.observations@[i]).end_time is Some
                ==> !time::earlier(
                b.observations@[last].end_time->0@,
                b.observations@[i].end_time->0@,
            ),
    ensures
        ({
            let t = b.trace->0;
            let r = ingest::enriched_trace(b)->0;
            let start = b.observations@[first].start_time->0;
            let end = b.observations@[last].end_time->0;
            &&& ingest::enriched_trace(b) is Some
            &&& r == (TraceIngest { name: r.name, latency: r.latency, ..t })
            &&& t.name is Some ==> r.name == t.name
            &&& t.latency is Some ==> r.latency == t.latency
            &&& t.latency is None && !time::earlier(end@, start@) ==> (r.latency matches Some(l)
                && lasts(start, end, l))
        }),
{
    let s = b.observations@;
    lemma_earliest_start(s);
    lemma_latest_end(s);
    let start = s[first].start_time->0;
    let end = s[last].end_time->0;
    let a = ingest::earliest_start(s)->0;
    let z = ingest::latest_end(s)->0;
    let i = choose|i: int| 0 <= i < s.len() && (#[trigger] s[i]).start_time == Some(a);
    let j = choose|j: int| 0 <= j < s.len() && (#[trigger] s[j]).end_time == Some(z);
    assert(!time::earlier(s[i].start_time->0@, start@));
    assert(!time::earlier(start@, a@));
    assert(a@ == start@);
    assert(!time::earlier(end@, s[j].end_time->0@));
    assert(!time::earlier(z@, end@));
    assert(z@ == end@);
    lemma_span(a, z);
}

/// Where no observation has a start, or none has an end, a missing latency of the
/// trace stays missing; and a missing name is borrowed.
pub proof fn lemma_trace_without_times(b: BatchIngestRequest)
    requires
        b.trace is Some,
    ensures
        ({
            let t = b.trace->0;
            let r = ingest::enriched_trace(b)->0;
            let s = b.observations@;
            &&& ingest::enriched_trace(b) is Some
            &&& (t.latency is None && ((forall|i: int|
                0 <= i < s.len() ==> (#[trigger] s[i]).start_time is None) || (forall|i: int|
                0 <= i < s.len() ==> (#[trigger] s[i]).end_time is None))) ==> r.latency is None
            &&& forall|i: int|
                t.name is None && 0 <= i < s.len() && is_named_root(#[trigger] s[i]) && (forall|
                    j: int,
                | 0 <= j < i ==> !is_named_root(#[trigger] s[j])) ==> r.name == s[i].name
            &&& (t.name is None && (forall|i: int|
                0 <= i < s.len() ==> !is_named_root(#[trigger] s[i])) && s.len() > 0) ==> r.name
                == s[0].name
            &&& t.name is None && s.len() == 0 ==> r.name is None
        }),
{
    lemma_earliest_start(b.observations@);
    lemma_latest_end(b.observations@);
    lemma_borrowed_name(b.observations@);
}

/// Whether a stored text is the one that was sent, or is missing as that was.
pub open spec fn text_kept(stored: Option<Seq<char>>, sent: Option<String>) -> bool {
    &&& stored is Some <==> sent is Some
    &&& sent is Some ==> stored->0 == sent->0@
}

/// Whether a stored JSON value is the one that was sent, or is missing as that was.
pub open spec fn json_kept(stored: Option<json::JsonModel>, sent: Option<Json>) -> bool {
    &&& stored is Some <==> sent is Some
    &&& sent is Some ==> stored->0 == sent->0@
}

/// Whether a row holds what was sent of a trace, and in place of what was not: the
/// instant of writing, the project of the sender, the default environment, and that
/// it is neither public nor bookmarked.
pub open spec fn holds_trace(
    row: rows::TraceModel,
    t: TraceIngest,
    project: Seq<char>,
    now: Timestamp,
) -> bool {
    &&& row.id == t.id
    &&& row.timestamp == (if t.timestamp is Some {
        t.timestamp->0
    } else {
        now
    })
    &&& text_kept(row.name, t.name)
    &&& json_kept(row.input, t.input)
    &&& json_kept(row.output, t.output)
    &&& text_kept(row.session_id, t.session_id)
    &&& text_kept(row.release, t.release)
    &&& text_kept(row.version, t.version)
    &&& text_kept(row.user_id, t.user_id)
    &&& json_kept(row.metadata, t.metadata)
    &&& row.tags.len() == t.tags@.len()
    &&& forall|i: int| 0 <= i < t.tags@.len() ==> row.tags[i] == (#[trigger] t.tags@[i])@
    &&& row.public <==> t.public == Some(true)
    &&& row.environment == (if t.environment is Some {
        t.environment->0@
    } else {
        "default"@
    })
    &&& row.latency == t.latency
    &&& row.total_cost == t.total_cost
    &&& text_kept(row.external_id, t.external_id)
    &&& row.bookmarked <==> t.bookmarked == Some(true)
    &&& row.project_id == (if t.project_id is Some {
        t.project_id->0@
    } else {
        project
    })
    &&& row.updated_at == now
}

/// Whether a row holds what was sent of an observation, and in place of what was
/// not: that it is a generation, the project of the sender and the default
/// environment.
pub open spec fn holds_observation(
    row: rows::ObservationModel,
    o: ObservationIngest,
    project: Seq<char>,
    now: Timestamp,
) -> bool {
    &&& row.id == o.id
    &&& row.trace_id == o.trace_id
    &&& row.obs_type == (if o.obs_type is Some {
        o.obs_type->0@
    } else {
        "GENERATION"@
    })
    &&& text_kept(row.name, o.name)
    &&& row.start_time == o.start_time
    &&& row.end_time == o.end_time
    &&& row.completion_start_time == o.completion_start_time
    &&& text_kept(row.model, o.model)
    &&& json_kept(row.model_parameters, o.model_parameters)
    &&& json_kept(row.input, o.input)
    &&& json_kept(row.output, o.output)
    &&& json_kept(row.usage, o.usage)
    &&& text_kept(row.level, o.level)
    &&& text_kept(row.status_message, o.status_message)
    &&& row.parent_observation_id == o.parent_observation_id
    &&& text_kept(row.prompt_id, o.prompt_id)
    &&& text_kept(row.prompt_name, o.prompt_name)
    &&& text_kept(row.prompt_version, o.prompt_version)
    &&& text_kept(row.model_id, o.model_id)
    &&& row.input_price == o.input_price
    &&& row.output_price == o.output_price
    &&& row.total_price == o.total_price
    &&& row.calculated_input_cost == o.calculated_input_cost
    &&& row.calculated_output_cost == o.calculated_output_cost
    &&& row.calculated_total_cost == o.calculated_total_cost
    &&& row.latency == o.latency
    &&& row.time_to_first_token == o.time_to_first_token
    &&& row.completion_tokens == o.completion_tokens
    &&& row.prompt_tokens == o.prompt_tokens
    &&& row.total_tokens == o.total_tokens
    &&& text_kept(row.unit, o.unit)
    &&& json_kept(row.metadata, o.metadata)
    &&& row.environment == (if o.environment is Some {
        o.environment->0@
    } else {
        "default"@
    })
    &&& row.project_id == (if o.project_id is Some {
        o.project_id->0@
    } else {
        project
    })
    &&& row.updated_at == now
}

/// The rows of two lists of batches are those of the one and of the other.
pub proof fn lemma_rows_joined(a: Seq<IngestEnvelope>, b: Seq<IngestEnvelope>, now: Timestamp)
    ensures
        ingest::resolved_traces(a + b, now) == ingest::resolved_traces(a, now)
            + ingest::resolved_traces(b, now),
        ingest::resolved_observations(a + b, now) == ingest::resolved_observations(a, now)
            + ingest::resolved_observations(b, now),
    decreases b.len(),
{
    if b.len() == 0 {
        assert(a + b =~= a);
        assert(ingest::resolved_traces(a, now) + ingest::resolved_traces(b, now)
            =~= ingest::resolved_traces(a, now));
        assert(ingest::resolved_observations(a, now) + ingest::resolved_observations(b, now)
            =~= ingest::resolved_observations(a, now));
    } else {
        lemma_rows_joined(a, b.drop_last(), now);
        assert((a + b).drop_last() =~= a + b.drop_last());
        assert((a + b).last() == b.last());
        assert(ingest::resolved_traces(a + b, now) =~= ingest::resolved_traces(a, now)
            + ingest::resolved_traces(b, now));
        assert(ingest::resolved_observations(a + b, now) =~= ingest::resolved_observations(a, now)
            + ingest::resolved_observations(b, now));
    }
}

/// The rows of one batch: one for its trace, if it has one, and one for each of its
/// observations, in their order, each holding what was sent once it was filled in.
pub proof fn lemma_rows_of_one_batch(e: IngestEnvelope, now: Timestamp)
    ensures
        ({
            let ts = ingest::resolved_traces(seq![e], now);
            let os = ingest::resolved_observations(seq![e], now);
            let sent = e.request.observations@;
            &&& ts.len() == (if e.request.trace is Some {
                1int
            } else {
                0
            })
            &&& e.request.trace is Some ==> {
                &&& ingest::enriched_trace(e.request) is Some
                &&& holds_trace(
                    ts[0],
                    ingest::enriched_trace(e.request)->0,
                    e.project_id@,
                    now,
                )
                &&& ts[0].created_at == now
            }
            &&& os.len() == sent.len()
            &&& forall|i: int|
                0 <= i < sent.len() ==> {
                    &&& holds_observation(
                        #[trigger] os[i],
                        ingest::enriched_observation(sent[i]),
                        e.project_id@,
                        now,
                    )
                    &&& os[i].created_at == now
                }
        }),
{
    let one = seq![e];
    assert(one.drop_last() =~= Seq::<IngestEnvelope>::empty());
    assert(one.last() == e);
    assert(ingest::resolved_traces(Seq::empty(), now).len() == 0);
    assert(ingest::resolved_observations(Seq::empty(), now).len() == 0);
    assert(ingest::resolved_observations(one, now) =~= ingest::batch_observations(e, now));
}

/// Whether `row` is the row of a list that its id has last.
pub open spec fn last_with_id(s: Seq<rows::TraceModel>, i: int) -> bool {
    &&& 0 <= i < s.len()
    &&& forall|j: int| i < j < s.len() ==> (#[trigger] s[j]).id != s[i].id
}

proof fn lemma_latest_is_last(s: Seq<rows::TraceModel>, i: int)
    requires
        last_with_id(s, i),
    ensures
        ingest::latest_trace(s, s[i].id) == Some(s[i]),
    decreases s.len(),
{
    if i < s.len() - 1 {
        let head = s.drop_last();
        assert(s[s.len() - 1].id != s[i].id);
        assert(head[i] == s[i]);
        assert forall|j: int| i < j < head.len() implies (#[trigger] head[j]).id != head[i].id by {
            assert(head[j] == s[j]);
        }
        lemma_latest_is_last(head, i);
    }
}

/// Of the rows with one id the last is stored: the trace that is under its id after
/// a write has what that row has, but for the instant of the first write, which is
/// this one unless there was a trace before.
pub proof fn lemma_last_trace_is_stored(
    traces: Map<u128, rows::TraceModel>,
    payloads: Seq<IngestEnvelope>,
    now: Timestamp,
    i: int,
)
    requires
        last_with_id(ingest::resolved_traces(payloads, now), i),
    ensures
        ({
            let row = ingest::resolved_traces(payloads, now)[i];
            let after = ingest::traces_after(traces, payloads, now);
            &&& after.contains_key(row.id)
            &&& after[row.id] == (rows::TraceModel {
                created_at: if traces.contains_key(row.id) {
                    traces[row.id].created_at
                } else {
                    now
                },
                ..row
            })
        }),
{
    let sent = ingest::resolved_observations(payloads, now);
    let ts = ingest::resolved_traces(payloads, now);
    let t1 = ingest::with_places(traces, ingest::places(sent), now);
    let id = ts[i].id;
    lemma_latest_is_last(ts, i);
    ingest::lemma_with_traces(t1, ts, id);
    ingest::lemma_with_places(traces, ingest::places(sent), now, id);
    lemma_place_rows(traces, ingest::places(sent), now, id);
    lemma_all_created_now(payloads, now);
    if !traces.contains_key(id) {
        lemma_first_write(t1, ts, id, now);
    }
}

/// Every row of a write is created at its instant.
proof fn lemma_all_created_now(s: Seq<IngestEnvelope>, now: Timestamp)
    ensures
        forall|i: int|
            0 <= i < ingest::resolved_traces(s, now).len() ==> (
            #[trigger] ingest::resolved_traces(s, now)[i]).created_at == now,
        forall|i: int|
            0 <= i < ingest::resolved_observations(s, now).len() ==> (
            #[trigger] ingest::resolved_observations(s, now)[i]).created_at == now,
    decreases s.len(),
{
    if s.len() > 0 {
        lemma_all_created_now(s.drop_last(), now);
        let t = ingest::resolved_traces(s.drop_last(), now);
        let o = ingest::resolved_observations(s.drop_last(), now);
        assert forall|i: int| 0 <= i < ingest::resolved_traces(s, now).len() implies (
        #[trigger] ingest::resolved_traces(s, now)[i]).created_at == now by {
            if i < t.len() {
                assert(ingest::resolved_traces(s, now)[i] == t[i]);
            }
        }
        assert forall|i: int| 0 <= i < ingest::resolved_observations(s, now).len() implies (
        #[trigger] ingest::resolved_observations(s, now)[i]).created_at == now by {
            if i < o.len() {
                assert(ingest::resolved_observations(s, now)[i] == o[i]);
            }
        }
    }
}

proof fn lemma_first_write(
    m: Map<u128, rows::TraceModel>,
    s: Seq<rows::TraceModel>,
    k: u128,
    now: Timestamp,
)
    requires
        !m.contains_key(k) || m[k].created_at == now,
        forall|i: int| 0 <= i < s.len() ==> (#[trigger] s[i]).created_at == now,
    ensures
        ingest::with_traces(m, s).contains_key(k) ==> ingest::with_traces(m, s)[k].created_at
            == now,
    decreases s.len(),
{
    if s.len() > 0 {
        assert(s[s.len() - 1] == s.last());
        assert forall|i: int| 0 <= i < s.drop_last().len() implies (
        #[trigger] s.drop_last()[i]).created_at == now by {
            assert(s.drop_last()[i] == s[i]);
        }
        lemma_first_write(m, s.drop_last(), k, now);
    }
}

/// The row that a trace gets of which only observations were sent: it has the
/// project and the environment of the placeholder, this instant, and nothing else.
proof fn lemma_place_rows(
    m: Map<u128, rows::TraceModel>,
    s: Seq<ingest::PlaceholderModel>,
    now: Timestamp,
    k: u128,
)
    ensures
        !m.contains_key(k) && ingest::with_places(m, s, now).contains_key(k) ==> exists|i: int|
            0 <= i < s.len() && (#[trigger] s[i]).trace_id == k && is_bare(
                ingest::with_places(m, s, now)[k],
                s[i],
                now,
            ) && (forall|j: int| 0 <= j < i ==> (#[trigger] s[j]).trace_id != k),
    decreases s.len(),
{
    if s.len() > 0 {
        let head = s.drop_last();
        lemma_place_rows(m, head, now, k);
        let before = ingest::with_places(m, head, now);
        assert(s[s.len() - 1] == s.last());
        if !m.contains_key(k) && before.contains_key(k) {
            let i = choose|i: int|
                0 <= i < head.len() && (#[trigger] head[i]).trace_id == k && is_bare(
                    before[k],
                    head[i],
                    now,
                ) && (forall|j: int| 0 <= j < i ==> (#[trigger] head[j]).trace_id != k);
            assert(s[i] == head[i]);
            assert forall|j: int| 0 <= j < i implies (#[trigger] s[j]).trace_id != k by {
                assert(head[j] == s[j]);
            }
        } else if !m.contains_key(k) && s.last().trace_id == k {
            assert forall|j: int| 0 <= j < s.len() - 1 implies (#[trigger] s[j]).trace_id != k by {
                if s[j].trace_id == k {
                    assert(head[j].trace_id == k);
                    ingest::lemma_with_places(m, head, now, k);
                    assert(ingest::has_place(head, k));
                }
            }
            assert(is_bare(ingest::with_places(m, s, now)[k], s[s.len() - 1], now));
        }
    }
}

/// Whether a row is that of a trace of which nothing is known but its project and
/// its environment.
pub open spec fn is_bare(row: rows::TraceModel, p: ingest::PlaceholderModel, now: Timestamp) -> bool {
    &&& row.id == p.trace_id
    &&& row.project_id == p.project_id
    &&& row.environment == p.environment
    &&& row.timestamp == now
    &&& row.created_at == now
    &&& row.updated_at == now
    &&& row.name is None
    &&& row.input is None
    &&& row.output is None
    &&& row.session_id is None
    &&& row.release is None
    &&& row.version is None
    &&& row.user_id is None
    &&& row.metadata is None
    &&& row.tags.len() == 0
    &&& !row.public
    &&& row.latency is None
    &&& row.total_cost is None
    &&& row.external_id is None
    &&& !row.bookmarked
}

/// Whether a placeholder takes its names from the first of the observations that
/// speak of its trace.
pub open spec fn is_place_of(s: Seq<rows::ObservationModel>, p: ingest::PlaceholderModel) -> bool {
    exists|k: int| #[trigger] is_first_of_trace(s, k) && names_place(p, s[k])
}

/// Whether one of the placeholders is for a trace.
pub open spec fn has_place_for(ps: Seq<ingest::PlaceholderModel>, id: u128) -> bool {
    exists|i: int| 0 <= i < ps.len() && (#[trigger] ps[i]).trace_id == id
}

proof fn lemma_place_stays(s: Seq<rows::ObservationModel>, p: ingest::PlaceholderModel)
    requires
        s.len() > 0,
        is_place_of(s.drop_last(), p),
    ensures
        is_place_of(s, p),
{
    let head = s.drop_last();
    let k = choose|k: int| #[trigger] is_first_of_trace(head, k) && names_place(p, head[k]);
    assert(s[k] == head[k]);
    assert forall|j: int| 0 <= j < k implies (#[trigger] s[j]).trace_id != s[k].trace_id by {
        assert(head[j] == s[j]);
    }
    assert(is_first_of_trace(s, k));
}

/// The placeholders for observations: each is for the trace of one of them, with the
/// project and the environment of the first that speaks of that trace; no trace has
/// two, and the trace of every observation has one.
pub proof fn lemma_places(s: Seq<rows::ObservationModel>)
    ensures
        forall|i: int, j: int|
            0 <= i < j < ingest::places(s).len() ==> (#[trigger] ingest::places(s)[i]).trace_id != (
            #[trigger] ingest::places(s)[j]).trace_id,
        forall|i: int|
            0 <= i < ingest::places(s).len() ==> is_place_of(s, #[trigger] ingest::places(s)[i]),
        forall|k: int|
            0 <= k < s.len() ==> has_place_for(ingest::places(s), (#[trigger] s[k]).trace_id),
    decreases s.len(),
{
    if s.len() > 0 {
        let head = s.drop_last();
        lemma_places(head);
        let p = ingest::places(head);
        let r = ingest::places(s);
        let o = s.last();
        assert(s[s.len() - 1] == o);
        assert(ingest::has_place(p, o.trace_id) == has_place_for(p, o.trace_id));
        if !has_place_for(p, o.trace_id) {
            assert forall|j: int| 0 <= j < s.len() - 1 implies (#[trigger] s[j]).trace_id
                != o.trace_id by {
                assert(head[j] == s[j]);
                assert(has_place_for(p, head[j].trace_id));
            }
            assert(is_first_of_trace(s, s.len() - 1));
            assert(names_place(r.last(), s[s.len() - 1]));
        }
        assert forall|i: int| 0 <= i < r.len() implies is_place_of(s, #[trigger] r[i]) by {
            if i < p.len() {
                assert(r[i] == p[i]);
                lemma_place_stays(s, p[i]);
            }
        }
        assert forall|k: int| 0 <= k < s.len() implies has_place_for(
            r,
            (#[trigger] s[k]).trace_id,
        ) by {
            let id = s[k].trace_id;
            if k < head.len() {
                assert(head[k] == s[k]);
            }
            if has_place_for(p, id) {
                let i = choose|i: int| 0 <= i < p.len() && (#[trigger] p[i]).trace_id == id;
                assert(r[i] == p[i]);
            } else {
                assert(r[p.len() as int].trace_id == id);
            }
        }
        assert forall|i: int, j: int| 0 <= i < j < r.len() implies (#[trigger] r[i]).trace_id != (
        #[trigger] r[j]).trace_id by {
            if j < p.len() {
                assert(r[i] == p[i] && r[j] == p[j]);
            } else {
                assert(r[i] == p[i]);
                assert(r[j].trace_id == o.trace_id);
            }
        }
    }
}

/// Whether the observation at a place is the first that speaks of its trace.
pub open spec fn is_first_of_trace(s: Seq<rows::ObservationModel>, k: int) -> bool {
    &&& 0 <= k < s.len()
    &&& forall|j: int| 0 <= j < k ==> (#[trigger] s[j]).trace_id != s[k].trace_id
}

/// Whether a placeholder takes its names from an observation.
pub open spec fn names_place(p: ingest::PlaceholderModel, o: rows::ObservationModel) -> bool {
    p.trace_id == o.trace_id && p.project_id == o.project_id && p.environment == o.environment
}

/// A trace that was not there, and that no batch sends, but of which observations
/// are sent, gets a bare row, with the project and the environment of the first of
/// these observations.
pub proof fn lemma_trace_of_observations_is_stored(
    traces: Map<u128, rows::TraceModel>,
    payloads: Seq<IngestEnvelope>,
    now: Timestamp,
    k: int,
)
    requires
        is_first_of_trace(ingest::resolved_observations(payloads, now), k),
        !traces.contains_key(ingest::resolved_observations(payloads, now)[k].trace_id),
        forall|i: int|
            0 <= i < ingest::resolved_traces(payloads, now).len() ==> (
            #[trigger] ingest::resolved_traces(payloads, now)[i]).id
                != ingest::resolved_observations(payloads, now)[k].trace_id,
    ensures
        ({
            let o = ingest::resolved_observations(payloads, now)[k];
            let after = ingest::traces_after(traces, payloads, now);
            &&& after.contains_key(o.trace_id)
            &&& is_bare(
                after[o.trace_id],
                ingest::PlaceholderModel {
                    trace_id: o.trace_id,
                    project_id: o.project_id,
                    environment: o.environment,
                },
                now,
            )
        }),
{
    let sent = ingest::resolved_observations(payloads, now);
    let ts = ingest::resolved_traces(payloads, now);
    let ps = ingest::places(sent);
    let id = sent[k].trace_id;
    let t1 = ingest::with_places(traces, ps, now);
    lemma_places(sent);
    assert(has_place_for(ps, sent[k].trace_id));
    assert(ingest::has_place(ps, id));
    ingest::lemma_with_places(traces, ps, now, id);
    lemma_place_rows(traces, ps, now, id);
    let i = choose|i: int|
        0 <= i < ps.len() && (#[trigger] ps[i]).trace_id == id && is_bare(t1[id], ps[i], now) && (
        forall|j: int| 0 <= j < i ==> (#[trigger] ps[j]).trace_id != id);
    assert(is_place_of(sent, ps[i]));
    let m = choose|m: int| #[trigger] is_first_of_trace(sent, m) && names_place(ps[i], sent[m]);
    assert(m == k) by {
        if m < k {
            assert(sent[m].trace_id != sent[k].trace_id);
        }
        if k < m {
            assert(sent[k].trace_id != sent[m].trace_id);
        }
    }
    lemma_no_latest(ts, id);
    ingest::lemma_with_traces(t1, ts, id);
}

proof fn lemma_no_latest(s: Seq<rows::TraceModel>, id: u128)
    requires
        forall|i: int| 0 <= i < s.len() ==> (#[trigger] s[i]).id != id,
    ensures
        ingest::latest_trace(s, id) is None,
    decreases s.len(),
{
    if s.len() > 0 {
        assert(s[s.len() - 1].id != id);
        assert forall|i: int| 0 <= i < s.drop_last().len() implies (#[trigger] s.drop_last()[i]).id
            != id by {
            assert(s.drop_last()[i] == s[i]);
        }
        lemma_no_latest(s.drop_last(), id);
    }
}

/// Whether the observation at a place is the last of a list with its id.
pub open spec fn last_observation_with_id(s: Seq<rows::ObservationModel>, i: int) -> bool {
    &&& 0 <= i < s.len()
    &&& forall|j: int| i < j < s.len() ==> (#[trigger] s[j]).id != s[i].id
}

proof fn lemma_latest_observation_is_last(s: Seq<rows::ObservationModel>, i: int)
    requires
        last_observation_with_id(s, i),
    ensures
        ingest::latest_observation(s, s[i].id) == Some(s[i]),
    decreases s.len(),
{
    if i < s.len() - 1 {
        let head = s.drop_last();
        assert(s[s.len() - 1].id != s[i].id);
        assert(head[i] == s[i]);
        assert forall|j: int| i < j < head.len() implies (#[trigger] head[j]).id != head[i].id by {
            assert(head[j] == s[j]);
        }
        lemma_latest_observation_is_last(head, i);
    }
}

proof fn lemma_first_observation_write(
    m: Map<u128, rows::ObservationModel>,
    s: Seq<rows::ObservationModel>,
    k: u128,
    now: Timestamp,
)
    requires
        !m.contains_key(k),
        forall|i: int| 0 <= i < s.len() ==> (#[trigger] s[i]).created_at == now,
    ensures
        ingest::with_observations(m, s).contains_key(k) ==> ingest::with_observations(
            m,
            s,
        )[k].created_at == now,
    decreases s.len(),
{
    if s.len() > 0 {
        assert(s[s.len() - 1] == s.last());
        assert forall|i: int| 0 <= i < s.drop_last().len() implies (
        #[trigger] s.drop_last()[i]).created_at == now by {
            assert(s.drop_last()[i] == s[i]);
        }
        lemma_first_observation_write(m, s.drop_last(), k, now);
    }
}

/// Of the rows with one id the last is stored: the observation that is under its id
/// after a write has what that row has, but for the instant of the first write,
/// which is this one unless there was an observation before.
pub proof fn lemma_last_observation_is_stored(
    observations: Map<u128, rows::ObservationModel>,
    payloads: Seq<IngestEnvelope>,
    now: Timestamp,
    i: int,
)
    requires
        last_observation_with_id(ingest::resolved_observations(payloads, now), i),
    ensures
        ({
            let row = ingest::resolved_observations(payloads, now)[i];
            let after = ingest::observations_after(observations, payloads, now);
            &&& after.contains_key(row.id)
            &&& after[row.id] == (rows::ObservationModel {
                created_at: if observations.contains_key(row.id) {
                    observations[row.id].created_at
                } else {
                    now
                },
                ..row
            })
        }),
{
    let sent = ingest::resolved_observations(payloads, now);
    let id = sent[i].id;
    lemma_latest_observation_is_last(sent, i);
    ingest::lemma_with_observations(observations, sent, id);
    lemma_all_created_now(payloads, now);
    if !observations.contains_key(id) {
        lemma_first_observation_write(observations, sent, id, now);
    }
}

/// A write adds no id that nobody sent.
pub proof fn lemma_write_adds_only_what_was_sent(
    traces: Map<u128, rows::TraceModel>,
    observations: Map<u128, rows::ObservationModel>,
    payloads: Seq<IngestEnvelope>,
    now: Timestamp,
    k: u128,
)
    ensures
        ingest::observations_after(observations, payloads, now).contains_key(k)
            && !observations.contains_key(k) ==> exists|i: int|
            0 <= i < ingest::resolved_observations(payloads, now).len() && (
            #[trigger] ingest::resolved_observations(payloads, now)[i]).id == k,
        ingest::traces_after(traces, payloads, now).contains_key(k) && !traces.contains_key(k)
            ==> (exists|i: int|
            0 <= i < ingest::resolved_traces(payloads, now).len() && (
            #[trigger] ingest::resolved_traces(payloads, now)[i]).id == k) || (exists|i: int|
            0 <= i < ingest::resolved_observations(payloads, now).len() && (
            #[trigger] ingest::resolved_observations(payloads, now)[i]).trace_id == k),
{
    let sent = ingest::resolved_observations(payloads, now);
    let ts = ingest::resolved_traces(payloads, now);
    let ps = ingest::places(sent);
    let t1 = ingest::with_places(traces, ps, now);
    ingest::lemma_with_observations(observations, sent, k);
    if !(exists|i: int| 0 <= i < sent.len() && (#[trigger] sent[i]).id == k) {
        lemma_no_latest_observation(sent, k);
    }
    ingest::lemma_with_traces(t1, ts, k);
    ingest::lemma_with_places(traces, ps, now, k);
    if !(exists|i: int| 0 <= i < ts.len() && (#[trigger] ts[i]).id == k) {
        lemma_no_latest(ts, k);
    }
    if ingest::has_place(ps, k) {
        lemma_places(sent);
        let i = choose|i: int| 0 <= i < ps.len() && (#[trigger] ps[i]).trace_id == k;
        assert(is_place_of(sent, ps[i]));
    let m = choose|m: int| #[trigger] is_first_of_trace(sent, m) && names_place(ps[i], sent[m]);
        assert(sent[m].trace_id == k);
    }
}

proof fn lemma_no_latest_observation(s: Seq<rows::ObservationModel>, id: u128)
    requires
        forall|i: int| 0 <= i < s.len() ==> (#[trigger] s[i]).id != id,
    ensures
        ingest::latest_observation(s, id) is None,
    decreases s.len(),
{
    if s.len() > 0 {
        assert(s[s.len() - 1].id != id);
        assert forall|i: int| 0 <= i < s.drop_last().len() implies (#[trigger] s.drop_last()[i]).id
            != id by {
            assert(s.drop_last()[i] == s[i]);
        }
        lemma_no_latest_observation(s.drop_last(), id);
    }
}

/// Whether the row at a place is the first of a list with its id.
pub open spec fn first_with_id(s: Seq<rows::TraceModel>, i: int) -> bool {
    &&& 0 <= i < s.len()
    &&& forall|j: int| 0 <= j < i ==> (#[trigger] s[j]).id != s[i].id
}

/// What a database is sent of rows with one id is the first of them: a row is sent
/// if and only if no earlier one has its id.
pub proof fn lemma_first_traces_are_sent(s: Seq<rows::TraceModel>)
    ensures
        forall|i: int| first_with_id(s, i) ==> ingest::first_traces(s).contains(#[trigger] s[i]),
        forall|n: int|
            0 <= n < ingest::first_traces(s).len() ==> exists|i: int|
                first_with_id(s, i) && #[trigger] s[i] == #[trigger] ingest::first_traces(s)[n],
    decreases s.len(),
{
    if s.len() > 0 {
        let head = s.drop_last();
        lemma_first_traces_are_sent(head);
        ingest::lemma_first_traces(head);
        let f = ingest::first_traces(head);
        let r = ingest::first_traces(s);
        let x = s.last();
        assert(s[s.len() - 1] == x);
        assert forall|i: int| 0 <= i < head.len() implies (#[trigger] first_with_id(s, i)
            == first_with_id(head, i)) by {
            assert(s[i] == head[i]);
            if first_with_id(s, i) {
                assert forall|j: int| 0 <= j < i implies (#[trigger] head[j]).id != head[i].id by {
                    assert(s[j] == head[j]);
                }
            }
            if first_with_id(head, i) {
                assert forall|j: int| 0 <= j < i implies (#[trigger] s[j]).id != s[i].id by {
                    assert(s[j] == head[j]);
                }
            }
        }
        assert(first_with_id(s, s.len() - 1) == !ingest::trace_listed(head, x.id)) by {
            if ingest::trace_listed(head, x.id) {
                let j = choose|j: int| 0 <= j < head.len() && (#[trigger] head[j]).id == x.id;
                assert(s[j].id == x.id);
            } else {
                assert forall|j: int| 0 <= j < s.len() - 1 implies (#[trigger] s[j]).id
                    != x.id by {
                    assert(head[j] == s[j]);
                }
            }
        }
        assert(ingest::trace_listed(f, x.id) == ingest::trace_listed(head, x.id));
        assert forall|i: int| first_with_id(s, i) implies r.contains(#[trigger] s[i]) by {
            if i < head.len() {
                assert(first_with_id(s, i) == first_with_id(head, i));
                assert(f.contains(head[i]));
                let n = choose|n: int| 0 <= n < f.len() && f[n] == head[i];
                assert(r[n] == s[i]);
            } else {
                assert(r[f.len() as int] == x);
            }
        }
        assert forall|n: int| 0 <= n < r.len() implies exists|i: int|
            first_with_id(s, i) && #[trigger] s[i] == #[trigger] r[n] by {
            if n < f.len() {
                assert(r[n] == f[n]);
                let i = choose|i: int| first_with_id(head, i) && #[trigger] head[i] == f[n];
                assert(first_with_id(s, i) == first_with_id(head, i));
                assert(s[i] == r[n]);
            } else {
                assert(first_with_id(s, s.len() - 1));
                assert(s[s.len() - 1] == r[n]);
            }
        }
    }
}

/// Whether the row at a place is the first of a list with its id.
pub open spec fn first_observation_with_id(s: Seq<rows::ObservationModel>, i: int) -> bool {
    &&& 0 <= i < s.len()
    &&& forall|j: int| 0 <= j < i ==> (#[trigger] s[j]).id != s[i].id
}

/// What a database is sent of rows with one id is the first of them: a row is sent
/// if and only if no earlier one has its id.
pub proof fn lemma_first_observations_are_sent(s: Seq<rows::ObservationModel>)
    ensures
        forall|i: int|
            first_observation_with_id(s, i) ==> ingest::first_observations(s).contains(
                #[trigger] s[i],
            ),
        forall|n: int|
            0 <= n < ingest::first_observations(s).len() ==> exists|i: int|
                first_observation_with_id(s, i) && #[trigger] s[i]
                    == #[trigger] ingest::first_observations(s)[n],
    decreases s.len(),
{
    if s.len() > 0 {
        let head = s.drop_last();
        lemma_first_observations_are_sent(head);
        ingest::lemma_first_observations(head);
        let f = ingest::first_observations(head);
        let r = ingest::first_observations(s);
        let x = s.last();
        assert(s[s.len() - 1] == x);
        assert forall|i: int| 0 <= i < head.len() implies (#[trigger] first_observation_with_id(
            s,
            i,
        ) == first_observation_with_id(head, i)) by {
            assert(s[i] == head[i]);
            if first_observation_with_id(s, i) {
                assert forall|j: int| 0 <= j < i implies (#[trigger] head[j]).id != head[i].id by {
                    assert(s[j] == head[j]);
                }
            }
            if first_observation_with_id(head, i) {
                assert forall|j: int| 0 <= j < i implies (#[trigger] s[j]).id != s[i].id by {
                    assert(s[j] == head[j]);
                }
            }
        }
        assert(first_observation_with_id(s, s.len() - 1) == !ingest::observation_listed(
            head,
            x.id,
        )) by {
            if ingest::observation_listed(head, x.id) {
                let j = choose|j: int| 0 <= j < head.len() && (#[trigger] head[j]).id == x.id;
                assert(s[j].id == x.id);
            } else {
                assert forall|j: int| 0 <= j < s.len() - 1 implies (#[trigger] s[j]).id
                    != x.id by {
                    assert(head[j] == s[j]);
                }
            }
        }
        assert(ingest::observation_listed(f, x.id) == ingest::observation_listed(head, x.id));
        assert forall|i: int| first_observation_with_id(s, i) implies r.contains(
            #[trigger] s[i],
        ) by {
            if i < head.len() {
                assert(first_observation_with_id(s, i) == first_observation_with_id(head, i));
                assert(f.contains(head[i]));
                let n = choose|n: int| 0 <= n < f.len() && f[n] == head[i];
                assert(r[n] == s[i]);
            } else {
                assert(r[f.len() as int] == x);
            }
        }
        assert forall|n: int| 0 <= n < r.len() implies exists|i: int|
            first_observation_with_id(s, i) && #[trigger] s[i] == #[trigger] r[n] by {
            if n < f.len() {
                assert(r[n] == f[n]);
                let i = choose|i: int|
                    first_observation_with_id(head, i) && #[trigger] head[i] == f[n];
                assert(first_observation_with_id(s, i) == first_observation_with_id(head, i));
                assert(s[i] == r[n]);
            } else {
                assert(first_observation_with_id(s, s.len() - 1));
                assert(s[s.len() - 1] == r[n]);
            }
        }
    }
}

/// How many items a batch holds: its observations, and its trace if it has one.
pub open spec fn size_of_batch() -> spec_fn(IngestEnvelope) -> int {
    |e: IngestEnvelope|
        e.request.observations@.len() + (if e.request.trace is Some {
            1int
        } else {
            0
        })
}

/// The items of batches are all counted, once each; the count wraps around.
pub proof fn lemma_items_add_up(s: Seq<IngestEnvelope>)
    requires
        forall|i: int|
            0 <= i < s.len() ==> (#[trigger] s[i]).request.observations@.len() <= usize::MAX,
    ensures
        sums::wraps_to(sums::total(s, size_of_batch()), ingest::items_in_all(s) as int),
    decreases s.len(),
{
    if s.len() > 0 {
        let head = s.drop_last();
        assert forall|i: int| 0 <= i < head.len() implies (
        #[trigger] head[i]).request.observations@.len() <= usize::MAX by {
            assert(head[i] == s[i]);
        }
        lemma_items_add_up(head);
        assert(s[s.len() - 1] == s.last());
        let n = s.last().request.observations@.len();
        assert(n <= u64::MAX);
        let a = ingest::items_in_all(head);
        let b = ingest::items_in(s.last());
        assert(sums::wraps_to(size_of_batch()(s.last()), b as int));
    }
}

}
