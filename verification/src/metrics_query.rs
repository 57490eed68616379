//! Queries of metric points as time series.

use vstd::prelude::*;

use crate::error::ApiError;
use crate::error;
use crate::json::{json_contains, Json};
use crate::json;
use crate::json_read::parse_json;
use crate::json_read;
use crate::metrics::{
    group_key_from_json, labels_and_group_key_from_json, parse_agg, parse_group_by_keys,
    parse_step_seconds,
};
use crate::metrics;
use crate::number::Double;
use crate::rows::MetricRow;
use crate::text::{comes_before, join, same};
use crate::text;
use crate::time::Timestamp;
use crate::time;

verus! {

/// A stretch of time, both ends belonging to it.
#[derive(Debug, Clone, Copy, PartialEq, Eq, Structural)]
pub struct Window {
    pub from: Timestamp,
    pub to: Timestamp,
}

/// Whether an instant lies in a stretch of time.
pub open spec fn within(w: Window, t: Timestamp) -> bool {
    !time::earlier(t@, w.from@) && !time::earlier(w.to@, t@)
}

impl Window {
    /// Whether an instant lies in this stretch of time.
    pub fn holds(&self, t: &Timestamp) -> (r: bool)
        ensures
            r == within(*self, *t),
    {
        !t.before(&self.from) && !self.to.before(t)
    }
}

/// The end of a query: the one that is asked for, or now.
pub open spec fn window_end(to: Option<Timestamp>, now: Timestamp) -> Timestamp {
    match to {
        Some(t) => t,
        None => now,
    }
}

/// The stretch of time of a query: up to now and for `back` seconds, where it
/// does not say otherwise.
pub fn window_of(
    from: Option<Timestamp>,
    to: Option<Timestamp>,
    back: i64,
    now: &Timestamp,
) -> (r: Window)
    requires
        0 <= back <= time::MAX_DURATION_SECONDS,
        from is None ==> time::shifted(window_end(to, *now)@, -back) is Some,
    ensures
        r.to == window_end(to, *now),
        match from {
            Some(f) => r.from == f,
            None => time::shifted(window_end(to, *now)@, -back) == Some(r.from@),
        },
{
    let end = match to {
        Some(t) => t,
        None => *now,
    };
    let start = match from {
        Some(f) => f,
        None => match end.plus_seconds(-back) {
            Some(f) => f,
            None => end,
        },
    };
    Window { from: start, to: end }
}

/// The stretch of time of a query of metric points, the hour before its end
/// where it names no start; an error where its start comes after its end.
pub fn query_window(from: Option<Timestamp>, to: Option<Timestamp>, now: &Timestamp) -> (r: Result<
    Window,
    ApiError,
>)
    requires
        from is None ==> time::shifted(window_end(to, *now)@, -time::SECONDS_PER_HOUR) is Some,
    ensures
        match from {
            Some(f) => if time::earlier(window_end(to, *now)@, f@) {
                r matches Err(e) && e@ == error::ErrorModel::BadRequest("from must be <= to"@)
            } else {
                r == Ok::<Window, ApiError>(Window { from: f, to: window_end(to, *now) })
            },
            None => r matches Ok(w) && w.to == window_end(to, *now) && time::shifted(
                w.to@,
                -time::SECONDS_PER_HOUR,
            ) == Some(w.from@),
        },
{
    let w = window_of(from, to, time::SECONDS_PER_HOUR, now);
    if w.to.before(&w.from) {
        return Err(ApiError::BadRequest("from must be <= to".to_owned()));
    }
    Ok(w)
}

/// The text of a labels filter, if there is one: not where it is blank.
pub fn labels_filter_text(labels: Option<&str>) -> (r: Option<&str>)
    ensures
        match labels {
            Some(s) => if text::trimmed(s@).len() > 0 {
                r == Some(s)
            } else {
                r is None
            },
            None => r is None,
        },
{
    match labels {
        Some(s) => if text::trim(s).as_str().is_empty() {
            None
        } else {
            Some(s)
        },
        None => None,
    }
}

/// What is made of the text of a labels filter once it has been read: the filter,
/// or an error that says why it cannot be read.
pub fn filter_from(read: Result<Json, String>) -> (r: Result<Option<Json>, ApiError>)
    ensures
        match read {
            Ok(j) => r matches Ok(Some(f)) && f@ == j@,
            Err(e) => r matches Err(err) && err@ == error::ErrorModel::BadRequest(
                "invalid labels json: "@ + e@,
            ),
        },
{
    match read {
        Ok(j) => Ok(Some(j)),
        Err(e) => Err(ApiError::BadRequest(join("invalid labels json: ", e.as_str()))),
    }
}

/// The labels filter that is asked for, if there is one, or an error where it is
/// not JSON.
pub fn labels_filter(labels: Option<&str>) -> (r: Result<Option<Json>, ApiError>)
    ensures
        match labels {
            Some(s) if text::trimmed(s@).len() > 0 => match json_read::json_in(s@) {
                Ok(m) => r matches Ok(Some(f)) && f@ == m,
                Err(e) => r matches Err(err) && err@ == error::ErrorModel::BadRequest(
                    "invalid labels json: "@ + e,
                ),
            },
            _ => r matches Ok(None),
        },
{
    match labels_filter_text(labels) {
        Some(s) => filter_from(parse_json(s)),
        None => Ok(None),
    }
}

/// What a query selects.
#[derive(Debug)]
pub struct Selection {
    pub project_id: String,
    pub name: String,
    pub window: Window,
    pub labels_filter: Option<Json>,
    pub group_by_keys: Vec<String>,
    pub step_seconds: i64,
}

/// A query of metric points as it is asked for, each part as the text that stands
/// for it.
#[derive(Debug, Clone, Copy)]
pub struct QueryRequest<'a> {
    pub project_id: &'a str,
    pub name: &'a str,
    pub from: Option<Timestamp>,
    pub to: Option<Timestamp>,
    pub step: Option<&'a str>,
    pub agg: Option<&'a str>,
    pub group_by: Option<&'a str>,
}

/// What a query selects, and how the values of a step become one.
#[derive(Debug)]
pub struct QueryPlan {
    pub selection: Selection,
    pub agg: &'static str,
}

/// Whether the start of a query comes after its end.
pub open spec fn runs_backwards(q: QueryRequest, now: Timestamp) -> bool {
    q.from matches Some(f) && time::earlier(window_end(q.to, now)@, f@)
}

/// The step of a query in seconds, if it is one of those that there are.
pub open spec fn step_of(q: QueryRequest) -> Option<i64> {
    metrics::step_named(metrics::param_or(text::opt_str(q.step), "1m"@))
}

/// How a query asks for the values of a step to become one.
pub open spec fn agg_of(q: QueryRequest) -> Seq<char> {
    text::lowered(metrics::param_or(text::opt_str(q.agg), "avg"@))
}

/// Why a query is refused, if it is: its first part that is not right, in the order
/// of its window, its step, its aggregation and its labels filter, for which
/// `filter_error` says whether it can be read.
pub open spec fn query_refusal(
    q: QueryRequest,
    filter_error: Option<error::ErrorModel>,
    now: Timestamp,
) -> Option<error::ErrorModel> {
    if runs_backwards(q, now) {
        Some(error::ErrorModel::BadRequest("from must be <= to"@))
    } else if step_of(q) is None {
        Some(error::ErrorModel::BadRequest("invalid step, must be one of: 1m, 5m, 1h, 1d"@))
    } else if !metrics::is_agg(agg_of(q)) {
        Some(
            error::ErrorModel::BadRequest(
                "invalid agg, must be one of: avg, max, min, sum, last, count, p50, p90, p99"@,
            ),
        )
    } else {
        filter_error
    }
}

/// Whether a plan is what a query asks for, with the labels filter `filter`.
pub open spec fn is_plan(
    p: QueryPlan,
    q: QueryRequest,
    filter: Option<json::JsonModel>,
    now: Timestamp,
) -> bool {
    let s = p.selection;
    &&& s.project_id@ == q.project_id@
    &&& s.name@ == q.name@
    &&& s.window.to == window_end(q.to, now)
    &&& match q.from {
        Some(f) => s.window.from == f,
        None => time::shifted(s.window.to@, -time::SECONDS_PER_HOUR) == Some(s.window.from@),
    }
    &&& match s.labels_filter {
        Some(f) => filter == Some(f@),
        None => filter is None,
    }
    &&& text::texts(s.group_by_keys@) == metrics::group_keys(text::opt_str(q.group_by))
    &&& step_of(q) == Some(s.step_seconds)
    &&& s.step_seconds > 0
    &&& p.agg@ == agg_of(q)
    &&& metrics::is_agg(p.agg@)
}

/// The plan of a query whose labels filter has been read, or why it is refused:
/// the first part that is not right, the labels filter being the last.
pub fn plan_with_filter(
    q: &QueryRequest,
    filter: Result<Option<Json>, ApiError>,
    now: &Timestamp,
) -> (r: Result<QueryPlan, ApiError>)
    requires
        q.from is None ==> time::shifted(window_end(q.to, *now)@, -time::SECONDS_PER_HOUR) is Some,
    ensures
        ({
            let filter_error = match filter {
                Ok(_) => None,
                Err(e) => Some(e@),
            };
            match query_refusal(*q, filter_error, *now) {
                Some(m) => r matches Err(e) && e@ == m,
                None => r matches Ok(p) && filter matches Ok(f) && is_plan(
                    p,
                    *q,
                    opt_model(f),
                    *now,
                ),
            }
        }),
{
    let window = match query_window(q.from, q.to, now) {
        Ok(w) => w,
        Err(e) => return Err(e),
    };
    let step_seconds = match parse_step_seconds(q.step) {
        Ok(n) => n,
        Err(e) => return Err(e),
    };
    let agg = match parse_agg(q.agg) {
        Ok(a) => a,
        Err(e) => return Err(e),
    };
    let labels_filter = match filter {
        Ok(f) => f,
        Err(e) => return Err(e),
    };
    let selection = Selection {
        project_id: q.project_id.to_owned(),
        name: q.name.to_owned(),
        window,
        labels_filter,
        group_by_keys: parse_group_by_keys(q.group_by),
        step_seconds,
    };
    Ok(QueryPlan { selection, agg })
}

/// A JSON value that may be missing, as a mathematical one.
pub open spec fn opt_model(j: Option<Json>) -> Option<json::JsonModel> {
    match j {
        Some(j) => Some(j@),
        None => None,
    }
}

/// What stands in the text of a labels filter: nothing where it is missing or
/// blank, and otherwise a JSON value or the account of why there is none.
pub open spec fn filter_in(labels: Option<Seq<char>>) -> Result<
    Option<json::JsonModel>,
    error::ErrorModel,
> {
    match labels {
        Some(s) if text::trimmed(s).len() > 0 => match json_read::json_in(s) {
            Ok(m) => Ok(Some(m)),
            Err(e) => Err(error::ErrorModel::BadRequest("invalid labels json: "@ + e)),
        },
        _ => Ok(None),
    }
}

/// The plan of a query, or why it is refused: its first part that is not right, in
/// the order of its window, its step, its aggregation and its labels filter.
pub fn plan_query(q: &QueryRequest, labels: Option<&str>, now: &Timestamp) -> (r: Result<
    QueryPlan,
    ApiError,
>)
    requires
        q.from is None ==> time::shifted(window_end(q.to, *now)@, -time::SECONDS_PER_HOUR) is Some,
    ensures
        ({
            let filter = filter_in(text::opt_str(labels));
            let filter_error = match filter {
                Ok(_) => None,
                Err(e) => Some(e),
            };
            match query_refusal(*q, filter_error, *now) {
                Some(m) => r matches Err(e) && e@ == m,
                None => r matches Ok(p) && filter matches Ok(f) && is_plan(p, *q, f, *now),
            }
        }),
{
    plan_with_filter(q, labels_filter(labels), now)
}

/// Whether a metric point is selected.
pub open spec fn selected(q: Selection, m: MetricRow) -> bool {
    &&& metrics::is_of_project(m, q.project_id@)
    &&& m.name@ == q.name@
    &&& within(q.window, m.timestamp)
    &&& q.labels_filter matches Some(f) ==> json::holds(m.labels@, f@)
}

/// The metric points that are selected, in their order.
pub open spec fn selection(q: Selection, s: Seq<MetricRow>) -> Seq<MetricRow>
    decreases s.len(),
{
    if s.len() == 0 {
        s
    } else {
        let head = selection(q, s.drop_last());
        if selected(q, s.last()) {
            head.push(s.last())
        } else {
            head
        }
    }
}

/// A value and when it was measured.
#[derive(Debug, Clone, Copy, PartialEq, Eq, Structural)]
pub struct Sample {
    pub value: Double,
    pub timestamp: Timestamp,
}

/// A series: its labels, and for each step its samples in the order in which
/// they came.
pub ghost struct SeriesModel {
    pub labels: json::JsonModel,
    pub buckets: Map<(int, int), Seq<Sample>>,
}

/// The start of the step that holds a metric point.
pub open spec fn bucket_of(m: MetricRow, step: int) -> (int, int) {
    (time::bucket_start(m.timestamp@.0, step), 0)
}

/// The samples of a step.
pub open spec fn samples_at(m: Map<(int, int), Seq<Sample>>, b: (int, int)) -> Seq<Sample> {
    if m.contains_key(b) {
        m[b]
    } else {
        Seq::empty()
    }
}

/// A series with one sample more.
pub open spec fn with_sample(s: SeriesModel, b: (int, int), x: Sample) -> SeriesModel {
    SeriesModel { buckets: s.buckets.insert(b, samples_at(s.buckets, b).push(x)), ..s }
}

/// The series of metric points by their keys; a series has the labels of its
/// first point.
pub open spec fn grouped(s: Seq<MetricRow>, keys: Seq<Seq<char>>, step: int) -> Map<
    Seq<char>,
    SeriesModel,
>
    decreases s.len(),
{
    if s.len() == 0 {
        Map::empty()
    } else {
        let m = grouped(s.drop_last(), keys, step);
        let row = s.last();
        let k = metrics::series_key(row.labels@, keys);
        let series = if m.contains_key(k) {
            m[k]
        } else {
            SeriesModel {
                labels: metrics::series_labels(row.labels@, keys),
                buckets: Map::empty(),
            }
        };
        m.insert(
            k,
            with_sample(
                series,
                bucket_of(row, step),
                Sample { value: row.value, timestamp: row.timestamp },
            ),
        )
    }
}

/// The samples of one step of a series.
#[derive(Debug)]
pub struct Bucket {
    pub start: Timestamp,
    pub samples: Vec<Sample>,
}

/// A series: its key, its labels and its steps in the order of time.
#[derive(Debug)]
pub struct Series {
    pub key: String,
    pub labels: Json,
    pub buckets: Vec<Bucket>,
}

/// Whether steps stand in the order of time, none twice.
pub open spec fn buckets_ascend(s: Seq<Bucket>) -> bool {
    forall|i: int, j: int|
        0 <= i < j < s.len() ==> time::earlier((#[trigger] s[i]).start@, (#[trigger] s[j]).start@)
}

/// Whether `s` lists the steps of `m` in the order of time.
pub open spec fn lists_buckets(s: Seq<Bucket>, m: Map<(int, int), Seq<Sample>>) -> bool {
    &&& buckets_ascend(s)
    &&& forall|i: int|
        0 <= i < s.len() ==> m.contains_key((#[trigger] s[i]).start@) && m[s[i].start@]
            == s[i].samples@
    &&& forall|b: (int, int)| #[trigger]
        m.contains_key(b) ==> exists|i: int| 0 <= i < s.len() && (#[trigger] s[i]).start@ == b
}

/// Whether series stand in the order of their keys, none twice.
pub open spec fn series_ascend(s: Seq<Series>) -> bool {
    forall|i: int, j: int|
        0 <= i < j < s.len() ==> text::text_lt((#[trigger] s[i]).key@, (#[trigger] s[j]).key@)
}

/// Whether a series is what `m` says.
pub open spec fn is_series(s: Series, m: SeriesModel) -> bool {
    s.labels@ == m.labels && lists_buckets(s.buckets@, m.buckets)
}

/// Whether `s` lists the series of `m` in the order of their keys.
pub open spec fn lists_series(s: Seq<Series>, m: Map<Seq<char>, SeriesModel>) -> bool {
    &&& series_ascend(s)
    &&& forall|i: int|
        0 <= i < s.len() ==> m.contains_key((#[trigger] s[i]).key@) && is_series(
            s[i],
            m[s[i].key@],
        )
    &&& forall|k: Seq<char>| #[trigger]
        m.contains_key(k) ==> exists|i: int| 0 <= i < s.len() && (#[trigger] s[i]).key@ == k
}

/// Adds a sample to the step that starts at `start`.
fn add_sample(buckets: &mut Vec<Bucket>, start: Timestamp, x: Sample, Ghost(m): Ghost<Map<(int, int), Seq<Sample>>>)
    requires
        lists_buckets(old(buckets)@, m),
    ensures
        lists_buckets(final(buckets)@, m.insert(start@, samples_at(m, start@).push(x))),
{
    let ghost before = buckets@;
    let ghost after = m.insert(start@, samples_at(m, start@).push(x));
    let mut k: usize = buckets.len();
    while k > 0 && start.before(&buckets[k - 1].start)
        invariant
            0 <= k <= buckets@.len(),
            buckets@ == before,
            forall|j: int| k <= j < before.len() ==> time::earlier(start@, (#[trigger] before[j]).start@),
        decreases k,
    {
        k -= 1;
    }
    if k > 0 && start.same(&buckets[k - 1].start) {
        assert(m.contains_key(before[k - 1].start@));
        buckets[k - 1].samples.push(x);
        let ghost now = buckets@;
        assert(now.len() == before.len());
        assert(forall|j: int|
            0 <= j < now.len() && j != k - 1 ==> #[trigger] now[j] == before[j]);
        assert(now[k - 1].start == before[k - 1].start);
        assert(now[k - 1].samples@ == before[k - 1].samples@.push(x));
        assert forall|i: int, j: int| 0 <= i < j < now.len() implies time::earlier(
            (#[trigger] now[i]).start@,
            (#[trigger] now[j]).start@,
        ) by {
            assert(now[i].start@ == before[i].start@ && now[j].start@ == before[j].start@);
        }
        assert forall|i: int| 0 <= i < now.len() implies after.contains_key(
            (#[trigger] now[i]).start@,
        ) && after[now[i].start@] == now[i].samples@ by {
            if i != k - 1 {
                assert(now[i] == before[i]);
                if i < k - 1 {
                    assert(time::earlier(before[i].start@, before[k - 1].start@));
                } else {
                    assert(time::earlier(before[k - 1].start@, before[i].start@));
                }
            }
        }
        assert forall|b: (int, int)| #[trigger] after.contains_key(b) implies exists|i: int|
            0 <= i < now.len() && (#[trigger] now[i]).start@ == b by {
            let i = choose|i: int| 0 <= i < before.len() && (#[trigger] before[i]).start@ == b;
            assert(now[i].start@ == b);
        }
    } else {
        assert(forall|j: int| 0 <= j < k ==> time::earlier((#[trigger] before[j]).start@, start@)) by {
            assert forall|j: int| 0 <= j < k implies time::earlier(
                (#[trigger] before[j]).start@,
                start@,
            ) by {
                if j < k - 1 {
                    assert(time::earlier(before[j].start@, before[k - 1].start@));
                }
            }
        }
        assert(!m.contains_key(start@)) by {
            if m.contains_key(start@) {
                let i = choose|i: int|
                    0 <= i < before.len() && (#[trigger] before[i]).start@ == start@;
            }
        }
        let mut samples: Vec<Sample> = Vec::new();
        samples.push(x);
        assert(samples@ =~= samples_at(m, start@).push(x));
        let bucket = Bucket { start, samples };
        buckets.insert(k, bucket);
        let ghost now = buckets@;
        assert forall|i: int, j: int| 0 <= i < j < now.len() implies time::earlier(
            (#[trigger] now[i]).start@,
            (#[trigger] now[j]).start@,
        ) by {
            if i < k && j > k {
                assert(now[i] == before[i] && now[j] == before[j - 1]);
            } else if j < k {
                assert(now[i] == before[i] && now[j] == before[j]);
            } else if i > k {
                assert(now[i] == before[i - 1] && now[j] == before[j - 1]);
            } else if i == k {
                assert(now[j] == before[j - 1]);
            } else {
                assert(now[i] == before[i]);
            }
        }
        assert forall|i: int| 0 <= i < now.len() implies after.contains_key(
            (#[trigger] now[i]).start@,
        ) && after[now[i].start@] == now[i].samples@ by {
            if i < k {
                assert(now[i] == before[i]);
            } else if i > k {
                assert(now[i] == before[i - 1]);
            }
        }
        assert forall|b: (int, int)| #[trigger] after.contains_key(b) implies exists|i: int|
            0 <= i < now.len() && (#[trigger] now[i]).start@ == b by {
            if b == start@ {
                assert(now[k as int].start@ == b);
            } else {
                let i = choose|i: int| 0 <= i < before.len() && (#[trigger] before[i]).start@ == b;
                if i < k {
                    assert(now[i].start@ == b);
                } else {
                    assert(now[i + 1].start@ == b);
                }
            }
        }
    }
}

/// Where the series with a key stands in a list in the order of the keys, or
/// would stand.
fn place_of(list: &Vec<Series>, key: &str) -> (r: (usize, bool))
    requires
        series_ascend(list@),
    ensures
        r.0 <= list@.len(),
        r.1 ==> r.0 < list@.len() && list@[r.0 as int].key@ == key@,
        !r.1 ==> forall|j: int| 0 <= j < list@.len() ==> (#[trigger] list@[j]).key@ != key@,
        forall|j: int| 0 <= j < r.0 ==> text::text_lt((#[trigger] list@[j]).key@, key@),
        forall|j: int|
            r.0 <= j < list@.len() ==> text::text_lt(key@, (#[trigger] list@[j]).key@) || (r.1 && j
                == r.0),
{
    let mut k: usize = list.len();
    while k > 0 && comes_before(key, list[k - 1].key.as_str())
        invariant
            0 <= k <= list@.len(),
            forall|j: int| k <= j < list@.len() ==> text::text_lt(key@, (#[trigger] list@[j]).key@),
        decreases k,
    {
        k -= 1;
    }
    proof {
        assert forall|j: int| k <= j < list@.len() implies (#[trigger] list@[j]).key@ != key@ by {
            text::lemma_text_lt_total(key@, list@[j].key@);
        }
    }
    if k > 0 && same(list[k - 1].key.as_str(), key) {
        return (k - 1, true);
    }
    proof {
        assert forall|j: int| 0 <= j < k implies text::text_lt((#[trigger] list@[j]).key@, key@)
            && list@[j].key@ != key@ by {
            text::lemma_text_lt_total(key@, list@[k - 1].key@);
            if j < k - 1 {
                assert(text::text_lt(list@[j].key@, list@[k - 1].key@));
                text::lemma_text_lt_transitive(list@[j].key@, list@[k - 1].key@, key@);
            }
            text::lemma_text_lt_total(list@[j].key@, key@);
        }
    }
    (k, false)
}

/// Putting a series with another key into a list keeps it in the order of the
/// keys and adds that series.
proof fn lemma_series_inserted(
    before: Seq<Series>,
    m: Map<Seq<char>, SeriesModel>,
    k: int,
    x: Series,
    model: SeriesModel,
)
    requires
        lists_series(before, m),
        0 <= k <= before.len(),
        is_series(x, model),
        forall|j: int| 0 <= j < k ==> text::text_lt((#[trigger] before[j]).key@, x.key@),
        forall|j: int| k <= j < before.len() ==> text::text_lt(x.key@, (#[trigger] before[j]).key@),
    ensures
        lists_series(before.insert(k, x), m.insert(x.key@, model)),
{
    let now = before.insert(k, x);
    let after = m.insert(x.key@, model);
    assert forall|i: int, j: int| 0 <= i < j < now.len() implies text::text_lt(
        (#[trigger] now[i]).key@,
        (#[trigger] now[j]).key@,
    ) by {
        if i < k && j > k {
            assert(now[i] == before[i] && now[j] == before[j - 1]);
        } else if j < k {
            assert(now[i] == before[i] && now[j] == before[j]);
        } else if i > k {
            assert(now[i] == before[i - 1] && now[j] == before[j - 1]);
        } else if i == k {
            assert(now[j] == before[j - 1]);
        } else {
            assert(now[i] == before[i]);
        }
    }
    assert forall|i: int| 0 <= i < now.len() implies after.contains_key((#[trigger] now[i]).key@)
        && is_series(now[i], after[now[i].key@]) by {
        if i < k {
            assert(now[i] == before[i]);
            text::lemma_text_lt_total(before[i].key@, x.key@);
        } else if i > k {
            assert(now[i] == before[i - 1]);
            text::lemma_text_lt_total(before[i - 1].key@, x.key@);
        }
    }
    assert forall|b: Seq<char>| #[trigger] after.contains_key(b) implies exists|i: int|
        0 <= i < now.len() && (#[trigger] now[i]).key@ == b by {
        if b == x.key@ {
            assert(now[k].key@ == b);
        } else {
            let i = choose|i: int| 0 <= i < before.len() && (#[trigger] before[i]).key@ == b;
            if i < k {
                assert(now[i].key@ == b);
            } else {
                assert(now[i + 1].key@ == b);
            }
        }
    }
}

/// Putting another series in the place of the one with its key.
proof fn lemma_series_replaced(
    before: Seq<Series>,
    m: Map<Seq<char>, SeriesModel>,
    k: int,
    x: Series,
    model: SeriesModel,
)
    requires
        lists_series(before, m),
        0 <= k < before.len(),
        is_series(x, model),
        x.key@ == before[k].key@,
    ensures
        lists_series(before.update(k, x), m.insert(x.key@, model)),
{
    let now = before.update(k, x);
    let after = m.insert(x.key@, model);
    assert forall|i: int, j: int| 0 <= i < j < now.len() implies text::text_lt(
        (#[trigger] now[i]).key@,
        (#[trigger] now[j]).key@,
    ) by {
        assert(now[i].key@ == before[i].key@ && now[j].key@ == before[j].key@);
    }
    assert forall|i: int| 0 <= i < now.len() implies after.contains_key((#[trigger] now[i]).key@)
        && is_series(now[i], after[now[i].key@]) by {
        if i != k {
            assert(now[i] == before[i]);
            if i < k {
                assert(text::text_lt(before[i].key@, before[k].key@));
            } else {
                assert(text::text_lt(before[k].key@, before[i].key@));
            }
            text::lemma_text_lt_total(before[i].key@, x.key@);
        }
    }
    assert forall|b: Seq<char>| #[trigger] after.contains_key(b) implies exists|i: int|
        0 <= i < now.len() && (#[trigger] now[i]).key@ == b by {
        assert(m.contains_key(x.key@));
        let i = choose|i: int| 0 <= i < before.len() && (#[trigger] before[i]).key@ == b;
        assert(now[i].key@ == b);
    }
}

/// Whether a metric point is selected.
fn is_selected(q: &Selection, m: &MetricRow) -> (r: bool)
    ensures
        r == selected(*q, *m),
{
    if !same(m.project_id.as_str(), q.project_id.as_str()) || !same(
        m.environment.as_str(),
        "default",
    ) || !same(m.name.as_str(), q.name.as_str()) || !q.window.holds(&m.timestamp) {
        return false;
    }
    match &q.labels_filter {
        Some(f) => json_contains(&m.labels, f),
        None => true,
    }
}

/// The series of the metric points that are selected, in the order of their
/// keys.
pub fn group_metrics(rows: &Vec<MetricRow>, q: &Selection) -> (r: Vec<Series>)
    requires
        q.step_seconds > 0,
    ensures
        lists_series(
            r@,
            grouped(selection(*q, rows@), text::texts(q.group_by_keys@), q.step_seconds as int),
        ),
{
    let ghost keys = text::texts(q.group_by_keys@);
    let ghost step = q.step_seconds as int;
    let mut list: Vec<Series> = Vec::new();
    let mut i: usize = 0;
    assert(rows@.take(0) =~= Seq::<MetricRow>::empty());
    while i < rows.len()
        invariant
            0 <= i <= rows@.len(),
            q.step_seconds > 0,
            keys == text::texts(q.group_by_keys@),
            step == q.step_seconds,
            lists_series(list@, grouped(selection(*q, rows@.take(i as int)), keys, step)),
        decreases rows.len() - i,
    {
        let row = &rows[i];
        let ghost seen = selection(*q, rows@.take(i as int));
        let ghost m = grouped(seen, keys, step);
        proof {
            assert(rows@.take(i + 1).drop_last() =~= rows@.take(i as int));
            assert(rows@.take(i + 1).last() == *row);
        }
        if is_selected(q, row) {
            proof {
                assert(seen.push(*row).drop_last() =~= seen);
                assert(seen.push(*row).last() == *row);
            }
            let start = row.timestamp.bucket(q.step_seconds);
            let sample = Sample { value: row.value, timestamp: row.timestamp };
            let (labels, key) = labels_and_group_key_from_json(&row.labels, &q.group_by_keys);
            let (k, found) = place_of(&list, key.as_str());
            let ghost before = list@;
            if found {
                let ghost old_series = list@[k as int];
                let ghost model = m[key@];
                assert(is_series(old_series, model));
                add_sample(&mut list[k].buckets, start, sample, Ghost(model.buckets));
                let ghost new_series = list@[k as int];
                proof {
                    assert(list@ =~= before.update(k as int, new_series));
                    lemma_series_replaced(
                        before,
                        m,
                        k as int,
                        new_series,
                        with_sample(model, start@, sample),
                    );
                }
            } else {
                let ghost model = SeriesModel { labels: labels@, buckets: Map::empty() };
                let mut buckets: Vec<Bucket> = Vec::new();
                assert(lists_buckets(buckets@, model.buckets));
                add_sample(&mut buckets, start, sample, Ghost(model.buckets));
                let series = Series { key, labels, buckets };
                proof {
                    assert(!m.contains_key(series.key@)) by {
                        if m.contains_key(series.key@) {
                            let j = choose|j: int|
                                0 <= j < before.len() && (#[trigger] before[j]).key@
                                    == series.key@;
                        }
                    }
                    lemma_series_inserted(
                        before,
                        m,
                        k as int,
                        series,
                        with_sample(model, start@, sample),
                    );
                }
                list.insert(k, series);
            }
        }
        i += 1;
    }
    assert(rows@.take(rows@.len() as int) =~= rows@);
    list
}

/// How many series and steps an answer holds at most.
#[derive(Debug, Clone, Copy, PartialEq, Eq, Structural)]
pub struct Limits {
    pub max_series: usize,
    pub max_points: usize,
}

/// The first items of a list, at most `n`.
pub open spec fn first_of<T>(s: Seq<T>, n: usize) -> Seq<T> {
    if s.len() > n {
        s.take(n as int)
    } else {
        s
    }
}

/// Whether `out` is the series `s` with its first steps only.
pub open spec fn is_cut(s: Series, n: usize, out: Series) -> bool {
    &&& out.key == s.key
    &&& out.labels == s.labels
    &&& out.buckets@ == first_of(s.buckets@, n)
}

/// Whether one of the series has more steps than allowed.
pub open spec fn too_long(s: Seq<Series>, n: usize) -> bool {
    exists|i: int| 0 <= i < s.len() && (#[trigger] s[i]).buckets@.len() > n
}

/// Whether `t` is the latest start among the steps of series.
pub open spec fn is_latest(s: Seq<Series>, t: Option<Timestamp>) -> bool {
    match t {
        None => forall|i: int| 0 <= i < s.len() ==> (#[trigger] s[i]).buckets@.len() == 0,
        Some(x) => {
            &&& exists|i: int, j: int|
                0 <= i < s.len() && 0 <= j < s[i].buckets@.len() && (
                #[trigger] s[i].buckets@[j]).start == x
            &&& forall|i: int, j: int|
                0 <= i < s.len() && 0 <= j < s[i].buckets@.len() ==> !time::earlier(
                    x@,
                    (#[trigger] s[i].buckets@[j]).start@,
                )
        },
    }
}

/// The answer to a query: the series, the latest step among them, and whether
/// something was left out.
#[derive(Debug)]
pub struct QueryAnswer {
    pub series: Vec<Series>,
    pub latest: Option<Timestamp>,
    pub truncated: bool,
}

/// Whether an answer is what limits leave of series.
pub open spec fn is_answer(all: Seq<Series>, limits: Limits, a: QueryAnswer) -> bool {
    let kept = first_of(all, limits.max_series);
    &&& a.series@.len() == kept.len()
    &&& forall|i: int|
        0 <= i < kept.len() ==> is_cut(kept[i], limits.max_points, #[trigger] a.series@[i])
    &&& a.truncated == (all.len() > limits.max_series || too_long(kept, limits.max_points))
    &&& is_latest(a.series@, a.latest)
}

/// What limits leave of series: the first series, and of each the first steps.
pub fn limit_series(all: Vec<Series>, limits: &Limits) -> (r: QueryAnswer)
    ensures
        is_answer(all@, *limits, r),
{
    let mut list = all;
    let ghost whole = list@;
    let mut truncated = false;
    if list.len() > limits.max_series {
        truncated = true;
        list.truncate(limits.max_series);
    }
    let ghost kept = first_of(whole, limits.max_series);
    assert(list@ =~= kept);
    let mut latest: Option<Timestamp> = None;
    let mut i: usize = 0;
    while i < list.len()
        invariant
            0 <= i <= list@.len(),
            list@.len() == kept.len(),
            forall|j: int| 0 <= j < i ==> is_cut(kept[j], limits.max_points, #[trigger] list@[j]),
            forall|j: int| i <= j < kept.len() ==> #[trigger] list@[j] == kept[j],
            truncated == (whole.len() > limits.max_series || too_long(
                kept.take(i as int),
                limits.max_points,
            )),
            is_latest(list@.take(i as int), latest),
        decreases list.len() - i,
    {
        let ghost before = list@;
        let ghost done = list@.take(i as int);
        if list[i].buckets.len() > limits.max_points {
            truncated = true;
            list[i].buckets.truncate(limits.max_points);
        }
        proof {
            assert(list@[i as int].buckets@ =~= first_of(kept[i as int].buckets@, limits.max_points));
            assert(list@.take(i as int) =~= done);
            let t0 = kept.take(i as int);
            let t1 = kept.take(i + 1);
            assert(too_long(t1, limits.max_points) == (too_long(t0, limits.max_points)
                || kept[i as int].buckets@.len() > limits.max_points)) by {
                if too_long(t0, limits.max_points) {
                    let j = choose|j: int|
                        0 <= j < t0.len() && (#[trigger] t0[j]).buckets@.len() > limits.max_points;
                    assert(t1[j].buckets@.len() > limits.max_points);
                }
                if kept[i as int].buckets@.len() > limits.max_points {
                    assert(t1[i as int].buckets@.len() > limits.max_points);
                }
                if too_long(t1, limits.max_points) {
                    let j = choose|j: int|
                        0 <= j < t1.len() && (#[trigger] t1[j]).buckets@.len() > limits.max_points;
                    if j < i {
                        assert(t0[j].buckets@.len() > limits.max_points);
                    }
                }
            }
        }
        let ghost cur = list@[i as int];
        let ghost all_now = list@;
        let mut j: usize = 0;
        while j < list[i].buckets.len()
            invariant
                0 <= i < list@.len(),
                0 <= j <= list@[i as int].buckets@.len(),
                list@ == all_now,
                cur == list@[i as int],
                done == list@.take(i as int),
                latest_so_far(done, cur.buckets@.take(j as int), latest),
            decreases list@[i as int].buckets@.len() - j,
        {
            let start = list[i].buckets[j].start;
            let ghost b0 = cur.buckets@.take(j as int);
            let ghost b1 = cur.buckets@.take(j + 1);
            let ghost was = latest;
            latest = match latest {
                Some(prev) => if prev.before(&start) {
                    Some(start)
                } else {
                    Some(prev)
                },
                None => Some(start),
            };
            proof {
                assert(b1 =~= b0.push(cur.buckets@[j as int]));
                lemma_latest_step(done, b0, was, cur.buckets@[j as int], latest);
            }
            j += 1;
        }
        proof {
            assert(cur.buckets@.take(cur.buckets@.len() as int) =~= cur.buckets@);
            assert(list@.take(i + 1) =~= done.push(cur));
            lemma_latest_done(done, cur, latest);
        }
        i += 1;
    }
    assert(kept.take(kept.len() as int) =~= kept);
    assert(list@.take(list@.len() as int) =~= list@);
    QueryAnswer { series: list, latest, truncated }
}

/// Whether `t` is the latest start among the steps of series and of one more
/// series.
spec fn latest_so_far(done: Seq<Series>, b: Seq<Bucket>, t: Option<Timestamp>) -> bool {
    match t {
        None => b.len() == 0 && forall|i: int|
            0 <= i < done.len() ==> (#[trigger] done[i]).buckets@.len() == 0,
        Some(x) => {
            &&& (exists|k: int| 0 <= k < b.len() && (#[trigger] b[k]).start == x) || (exists|
                i: int,
                j: int,
            |
                0 <= i < done.len() && 0 <= j < done[i].buckets@.len() && (
                #[trigger] done[i].buckets@[j]).start == x)
            &&& forall|k: int| 0 <= k < b.len() ==> !time::earlier(x@, (#[trigger] b[k]).start@)
            &&& forall|i: int, j: int|
                0 <= i < done.len() && 0 <= j < done[i].buckets@.len() ==> !time::earlier(
                    x@,
                    (#[trigger] done[i].buckets@[j]).start@,
                )
        },
    }
}

proof fn lemma_latest_step(
    done: Seq<Series>,
    b: Seq<Bucket>,
    was: Option<Timestamp>,
    x: Bucket,
    now: Option<Timestamp>,
)
    requires
        latest_so_far(done, b, was),
        now == match was {
            Some(prev) => if time::earlier(prev@, x.start@) {
                Some(x.start)
            } else {
                Some(prev)
            },
            None => Some(x.start),
        },
    ensures
        latest_so_far(done, b.push(x), now),
{
    let c = b.push(x);
    assert(c[b.len() as int] == x);
    if was is Some {
        let prev = was->0;
        if !time::earlier(prev@, x.start@) {
            if exists|k: int| 0 <= k < b.len() && (#[trigger] b[k]).start == prev {
                let k = choose|k: int| 0 <= k < b.len() && (#[trigger] b[k]).start == prev;
                assert(c[k].start == prev);
            }
        }
        assert forall|k: int| 0 <= k < c.len() implies !time::earlier(
            now->0@,
            (#[trigger] c[k]).start@,
        ) by {
            if k < b.len() {
                assert(c[k] == b[k]);
            }
        }
    } else {
        assert(now->0 == x.start);
    }
}

proof fn lemma_latest_done(done: Seq<Series>, cur: Series, t: Option<Timestamp>)
    requires
        latest_so_far(done, cur.buckets@, t),
    ensures
        is_latest(done.push(cur), t),
{
    let s = done.push(cur);
    assert(s[done.len() as int] == cur);
    match t {
        None => {
            assert forall|i: int| 0 <= i < s.len() implies (#[trigger] s[i]).buckets@.len() == 0 by {
                if i < done.len() {
                    assert(s[i] == done[i]);
                }
            }
        },
        Some(x) => {
            if exists|k: int| 0 <= k < cur.buckets@.len() && (#[trigger] cur.buckets@[k]).start
                == x {
                let k = choose|k: int|
                    0 <= k < cur.buckets@.len() && (#[trigger] cur.buckets@[k]).start == x;
                assert(s[done.len() as int].buckets@[k].start == x);
            } else {
                let (i, j) = choose|i: int, j: int|
                    0 <= i < done.len() && 0 <= j < done[i].buckets@.len() && (
                    #[trigger] done[i].buckets@[j]).start == x;
                assert(s[i].buckets@[j].start == x);
            }
            assert forall|i: int, j: int|
                0 <= i < s.len() && 0 <= j < s[i].buckets@.len() implies !time::earlier(
                x@,
                (#[trigger] s[i].buckets@[j]).start@,
            ) by {
                if i < done.len() {
                    assert(s[i].buckets@[j] == done[i].buckets@[j]);
                } else {
                    assert(s[i].buckets@[j] == cur.buckets@[j]);
                }
            }
        },
    }
}

/// Answers a query from the metric points of a store in memory.
pub fn query_metrics(rows: &Vec<MetricRow>, q: &Selection, limits: &Limits) -> (r: QueryAnswer)
    requires
        q.step_seconds > 0,
    ensures
        exists|all: Seq<Series>|
            lists_series(
                all,
                grouped(selection(*q, rows@), text::texts(q.group_by_keys@), q.step_seconds as int),
            ) && #[trigger] is_answer(all, *limits, r),
{
    let all = group_metrics(rows, q);
    limit_series(all, limits)
}

/// The sample of the latest instant; of several the last that came.
pub open spec fn last_sample(s: Seq<Sample>) -> Option<Sample>
    decreases s.len(),
{
    if s.len() == 0 {
        None
    } else {
        match last_sample(s.drop_last()) {
            Some(x) => if time::earlier(s.last().timestamp@, x.timestamp@) {
                Some(x)
            } else {
                Some(s.last())
            },
            None => Some(s.last()),
        }
    }
}

/// What becomes of the samples of a step: a number that is there, how many they
/// are, or one that has to be calculated from them.
#[derive(Debug, Clone, Copy, PartialEq, Eq, Structural)]
pub enum BucketValue {
    Exact(Double),
    Count(usize),
    Calculated,
}

/// What becomes of the samples of a step.
pub fn bucket_value(agg: &str, samples: &Vec<Sample>) -> (r: BucketValue)
    ensures
        r == if agg@ == "last"@ {
            match last_sample(samples@) {
                Some(x) => BucketValue::Exact(x.value),
                None => BucketValue::Exact(Double { bits: 0 }),
            }
        } else if agg@ == "count"@ {
            BucketValue::Count(samples@.len() as usize)
        } else {
            BucketValue::Calculated
        },
{
    if same(agg, "last") {
        if samples.len() == 0 {
            return BucketValue::Exact(Double { bits: 0 });
        }
        let mut best: Sample = samples[0];
        let mut i: usize = 1;
        assert(samples@.take(1).drop_last() =~= Seq::<Sample>::empty());
        assert(last_sample(samples@.take(1).drop_last()) is None);
        assert(samples@.take(1).last() == samples@[0]);
        while i < samples.len()
            invariant
                1 <= i <= samples@.len(),
                last_sample(samples@.take(i as int)) == Some(best),
            decreases samples.len() - i,
        {
            assert(samples@.take(i + 1).drop_last() =~= samples@.take(i as int));
            assert(samples@.take(i + 1).last() == samples@[i as int]);
            if !samples[i].timestamp.before(&best.timestamp) {
                best = samples[i];
            }
            i += 1;
        }
        assert(samples@.take(samples@.len() as int) =~= samples@);
        BucketValue::Exact(best.value)
    } else if same(agg, "count") {
        BucketValue::Count(samples.len())
    } else {
        BucketValue::Calculated
    }
}

/// The last sample is one of the samples, and none is later.
pub proof fn lemma_last_sample(s: Seq<Sample>)
    requires
        s.len() > 0,
    ensures
        last_sample(s) matches Some(x) && s.contains(x) && forall|i: int|
            0 <= i < s.len() ==> !time::earlier(x.timestamp@, (#[trigger] s[i]).timestamp@),
    decreases s.len(),
{
    assert(s[s.len() - 1] == s.last());
    if s.len() > 1 {
        let head = s.drop_last();
        lemma_last_sample(head);
        let x = last_sample(head)->0;
        let j = choose|j: int| 0 <= j < head.len() && head[j] == x;
        assert(s[j] == x);
        assert forall|i: int| 0 <= i < s.len() implies !time::earlier(
            last_sample(s)->0.timestamp@,
            (#[trigger] s[i]).timestamp@,
        ) by {
            if i < head.len() {
                assert(s[i] == head[i]);
            }
        }
    } else {
        assert(last_sample(s.drop_last()) is None);
    }
}

/// The samples of the points that belong to a series and a step, in the order in
/// which they came.
pub open spec fn samples_of(
    s: Seq<MetricRow>,
    keys: Seq<Seq<char>>,
    step: int,
    k: Seq<char>,
    b: (int, int),
) -> Seq<Sample>
    decreases s.len(),
{
    if s.len() == 0 {
        Seq::empty()
    } else {
        let head = samples_of(s.drop_last(), keys, step, k, b);
        let row = s.last();
        if metrics::series_key(row.labels@, keys) == k && bucket_of(row, step) == b {
            head.push(Sample { value: row.value, timestamp: row.timestamp })
        } else {
            head
        }
    }
}

/// Every point counts exactly once: a step of a series holds the samples of the
/// points that belong to it, and there is no step and no series without one.
pub proof fn lemma_points_partitioned(
    s: Seq<MetricRow>,
    keys: Seq<Seq<char>>,
    step: int,
    k: Seq<char>,
    b: (int, int),
)
    ensures
        ({
            let m = grouped(s, keys, step);
            let found = samples_of(s, keys, step, k, b);
            &&& (m.contains_key(k) && m[k].buckets.contains_key(b)) == (found.len() > 0)
            &&& found.len() > 0 ==> m[k].buckets[b] == found
        }),
    decreases s.len(),
{
    if s.len() > 0 {
        lemma_points_partitioned(s.drop_last(), keys, step, k, b);
    }
}

/// The points of a project.
pub open spec fn own_points(s: Seq<MetricRow>, project: Seq<char>) -> Seq<MetricRow>
    decreases s.len(),
{
    if s.len() == 0 {
        s
    } else {
        let head = own_points(s.drop_last(), project);
        if s.last().project_id@ == project {
            head.push(s.last())
        } else {
            head
        }
    }
}

/// Projects are kept apart: what a query selects is what it would select if
/// there were no other project's points.
pub proof fn lemma_other_projects_invisible(q: Selection, s: Seq<MetricRow>)
    ensures
        selection(q, s) == selection(q, own_points(s, q.project_id@)),
    decreases s.len(),
{
    if s.len() > 0 {
        let head = s.drop_last();
        lemma_other_projects_invisible(q, head);
        let own = own_points(head, q.project_id@);
        if s.last().project_id@ == q.project_id@ {
            assert(own.push(s.last()).drop_last() =~= own);
        }
    }
}

/// Points that are written behind others are selected behind those.
pub proof fn lemma_selection_concat(q: Selection, a: Seq<MetricRow>, b: Seq<MetricRow>)
    ensures
        selection(q, a + b) == selection(q, a) + selection(q, b),
    decreases b.len(),
{
    if b.len() == 0 {
        assert(a + b =~= a);
        assert(selection(q, a) + selection(q, b) =~= selection(q, a));
    } else {
        lemma_selection_concat(q, a, b.drop_last());
        assert((a + b).drop_last() =~= a + b.drop_last());
        assert((a + b).last() == b.last());
        assert(selection(q, a + b) =~= selection(q, a) + selection(q, b));
    }
}

/// A point that is selected is found: its sample stands in its step of its
/// series.
pub proof fn lemma_selected_point_found(s: Seq<MetricRow>, keys: Seq<Seq<char>>, step: int, i: int)
    requires
        0 <= i < s.len(),
    ensures
        ({
            let m = grouped(s, keys, step);
            let k = metrics::series_key(s[i].labels@, keys);
            let b = bucket_of(s[i], step);
            &&& m.contains_key(k)
            &&& m[k].buckets.contains_key(b)
            &&& m[k].buckets[b].contains(
                Sample { value: s[i].value, timestamp: s[i].timestamp },
            )
        }),
    decreases s.len(),
{
    let k = metrics::series_key(s[i].labels@, keys);
    let b = bucket_of(s[i], step);
    let x = Sample { value: s[i].value, timestamp: s[i].timestamp };
    let m0 = grouped(s.drop_last(), keys, step);
    let m = grouped(s, keys, step);
    if i < s.len() - 1 {
        assert(s.drop_last()[i] == s[i]);
        lemma_selected_point_found(s.drop_last(), keys, step, i);
        let old = m0[k].buckets[b];
        let j = choose|j: int| 0 <= j < old.len() && old[j] == x;
        assert(m[k].buckets[b][j] == x);
    } else {
        assert(s[i] == s.last());
        let now = m[k].buckets[b];
        assert(now[now.len() - 1] == x);
    }
}

/// A point that is selected is among those selected.
proof fn lemma_selected_is_kept(q: Selection, s: Seq<MetricRow>, i: int)
    requires
        0 <= i < s.len(),
        selected(q, s[i]),
    ensures
        selection(q, s).contains(s[i]),
    decreases s.len(),
{
    let head = s.drop_last();
    let t = selection(q, head);
    if i < head.len() {
        lemma_selected_is_kept(q, head, i);
        let j = choose|j: int| 0 <= j < t.len() && t[j] == s[i];
        assert(selection(q, s)[j] == s[i]);
    } else {
        assert(selection(q, s)[t.len() as int] == s[i]);
    }
}

/// A point that is written is found by every query that selects it: its value
/// stands in the series of its labels, in the step of its instant.
pub proof fn lemma_written_point_found(
    q: Selection,
    before: Seq<MetricRow>,
    written: Seq<MetricRow>,
    i: int,
)
    requires
        0 <= i < written.len(),
        selected(q, written[i]),
    ensures
        ({
            let keys = text::texts(q.group_by_keys@);
            let step = q.step_seconds as int;
            let m = grouped(selection(q, before + written), keys, step);
            let k = metrics::series_key(written[i].labels@, keys);
            let b = bucket_of(written[i], step);
            &&& m.contains_key(k)
            &&& m[k].buckets.contains_key(b)
            &&& m[k].buckets[b].contains(
                Sample { value: written[i].value, timestamp: written[i].timestamp },
            )
        }),
{
    let all = selection(q, before + written);
    lemma_selection_concat(q, before, written);
    lemma_selected_is_kept(q, written, i);
    let w = selection(q, written);
    let j = choose|j: int| 0 <= j < w.len() && w[j] == written[i];
    let at = selection(q, before).len() + j;
    assert(all[at] == written[i]);
    lemma_selected_point_found(all, text::texts(q.group_by_keys@), q.step_seconds as int, at);
}

/// An answer keeps to its limits.
pub proof fn lemma_answer_within_limits(all: Seq<Series>, limits: Limits, a: QueryAnswer)
    requires
        is_answer(all, limits, a),
    ensures
        a.series@.len() <= limits.max_series,
        forall|i: int|
            0 <= i < a.series@.len() ==> (#[trigger] a.series@[i]).buckets@.len()
                <= limits.max_points,
        !a.truncated ==> a.series@.len() == all.len() && forall|i: int|
            0 <= i < all.len() ==> (#[trigger] a.series@[i]).buckets@ == all[i].buckets@,
{
    let kept = first_of(all, limits.max_series);
    if !a.truncated {
        assert forall|i: int| 0 <= i < all.len() implies (#[trigger] a.series@[i]).buckets@
            == all[i].buckets@ by {
            assert(kept[i].buckets@.len() <= limits.max_points);
        }
    }
}

/// How many samples steps hold together.
pub open spec fn samples_counted(s: Seq<Bucket>) -> nat
    decreases s.len(),
{
    if s.len() == 0 {
        0
    } else {
        samples_counted(s.drop_last()) + s.last().samples@.len()
    }
}

/// How many samples series hold together.
pub open spec fn points_counted(s: Seq<Series>) -> nat
    decreases s.len(),
{
    if s.len() == 0 {
        0
    } else {
        points_counted(s.drop_last()) + samples_counted(s.last().buckets@)
    }
}

/// How many of the points belong to one of the steps of the series `k`.
spec fn held_by_steps(
    s: Seq<MetricRow>,
    keys: Seq<Seq<char>>,
    step: int,
    k: Seq<char>,
    steps: Seq<Bucket>,
) -> nat
    decreases steps.len(),
{
    if steps.len() == 0 {
        0
    } else {
        held_by_steps(s, keys, step, k, steps.drop_last()) + samples_of(
            s,
            keys,
            step,
            k,
            steps.last().start@,
        ).len()
    }
}

/// How many of the points belong to one of the series.
spec fn held_by_series(
    s: Seq<MetricRow>,
    keys: Seq<Seq<char>>,
    step: int,
    all: Seq<Series>,
) -> nat
    decreases all.len(),
{
    if all.len() == 0 {
        0
    } else {
        held_by_series(s, keys, step, all.drop_last()) + held_by_steps(
            s,
            keys,
            step,
            all.last().key@,
            all.last().buckets@,
        )
    }
}

/// Whether one of the steps starts at `b`.
spec fn has_step(steps: Seq<Bucket>, b: (int, int)) -> bool {
    exists|j: int| 0 <= j < steps.len() && (#[trigger] steps[j]).start@ == b
}

/// Whether one of the series has the key `k` and a step that starts at `b`.
spec fn has_series(all: Seq<Series>, k: Seq<char>, b: (int, int)) -> bool {
    exists|i: int|
        0 <= i < all.len() && (#[trigger] all[i]).key@ == k && has_step(all[i].buckets@, b)
}

/// One point more is held once more, if its step is there.
proof fn lemma_one_more_in_steps(
    s: Seq<MetricRow>,
    keys: Seq<Seq<char>>,
    step: int,
    k: Seq<char>,
    steps: Seq<Bucket>,
)
    requires
        s.len() > 0,
        buckets_ascend(steps),
    ensures
        held_by_steps(s, keys, step, k, steps) == held_by_steps(
            s.drop_last(),
            keys,
            step,
            k,
            steps,
        ) + (if metrics::series_key(s.last().labels@, keys) == k && has_step(
            steps,
            bucket_of(s.last(), step),
        ) {
            1nat
        } else {
            0
        }),
    decreases steps.len(),
{
    if steps.len() > 0 {
        let head = steps.drop_last();
        let b = bucket_of(s.last(), step);
        assert(buckets_ascend(head)) by {
            assert forall|i: int, j: int| 0 <= i < j < head.len() implies time::earlier(
                (#[trigger] head[i]).start@,
                (#[trigger] head[j]).start@,
            ) by {
                assert(head[i] == steps[i] && head[j] == steps[j]);
            }
        }
        lemma_one_more_in_steps(s, keys, step, k, head);
        assert(steps[steps.len() - 1] == steps.last());
        if has_step(head, b) {
            let j = choose|j: int| 0 <= j < head.len() && (#[trigger] head[j]).start@ == b;
            assert(steps[j].start@ == b);
            assert(time::earlier(steps[j].start@, steps[steps.len() - 1].start@));
        } else if has_step(steps, b) {
            let j = choose|j: int| 0 <= j < steps.len() && (#[trigger] steps[j]).start@ == b;
            if j < head.len() {
                assert(head[j].start@ == b);
            }
        }
    }
}

/// One point more is held once more, if its series and its step are there.
proof fn lemma_one_more_in_series(
    s: Seq<MetricRow>,
    keys: Seq<Seq<char>>,
    step: int,
    all: Seq<Series>,
)
    requires
        s.len() > 0,
        series_ascend(all),
        forall|i: int| 0 <= i < all.len() ==> buckets_ascend((#[trigger] all[i]).buckets@),
    ensures
        held_by_series(s, keys, step, all) == held_by_series(s.drop_last(), keys, step, all) + (
        if has_series(
            all,
            metrics::series_key(s.last().labels@, keys),
            bucket_of(s.last(), step),
        ) {
            1nat
        } else {
            0
        }),
    decreases all.len(),
{
    if all.len() > 0 {
        let head = all.drop_last();
        let k = metrics::series_key(s.last().labels@, keys);
        let b = bucket_of(s.last(), step);
        assert forall|i: int| 0 <= i < head.len() implies buckets_ascend(
            (#[trigger] head[i]).buckets@,
        ) by {
            assert(head[i] == all[i]);
        }
        assert(series_ascend(head)) by {
            assert forall|i: int, j: int| 0 <= i < j < head.len() implies text::text_lt(
                (#[trigger] head[i]).key@,
                (#[trigger] head[j]).key@,
            ) by {
                assert(head[i] == all[i] && head[j] == all[j]);
            }
        }
        lemma_one_more_in_series(s, keys, step, head);
        assert(all[all.len() - 1] == all.last());
        lemma_one_more_in_steps(s, keys, step, all.last().key@, all.last().buckets@);
        if has_series(head, k, b) {
            let i = choose|i: int|
                0 <= i < head.len() && (#[trigger] head[i]).key@ == k && has_step(
                    head[i].buckets@,
                    b,
                );
            assert(all[i] == head[i]);
            assert(text::text_lt(all[i].key@, all[all.len() - 1].key@));
            text::lemma_text_lt_total(all[i].key@, all.last().key@);
        } else if has_series(all, k, b) {
            let i = choose|i: int|
                0 <= i < all.len() && (#[trigger] all[i]).key@ == k && has_step(
                    all[i].buckets@,
                    b,
                );
            if i < head.len() {
                assert(head[i] == all[i]);
            }
        }
    }
}

/// No points, none held.
proof fn lemma_none_held(keys: Seq<Seq<char>>, step: int, all: Seq<Series>)
    ensures
        held_by_series(Seq::empty(), keys, step, all) == 0,
    decreases all.len(),
{
    if all.len() > 0 {
        lemma_none_held(keys, step, all.drop_last());
        lemma_none_held_by_steps(keys, step, all.last().key@, all.last().buckets@);
    }
}

proof fn lemma_none_held_by_steps(
    keys: Seq<Seq<char>>,
    step: int,
    k: Seq<char>,
    steps: Seq<Bucket>,
)
    ensures
        held_by_steps(Seq::empty(), keys, step, k, steps) == 0,
    decreases steps.len(),
{
    if steps.len() > 0 {
        lemma_none_held_by_steps(keys, step, k, steps.drop_last());
    }
}

/// Points whose series and steps are there are all held.
proof fn lemma_all_held(s: Seq<MetricRow>, keys: Seq<Seq<char>>, step: int, all: Seq<Series>)
    requires
        series_ascend(all),
        forall|i: int| 0 <= i < all.len() ==> buckets_ascend((#[trigger] all[i]).buckets@),
        forall|i: int|
            0 <= i < s.len() ==> has_series(
                all,
                metrics::series_key((#[trigger] s[i]).labels@, keys),
                bucket_of(s[i], step),
            ),
    ensures
        held_by_series(s, keys, step, all) == s.len(),
    decreases s.len(),
{
    if s.len() == 0 {
        assert(s =~= Seq::empty());
        lemma_none_held(keys, step, all);
    } else {
        assert(s[s.len() - 1] == s.last());
        assert forall|i: int| 0 <= i < s.drop_last().len() implies has_series(
            all,
            metrics::series_key((#[trigger] s.drop_last()[i]).labels@, keys),
            bucket_of(s.drop_last()[i], step),
        ) by {
            assert(s.drop_last()[i] == s[i]);
        }
        lemma_all_held(s.drop_last(), keys, step, all);
        lemma_one_more_in_series(s, keys, step, all);
    }
}

/// The steps of a series count the points that they hold.
proof fn lemma_samples_are_points(
    s: Seq<MetricRow>,
    keys: Seq<Seq<char>>,
    step: int,
    k: Seq<char>,
    steps: Seq<Bucket>,
)
    requires
        grouped(s, keys, step).contains_key(k),
        forall|j: int|
            0 <= j < steps.len() ==> {
                let m = grouped(s, keys, step)[k].buckets;
                m.contains_key((#[trigger] steps[j]).start@) && m[steps[j].start@]
                    == steps[j].samples@
            },
    ensures
        samples_counted(steps) == held_by_steps(s, keys, step, k, steps),
    decreases steps.len(),
{
    if steps.len() > 0 {
        let head = steps.drop_last();
        assert forall|j: int| 0 <= j < head.len() implies ({
            let m = grouped(s, keys, step)[k].buckets;
            m.contains_key((#[trigger] head[j]).start@) && m[head[j].start@] == head[j].samples@
        }) by {
            assert(head[j] == steps[j]);
        }
        lemma_samples_are_points(s, keys, step, k, head);
        assert(steps[steps.len() - 1] == steps.last());
        lemma_points_partitioned(s, keys, step, k, steps.last().start@);
    }
}

/// Series count the points that they hold.
proof fn lemma_counted_are_held(
    s: Seq<MetricRow>,
    keys: Seq<Seq<char>>,
    step: int,
    all: Seq<Series>,
)
    requires
        forall|i: int|
            0 <= i < all.len() ==> grouped(s, keys, step).contains_key((#[trigger] all[i]).key@)
                && is_series(all[i], grouped(s, keys, step)[all[i].key@]),
    ensures
        points_counted(all) == held_by_series(s, keys, step, all),
    decreases all.len(),
{
    if all.len() > 0 {
        let head = all.drop_last();
        assert forall|i: int| 0 <= i < head.len() implies grouped(s, keys, step).contains_key(
            (#[trigger] head[i]).key@,
        ) && is_series(head[i], grouped(s, keys, step)[head[i].key@]) by {
            assert(head[i] == all[i]);
        }
        lemma_counted_are_held(s, keys, step, head);
        assert(all[all.len() - 1] == all.last());
        lemma_samples_are_points(s, keys, step, all.last().key@, all.last().buckets@);
    }
}

/// No point is lost and none is counted twice: however points are grouped, and
/// into steps of whatever length, the steps of all series hold as many samples
/// together as there are points.
pub proof fn lemma_every_point_counted(
    s: Seq<MetricRow>,
    keys: Seq<Seq<char>>,
    step: int,
    all: Seq<Series>,
)
    requires
        lists_series(all, grouped(s, keys, step)),
    ensures
        points_counted(all) == s.len(),
{
    let m = grouped(s, keys, step);
    assert forall|i: int| 0 <= i < s.len() implies has_series(
        all,
        metrics::series_key((#[trigger] s[i]).labels@, keys),
        bucket_of(s[i], step),
    ) by {
        lemma_selected_point_found(s, keys, step, i);
        let k = metrics::series_key(s[i].labels@, keys);
        let b = bucket_of(s[i], step);
        let n = choose|n: int| 0 <= n < all.len() && (#[trigger] all[n]).key@ == k;
        assert(is_series(all[n], m[k]));
        assert(has_step(all[n].buckets@, b));
    }
    assert forall|i: int| 0 <= i < all.len() implies buckets_ascend(
        (#[trigger] all[i]).buckets@,
    ) by {
        assert(is_series(all[i], m[all[i].key@]));
    }
    lemma_all_held(s, keys, step, all);
    lemma_counted_are_held(s, keys, step, all);
}

/// Series with the same steps count alike.
proof fn lemma_same_steps_count_alike(a: Seq<Series>, b: Seq<Series>)
    requires
        a.len() == b.len(),
        forall|i: int| 0 <= i < a.len() ==> (#[trigger] a[i]).buckets@ == b[i].buckets@,
    ensures
        points_counted(a) == points_counted(b),
    decreases a.len(),
{
    if a.len() > 0 {
        assert forall|i: int| 0 <= i < a.drop_last().len() implies (
        #[trigger] a.drop_last()[i]).buckets@ == b.drop_last()[i].buckets@ by {
            assert(a[i].buckets@ == b[i].buckets@);
        }
        lemma_same_steps_count_alike(a.drop_last(), b.drop_last());
        assert(a[a.len() - 1].buckets@ == b[b.len() - 1].buckets@);
    }
}

/// An answer from which nothing was left out counts every point that the query
/// selects, once.
pub proof fn lemma_whole_answer_counts_every_point(
    rows: Seq<MetricRow>,
    q: Selection,
    limits: Limits,
    all: Seq<Series>,
    a: QueryAnswer,
)
    requires
        lists_series(
            all,
            grouped(selection(q, rows), text::texts(q.group_by_keys@), q.step_seconds as int),
        ),
        is_answer(all, limits, a),
        !a.truncated,
    ensures
        points_counted(a.series@) == selection(q, rows).len(),
{
    lemma_every_point_counted(
        selection(q, rows),
        text::texts(q.group_by_keys@),
        q.step_seconds as int,
        all,
    );
    lemma_answer_within_limits(all, limits, a);
    lemma_same_steps_count_alike(a.series@, all);
}

/// Whether two queries differ in their grouping and their step at most.
pub open spec fn select_alike(q: Selection, p: Selection) -> bool {
    &&& q.project_id@ == p.project_id@
    &&& q.name@ == p.name@
    &&& q.window == p.window
    &&& match (q.labels_filter, p.labels_filter) {
        (None, None) => true,
        (Some(f), Some(g)) => f@ == g@,
        _ => false,
    }
}

/// Neither the grouping nor the step decides which points are selected.
pub proof fn lemma_selection_without_grouping(q: Selection, p: Selection, rows: Seq<MetricRow>)
    requires
        select_alike(q, p),
    ensures
        selection(q, rows) == selection(p, rows),
    decreases rows.len(),
{
    if rows.len() > 0 {
        lemma_selection_without_grouping(q, p, rows.drop_last());
    }
}

/// How many points are counted depends neither on the grouping nor on the step:
/// two queries that differ in these alone count as many, where nothing is left
/// out of their answers.
pub proof fn lemma_count_without_grouping(
    rows: Seq<MetricRow>,
    q: Selection,
    p: Selection,
    limits: Limits,
    all_q: Seq<Series>,
    all_p: Seq<Series>,
    a: QueryAnswer,
    b: QueryAnswer,
)
    requires
        select_alike(q, p),
        lists_series(
            all_q,
            grouped(selection(q, rows), text::texts(q.group_by_keys@), q.step_seconds as int),
        ),
        lists_series(
            all_p,
            grouped(selection(p, rows), text::texts(p.group_by_keys@), p.step_seconds as int),
        ),
        is_answer(all_q, limits, a),
        is_answer(all_p, limits, b),
        !a.truncated,
        !b.truncated,
    ensures
        points_counted(a.series@) == points_counted(b.series@),
{
    lemma_selection_without_grouping(q, p, rows);
    lemma_whole_answer_counts_every_point(rows, q, limits, all_q, a);
    lemma_whole_answer_counts_every_point(rows, p, limits, all_p, b);
}

/// A row that a database answers a query of metric points with: the value of one
/// step of a series, and which step of the series and which series it is.
#[derive(Debug)]
pub struct LimitedRow {
    pub bucket: Timestamp,
    pub labels: Json,
    pub value: Double,
    pub point_rank: i64,
    pub series_rank: i64,
}

/// The value of one step.
#[derive(Debug, Clone, Copy, PartialEq, Eq, Structural)]
pub struct StepValue {
    pub start: Timestamp,
    pub value: Double,
}

/// A series with one value for each step.
#[derive(Debug)]
pub struct ValueSeries {
    pub key: String,
    pub labels: Json,
    pub values: Vec<StepValue>,
}

/// A series with one value for each step, its labels taken as a mathematical
/// value.
pub ghost struct ValueModel {
    pub labels: json::JsonModel,
    pub values: Seq<StepValue>,
}

/// Whether a row is beyond the limits.
pub open spec fn beyond(row: LimitedRow, max_points: i64, max_series: i64) -> bool {
    row.point_rank > max_points || row.series_rank > max_series
}

/// How far the ranks go of the rows that are shown, and of those that are fetched.
#[derive(Debug, Clone, Copy, PartialEq, Eq, Structural)]
pub struct RankLimits {
    pub max_points: i64,
    pub max_series: i64,
    pub fetched_points: i64,
    pub fetched_series: i64,
}

/// A number, or the greatest rank that there is where it is greater.
pub open spec fn as_rank(n: int) -> int {
    if n > i64::MAX {
        i64::MAX as int
    } else {
        n
    }
}

/// How far the ranks go of the rows that a query shows and fetches: it fetches one
/// more than each limit, so that it shows when there is more.
pub fn rank_limits(limits: &Limits) -> (r: RankLimits)
    ensures
        r.max_points == as_rank(limits.max_points as int),
        r.max_series == as_rank(limits.max_series as int),
        r.fetched_points == as_rank(limits.max_points + 1),
        r.fetched_series == as_rank(limits.max_series + 1),
{
    let max_points = rank_of(limits.max_points);
    let max_series = rank_of(limits.max_series);
    RankLimits {
        max_points,
        max_series,
        fetched_points: one_more(max_points),
        fetched_series: one_more(max_series),
    }
}

/// A number as a rank.
fn rank_of(n: usize) -> (r: i64)
    ensures
        r == as_rank(n as int),
{
    let wide = n as u64;
    if wide > i64::MAX as u64 {
        i64::MAX
    } else {
        wide as i64
    }
}

/// The next rank, if there is one.
fn one_more(n: i64) -> (r: i64)
    ensures
        r == as_rank(n + 1),
{
    if n < i64::MAX {
        n + 1
    } else {
        n
    }
}

/// The series of the rows that are not beyond the limits, by their keys; a
/// series has the labels of its first row.
pub open spec fn folded(
    s: Seq<LimitedRow>,
    keys: Seq<Seq<char>>,
    max_points: i64,
    max_series: i64,
) -> Map<Seq<char>, ValueModel>
    decreases s.len(),
{
    if s.len() == 0 {
        Map::empty()
    } else {
        let m = folded(s.drop_last(), keys, max_points, max_series);
        let row = s.last();
        if beyond(row, max_points, max_series) {
            m
        } else {
            let k = metrics::series_key(row.labels@, keys);
            let old = if m.contains_key(k) {
                m[k]
            } else {
                ValueModel { labels: row.labels@, values: Seq::empty() }
            };
            m.insert(
                k,
                ValueModel {
                    values: old.values.push(StepValue { start: row.bucket, value: row.value }),
                    ..old
                },
            )
        }
    }
}

/// The latest step of the rows that are not beyond the limits.
pub open spec fn latest_row(s: Seq<LimitedRow>, max_points: i64, max_series: i64) -> Option<
    Timestamp,
>
    decreases s.len(),
{
    if s.len() == 0 {
        None
    } else {
        let head = latest_row(s.drop_last(), max_points, max_series);
        let row = s.last();
        if beyond(row, max_points, max_series) {
            head
        } else {
            match head {
                Some(t) => if time::earlier(t@, row.bucket@) {
                    Some(row.bucket)
                } else {
                    Some(t)
                },
                None => Some(row.bucket),
            }
        }
    }
}

/// Whether `s` lists the series of `m` in the order of their keys.
pub open spec fn lists_values(s: Seq<ValueSeries>, m: Map<Seq<char>, ValueModel>) -> bool {
    &&& forall|i: int, j: int|
        0 <= i < j < s.len() ==> text::text_lt((#[trigger] s[i]).key@, (#[trigger] s[j]).key@)
    &&& forall|i: int|
        0 <= i < s.len() ==> m.contains_key((#[trigger] s[i]).key@) && m[s[i].key@] == (
        ValueModel { labels: s[i].labels@, values: s[i].values@ })
    &&& forall|k: Seq<char>| #[trigger]
        m.contains_key(k) ==> exists|i: int| 0 <= i < s.len() && (#[trigger] s[i]).key@ == k
}

/// The answer to a query that a database has worked out.
#[derive(Debug)]
pub struct FoldedAnswer {
    pub series: Vec<ValueSeries>,
    pub latest: Option<Timestamp>,
    pub truncated: bool,
}

/// Adds the value of a step to its series.
fn add_value(
    list: &mut Vec<ValueSeries>,
    key: String,
    labels: Json,
    x: StepValue,
    Ghost(m): Ghost<Map<Seq<char>, ValueModel>>,
)
    requires
        lists_values(old(list)@, m),
    ensures
        lists_values(
            final(list)@,
            m.insert(
                key@,
                if m.contains_key(key@) {
                    ValueModel { values: m[key@].values.push(x), ..m[key@] }
                } else {
                    ValueModel { labels: labels@, values: seq![x] }
                },
            ),
        ),
{
    let ghost before = list@;
    let mut k: usize = list.len();
    while k > 0 && comes_before(key.as_str(), list[k - 1].key.as_str())
        invariant
            0 <= k <= list@.len(),
            list@ == before,
            forall|j: int| k <= j < before.len() ==> text::text_lt(key@, (#[trigger] before[j]).key@),
        decreases k,
    {
        k -= 1;
    }
    if k > 0 && same(list[k - 1].key.as_str(), key.as_str()) {
        list[k - 1].values.push(x);
        let ghost now = list@;
        let ghost after = m.insert(
            key@,
            ValueModel { values: m[key@].values.push(x), ..m[key@] },
        );
        proof {
            assert(m.contains_key(before[k - 1].key@));
            assert(forall|j: int|
                0 <= j < now.len() && j != k - 1 ==> #[trigger] now[j] == before[j]);
            assert(now[k - 1].key == before[k - 1].key);
            assert forall|i: int, j: int| 0 <= i < j < now.len() implies text::text_lt(
                (#[trigger] now[i]).key@,
                (#[trigger] now[j]).key@,
            ) by {
                assert(now[i].key@ == before[i].key@ && now[j].key@ == before[j].key@);
            }
            assert forall|i: int| 0 <= i < now.len() implies after.contains_key(
                (#[trigger] now[i]).key@,
            ) && after[now[i].key@] == (ValueModel {
                labels: now[i].labels@,
                values: now[i].values@,
            }) by {
                if i != k - 1 {
                    assert(now[i] == before[i]);
                    if i < k - 1 {
                        assert(text::text_lt(before[i].key@, before[k - 1].key@));
                    } else {
                        assert(text::text_lt(before[k - 1].key@, before[i].key@));
                    }
                    text::lemma_text_lt_total(before[i].key@, key@);
                }
            }
            assert forall|b: Seq<char>| #[trigger] after.contains_key(b) implies exists|i: int|
                0 <= i < now.len() && (#[trigger] now[i]).key@ == b by {
                let i = choose|i: int| 0 <= i < before.len() && (#[trigger] before[i]).key@ == b;
                assert(now[i].key@ == b);
            }
        }
    } else {
        let mut values: Vec<StepValue> = Vec::new();
        values.push(x);
        assert(values@ =~= seq![x]);
        let series = ValueSeries { key, labels, values };
        list.insert(k, series);
        let ghost now = list@;
        let ghost after = m.insert(key@, ValueModel { labels: labels@, values: seq![x] });
        proof {
            assert forall|j: int| 0 <= j < k implies text::text_lt(
                (#[trigger] before[j]).key@,
                key@,
            ) by {
                text::lemma_text_lt_total(key@, before[k - 1].key@);
                if j < k - 1 {
                    assert(text::text_lt(before[j].key@, before[k - 1].key@));
                    text::lemma_text_lt_transitive(before[j].key@, before[k - 1].key@, key@);
                }
            }
            assert forall|j: int| 0 <= j < before.len() implies (#[trigger] before[j]).key@
                != key@ by {
                text::lemma_text_lt_total(key@, before[j].key@);
            }
            assert(!m.contains_key(key@));
            assert(now =~= before.insert(k as int, series));
            assert forall|i: int, j: int| 0 <= i < j < now.len() implies text::text_lt(
                (#[trigger] now[i]).key@,
                (#[trigger] now[j]).key@,
            ) by {
                if i < k && j > k {
                    assert(now[i] == before[i] && now[j] == before[j - 1]);
                } else if j < k {
                    assert(now[i] == before[i] && now[j] == before[j]);
                } else if i > k {
                    assert(now[i] == before[i - 1] && now[j] == before[j - 1]);
                } else if i == k {
                    assert(now[j] == before[j - 1]);
                } else {
                    assert(now[i] == before[i]);
                }
            }
            assert forall|i: int| 0 <= i < now.len() implies after.contains_key(
                (#[trigger] now[i]).key@,
            ) && after[now[i].key@] == (ValueModel {
                labels: now[i].labels@,
                values: now[i].values@,
            }) by {
                if i < k {
                    assert(now[i] == before[i]);
                } else if i > k {
                    assert(now[i] == before[i - 1]);
                }
            }
            assert forall|b: Seq<char>| #[trigger] after.contains_key(b) implies exists|i: int|
                0 <= i < now.len() && (#[trigger] now[i]).key@ == b by {
                if b == key@ {
                    assert(now[k as int].key@ == b);
                } else {
                    let i = choose|i: int|
                        0 <= i < before.len() && (#[trigger] before[i]).key@ == b;
                    if i < k {
                        assert(now[i].key@ == b);
                    } else {
                        assert(now[i + 1].key@ == b);
                    }
                }
            }
        }
    }
}

/// The series of the rows that a database answers with, in the order of their
/// keys.
pub fn fold_limited_rows(
    rows: Vec<LimitedRow>,
    group_by_keys: &Vec<String>,
    max_points: i64,
    max_series: i64,
) -> (r: FoldedAnswer)
    ensures
        lists_values(
            r.series@,
            folded(rows@, text::texts(group_by_keys@), max_points, max_series),
        ),
        r.latest == latest_row(rows@, max_points, max_series),
        r.truncated == exists|i: int|
            0 <= i < rows@.len() && beyond(#[trigger] rows@[i], max_points, max_series),
{
    let ghost all = rows@;
    let ghost keys = text::texts(group_by_keys@);
    let mut series: Vec<ValueSeries> = Vec::new();
    let mut latest: Option<Timestamp> = None;
    let mut truncated = false;
    assert(all.take(0) =~= Seq::<LimitedRow>::empty());
    for row in it: rows
        invariant
            it.seq() == all,
            keys == text::texts(group_by_keys@),
            lists_values(
                series@,
                folded(all.take(it.index() as int), keys, max_points, max_series),
            ),
            latest == latest_row(all.take(it.index() as int), max_points, max_series),
            truncated == exists|i: int|
                0 <= i < it.index() && beyond(#[trigger] all[i], max_points, max_series),
    {
        let ghost i = it.index() as int;
        assert(all.take(i + 1).drop_last() =~= all.take(i));
        assert(all.take(i + 1).last() == row);
        assert(all[i] == row);
        if row.point_rank > max_points || row.series_rank > max_series {
            truncated = true;
            assert(beyond(all[i], max_points, max_series));
        } else {
            latest = match latest {
                Some(prev) => if prev.before(&row.bucket) {
                    Some(row.bucket)
                } else {
                    Some(prev)
                },
                None => Some(row.bucket),
            };
            let key = group_key_from_json(&row.labels, group_by_keys);
            let ghost m = folded(all.take(i), keys, max_points, max_series);
            let x = StepValue { start: row.bucket, value: row.value };
            add_value(&mut series, key, row.labels, x, Ghost(m));
            proof {
                assert(Seq::<StepValue>::empty().push(x) =~= seq![x]);
            }
        }
    }
    assert(all.take(all.len() as int) =~= all);
    FoldedAnswer { series, latest, truncated }
}

/// The rows that are fetched, in their order.
pub open spec fn fetched(s: Seq<LimitedRow>, l: RankLimits) -> Seq<LimitedRow>
    decreases s.len(),
{
    if s.len() == 0 {
        s
    } else {
        let head = fetched(s.drop_last(), l);
        if beyond(s.last(), l.fetched_points, l.fetched_series) {
            head
        } else {
            head.push(s.last())
        }
    }
}

/// Whether a row has these ranks.
pub open spec fn has_ranks(s: Seq<LimitedRow>, point: i64, series: i64) -> bool {
    exists|i: int|
        0 <= i < s.len() && (#[trigger] s[i]).point_rank == point && s[i].series_rank == series
}

/// Whether rows are ranked from one on without a gap: the steps within each series,
/// and the series.
pub open spec fn ranked(s: Seq<LimitedRow>) -> bool {
    forall|i: int, point: i64, series: i64|
        #![trigger s[i], has_ranks(s, point, series)]
        0 <= i < s.len() && 1 <= series <= s[i].series_rank && ((series == s[i].series_rank && 1
            <= point <= s[i].point_rank) || point == 1) ==> has_ranks(s, point, series)
}

/// A row that is not beyond what is fetched is fetched.
proof fn lemma_fetched_row(s: Seq<LimitedRow>, l: RankLimits, i: int)
    requires
        0 <= i < s.len(),
        !beyond(s[i], l.fetched_points, l.fetched_series),
    ensures
        fetched(s, l).contains(s[i]),
    decreases s.len(),
{
    let head = fetched(s.drop_last(), l);
    if i < s.len() - 1 {
        assert(s.drop_last()[i] == s[i]);
        lemma_fetched_row(s.drop_last(), l, i);
        let j = choose|j: int| 0 <= j < head.len() && head[j] == s[i];
        assert(fetched(s, l)[j] == s[i]);
    } else {
        assert(fetched(s, l)[head.len() as int] == s[i]);
    }
}

/// What is fetched is one of the rows.
proof fn lemma_fetched_from(s: Seq<LimitedRow>, l: RankLimits, j: int)
    requires
        0 <= j < fetched(s, l).len(),
    ensures
        s.contains(fetched(s, l)[j]),
    decreases s.len(),
{
    let head = fetched(s.drop_last(), l);
    if j < head.len() {
        lemma_fetched_from(s.drop_last(), l, j);
        let i = choose|i: int| 0 <= i < s.drop_last().len() && s.drop_last()[i] == head[j];
        assert(s[i] == fetched(s, l)[j]);
    } else {
        assert(s[s.len() - 1] == fetched(s, l)[j]);
    }
}

/// What is made of the rows that are shown is made of the rows that are fetched.
proof fn lemma_fetched_folds_alike(s: Seq<LimitedRow>, keys: Seq<Seq<char>>, l: RankLimits)
    requires
        l.max_points <= l.fetched_points,
        l.max_series <= l.fetched_series,
    ensures
        folded(fetched(s, l), keys, l.max_points, l.max_series) == folded(
            s,
            keys,
            l.max_points,
            l.max_series,
        ),
        latest_row(fetched(s, l), l.max_points, l.max_series) == latest_row(
            s,
            l.max_points,
            l.max_series,
        ),
    decreases s.len(),
{
    if s.len() > 0 {
        lemma_fetched_folds_alike(s.drop_last(), keys, l);
        let head = fetched(s.drop_last(), l);
        assert(head.push(s.last()).drop_last() =~= head);
    }
}

/// The rows that are fetched answer for all: they give the same series and the same
/// latest step, and one of them is beyond the limits exactly where one of all is.
pub proof fn lemma_fetched_rows_answer_for_all(
    s: Seq<LimitedRow>,
    keys: Seq<Seq<char>>,
    limits: Limits,
    l: RankLimits,
)
    requires
        ranked(s),
        forall|i: int|
            0 <= i < s.len() ==> (#[trigger] s[i]).point_rank >= 1 && s[i].series_rank >= 1,
        l.max_points == as_rank(limits.max_points as int),
        l.max_series == as_rank(limits.max_series as int),
        l.fetched_points == as_rank(limits.max_points + 1),
        l.fetched_series == as_rank(limits.max_series + 1),
    ensures
        folded(fetched(s, l), keys, l.max_points, l.max_series) == folded(
            s,
            keys,
            l.max_points,
            l.max_series,
        ),
        latest_row(fetched(s, l), l.max_points, l.max_series) == latest_row(
            s,
            l.max_points,
            l.max_series,
        ),
        (exists|j: int|
            0 <= j < fetched(s, l).len() && beyond(
                #[trigger] fetched(s, l)[j],
                l.max_points,
                l.max_series,
            )) == (exists|i: int|
            0 <= i < s.len() && beyond(#[trigger] s[i], l.max_points, l.max_series)),
{
    let f = fetched(s, l);
    lemma_fetched_folds_alike(s, keys, l);
    if exists|j: int| 0 <= j < f.len() && beyond(#[trigger] f[j], l.max_points, l.max_series) {
        let j = choose|j: int|
            0 <= j < f.len() && beyond(#[trigger] f[j], l.max_points, l.max_series);
        lemma_fetched_from(s, l, j);
        let i = choose|i: int| 0 <= i < s.len() && s[i] == f[j];
        assert(beyond(s[i], l.max_points, l.max_series));
    }
    if exists|i: int| 0 <= i < s.len() && beyond(#[trigger] s[i], l.max_points, l.max_series) {
        let i = choose|i: int|
            0 <= i < s.len() && beyond(#[trigger] s[i], l.max_points, l.max_series);
        let (point, series) = if s[i].series_rank > l.max_series {
            (1i64, l.fetched_series)
        } else {
            (l.fetched_points, s[i].series_rank)
        };
        assert(has_ranks(s, point, series));
        let k = choose|k: int|
            0 <= k < s.len() && (#[trigger] s[k]).point_rank == point && s[k].series_rank == series;
        lemma_fetched_row(s, l, k);
        let j = choose|j: int| 0 <= j < f.len() && f[j] == s[k];
        assert(beyond(f[j], l.max_points, l.max_series));
    }
}

}
