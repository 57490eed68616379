//! What a query of metric points selects, and what its answer tells.

use vstd::prelude::*;

use crate::error;
use crate::json;
use crate::json_read;
use crate::metrics;
use crate::metrics_query;
use crate::metrics_query::{
    Bucket, LimitedRow, Limits, QueryAnswer, QueryRequest, Sample, Selection, Series, StepValue, ValueSeries, Window,
};
use crate::rows::MetricRow;
use crate::text;
use crate::time;
use crate::time::Timestamp;

verus! {

/// The points that a query asks for: those of its project, in the default
/// environment, of its name, inside its window, both ends included, and with the
/// labels that its filter holds.
pub open spec fn asked_for(q: Selection) -> spec_fn(MetricRow) -> bool {
    |m: MetricRow|
        {
            &&& m.project_id@ == q.project_id@
            &&& m.environment@ == "default"@
            &&& m.name@ == q.name@
            &&& time::ticks(q.window.from@) <= time::ticks(m.timestamp@) <= time::ticks(
                q.window.to@,
            )
            &&& q.labels_filter is Some ==> json::holds(m.labels@, q.labels_filter->0@)
        }
}

/// Whether instants are in the calendar.
pub open spec fn in_time(q: Selection, s: Seq<MetricRow>) -> bool {
    &&& time::valid_instant(q.window.from@.0, q.window.from@.1)
    &&& time::valid_instant(q.window.to@.0, q.window.to@.1)
    &&& forall|i: int|
        0 <= i < s.len() ==> time::valid_instant(
            (#[trigger] s[i]).timestamp@.0,
            s[i].timestamp@.1,
        )
}

/// A query selects exactly the points that it asks for, in their order.
pub proof fn lemma_selection_is_what_is_asked_for(q: Selection, s: Seq<MetricRow>)
    requires
        in_time(q, s),
    ensures
        metrics_query::selection(q, s) == s.filter(asked_for(q)),
    decreases s.len(),
{
    reveal(Seq::filter);
    if s.len() > 0 {
        assert forall|i: int| 0 <= i < s.drop_last().len() implies #[trigger] s.drop_last()[i]
            == s[i] by {}
        lemma_selection_is_what_is_asked_for(q, s.drop_last());
        assert(s[s.len() - 1] == s.last());
        time::lemma_earlier_counts(s.last().timestamp@, q.window.from@);
        time::lemma_earlier_counts(q.window.to@, s.last().timestamp@);
    }
}

/// Labels hold a filter that is an object if and only if they are an object that has
/// each of its members, with an equal value; and any other filter if and only if they
/// equal it.
pub proof fn lemma_labels_hold_filter(
    target: Seq<(Seq<char>, json::JsonModel)>,
    filter: Seq<(Seq<char>, json::JsonModel)>,
    other: json::JsonModel,
)
    ensures
        json::holds(json::JsonModel::Object(target), json::JsonModel::Object(filter)) <==> forall|
            i: int,
        |
            #![trigger filter[i]]
            0 <= i < filter.len() ==> json::member_value(target, filter[i].0) is Some
                && json::json_eq(json::member_value(target, filter[i].0)->0, filter[i].1),
        !(other is Object) ==> json::holds(other, json::JsonModel::Object(filter)) == false,
        !(other is Object) ==> json::holds(json::JsonModel::Object(target), other) == false,
{
}

/// Without members a filter is held by every object, and with one more it is held by
/// no more of them.
pub proof fn lemma_filter_narrows(
    target: Seq<(Seq<char>, json::JsonModel)>,
    filter: Seq<(Seq<char>, json::JsonModel)>,
    k: Seq<char>,
    v: json::JsonModel,
)
    ensures
        json::holds(json::JsonModel::Object(target), json::JsonModel::Object(Seq::empty())),
        json::holds(json::JsonModel::Object(target), json::JsonModel::Object(filter.push((k, v))))
            <==> json::holds(json::JsonModel::Object(target), json::JsonModel::Object(filter))
            && json::holds(
            json::JsonModel::Object(target),
            json::JsonModel::Object(seq![(k, v)]),
        ),
{
    let more = filter.push((k, v));
    let one = seq![(k, v)];
    assert(more[filter.len() as int] == (k, v));
    assert(one[0] == (k, v));
    assert forall|i: int| 0 <= i < filter.len() implies #[trigger] filter[i] == more[i] by {}
    if json::holds(json::JsonModel::Object(target), json::JsonModel::Object(filter)) && json::holds(
        json::JsonModel::Object(target),
        json::JsonModel::Object(one),
    ) {
        assert forall|i: int| #![trigger more[i]] 0 <= i < more.len() implies (json::member_value(
            target,
            more[i].0,
        ) matches Some(u) && json::json_eq(u, more[i].1)) by {
            if i < filter.len() {
                assert(filter[i] == more[i]);
            }
        }
    }
}

/// Equal values are of the same kind; texts and truth values are equal where they are
/// the same, and every value equals itself.
pub proof fn lemma_equal_values(a: json::JsonModel, b: json::JsonModel)
    ensures
        json::json_eq(a, a),
        a is Text && b is Text ==> (json::json_eq(a, b) <==> a->Text_0 == b->Text_0),
        a is Bool && b is Bool ==> (json::json_eq(a, b) <==> a->Bool_0 == b->Bool_0),
        json::json_eq(a, b) ==> (a is Text <==> b is Text) && (a is Bool <==> b is Bool) && (
        a is Number <==> b is Number) && (a is Null <==> b is Null) && (a is Array <==> b is Array)
            && (a is Object <==> b is Object),
        a is Array && b is Array && json::json_eq(a, b) ==> a->Array_0.len() == b->Array_0.len(),
    decreases a,
{
    match a {
        json::JsonModel::Array(s) => {
            assert forall|i: int| #![trigger s[i]] 0 <= i < s.len() implies json::json_eq(
                s[i],
                s[i],
            ) by {
                assert(decreases_to!(a => a->Array_0));
                assert(decreases_to!(a->Array_0 => a->Array_0[i]));
                lemma_equal_values(s[i], s[i]);
            }
        },
        json::JsonModel::Object(s) => {
            assert forall|i: int| #![trigger s[i]] 0 <= i < s.len() implies s[i].0 == s[i].0
                && json::json_eq(s[i].1, s[i].1) by {
                assert(decreases_to!(a => a->Object_0));
                assert(decreases_to!(a->Object_0 => a->Object_0[i]));
                assert(decreases_to!(a->Object_0[i] => a->Object_0[i].1));
                lemma_equal_values(s[i].1, s[i].1);
            }
        },
        _ => {},
    }
}

/// The step that a point falls into starts at a multiple of the length of a step, not
/// further from the point than that, and on the side of the epoch.
pub proof fn lemma_point_in_step(m: MetricRow, step: int)
    requires
        step > 0,
    ensures
        ({
            let b = metrics_query::bucket_of(m, step);
            let t = m.timestamp@.0;
            &&& b.1 == 0
            &&& b.0 % step == 0
            &&& t >= 0 ==> b.0 <= t < b.0 + step
            &&& t < 0 ==> b.0 - step < t <= b.0
        }),
{
    time::lemma_bucket_bounds(m.timestamp@.0, step);
}

/// Whether a point belongs to a series and falls into a step.
pub open spec fn falls_into(
    keys: Seq<Seq<char>>,
    step: int,
    k: Seq<char>,
    start: (int, int),
) -> spec_fn(MetricRow) -> bool {
    |m: MetricRow|
        {
            let t = m.timestamp@.0;
            &&& metrics::series_key(m.labels@, keys) == k
            &&& start.1 == 0
            &&& start.0 % step == 0
            &&& t >= 0 ==> start.0 <= t < start.0 + step
            &&& t < 0 ==> start.0 - step < t <= start.0
        }
}

/// What a point contributes to a step.
pub open spec fn as_sample() -> spec_fn(MetricRow) -> Sample {
    |m: MetricRow| Sample { value: m.value, timestamp: m.timestamp }
}

/// A step of a series holds the values and instants of the points that belong to the
/// series and fall into the step, in their order; there is one wherever there is such
/// a point, and nowhere else.
pub proof fn lemma_step_holds_its_points(
    s: Seq<MetricRow>,
    keys: Seq<Seq<char>>,
    step: int,
    k: Seq<char>,
    start: (int, int),
)
    requires
        step > 0,
    ensures
        ({
            let m = metrics_query::grouped(s, keys, step);
            let own = s.filter(falls_into(keys, step, k, start));
            &&& (m.contains_key(k) && m[k].buckets.contains_key(start)) <==> own.len() > 0
            &&& own.len() > 0 ==> m[k].buckets[start] == own.map_values(as_sample())
        }),
    decreases s.len(),
{
    reveal(Seq::filter);
    if s.len() > 0 {
        let row = s.last();
        let head = s.drop_last();
        lemma_step_holds_its_points(head, keys, step, k, start);
        lemma_point_in_step(row, step);
        let f = falls_into(keys, step, k, start);
        assert(f(row) <==> metrics::series_key(row.labels@, keys) == k && metrics_query::bucket_of(
            row,
            step,
        ) == start) by {
            let b = metrics_query::bucket_of(row, step);
            if f(row) {
                lemma_one_multiple(b.0, start.0, step, row.timestamp@.0);
            }
        }
        let own = s.filter(f);
        let before = head.filter(f);
        if f(row) {
            assert(own.map_values(as_sample()) =~= before.map_values(as_sample()).push(
                as_sample()(row),
            ));
            if before.len() == 0 {
                assert(before.map_values(as_sample()) =~= Seq::<Sample>::empty());
            }
        }
    }
}

/// Of the multiples of a step one alone is the start of the step of an instant.
proof fn lemma_one_multiple(a: int, b: int, step: int, t: int)
    requires
        step > 0,
        a % step == 0,
        b % step == 0,
        t >= 0 ==> a <= t < a + step && b <= t < b + step,
        t < 0 ==> a - step < t <= a && b - step < t <= b,
    ensures
        a == b,
{
    let p = a / step;
    let q = b / step;
    vstd::arithmetic::div_mod::lemma_fundamental_div_mod(a, step);
    vstd::arithmetic::div_mod::lemma_fundamental_div_mod(b, step);
    assert(p == q) by (nonlinear_arith)
        requires
            step > 0,
            a == step * p,
            b == step * q,
            -step < a - b < step,
    ;
}

/// A series has the labels that its first point has for the keys to group by.
pub proof fn lemma_series_has_labels_of_first(
    s: Seq<MetricRow>,
    keys: Seq<Seq<char>>,
    step: int,
    i: int,
)
    requires
        0 <= i < s.len(),
        forall|j: int|
            0 <= j < i ==> metrics::series_key((#[trigger] s[j]).labels@, keys)
                != metrics::series_key(s[i].labels@, keys),
    ensures
        ({
            let m = metrics_query::grouped(s, keys, step);
            let k = metrics::series_key(s[i].labels@, keys);
            m.contains_key(k) && m[k].labels == metrics::series_labels(s[i].labels@, keys)
        }),
    decreases s.len(),
{
    let head = s.drop_last();
    let k = metrics::series_key(s[i].labels@, keys);
    if i < head.len() {
        assert(head[i] == s[i]);
        assert forall|j: int| 0 <= j < i implies metrics::series_key(
            (#[trigger] head[j]).labels@,
            keys,
        ) != metrics::series_key(head[i].labels@, keys) by {
            assert(head[j] == s[j]);
        }
        lemma_series_has_labels_of_first(head, keys, step, i);
    } else {
        assert(s.last() == s[i]);
        assert forall|j: int| 0 <= j < head.len() implies metrics::series_key(
            (#[trigger] head[j]).labels@,
            keys,
        ) != k by {
            assert(head[j] == s[j]);
        }
        lemma_no_series(head, keys, step, k);
    }
}

proof fn lemma_no_series(s: Seq<MetricRow>, keys: Seq<Seq<char>>, step: int, k: Seq<char>)
    requires
        forall|j: int|
            0 <= j < s.len() ==> metrics::series_key((#[trigger] s[j]).labels@, keys) != k,
    ensures
        !metrics_query::grouped(s, keys, step).contains_key(k),
    decreases s.len(),
{
    if s.len() > 0 {
        assert(s[s.len() - 1] == s.last());
        assert forall|j: int| 0 <= j < s.drop_last().len() implies metrics::series_key(
            (#[trigger] s.drop_last()[j]).labels@,
            keys,
        ) != k by {
            assert(s.drop_last()[j] == s[j]);
        }
        lemma_no_series(s.drop_last(), keys, step, k);
    }
}

/// The sample that counts as the last is the one of the latest instant, and of those
/// of that instant the one that came last.
pub proof fn lemma_last_sample_is_last(s: Seq<Sample>)
    requires
        s.len() > 0,
    ensures
        exists|i: int|
            0 <= i < s.len() && metrics_query::last_sample(s) == Some(#[trigger] s[i]) && (forall|
                j: int,
            |
                0 <= j < s.len() ==> !time::earlier(
                    s[i].timestamp@,
                    (#[trigger] s[j]).timestamp@,
                )) && (forall|j: int|
                i < j < s.len() ==> time::earlier(
                    (#[trigger] s[j]).timestamp@,
                    s[i].timestamp@,
                )),
        metrics_query::last_sample(Seq::empty()) is None,
    decreases s.len(),
{
    let head = s.drop_last();
    assert(s[s.len() - 1] == s.last());
    if s.len() == 1 {
        assert(metrics_query::last_sample(head) is None);
        assert(metrics_query::last_sample(s) == Some(s[0]));
    } else {
        lemma_last_sample_is_last(head);
        let i = choose|i: int|
            0 <= i < head.len() && metrics_query::last_sample(head) == Some(#[trigger] head[i]) && (
            forall|j: int|
                0 <= j < head.len() ==> !time::earlier(
                    head[i].timestamp@,
                    (#[trigger] head[j]).timestamp@,
                )) && (forall|j: int|
                i < j < head.len() ==> time::earlier(
                    (#[trigger] head[j]).timestamp@,
                    head[i].timestamp@,
                ));
        assert(s[i] == head[i]);
        assert forall|j: int| 0 <= j < head.len() implies #[trigger] s[j] == head[j] by {}
        if time::earlier(s.last().timestamp@, head[i].timestamp@) {
            assert(metrics_query::last_sample(s) == Some(s[i]));
            assert forall|j: int| i < j < s.len() implies time::earlier(
                (#[trigger] s[j]).timestamp@,
                s[i].timestamp@,
            ) by {
                if j < head.len() {
                    assert(s[j] == head[j]);
                }
            }
        } else {
            let n = s.len() - 1;
            assert(metrics_query::last_sample(s) == Some(s[n]));
            assert forall|j: int| 0 <= j < s.len() implies !time::earlier(
                s[n].timestamp@,
                (#[trigger] s[j]).timestamp@,
            ) by {
                if j < head.len() {
                    assert(s[j] == head[j]);
                }
            }
        }
    }
}

/// An answer shows the first series, as many as allowed, and of each the first steps,
/// as many as allowed; it says that something is missing if and only if something is;
/// and it names the latest of the steps that it shows.
pub proof fn lemma_answer_shows_the_first(all: Seq<Series>, limits: Limits, a: QueryAnswer)
    requires
        metrics_query::is_answer(all, limits, a),
    ensures
        a.series@.len() == (if all.len() < limits.max_series {
            all.len() as int
        } else {
            limits.max_series as int
        }),
        forall|i: int|
            0 <= i < a.series@.len() ==> {
                let shown = #[trigger] a.series@[i];
                let whole = all[i];
                &&& shown.key == whole.key
                &&& shown.labels == whole.labels
                &&& shown.buckets@.len() == (if whole.buckets@.len() < limits.max_points {
                    whole.buckets@.len() as int
                } else {
                    limits.max_points as int
                })
                &&& forall|j: int|
                    0 <= j < shown.buckets@.len() ==> #[trigger] shown.buckets@[j]
                        == whole.buckets@[j]
            },
        a.truncated <==> a.series@.len() < all.len() || exists|i: int|
            0 <= i < a.series@.len() && (#[trigger] a.series@[i]).buckets@.len()
                < all[i].buckets@.len(),
        a.latest is None ==> forall|i: int|
            0 <= i < a.series@.len() ==> (#[trigger] a.series@[i]).buckets@.len() == 0,
        a.latest matches Some(t) ==> {
            &&& exists|i: int, j: int|
                0 <= i < a.series@.len() && 0 <= j < a.series@[i].buckets@.len() && (
                #[trigger] a.series@[i].buckets@[j]).start == t
            &&& forall|i: int, j: int|
                0 <= i < a.series@.len() && 0 <= j < a.series@[i].buckets@.len()
                    ==> !time::earlier(t@, (#[trigger] a.series@[i].buckets@[j]).start@)
        },
{
    let kept = metrics_query::first_of(all, limits.max_series);
    assert forall|i: int| 0 <= i < a.series@.len() implies ({
        let shown = #[trigger] a.series@[i];
        let whole = all[i];
        &&& shown.key == whole.key
        &&& shown.labels == whole.labels
        &&& shown.buckets@.len() == (if whole.buckets@.len() < limits.max_points {
            whole.buckets@.len() as int
        } else {
            limits.max_points as int
        })
        &&& forall|j: int|
            0 <= j < shown.buckets@.len() ==> #[trigger] shown.buckets@[j] == whole.buckets@[j]
    }) by {
        assert(kept[i] == all[i]);
        assert(metrics_query::is_cut(kept[i], limits.max_points, a.series@[i]));
    }
    if metrics_query::too_long(kept, limits.max_points) {
        let i = choose|i: int|
            0 <= i < kept.len() && (#[trigger] kept[i]).buckets@.len() > limits.max_points;
        assert(a.series@[i].buckets@.len() < all[i].buckets@.len());
    }
    if exists|i: int|
        0 <= i < a.series@.len() && (#[trigger] a.series@[i]).buckets@.len()
            < all[i].buckets@.len() {
        let i = choose|i: int|
            0 <= i < a.series@.len() && (#[trigger] a.series@[i]).buckets@.len()
                < all[i].buckets@.len();
        assert(kept[i] == all[i]);
        assert(kept[i].buckets@.len() > limits.max_points);
    }
}

/// The rows of a series that are shown: those whose ranks are within the limits.
pub open spec fn shown_of(
    keys: Seq<Seq<char>>,
    max_points: i64,
    max_series: i64,
    k: Seq<char>,
) -> spec_fn(LimitedRow) -> bool {
    |r: LimitedRow|
        r.point_rank <= max_points && r.series_rank <= max_series && metrics::series_key(
            r.labels@,
            keys,
        ) == k
}

/// What a row says of its step.
pub open spec fn as_value() -> spec_fn(LimitedRow) -> StepValue {
    |r: LimitedRow| StepValue { start: r.bucket, value: r.value }
}

/// A series of an answer from a database has the values of its rows that are shown,
/// in their order, and there is one wherever there is such a row, and nowhere else.
pub proof fn lemma_folded_series(
    s: Seq<LimitedRow>,
    keys: Seq<Seq<char>>,
    max_points: i64,
    max_series: i64,
    k: Seq<char>,
)
    ensures
        ({
            let m = metrics_query::folded(s, keys, max_points, max_series);
            let own = s.filter(shown_of(keys, max_points, max_series, k));
            &&& m.contains_key(k) <==> own.len() > 0
            &&& own.len() > 0 ==> m[k].values == own.map_values(as_value()) && m[k].labels
                == own[0].labels@
        }),
    decreases s.len(),
{
    reveal(Seq::filter);
    if s.len() > 0 {
        let head = s.drop_last();
        lemma_folded_series(head, keys, max_points, max_series, k);
        let f = shown_of(keys, max_points, max_series, k);
        let before = head.filter(f);
        let own = s.filter(f);
        if f(s.last()) {
            assert(own.map_values(as_value()) =~= before.map_values(as_value()).push(
                as_value()(s.last()),
            ));
            if before.len() == 0 {
                assert(before.map_values(as_value()) =~= Seq::<StepValue>::empty());
            } else {
                assert(own[0] == before[0]);
            }
        }
    }
}

/// The latest step of an answer from a database is that of a row that is shown, and
/// none that is shown is later; there is one wherever a row is shown.
pub proof fn lemma_latest_row(s: Seq<LimitedRow>, max_points: i64, max_series: i64)
    ensures
        metrics_query::latest_row(s, max_points, max_series) is Some <==> exists|i: int|
            0 <= i < s.len() && (#[trigger] s[i]).point_rank <= max_points && s[i].series_rank
                <= max_series,
        metrics_query::latest_row(s, max_points, max_series) matches Some(t) ==> {
            &&& exists|i: int|
                0 <= i < s.len() && (#[trigger] s[i]).point_rank <= max_points && s[i].series_rank
                    <= max_series && s[i].bucket == t
            &&& forall|i: int|
                0 <= i < s.len() && (#[trigger] s[i]).point_rank <= max_points && s[i].series_rank
                    <= max_series ==> !time::earlier(t@, s[i].bucket@)
        },
    decreases s.len(),
{
    if s.len() > 0 {
        let head = s.drop_last();
        lemma_latest_row(head, max_points, max_series);
        assert(s[s.len() - 1] == s.last());
        assert forall|i: int| 0 <= i < head.len() implies #[trigger] s[i] == head[i] by {}
        let before = metrics_query::latest_row(head, max_points, max_series);
        if before is Some {
            let i = choose|i: int|
                0 <= i < head.len() && (#[trigger] head[i]).point_rank <= max_points
                    && head[i].series_rank <= max_series && head[i].bucket == before->0;
            assert(s[i] == head[i]);
        }
        assert forall|i: int|
            0 <= i < s.len() && i < s.len() - 1 && (#[trigger] s[i]).point_rank <= max_points
                && s[i].series_rank <= max_series implies before is Some && !time::earlier(
            before->0@,
            s[i].bucket@,
        ) by {
            assert(head[i] == s[i]);
        }
    }
}

/// A row is left out of an answer if its step or its series ranks beyond the limit.
pub proof fn lemma_beyond(r: LimitedRow, max_points: i64, max_series: i64)
    ensures
        metrics_query::beyond(r, max_points, max_series) <==> !(r.point_rank <= max_points
            && r.series_rank <= max_series),
{
}

/// A number is its own rank, unless it is greater than any rank.
pub proof fn lemma_ranks(n: int)
    ensures
        n <= i64::MAX ==> metrics_query::as_rank(n) == n,
        n > i64::MAX ==> metrics_query::as_rank(n) == i64::MAX,
{
}

/// The end of a query is the one that it names, and now where it names none.
pub proof fn lemma_window_end(t: Timestamp, now: Timestamp)
    ensures
        metrics_query::window_end(Some(t), now) == t,
        metrics_query::window_end(None, now) == now,
{
}

/// Why a query is refused: its window, if it starts after its end; else its step, if it
/// is none of those that there are; else its aggregation, if it is none of those that
/// there are; else its labels filter, if it cannot be read. Otherwise it is not
/// refused.
pub proof fn lemma_query_refusals(
    q: QueryRequest,
    filter_error: Option<error::ErrorModel>,
    now: Timestamp,
)
    ensures
        ({
            let end = if q.to is Some {
                q.to->0
            } else {
                now
            };
            let step = text::trimmed(
                if q.step is Some {
                    q.step->0@
                } else {
                    "1m"@
                },
            );
            let agg = text::lowered(
                text::trimmed(
                    if q.agg is Some {
                        q.agg->0@
                    } else {
                        "avg"@
                    },
                ),
            );
            let backwards = q.from is Some && time::earlier(end@, q.from->0@);
            let good_step = step == "1m"@ || step == "5m"@ || step == "1h"@ || step == "1d"@;
            let r = metrics_query::query_refusal(q, filter_error, now);
            &&& backwards ==> r == Some(error::ErrorModel::BadRequest("from must be <= to"@))
            &&& !backwards && !good_step ==> r == Some(
                error::ErrorModel::BadRequest("invalid step, must be one of: 1m, 5m, 1h, 1d"@),
            )
            &&& !backwards && good_step && !metrics::is_agg(agg) ==> r == Some(
                error::ErrorModel::BadRequest(
                    "invalid agg, must be one of: avg, max, min, sum, last, count, p50, p90, p99"@,
                ),
            )
            &&& !backwards && good_step && metrics::is_agg(agg) ==> r == filter_error
        }),
{
}

/// A plan keeps what a query asks for: its project, its name, its window, its step, its
/// aggregation, its labels filter and its keys to group by.
pub proof fn lemma_plan_keeps_the_query(
    p: metrics_query::QueryPlan,
    q: QueryRequest,
    filter: Option<json::JsonModel>,
    now: Timestamp,
)
    requires
        metrics_query::is_plan(p, q, filter, now),
    ensures
        p.selection.project_id@ == q.project_id@,
        p.selection.name@ == q.name@,
        q.to is Some ==> p.selection.window.to == q.to->0,
        q.to is None ==> p.selection.window.to == now,
        q.from is Some ==> p.selection.window.from == q.from->0,
        q.from is None && p.selection.window.to@.1 < time::NANOS_PER_SECOND
            ==> p.selection.window.from@ == (
            p.selection.window.to@.0 - 3600,
            p.selection.window.to@.1,
        ),
        filter is Some <==> p.selection.labels_filter is Some,
        filter is Some ==> p.selection.labels_filter->0@ == filter->0,
        q.step is None ==> p.selection.step_seconds == 60,
        q.agg is None ==> p.agg@ == text::lowered(text::trimmed("avg"@)),
        q.agg is Some ==> p.agg@ == text::lowered(text::trimmed(q.agg->0@)),
        q.step is Some ==> metrics::step_named(text::trimmed(q.step->0@)) == Some(
            p.selection.step_seconds,
        ),
{
    reveal_strlit("1m");
    let m = "1m"@;
    assert(text::trimmed(m) == m) by {
        reveal_with_fuel(text::trim_start, 3);
        reveal_with_fuel(text::trim_end, 3);
    }
}

/// A window holds an instant if it is neither before its start nor after its end.
pub proof fn lemma_window_holds(w: Window, t: Timestamp)
    requires
        time::valid_instant(w.from@.0, w.from@.1),
        time::valid_instant(w.to@.0, w.to@.1),
        time::valid_instant(t@.0, t@.1),
    ensures
        metrics_query::within(w, t) <==> time::ticks(w.from@) <= time::ticks(t@) <= time::ticks(
            w.to@,
        ),
{
    time::lemma_earlier_counts(t@, w.from@);
    time::lemma_earlier_counts(w.to@, t@);
}

/// The steps of a series come in the order of time; there is one for each instant
/// at which a step starts that holds samples, with those samples, and no other.
pub proof fn lemma_steps_listed(
    s: Seq<Bucket>,
    m: Map<(int, int), Seq<Sample>>,
    b: (int, int),
    i: int,
    j: int,
)
    requires
        metrics_query::lists_buckets(s, m),
        0 <= i < s.len(),
    ensures
        m.contains_key(s[i].start@),
        m[s[i].start@] == s[i].samples@,
        i < j < s.len() ==> time::earlier(s[i].start@, s[j].start@),
        m.contains_key(b) <==> exists|k: int| 0 <= k < s.len() && (#[trigger] s[k]).start@ == b,
{
}

/// The series come in the order of their keys; there is one for each key, with its
/// labels and its steps, and no other.
pub proof fn lemma_series_listed(
    s: Seq<Series>,
    m: Map<Seq<char>, metrics_query::SeriesModel>,
    key: Seq<char>,
    i: int,
    j: int,
)
    requires
        metrics_query::lists_series(s, m),
        0 <= i < s.len(),
    ensures
        m.contains_key(s[i].key@),
        s[i].labels@ == m[s[i].key@].labels,
        metrics_query::lists_buckets(s[i].buckets@, m[s[i].key@].buckets),
        i < j < s.len() ==> text::text_lt(s[i].key@, s[j].key@),
        m.contains_key(key) <==> exists|k: int| 0 <= k < s.len() && (#[trigger] s[k]).key@ == key,
{
    assert(metrics_query::is_series(s[i], m[s[i].key@]));
}

/// The series that a database has worked out are listed in the order of their keys,
/// each once, with its labels and its values, and no other.
pub proof fn lemma_values_listed(
    s: Seq<ValueSeries>,
    m: Map<Seq<char>, metrics_query::ValueModel>,
    key: Seq<char>,
    i: int,
    j: int,
)
    requires
        metrics_query::lists_values(s, m),
        0 <= i < s.len(),
    ensures
        m.contains_key(s[i].key@),
        s[i].labels@ == m[s[i].key@].labels,
        s[i].values@ == m[s[i].key@].values,
        i < j < s.len() ==> text::text_lt(s[i].key@, s[j].key@),
        m.contains_key(key) <==> exists|k: int| 0 <= k < s.len() && (#[trigger] s[k]).key@ == key,
{
}

/// A labels filter that is missing or blank filters nothing; any other is the JSON
/// value that it is the text of, or is refused with the reason why it is none.
pub proof fn lemma_filter_read(s: Seq<char>)
    ensures
        metrics_query::filter_in(None) == Ok::<Option<json::JsonModel>, error::ErrorModel>(None),
        text::trimmed(s).len() == 0 ==> metrics_query::filter_in(Some(s)) == Ok::<
            Option<json::JsonModel>,
            error::ErrorModel,
        >(None),
        text::trimmed(s).len() > 0 ==> (json_read::json_in(s) matches Ok(m)
            ==> metrics_query::filter_in(Some(s)) == Ok::<
            Option<json::JsonModel>,
            error::ErrorModel,
        >(Some(m))),
        text::trimmed(s).len() > 0 ==> (json_read::json_in(s) matches Err(e)
            ==> metrics_query::filter_in(Some(s)) == Err::<
            Option<json::JsonModel>,
            error::ErrorModel,
        >(error::ErrorModel::BadRequest("invalid labels json: "@ + e))),
{
}

}
