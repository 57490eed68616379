//! Metric points: how they are asked for, labelled and written.

use vstd::prelude::*;

use crate::error::ApiError;
use crate::error;
use crate::json::{Json, Members};
use crate::json;
use crate::label_governance::MetricPointIngest;
use crate::labels::{Label, Labels};
use crate::labels;
use crate::memory_db::MemoryDb;
use crate::order::{sort, Ranked};
use crate::order;
use crate::rows;
use crate::rows::MetricRow;
use crate::text::{insert_text, join3, list_items, replace_char, same, to_ascii_lowercase, trim};
use crate::text;
use crate::time;
use crate::time::Timestamp;

verus! {

broadcast use json::lemma_json_view;

/// The metric points that a client sends at once, and its project.
#[derive(Debug)]
pub struct MetricsBatchRequest {
    pub project_id: String,
    pub metrics: Vec<MetricPointIngest>,
}

/// The seconds of a step.
pub open spec fn step_named(s: Seq<char>) -> Option<i64> {
    if s == "1m"@ {
        Some(60)
    } else if s == "5m"@ {
        Some(300)
    } else if s == "1h"@ {
        Some(3600)
    } else if s == "1d"@ {
        Some(86400)
    } else {
        None
    }
}

/// The text of a parameter without the space around it, or what stands for it
/// where it is missing.
pub open spec fn param_or(o: Option<Seq<char>>, other: Seq<char>) -> Seq<char> {
    text::trimmed(
        match o {
            Some(s) => s,
            None => other,
        },
    )
}

/// The seconds of the step that is asked for, a minute where none is.
pub fn parse_step_seconds(step: Option<&str>) -> (r: Result<i64, ApiError>)
    ensures
        match step_named(param_or(text::opt_str(step), "1m"@)) {
            Some(n) => r == Ok::<i64, ApiError>(n),
            None => r matches Err(e) && e@ == error::ErrorModel::BadRequest(
                "invalid step, must be one of: 1m, 5m, 1h, 1d"@,
            ),
        },
        r matches Ok(n) ==> n > 0,
{
    let raw = match step {
        Some(s) => s,
        None => "1m",
    };
    let word = trim(raw);
    let w = word.as_str();
    if same(w, "1m") {
        Ok(60)
    } else if same(w, "5m") {
        Ok(300)
    } else if same(w, "1h") {
        Ok(3600)
    } else if same(w, "1d") {
        Ok(86400)
    } else {
        Err(ApiError::BadRequest("invalid step, must be one of: 1m, 5m, 1h, 1d".to_owned()))
    }
}

/// Whether a word names a way to make one value of many.
pub open spec fn is_agg(s: Seq<char>) -> bool {
    ||| s == "avg"@
    ||| s == "max"@
    ||| s == "min"@
    ||| s == "sum"@
    ||| s == "last"@
    ||| s == "count"@
    ||| s == "p50"@
    ||| s == "p90"@
    ||| s == "p99"@
}

/// The way to make one value of many that is asked for, the average where none
/// is.
pub fn parse_agg(agg: Option<&str>) -> (r: Result<&'static str, ApiError>)
    ensures
        ({
            let word = text::lowered(param_or(text::opt_str(agg), "avg"@));
            if is_agg(word) {
                r matches Ok(name) && name@ == word
            } else {
                r matches Err(e) && e@ == error::ErrorModel::BadRequest(
                    "invalid agg, must be one of: avg, max, min, sum, last, count, p50, p90, p99"@,
                )
            }
        }),
{
    let raw = match agg {
        Some(s) => s,
        None => "avg",
    };
    let word = to_ascii_lowercase(trim(raw).as_str());
    let w = word.as_str();
    if same(w, "avg") {
        Ok("avg")
    } else if same(w, "max") {
        Ok("max")
    } else if same(w, "min") {
        Ok("min")
    } else if same(w, "sum") {
        Ok("sum")
    } else if same(w, "last") {
        Ok("last")
    } else if same(w, "count") {
        Ok("count")
    } else if same(w, "p50") {
        Ok("p50")
    } else if same(w, "p90") {
        Ok("p90")
    } else if same(w, "p99") {
        Ok("p99")
    } else {
        Err(
            ApiError::BadRequest(
                "invalid agg, must be one of: avg, max, min, sum, last, count, p50, p90, p99".to_owned(),
            ),
        )
    }
}

/// The label keys to group by, in the order in which they are listed.
pub open spec fn group_keys(raw: Option<Seq<char>>) -> Seq<Seq<char>> {
    match raw {
        Some(s) => text::items_of(s),
        None => Seq::empty(),
    }
}

/// The label keys to group by, in the order in which they are listed.
pub fn parse_group_by_keys(group_by: Option<&str>) -> (r: Vec<String>)
    ensures
        text::texts(r@) == group_keys(text::opt_str(group_by)),
{
    match group_by {
        Some(s) => list_items(s),
        None => {
            let none: Vec<String> = Vec::new();
            assert(text::texts(none@) =~= Seq::<Seq<char>>::empty());
            none
        },
    }
}

/// A text as a literal of SQL: in single quotes, those in it doubled.
pub open spec fn sql_literal(s: Seq<char>) -> Seq<char> {
    "'"@ + text::replaced_char(s, '\'', "''"@) + "'"@
}

/// A text as a literal of SQL.
pub fn sql_string_literal(value: &str) -> (r: String)
    ensures
        r@ == sql_literal(value@),
{
    join3("'", replace_char(value, '\'', "''").as_str(), "'")
}

/// What SQL reads from within a literal on: two single quotes are one that
/// belongs to the text, and one alone ends it. Nothing may follow that end.
pub open spec fn literal_rest(s: Seq<char>) -> Option<Seq<char>>
    decreases s.len(),
{
    if s.len() == 0 {
        None
    } else if s[0] != '\'' {
        match literal_rest(s.skip(1)) {
            Some(v) => Some(seq![s[0]] + v),
            None => None,
        }
    } else if s.len() == 1 {
        Some(Seq::empty())
    } else if s[1] == '\'' {
        match literal_rest(s.skip(2)) {
            Some(v) => Some(seq!['\''] + v),
            None => None,
        }
    } else {
        None
    }
}

/// The text that a literal of SQL stands for, if it is one and nothing else.
pub open spec fn literal_value(s: Seq<char>) -> Option<Seq<char>> {
    if s.len() > 0 && s[0] == '\'' {
        literal_rest(s.skip(1))
    } else {
        None
    }
}

/// Whatever a text holds, SQL reads it back from its literal, which ends where
/// the text does.
pub proof fn lemma_sql_literal_read_back(value: Seq<char>)
    ensures
        literal_value(sql_literal(value)) == Some(value),
{
    reveal_strlit("'");
    reveal_strlit("''");
    let body = text::replaced_char(value, '\'', "''"@);
    lemma_literal_rest(value, "'"@);
    assert(sql_literal(value).skip(1) =~= body + "'"@);
    assert(literal_rest("'"@) == Some(Seq::<char>::empty()));
    assert(value + Seq::<char>::empty() =~= value);
}

/// Doubled quotes are read back whatever follows.
proof fn lemma_literal_rest(value: Seq<char>, tail: Seq<char>)
    ensures
        literal_rest(text::replaced_char(value, '\'', "''"@) + tail) == match literal_rest(tail) {
            Some(v) => Some(value + v),
            None => None,
        },
    decreases value.len(),
{
    reveal_strlit("''");
    let body = text::replaced_char(value, '\'', "''"@);
    if value.len() == 0 {
        assert(body + tail =~= tail);
        if literal_rest(tail) is Some {
            assert(value + literal_rest(tail)->0 =~= literal_rest(tail)->0);
        }
    } else {
        let head = value.drop_last();
        let c = value.last();
        let mark = if c == '\'' {
            "''"@
        } else {
            seq![c]
        };
        let longer = mark + tail;
        lemma_literal_rest(head, longer);
        assert(body + tail =~= text::replaced_char(head, '\'', "''"@) + longer);
        assert(longer.skip(mark.len() as int) =~= tail);
        if literal_rest(tail) is Some {
            let v = literal_rest(tail)->0;
            assert(head + (seq![c] + v) =~= value + v);
        }
    }
}

/// The JSON object of labels, in the order of their keys.
pub open spec fn labels_json(s: Seq<Label>) -> json::JsonModel {
    json::JsonModel::Object(
        order::sorted(s).map_values(
            |l: Label| (l.key@, json::JsonModel::Text(l.value@)),
        ),
    )
}

/// The JSON object of labels.
pub fn labels_to_json(labels: Labels) -> (r: Json)
    ensures
        r@ == labels_json(labels@),
{
    let pairs = labels.into_pairs();
    proof {
        labels::lemma_sorted_distinct(pairs@);
        order::lemma_sorted_in_order(pairs@);
    }
    let by_key = sort(pairs);
    let ghost all = by_key@;
    let ghost want = all.map_values(|l: Label| (l.key@, json::JsonModel::Text(l.value@)));
    let mut members = Members::new();
    assert(want.take(0) =~= Seq::<(Seq<char>, json::JsonModel)>::empty());
    for label in it: by_key
        invariant
            it.seq() == all,
            order::in_order(all),
            labels::distinct_keys(all),
            want == all.map_values(|l: Label| (l.key@, json::JsonModel::Text(l.value@))),
            members@ == want.take(it.index() as int),
    {
        let ghost i = it.index() as int;
        let ghost before = members@;
        assert(want.take(i + 1) =~= want.take(i).push(want[i]));
        proof {
            if i > 0 {
                assert(!all[i].before(&all[i - 1]));
                assert(all[i - 1].key@ != all[i].key@);
                assert(before.last() == want[i - 1]);
            }
        }
        members.insert(label.key, Json::Text(label.value));
    }
    assert(want.take(want.len() as int) =~= want);
    Json::Object(members)
}

/// The value that labels give for a key, null where they give none.
pub open spec fn group_value(labels: json::JsonModel, key: Seq<char>) -> json::JsonModel {
    match labels {
        json::JsonModel::Object(m) => match json::member_value(m, key) {
            Some(v) => v,
            None => json::JsonModel::Null,
        },
        _ => json::JsonModel::Null,
    }
}

/// The object that holds of labels the keys to group by.
pub open spec fn picked_members(labels: json::JsonModel, keys: Seq<Seq<char>>) -> Seq<
    (Seq<char>, json::JsonModel),
>
    decreases keys.len(),
{
    if keys.len() == 0 {
        Seq::empty()
    } else {
        json::with_member(
            picked_members(labels, keys.drop_last()),
            keys.last(),
            group_value(labels, keys.last()),
        )
    }
}

/// The labels of the series to which labels belong: all of them, or of them the
/// keys to group by.
pub open spec fn series_labels(
    labels: json::JsonModel,
    keys: Seq<Seq<char>>,
) -> json::JsonModel {
    if keys.len() == 0 {
        labels
    } else {
        json::JsonModel::Object(picked_members(labels, keys))
    }
}

/// The keys to group by, each with the value that labels give for it.
pub open spec fn group_pairs(labels: json::JsonModel, keys: Seq<Seq<char>>) -> json::JsonModel {
    json::JsonModel::Array(
        keys.map_values(
            |k: Seq<char>|
                json::JsonModel::Array(seq![json::JsonModel::Text(k), group_value(labels, k)]),
        ),
    )
}

/// The key of the series to which labels belong: the text of all labels, or of
/// the keys to group by with their values.
pub open spec fn series_key(labels: json::JsonModel, keys: Seq<Seq<char>>) -> Seq<char> {
    if keys.len() == 0 {
        json::json_text(labels)
    } else {
        json::json_text(group_pairs(labels, keys))
    }
}

/// The value that labels give for a key, null where they give none.
fn value_for(labels: &Json, key: &str) -> (r: Json)
    ensures
        r@ == group_value(labels@, key@),
{
    match labels {
        Json::Object(m) => match m.get(key) {
            Some(v) => v.copy(),
            None => Json::Null,
        },
        _ => Json::Null,
    }
}

/// The key of the series to which labels belong.
pub fn group_key_from_json(labels: &Json, group_by_keys: &Vec<String>) -> (r: String)
    ensures
        r@ == series_key(labels@, text::texts(group_by_keys@)),
{
    if group_by_keys.len() == 0 {
        return labels.to_text();
    }
    let ghost keys = text::texts(group_by_keys@);
    let ghost want = group_pairs(labels@, keys)->Array_0;
    let mut pairs: Vec<Json> = Vec::new();
    let mut i: usize = 0;
    while i < group_by_keys.len()
        invariant
            0 <= i <= group_by_keys@.len(),
            keys == text::texts(group_by_keys@),
            want == group_pairs(labels@, keys)->Array_0,
            json::models(pairs@) =~= want.take(i as int),
        decreases group_by_keys.len() - i,
    {
        let key = &group_by_keys[i];
        let mut pair: Vec<Json> = Vec::new();
        pair.push(Json::Text(key.clone()));
        pair.push(value_for(labels, key.as_str()));
        assert(json::models(pair@) =~= seq![
            json::JsonModel::Text(keys[i as int]),
            group_value(labels@, keys[i as int]),
        ]);
        let ghost before = pairs@;
        let item = Json::Array(pair);
        assert(item@ == want[i as int]);
        pairs.push(item);
        i += 1;
        assert(json::models(pairs@) =~= json::models(before).push(item@));
        assert(want.take(i as int) =~= want.take(i - 1).push(want[i - 1]));
    }
    assert(want.take(want.len() as int) =~= want);
    let list = Json::Array(pairs);
    assert(list@ == group_pairs(labels@, keys));
    list.to_text()
}

/// The labels and the key of the series to which labels belong.
pub fn labels_and_group_key_from_json(labels: &Json, group_by_keys: &Vec<String>) -> (r: (
    Json,
    String,
))
    ensures
        r.0@ == series_labels(labels@, text::texts(group_by_keys@)),
        r.1@ == series_key(labels@, text::texts(group_by_keys@)),
{
    if group_by_keys.len() == 0 {
        return (labels.copy(), labels.to_text());
    }
    let ghost keys = text::texts(group_by_keys@);
    let mut members = Members::new();
    let mut i: usize = 0;
    assert(keys.take(0) =~= Seq::<Seq<char>>::empty());
    while i < group_by_keys.len()
        invariant
            0 <= i <= group_by_keys@.len(),
            keys == text::texts(group_by_keys@),
            members@ == picked_members(labels@, keys.take(i as int)),
        decreases group_by_keys.len() - i,
    {
        assert(keys.take(i + 1).drop_last() =~= keys.take(i as int));
        assert(keys.take(i + 1).last() == keys[i as int]);
        let key = &group_by_keys[i];
        members.insert(key.clone(), value_for(labels, key.as_str()));
        i += 1;
    }
    assert(keys.take(keys.len() as int) =~= keys);
    (Json::Object(members), group_key_from_json(labels, group_by_keys))
}

/// The row of a metric point that is written at `now`.
pub open spec fn metric_row(p: MetricPointIngest, project: Seq<char>, now: Timestamp) -> rows::MetricModel {
    rows::MetricModel {
        project_id: project,
        environment: "default"@,
        name: p.name@,
        labels: labels_json(p.labels@),
        value: p.value,
        timestamp: p.timestamp,
        created_at: now,
    }
}

/// The rows of batches of metric points, in their order.
pub open spec fn metric_rows(s: Seq<MetricsBatchRequest>, now: Timestamp) -> Seq<rows::MetricModel>
    decreases s.len(),
{
    if s.len() == 0 {
        Seq::empty()
    } else {
        metric_rows(s.drop_last(), now) + s.last().metrics@.map_values(
            |p: MetricPointIngest| metric_row(p, s.last().project_id@, now),
        )
    }
}

/// The rows of batches of metric points that are written at `now`.
pub fn prepare_metrics(payloads: Vec<MetricsBatchRequest>, now: &Timestamp) -> (r: Vec<MetricRow>)
    ensures
        rows::metric_models(r@) == metric_rows(payloads@, *now),
{
    let ghost all = payloads@;
    let mut out: Vec<MetricRow> = Vec::new();
    assert(all.take(0) =~= Seq::<MetricsBatchRequest>::empty());
    assert(rows::metric_models(out@) =~= Seq::<rows::MetricModel>::empty());
    for payload in it: payloads
        invariant
            it.seq() == all,
            rows::metric_models(out@) == metric_rows(all.take(it.index() as int), *now),
    {
        let ghost k = it.index() as int;
        assert(all.take(k + 1).drop_last() =~= all.take(k));
        assert(all.take(k + 1).last() == payload);
        let project_id = payload.project_id;
        let ghost points = payload.metrics@;
        let ghost want = points.map_values(
            |p: MetricPointIngest| metric_row(p, payload.project_id@, *now),
        );
        let ghost earlier = rows::metric_models(out@);
        assert(want.take(0) =~= Seq::<rows::MetricModel>::empty());
        assert(earlier + want.take(0) =~= earlier);
        for point in it2: payload.metrics
            invariant
                it2.seq() == points,
                project_id@ == payload.project_id@,
                want == points.map_values(
                    |p: MetricPointIngest| metric_row(p, payload.project_id@, *now),
                ),
                rows::metric_models(out@) == earlier + want.take(it2.index() as int),
        {
            let ghost i = it2.index() as int;
            let ghost before = out@;
            let row = MetricRow {
                project_id: project_id.clone(),
                environment: "default".to_owned(),
                name: point.name,
                labels: labels_to_json(point.labels),
                value: point.value,
                timestamp: point.timestamp,
                created_at: *now,
            };
            assert(row@ == want[i]);
            out.push(row);
            assert(rows::metric_models(out@) =~= rows::metric_models(before).push(row@));
            assert(want.take(i + 1) =~= want.take(i).push(want[i]));
            assert(earlier + want.take(i + 1) =~= (earlier + want.take(i)).push(want[i]));
        }
        assert(want.take(want.len() as int) =~= want);
    }
    assert(all.take(all.len() as int) =~= all);
    out
}

/// Writes batches of metric points to a store in memory, at `now`: behind the
/// points that there are.
pub fn write_metrics_at(db: &mut MemoryDb, payloads: Vec<MetricsBatchRequest>, now: &Timestamp)
    requires
        old(db).wf(),
    ensures
        final(db).wf(),
        final(db).same_but_metrics(*old(db)),
        appended(old(db).metrics(), final(db).metrics(), metric_rows(payloads@, *now)),
{
    let rows = prepare_metrics(payloads, now);
    let ghost new = rows@;
    let ghost there = db.metrics();
    assert(there + new.take(0) =~= there);
    for row in it: rows
        invariant
            it.seq() == new,
            db.wf(),
            db.same_but_metrics(*old(db)),
            db.metrics() == there + new.take(it.index() as int),
    {
        let ghost i = it.index() as int;
        db.push_metric(row);
        assert(there + new.take(i + 1) =~= (there + new.take(i)).push(row));
    }
    assert(new.take(new.len() as int) =~= new);
    assert(db.metrics().skip(there.len() as int) =~= new);
    assert(db.metrics().take(there.len() as int) =~= there);
}

/// Whether `after` is `before` and behind it rows with the views `new`.
pub open spec fn appended(
    before: Seq<MetricRow>,
    after: Seq<MetricRow>,
    new: Seq<rows::MetricModel>,
) -> bool {
    &&& after.len() == before.len() + new.len()
    &&& after.take(before.len() as int) == before
    &&& rows::metric_models(after.skip(before.len() as int)) == new
}

/// Writes batches of metric points to a store in memory, at the instant of the
/// system clock.
pub fn write_metrics_batches(db: &mut MemoryDb, payloads: Vec<MetricsBatchRequest>)
    requires
        old(db).wf(),
    ensures
        final(db).wf(),
        final(db).same_but_metrics(*old(db)),
        exists|now: Timestamp|
            time::on_clock(now@) && appended(
                old(db).metrics(),
                final(db).metrics(),
                #[trigger] metric_rows(payloads@, now),
            ),
{
    let now = Timestamp::now();
    write_metrics_at(db, payloads, &now);
}

/// Whether a metric point belongs to a project and its default environment.
pub open spec fn is_of_project(m: MetricRow, project: Seq<char>) -> bool {
    m.project_id@ == project && m.environment@ == "default"@
}

/// The names of the metrics of a project, in their order, none twice.
pub fn metric_names(metrics: &Vec<MetricRow>, project_id: &str) -> (r: Vec<String>)
    ensures
        text::ascending(text::texts(r@)),
        forall|n: Seq<char>| #[trigger]
            text::texts(r@).contains(n) <==> exists|i: int|
                #![trigger metrics@[i]]
                0 <= i < metrics@.len() && is_of_project(metrics@[i], project_id@)
                    && metrics@[i].name@ == n,
{
    let mut out: Vec<String> = Vec::new();
    let mut i: usize = 0;
    while i < metrics.len()
        invariant
            0 <= i <= metrics@.len(),
            text::ascending(text::texts(out@)),
            forall|n: Seq<char>| #[trigger]
                text::texts(out@).contains(n) <==> exists|j: int|
                    #![trigger metrics@[j]]
                    0 <= j < i && is_of_project(metrics@[j], project_id@) && metrics@[j].name@
                        == n,
        decreases metrics.len() - i,
    {
        let m = &metrics[i];
        let ghost before = text::texts(out@);
        if same(m.project_id.as_str(), project_id) && same(m.environment.as_str(), "default") {
            insert_text(&mut out, m.name.as_str());
            assert(is_of_project(metrics@[i as int], project_id@));
        }
        assert forall|n: Seq<char>| #[trigger] text::texts(out@).contains(n) <==> exists|j: int|
            #![trigger metrics@[j]]
            0 <= j < i + 1 && is_of_project(metrics@[j], project_id@) && metrics@[j].name@ == n by {
            if before.contains(n) {
                let j = choose|j: int|
                    #![trigger metrics@[j]]
                    0 <= j < i && is_of_project(metrics@[j], project_id@) && metrics@[j].name@ == n;
                assert(0 <= j < i + 1 && metrics@[j].name@ == n);
            }
            if text::texts(out@).contains(n) && !before.contains(n) {
                assert(metrics@[i as int].name@ == n);
            }
            if exists|j: int|
                #![trigger metrics@[j]]
                0 <= j < i + 1 && is_of_project(metrics@[j], project_id@) && metrics@[j].name@
                    == n {
                let j = choose|j: int|
                    #![trigger metrics@[j]]
                    0 <= j < i + 1 && is_of_project(metrics@[j], project_id@) && metrics@[j].name@
                        == n;
                if j < i {
                    assert(before.contains(n));
                }
            }
        }
        i += 1;
    }
    out
}

}
