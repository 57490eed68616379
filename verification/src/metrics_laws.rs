//! How metric points are asked for, labelled and written.

use vstd::prelude::*;

use crate::json;
use crate::label_governance::MetricPointIngest;
use crate::labels;
use crate::labels::Label;
use crate::metrics;
use crate::metrics::MetricsBatchRequest;
use crate::order;
use crate::order::Ranked;
use crate::rows;
use crate::rows::MetricRow;
use crate::text;
use crate::text_laws;
use crate::time::Timestamp;

verus! {

/// The seconds of a unit of time, by its letter.
pub open spec fn unit_seconds(c: char) -> int {
    if c == 'm' {
        60
    } else if c == 'h' {
        3600
    } else if c == 'd' {
        86400
    } else {
        0
    }
}

/// A step is named by a digit and the letter of a unit, and lasts as many times the
/// unit as the digit says; a minute, five minutes, an hour and a day are those that
/// there are.
pub proof fn lemma_step_names(s: Seq<char>)
    ensures
        metrics::step_named(s) matches Some(n) ==> s.len() == 2 && '1' <= s[0] <= '9' && n == (s[0] as int
            - '0' as int) * unit_seconds(s[1]) && n > 0,
        metrics::step_named(s) is Some <==> s == seq!['1', 'm'] || s == seq!['5', 'm'] || s == seq![
            '1',
            'h',
        ] || s == seq!['1', 'd'],
{
    reveal_strlit("1m");
    reveal_strlit("5m");
    reveal_strlit("1h");
    reveal_strlit("1d");
    assert("1m"@ =~= seq!['1', 'm']);
    assert("5m"@ =~= seq!['5', 'm']);
    assert("1h"@ =~= seq!['1', 'h']);
    assert("1d"@ =~= seq!['1', 'd']);
}

/// The names of the aggregations.
pub open spec fn agg_names() -> Seq<Seq<char>> {
    seq!["avg"@, "max"@, "min"@, "sum"@, "last"@, "count"@, "p50"@, "p90"@, "p99"@]
}

/// A word names an aggregation if and only if it is one of their names.
pub proof fn lemma_agg_names(s: Seq<char>)
    ensures
        metrics::is_agg(s) <==> agg_names().contains(s),
{
    let n = agg_names();
    assert(n[0] == "avg"@ && n[1] == "max"@ && n[2] == "min"@ && n[3] == "sum"@ && n[4] == "last"@
        && n[5] == "count"@ && n[6] == "p50"@ && n[7] == "p90"@ && n[8] == "p99"@);
}

/// A parameter that is given counts without the space around it, and one that is not
/// counts as what stands for it.
pub proof fn lemma_params(s: Seq<char>, other: Seq<char>)
    ensures
        metrics::param_or(Some(s), other) == text::trimmed(s),
        metrics::param_or(None, other) == text::trimmed(other),
{
}

/// The members of an object have different keys, so each is found under its own.
proof fn lemma_member_found(m: Seq<(Seq<char>, json::JsonModel)>, i: int)
    requires
        0 <= i < m.len(),
        forall|a: int, b: int| 0 <= a < b < m.len() ==> (#[trigger] m[a]).0 != (#[trigger] m[b]).0,
    ensures
        json::member_value(m, m[i].0) == Some(m[i].1),
    decreases m.len(),
{
    if i > 0 {
        let rest = m.drop_first();
        assert(m[0].0 != m[i].0);
        assert forall|a: int, b: int| 0 <= a < b < rest.len() implies (#[trigger] rest[a]).0 != (
        #[trigger] rest[b]).0 by {
            assert(rest[a] == m[a + 1] && rest[b] == m[b + 1]);
        }
        assert(rest[i - 1] == m[i]);
        lemma_member_found(rest, i - 1);
    }
}

proof fn lemma_no_member(m: Seq<(Seq<char>, json::JsonModel)>, k: Seq<char>)
    requires
        forall|a: int| 0 <= a < m.len() ==> (#[trigger] m[a]).0 != k,
    ensures
        json::member_value(m, k) is None,
    decreases m.len(),
{
    if m.len() > 0 {
        assert(m[0].0 != k);
        assert forall|a: int| 0 <= a < m.drop_first().len() implies (
        #[trigger] m.drop_first()[a]).0 != k by {
            assert(m.drop_first()[a] == m[a + 1]);
        }
        lemma_no_member(m.drop_first(), k);
    }
}

/// The JSON object of labels has a member for each label, with its value as text, and
/// no others.
pub proof fn lemma_labels_as_json(s: Seq<Label>, key: Seq<char>)
    requires
        labels::distinct_keys(s),
    ensures
        ({
            let j = metrics::labels_json(s);
            &&& j is Object
            &&& j->Object_0.len() == s.len()
            &&& forall|i: int|
                0 <= i < s.len() ==> json::member_value(j->Object_0, (#[trigger] s[i]).key@)
                    == Some(json::JsonModel::Text(s[i].value@))
            &&& (forall|i: int| 0 <= i < s.len() ==> (#[trigger] s[i]).key@ != key)
                ==> json::member_value(j->Object_0, key) is None
            &&& forall|a: int, b: int|
                0 <= a < b < j->Object_0.len() ==> text::text_lt(
                    (#[trigger] j->Object_0[a]).0,
                    (#[trigger] j->Object_0[b]).0,
                )
        }),
{
    broadcast use vstd::seq_lib::group_to_multiset_ensures;

    let t = order::sorted(s);
    let m = metrics::labels_json(s)->Object_0;
    labels::lemma_sorted_distinct(s);
    order::lemma_sorted_same_items(s);
    order::lemma_sorted_in_order(s);
    assert forall|a: int, b: int| 0 <= a < b < m.len() implies (#[trigger] m[a]).0 != (
    #[trigger] m[b]).0 && text::text_lt(m[a].0, m[b].0) by {
        assert(t[a].key@ != t[b].key@);
        assert(!t[b].before(&t[a]));
        text::lemma_text_lt_total(t[a].key@, t[b].key@);
    }
    assert forall|i: int| 0 <= i < s.len() implies json::member_value(m, (#[trigger] s[i]).key@)
        == Some(json::JsonModel::Text(s[i].value@)) by {
        assert(s.contains(s[i]));
        assert(s.to_multiset().count(s[i]) > 0);
        assert(t.to_multiset().count(s[i]) > 0);
        assert(t.contains(s[i]));
        let n = choose|n: int| 0 <= n < t.len() && t[n] == s[i];
        assert(m[n] == (s[i].key@, json::JsonModel::Text(s[i].value@)));
        lemma_member_found(m, n);
    }
    if forall|i: int| 0 <= i < s.len() ==> (#[trigger] s[i]).key@ != key {
        assert forall|a: int| 0 <= a < m.len() implies (#[trigger] m[a]).0 != key by {
            assert(t.contains(t[a]));
            assert(t.to_multiset().count(t[a]) > 0);
            assert(s.to_multiset().count(t[a]) > 0);
            assert(s.contains(t[a]));
            let i = choose|i: int| 0 <= i < s.len() && s[i] == t[a];
            assert(s[i].key@ != key);
        }
        lemma_no_member(m, key);
    }
}

/// What labels give for a key to group by: the value that they have for it, and null
/// where they have none or are no object.
pub proof fn lemma_group_values(l: json::JsonModel, key: Seq<char>)
    ensures
        l matches json::JsonModel::Object(m) ==> (json::member_value(m, key) matches Some(v)
            ==> metrics::group_value(l, key) == v),
        l matches json::JsonModel::Object(m) ==> (json::member_value(m, key) is None
            ==> metrics::group_value(l, key) == json::JsonModel::Null),
        !(l is Object) ==> metrics::group_value(l, key) == json::JsonModel::Null,
{
}

/// The key of a series is the text of a list of pairs, one for each key to group by
/// and in their order: the key, and what the labels give for it. Without keys to
/// group by it is the text of the labels.
pub proof fn lemma_series_keys(l: json::JsonModel, keys: Seq<Seq<char>>, pairs: Seq<json::JsonModel>)
    requires
        pairs.len() == keys.len(),
        forall|i: int|
            0 <= i < keys.len() ==> #[trigger] pairs[i] == json::JsonModel::Array(
                seq![json::JsonModel::Text(keys[i]), metrics::group_value(l, keys[i])],
            ),
    ensures
        keys.len() > 0 ==> metrics::series_key(l, keys) == json::json_text(
            json::JsonModel::Array(pairs),
        ),
        keys.len() == 0 ==> metrics::series_key(l, keys) == json::json_text(l),
{
    assert(metrics::group_pairs(l, keys)->Array_0 =~= pairs);
}

/// Putting a member at its place changes what there is under its key, and under no
/// other.
pub proof fn lemma_member_put(
    s: Seq<(Seq<char>, json::JsonModel)>,
    key: Seq<char>,
    value: json::JsonModel,
    other: Seq<char>,
)
    requires
        json::keys_ascend(s),
    ensures
        json::member_value(json::with_member(s, key, value), key) == Some(value),
        other != key ==> json::member_value(json::with_member(s, key, value), other)
            == json::member_value(s, other),
        json::keys_ascend(json::with_member(s, key, value)),
{
    let r = json::with_member(s, key, value);
    json::lemma_with_member_ascends(s, key, value);
    lemma_ascending_keys_differ(r);
    lemma_ascending_keys_differ(s);
    lemma_member_among(s, key, value);
    let n = choose|n: int| 0 <= n < r.len() && #[trigger] r[n] == (key, value);
    lemma_member_found(r, n);
    if other != key {
        if exists|i: int| 0 <= i < s.len() && (#[trigger] s[i]).0 == other {
            let i = choose|i: int| 0 <= i < s.len() && (#[trigger] s[i]).0 == other;
            lemma_member_found(s, i);
            let m = choose|m: int| 0 <= m < r.len() && #[trigger] r[m] == s[i];
            lemma_member_found(r, m);
        } else {
            lemma_no_member(s, other);
            assert forall|a: int| 0 <= a < r.len() implies (#[trigger] r[a]).0 != other by {
                if r[a].0 == other {
                    let j = choose|j: int| 0 <= j < s.len() && (#[trigger] s[j]).0 == r[a].0;
                    assert(s[j].0 == other);
                }
            }
            lemma_no_member(r, other);
        }
    }
}

proof fn lemma_ascending_keys_differ(s: Seq<(Seq<char>, json::JsonModel)>)
    requires
        json::keys_ascend(s),
    ensures
        forall|a: int, b: int| 0 <= a < b < s.len() ==> (#[trigger] s[a]).0 != (#[trigger] s[b]).0,
{
    assert forall|a: int, b: int| 0 <= a < b < s.len() implies (#[trigger] s[a]).0 != (
    #[trigger] s[b]).0 by {
        text::lemma_text_lt_total(s[a].0, s[b].0);
    }
}

/// A member that is put at its place is there, and so is every other.
proof fn lemma_member_among(
    s: Seq<(Seq<char>, json::JsonModel)>,
    key: Seq<char>,
    value: json::JsonModel,
)
    ensures
        exists|n: int|
            0 <= n < json::with_member(s, key, value).len() && #[trigger] json::with_member(
                s,
                key,
                value,
            )[n] == (key, value),
        forall|i: int|
            0 <= i < s.len() && (#[trigger] s[i]).0 != key ==> exists|m: int|
                0 <= m < json::with_member(s, key, value).len() && #[trigger] json::with_member(
                    s,
                    key,
                    value,
                )[m] == s[i],
    decreases s.len(),
{
    let r = json::with_member(s, key, value);
    if s.len() > 0 && text::text_lt(key, s.last().0) {
        let head = s.drop_last();
        lemma_member_among(head, key, value);
        let h = json::with_member(head, key, value);
        let n = choose|n: int| 0 <= n < h.len() && #[trigger] h[n] == (key, value);
        assert(r[n] == (key, value));
        assert forall|i: int| 0 <= i < s.len() && (#[trigger] s[i]).0 != key implies exists|m: int|
            0 <= m < r.len() && #[trigger] r[m] == s[i] by {
            if i < head.len() {
                assert(head[i] == s[i]);
                let m = choose|m: int| 0 <= m < h.len() && #[trigger] h[m] == head[i];
                assert(r[m] == s[i]);
            } else {
                assert(r[h.len() as int] == s[i]);
            }
        }
    } else {
        assert(r[r.len() - 1] == (key, value));
        assert forall|i: int| 0 <= i < s.len() && (#[trigger] s[i]).0 != key implies exists|m: int|
            0 <= m < r.len() && #[trigger] r[m] == s[i] by {
            assert(r[i] == s[i]);
        }
    }
}

/// The labels of a series that is grouped by keys hold each of these keys, with what
/// the labels of its points give for it, and no other.
pub proof fn lemma_series_labels(l: json::JsonModel, keys: Seq<Seq<char>>, key: Seq<char>)
    ensures
        keys.len() == 0 ==> metrics::series_labels(l, keys) == l,
        keys.len() > 0 ==> {
            let s = metrics::series_labels(l, keys);
            &&& s is Object
            &&& json::keys_ascend(s->Object_0)
            &&& keys.contains(key) ==> json::member_value(s->Object_0, key) == Some(
                metrics::group_value(l, key),
            )
            &&& !keys.contains(key) ==> json::member_value(s->Object_0, key) is None
        },
{
    lemma_picked(l, keys, key);
}

proof fn lemma_picked(l: json::JsonModel, keys: Seq<Seq<char>>, key: Seq<char>)
    ensures
        json::keys_ascend(metrics::picked_members(l, keys)),
        keys.contains(key) ==> json::member_value(metrics::picked_members(l, keys), key) == Some(
            metrics::group_value(l, key),
        ),
        !keys.contains(key) ==> json::member_value(metrics::picked_members(l, keys), key) is None,
    decreases keys.len(),
{
    if keys.len() > 0 {
        let head = keys.drop_last();
        let k = keys.last();
        lemma_picked(l, head, key);
        lemma_member_put(
            metrics::picked_members(l, head),
            k,
            metrics::group_value(l, k),
            key,
        );
        assert(keys[keys.len() - 1] == k);
        if head.contains(key) {
            let i = choose|i: int| 0 <= i < head.len() && head[i] == key;
            assert(keys[i] == key);
        }
        if keys.contains(key) && key != k {
            let i = choose|i: int| 0 <= i < keys.len() && keys[i] == key;
            assert(head[i] == key);
        }
    }
}

/// Whether a row holds a metric point as it was sent, for the project of its sender
/// and the default environment.
pub open spec fn holds_point(
    row: rows::MetricModel,
    p: MetricPointIngest,
    project: Seq<char>,
    now: Timestamp,
) -> bool {
    &&& row.project_id == project
    &&& row.environment == "default"@
    &&& row.name == p.name@
    &&& row.value == p.value
    &&& row.timestamp == p.timestamp
    &&& row.created_at == now
    &&& row.labels == metrics::labels_json(p.labels@)
}

/// Every metric point of a batch becomes one row, in their order.
pub proof fn lemma_rows_of_one_batch(b: MetricsBatchRequest, now: Timestamp)
    ensures
        ({
            let r = metrics::metric_rows(seq![b], now);
            &&& r.len() == b.metrics@.len()
            &&& forall|i: int|
                0 <= i < r.len() ==> holds_point(
                    #[trigger] r[i],
                    b.metrics@[i],
                    b.project_id@,
                    now,
                )
        }),
{
    let one = seq![b];
    assert(one.drop_last() =~= Seq::<MetricsBatchRequest>::empty());
    assert(one.last() == b);
    assert(metrics::metric_rows(Seq::empty(), now).len() == 0);
}

/// The rows of two lists of batches are those of the one and behind them those of the
/// other.
pub proof fn lemma_rows_joined(
    a: Seq<MetricsBatchRequest>,
    b: Seq<MetricsBatchRequest>,
    now: Timestamp,
)
    ensures
        metrics::metric_rows(a + b, now) == metrics::metric_rows(a, now) + metrics::metric_rows(
            b,
            now,
        ),
    decreases b.len(),
{
    if b.len() == 0 {
        assert(a + b =~= a);
        assert(metrics::metric_rows(a, now) + metrics::metric_rows(b, now)
            =~= metrics::metric_rows(a, now));
    } else {
        lemma_rows_joined(a, b.drop_last(), now);
        assert((a + b).drop_last() =~= a + b.drop_last());
        assert((a + b).last() == b.last());
        assert(metrics::metric_rows(a + b, now) =~= metrics::metric_rows(a, now)
            + metrics::metric_rows(b, now));
    }
}

/// A write keeps the points that there were, and puts the new ones behind them.
pub proof fn lemma_points_appended(
    before: Seq<MetricRow>,
    after: Seq<MetricRow>,
    new: Seq<rows::MetricModel>,
)
    requires
        metrics::appended(before, after, new),
    ensures
        after.len() == before.len() + new.len(),
        forall|i: int| 0 <= i < before.len() ==> after[i] == #[trigger] before[i],
        forall|i: int| 0 <= i < new.len() ==> after[before.len() + i]@ == #[trigger] new[i],
{
    assert forall|i: int| 0 <= i < before.len() implies after[i] == #[trigger] before[i] by {
        assert(after.take(before.len() as int)[i] == after[i]);
    }
    assert forall|i: int| 0 <= i < new.len() implies after[before.len() + i]@
        == #[trigger] new[i] by {
        assert(rows::metric_models(after.skip(before.len() as int))[i] == after[before.len()
            + i]@);
    }
}

/// A point belongs to a project if it was written for it, and to its default
/// environment.
pub proof fn lemma_points_of_project(m: MetricRow, project: Seq<char>)
    ensures
        metrics::is_of_project(m, project) <==> m.project_id@ == project && m.environment@
            == "default"@,
{
}

/// The keys to group by are what stands between the commas, without the space around
/// it, and what is blank is left out; without a parameter there are none.
pub proof fn lemma_keys_between_commas(a: Seq<char>, b: Seq<char>)
    ensures
        metrics::group_keys(None) == Seq::<Seq<char>>::empty(),
        metrics::group_keys(Some(a + seq![','] + b)) == metrics::group_keys(Some(a))
            + metrics::group_keys(Some(b)),
        !a.contains(',') && text::trimmed(a).len() > 0 ==> metrics::group_keys(Some(a)) == seq![
            text::trimmed(a),
        ],
        !a.contains(',') && text::trimmed(a).len() == 0 ==> metrics::group_keys(Some(a)) == Seq::<
            Seq<char>,
        >::empty(),
{
    text_laws::lemma_items_joined(a, b);
}

/// A text without a single quote stands between single quotes as it is; each single
/// quote in a text is written twice.
pub proof fn lemma_quotes_doubled(a: Seq<char>, b: Seq<char>)
    requires
        !a.contains('\''),
    ensures
        metrics::sql_literal(a) == "'"@ + a + "'"@,
        metrics::sql_literal(a + seq!['\''] + b) == "'"@ + a + "''"@ + metrics::sql_literal(
            b,
        ).skip(1),
{
    reveal_strlit("'");
    reveal_strlit("''");
    lemma_nothing_to_replace(a);
    let quote = seq!['\''];
    let body = text::replaced_char(b, '\'', "''"@);
    text_laws::lemma_char_replaced(a + quote, b, '\'', '\'', "''"@);
    text_laws::lemma_char_replaced(a, quote, '\'', '\'', "''"@);
    assert(metrics::sql_literal(b).skip(1) == body + "'"@);
    assert(metrics::sql_literal(a + quote + b) == "'"@ + ((a + "''"@) + body) + "'"@);
}

/// Where there is no single quote, none is replaced.
proof fn lemma_nothing_to_replace(a: Seq<char>)
    requires
        !a.contains('\''),
    ensures
        text::replaced_char(a, '\'', "''"@) == a,
    decreases a.len(),
{
    if a.len() > 0 {
        assert(a.last() != '\'');
        assert forall|i: int| 0 <= i < a.len() - 1 implies a.drop_last()[i] != '\'' by {
            assert(a.drop_last()[i] == a[i]);
        }
        lemma_nothing_to_replace(a.drop_last());
        assert(a.drop_last().push(a.last()) == a);
    }
}

}
