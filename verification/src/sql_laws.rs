//! What the statements that are sent to a database say.

use vstd::prelude::*;

use crate::metrics;
use crate::sql;
use crate::sql::{DailyConditions, Slot};
use crate::text;

verus! {

/// Different aggregations have different expressions.
pub proof fn lemma_expressions_differ(a: Seq<char>, b: Seq<char>)
    requires
        metrics::is_agg(a),
        metrics::is_agg(b),
        a != b,
    ensures
        sql::agg_sql(a) != sql::agg_sql(b),
{
    sql::lemma_agg_names_differ();
    reveal_strlit("AVG(value)::DOUBLE PRECISION");
    reveal_strlit("MAX(value)::DOUBLE PRECISION");
    reveal_strlit("MIN(value)::DOUBLE PRECISION");
    reveal_strlit("SUM(value)::DOUBLE PRECISION");
    reveal_strlit("COUNT(value)::DOUBLE PRECISION");
    reveal_strlit("(ARRAY_AGG(value ORDER BY timestamp DESC))[1]::DOUBLE PRECISION");
    reveal_strlit("(percentile_cont(0.5) WITHIN GROUP (ORDER BY value))::DOUBLE PRECISION");
    reveal_strlit("(percentile_cont(0.9) WITHIN GROUP (ORDER BY value))::DOUBLE PRECISION");
    reveal_strlit("(percentile_cont(0.99) WITHIN GROUP (ORDER BY value))::DOUBLE PRECISION");
    let x = sql::agg_sql(a);
    let y = sql::agg_sql(b);
    assert(x.len() != y.len() || x[0] != y[0] || x[1] != y[1] || x[19] != y[19]);
}

/// Whether a word has one or two letters, of either case, in the places of another.
pub open spec fn spells(upper: Seq<char>, lower: Seq<char>) -> bool {
    &&& upper.len() >= lower.len()
    &&& forall|i: int|
        0 <= i < lower.len() ==> text::lower_char(#[trigger] upper[i]) == lower[i]
}

/// The average, the greatest, the smallest, the sum and the number of values are
/// calculated by the function of SQL that has the name of the aggregation, in upper
/// case, applied to the value.
pub proof fn lemma_expression_calls_by_name(agg: Seq<char>)
    requires
        agg == "avg"@ || agg == "max"@ || agg == "min"@ || agg == "sum"@ || agg == "count"@,
    ensures
        spells(sql::agg_sql(agg), agg),
        sql::agg_sql(agg).skip(agg.len() as int) == "(value)::DOUBLE PRECISION"@,
        forall|i: int| 0 <= i < agg.len() ==> 'A' <= #[trigger] sql::agg_sql(agg)[i] <= 'Z',
{
    sql::lemma_agg_names_differ();
    reveal_strlit("avg");
    reveal_strlit("max");
    reveal_strlit("min");
    reveal_strlit("sum");
    reveal_strlit("count");
    reveal_strlit("(value)::DOUBLE PRECISION");
    reveal_strlit("AVG(value)::DOUBLE PRECISION");
    reveal_strlit("MAX(value)::DOUBLE PRECISION");
    reveal_strlit("MIN(value)::DOUBLE PRECISION");
    reveal_strlit("SUM(value)::DOUBLE PRECISION");
    reveal_strlit("COUNT(value)::DOUBLE PRECISION");
    assert(sql::agg_sql(agg).skip(agg.len() as int) =~= "(value)::DOUBLE PRECISION"@);
}

/// A percentile is asked for as the part of one that its name tells in hundredths.
pub proof fn lemma_percentile_by_name(agg: Seq<char>)
    requires
        agg == "p50"@ || agg == "p90"@ || agg == "p99"@,
    ensures
        ({
            let e = sql::agg_sql(agg);
            &&& e.take(19) == "(percentile_cont(0."@
            &&& e[19] == agg[1]
            &&& agg[2] == '0' ==> e.skip(20) == ") WITHIN GROUP (ORDER BY value))::DOUBLE PRECISION"@
            &&& agg[2] != '0' ==> e[20] == agg[2] && e.skip(21)
                == ") WITHIN GROUP (ORDER BY value))::DOUBLE PRECISION"@
        }),
{
    sql::lemma_agg_names_differ();
    reveal_strlit("p50");
    reveal_strlit("p90");
    reveal_strlit("p99");
    reveal_strlit("(percentile_cont(0.");
    reveal_strlit(") WITHIN GROUP (ORDER BY value))::DOUBLE PRECISION");
    reveal_strlit("(percentile_cont(0.5) WITHIN GROUP (ORDER BY value))::DOUBLE PRECISION");
    reveal_strlit("(percentile_cont(0.9) WITHIN GROUP (ORDER BY value))::DOUBLE PRECISION");
    reveal_strlit("(percentile_cont(0.99) WITHIN GROUP (ORDER BY value))::DOUBLE PRECISION");
    let e = sql::agg_sql(agg);
    assert(e.take(19) =~= "(percentile_cont(0."@);
    if agg[2] == '0' {
        assert(e.skip(20) =~= ") WITHIN GROUP (ORDER BY value))::DOUBLE PRECISION"@);
    } else {
        assert(e.skip(21) =~= ") WITHIN GROUP (ORDER BY value))::DOUBLE PRECISION"@);
    }
}

/// The last value is the first of those of the latest instants.
pub proof fn lemma_last_expression()
    ensures
        sql::agg_sql("last"@)
            == "(ARRAY_AGG(value ORDER BY timestamp DESC))[1]::DOUBLE PRECISION"@,
{
    sql::lemma_agg_names_differ();
}

/// What a piece of a statement is: text.
pub open spec fn words(t: Seq<char>) -> sql::PieceModel {
    sql::PieceModel::Text(t)
}

/// What a piece of a statement is: the place of a value.
pub open spec fn value(slot: Slot) -> sql::PieceModel {
    sql::PieceModel::Bind(slot)
}

/// What a query of metric points selects, before its labels filter: the points of the
/// project, of the default environment and of the name, from the start on and up to
/// the end; each in the step that holds it.
pub proof fn lemma_metrics_selection(agg: Seq<char>, keys: Seq<Seq<char>>, filtered: bool)
    ensures
        sql::metrics_sql(agg, keys, filtered).take(13) == seq![
            words(
                "WITH filtered AS (\n  SELECT\n    to_timestamp(floor(extract(epoch from timestamp) / "@,
            ),
            value(Slot::Step),
            words(") * "@),
            value(Slot::Step),
            words(
                ") AS bucket_ts,\n    labels,\n    value,\n    timestamp\n  FROM metrics\n  WHERE project_id = "@,
            ),
            value(Slot::Project),
            words(" AND environment = 'default'"@),
            words(" AND name = "@),
            value(Slot::Name),
            words(" AND timestamp >= "@),
            value(Slot::From),
            words(" AND timestamp <= "@),
            value(Slot::To),
        ],
{
    let all = sql::metrics_sql(agg, keys, filtered);
    let c = sql::metrics_conditions(filtered);
    assert(all.take(13) =~= c.take(13));
    assert(c.take(13) =~= seq![
        words(
            "WITH filtered AS (\n  SELECT\n    to_timestamp(floor(extract(epoch from timestamp) / "@,
        ),
        value(Slot::Step),
        words(") * "@),
        value(Slot::Step),
        words(
            ") AS bucket_ts,\n    labels,\n    value,\n    timestamp\n  FROM metrics\n  WHERE project_id = "@,
        ),
        value(Slot::Project),
        words(" AND environment = 'default'"@),
        words(" AND name = "@),
        value(Slot::Name),
        words(" AND timestamp >= "@),
        value(Slot::From),
        words(" AND timestamp <= "@),
        value(Slot::To),
    ]);
}

/// A labels filter adds one condition to a query, and changes nothing else.
pub proof fn lemma_metrics_filter(agg: Seq<char>, keys: Seq<Seq<char>>)
    ensures
        ({
            let with = sql::metrics_sql(agg, keys, true);
            let without = sql::metrics_sql(agg, keys, false);
            with == without.take(13) + seq![words(" AND labels @> "@), value(Slot::Labels)]
                + without.skip(13)
        }),
{
    let with = sql::metrics_sql(agg, keys, true);
    let without = sql::metrics_sql(agg, keys, false);
    assert(with =~= without.take(13) + seq![words(" AND labels @> "@), value(Slot::Labels)]
        + without.skip(13));
}

/// How a query of metric points ends: it ranks the steps of each series by time and
/// the series by their labels, and takes those up to the limits, in that order.
pub proof fn lemma_metrics_limits(agg: Seq<char>, keys: Seq<Seq<char>>, filtered: bool)
    ensures
        ({
            let all = sql::metrics_sql(agg, keys, filtered);
            &&& all.len() >= 5
            &&& all.skip(all.len() - 5) == seq![
                words(
                    "\n),\nranked AS (\n  SELECT\n    bucket_ts,\n    labels,\n    value,\n    ROW_NUMBER() OVER (PARTITION BY labels ORDER BY bucket_ts ASC) AS point_rank,\n    DENSE_RANK() OVER (ORDER BY labels) AS series_rank\n  FROM aggregated\n)\nSELECT\n  bucket_ts,\n  labels,\n  value,\n  point_rank,\n  series_rank\nFROM ranked\nWHERE point_rank <= "@,
                ),
                value(Slot::MaxPoints),
                words(" AND series_rank <= "@),
                value(Slot::MaxSeries),
                words("\nORDER BY labels, bucket_ts ASC"@),
            ]
        }),
{
    let all = sql::metrics_sql(agg, keys, filtered);
    assert(all.skip(all.len() - 5) =~= seq![
        words(
            "\n),\nranked AS (\n  SELECT\n    bucket_ts,\n    labels,\n    value,\n    ROW_NUMBER() OVER (PARTITION BY labels ORDER BY bucket_ts ASC) AS point_rank,\n    DENSE_RANK() OVER (ORDER BY labels) AS series_rank\n  FROM aggregated\n)\nSELECT\n  bucket_ts,\n  labels,\n  value,\n  point_rank,\n  series_rank\nFROM ranked\nWHERE point_rank <= "@,
        ),
        value(Slot::MaxPoints),
        words(" AND series_rank <= "@),
        value(Slot::MaxSeries),
        words("\nORDER BY labels, bucket_ts ASC"@),
    ]);
}

/// Without keys to group by a query has a series for each set of labels.
pub proof fn lemma_metrics_without_keys(agg: Seq<char>)
    ensures
        ({
            let all = sql::metrics_sql(agg, Seq::empty(), false);
            &&& all.len() == 23
            &&& all.subrange(13, 18) == seq![
                words("),\naggregated AS (\n  SELECT\n    bucket_ts,\n    "@),
                words("labels,\n    "@),
                words(sql::agg_sql(agg)),
                words(" AS value\n  FROM filtered\n  GROUP BY bucket_ts"@),
                words(", labels"@),
            ]
        }),
{
    let all = sql::metrics_sql(agg, Seq::empty(), false);
    assert(all.subrange(13, 18) =~= seq![
        words("),\naggregated AS (\n  SELECT\n    bucket_ts,\n    "@),
        words("labels,\n    "@),
        words(sql::agg_sql(agg)),
        words(" AS value\n  FROM filtered\n  GROUP BY bucket_ts"@),
        words(", labels"@),
    ]);
}

/// A key to group by, and the value that it has among the labels.
pub open spec fn key_and_value(k: Seq<char>) -> Seq<sql::PieceModel> {
    seq![words(metrics::sql_literal(k)), words(", labels ->> "@), words(metrics::sql_literal(k))]
}

/// With keys to group by a query builds the labels of a series from these keys and
/// their values, and groups by them.
pub proof fn lemma_metrics_with_keys(agg: Seq<char>, keys: Seq<Seq<char>>)
    requires
        keys.len() > 0,
    ensures
        ({
            let all = sql::metrics_sql(agg, keys, false);
            let built = sql::object_pieces(keys);
            let named = sql::group_pieces(keys);
            let nb = built.len() as int;
            let nn = named.len() as int;
            &&& built.len() == 4 * keys.len() - 1
            &&& named.len() == 2 * keys.len()
            &&& all.subrange(13, 15) == seq![
                words("),\naggregated AS (\n  SELECT\n    bucket_ts,\n    "@),
                words("jsonb_build_object("@),
            ]
            &&& all.subrange(15, 15 + nb) == built
            &&& all.subrange(15 + nb, 18 + nb) == seq![
                words(") AS labels,\n    "@),
                words(sql::agg_sql(agg)),
                words(" AS value\n  FROM filtered\n  GROUP BY bucket_ts"@),
            ]
            &&& all.subrange(18 + nb, 18 + nb + nn) == named
            &&& all.len() == 23 + nb + nn
            &&& forall|i: int|
                0 <= i < keys.len() ==> built.subrange(4 * i, 4 * i + 3) == key_and_value(
                    #[trigger] keys[i],
                )
            &&& forall|i: int|
                0 <= i < keys.len() - 1 ==> (#[trigger] keys[i] == keys[i]) && built[4 * i + 3]
                    == words(", "@)
            &&& forall|i: int|
                0 <= i < keys.len() ==> named.subrange(2 * i, 2 * i + 2) == seq![
                    words(", labels ->> "@),
                    words(metrics::sql_literal(#[trigger] keys[i])),
                ]
        }),
{
    lemma_key_pieces(keys);
    let all = sql::metrics_sql(agg, keys, false);
    let built = sql::object_pieces(keys);
    let named = sql::group_pieces(keys);
    let nb = built.len() as int;
    let nn = named.len() as int;
    assert(all.subrange(13, 15) =~= seq![
        words("),\naggregated AS (\n  SELECT\n    bucket_ts,\n    "@),
        words("jsonb_build_object("@),
    ]);
    assert(all.subrange(15, 15 + nb) =~= built);
    assert(all.subrange(15 + nb, 18 + nb) =~= seq![
        words(") AS labels,\n    "@),
        words(sql::agg_sql(agg)),
        words(" AS value\n  FROM filtered\n  GROUP BY bucket_ts"@),
    ]);
    assert(all.subrange(18 + nb, 18 + nb + nn) =~= named);
}

proof fn lemma_key_pieces(keys: Seq<Seq<char>>)
    requires
        keys.len() > 0,
    ensures
        sql::object_pieces(keys).len() == 4 * keys.len() - 1,
        sql::group_pieces(keys).len() == 2 * keys.len(),
        forall|i: int|
            0 <= i < keys.len() ==> sql::object_pieces(keys).subrange(4 * i, 4 * i + 3)
                == key_and_value(#[trigger] keys[i]),
        forall|i: int|
            0 <= i < keys.len() - 1 ==> (#[trigger] keys[i] == keys[i]) && sql::object_pieces(
                keys,
            )[4 * i + 3] == words(", "@),
        forall|i: int|
            0 <= i < keys.len() ==> sql::group_pieces(keys).subrange(2 * i, 2 * i + 2) == seq![
                words(", labels ->> "@),
                words(metrics::sql_literal(#[trigger] keys[i])),
            ],
    decreases keys.len(),
{
    let head = keys.drop_last();
    let last = keys.last();
    let o = sql::object_pieces(keys);
    let g = sql::group_pieces(keys);
    assert(keys[keys.len() - 1] == last);
    if keys.len() == 1 {
        assert(sql::group_pieces(head) =~= Seq::<sql::PieceModel>::empty());
        assert(o.subrange(0, 3) =~= key_and_value(last));
        assert(g.subrange(0, 2) =~= seq![
            words(", labels ->> "@),
            words(metrics::sql_literal(last)),
        ]);
    } else {
        lemma_key_pieces(head);
        let oh = sql::object_pieces(head);
        let gh = sql::group_pieces(head);
        let n = keys.len() - 1;
        assert forall|i: int| 0 <= i < keys.len() implies o.subrange(4 * i, 4 * i + 3)
            == key_and_value(#[trigger] keys[i]) by {
            if i < n {
                assert(head[i] == keys[i]);
                assert(o.subrange(4 * i, 4 * i + 3) =~= oh.subrange(4 * i, 4 * i + 3));
            } else {
                assert(o.subrange(4 * i, 4 * i + 3) =~= key_and_value(last));
            }
        }
        assert forall|i: int| 0 <= i < keys.len() - 1 implies (#[trigger] keys[i] == keys[i])
            && o[4 * i + 3] == words(", "@) by {
            if i < n - 1 {
                assert(head[i] == keys[i]);
                assert(o[4 * i + 3] == oh[4 * i + 3]);
            }
        }
        assert forall|i: int| 0 <= i < keys.len() implies g.subrange(2 * i, 2 * i + 2) == seq![
            words(", labels ->> "@),
            words(metrics::sql_literal(#[trigger] keys[i])),
        ] by {
            if i < n {
                assert(head[i] == keys[i]);
                assert(g.subrange(2 * i, 2 * i + 2) =~= gh.subrange(2 * i, 2 * i + 2));
            } else {
                assert(g.subrange(2 * i, 2 * i + 2) =~= seq![
                    words(", labels ->> "@),
                    words(metrics::sql_literal(last)),
                ]);
            }
        }
    }
}

/// What every query of days asks for, whatever its filter: the traces of the project
/// from the start on and up to the end.
pub open spec fn of_project_and_window() -> Seq<sql::PieceModel> {
    seq![
        words(" AND t.project_id = "@),
        value(Slot::Project),
        words(" AND t.\"timestamp\" >= "@),
        value(Slot::From),
        words(" AND t.\"timestamp\" <= "@),
        value(Slot::To),
    ]
}

/// A condition of a filter of days: a column, and the place of its value.
pub open spec fn compares(column: Seq<char>, slot: Slot) -> Seq<sql::PieceModel> {
    seq![words(column), value(slot)]
}

/// The conditions of a query of days are those on the project and the window, and
/// for each part of the filter that is there the one on its column.
pub proof fn lemma_daily_conditions(c: DailyConditions)
    ensures
        ({
            let d = sql::daily_conditions(c);
            let none = Seq::<sql::PieceModel>::empty();
            let a = if c.trace_name {
                compares(" AND t.name = "@, Slot::TraceName)
            } else {
                none
            };
            let b = if c.user_id {
                compares(" AND t.user_id = "@, Slot::UserId)
            } else {
                none
            };
            let e = if c.tags {
                compares(" AND t.tags @> "@, Slot::Tags)
            } else {
                none
            };
            let f = if c.version {
                compares(" AND t.version = "@, Slot::Version)
            } else {
                none
            };
            let g = if c.release {
                compares(" AND t.release = "@, Slot::Release)
            } else {
                none
            };
            d == of_project_and_window() + a + b + e + f + g
        }),
{
    let d = sql::daily_conditions(c);
    let none = Seq::<sql::PieceModel>::empty();
    assert(sql::condition(true, " AND t.project_id = "@, Slot::Project) + sql::condition(
        true,
        " AND t.\"timestamp\" >= "@,
        Slot::From,
    ) + sql::condition(true, " AND t.\"timestamp\" <= "@, Slot::To) =~= of_project_and_window());
}

/// The count of days and the query of days ask for the same traces: between how they
/// begin and how they end stand the same conditions.
pub proof fn lemma_count_and_page_agree(c: DailyConditions)
    ensures
        ({
            let count = sql::daily_count_pieces(c);
            let page = sql::daily_pieces(c);
            let n = sql::daily_conditions(c).len() as int;
            &&& count.len() == n + 2
            &&& page.len() == n + 5
            &&& count.subrange(1, n + 1) == sql::daily_conditions(c)
            &&& page.subrange(1, n + 1) == sql::daily_conditions(c)
            &&& count[0] == words(
                "SELECT COUNT(*)::BIGINT FROM (SELECT date_trunc('day', t.\"timestamp\")::date AS day FROM traces t WHERE 1=1"@,
            )
            &&& count[n + 1] == words(" GROUP BY 1) x"@)
            &&& page[0] == words("WITH filtered_traces AS (SELECT t.* FROM traces t WHERE 1=1"@)
            &&& page[n + 1] == words(
                ")\n, daily AS (\n  SELECT\n    date_trunc('day', ft.\"timestamp\")::date AS day,\n    COUNT(*)::BIGINT AS count_traces,\n    COALESCE(SUM(ft.total_cost), 0)::DOUBLE PRECISION AS total_cost\n  FROM filtered_traces ft\n  GROUP BY 1\n)\n, daily_obs AS (\n  SELECT\n    date_trunc('day', ft.\"timestamp\")::date AS day,\n    COUNT(o.id)::BIGINT AS count_observations\n  FROM filtered_traces ft\n  JOIN observations o ON o.trace_id = ft.id\n  GROUP BY 1\n)\n, model_usage AS (\n  SELECT\n    date_trunc('day', ft.\"timestamp\")::date AS day,\n    COALESCE(o.model, 'unknown') AS model,\n    COALESCE(SUM(o.prompt_tokens), 0)::BIGINT AS input_usage,\n    COALESCE(SUM(o.completion_tokens), 0)::BIGINT AS output_usage,\n    COALESCE(SUM(o.total_tokens), 0)::BIGINT AS total_usage,\n    COUNT(DISTINCT ft.id)::BIGINT AS count_traces,\n    COUNT(o.id)::BIGINT AS count_observations,\n    COALESCE(SUM(o.calculated_total_cost), 0)::DOUBLE PRECISION AS total_cost\n  FROM filtered_traces ft\n  JOIN observations o ON o.trace_id = ft.id\n  WHERE o.type = 'GENERATION'\n  GROUP BY 1, 2\n)\n, daily_usage AS (\n  SELECT\n    mu.day,\n    COALESCE(jsonb_agg(\n      jsonb_build_object(\n        'model', mu.model,\n        'inputUsage', mu.input_usage,\n        'outputUsage', mu.output_usage,\n        'totalUsage', mu.total_usage,\n        'countTraces', mu.count_traces,\n        'countObservations', mu.count_observations,\n        'totalCost', mu.total_cost\n      ) ORDER BY mu.total_cost DESC\n    ), '[]'::jsonb) AS usage\n  FROM model_usage mu\n  GROUP BY 1\n)\nSELECT\n  d.day AS day,\n  d.count_traces AS count_traces,\n  COALESCE(dob.count_observations, 0) AS count_observations,\n  d.total_cost AS total_cost,\n  COALESCE(du.usage, '[]'::jsonb) AS usage\nFROM daily d\nLEFT JOIN daily_obs dob ON dob.day = d.day\nLEFT JOIN daily_usage du ON du.day = d.day\nORDER BY d.day DESC\nLIMIT "@,
            )
            &&& page.skip(n + 2) == seq![
                value(Slot::Limit),
                words(" OFFSET "@),
                value(Slot::Offset),
            ]
        }),
{
    let count = sql::daily_count_pieces(c);
    let page = sql::daily_pieces(c);
    let n = sql::daily_conditions(c).len() as int;
    assert(count.subrange(1, n + 1) =~= sql::daily_conditions(c));
    assert(page.subrange(1, n + 1) =~= sql::daily_conditions(c));
    assert(page.skip(n + 2) =~= seq![value(Slot::Limit), words(" OFFSET "@), value(Slot::Offset)]);
}

}
