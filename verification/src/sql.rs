//! The SQL of queries, as pieces of text and places for values.

use vstd::prelude::*;

use crate::metrics::sql_string_literal;
use crate::metrics;
use crate::metrics_daily::DailyFilter;
use crate::text::same;
use crate::text;

verus! {

/// A value that is bound to a query when it is run.
#[derive(Debug, Clone, Copy, PartialEq, Eq, Structural)]
pub enum Slot {
    Step,
    Project,
    Name,
    From,
    To,
    Labels,
    MaxPoints,
    MaxSeries,
    TraceName,
    UserId,
    Tags,
    Version,
    Release,
    Limit,
    Offset,
}

/// A piece of a query: text, or the place of a value.
#[derive(Debug)]
pub enum SqlPiece {
    Text(String),
    Bind(Slot),
}

/// A piece of a query, its text taken as characters.
pub ghost enum PieceModel {
    Text(Seq<char>),
    Bind(Slot),
}

impl View for SqlPiece {
    type V = PieceModel;

    open spec fn view(&self) -> PieceModel {
        match self {
            SqlPiece::Text(t) => PieceModel::Text(t@),
            SqlPiece::Bind(s) => PieceModel::Bind(*s),
        }
    }
}

/// The views of pieces.
pub open spec fn piece_models(s: Seq<SqlPiece>) -> Seq<PieceModel> {
    s.map_values(|p: SqlPiece| p@)
}

/// Adds a piece of text.
fn push_text(out: &mut Vec<SqlPiece>, t: &str)
    ensures
        piece_models(final(out)@) == piece_models(old(out)@).push(PieceModel::Text(t@)),
{
    let ghost before = out@;
    out.push(SqlPiece::Text(t.to_owned()));
    assert(piece_models(out@) =~= piece_models(before).push(PieceModel::Text(t@)));
}

/// Adds the place of a value.
fn push_bind(out: &mut Vec<SqlPiece>, slot: Slot)
    ensures
        piece_models(final(out)@) == piece_models(old(out)@).push(PieceModel::Bind(slot)),
{
    let ghost before = out@;
    out.push(SqlPiece::Bind(slot));
    assert(piece_models(out@) =~= piece_models(before).push(PieceModel::Bind(slot)));
}

/// The expression of SQL that makes one value of many.
pub open spec fn agg_sql(agg: Seq<char>) -> Seq<char> {
    if agg == "avg"@ {
        "AVG(value)::DOUBLE PRECISION"@
    } else if agg == "max"@ {
        "MAX(value)::DOUBLE PRECISION"@
    } else if agg == "min"@ {
        "MIN(value)::DOUBLE PRECISION"@
    } else if agg == "sum"@ {
        "SUM(value)::DOUBLE PRECISION"@
    } else if agg == "last"@ {
        "(ARRAY_AGG(value ORDER BY timestamp DESC))[1]::DOUBLE PRECISION"@
    } else if agg == "count"@ {
        "COUNT(value)::DOUBLE PRECISION"@
    } else if agg == "p50"@ {
        "(percentile_cont(0.5) WITHIN GROUP (ORDER BY value))::DOUBLE PRECISION"@
    } else if agg == "p90"@ {
        "(percentile_cont(0.9) WITHIN GROUP (ORDER BY value))::DOUBLE PRECISION"@
    } else {
        "(percentile_cont(0.99) WITHIN GROUP (ORDER BY value))::DOUBLE PRECISION"@
    }
}

/// The names of the aggregations differ.
pub(crate) proof fn lemma_agg_names_differ()
    ensures
        ({
            let names = seq![
                "avg"@,
                "max"@,
                "min"@,
                "sum"@,
                "last"@,
                "count"@,
                "p50"@,
                "p90"@,
                "p99"@,
            ];
            forall|i: int, j: int|
                0 <= i < j < names.len() ==> #[trigger] names[i] != #[trigger] names[j]
        }),
        "avg"@ != "max"@ && "avg"@ != "min"@ && "avg"@ != "sum"@ && "avg"@ != "last"@ && "avg"@
            != "count"@ && "avg"@ != "p50"@ && "avg"@ != "p90"@ && "avg"@ != "p99"@,
        "max"@ != "min"@ && "max"@ != "sum"@ && "max"@ != "last"@ && "max"@ != "count"@ && "max"@
            != "p50"@ && "max"@ != "p90"@ && "max"@ != "p99"@,
        "min"@ != "sum"@ && "min"@ != "last"@ && "min"@ != "count"@ && "min"@ != "p50"@ && "min"@
            != "p90"@ && "min"@ != "p99"@,
        "sum"@ != "last"@ && "sum"@ != "count"@ && "sum"@ != "p50"@ && "sum"@ != "p90"@ && "sum"@
            != "p99"@,
        "last"@ != "count"@ && "last"@ != "p50"@ && "last"@ != "p90"@ && "last"@ != "p99"@,
        "count"@ != "p50"@ && "count"@ != "p90"@ && "count"@ != "p99"@,
        "p50"@ != "p90"@ && "p50"@ != "p99"@ && "p90"@ != "p99"@,
{
    reveal_strlit("avg");
    reveal_strlit("max");
    reveal_strlit("min");
    reveal_strlit("sum");
    reveal_strlit("last");
    reveal_strlit("count");
    reveal_strlit("p50");
    reveal_strlit("p90");
    reveal_strlit("p99");
    assert("avg"@[0] == 'a' && "max"@[1] == 'a' && "max"@[0] == 'm' && "min"@[1] == 'i');
    assert("min"@[0] == 'm' && "sum"@[0] == 's' && "last"@[0] == 'l' && "count"@[0] == 'c');
    assert("p50"@[0] == 'p' && "p90"@[0] == 'p' && "p99"@[0] == 'p');
    assert("p50"@[1] == '5' && "p90"@[1] == '9' && "p99"@[1] == '9');
    assert("p90"@[2] == '0' && "p99"@[2] == '9');
}

/// The expression of SQL that makes one value of many.
pub fn agg_expression(agg: &str) -> (r: &'static str)
    requires
        metrics::is_agg(agg@),
    ensures
        r@ == agg_sql(agg@),
        agg@ == "avg"@ ==> r@ == "AVG(value)::DOUBLE PRECISION"@,
        agg@ == "max"@ ==> r@ == "MAX(value)::DOUBLE PRECISION"@,
        agg@ == "min"@ ==> r@ == "MIN(value)::DOUBLE PRECISION"@,
        agg@ == "sum"@ ==> r@ == "SUM(value)::DOUBLE PRECISION"@,
        agg@ == "count"@ ==> r@ == "COUNT(value)::DOUBLE PRECISION"@,
        agg@ == "last"@ ==> r@
            == "(ARRAY_AGG(value ORDER BY timestamp DESC))[1]::DOUBLE PRECISION"@,
        agg@ == "p50"@ ==> r@
            == "(percentile_cont(0.5) WITHIN GROUP (ORDER BY value))::DOUBLE PRECISION"@,
        agg@ == "p90"@ ==> r@
            == "(percentile_cont(0.9) WITHIN GROUP (ORDER BY value))::DOUBLE PRECISION"@,
        agg@ == "p99"@ ==> r@
            == "(percentile_cont(0.99) WITHIN GROUP (ORDER BY value))::DOUBLE PRECISION"@,
{
    proof {
        lemma_agg_names_differ();
    }
    if same(agg, "avg") {
        "AVG(value)::DOUBLE PRECISION"
    } else if same(agg, "max") {
        "MAX(value)::DOUBLE PRECISION"
    } else if same(agg, "min") {
        "MIN(value)::DOUBLE PRECISION"
    } else if same(agg, "sum") {
        "SUM(value)::DOUBLE PRECISION"
    } else if same(agg, "last") {
        "(ARRAY_AGG(value ORDER BY timestamp DESC))[1]::DOUBLE PRECISION"
    } else if same(agg, "count") {
        "COUNT(value)::DOUBLE PRECISION"
    } else if same(agg, "p50") {
        "(percentile_cont(0.5) WITHIN GROUP (ORDER BY value))::DOUBLE PRECISION"
    } else if same(agg, "p90") {
        "(percentile_cont(0.9) WITHIN GROUP (ORDER BY value))::DOUBLE PRECISION"
    } else {
        "(percentile_cont(0.99) WITHIN GROUP (ORDER BY value))::DOUBLE PRECISION"
    }
}

/// How a query of metric points begins.
pub const METRICS_HEAD: &'static str = "WITH filtered AS (\n  SELECT\n    to_timestamp(floor(extract(epoch from timestamp) / ";

/// What stands between the step and the project.
pub const METRICS_SOURCE: &'static str = ") AS bucket_ts,\n    labels,\n    value,\n    timestamp\n  FROM metrics\n  WHERE project_id = ";

/// What stands between the conditions and the labels of a series.
pub const METRICS_AGGREGATED: &'static str = "),\naggregated AS (\n  SELECT\n    bucket_ts,\n    ";

/// What ranks the steps and the series.
pub const METRICS_RANKED: &'static str = "\n),\nranked AS (\n  SELECT\n    bucket_ts,\n    labels,\n    value,\n    ROW_NUMBER() OVER (PARTITION BY labels ORDER BY bucket_ts ASC) AS point_rank,\n    DENSE_RANK() OVER (ORDER BY labels) AS series_rank\n  FROM aggregated\n)\nSELECT\n  bucket_ts,\n  labels,\n  value,\n  point_rank,\n  series_rank\nFROM ranked\nWHERE point_rank <= ";

/// The pieces that select the points of a query.
pub open spec fn metrics_conditions(filtered: bool) -> Seq<PieceModel> {
    let base = seq![
        PieceModel::Text(METRICS_HEAD@),
        PieceModel::Bind(Slot::Step),
        PieceModel::Text(") * "@),
        PieceModel::Bind(Slot::Step),
        PieceModel::Text(METRICS_SOURCE@),
        PieceModel::Bind(Slot::Project),
        PieceModel::Text(" AND environment = 'default'"@),
        PieceModel::Text(" AND name = "@),
        PieceModel::Bind(Slot::Name),
        PieceModel::Text(" AND timestamp >= "@),
        PieceModel::Bind(Slot::From),
        PieceModel::Text(" AND timestamp <= "@),
        PieceModel::Bind(Slot::To),
    ];
    if filtered {
        base + seq![PieceModel::Text(" AND labels @> "@), PieceModel::Bind(Slot::Labels)]
    } else {
        base
    }
}

/// The pieces that build the labels of a series from the keys to group by.
pub open spec fn object_pieces(keys: Seq<Seq<char>>) -> Seq<PieceModel>
    decreases keys.len(),
{
    if keys.len() == 0 {
        Seq::empty()
    } else {
        let lit = PieceModel::Text(metrics::sql_literal(keys.last()));
        let own = seq![lit, PieceModel::Text(", labels ->> "@), lit];
        if keys.len() == 1 {
            own
        } else {
            object_pieces(keys.drop_last()) + seq![PieceModel::Text(", "@)] + own
        }
    }
}

/// The pieces that name the keys to group by.
pub open spec fn group_pieces(keys: Seq<Seq<char>>) -> Seq<PieceModel>
    decreases keys.len(),
{
    if keys.len() == 0 {
        Seq::empty()
    } else {
        group_pieces(keys.drop_last()) + seq![
            PieceModel::Text(", labels ->> "@),
            PieceModel::Text(metrics::sql_literal(keys.last())),
        ]
    }
}

/// The pieces of a query of metric points: those that are selected, by step and
/// labels, the first steps of the first series.
pub open spec fn metrics_sql(agg: Seq<char>, keys: Seq<Seq<char>>, filtered: bool) -> Seq<PieceModel> {
    metrics_conditions(filtered).push(PieceModel::Text(METRICS_AGGREGATED@)) + (if keys.len() == 0 {
        seq![PieceModel::Text("labels,\n    "@)]
    } else {
        seq![PieceModel::Text("jsonb_build_object("@)] + object_pieces(keys) + seq![
            PieceModel::Text(") AS labels,\n    "@),
        ]
    }) + seq![
        PieceModel::Text(agg_sql(agg)),
        PieceModel::Text(" AS value\n  FROM filtered\n  GROUP BY bucket_ts"@),
    ] + (if keys.len() == 0 {
        seq![PieceModel::Text(", labels"@)]
    } else {
        group_pieces(keys)
    }) + seq![
        PieceModel::Text(METRICS_RANKED@),
        PieceModel::Bind(Slot::MaxPoints),
        PieceModel::Text(" AND series_rank <= "@),
        PieceModel::Bind(Slot::MaxSeries),
        PieceModel::Text("\nORDER BY labels, bucket_ts ASC"@),
    ]
}

/// The query of metric points.
pub fn metrics_query_sql(agg: &str, group_by_keys: &Vec<String>, filtered: bool) -> (r: Vec<SqlPiece>)
    requires
        metrics::is_agg(agg@),
    ensures
        piece_models(r@) == metrics_sql(agg@, text::texts(group_by_keys@), filtered),
{
    let ghost keys = text::texts(group_by_keys@);
    let mut out: Vec<SqlPiece> = Vec::new();
    push_text(&mut out, METRICS_HEAD);
    push_bind(&mut out, Slot::Step);
    push_text(&mut out, ") * ");
    push_bind(&mut out, Slot::Step);
    push_text(&mut out, METRICS_SOURCE);
    push_bind(&mut out, Slot::Project);
    push_text(&mut out, " AND environment = 'default'");
    push_text(&mut out, " AND name = ");
    push_bind(&mut out, Slot::Name);
    push_text(&mut out, " AND timestamp >= ");
    push_bind(&mut out, Slot::From);
    push_text(&mut out, " AND timestamp <= ");
    push_bind(&mut out, Slot::To);
    if filtered {
        push_text(&mut out, " AND labels @> ");
        push_bind(&mut out, Slot::Labels);
    }
    assert(piece_models(out@) =~= metrics_conditions(filtered));
    push_text(&mut out, METRICS_AGGREGATED);
    if group_by_keys.len() == 0 {
        push_text(&mut out, "labels,\n    ");
    } else {
        push_text(&mut out, "jsonb_build_object(");
        let ghost opened = piece_models(out@);
        let mut i: usize = 0;
        assert(keys.take(0) =~= Seq::<Seq<char>>::empty());
        assert(opened + object_pieces(keys.take(0)) =~= opened);
        while i < group_by_keys.len()
            invariant
                0 <= i <= group_by_keys@.len(),
                keys == text::texts(group_by_keys@),
                piece_models(out@) == opened + object_pieces(keys.take(i as int)),
            decreases group_by_keys.len() - i,
        {
            let ghost t = keys.take(i + 1);
            assert(t.drop_last() =~= keys.take(i as int));
            assert(t.last() == keys[i as int]);
            if i > 0 {
                push_text(&mut out, ", ");
            }
            let literal = sql_string_literal(group_by_keys[i].as_str());
            push_text(&mut out, literal.as_str());
            push_text(&mut out, ", labels ->> ");
            push_text(&mut out, literal.as_str());
            assert(piece_models(out@) =~= opened + object_pieces(t));
            i += 1;
        }
        assert(keys.take(keys.len() as int) =~= keys);
        push_text(&mut out, ") AS labels,\n    ");
    }
    push_text(&mut out, agg_expression(agg));
    push_text(&mut out, " AS value\n  FROM filtered\n  GROUP BY bucket_ts");
    let ghost middle = piece_models(out@);
    if group_by_keys.len() == 0 {
        push_text(&mut out, ", labels");
    } else {
        let mut i: usize = 0;
        assert(keys.take(0) =~= Seq::<Seq<char>>::empty());
        assert(middle + group_pieces(keys.take(0)) =~= middle);
        while i < group_by_keys.len()
            invariant
                0 <= i <= group_by_keys@.len(),
                keys == text::texts(group_by_keys@),
                piece_models(out@) == middle + group_pieces(keys.take(i as int)),
            decreases group_by_keys.len() - i,
        {
            let ghost t = keys.take(i + 1);
            assert(t.drop_last() =~= keys.take(i as int));
            assert(t.last() == keys[i as int]);
            push_text(&mut out, ", labels ->> ");
            push_text(&mut out, sql_string_literal(group_by_keys[i].as_str()).as_str());
            assert(piece_models(out@) =~= middle + group_pieces(t));
            i += 1;
        }
        assert(keys.take(keys.len() as int) =~= keys);
    }
    push_text(&mut out, METRICS_RANKED);
    push_bind(&mut out, Slot::MaxPoints);
    push_text(&mut out, " AND series_rank <= ");
    push_bind(&mut out, Slot::MaxSeries);
    push_text(&mut out, "\nORDER BY labels, bucket_ts ASC");
    assert(piece_models(out@) =~= metrics_sql(agg@, keys, filtered));
    out
}

/// Which conditions a query of days names.
#[derive(Debug, Clone, Copy, PartialEq, Eq, Structural)]
pub struct DailyConditions {
    pub trace_name: bool,
    pub user_id: bool,
    pub tags: bool,
    pub version: bool,
    pub release: bool,
}

/// The conditions that a filter names: those of its parts that are there, and the
/// tags where there is one.
pub fn conditions_of(f: &DailyFilter) -> (r: DailyConditions)
    ensures
        r.trace_name == (f.trace_name is Some),
        r.user_id == (f.user_id is Some),
        r.tags == (f.tags@.len() > 0),
        r.version == (f.version is Some),
        r.release == (f.release is Some),
{
    DailyConditions {
        trace_name: f.trace_name.is_some(),
        user_id: f.user_id.is_some(),
        tags: f.tags.len() > 0,
        version: f.version.is_some(),
        release: f.release.is_some(),
    }
}

/// A condition, where it is named.
pub open spec fn condition(named: bool, t: Seq<char>, slot: Slot) -> Seq<PieceModel> {
    if named {
        seq![PieceModel::Text(t), PieceModel::Bind(slot)]
    } else {
        Seq::empty()
    }
}

/// The conditions of a query of days.
pub open spec fn daily_conditions(c: DailyConditions) -> Seq<PieceModel> {
    condition(true, " AND t.project_id = "@, Slot::Project) + condition(
        true,
        " AND t.\"timestamp\" >= "@,
        Slot::From,
    ) + condition(true, " AND t.\"timestamp\" <= "@, Slot::To) + condition(
        c.trace_name,
        " AND t.name = "@,
        Slot::TraceName,
    ) + condition(c.user_id, " AND t.user_id = "@, Slot::UserId) + condition(
        c.tags,
        " AND t.tags @> "@,
        Slot::Tags,
    ) + condition(c.version, " AND t.version = "@, Slot::Version) + condition(
        c.release,
        " AND t.release = "@,
        Slot::Release,
    )
}

/// Adds a condition, where it is named.
fn push_condition(out: &mut Vec<SqlPiece>, named: bool, t: &str, slot: Slot)
    ensures
        piece_models(final(out)@) == piece_models(old(out)@) + condition(named, t@, slot),
{
    let ghost before = piece_models(out@);
    if named {
        push_text(out, t);
        push_bind(out, slot);
    }
    assert(piece_models(out@) =~= before + condition(named, t@, slot));
}

/// Adds the conditions of a query of days.
fn push_daily_conditions(out: &mut Vec<SqlPiece>, c: &DailyConditions)
    ensures
        piece_models(final(out)@) == piece_models(old(out)@) + daily_conditions(*c),
{
    let ghost before = piece_models(out@);
    push_condition(out, true, " AND t.project_id = ", Slot::Project);
    push_condition(out, true, " AND t.\"timestamp\" >= ", Slot::From);
    push_condition(out, true, " AND t.\"timestamp\" <= ", Slot::To);
    push_condition(out, c.trace_name, " AND t.name = ", Slot::TraceName);
    push_condition(out, c.user_id, " AND t.user_id = ", Slot::UserId);
    push_condition(out, c.tags, " AND t.tags @> ", Slot::Tags);
    push_condition(out, c.version, " AND t.version = ", Slot::Version);
    push_condition(out, c.release, " AND t.release = ", Slot::Release);
    assert(piece_models(out@) =~= before + daily_conditions(*c));
}

/// How the count of days begins.
pub const DAILY_COUNT_HEAD: &'static str = "SELECT COUNT(*)::BIGINT FROM (SELECT date_trunc('day', t.\"timestamp\")::date AS day FROM traces t WHERE 1=1";

/// How a query of days begins.
pub const DAILY_HEAD: &'static str = "WITH filtered_traces AS (SELECT t.* FROM traces t WHERE 1=1";

/// What stands behind the conditions of a query of days.
pub const DAILY_BODY: &'static str = ")\n, daily AS (\n  SELECT\n    date_trunc('day', ft.\"timestamp\")::date AS day,\n    COUNT(*)::BIGINT AS count_traces,\n    COALESCE(SUM(ft.total_cost), 0)::DOUBLE PRECISION AS total_cost\n  FROM filtered_traces ft\n  GROUP BY 1\n)\n, daily_obs AS (\n  SELECT\n    date_trunc('day', ft.\"timestamp\")::date AS day,\n    COUNT(o.id)::BIGINT AS count_observations\n  FROM filtered_traces ft\n  JOIN observations o ON o.trace_id = ft.id\n  GROUP BY 1\n)\n, model_usage AS (\n  SELECT\n    date_trunc('day', ft.\"timestamp\")::date AS day,\n    COALESCE(o.model, 'unknown') AS model,\n    COALESCE(SUM(o.prompt_tokens), 0)::BIGINT AS input_usage,\n    COALESCE(SUM(o.completion_tokens), 0)::BIGINT AS output_usage,\n    COALESCE(SUM(o.total_tokens), 0)::BIGINT AS total_usage,\n    COUNT(DISTINCT ft.id)::BIGINT AS count_traces,\n    COUNT(o.id)::BIGINT AS count_observations,\n    COALESCE(SUM(o.calculated_total_cost), 0)::DOUBLE PRECISION AS total_cost\n  FROM filtered_traces ft\n  JOIN observations o ON o.trace_id = ft.id\n  WHERE o.type = 'GENERATION'\n  GROUP BY 1, 2\n)\n, daily_usage AS (\n  SELECT\n    mu.day,\n    COALESCE(jsonb_agg(\n      jsonb_build_object(\n        'model', mu.model,\n        'inputUsage', mu.input_usage,\n        'outputUsage', mu.output_usage,\n        'totalUsage', mu.total_usage,\n        'countTraces', mu.count_traces,\n        'countObservations', mu.count_observations,\n        'totalCost', mu.total_cost\n      ) ORDER BY mu.total_cost DESC\n    ), '[]'::jsonb) AS usage\n  FROM model_usage mu\n  GROUP BY 1\n)\nSELECT\n  d.day AS day,\n  d.count_traces AS count_traces,\n  COALESCE(dob.count_observations, 0) AS count_observations,\n  d.total_cost AS total_cost,\n  COALESCE(du.usage, '[]'::jsonb) AS usage\nFROM daily d\nLEFT JOIN daily_obs dob ON dob.day = d.day\nLEFT JOIN daily_usage du ON du.day = d.day\nORDER BY d.day DESC\nLIMIT ";

/// The pieces of the count of days.
pub open spec fn daily_count_pieces(c: DailyConditions) -> Seq<PieceModel> {
    seq![PieceModel::Text(DAILY_COUNT_HEAD@)] + daily_conditions(c) + seq![
        PieceModel::Text(" GROUP BY 1) x"@),
    ]
}

/// The count of days.
pub fn daily_count_sql(c: &DailyConditions) -> (r: Vec<SqlPiece>)
    ensures
        piece_models(r@) == daily_count_pieces(*c),
{
    let mut out: Vec<SqlPiece> = Vec::new();
    push_text(&mut out, DAILY_COUNT_HEAD);
    push_daily_conditions(&mut out, c);
    push_text(&mut out, " GROUP BY 1) x");
    assert(piece_models(out@) =~= daily_count_pieces(*c));
    out
}

/// The pieces of a query of days.
pub open spec fn daily_pieces(c: DailyConditions) -> Seq<PieceModel> {
    seq![PieceModel::Text(DAILY_HEAD@)] + daily_conditions(c) + seq![
        PieceModel::Text(DAILY_BODY@),
        PieceModel::Bind(Slot::Limit),
        PieceModel::Text(" OFFSET "@),
        PieceModel::Bind(Slot::Offset),
    ]
}

/// The query of days.
pub fn daily_sql(c: &DailyConditions) -> (r: Vec<SqlPiece>)
    ensures
        piece_models(r@) == daily_pieces(*c),
{
    let mut out: Vec<SqlPiece> = Vec::new();
    push_text(&mut out, DAILY_HEAD);
    push_daily_conditions(&mut out, c);
    push_text(&mut out, DAILY_BODY);
    push_bind(&mut out, Slot::Limit);
    push_text(&mut out, " OFFSET ");
    push_bind(&mut out, Slot::Offset);
    assert(piece_models(out@) =~= daily_pieces(*c));
    out
}

}
