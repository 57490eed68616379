//! What a daily report tells of the traces and the observations it is made from.

use vstd::prelude::*;

use crate::metrics_daily;
use crate::metrics_daily::{DailyFilter, DayGroup, ModelUsage};
use crate::metrics_query::Window;
use crate::number::Double;
use crate::rows;
use crate::sums;
use crate::text;
use crate::time;

verus! {

/// The generations of a model; one that names no model, or an empty one, belongs to
/// the model "unknown".
pub open spec fn by_model(k: Seq<char>) -> spec_fn(rows::ObservationModel) -> bool {
    |o: rows::ObservationModel|
        o.obs_type == "GENERATION"@ && (o.model == Some(k) && k.len() > 0 || k == "unknown"@ && (
        o.model is None || o.model == Some(Seq::<char>::empty())))
}

/// What an observation reports of the tokens that went in.
pub open spec fn tokens_in() -> spec_fn(rows::ObservationModel) -> int {
    |o: rows::ObservationModel|
        if o.prompt_tokens is Some {
            o.prompt_tokens->0 as int
        } else {
            0
        }
}

/// What an observation reports of the tokens that came out.
pub open spec fn tokens_out() -> spec_fn(rows::ObservationModel) -> int {
    |o: rows::ObservationModel|
        if o.completion_tokens is Some {
            o.completion_tokens->0 as int
        } else {
            0
        }
}

/// What an observation reports of all its tokens.
pub open spec fn tokens_all() -> spec_fn(rows::ObservationModel) -> int {
    |o: rows::ObservationModel|
        if o.total_tokens is Some {
            o.total_tokens->0 as int
        } else {
            0
        }
}

/// What an observation cost.
pub open spec fn cost_of_one() -> spec_fn(rows::ObservationModel) -> Double {
    |o: rows::ObservationModel|
        if o.calculated_total_cost is Some {
            o.calculated_total_cost->0
        } else {
            (Double { bits: 0 })
        }
}

/// Whether a usage tells what generations report: each kind of tokens is the sum
/// over all of them, wrapping around; they are all counted, and so are their traces
/// and costs.
pub open spec fn tells_of(u: metrics_daily::UsageModel, g: Seq<rows::ObservationModel>) -> bool {
    &&& sums::wraps_to(sums::total(g, tokens_in()), u.input as int)
    &&& sums::wraps_to(sums::total(g, tokens_out()), u.output as int)
    &&& sums::wraps_to(sums::total(g, tokens_all()), u.total as int)
    &&& u.observations == g.len()
    &&& forall|id: u128| #[trigger]
        u.traces.contains(id) <==> exists|i: int| 0 <= i < g.len() && (#[trigger] g[i]).trace_id == id
    &&& u.costs == g.map_values(cost_of_one())
}

/// The usage of a model is what its generations report, added up: a model is named
/// if and only if there is one of its generations, and each of its numbers is the
/// sum over all of them.
pub proof fn lemma_usage_adds_up(s: Seq<rows::ObservationModel>, k: Seq<char>)
    ensures
        metrics_daily::usage_of(s).contains_key(k) <==> s.filter(by_model(k)).len() > 0,
        metrics_daily::usage_of(s).contains_key(k) ==> tells_of(
            metrics_daily::usage_of(s)[k],
            s.filter(by_model(k)),
        ),
    decreases s.len(),
{
    reveal(Seq::filter);
    if s.len() > 0 {
        let head = s.drop_last();
        let o = s.last();
        lemma_usage_adds_up(head, k);
        let g0 = head.filter(by_model(k));
        let g = s.filter(by_model(k));
        let m0 = metrics_daily::usage_of(head);
        let m = metrics_daily::usage_of(s);
        assert("unknown"@.len() > 0) by {
            reveal_strlit("unknown");
        }
        if o.model is Some && o.model->0.len() == 0 {
            assert(o.model->0 =~= Seq::<char>::empty());
        }
        assert(by_model(k)(o) <==> o.obs_type == "GENERATION"@ && metrics_daily::model_name(o) == k);
        if by_model(k)(o) {
            let u0 = if m0.contains_key(k) {
                m0[k]
            } else {
                metrics_daily::no_usage()
            };
            let u = m[k];
            if !m0.contains_key(k) {
                assert(g0 =~= Seq::<rows::ObservationModel>::empty());
            }
            assert(tells_of(u0, g0)) by {
                if !m0.contains_key(k) {
                    assert(u0.costs =~= g0.map_values(cost_of_one()));
                }
            }
            assert(g == g0.push(o));
            assert(g.drop_last() =~= g0);
            let x: i64 = metrics_daily::tokens_or_zero(o.prompt_tokens);
            let y: i64 = metrics_daily::tokens_or_zero(o.completion_tokens);
            let z: i64 = metrics_daily::tokens_or_zero(o.total_tokens);
            sums::lemma_wrapping_step(sums::total(g0, tokens_in()), u0.input, x);
            sums::lemma_wrapping_step(sums::total(g0, tokens_out()), u0.output, y);
            sums::lemma_wrapping_step(sums::total(g0, tokens_all()), u0.total, z);
            assert(u.costs =~= g.map_values(cost_of_one()));
            assert forall|id: u128| #[trigger] u.traces.contains(id) <==> exists|i: int|
                0 <= i < g.len() && (#[trigger] g[i]).trace_id == id by {
                if u0.traces.contains(id) {
                    let i = choose|i: int| 0 <= i < g0.len() && (#[trigger] g0[i]).trace_id == id;
                    assert(g[i].trace_id == id);
                }
                if id == o.trace_id {
                    assert(g[g0.len() as int].trace_id == id);
                }
                if exists|i: int| 0 <= i < g.len() && (#[trigger] g[i]).trace_id == id {
                    let i = choose|i: int| 0 <= i < g.len() && (#[trigger] g[i]).trace_id == id;
                    if i < g0.len() {
                        assert(g0[i].trace_id == id);
                    }
                }
            }
        }
    }
}

/// Two sums that are wrapped around add up to the sum of both, wrapped around.
proof fn lemma_wrapped_sums(sum_a: int, a: i64, sum_b: int, b: i64, z: i64)
    requires
        sums::wraps_to(sum_a, a as int),
        sums::wraps_to(sum_b, b as int),
        sums::wraps_to(sum_a + sum_b, z as int),
    ensures
        z == a.wrapping_add(b),
{
}

/// Usages that tell of two lists add up to one that tells of both.
proof fn lemma_usages_add(
    x: metrics_daily::UsageModel,
    y: metrics_daily::UsageModel,
    z: metrics_daily::UsageModel,
    ga: Seq<rows::ObservationModel>,
    gb: Seq<rows::ObservationModel>,
)
    requires
        tells_of(x, ga),
        tells_of(y, gb),
        tells_of(z, ga + gb),
    ensures
        z.input == x.input.wrapping_add(y.input),
        z.output == x.output.wrapping_add(y.output),
        z.total == x.total.wrapping_add(y.total),
        z.observations == x.observations + y.observations,
        z.costs == x.costs + y.costs,
{
    sums::lemma_total_joined(ga, gb, tokens_in());
    sums::lemma_total_joined(ga, gb, tokens_out());
    sums::lemma_total_joined(ga, gb, tokens_all());
    lemma_wrapped_sums(
        sums::total(ga, tokens_in()),
        x.input,
        sums::total(gb, tokens_in()),
        y.input,
        z.input,
    );
    lemma_wrapped_sums(
        sums::total(ga, tokens_out()),
        x.output,
        sums::total(gb, tokens_out()),
        y.output,
        z.output,
    );
    lemma_wrapped_sums(
        sums::total(ga, tokens_all()),
        x.total,
        sums::total(gb, tokens_all()),
        y.total,
        z.total,
    );
    assert(z.costs =~= x.costs + y.costs);
}

/// Usages that tell of one list have the same sums.
proof fn lemma_usages_alike(
    x: metrics_daily::UsageModel,
    z: metrics_daily::UsageModel,
    g: Seq<rows::ObservationModel>,
)
    requires
        tells_of(x, g),
        tells_of(z, g),
    ensures
        z.input == x.input,
        z.output == x.output,
        z.total == x.total,
{
    lemma_wrapped_sums(sums::total(g, tokens_in()), x.input, 0, 0, z.input);
    lemma_wrapped_sums(sums::total(g, tokens_out()), x.output, 0, 0, z.output);
    lemma_wrapped_sums(sums::total(g, tokens_all()), x.total, 0, 0, z.total);
}

/// The usage of two lists of observations joined is the sum of their usages, field
/// by field.
pub proof fn lemma_usage_joined(
    a: Seq<rows::ObservationModel>,
    b: Seq<rows::ObservationModel>,
    k: Seq<char>,
)
    ensures
        ({
            let (x, y, z) = (
                metrics_daily::usage_of(a),
                metrics_daily::usage_of(b),
                metrics_daily::usage_of(a + b),
            );
            &&& z.contains_key(k) == (x.contains_key(k) || y.contains_key(k))
            &&& x.contains_key(k) && !y.contains_key(k) ==> z[k].total == x[k].total
                && z[k].input == x[k].input && z[k].output == x[k].output
            &&& y.contains_key(k) && !x.contains_key(k) ==> z[k].total == y[k].total
                && z[k].input == y[k].input && z[k].output == y[k].output
            &&& x.contains_key(k) && y.contains_key(k) ==> {
                &&& z[k].input == x[k].input.wrapping_add(y[k].input)
                &&& z[k].output == x[k].output.wrapping_add(y[k].output)
                &&& z[k].total == x[k].total.wrapping_add(y[k].total)
                &&& z[k].observations == x[k].observations + y[k].observations
                &&& z[k].costs == x[k].costs + y[k].costs
            }
        }),
{
    let (x, y, z) = (
        metrics_daily::usage_of(a),
        metrics_daily::usage_of(b),
        metrics_daily::usage_of(a + b),
    );
    lemma_usage_adds_up(a, k);
    lemma_usage_adds_up(b, k);
    lemma_usage_adds_up(a + b, k);
    Seq::filter_distributes_over_add(a, b, by_model(k));
    let ga = a.filter(by_model(k));
    let gb = b.filter(by_model(k));
    assert((a + b).filter(by_model(k)) == ga + gb);
    if x.contains_key(k) && y.contains_key(k) {
        lemma_usages_add(x[k], y[k], z[k], ga, gb);
    } else if x.contains_key(k) {
        assert(ga + gb =~= ga);
        lemma_usages_alike(x[k], z[k], ga);
    } else if y.contains_key(k) {
        assert(ga + gb =~= gb);
        lemma_usages_alike(y[k], z[k], gb);
    }
}

/// The traces whose instant lies on a day, which has 86400 seconds.
pub open spec fn on_day(day: int) -> spec_fn(rows::TraceModel) -> bool {
    |t: rows::TraceModel| day * 86400 <= t.timestamp@.0 < (day + 1) * 86400
}

/// The observations of the traces of a list that lie on a day.
pub open spec fn of_day(traces: Seq<rows::TraceModel>, day: int) -> spec_fn(
    rows::ObservationModel,
) -> bool {
    |o: rows::ObservationModel|
        exists|i: int|
            0 <= i < traces.len() && (#[trigger] traces[i]).id == o.trace_id && on_day(day)(
                traces[i],
            )
}

proof fn lemma_traces_of_day(s: Seq<rows::TraceModel>, day: int)
    ensures
        metrics_daily::traces_on(s, day) == s.filter(on_day(day)),
    decreases s.len(),
{
    reveal(Seq::filter);
    if s.len() > 0 {
        lemma_traces_of_day(s.drop_last(), day);
        time::lemma_day_bounds(s.last().timestamp@);
    }
}

proof fn lemma_day_with_id(s: Seq<rows::TraceModel>, id: u128, day: int)
    requires
        forall|i: int, j: int| 0 <= i < j < s.len() ==> (#[trigger] s[i]).id != (#[trigger] s[j]).id,
    ensures
        metrics_daily::day_with(s, id) == Some(day) <==> exists|i: int|
            0 <= i < s.len() && (#[trigger] s[i]).id == id && on_day(day)(s[i]),
    decreases s.len(),
{
    if s.len() > 0 {
        let head = s.drop_last();
        assert forall|i: int, j: int| 0 <= i < j < head.len() implies (#[trigger] head[i]).id != (
        #[trigger] head[j]).id by {
            assert(head[i] == s[i] && head[j] == s[j]);
        }
        lemma_day_with_id(head, id, day);
        time::lemma_day_bounds(s.last().timestamp@);
        assert(s[s.len() - 1] == s.last());
        if s.last().id == id {
            assert forall|i: int| 0 <= i < s.len() && (#[trigger] s[i]).id == id implies i
                == s.len() - 1 by {
                if i < s.len() - 1 {
                    assert(s[i].id != s[s.len() - 1].id);
                }
            }
        } else {
            if exists|i: int| 0 <= i < head.len() && (#[trigger] head[i]).id == id && on_day(day)(
                head[i],
            ) {
                let i = choose|i: int|
                    0 <= i < head.len() && (#[trigger] head[i]).id == id && on_day(day)(head[i]);
                assert(s[i] == head[i]);
            }
            if exists|i: int| 0 <= i < s.len() && (#[trigger] s[i]).id == id && on_day(day)(s[i]) {
                let i = choose|i: int|
                    0 <= i < s.len() && (#[trigger] s[i]).id == id && on_day(day)(s[i]);
                assert(head[i] == s[i]);
            }
        }
    }
}

proof fn lemma_observations_of_day(
    s: Seq<rows::ObservationModel>,
    traces: Seq<rows::TraceModel>,
    day: int,
)
    requires
        forall|i: int, j: int|
            0 <= i < j < traces.len() ==> (#[trigger] traces[i]).id != (#[trigger] traces[j]).id,
    ensures
        metrics_daily::observations_on(s, traces, day) == s.filter(of_day(traces, day)),
    decreases s.len(),
{
    reveal(Seq::filter);
    if s.len() > 0 {
        lemma_observations_of_day(s.drop_last(), traces, day);
        lemma_day_with_id(traces, s.last().trace_id, day);
    }
}

/// What a trace cost.
pub open spec fn cost_of_trace() -> spec_fn(rows::TraceModel) -> Double {
    |t: rows::TraceModel|
        if t.total_cost is Some {
            t.total_cost->0
        } else {
            (Double { bits: 0 })
        }
}

/// Whether a listed usage tells what generations report.
pub open spec fn usage_tells_of(u: ModelUsage, g: Seq<rows::ObservationModel>) -> bool {
    &&& sums::wraps_to(sums::total(g, tokens_in()), u.input_usage as int)
    &&& sums::wraps_to(sums::total(g, tokens_out()), u.output_usage as int)
    &&& sums::wraps_to(sums::total(g, tokens_all()), u.total_usage as int)
    &&& u.count_observations == g.len()
    &&& forall|id: u128| #[trigger]
        u.trace_ids@.contains(id) <==> exists|i: int|
            0 <= i < g.len() && (#[trigger] g[i]).trace_id == id
    &&& u.costs@ == g.map_values(cost_of_one())
}

/// What a report says of a day: how many of the traces lie on it and what they cost,
/// how many observations those traces have, and for each model of the generations
/// among these, and for no other, the sums of what they report.
pub proof fn lemma_day_tells(
    groups: Seq<DayGroup>,
    traces: Seq<rows::TraceModel>,
    observations: Seq<rows::ObservationModel>,
    n: int,
    k: Seq<char>,
)
    requires
        metrics_daily::lists_days(groups, traces, observations),
        0 <= n < groups.len(),
        forall|i: int, j: int|
            0 <= i < j < traces.len() ==> (#[trigger] traces[i]).id != (#[trigger] traces[j]).id,
    ensures
        ({
            let g = groups[n];
            let day = g.day as int;
            let obs = observations.filter(of_day(traces, day));
            let made = obs.filter(by_model(k));
            &&& g.count_traces == traces.filter(on_day(day)).len()
            &&& g.count_traces > 0
            &&& g.costs@ == traces.filter(on_day(day)).map_values(cost_of_trace())
            &&& g.count_observations == obs.len()
            &&& forall|i: int|
                0 <= i < g.usage@.len() && (#[trigger] g.usage@[i]).model@ == k ==> made.len() > 0
                    && usage_tells_of(g.usage@[i], made)
            &&& made.len() > 0 ==> exists|i: int|
                0 <= i < g.usage@.len() && (#[trigger] g.usage@[i]).model@ == k
            &&& forall|i: int, j: int|
                0 <= i < j < g.usage@.len() ==> text::text_lt(
                    (#[trigger] g.usage@[i]).model@,
                    (#[trigger] g.usage@[j]).model@,
                )
        }),
{
    let g = groups[n];
    let day = g.day as int;
    assert(metrics_daily::is_day(g, traces, observations));
    lemma_traces_of_day(traces, day);
    lemma_observations_of_day(observations, traces, day);
    let obs = observations.filter(of_day(traces, day));
    let on = traces.filter(on_day(day));
    lemma_usage_adds_up(obs, k);
    assert(metrics_daily::trace_costs(on) =~= on.map_values(cost_of_trace()));
    assert forall|i: int| 0 <= i < g.usage@.len() && (#[trigger] g.usage@[i]).model@ == k implies
        obs.filter(by_model(k)).len() > 0 && usage_tells_of(g.usage@[i], obs.filter(by_model(k))) by {
        assert(metrics_daily::is_usage(g.usage@[i], metrics_daily::usage_of(obs)[k]));
    }
}

/// Every day on which a trace lies is reported, and no other, the earlier before the
/// later.
pub proof fn lemma_days_of_traces(
    groups: Seq<DayGroup>,
    traces: Seq<rows::TraceModel>,
    observations: Seq<rows::ObservationModel>,
    day: int,
)
    requires
        metrics_daily::lists_days(groups, traces, observations),
    ensures
        (exists|n: int| 0 <= n < groups.len() && (#[trigger] groups[n]).day == day) <==> (exists|
            i: int,
        | 0 <= i < traces.len() && on_day(day)(#[trigger] traces[i])),
        forall|m: int, n: int|
            0 <= m < n < groups.len() ==> (#[trigger] groups[m]).day < (#[trigger] groups[n]).day,
{
    if exists|n: int| 0 <= n < groups.len() && (#[trigger] groups[n]).day == day {
        let n = choose|n: int| 0 <= n < groups.len() && (#[trigger] groups[n]).day == day;
        assert(metrics_daily::is_day(groups[n], traces, observations));
        lemma_traces_of_day(traces, day);
        let f = traces.filter(on_day(day));
        assert(f.len() > 0);
        traces.lemma_filter_pred(on_day(day), 0);
        assert(f.contains(f[0]));
        traces.lemma_filter_contains_rev(on_day(day), f[0]);
        let i = choose|i: int| 0 <= i < traces.len() && traces[i] == f[0];
        assert(on_day(day)(traces[i]));
    }
    if exists|i: int| 0 <= i < traces.len() && on_day(day)(#[trigger] traces[i]) {
        let i = choose|i: int| 0 <= i < traces.len() && on_day(day)(#[trigger] traces[i]);
        time::lemma_day_bounds(traces[i].timestamp@);
        let n = choose|n: int|
            0 <= n < groups.len() && (#[trigger] groups[n]).day == metrics_daily::day_of_trace(
                traces[i],
            );
        assert(groups[n].day == day);
    }
}

/// The traces of a project that a report is asked for: inside the window, both ends
/// included, with the name, the user, the version and the release that are asked
/// for, and with every tag.
pub open spec fn asked_for(f: DailyFilter, project: Seq<char>, w: Window) -> spec_fn(
    rows::TraceModel,
) -> bool {
    |t: rows::TraceModel|
        {
            &&& t.project_id == project
            &&& time::ticks(w.from@) <= time::ticks(t.timestamp@) <= time::ticks(w.to@)
            &&& f.trace_name is Some ==> t.name == Some(f.trace_name->0@)
            &&& f.user_id is Some ==> t.user_id == Some(f.user_id->0@)
            &&& f.version is Some ==> t.version == Some(f.version->0@)
            &&& f.release is Some ==> t.release == Some(f.release->0@)
            &&& forall|i: int| 0 <= i < f.tags@.len() ==> t.tags.contains((#[trigger] f.tags@[i])@)
        }
}

/// A report counts exactly the traces that it is asked for, in their order.
pub proof fn lemma_report_counts_what_is_asked_for(
    f: DailyFilter,
    project: Seq<char>,
    w: Window,
    s: Seq<rows::TraceModel>,
)
    requires
        time::valid_instant(w.from@.0, w.from@.1),
        time::valid_instant(w.to@.0, w.to@.1),
        forall|i: int|
            0 <= i < s.len() ==> time::valid_instant(
                (#[trigger] s[i]).timestamp@.0,
                s[i].timestamp@.1,
            ),
    ensures
        metrics_daily::counted_traces(f, project, w, s) == s.filter(asked_for(f, project, w)),
    decreases s.len(),
{
    reveal(Seq::filter);
    if s.len() > 0 {
        let t = s.last();
        assert forall|i: int| 0 <= i < s.drop_last().len() implies time::valid_instant(
            (#[trigger] s.drop_last()[i]).timestamp@.0,
            s.drop_last()[i].timestamp@.1,
        ) by {
            assert(s.drop_last()[i] == s[i]);
        }
        lemma_report_counts_what_is_asked_for(f, project, w, s.drop_last());
        assert(s[s.len() - 1] == t);
        time::lemma_earlier_counts(t.timestamp@, w.from@);
        time::lemma_earlier_counts(w.to@, t.timestamp@);
        assert((forall|i: int|
            0 <= i < f.tags@.len() ==> t.tags.contains((#[trigger] f.tags@[i])@)) <==> (forall|
            i: int,
        |
            0 <= i < f.tags@.len() ==> t.tags.contains(#[trigger] text::texts(f.tags@)[i]))) by {
            if forall|i: int|
                0 <= i < f.tags@.len() ==> t.tags.contains((#[trigger] f.tags@[i])@) {
                assert forall|i: int| 0 <= i < f.tags@.len() implies t.tags.contains(
                    #[trigger] text::texts(f.tags@)[i],
                ) by {
                    assert(t.tags.contains(f.tags@[i]@));
                }
            }
            if forall|i: int|
                0 <= i < f.tags@.len() ==> t.tags.contains(#[trigger] text::texts(f.tags@)[i]) {
                assert forall|i: int| 0 <= i < f.tags@.len() implies t.tags.contains(
                    (#[trigger] f.tags@[i])@,
                ) by {
                    assert(t.tags.contains(text::texts(f.tags@)[i]));
                }
            }
        }
    }
}

/// A page is the one that is asked for, the first where that is none; it holds as
/// many items as are asked for, at least one and at most 200, and 50 where nothing is
/// asked for; and as many full pages go before it as it says.
pub proof fn lemma_pages_as_asked_for(page: Option<i64>, limit: Option<i64>)
    ensures
        metrics_daily::page_number(page) >= 1,
        page matches Some(n) ==> (n >= 1 ==> metrics_daily::page_number(page) == n),
        !(page matches Some(n) && n >= 1) ==> metrics_daily::page_number(page) == 1,
        1 <= metrics_daily::page_limit(limit) <= 200,
        limit matches Some(n) ==> (1 <= n <= 200 ==> metrics_daily::page_limit(limit) == n),
        limit matches Some(n) && n < 1 ==> metrics_daily::page_limit(limit) == 1,
        limit matches Some(n) && n > 200 ==> metrics_daily::page_limit(limit) == 200,
        limit is None ==> metrics_daily::page_limit(limit) == 50,
{
}

/// The pages are as many as it takes: with one page less an item would be left over,
/// and where there are no items there is no page.
pub proof fn lemma_as_many_pages_as_needed(total: nat, limit: nat)
    requires
        limit > 0,
    ensures
        metrics_daily::pages_for(total, limit) * limit >= total,
        total > 0 ==> (metrics_daily::pages_for(total, limit) - 1) * limit < total,
        metrics_daily::pages_for(total, limit) == 0 <==> total == 0,
{
    let t = total as int;
    let l = limit as int;
    if t > 0 {
        let n = (t + l - 1) / l;
        assert(n * l >= t && (n - 1) * l < t && n > 0) by (nonlinear_arith)
            requires
                l > 0,
                t > 0,
                n == (t + l - 1) / l,
        ;
    } else {
        assert(0 * limit == 0);
    }
}

}
