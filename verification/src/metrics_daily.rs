//! Traces and model usage by day.

use std::collections::{HashMap, HashSet};
use vstd::prelude::*;

use crate::memory_db;
use crate::memory_db::MemoryDb;
use crate::metrics_query;
use crate::metrics_query::Window;
use crate::number::Double;
use crate::order;
use crate::order::{sort, Ranked};
use crate::rows;
use crate::rows::{ObservationRow, TraceRow};
use crate::text;
use crate::text::{comes_before, contains_text, same, same_opt};
use crate::time;
use crate::time::date_text;

verus! {

/// Which traces a query of days counts, besides its stretch of time.
#[derive(Debug)]
pub struct DailyFilter {
    pub trace_name: Option<String>,
    pub user_id: Option<String>,
    pub tags: Vec<String>,
    pub version: Option<String>,
    pub release: Option<String>,
}

/// A page of an answer: which one, how long, and how much goes before it.
#[derive(Debug, Clone, Copy, PartialEq, Eq, Structural)]
pub struct Page {
    pub page: i64,
    pub limit: i64,
    pub offset: i64,
}

/// The number of the page that is asked for: the first where none is, or none
/// that there is.
pub open spec fn page_number(page: Option<i64>) -> i64 {
    match page {
        Some(n) => if n > 1 {
            n
        } else {
            1
        },
        None => 1,
    }
}

/// How long a page is: 50 where nothing is asked for, and from 1 to 200.
pub open spec fn page_limit(limit: Option<i64>) -> i64 {
    match limit {
        Some(n) => if n < 1 {
            1
        } else if n > 200 {
            200
        } else {
            n
        },
        None => 50,
    }
}

/// The number of the page that is asked for.
fn number_of(page: Option<i64>) -> (r: i64)
    ensures
        r == page_number(page),
        r >= 1,
{
    match page {
        Some(n) => if n > 1 {
            n
        } else {
            1
        },
        None => 1,
    }
}

/// How long a page is.
fn limit_of(limit: Option<i64>) -> (r: i64)
    ensures
        r == page_limit(limit),
        1 <= r <= 200,
{
    match limit {
        Some(l) => if l < 1 {
            1
        } else if l > 200 {
            200
        } else {
            l
        },
        None => 50,
    }
}

/// Whether it can be counted how much goes before the page that is asked for.
pub fn page_fits(page: Option<i64>, limit: Option<i64>) -> (r: bool)
    ensures
        r == ((page_number(page) - 1) * page_limit(limit) <= i64::MAX),
{
    let n = number_of(page);
    let l = limit_of(limit);
    assert(0 <= (n - 1) * l) by (nonlinear_arith)
        requires
            n >= 1,
            l >= 1,
    ;
    (n - 1).checked_mul(l).is_some()
}

/// The page that is asked for.
pub fn page_of(page: Option<i64>, limit: Option<i64>) -> (r: Page)
    requires
        (page_number(page) - 1) * page_limit(limit) <= i64::MAX,
    ensures
        r.page == page_number(page),
        r.limit == page_limit(limit),
        r.offset == (r.page - 1) * r.limit,
        r.page >= 1,
        1 <= r.limit <= 200,
        r.offset >= 0,
{
    let n = number_of(page);
    let l = limit_of(limit);
    assert(0 <= (n - 1) * l) by (nonlinear_arith)
        requires
            n >= 1,
            l >= 1,
    ;
    Page { page: n, limit: l, offset: (n - 1) * l }
}

/// How many pages of `limit` items `total` items fill.
pub open spec fn pages_for(total: nat, limit: nat) -> nat {
    if total == 0 {
        0
    } else {
        ((total + limit - 1) as nat) / limit
    }
}

/// How many pages of `limit` items `total` items fill.
pub fn page_count(total: u64, limit: u64) -> (r: u64)
    requires
        limit > 0,
    ensures
        r == pages_for(total as nat, limit as nat),
{
    if total == 0 {
        0
    } else {
        let full = (total - 1) / limit;
        proof {
            let t = total as int;
            let l = limit as int;
            assert((t + l - 1) / l == (t - 1) / l + 1) by (nonlinear_arith)
                requires
                    t >= 1,
                    l >= 1,
            ;
            assert((t - 1) / l <= t - 1) by (nonlinear_arith)
                requires
                    t >= 1,
                    l >= 1,
            ;
        }
        full + 1
    }
}

/// Whether a filter that may be missing lets a value through.
pub open spec fn lets_through(filter: Option<Seq<char>>, value: Option<Seq<char>>) -> bool {
    filter is Some ==> value == filter
}

/// Whether a trace is counted.
pub open spec fn counted(f: DailyFilter, project: Seq<char>, w: Window, t: rows::TraceModel) -> bool {
    &&& t.project_id == project
    &&& metrics_query::within(w, t.timestamp)
    &&& lets_through(text::opt_text(f.trace_name), t.name)
    &&& lets_through(text::opt_text(f.user_id), t.user_id)
    &&& forall|i: int|
        0 <= i < f.tags@.len() ==> t.tags.contains((#[trigger] text::texts(f.tags@)[i]))
    &&& lets_through(text::opt_text(f.version), t.version)
    &&& lets_through(text::opt_text(f.release), t.release)
}

/// The traces that are counted.
pub open spec fn counted_traces(
    f: DailyFilter,
    project: Seq<char>,
    w: Window,
    s: Seq<rows::TraceModel>,
) -> Seq<rows::TraceModel>
    decreases s.len(),
{
    if s.len() == 0 {
        s
    } else {
        let head = counted_traces(f, project, w, s.drop_last());
        if counted(f, project, w, s.last()) {
            head.push(s.last())
        } else {
            head
        }
    }
}

/// Whether a filter that may be missing lets a value through.
fn passes(filter: &Option<String>, value: &Option<String>) -> (r: bool)
    ensures
        r == lets_through(text::opt_text(*filter), text::opt_text(*value)),
{
    filter.is_none() || same_opt(value, filter)
}

/// Whether a trace is counted.
fn is_counted(f: &DailyFilter, project_id: &str, w: &Window, t: &TraceRow) -> (r: bool)
    ensures
        r == counted(*f, project_id@, *w, t@),
{
    if !same(t.project_id.as_str(), project_id) || !w.holds(&t.timestamp) {
        return false;
    }
    if !passes(&f.trace_name, &t.name) || !passes(&f.user_id, &t.user_id) || !passes(
        &f.version,
        &t.version,
    ) || !passes(&f.release, &t.release) {
        return false;
    }
    let mut i: usize = 0;
    while i < f.tags.len()
        invariant
            0 <= i <= f.tags@.len(),
            forall|j: int|
                0 <= j < i ==> text::texts(t.tags@).contains((#[trigger] text::texts(f.tags@)[j])),
        decreases f.tags.len() - i,
    {
        assert(text::texts(f.tags@)[i as int] == f.tags@[i as int]@);
        if !contains_text(&t.tags, f.tags[i].as_str()) {
            return false;
        }
        i += 1;
    }
    true
}

/// The traces that are counted.
fn count_traces(f: &DailyFilter, project_id: &str, w: &Window, traces: Vec<TraceRow>) -> (r: Vec<
    TraceRow,
>)
    ensures
        rows::trace_models(r@) == counted_traces(*f, project_id@, *w, rows::trace_models(traces@)),
{
    let ghost all = traces@;
    let ghost models = rows::trace_models(all);
    let mut out: Vec<TraceRow> = Vec::new();
    assert(models.take(0) =~= Seq::<rows::TraceModel>::empty());
    assert(rows::trace_models(out@) =~= Seq::<rows::TraceModel>::empty());
    for t in it: traces
        invariant
            it.seq() == all,
            models == rows::trace_models(all),
            rows::trace_models(out@) == counted_traces(
                *f,
                project_id@,
                *w,
                models.take(it.index() as int),
            ),
    {
        let ghost i = it.index() as int;
        assert(models.take(i + 1).drop_last() =~= models.take(i));
        assert(models.take(i + 1).last() == t@);
        if is_counted(f, project_id, w, &t) {
            let ghost before = out@;
            out.push(t);
            assert(rows::trace_models(out@) =~= rows::trace_models(before).push(t@));
        }
    }
    assert(models.take(models.len() as int) =~= models);
    out
}

/// The day of a trace.
pub open spec fn day_of_trace(t: rows::TraceModel) -> int {
    time::day_of(t.timestamp@)
}

/// The traces of a day.
pub open spec fn traces_on(s: Seq<rows::TraceModel>, day: int) -> Seq<rows::TraceModel>
    decreases s.len(),
{
    if s.len() == 0 {
        s
    } else {
        let head = traces_on(s.drop_last(), day);
        if day_of_trace(s.last()) == day {
            head.push(s.last())
        } else {
            head
        }
    }
}

/// The day of the trace with an id, if there is one.
pub open spec fn day_with(s: Seq<rows::TraceModel>, id: u128) -> Option<int>
    decreases s.len(),
{
    if s.len() == 0 {
        None
    } else if s.last().id == id {
        Some(day_of_trace(s.last()))
    } else {
        day_with(s.drop_last(), id)
    }
}

/// The observations of the traces of a day.
pub open spec fn observations_on(
    s: Seq<rows::ObservationModel>,
    traces: Seq<rows::TraceModel>,
    day: int,
) -> Seq<rows::ObservationModel>
    decreases s.len(),
{
    if s.len() == 0 {
        s
    } else {
        let head = observations_on(s.drop_last(), traces, day);
        if day_with(traces, s.last().trace_id) == Some(day) {
            head.push(s.last())
        } else {
            head
        }
    }
}

/// A cost, zero where there is none.
pub open spec fn cost_or_zero(c: Option<Double>) -> Double {
    match c {
        Some(d) => d,
        None => Double { bits: 0 },
    }
}

/// A number of tokens, zero where there is none.
pub open spec fn tokens_or_zero(n: Option<i64>) -> i64 {
    match n {
        Some(k) => k,
        None => 0,
    }
}

/// The model that an observation names, or a word for none.
pub open spec fn model_name(o: rows::ObservationModel) -> Seq<char> {
    match o.model {
        Some(m) => if m.len() > 0 {
            m
        } else {
            "unknown"@
        },
        None => "unknown"@,
    }
}

/// What a model was used for: tokens, in sums that wrap around, the traces and
/// the observations, and the costs of the latter.
pub ghost struct UsageModel {
    pub input: i64,
    pub output: i64,
    pub total: i64,
    pub traces: Set<u128>,
    pub observations: nat,
    pub costs: Seq<Double>,
}

/// A model that was not used.
pub open spec fn no_usage() -> UsageModel {
    UsageModel {
        input: 0,
        output: 0,
        total: 0,
        traces: Set::empty(),
        observations: 0,
        costs: Seq::empty(),
    }
}

/// A usage with one observation more.
pub open spec fn used_by(u: UsageModel, o: rows::ObservationModel) -> UsageModel {
    UsageModel {
        input: u.input.wrapping_add(tokens_or_zero(o.prompt_tokens)),
        output: u.output.wrapping_add(tokens_or_zero(o.completion_tokens)),
        total: u.total.wrapping_add(tokens_or_zero(o.total_tokens)),
        traces: u.traces.insert(o.trace_id),
        observations: u.observations + 1,
        costs: u.costs.push(cost_or_zero(o.calculated_total_cost)),
    }
}

/// The usage of each model by the generations among observations.
pub open spec fn usage_of(s: Seq<rows::ObservationModel>) -> Map<Seq<char>, UsageModel>
    decreases s.len(),
{
    if s.len() == 0 {
        Map::empty()
    } else {
        let m = usage_of(s.drop_last());
        let o = s.last();
        if o.obs_type == "GENERATION"@ {
            let k = model_name(o);
            m.insert(
                k,
                used_by(
                    if m.contains_key(k) {
                        m[k]
                    } else {
                        no_usage()
                    },
                    o,
                ),
            )
        } else {
            m
        }
    }
}

/// The usage of a model.
#[derive(Debug)]
pub struct ModelUsage {
    pub model: String,
    pub input_usage: i64,
    pub output_usage: i64,
    pub total_usage: i64,
    pub trace_ids: HashSet<u128>,
    pub count_observations: usize,
    pub costs: Vec<Double>,
}

/// Whether a usage is what `m` says.
pub open spec fn is_usage(u: ModelUsage, m: UsageModel) -> bool {
    &&& u.input_usage == m.input
    &&& u.output_usage == m.output
    &&& u.total_usage == m.total
    &&& u.trace_ids@ == m.traces
    &&& u.count_observations == m.observations
    &&& u.costs@ == m.costs
}

/// Whether `s` lists the usages of `m` in the order of the models.
pub open spec fn lists_usage(s: Seq<ModelUsage>, m: Map<Seq<char>, UsageModel>) -> bool {
    &&& forall|i: int, j: int|
        0 <= i < j < s.len() ==> text::text_lt((#[trigger] s[i]).model@, (#[trigger] s[j]).model@)
    &&& forall|i: int|
        0 <= i < s.len() ==> m.contains_key((#[trigger] s[i]).model@) && is_usage(
            s[i],
            m[s[i].model@],
        )
    &&& forall|k: Seq<char>| #[trigger]
        m.contains_key(k) ==> exists|i: int| 0 <= i < s.len() && (#[trigger] s[i]).model@ == k
}

/// No model was used by more observations than there are.
proof fn lemma_usage_bounded(s: Seq<rows::ObservationModel>, k: Seq<char>)
    ensures
        usage_of(s).contains_key(k) ==> usage_of(s)[k].observations <= s.len(),
    decreases s.len(),
{
    if s.len() > 0 {
        lemma_usage_bounded(s.drop_last(), k);
    }
}

/// A list of usages with one put in the place of another, or between others.
proof fn lemma_usage_listed(
    before: Seq<ModelUsage>,
    m: Map<Seq<char>, UsageModel>,
    k: int,
    x: ModelUsage,
    model: UsageModel,
    now: Seq<ModelUsage>,
)
    requires
        lists_usage(before, m),
        is_usage(x, model),
        ({
            ||| 0 <= k < before.len() && before[k].model@ == x.model@ && now == before.update(k, x)
            ||| {
                &&& 0 <= k <= before.len()
                &&& forall|j: int| 0 <= j < k ==> text::text_lt((#[trigger] before[j]).model@, x.model@)
                &&& forall|j: int|
                    k <= j < before.len() ==> text::text_lt(x.model@, (#[trigger] before[j]).model@)
                &&& now == before.insert(k, x)
            }
        }),
    ensures
        lists_usage(now, m.insert(x.model@, model)),
{
    let after = m.insert(x.model@, model);
    if now.len() == before.len() {
        assert(now == before.update(k, x));
        assert forall|i: int, j: int| 0 <= i < j < now.len() implies text::text_lt(
            (#[trigger] now[i]).model@,
            (#[trigger] now[j]).model@,
        ) by {
            assert(now[i].model@ == before[i].model@ && now[j].model@ == before[j].model@);
        }
        assert forall|i: int| 0 <= i < now.len() implies after.contains_key(
            (#[trigger] now[i]).model@,
        ) && is_usage(now[i], after[now[i].model@]) by {
            if i != k {
                assert(now[i] == before[i]);
                if i < k {
                    assert(text::text_lt(before[i].model@, before[k].model@));
                } else {
                    assert(text::text_lt(before[k].model@, before[i].model@));
                }
                text::lemma_text_lt_total(before[i].model@, x.model@);
            }
        }
        assert forall|b: Seq<char>| #[trigger] after.contains_key(b) implies exists|i: int|
            0 <= i < now.len() && (#[trigger] now[i]).model@ == b by {
            assert(m.contains_key(before[k].model@));
            let i = choose|i: int| 0 <= i < before.len() && (#[trigger] before[i]).model@ == b;
            assert(now[i].model@ == b);
        }
    } else {
        assert forall|i: int, j: int| 0 <= i < j < now.len() implies text::text_lt(
            (#[trigger] now[i]).model@,
            (#[trigger] now[j]).model@,
        ) by {
            if i < k && j > k {
                assert(now[i] == before[i] && now[j] == before[j - 1]);
            } else if j < k {
                assert(now[i] == before[i] && now[j] == before[j]);
            } else if i > k {
                assert(now[i] == before[i - 1] && now[j] == before[j - 1]);
            } else if i == k {
                assert(now[j] == before[j - 1]);
            } else {
                assert(now[i] == before[i]);
            }
        }
        assert forall|i: int| 0 <= i < now.len() implies after.contains_key(
            (#[trigger] now[i]).model@,
        ) && is_usage(now[i], after[now[i].model@]) by {
            if i < k {
                assert(now[i] == before[i]);
                text::lemma_text_lt_total(before[i].model@, x.model@);
            } else if i > k {
                assert(now[i] == before[i - 1]);
                text::lemma_text_lt_total(before[i - 1].model@, x.model@);
            }
        }
        assert forall|b: Seq<char>| #[trigger] after.contains_key(b) implies exists|i: int|
            0 <= i < now.len() && (#[trigger] now[i]).model@ == b by {
            if b == x.model@ {
                assert(now[k].model@ == b);
            } else {
                let i = choose|i: int| 0 <= i < before.len() && (#[trigger] before[i]).model@ == b;
                if i < k {
                    assert(now[i].model@ == b);
                } else {
                    assert(now[i + 1].model@ == b);
                }
            }
        }
    }
}

/// Adds an observation to the usage of its model, if it is a generation.
fn add_usage(
    list: &mut Vec<ModelUsage>,
    o: &ObservationRow,
    Ghost(seen): Ghost<Seq<rows::ObservationModel>>,
)
    requires
        lists_usage(old(list)@, usage_of(seen)),
        seen.len() < usize::MAX,
    ensures
        lists_usage(final(list)@, usage_of(seen.push(o@))),
{
    broadcast use vstd::std_specs::hash::group_hash_axioms;

    let ghost m = usage_of(seen);
    proof {
        assert(seen.push(o@).drop_last() =~= seen);
        assert(seen.push(o@).last() == o@);
    }
    if !same(o.obs_type.as_str(), "GENERATION") {
        return ;
    }
    let model: String = match &o.model {
        Some(name) => if name.as_str().is_empty() {
            "unknown".to_owned()
        } else {
            name.clone()
        },
        None => "unknown".to_owned(),
    };
    assert(model@ == model_name(o@));
    let input: i64 = match o.prompt_tokens {
        Some(n) => n,
        None => 0,
    };
    let output: i64 = match o.completion_tokens {
        Some(n) => n,
        None => 0,
    };
    let total: i64 = match o.total_tokens {
        Some(n) => n,
        None => 0,
    };
    let cost: Double = match o.calculated_total_cost {
        Some(d) => d,
        None => Double { bits: 0 },
    };
    let ghost before = list@;
    let mut k: usize = list.len();
    while k > 0 && comes_before(model.as_str(), list[k - 1].model.as_str())
        invariant
            0 <= k <= list@.len(),
            list@ == before,
            forall|j: int|
                k <= j < before.len() ==> text::text_lt(model@, (#[trigger] before[j]).model@),
        decreases k,
    {
        k -= 1;
    }
    if k > 0 && same(list[k - 1].model.as_str(), model.as_str()) {
        let at = k - 1;
        proof {
            assert(m.contains_key(before[at as int].model@));
            lemma_usage_bounded(seen, model@);
        }
        list[at].input_usage = list[at].input_usage.wrapping_add(input);
        list[at].output_usage = list[at].output_usage.wrapping_add(output);
        list[at].total_usage = list[at].total_usage.wrapping_add(total);
        let _ = list[at].trace_ids.insert(o.trace_id);
        list[at].count_observations = list[at].count_observations + 1;
        list[at].costs.push(cost);
        let ghost new_usage = list@[at as int];
        proof {
            assert(list@ =~= before.update(at as int, new_usage));
            lemma_usage_listed(
                before,
                m,
                at as int,
                new_usage,
                used_by(m[model@], o@),
                list@,
            );
        }
    } else {
        let mut trace_ids: HashSet<u128> = HashSet::new();
        let _ = trace_ids.insert(o.trace_id);
        let mut costs: Vec<Double> = Vec::new();
        costs.push(cost);
        let usage = ModelUsage {
            model,
            input_usage: input,
            output_usage: output,
            total_usage: total,
            trace_ids,
            count_observations: 1,
            costs,
        };
        proof {
            assert forall|j: int| 0 <= j < k implies text::text_lt(
                (#[trigger] before[j]).model@,
                model@,
            ) by {
                text::lemma_text_lt_total(model@, before[k - 1].model@);
                if j < k - 1 {
                    assert(text::text_lt(before[j].model@, before[k - 1].model@));
                    text::lemma_text_lt_transitive(before[j].model@, before[k - 1].model@, model@);
                }
            }
            assert forall|j: int| 0 <= j < before.len() implies (#[trigger] before[j]).model@
                != model@ by {
                text::lemma_text_lt_total(model@, before[j].model@);
            }
            assert(!m.contains_key(model@));
            let fresh = used_by(no_usage(), o@);
            assert(fresh.input == input);
            assert(fresh.output == output);
            assert(fresh.total == total);
            assert(usage.trace_ids@ =~= fresh.traces);
            assert(usage.costs@ =~= fresh.costs);
            lemma_usage_listed(before, m, k as int, usage, fresh, before.insert(k as int, usage));
        }
        list.insert(k, usage);
    }
}

/// What happened on a day.
#[derive(Debug)]
pub struct DayGroup {
    pub day: i64,
    pub count_traces: usize,
    pub costs: Vec<Double>,
    pub count_observations: usize,
    pub usage: Vec<ModelUsage>,
}

/// The costs of traces, zero where there is none.
pub open spec fn trace_costs(s: Seq<rows::TraceModel>) -> Seq<Double> {
    s.map_values(|t: rows::TraceModel| cost_or_zero(t.total_cost))
}

/// Whether a group is what traces and observations say of its day.
pub open spec fn is_day(
    g: DayGroup,
    traces: Seq<rows::TraceModel>,
    observations: Seq<rows::ObservationModel>,
) -> bool {
    let on = traces_on(traces, g.day as int);
    let obs = observations_on(observations, traces, g.day as int);
    &&& time::valid_instant(g.day * time::SECONDS_PER_DAY, 0)
    &&& on.len() > 0
    &&& g.count_traces == on.len()
    &&& g.costs@ == trace_costs(on)
    &&& g.count_observations == obs.len()
    &&& lists_usage(g.usage@, usage_of(obs))
}

/// Whether `s` lists the days of traces, in the order of time, none twice.
pub open spec fn lists_days(
    s: Seq<DayGroup>,
    traces: Seq<rows::TraceModel>,
    observations: Seq<rows::ObservationModel>,
) -> bool {
    &&& forall|i: int, j: int| 0 <= i < j < s.len() ==> (#[trigger] s[i]).day < (#[trigger] s[j]).day
    &&& forall|i: int| 0 <= i < s.len() ==> is_day(#[trigger] s[i], traces, observations)
    &&& forall|i: int|
        0 <= i < traces.len() ==> exists|k: int|
            0 <= k < s.len() && (#[trigger] s[k]).day == day_of_trace(#[trigger] traces[i])
}

/// Where the group of a day stands in a list, or would stand.
fn day_place(list: &Vec<DayGroup>, day: i64) -> (r: (usize, bool))
    requires
        forall|i: int, j: int|
            0 <= i < j < list@.len() ==> (#[trigger] list@[i]).day < (#[trigger] list@[j]).day,
    ensures
        r.0 <= list@.len(),
        r.1 ==> r.0 < list@.len() && list@[r.0 as int].day == day,
        !r.1 ==> forall|j: int| 0 <= j < list@.len() ==> (#[trigger] list@[j]).day != day,
        forall|j: int| 0 <= j < r.0 ==> (#[trigger] list@[j]).day < day,
        forall|j: int|
            r.0 <= j < list@.len() ==> day < (#[trigger] list@[j]).day || (r.1 && j == r.0),
{
    let mut k: usize = list.len();
    while k > 0 && day < list[k - 1].day
        invariant
            0 <= k <= list@.len(),
            forall|j: int| k <= j < list@.len() ==> day < (#[trigger] list@[j]).day,
        decreases k,
    {
        k -= 1;
    }
    if k > 0 && list[k - 1].day == day {
        return (k - 1, true);
    }
    (k, false)
}

/// The observations that there are none of.
spec fn no_observations() -> Seq<rows::ObservationModel> {
    Seq::empty()
}

/// The day of a trace with an id is that of a trace.
proof fn lemma_day_with(s: Seq<rows::TraceModel>, id: u128)
    ensures
        day_with(s, id) matches Some(d) ==> exists|i: int|
            0 <= i < s.len() && d == day_of_trace(#[trigger] s[i]),
    decreases s.len(),
{
    if s.len() > 0 {
        if s.last().id == id {
            assert(s[s.len() - 1] == s.last());
        } else {
            let head = s.drop_last();
            lemma_day_with(head, id);
            if day_with(head, id) is Some {
                let d = day_with(head, id)->0;
                let i = choose|i: int| 0 <= i < head.len() && d == day_of_trace(#[trigger] head[i]);
                assert(s[i] == head[i]);
            }
        }
    }
}

/// Adds a trace to the group of its day.
fn add_trace(list: &mut Vec<DayGroup>, t: &TraceRow, Ghost(seen): Ghost<Seq<rows::TraceModel>>)
    requires
        lists_days(old(list)@, seen, no_observations()),
        seen.len() < usize::MAX,
    ensures
        lists_days(final(list)@, seen.push(t@), no_observations()),
{
    let day = t.timestamp.day();
    let cost: Double = match t.total_cost {
        Some(d) => d,
        None => Double { bits: 0 },
    };
    let ghost before = list@;
    let ghost now_seen = seen.push(t@);
    proof {
        assert(now_seen.drop_last() =~= seen);
        assert(now_seen.last() == t@);
        assert forall|d: int| #[trigger] traces_on(now_seen, d) == if d == day {
            traces_on(seen, d).push(t@)
        } else {
            traces_on(seen, d)
        } by {}
        assert forall|i: int| 0 <= i < before.len() && before[i].day != day implies is_day(
            #[trigger] before[i],
            now_seen,
            no_observations(),
        ) by {
            assert(is_day(before[i], seen, no_observations()));
            assert(traces_on(now_seen, before[i].day as int) == traces_on(
                seen,
                before[i].day as int,
            ));
        }
    }
    let (k, found) = day_place(list, day);
    if found {
        proof {
            assert(is_day(before[k as int], seen, no_observations()));
            lemma_part_len(seen, day as int);
        }
        list[k].count_traces = list[k].count_traces + 1;
        list[k].costs.push(cost);
        let ghost now = list@;
        proof {
            assert(forall|j: int| 0 <= j < now.len() && j != k ==> #[trigger] now[j] == before[j]);
            assert(now[k as int].day == before[k as int].day);
            assert(trace_costs(traces_on(now_seen, day as int)) =~= trace_costs(
                traces_on(seen, day as int),
            ).push(cost));
            assert(is_day(now[k as int], now_seen, no_observations()));
            assert forall|i: int| 0 <= i < now.len() implies is_day(
                #[trigger] now[i],
                now_seen,
                no_observations(),
            ) by {
                if i != k {
                    assert(now[i] == before[i]);
                    assert(before[i].day != day);
                }
            }
            assert forall|i: int, j: int| 0 <= i < j < now.len() implies (#[trigger] now[i]).day < (
            #[trigger] now[j]).day by {
                assert(now[i].day == before[i].day && now[j].day == before[j].day);
            }
            assert forall|i: int| 0 <= i < now_seen.len() implies exists|x: int|
                0 <= x < now.len() && (#[trigger] now[x]).day == day_of_trace(
                    #[trigger] now_seen[i],
                ) by {
                if i < seen.len() {
                    assert(now_seen[i] == seen[i]);
                    let x = choose|x: int|
                        0 <= x < before.len() && (#[trigger] before[x]).day == day_of_trace(
                            seen[i],
                        );
                    assert(now[x].day == day_of_trace(now_seen[i]));
                } else {
                    assert(now[k as int].day == day_of_trace(now_seen[i]));
                }
            }
        }
    } else {
        let mut costs: Vec<Double> = Vec::new();
        costs.push(cost);
        let group = DayGroup {
            day,
            count_traces: 1,
            costs,
            count_observations: 0,
            usage: Vec::new(),
        };
        proof {
            assert(traces_on(seen, day as int).len() == 0) by {
                lemma_no_day(seen, day as int, before);
            }
            assert(traces_on(seen, day as int) =~= Seq::<rows::TraceModel>::empty());
            assert(trace_costs(traces_on(now_seen, day as int)) =~= group.costs@);
            assert(observations_on(no_observations(), now_seen, day as int) =~= no_observations());
            assert(is_day(group, now_seen, no_observations()));
        }
        list.insert(k, group);
        let ghost now = list@;
        proof {
            assert(now =~= before.insert(k as int, group));
            assert forall|i: int, j: int| 0 <= i < j < now.len() implies (#[trigger] now[i]).day < (
            #[trigger] now[j]).day by {
                if i < k && j > k {
                    assert(now[i] == before[i] && now[j] == before[j - 1]);
                } else if j < k {
                    assert(now[i] == before[i] && now[j] == before[j]);
                } else if i > k {
                    assert(now[i] == before[i - 1] && now[j] == before[j - 1]);
                } else if i == k {
                    assert(now[j] == before[j - 1]);
                } else {
                    assert(now[i] == before[i]);
                }
            }
            assert forall|i: int| 0 <= i < now.len() implies is_day(
                #[trigger] now[i],
                now_seen,
                no_observations(),
            ) by {
                if i < k {
                    assert(now[i] == before[i]);
                } else if i > k {
                    assert(now[i] == before[i - 1]);
                    assert(before[i - 1].day != day);
                }
            }
            assert forall|i: int| 0 <= i < now_seen.len() implies exists|x: int|
                0 <= x < now.len() && (#[trigger] now[x]).day == day_of_trace(
                    #[trigger] now_seen[i],
                ) by {
                if i < seen.len() {
                    assert(now_seen[i] == seen[i]);
                    let x = choose|x: int|
                        0 <= x < before.len() && (#[trigger] before[x]).day == day_of_trace(
                            seen[i],
                        );
                    if x < k {
                        assert(now[x].day == day_of_trace(now_seen[i]));
                    } else {
                        assert(now[x + 1].day == day_of_trace(now_seen[i]));
                    }
                } else {
                    assert(now[k as int].day == day_of_trace(now_seen[i]));
                }
            }
        }
    }
}

/// A day has no more traces than there are.
proof fn lemma_part_len(s: Seq<rows::TraceModel>, day: int)
    ensures
        traces_on(s, day).len() <= s.len(),
    decreases s.len(),
{
    if s.len() > 0 {
        lemma_part_len(s.drop_last(), day);
    }
}

/// Whether a day is listed.
spec fn has_day(list: Seq<DayGroup>, day: int) -> bool {
    exists|k: int| 0 <= k < list.len() && (#[trigger] list[k]).day == day
}

/// A day that is not listed has no traces.
proof fn lemma_no_day(s: Seq<rows::TraceModel>, day: int, list: Seq<DayGroup>)
    requires
        forall|i: int| 0 <= i < s.len() ==> has_day(list, day_of_trace(#[trigger] s[i])),
        forall|k: int| 0 <= k < list.len() ==> (#[trigger] list[k]).day != day,
    ensures
        traces_on(s, day).len() == 0,
    decreases s.len(),
{
    if s.len() > 0 {
        let head = s.drop_last();
        assert forall|i: int| 0 <= i < head.len() implies has_day(
            list,
            day_of_trace(#[trigger] head[i]),
        ) by {
            assert(head[i] == s[i]);
        }
        lemma_no_day(head, day, list);
        assert(s[s.len() - 1] == s.last());
        assert(has_day(list, day_of_trace(s[s.len() - 1])));
    }
}

/// A day has no more observations than there are.
proof fn lemma_observations_len(
    s: Seq<rows::ObservationModel>,
    traces: Seq<rows::TraceModel>,
    day: int,
)
    ensures
        observations_on(s, traces, day).len() <= s.len(),
    decreases s.len(),
{
    if s.len() > 0 {
        lemma_observations_len(s.drop_last(), traces, day);
    }
}

/// The days of traces, with what their observations used.
pub fn group_days(traces: &Vec<TraceRow>, observations: &Vec<ObservationRow>) -> (r: Vec<DayGroup>)
    ensures
        lists_days(
            r@,
            rows::trace_models(traces@),
            rows::observation_models(observations@),
        ),
{
    broadcast use vstd::std_specs::hash::group_hash_axioms;

    let ghost ts = rows::trace_models(traces@);
    let ghost os = rows::observation_models(observations@);
    let mut list: Vec<DayGroup> = Vec::new();
    let mut day_by_id: HashMap<u128, i64> = HashMap::new();
    let mut i: usize = 0;
    assert(ts.take(0) =~= Seq::<rows::TraceModel>::empty());
    while i < traces.len()
        invariant
            0 <= i <= traces@.len(),
            ts == rows::trace_models(traces@),
            lists_days(list@, ts.take(i as int), no_observations()),
            forall|id: u128|
                match day_with(ts.take(i as int), id) {
                    Some(d) => #[trigger] day_by_id@.contains_key(id) && day_by_id@[id] == d,
                    None => !day_by_id@.contains_key(id),
                },
        decreases traces.len() - i,
    {
        let t = &traces[i];
        proof {
            assert(ts[i as int] == t@);
            assert(ts.take(i + 1) =~= ts.take(i as int).push(t@));
            assert(ts.take(i + 1).drop_last() =~= ts.take(i as int));
        }
        add_trace(&mut list, t, Ghost(ts.take(i as int)));
        let ghost known = day_by_id@;
        day_by_id.insert(t.id, t.timestamp.day());
        proof {
            let t0 = ts.take(i as int);
            let t1 = ts.take(i + 1);
            assert(t1.last() == t@);
            assert forall|id: u128|
                match day_with(t1, id) {
                    Some(d) => #[trigger] day_by_id@.contains_key(id) && day_by_id@[id] == d,
                    None => !day_by_id@.contains_key(id),
                } by {
                assert(day_with(t1, id) == if id == t.id {
                    Some(day_of_trace(t@))
                } else {
                    day_with(t0, id)
                });
                assert(known.contains_key(id) == (day_with(t0, id) is Some));
            }
        }
        i += 1;
    }
    proof {
        assert(ts.take(ts.len() as int) =~= ts);
        assert(os.take(0) =~= no_observations());
    }
    let mut j: usize = 0;
    while j < observations.len()
        invariant
            0 <= j <= observations@.len(),
            os == rows::observation_models(observations@),
            lists_days(list@, ts, os.take(j as int)),
            forall|id: u128|
                match day_with(ts, id) {
                    Some(d) => #[trigger] day_by_id@.contains_key(id) && day_by_id@[id] == d,
                    None => !day_by_id@.contains_key(id),
                },
        decreases observations.len() - j,
    {
        let o = &observations[j];
        let ghost o0 = os.take(j as int);
        let ghost o1 = os.take(j + 1);
        let ghost before = list@;
        proof {
            assert(os[j as int] == o@);
            assert(o1 =~= o0.push(o@));
            assert(o1.drop_last() =~= o0);
        }
        match day_by_id.get(&o.trace_id) {
            Some(day) => {
                let day = *day;
                assert(day_with(ts, o.trace_id) == Some(day as int));
                let (k, found) = day_place(&list, day);
                proof {
                    lemma_day_with(ts, o.trace_id);
                    let x = choose|x: int|
                        0 <= x < ts.len() && day as int == day_of_trace(#[trigger] ts[x]);
                    let y = choose|y: int|
                        0 <= y < before.len() && (#[trigger] before[y]).day == day_of_trace(ts[x]);
                    assert(before[y].day == day);
                    assert(found);
                    assert(is_day(before[k as int], ts, o0));
                    lemma_observations_len(o0, ts, day as int);
                    assert forall|d: int| #[trigger] observations_on(o1, ts, d) == if d == day {
                        observations_on(o0, ts, d).push(o@)
                    } else {
                        observations_on(o0, ts, d)
                    } by {}
                }
                if found {
                    list[k].count_observations = list[k].count_observations + 1;
                    add_usage(
                        &mut list[k].usage,
                        o,
                        Ghost(observations_on(o0, ts, day as int)),
                    );
                }
                let ghost now = list@;
                proof {
                    assert(forall|x: int|
                        0 <= x < now.len() && x != k ==> #[trigger] now[x] == before[x]);
                    assert(is_day(now[k as int], ts, o1));
                    assert forall|x: int| 0 <= x < now.len() implies is_day(
                        #[trigger] now[x],
                        ts,
                        o1,
                    ) by {
                        if x != k {
                            assert(now[x] == before[x]);
                            assert(before[x].day != day);
                            assert(is_day(before[x], ts, o0));
                            assert(observations_on(o1, ts, before[x].day as int)
                                == observations_on(o0, ts, before[x].day as int));
                        }
                    }
                    assert forall|x: int, y: int| 0 <= x < y < now.len() implies (
                    #[trigger] now[x]).day < (#[trigger] now[y]).day by {
                        assert(now[x].day == before[x].day && now[y].day == before[y].day);
                    }
                    assert forall|x: int| 0 <= x < ts.len() implies exists|y: int|
                        0 <= y < now.len() && (#[trigger] now[y]).day == day_of_trace(
                            #[trigger] ts[x],
                        ) by {
                        let y = choose|y: int|
                            0 <= y < before.len() && (#[trigger] before[y]).day == day_of_trace(
                                ts[x],
                            );
                        assert(now[y].day == day_of_trace(ts[x]));
                    }
                }
            },
            None => {
                proof {
                    assert(day_with(ts, o.trace_id) is None);
                    assert forall|x: int| 0 <= x < list@.len() implies is_day(
                        #[trigger] list@[x],
                        ts,
                        o1,
                    ) by {
                        assert(is_day(before[x], ts, o0));
                        assert(observations_on(o1, ts, before[x].day as int) == observations_on(
                            o0,
                            ts,
                            before[x].day as int,
                        ));
                    }
                }
            },
        }
        j += 1;
    }
    assert(os.take(os.len() as int) =~= os);
    list
}

/// A day and its date.
#[derive(Debug)]
pub struct DailyItem {
    pub date: String,
    pub group: DayGroup,
}

/// Later dates stand first.
impl Ranked for DailyItem {
    open spec fn before(&self, other: &DailyItem) -> bool {
        text::text_lt(other.date@, self.date@)
    }

    proof fn order_laws(a: &DailyItem, b: &DailyItem, c: &DailyItem) {
        text::lemma_text_lt_total(a.date@, b.date@);
        text::lemma_text_lt_total(b.date@, c.date@);
        if a.before(c) && !a.before(b) && !b.before(c) {
            if a.date@ == b.date@ || b.date@ == c.date@ {
            } else {
                text::lemma_text_lt_transitive(a.date@, b.date@, c.date@);
                text::lemma_text_lt_total(a.date@, c.date@);
            }
        }
    }

    fn stands_before(&self, other: &DailyItem) -> (r: bool) {
        comes_before(other.date.as_str(), self.date.as_str())
    }
}

/// Whether `items` are the groups with their dates.
pub open spec fn are_dated(items: Seq<DailyItem>, groups: Seq<DayGroup>) -> bool {
    &&& items.len() == groups.len()
    &&& forall|i: int|
        0 <= i < items.len() ==> (#[trigger] items[i]).group == groups[i] && items[i].date@
            == time::date_name(groups[i].day * time::SECONDS_PER_DAY)
}

/// Whether no two items have the same date.
pub open spec fn dates_differ(items: Seq<DailyItem>) -> bool {
    forall|i: int, j: int|
        0 <= i < j < items.len() ==> (#[trigger] items[i]).date@ != (#[trigger] items[j]).date@
}

/// The part of a list that stands on a page.
pub open spec fn part_of<T>(s: Seq<T>, offset: int, limit: int) -> Seq<T> {
    if offset >= s.len() {
        Seq::empty()
    } else if s.len() - offset <= limit {
        s.skip(offset)
    } else {
        s.subrange(offset, offset + limit)
    }
}

/// A page of days, and how many days and pages there are.
#[derive(Debug)]
pub struct DailyAnswer {
    pub items: Vec<DailyItem>,
    pub total_items: usize,
    pub total_pages: u64,
}

/// The groups with their dates.
fn date_groups(groups: Vec<DayGroup>) -> (r: Vec<DailyItem>)
    requires
        forall|i: int|
            0 <= i < groups@.len() ==> time::valid_instant(
                (#[trigger] groups@[i]).day * time::SECONDS_PER_DAY,
                0,
            ),
        forall|i: int, j: int|
            0 <= i < j < groups@.len() ==> (#[trigger] groups@[i]).day < (
            #[trigger] groups@[j]).day,
    ensures
        are_dated(r@, groups@),
        dates_differ(r@),
{
    let ghost all = groups@;
    let mut items: Vec<DailyItem> = Vec::new();
    for group in it: groups
        invariant
            it.seq() == all,
            forall|i: int|
                0 <= i < all.len() ==> time::valid_instant(
                    (#[trigger] all[i]).day * time::SECONDS_PER_DAY,
                    0,
                ),
            forall|i: int, j: int|
                0 <= i < j < all.len() ==> (#[trigger] all[i]).day < (#[trigger] all[j]).day,
            items@.len() == it.index(),
            forall|i: int|
                0 <= i < items@.len() ==> (#[trigger] items@[i]).group == all[i]
                    && items@[i].date@ == time::date_name(all[i].day * time::SECONDS_PER_DAY),
            dates_differ(items@),
    {
        let ghost n = it.index() as int;
        assert(all[n] == group);
        let date = date_text(group.day);
        assert forall|i: int| 0 <= i < items@.len() implies (#[trigger] items@[i]).date@
            != date@ by {
            assert(all[i].day < all[n].day);
            assert(time::valid_instant(all[i].day * time::SECONDS_PER_DAY, 0));
        }
        items.push(DailyItem { date, group });
    }
    items
}

/// Whether an answer is a page of the days of traces, the latest date first.
pub open spec fn is_daily_answer(
    a: DailyAnswer,
    traces: Seq<rows::TraceModel>,
    observations: Seq<rows::ObservationModel>,
    page: Page,
) -> bool {
    exists|groups: Seq<DayGroup>, items: Seq<DailyItem>|
        #![trigger are_dated(items, groups)]
        {
            &&& lists_days(groups, traces, observations)
            &&& are_dated(items, groups)
            &&& dates_differ(items)
            &&& a.items@ == part_of(
                order::sorted(items),
                page.offset as int,
                page.limit as int,
            )
            &&& a.total_items == groups.len()
            &&& a.total_pages == pages_for(groups.len(), page.limit as nat)
        }
}

/// A page of the days of traces, the latest date first.
pub fn daily_page(
    traces: &Vec<TraceRow>,
    observations: &Vec<ObservationRow>,
    page: &Page,
) -> (r: DailyAnswer)
    requires
        page.offset >= 0,
        page.limit > 0,
    ensures
        is_daily_answer(
            r,
            rows::trace_models(traces@),
            rows::observation_models(observations@),
            *page,
        ),
{
    let groups = group_days(traces, observations);
    let ghost all_groups = groups@;
    assert forall|i: int| 0 <= i < groups@.len() implies time::valid_instant(
        (#[trigger] groups@[i]).day * time::SECONDS_PER_DAY,
        0,
    ) by {
        assert(is_day(
            groups@[i],
            rows::trace_models(traces@),
            rows::observation_models(observations@),
        ));
    }
    let items = date_groups(groups);
    let ghost dated = items@;
    proof {
        order::lemma_sorted_same_items(dated);
    }
    let sorted = sort(items);
    let ghost whole = sorted@;
    let total_items = sorted.len();
    let total_pages = page_count(total_items as u64, page.limit as u64);
    let mut kept: Vec<DailyItem> = Vec::new();
    let mut at: u64 = 0;
    let offset: u64 = page.offset as u64;
    let limit: u64 = page.limit as u64;
    assert(kept@ =~= part_of(whole.take(0), offset as int, limit as int));
    for item in it: sorted
        invariant
            it.seq() == whole,
            at == it.index(),
            offset == page.offset,
            limit == page.limit,
            limit > 0,
            whole.len() <= usize::MAX,
            kept@ == part_of(whole.take(it.index() as int), offset as int, limit as int),
    {
        let ghost i = it.index() as int;
        let ghost before = kept@;
        if at >= offset && at - offset < limit {
            kept.push(item);
            assert(kept@ =~= part_of(whole.take(i + 1), offset as int, limit as int));
        } else {
            assert(part_of(whole.take(i + 1), offset as int, limit as int) =~= before);
        }
        at = at + 1;
    }
    assert(whole.take(whole.len() as int) =~= whole);
    let answer = DailyAnswer { items: kept, total_items, total_pages };
    assert(are_dated(dated, all_groups));
    answer
}

/// Whether an answer is a page of the days of the traces that are counted, of
/// those that a store holds, in whatever order it hands them out.
pub open spec fn answers_from(
    a: DailyAnswer,
    f: DailyFilter,
    project: Seq<char>,
    w: Window,
    page: Page,
    traces: Map<u128, rows::TraceModel>,
    observations: Map<u128, rows::ObservationModel>,
) -> bool {
    exists|ts: Seq<TraceRow>, os: Seq<ObservationRow>|
        #![trigger memory_db::lists_trace_rows(ts, traces), memory_db::lists_observation_rows(os, observations)]
        {
            &&& memory_db::lists_trace_rows(ts, traces)
            &&& memory_db::lists_observation_rows(os, observations)
            &&& is_daily_answer(
                a,
                counted_traces(f, project, w, rows::trace_models(ts)),
                rows::observation_models(os),
                page,
            )
        }
}

/// The days of the traces of a store in memory that are counted: a page of them,
/// the latest date first.
pub fn daily_metrics(
    db: &MemoryDb,
    filter: &DailyFilter,
    project_id: &str,
    window: &Window,
    page: &Page,
) -> (r: DailyAnswer)
    requires
        db.wf(),
        page.offset >= 0,
        page.limit > 0,
    ensures
        answers_from(
            r,
            *filter,
            project_id@,
            *window,
            *page,
            db.traces(),
            db.observations(),
        ),
{
    let traces = db.list_traces();
    let ghost ts = traces@;
    let observations = db.list_observations();
    let ghost os = observations@;
    let kept = count_traces(filter, project_id, window, traces);
    let r = daily_page(&kept, &observations, page);
    assert(memory_db::lists_trace_rows(ts, db.traces()));
    assert(memory_db::lists_observation_rows(os, db.observations()));
    r
}

/// How many traces groups count.
pub open spec fn traces_counted(s: Seq<DayGroup>) -> nat
    decreases s.len(),
{
    if s.len() == 0 {
        0
    } else {
        traces_counted(s.drop_last()) + s.last().count_traces as nat
    }
}

/// How many traces stand on the days of groups.
spec fn traces_on_days(s: Seq<rows::TraceModel>, groups: Seq<DayGroup>) -> nat
    decreases groups.len(),
{
    if groups.len() == 0 {
        0
    } else {
        traces_on_days(s, groups.drop_last()) + traces_on(s, groups.last().day as int).len()
    }
}

proof fn lemma_one_more_trace(s: Seq<rows::TraceModel>, groups: Seq<DayGroup>)
    requires
        s.len() > 0,
        forall|i: int, j: int|
            0 <= i < j < groups.len() ==> (#[trigger] groups[i]).day < (#[trigger] groups[j]).day,
    ensures
        traces_on_days(s, groups) == traces_on_days(s.drop_last(), groups) + if has_day(
            groups,
            day_of_trace(s.last()),
        ) {
            1nat
        } else {
            0nat
        },
    decreases groups.len(),
{
    if groups.len() > 0 {
        let head = groups.drop_last();
        let d = day_of_trace(s.last());
        assert forall|i: int, j: int| 0 <= i < j < head.len() implies (#[trigger] head[i]).day < (
        #[trigger] head[j]).day by {
            assert(head[i] == groups[i] && head[j] == groups[j]);
        }
        lemma_one_more_trace(s, head);
        assert(groups[groups.len() - 1] == groups.last());
        if has_day(head, d) {
            let k = choose|k: int| 0 <= k < head.len() && (#[trigger] head[k]).day == d;
            assert(groups[k].day == d);
            assert(groups[k].day < groups[groups.len() - 1].day);
        }
        if has_day(groups, d) && groups.last().day != d {
            let k = choose|k: int| 0 <= k < groups.len() && (#[trigger] groups[k]).day == d;
            assert(head[k].day == d);
        }
    }
}

proof fn lemma_all_on_days(s: Seq<rows::TraceModel>, groups: Seq<DayGroup>)
    requires
        forall|i: int, j: int|
            0 <= i < j < groups.len() ==> (#[trigger] groups[i]).day < (#[trigger] groups[j]).day,
        forall|i: int| 0 <= i < s.len() ==> has_day(groups, day_of_trace(#[trigger] s[i])),
    ensures
        traces_on_days(s, groups) == s.len(),
    decreases s.len(),
{
    if s.len() > 0 {
        let head = s.drop_last();
        assert forall|i: int| 0 <= i < head.len() implies has_day(
            groups,
            day_of_trace(#[trigger] head[i]),
        ) by {
            assert(head[i] == s[i]);
        }
        lemma_all_on_days(head, groups);
        assert(s[s.len() - 1] == s.last());
        lemma_one_more_trace(s, groups);
    } else {
        lemma_none_on_days(s, groups);
    }
}

proof fn lemma_none_on_days(s: Seq<rows::TraceModel>, groups: Seq<DayGroup>)
    requires
        s.len() == 0,
    ensures
        traces_on_days(s, groups) == 0,
    decreases groups.len(),
{
    if groups.len() > 0 {
        lemma_none_on_days(s, groups.drop_last());
    }
}

proof fn lemma_counts_of_days(
    s: Seq<DayGroup>,
    traces: Seq<rows::TraceModel>,
    observations: Seq<rows::ObservationModel>,
)
    requires
        forall|i: int| 0 <= i < s.len() ==> is_day(#[trigger] s[i], traces, observations),
    ensures
        traces_counted(s) == traces_on_days(traces, s),
    decreases s.len(),
{
    if s.len() > 0 {
        let head = s.drop_last();
        assert forall|i: int| 0 <= i < head.len() implies is_day(
            #[trigger] head[i],
            traces,
            observations,
        ) by {
            assert(head[i] == s[i]);
        }
        lemma_counts_of_days(head, traces, observations);
        assert(is_day(s[s.len() - 1], traces, observations));
    }
}

/// Every trace is counted on exactly one day: the counts of the days add up to
/// the number of traces.
pub proof fn lemma_days_count_every_trace(
    s: Seq<DayGroup>,
    traces: Seq<rows::TraceModel>,
    observations: Seq<rows::ObservationModel>,
)
    requires
        lists_days(s, traces, observations),
    ensures
        traces_counted(s) == traces.len(),
{
    assert forall|i: int| 0 <= i < traces.len() implies has_day(
        s,
        day_of_trace(#[trigger] traces[i]),
    ) by {
        let k = choose|k: int|
            0 <= k < s.len() && (#[trigger] s[k]).day == day_of_trace(traces[i]);
        assert(s[k].day == day_of_trace(traces[i]));
    }
    lemma_all_on_days(traces, s);
    lemma_counts_of_days(s, traces, observations);
}

/// Every item stands on exactly one page, and the pages are as many as counted:
/// the item at place `i` is on page `i / limit + 1`, at place `i % limit`.
pub proof fn lemma_item_on_its_page<T>(s: Seq<T>, limit: nat, i: int)
    requires
        limit > 0,
        0 <= i < s.len(),
    ensures
        ({
            let before = i / (limit as int);
            &&& before + 1 <= pages_for(s.len(), limit)
            &&& i % (limit as int) < part_of(s, before * limit, limit as int).len()
            &&& part_of(s, before * limit, limit as int)[i % (limit as int)] == s[i]
        }),
{
    let l = limit as int;
    let n = s.len() as int;
    let q = i / l;
    assert(q * l + i % l == i && 0 <= i % l < l) by (nonlinear_arith)
        requires
            l > 0,
            q == i / l,
    ;
    assert(q * l <= i) by (nonlinear_arith)
        requires
            q * l + i % l == i,
            i % l >= 0,
    ;
    assert((n + l - 1) / l >= q + 1) by (nonlinear_arith)
        requires
            l > 0,
            q * l <= i,
            i < n,
    ;
}

}
