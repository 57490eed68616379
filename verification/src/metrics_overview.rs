//! An overview of the traces of a project, and of those with errors.

use std::collections::HashSet;
use uuid::Uuid;
use vstd::prelude::*;

use crate::json;
use crate::memory_db;
use crate::memory_db::MemoryDb;
use crate::metrics_query;
use crate::metrics_query::Window;
use crate::rows;
use crate::rows::{Latency, ObservationRow, TraceRow};
use crate::text;
use crate::text::same;
use crate::time;
use crate::time::Timestamp;

verus! {

/// The last `n` hexadecimal digits of a number.
pub open spec fn hex_digits(id: nat, n: nat) -> Seq<char>
    decreases n,
{
    if n == 0 {
        Seq::empty()
    } else {
        hex_digits(id / 16, (n - 1) as nat).push(json::hex_digit(id % 16))
    }
}

/// An id as text: its 32 hexadecimal digits in groups of 8, 4, 4, 4 and 12.
pub open spec fn id_text(id: u128) -> Seq<char> {
    let h = hex_digits(id as nat, 32);
    h.subrange(0, 8) + seq!['-'] + h.subrange(8, 12) + seq!['-'] + h.subrange(12, 16) + seq!['-']
        + h.subrange(16, 20) + seq!['-'] + h.subrange(20, 32)
}

/// The display of uuid's `Uuid`: lower case hexadecimal digits, with hyphens.
#[verifier::external_body]
fn uuid_text(id: u128) -> (r: String)
    ensures
        r@ == id_text(id),
{
    Uuid::from_u128(id).to_string()
}

/// A condition that an overview names.
#[derive(Debug)]
pub struct FilterSpec {
    pub column: String,
    pub value: String,
}

/// Whether a condition asks for errors.
pub open spec fn asks_for_errors(f: FilterSpec) -> bool {
    f.column@ == "level"@ && f.value@ == "ERROR"@
}

/// What an overview is of.
#[derive(Debug, Clone, Copy, PartialEq, Eq, Structural)]
pub enum OverviewView {
    /// How many traces, how long they took, and how many had errors.
    Traces,
    /// Which traces had errors.
    ErrorTraces,
    /// Nothing that is known.
    Nothing,
}

/// What an overview is of.
pub fn overview_view(view: &str, filters: &Vec<FilterSpec>) -> (r: OverviewView)
    ensures
        r == if view@ == "traces"@ {
            OverviewView::Traces
        } else if view@ == "observations"@ && exists|i: int|
            0 <= i < filters@.len() && asks_for_errors(#[trigger] filters@[i]) {
            OverviewView::ErrorTraces
        } else {
            OverviewView::Nothing
        },
        r == OverviewView::Traces <==> view@ == "traces"@,
        r == OverviewView::ErrorTraces <==> view@ == "observations"@ && exists|i: int|
            0 <= i < filters@.len() && (#[trigger] filters@[i]).column@ == "level"@
                && filters@[i].value@ == "ERROR"@,
{
    proof {
        reveal_strlit("traces");
        reveal_strlit("observations");
        assert("traces"@.len() != "observations"@.len());
    }
    if same(view, "traces") {
        return OverviewView::Traces;
    }
    if !same(view, "observations") {
        return OverviewView::Nothing;
    }
    let mut i: usize = 0;
    while i < filters.len()
        invariant
            0 <= i <= filters@.len(),
            view@ == "observations"@,
            view@ != "traces"@,
            forall|j: int| 0 <= j < i ==> !asks_for_errors(#[trigger] filters@[j]),
        decreases filters.len() - i,
    {
        if same(filters[i].column.as_str(), "level") && same(filters[i].value.as_str(), "ERROR") {
            assert(asks_for_errors(filters@[i as int]));
            return OverviewView::ErrorTraces;
        }
        i += 1;
    }
    OverviewView::Nothing
}

/// For how many seconds an overview goes back where it names no start: a year.
pub const OVERVIEW_SECONDS: i64 = 31_536_000;

/// The stretch of time of an overview: up to now, and from a year ago, where it
/// does not say otherwise.
pub fn overview_window(from: Option<Timestamp>, to: Option<Timestamp>, now: &Timestamp) -> (r: Window)
    requires
        from is None ==> time::shifted(now@, -OVERVIEW_SECONDS) is Some,
    ensures
        r.to == metrics_query::window_end(to, *now),
        match from {
            Some(f) => r.from == f,
            None => time::shifted(now@, -OVERVIEW_SECONDS) == Some(r.from@),
        },
        to matches Some(t) ==> r.to == t,
        to is None ==> r.to == *now,
        from is None ==> time::shifted(now@, -(365 * 24 * 60 * 60)) == Some(r.from@),
{
    let end = match to {
        Some(t) => t,
        None => *now,
    };
    let start = match from {
        Some(f) => f,
        None => match now.plus_seconds(-OVERVIEW_SECONDS) {
            Some(f) => f,
            None => *now,
        },
    };
    Window { from: start, to: end }
}

/// Whether a trace belongs to a project and a stretch of time.
pub open spec fn is_trace_of(t: rows::TraceModel, project: Seq<char>, w: Window) -> bool {
    t.project_id == project && metrics_query::within(w, t.timestamp)
}

/// How many traces belong to a project and a stretch of time.
pub open spec fn count_of(s: Seq<rows::TraceModel>, project: Seq<char>, w: Window) -> nat
    decreases s.len(),
{
    if s.len() == 0 {
        0
    } else {
        count_of(s.drop_last(), project, w) + if is_trace_of(s.last(), project, w) {
            1nat
        } else {
            0nat
        }
    }
}

/// The latencies that count of the traces of a project in a stretch of time.
pub open spec fn latencies_of(s: Seq<rows::TraceModel>, project: Seq<char>, w: Window) -> Seq<Latency>
    decreases s.len(),
{
    if s.len() == 0 {
        Seq::empty()
    } else {
        let head = latencies_of(s.drop_last(), project, w);
        if is_trace_of(s.last(), project, w) {
            match s.last().latency {
                Some(l) => if rows::latency_counts(l) {
                    head.push(l)
                } else {
                    head
                },
                None => head,
            }
        } else {
            head
        }
    }
}

/// When an observation took place: when it started, or when it was written.
pub open spec fn time_of(o: rows::ObservationModel) -> Timestamp {
    match o.start_time {
        Some(t) => t,
        None => o.created_at,
    }
}

/// Whether an observation is an error of a project in a stretch of time.
pub open spec fn is_error(o: rows::ObservationModel, project: Seq<char>, w: Window) -> bool {
    &&& o.project_id == project
    &&& o.level == Some("ERROR"@)
    &&& metrics_query::within(w, time_of(o))
}

/// The traces of the errors among observations.
pub open spec fn error_traces(s: Seq<rows::ObservationModel>, project: Seq<char>, w: Window) -> Set<u128>
    decreases s.len(),
{
    if s.len() == 0 {
        Set::empty()
    } else {
        let head = error_traces(s.drop_last(), project, w);
        if is_error(s.last(), project, w) {
            head.insert(s.last().trace_id)
        } else {
            head
        }
    }
}

/// Whether an observation is an error of a project in a stretch of time.
fn counts_as_error(o: &ObservationRow, project_id: &str, w: &Window) -> (r: bool)
    ensures
        r == is_error(o@, project_id@, *w),
{
    let at = match o.start_time {
        Some(t) => t,
        None => o.created_at,
    };
    let error = match &o.level {
        Some(level) => same(level.as_str(), "ERROR"),
        None => false,
    };
    same(o.project_id.as_str(), project_id) && error && w.holds(&at)
}

/// The numbers of an overview of traces.
#[derive(Debug)]
pub struct TracesOverview {
    pub count: usize,
    pub latencies: Vec<Latency>,
    pub error_count: usize,
}

/// The numbers of the traces and the observations of a project in a stretch of
/// time.
pub fn survey_traces(
    traces: &Vec<TraceRow>,
    observations: &Vec<ObservationRow>,
    project_id: &str,
    w: &Window,
) -> (r: TracesOverview)
    ensures
        r.count == count_of(rows::trace_models(traces@), project_id@, *w),
        r.latencies@ == latencies_of(rows::trace_models(traces@), project_id@, *w),
        r.error_count == error_traces(
            rows::observation_models(observations@),
            project_id@,
            *w,
        ).len(),
{
    broadcast use vstd::std_specs::hash::group_hash_axioms;

    let ghost ts = rows::trace_models(traces@);
    let mut count: usize = 0;
    let mut latencies: Vec<Latency> = Vec::new();
    let mut i: usize = 0;
    assert(ts.take(0) =~= Seq::<rows::TraceModel>::empty());
    while i < traces.len()
        invariant
            0 <= i <= traces@.len(),
            ts == rows::trace_models(traces@),
            count <= i,
            count == count_of(ts.take(i as int), project_id@, *w),
            latencies@ == latencies_of(ts.take(i as int), project_id@, *w),
        decreases traces.len() - i,
    {
        let t = &traces[i];
        assert(ts.take(i + 1).drop_last() =~= ts.take(i as int));
        assert(ts.take(i + 1).last() == t@);
        if same(t.project_id.as_str(), project_id) && w.holds(&t.timestamp) {
            count = count + 1;
            if let Some(latency) = t.latency {
                if latency.counts() {
                    latencies.push(latency);
                }
            }
        }
        i += 1;
    }
    assert(ts.take(ts.len() as int) =~= ts);
    let ids = find_error_traces(observations, project_id, w);
    TracesOverview { count, latencies, error_count: ids.len() }
}

/// The traces of the errors among observations.
fn find_error_traces(observations: &Vec<ObservationRow>, project_id: &str, w: &Window) -> (r: HashSet<
    u128,
>)
    ensures
        r@ == error_traces(rows::observation_models(observations@), project_id@, *w),
{
    broadcast use vstd::std_specs::hash::group_hash_axioms;

    let ghost os = rows::observation_models(observations@);
    let mut ids: HashSet<u128> = HashSet::new();
    let mut i: usize = 0;
    assert(os.take(0) =~= Seq::<rows::ObservationModel>::empty());
    while i < observations.len()
        invariant
            0 <= i <= observations@.len(),
            os == rows::observation_models(observations@),
            ids@ == error_traces(os.take(i as int), project_id@, *w),
        decreases observations.len() - i,
    {
        let o = &observations[i];
        assert(os.take(i + 1).drop_last() =~= os.take(i as int));
        assert(os.take(i + 1).last() == o@);
        if counts_as_error(o, project_id, w) {
            let _ = ids.insert(o.trace_id);
        }
        i += 1;
    }
    assert(os.take(os.len() as int) =~= os);
    ids
}

/// The traces of the errors among observations, in the order in which they come
/// first.
pub open spec fn error_list(s: Seq<rows::ObservationModel>, project: Seq<char>, w: Window) -> Seq<u128>
    decreases s.len(),
{
    if s.len() == 0 {
        Seq::empty()
    } else {
        let head = error_list(s.drop_last(), project, w);
        if is_error(s.last(), project, w) && !error_traces(s.drop_last(), project, w).contains(
            s.last().trace_id,
        ) {
            head.push(s.last().trace_id)
        } else {
            head
        }
    }
}

/// The list of traces with errors names each of them once.
pub proof fn lemma_error_list(s: Seq<rows::ObservationModel>, project: Seq<char>, w: Window)
    ensures
        error_list(s, project, w).to_set() == error_traces(s, project, w),
        error_list(s, project, w).no_duplicates(),
    decreases s.len(),
{
    if s.len() > 0 {
        let head = s.drop_last();
        lemma_error_list(head, project, w);
        let l = error_list(head, project, w);
        let x = s.last().trace_id;
        if is_error(s.last(), project, w) {
            if error_traces(head, project, w).contains(x) {
                assert(error_traces(s, project, w) =~= error_traces(head, project, w));
            } else {
                assert(!l.contains(x)) by {
                    if l.contains(x) {
                        assert(l.to_set().contains(x));
                    }
                }
                assert(l.push(x).to_set() =~= l.to_set().insert(x)) by {
                    assert forall|y: u128| #[trigger] l.push(x).to_set().contains(y)
                        == l.to_set().insert(x).contains(y) by {
                        if l.contains(y) {
                            let k = choose|k: int| 0 <= k < l.len() && l[k] == y;
                            assert(l.push(x)[k] == y);
                        }
                        if y == x {
                            assert(l.push(x)[l.len() as int] == y);
                        }
                        if l.push(x).contains(y) && y != x {
                            let k = choose|k: int| 0 <= k < l.push(x).len() && l.push(x)[k] == y;
                            assert(l[k] == y);
                        }
                    }
                }
            }
        }
    } else {
        assert(error_list(s, project, w).to_set() =~= Set::<u128>::empty());
    }
}

/// The texts of ids.
pub open spec fn id_texts(s: Seq<u128>) -> Seq<Seq<char>> {
    s.map_values(|id: u128| id_text(id))
}

/// The ids, as text, of the traces of the errors among observations, in the
/// order in which they come first.
pub fn list_error_traces(observations: &Vec<ObservationRow>, project_id: &str, w: &Window) -> (r: Vec<
    String,
>)
    ensures
        text::texts(r@) == id_texts(
            error_list(rows::observation_models(observations@), project_id@, *w),
        ),
{
    broadcast use vstd::std_specs::hash::group_hash_axioms;

    let ghost os = rows::observation_models(observations@);
    let mut ids: HashSet<u128> = HashSet::new();
    let mut out: Vec<String> = Vec::new();
    let mut i: usize = 0;
    assert(os.take(0) =~= Seq::<rows::ObservationModel>::empty());
    assert(text::texts(out@) =~= id_texts(Seq::<u128>::empty()));
    while i < observations.len()
        invariant
            0 <= i <= observations@.len(),
            os == rows::observation_models(observations@),
            ids@ == error_traces(os.take(i as int), project_id@, *w),
            text::texts(out@) == id_texts(error_list(os.take(i as int), project_id@, *w)),
        decreases observations.len() - i,
    {
        let o = &observations[i];
        assert(os.take(i + 1).drop_last() =~= os.take(i as int));
        assert(os.take(i + 1).last() == o@);
        if counts_as_error(o, project_id, w) {
            if ids.insert(o.trace_id) {
                let ghost before = out@;
                let ghost l = error_list(os.take(i as int), project_id@, *w);
                let id = uuid_text(o.trace_id);
                out.push(id);
                assert(text::texts(out@) =~= text::texts(before).push(id@));
                assert(id_texts(l.push(o.trace_id)) =~= id_texts(l).push(id@));
            }
        }
        i += 1;
    }
    assert(os.take(os.len() as int) =~= os);
    out
}

/// The numbers of the traces of a project in a stretch of time, from a store in
/// memory.
pub fn traces_overview(db: &MemoryDb, project_id: &str, w: &Window) -> (r: TracesOverview)
    requires
        db.wf(),
    ensures
        exists|ts: Seq<TraceRow>, os: Seq<ObservationRow>|
            #![trigger memory_db::lists_trace_rows(ts, db.traces()), memory_db::lists_observation_rows(os, db.observations())]
            {
                &&& memory_db::lists_trace_rows(ts, db.traces())
                &&& memory_db::lists_observation_rows(os, db.observations())
                &&& r.count == count_of(rows::trace_models(ts), project_id@, *w)
                &&& r.latencies@ == latencies_of(rows::trace_models(ts), project_id@, *w)
                &&& r.error_count == error_traces(
                    rows::observation_models(os),
                    project_id@,
                    *w,
                ).len()
            },
{
    let traces = db.list_traces();
    let observations = db.list_observations();
    let r = survey_traces(&traces, &observations, project_id, w);
    assert(memory_db::lists_trace_rows(traces@, db.traces()));
    assert(memory_db::lists_observation_rows(observations@, db.observations()));
    r
}

/// The ids, as text, of the traces of a project with errors in a stretch of
/// time, from a store in memory.
pub fn error_trace_ids(db: &MemoryDb, project_id: &str, w: &Window) -> (r: Vec<String>)
    requires
        db.wf(),
    ensures
        exists|os: Seq<ObservationRow>| #[trigger]
            memory_db::lists_observation_rows(os, db.observations()) && text::texts(r@) == id_texts(
                error_list(rows::observation_models(os), project_id@, *w),
            ),
{
    let observations = db.list_observations();
    let r = list_error_traces(&observations, project_id, w);
    assert(memory_db::lists_observation_rows(observations@, db.observations()));
    r
}

/// Which traces had errors does not depend on the order in which observations
/// are listed: a trace is among them exactly when one of its observations is an
/// error.
pub proof fn lemma_error_traces(
    s: Seq<rows::ObservationModel>,
    project: Seq<char>,
    w: Window,
    id: u128,
)
    ensures
        error_traces(s, project, w).contains(id) <==> exists|i: int|
            #![trigger s[i]]
            0 <= i < s.len() && is_error(s[i], project, w) && s[i].trace_id == id,
    decreases s.len(),
{
    if s.len() > 0 {
        let head = s.drop_last();
        lemma_error_traces(head, project, w, id);
        assert(s[s.len() - 1] == s.last());
        if error_traces(head, project, w).contains(id) {
            let i = choose|i: int|
                #![trigger head[i]]
                0 <= i < head.len() && is_error(head[i], project, w) && head[i].trace_id == id;
            assert(s[i] == head[i]);
        }
        if exists|i: int|
            #![trigger s[i]]
            0 <= i < s.len() && is_error(s[i], project, w) && s[i].trace_id == id {
            let i = choose|i: int|
                #![trigger s[i]]
                0 <= i < s.len() && is_error(s[i], project, w) && s[i].trace_id == id;
            if i < head.len() {
                assert(head[i] == s[i]);
            }
        }
    }
}

}
