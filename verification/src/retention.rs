//! What is kept and for how long.

use std::collections::HashSet;
use vstd::prelude::*;

use crate::ingest;
use crate::json;
use crate::json::{number_from, Json, Members};
use crate::maps;
use crate::memory_db;
use crate::memory_db::MemoryDb;
use crate::order;
use crate::order::{sort, Ranked};
use crate::rows;
use crate::rows::{MetricRow, ObservationRow, TraceRow};
use crate::text;
use crate::time;
use crate::time::Timestamp;

verus! {

/// For how long rows are kept, and how many. A zero sets no limit.
#[derive(Debug, Clone, Copy, PartialEq, Eq, Structural)]
pub struct RetentionConfig {
    pub metrics_retention_days: u32,
    pub traces_retention_days: u32,
    pub metrics_downsample_after_days: u32,
    pub interval_hours: u64,
    pub memory_max_metrics: usize,
    pub memory_max_traces: usize,
}

impl Default for RetentionConfig {
    /// Everything is kept.
    fn default() -> (r: RetentionConfig)
        ensures
            r == (RetentionConfig {
                metrics_retention_days: 0,
                traces_retention_days: 0,
                metrics_downsample_after_days: 0,
                interval_hours: 24,
                memory_max_metrics: 0,
                memory_max_traces: 0,
            }),
    {
        RetentionConfig {
            metrics_retention_days: 0,
            traces_retention_days: 0,
            metrics_downsample_after_days: 0,
            interval_hours: 24,
            memory_max_metrics: 0,
            memory_max_traces: 0,
        }
    }
}

impl RetentionConfig {
    /// Whether any limit is set.
    pub fn enabled(&self) -> (r: bool)
        ensures
            r == (self.metrics_retention_days > 0 || self.traces_retention_days > 0
                || self.metrics_downsample_after_days > 0 || self.memory_max_metrics > 0
                || self.memory_max_traces > 0),
    {
        self.metrics_retention_days > 0 || self.traces_retention_days > 0
            || self.metrics_downsample_after_days > 0 || self.memory_max_metrics > 0
            || self.memory_max_traces > 0
    }

    /// The seconds between two passes: the hours that are set, but at least one.
    pub fn interval_seconds(&self) -> (r: u64)
        requires
            self.interval_hours * 3600 <= u64::MAX,
        ensures
            r == if self.interval_hours > 1 {
                self.interval_hours * 3600
            } else {
                3600
            },
    {
        if self.interval_hours > 1 {
            self.interval_hours * 3600
        } else {
            3600
        }
    }
}

/// What retention has done. The counts wrap around.
#[derive(Debug)]
pub struct RetentionStats {
    pub runs: u64,
    pub metrics_deleted: u64,
    pub traces_deleted: u64,
    pub observations_deleted: u64,
    pub metrics_downsampled: u64,
    pub memory_metrics_evicted: u64,
    pub memory_traces_evicted: u64,
    pub last_error: Option<String>,
}

impl Default for RetentionStats {
    fn default() -> (r: RetentionStats)
        ensures
            r.runs == 0,
            r.metrics_deleted == 0,
            r.traces_deleted == 0,
            r.observations_deleted == 0,
            r.metrics_downsampled == 0,
            r.memory_metrics_evicted == 0,
            r.memory_traces_evicted == 0,
            r.last_error is None,
    {
        RetentionStats {
            runs: 0,
            metrics_deleted: 0,
            traces_deleted: 0,
            observations_deleted: 0,
            metrics_downsampled: 0,
            memory_metrics_evicted: 0,
            memory_traces_evicted: 0,
            last_error: None,
        }
    }
}

impl RetentionStats {
    /// Counts a pass.
    pub fn record_run(&mut self)
        ensures
            *final(self) == (RetentionStats { runs: old(self).runs.wrapping_add(1), ..*old(self) }),
    {
        self.runs = self.runs.wrapping_add(1);
    }

    /// Keeps what a pass failed for.
    pub fn record_error(&mut self, error: String)
        ensures
            *final(self) == (RetentionStats { last_error: Some(error), ..*old(self) }),
    {
        self.last_error = Some(error);
    }

    /// The counts and the last error as an object of JSON.
    pub fn snapshot(&self) -> (r: Json)
        ensures
            r@ == json::JsonModel::Object(stats_members(*self)),
    {
        broadcast use json::lemma_json_view;

        let mut m = Members::new();
        m.insert("runs".to_owned(), count_json(self.runs));
        m.insert("metrics_deleted".to_owned(), count_json(self.metrics_deleted));
        m.insert("traces_deleted".to_owned(), count_json(self.traces_deleted));
        m.insert("observations_deleted".to_owned(), count_json(self.observations_deleted));
        m.insert("metrics_downsampled".to_owned(), count_json(self.metrics_downsampled));
        m.insert("memory_metrics_evicted".to_owned(), count_json(self.memory_metrics_evicted));
        m.insert("memory_traces_evicted".to_owned(), count_json(self.memory_traces_evicted));
        let last_error = match &self.last_error {
            Some(e) => Json::Text(e.clone()),
            None => Json::Null,
        };
        m.insert("last_error".to_owned(), last_error);
        Json::Object(m)
    }
}

/// A count as a JSON number.
pub open spec fn count_model(n: u64) -> json::JsonModel {
    json::JsonModel::Number(text::decimal(n as nat))
}

/// A count as a JSON number.
fn count_json(n: u64) -> (r: Json)
    ensures
        r@ == count_model(n),
{
    broadcast use json::lemma_json_view;

    Json::Number(number_from(n))
}

/// The members of the object that tells what retention has done.
pub open spec fn stats_members(s: RetentionStats) -> Seq<(Seq<char>, json::JsonModel)> {
    let m = Seq::<(Seq<char>, json::JsonModel)>::empty();
    let m = json::with_member(m, "runs"@, count_model(s.runs));
    let m = json::with_member(m, "metrics_deleted"@, count_model(s.metrics_deleted));
    let m = json::with_member(m, "traces_deleted"@, count_model(s.traces_deleted));
    let m = json::with_member(m, "observations_deleted"@, count_model(s.observations_deleted));
    let m = json::with_member(m, "metrics_downsampled"@, count_model(s.metrics_downsampled));
    let m = json::with_member(m, "memory_metrics_evicted"@, count_model(s.memory_metrics_evicted));
    let m = json::with_member(m, "memory_traces_evicted"@, count_model(s.memory_traces_evicted));
    json::with_member(
        m,
        "last_error"@,
        match s.last_error {
            Some(e) => json::JsonModel::Text(e@),
            None => json::JsonModel::Null,
        },
    )
}

/// The instant `days` days before `now`, if the calendar holds it.
pub open spec fn days_ago(now: Timestamp, days: u32) -> Option<(int, int)> {
    time::shifted(now@, -(days * time::SECONDS_PER_DAY))
}

/// The instant `days` days before `now`.
pub fn cutoff(now: &Timestamp, days: u32) -> (r: Timestamp)
    requires
        days_ago(*now, days) is Some,
    ensures
        days_ago(*now, days) == Some(r@),
{
    let seconds: i64 = (days as i64) * time::SECONDS_PER_DAY;
    match now.plus_seconds(-seconds) {
        Some(t) => t,
        None => *now,
    }
}

/// The metric points that are not older than `cutoff`.
pub open spec fn unexpired(s: Seq<MetricRow>, cutoff: (int, int)) -> Seq<MetricRow>
    decreases s.len(),
{
    if s.len() == 0 {
        s
    } else {
        let head = unexpired(s.drop_last(), cutoff);
        if time::earlier(s.last().timestamp@, cutoff) {
            head
        } else {
            head.push(s.last())
        }
    }
}

/// The newest metric points, at most `max` where that is not zero; those that go
/// are older than those that stay, or as old and came before them.
pub open spec fn newest(s: Seq<MetricRow>, max: usize) -> Seq<MetricRow> {
    if max > 0 && s.len() > max {
        order::sorted(s).skip(s.len() - max)
    } else {
        s
    }
}

/// The metric points that are not older than `cutoff`.
pub fn expire_metrics(metrics: Vec<MetricRow>, cutoff: &Timestamp) -> (r: Vec<MetricRow>)
    ensures
        r@ == unexpired(metrics@, cutoff@),
        r@.len() <= metrics@.len(),
{
    let ghost all = metrics@;
    let mut out: Vec<MetricRow> = Vec::new();
    assert(all.take(0) =~= Seq::<MetricRow>::empty());
    for m in it: metrics
        invariant
            it.seq() == all,
            out@ == unexpired(all.take(it.index() as int), cutoff@),
            out@.len() <= it.index(),
    {
        let ghost i = it.index() as int;
        assert(all.take(i + 1).drop_last() =~= all.take(i));
        assert(all.take(i + 1).last() == m);
        if !m.timestamp.before(cutoff) {
            out.push(m);
        }
    }
    assert(all.take(all.len() as int) =~= all);
    out
}

/// The newest metric points, at most `max` where that is not zero.
pub fn cap_metrics(metrics: Vec<MetricRow>, max: usize) -> (r: Vec<MetricRow>)
    ensures
        r@ == newest(metrics@, max),
        r@.len() <= metrics@.len(),
{
    if max == 0 || metrics.len() <= max {
        return metrics;
    }
    let evict = metrics.len() - max;
    proof {
        order::lemma_sorted_same_items(metrics@);
    }
    let mut by_time = sort(metrics);
    let kept = by_time.split_off(evict);
    assert(kept@ =~= order::sorted(metrics@).skip(evict as int));
    kept
}

/// The traces that are older than `cutoff`.
pub open spec fn expired_traces(m: Map<u128, rows::TraceModel>, cutoff: (int, int)) -> Set<u128> {
    Set::new(|k: u128| m.contains_key(k) && time::earlier(m[k].timestamp@, cutoff))
}

/// The observations that go with the traces `gone`, and those that started
/// before `cutoff`.
pub open spec fn expired_observations(
    m: Map<u128, rows::ObservationModel>,
    gone: Set<u128>,
    cutoff: (int, int),
) -> Set<u128> {
    Set::new(
        |k: u128|
            m.contains_key(k) && (gone.contains(m[k].trace_id) || (m[k].start_time matches Some(t)
                && time::earlier(t@, cutoff))),
    )
}

/// A list of all rows is as long as there are rows.
proof fn lemma_traces_listed(s: Seq<TraceRow>, m: Map<u128, rows::TraceModel>)
    requires
        memory_db::lists_trace_rows(s, m),
    ensures
        m.dom().finite(),
        s.len() == m.len(),
{
    let ids = s.map_values(|t: TraceRow| t.id);
    assert(ids.no_duplicates()) by {
        assert forall|i: int, j: int| 0 <= i < ids.len() && 0 <= j < ids.len() && i != j implies ids[i]
            != ids[j] by {
            if i < j {
                assert(s[i].id != s[j].id);
            } else {
                assert(s[j].id != s[i].id);
            }
        }
    }
    assert(ids.to_set() =~= m.dom()) by {
        assert forall|k: u128| #[trigger] ids.to_set().contains(k) == m.dom().contains(k) by {
            if ids.contains(k) {
                let i = choose|i: int| 0 <= i < ids.len() && ids[i] == k;
                assert(m.contains_key(s[i].id));
            }
            if m.contains_key(k) {
                let i = choose|i: int| 0 <= i < s.len() && (#[trigger] s[i]).id == k;
                assert(ids[i] == k);
            }
        }
    }
    ids.unique_seq_to_set();
    vstd::seq_lib::seq_to_set_is_finite(ids);
}

/// A list that names each member of a set once is as long as the set has
/// members.
proof fn lemma_listed_len(ids: Seq<u128>, set: Set<u128>)
    requires
        ids.no_duplicates(),
        forall|k: u128| #[trigger] set.contains(k) == ids.contains(k),
    ensures
        set.finite(),
        set.len() == ids.len(),
{
    assert(ids.to_set() =~= set);
    ids.unique_seq_to_set();
    vstd::seq_lib::seq_to_set_is_finite(ids);
}

/// The ids of the traces that are older than `cutoff`.
fn find_expired_traces(db: &MemoryDb, cutoff: &Timestamp) -> (r: Vec<u128>)
    requires
        db.wf(),
    ensures
        r@.no_duplicates(),
        forall|k: u128| #[trigger]
            expired_traces(db.traces(), cutoff@).contains(k) == r@.contains(k),
{
    let rows = db.list_traces();
    let ghost m = db.traces();
    let mut ids: Vec<u128> = Vec::new();
    let mut i: usize = 0;
    while i < rows.len()
        invariant
            0 <= i <= rows@.len(),
            m == db.traces(),
            memory_db::lists_trace_rows(rows@, m),
            ids@.no_duplicates(),
            forall|k: u128| #[trigger]
                ids@.contains(k) <==> exists|j: int|
                    #![trigger rows@[j]]
                    0 <= j < i && rows@[j].id == k && time::earlier(
                        rows@[j].timestamp@,
                        cutoff@,
                    ),
        decreases rows.len() - i,
    {
        let ghost before = ids@;
        let row = &rows[i];
        if row.timestamp.before(cutoff) {
            assert(!before.contains(row.id)) by {
                if before.contains(row.id) {
                    let j = choose|j: int|
                        #![trigger rows@[j]]
                        0 <= j < i && rows@[j].id == row.id && time::earlier(
                            rows@[j].timestamp@,
                            cutoff@,
                        );
                    assert(rows@[j].id != rows@[i as int].id);
                }
            }
            ids.push(row.id);
            assert(ids@[before.len() as int] == row.id);
        }
        assert forall|k: u128| #[trigger] ids@.contains(k) <==> exists|j: int|
            #![trigger rows@[j]]
            0 <= j < i + 1 && rows@[j].id == k && time::earlier(rows@[j].timestamp@, cutoff@) by {
            if before.contains(k) {
                let x = choose|x: int| 0 <= x < before.len() && before[x] == k;
                assert(ids@[x] == k);
            }
            if ids@.contains(k) && !before.contains(k) {
                let x = choose|x: int| 0 <= x < ids@.len() && ids@[x] == k;
                if x < before.len() {
                    assert(before[x] == k);
                }
                assert(rows@[i as int].id == k);
            }
        }
        i += 1;
    }
    assert forall|k: u128| #[trigger] expired_traces(m, cutoff@).contains(k) == ids@.contains(k) by {
        if expired_traces(m, cutoff@).contains(k) {
            assert(m.contains_key(k));
            let j = choose|j: int| 0 <= j < rows@.len() && (#[trigger] rows@[j]).id == k;
            assert(m[rows@[j].id] == rows@[j]@);
            assert(rows@[j]@.timestamp == rows@[j].timestamp);
        }
        if ids@.contains(k) {
            let j = choose|j: int|
                #![trigger rows@[j]]
                0 <= j < rows@.len() && rows@[j].id == k && time::earlier(
                    rows@[j].timestamp@,
                    cutoff@,
                );
            assert(m.contains_key(rows@[j].id) && m[rows@[j].id] == rows@[j]@);
            assert(rows@[j]@.timestamp == rows@[j].timestamp);
        }
    }
    ids
}

/// Whether an observation goes with the traces `gone`, or started before
/// `cutoff`.
fn is_expired(o: &ObservationRow, gone: &HashSet<u128>, cutoff: &Timestamp) -> (r: bool)
    ensures
        r == (gone@.contains(o@.trace_id) || (o@.start_time matches Some(t) && time::earlier(
            t@,
            cutoff@,
        ))),
{
    broadcast use vstd::std_specs::hash::group_hash_axioms;

    if gone.contains(&o.trace_id) {
        return true;
    }
    match &o.start_time {
        Some(t) => t.before(cutoff),
        None => false,
    }
}

/// The ids of the observations that go with the traces `gone`, and of those that
/// started before `cutoff`.
fn find_expired_observations(db: &MemoryDb, gone: &HashSet<u128>, cutoff: &Timestamp) -> (r: Vec<u128>)
    requires
        db.wf(),
    ensures
        r@.no_duplicates(),
        forall|k: u128| #[trigger]
            expired_observations(db.observations(), gone@, cutoff@).contains(k) == r@.contains(k),
{
    let rows = db.list_observations();
    let ghost m = db.observations();
    let ghost all = expired_observations(m, gone@, cutoff@);
    let mut ids: Vec<u128> = Vec::new();
    let mut i: usize = 0;
    while i < rows.len()
        invariant
            0 <= i <= rows@.len(),
            m == db.observations(),
            all == expired_observations(m, gone@, cutoff@),
            memory_db::lists_observation_rows(rows@, m),
            ids@.no_duplicates(),
            forall|k: u128| #[trigger]
                ids@.contains(k) <==> exists|j: int|
                    #![trigger rows@[j]]
                    0 <= j < i && rows@[j].id == k && all.contains(k),
        decreases rows.len() - i,
    {
        let ghost before = ids@;
        let row = &rows[i];
        assert(m.contains_key(rows@[i as int].id) && m[rows@[i as int].id] == rows@[i as int]@);
        if is_expired(row, gone, cutoff) {
            assert(all.contains(row.id));
            assert(!before.contains(row.id)) by {
                if before.contains(row.id) {
                    let j = choose|j: int|
                        #![trigger rows@[j]]
                        0 <= j < i && rows@[j].id == row.id && all.contains(row.id);
                    assert(rows@[j].id != rows@[i as int].id);
                }
            }
            ids.push(row.id);
            assert(ids@[before.len() as int] == row.id);
        } else {
            assert(!all.contains(row.id));
        }
        assert forall|k: u128| #[trigger] ids@.contains(k) <==> exists|j: int|
            #![trigger rows@[j]]
            0 <= j < i + 1 && rows@[j].id == k && all.contains(k) by {
            if before.contains(k) {
                let x = choose|x: int| 0 <= x < before.len() && before[x] == k;
                assert(ids@[x] == k);
            }
            if ids@.contains(k) && !before.contains(k) {
                let x = choose|x: int| 0 <= x < ids@.len() && ids@[x] == k;
                if x < before.len() {
                    assert(before[x] == k);
                }
                assert(rows@[i as int].id == k);
            }
        }
        i += 1;
    }
    assert forall|k: u128| #[trigger] all.contains(k) == ids@.contains(k) by {
        if all.contains(k) {
            assert(m.contains_key(k));
            let j = choose|j: int| 0 <= j < rows@.len() && (#[trigger] rows@[j]).id == k;
            assert(rows@[j].id == k);
        }
    }
    ids
}

/// Removes the traces that are older than `cutoff`, the observations that belong
/// to them, and the observations that started before it. Returns how many of
/// each went.
pub fn expire_traces(db: &mut MemoryDb, cutoff: &Timestamp) -> (r: (usize, usize))
    requires
        old(db).wf(),
    ensures
        final(db).wf(),
        final(db).traces() == old(db).traces().remove_keys(
            expired_traces(old(db).traces(), cutoff@),
        ),
        final(db).observations() == old(db).observations().remove_keys(
            expired_observations(
                old(db).observations(),
                expired_traces(old(db).traces(), cutoff@),
                cutoff@,
            ),
        ),
        final(db).metrics() == old(db).metrics(),
        final(db).media() == old(db).media(),
        r.0 == expired_traces(old(db).traces(), cutoff@).len(),
        r.1 == expired_observations(
            old(db).observations(),
            expired_traces(old(db).traces(), cutoff@),
            cutoff@,
        ).len(),
{
    broadcast use vstd::std_specs::hash::group_hash_axioms;

    let ghost traces0 = db.traces();
    let ghost observations0 = db.observations();
    let ghost gone_traces = expired_traces(traces0, cutoff@);
    let trace_ids = find_expired_traces(db, cutoff);
    let mut gone: HashSet<u128> = HashSet::new();
    let mut i: usize = 0;
    assert(traces0.remove_keys(trace_ids@.take(0).to_set()) =~= traces0);
    assert(trace_ids@.take(0).to_set() =~= Set::<u128>::empty());
    while i < trace_ids.len()
        invariant
            0 <= i <= trace_ids@.len(),
            db.wf(),
            db.same_but_traces(*old(db)),
            gone@ == trace_ids@.take(i as int).to_set(),
            db.traces() == traces0.remove_keys(trace_ids@.take(i as int).to_set()),
        decreases trace_ids.len() - i,
    {
        let id = trace_ids[i];
        proof {
            lemma_take_set(trace_ids@, i as int);
        }
        db.remove_trace(id);
        let _ = gone.insert(id);
        assert(traces0.remove_keys(trace_ids@.take(i as int).to_set()).remove(id)
            =~= traces0.remove_keys(trace_ids@.take(i + 1).to_set()));
        i += 1;
    }
    proof {
        assert(trace_ids@.take(trace_ids@.len() as int) =~= trace_ids@);
        assert(trace_ids@.to_set() =~= gone_traces);
        lemma_listed_len(trace_ids@, gone_traces);
    }
    let obs_ids = find_expired_observations(db, &gone, cutoff);
    let ghost gone_observations = expired_observations(observations0, gone_traces, cutoff@);
    let mut j: usize = 0;
    assert(obs_ids@.take(0).to_set() =~= Set::<u128>::empty());
    assert(observations0.remove_keys(obs_ids@.take(0).to_set()) =~= observations0);
    while j < obs_ids.len()
        invariant
            0 <= j <= obs_ids@.len(),
            db.wf(),
            db.traces() == traces0.remove_keys(gone_traces),
            db.metrics() == old(db).metrics(),
            db.media() == old(db).media(),
            db.observations() == observations0.remove_keys(obs_ids@.take(j as int).to_set()),
        decreases obs_ids.len() - j,
    {
        let id = obs_ids[j];
        proof {
            lemma_take_set(obs_ids@, j as int);
        }
        db.remove_observation(id);
        assert(observations0.remove_keys(obs_ids@.take(j as int).to_set()).remove(id)
            =~= observations0.remove_keys(obs_ids@.take(j + 1).to_set()));
        j += 1;
    }
    proof {
        assert(obs_ids@.take(obs_ids@.len() as int) =~= obs_ids@);
        assert(obs_ids@.to_set() =~= gone_observations);
        lemma_listed_len(obs_ids@, gone_observations);
    }
    (trace_ids.len(), obs_ids.len())
}

/// The members of one item more.
proof fn lemma_take_set(s: Seq<u128>, i: int)
    requires
        0 <= i < s.len(),
    ensures
        s.take(i + 1).to_set() == s.take(i).to_set().insert(s[i]),
{
    let a = s.take(i + 1);
    let b = s.take(i);
    assert forall|k: u128| #[trigger] a.to_set().contains(k) == b.to_set().insert(s[i]).contains(k) by {
        if a.contains(k) {
            let x = choose|x: int| 0 <= x < a.len() && a[x] == k;
            if x < i {
                assert(b[x] == k);
            }
        }
        if b.contains(k) {
            let x = choose|x: int| 0 <= x < b.len() && b[x] == k;
            assert(a[x] == k);
        }
        if k == s[i] {
            assert(a[i] == k);
        }
    }
    assert(a.to_set() =~= b.to_set().insert(s[i]));
}

/// A trace and its instant.
#[derive(Debug, Clone, Copy, PartialEq, Eq, Structural)]
pub struct TraceTime {
    pub id: u128,
    pub timestamp: Timestamp,
}

/// Older traces stand first.
impl Ranked for TraceTime {
    open spec fn before(&self, other: &TraceTime) -> bool {
        time::earlier(self.timestamp@, other.timestamp@)
    }

    proof fn order_laws(a: &TraceTime, b: &TraceTime, c: &TraceTime) {
    }

    fn stands_before(&self, other: &TraceTime) -> (r: bool) {
        self.timestamp.before(&other.timestamp)
    }
}

/// Whether `s` lists the instants of the traces of `m`, each once, in whatever
/// order.
pub open spec fn lists_times(s: Seq<TraceTime>, m: Map<u128, rows::TraceModel>) -> bool {
    &&& s.len() == m.len()
    &&& forall|i: int, j: int| 0 <= i < j < s.len() ==> (#[trigger] s[i]).id != (#[trigger] s[j]).id
    &&& forall|i: int|
        0 <= i < s.len() ==> m.contains_key((#[trigger] s[i]).id) && m[s[i].id].timestamp
            == s[i].timestamp
}

/// The ids of the first traces of a list.
pub open spec fn first_ids(s: Seq<TraceTime>, n: int) -> Set<u128> {
    s.take(n).map_values(|t: TraceTime| t.id).to_set()
}

/// The observations that do not belong to the traces `gone`.
pub open spec fn without_traces(
    m: Map<u128, rows::ObservationModel>,
    gone: Set<u128>,
) -> Map<u128, rows::ObservationModel> {
    m.restrict(Set::new(|k: u128| m.contains_key(k) && !gone.contains(m[k].trace_id)))
}

/// Removes the oldest traces, with their observations, until there are no more
/// than `max`, where that is not zero. Returns how many traces went; of traces
/// as old as another, which one goes is left open.
pub fn cap_traces(db: &mut MemoryDb, max: usize) -> (r: usize)
    requires
        old(db).wf(),
    ensures
        final(db).wf(),
        final(db).metrics() == old(db).metrics(),
        final(db).media() == old(db).media(),
        if max > 0 && old(db).traces().len() > max {
            r == old(db).traces().len() - max && exists|listed: Seq<TraceTime>| #[trigger]
                lists_times(listed, old(db).traces()) && {
                    let gone = first_ids(order::sorted(listed), r as int);
                    &&& final(db).traces() == old(db).traces().remove_keys(gone)
                    &&& final(db).observations() == without_traces(old(db).observations(), gone)
                }
        } else {
            r == 0 && final(db).traces() == old(db).traces() && final(db).observations() == old(
                db,
            ).observations()
        },
{
    if max == 0 || db.trace_count() <= max {
        return 0;
    }
    let ghost traces0 = db.traces();
    let ghost observations0 = db.observations();
    let rows = db.list_traces();
    let ghost all = rows@;
    proof {
        lemma_traces_listed(all, traces0);
    }
    let mut times: Vec<TraceTime> = Vec::new();
    let mut i: usize = 0;
    while i < rows.len()
        invariant
            0 <= i <= rows@.len(),
            all == rows@,
            times@.len() == i,
            forall|j: int|
                0 <= j < i ==> (#[trigger] times@[j]).id == all[j].id && times@[j].timestamp
                    == all[j].timestamp,
        decreases rows.len() - i,
    {
        times.push(TraceTime { id: rows[i].id, timestamp: rows[i].timestamp });
        i += 1;
    }
    let ghost listed = times@;
    assert(lists_times(listed, traces0)) by {
        assert forall|a: int, b: int| 0 <= a < b < listed.len() implies (#[trigger] listed[a]).id
            != (#[trigger] listed[b]).id by {
            assert(all[a].id != all[b].id);
        }
        assert forall|a: int| 0 <= a < listed.len() implies traces0.contains_key(
            (#[trigger] listed[a]).id,
        ) && traces0[listed[a].id].timestamp == listed[a].timestamp by {
            assert(traces0.contains_key(all[a].id) && traces0[all[a].id] == all[a]@);
        }
    }
    proof {
        order::lemma_sorted_same_items(listed);
    }
    let by_time = sort(times);
    let ghost ordered = by_time@;
    let evict = by_time.len() - max;
    let mut k: usize = 0;
    proof {
        assert(first_ids(ordered, 0) =~= Set::<u128>::empty());
        assert(traces0.remove_keys(first_ids(ordered, 0)) =~= traces0);
        assert(without_traces(observations0, first_ids(ordered, 0)) =~= observations0);
    }
    while k < evict
        invariant
            0 <= k <= evict <= by_time@.len(),
            ordered == by_time@,
            db.wf(),
            db.metrics() == old(db).metrics(),
            db.media() == old(db).media(),
            db.traces() == traces0.remove_keys(first_ids(ordered, k as int)),
            db.observations() == without_traces(observations0, first_ids(ordered, k as int)),
        decreases evict - k,
    {
        let id = by_time[k].id;
        let ghost gone = first_ids(ordered, k as int);
        db.remove_trace(id);
        db.drop_observations_of(id);
        proof {
            let ids = ordered.map_values(|t: TraceTime| t.id);
            assert(ordered.take(k as int).map_values(|t: TraceTime| t.id) =~= ids.take(k as int));
            assert(ordered.take(k + 1).map_values(|t: TraceTime| t.id) =~= ids.take(k + 1));
            lemma_take_set(ids, k as int);
            let more = gone.insert(id);
            assert(first_ids(ordered, k + 1) == more);
            assert(traces0.remove_keys(gone).remove(id) =~= traces0.remove_keys(more));
            assert(maps::without_trace(without_traces(observations0, gone), id)
                =~= without_traces(observations0, more));
        }
        k += 1;
    }
    assert(lists_times(listed, traces0));
    evict
}

/// The metric points that a pass keeps.
pub open spec fn metrics_kept(c: RetentionConfig, s: Seq<MetricRow>, now: Timestamp) -> Seq<MetricRow> {
    newest(metrics_unexpired(c, s, now), c.memory_max_metrics)
}

/// The metric points that are not too old.
pub open spec fn metrics_unexpired(c: RetentionConfig, s: Seq<MetricRow>, now: Timestamp) -> Seq<
    MetricRow,
> {
    if c.metrics_retention_days > 0 {
        unexpired(s, days_ago(now, c.metrics_retention_days)->0)
    } else {
        s
    }
}

/// The traces that a pass finds too old.
pub open spec fn traces_expired(
    c: RetentionConfig,
    m: Map<u128, rows::TraceModel>,
    now: Timestamp,
) -> Set<u128> {
    if c.traces_retention_days > 0 {
        expired_traces(m, days_ago(now, c.traces_retention_days)->0)
    } else {
        Set::empty()
    }
}

/// The observations that a pass finds too old.
pub open spec fn observations_expired(
    c: RetentionConfig,
    traces: Map<u128, rows::TraceModel>,
    m: Map<u128, rows::ObservationModel>,
    now: Timestamp,
) -> Set<u128> {
    if c.traces_retention_days > 0 {
        expired_observations(
            m,
            traces_expired(c, traces, now),
            days_ago(now, c.traces_retention_days)->0,
        )
    } else {
        Set::empty()
    }
}

/// Whether the instants that a pass looks back to are in the calendar.
pub open spec fn reaches_back(c: RetentionConfig, now: Timestamp) -> bool {
    &&& c.metrics_retention_days > 0 ==> days_ago(now, c.metrics_retention_days) is Some
    &&& c.traces_retention_days > 0 ==> days_ago(now, c.traces_retention_days) is Some
}

/// How many traces a pass evicts of those that are not too old.
pub open spec fn evictions(c: RetentionConfig, left: nat) -> nat {
    if c.memory_max_traces > 0 && left > c.memory_max_traces {
        (left - c.memory_max_traces) as nat
    } else {
        0
    }
}

/// The traces that are not too old.
pub open spec fn traces_left(
    c: RetentionConfig,
    m: Map<u128, rows::TraceModel>,
    now: Timestamp,
) -> Map<u128, rows::TraceModel> {
    m.remove_keys(traces_expired(c, m, now))
}

/// The observations that are not too old.
pub open spec fn observations_left(
    c: RetentionConfig,
    traces: Map<u128, rows::TraceModel>,
    m: Map<u128, rows::ObservationModel>,
    now: Timestamp,
) -> Map<u128, rows::ObservationModel> {
    m.remove_keys(observations_expired(c, traces, m, now))
}

/// Whether `db1` is what a pass at `now` leaves of `db0`: what is too old goes,
/// and then what is too much, the oldest first. Of traces as old as another,
/// which one goes is left open.
pub open spec fn is_pass(c: RetentionConfig, db0: MemoryDb, db1: MemoryDb, now: Timestamp) -> bool {
    let traces1 = traces_left(c, db0.traces(), now);
    let observations1 = observations_left(c, db0.traces(), db0.observations(), now);
    let n = evictions(c, traces1.len());
    &&& db1.media() == db0.media()
    &&& db1.metrics() == metrics_kept(c, db0.metrics(), now)
    &&& n == 0 ==> db1.traces() == traces1 && db1.observations() == observations1
    &&& n > 0 ==> exists|listed: Seq<TraceTime>| #[trigger]
        lists_times(listed, traces1) && {
            let gone = first_ids(order::sorted(listed), n as int);
            &&& db1.traces() == traces1.remove_keys(gone)
            &&& db1.observations() == without_traces(observations1, gone)
        }
}

/// The counts after a pass at `now` over `db0`.
pub open spec fn stats_after_pass(
    c: RetentionConfig,
    db0: MemoryDb,
    st: RetentionStats,
    now: Timestamp,
) -> RetentionStats {
    let metrics1 = metrics_unexpired(c, db0.metrics(), now);
    RetentionStats {
        metrics_deleted: st.metrics_deleted.wrapping_add(
            (db0.metrics().len() - metrics1.len()) as u64,
        ),
        traces_deleted: st.traces_deleted.wrapping_add(
            traces_expired(c, db0.traces(), now).len() as u64,
        ),
        observations_deleted: st.observations_deleted.wrapping_add(
            observations_expired(c, db0.traces(), db0.observations(), now).len() as u64,
        ),
        memory_metrics_evicted: st.memory_metrics_evicted.wrapping_add(
            (metrics1.len() - metrics_kept(c, db0.metrics(), now).len()) as u64,
        ),
        memory_traces_evicted: st.memory_traces_evicted.wrapping_add(
            evictions(c, traces_left(c, db0.traces(), now).len()) as u64,
        ),
        ..st
    }
}

/// A pass over a store in memory, at `now`.
pub fn retain_memory_at(
    db: &mut MemoryDb,
    config: &RetentionConfig,
    stats: &mut RetentionStats,
    now: &Timestamp,
)
    requires
        old(db).wf(),
        reaches_back(*config, *now),
    ensures
        final(db).wf(),
        is_pass(*config, *old(db), *final(db), *now),
        *final(stats) == stats_after_pass(*config, *old(db), *old(stats), *now),
{
    let ghost traces0 = db.traces();
    let ghost observations0 = db.observations();
    let ghost metrics0 = db.metrics();
    if config.metrics_retention_days > 0 {
        let at = cutoff(now, config.metrics_retention_days);
        let metrics = db.take_metrics();
        let before = metrics.len();
        let kept = expire_metrics(metrics, &at);
        let deleted = (before - kept.len()) as u64;
        stats.metrics_deleted = stats.metrics_deleted.wrapping_add(deleted);
        db.set_metrics(kept);
    }
    assert(db.metrics() == metrics_unexpired(*config, metrics0, *now));
    let ghost traces1 = traces0.remove_keys(traces_expired(*config, traces0, *now));
    let ghost observations1 = observations0.remove_keys(
        observations_expired(*config, traces0, observations0, *now),
    );
    if config.traces_retention_days > 0 {
        let at = cutoff(now, config.traces_retention_days);
        let (traces, observations) = expire_traces(db, &at);
        stats.traces_deleted = stats.traces_deleted.wrapping_add(traces as u64);
        stats.observations_deleted = stats.observations_deleted.wrapping_add(observations as u64);
    } else {
        assert(traces1 =~= traces0);
        assert(observations1 =~= observations0);
    }
    if config.memory_max_metrics > 0 {
        let metrics = db.take_metrics();
        let before = metrics.len();
        let kept = cap_metrics(metrics, config.memory_max_metrics);
        let evicted = (before - kept.len()) as u64;
        stats.memory_metrics_evicted = stats.memory_metrics_evicted.wrapping_add(evicted);
        db.set_metrics(kept);
    }
    let evicted = cap_traces(db, config.memory_max_traces);
    stats.memory_traces_evicted = stats.memory_traces_evicted.wrapping_add(evicted as u64);
}

/// Whether the calendar holds the instant `days` days before `now`.
fn can_reach(now: &Timestamp, days: u32) -> (r: bool)
    ensures
        r == (days_ago(*now, days) is Some),
{
    let seconds: i64 = (days as i64) * time::SECONDS_PER_DAY;
    now.plus_seconds(-seconds).is_some()
}

/// Whether the calendar reaches back as far as rows are to be kept from every
/// instant that the clock may show: it does so from the epoch.
pub open spec fn reaches_back_always(c: RetentionConfig) -> bool {
    &&& -(c.metrics_retention_days * time::SECONDS_PER_DAY) >= time::FIRST_SECOND
    &&& -(c.traces_retention_days * time::SECONDS_PER_DAY) >= time::FIRST_SECOND
}

/// A pass over a store in memory, at the instant of the system clock. Where the
/// calendar does not reach back as far as rows are to be kept, nothing is done,
/// and the result is false.
pub fn run_memory_retention(
    db: &mut MemoryDb,
    config: &RetentionConfig,
    stats: &mut RetentionStats,
) -> (r: bool)
    requires
        old(db).wf(),
    ensures
        final(db).wf(),
        r ==> exists|now: Timestamp|
            {
                &&& time::on_clock(now@)
                &&& reaches_back(*config, now)
                &&& #[trigger] is_pass(*config, *old(db), *final(db), now)
                &&& *final(stats) == stats_after_pass(*config, *old(db), *old(stats), now)
            },
        !r ==> *final(db) == *old(db) && *final(stats) == *old(stats) && exists|now: Timestamp|
            time::on_clock(now@) && !#[trigger] reaches_back(*config, now),
        reaches_back_always(*config) ==> r,
{
    let now = Timestamp::now();
    if config.metrics_retention_days > 0 && !can_reach(&now, config.metrics_retention_days) {
        assert(!reaches_back(*config, now));
        return false;
    }
    if config.traces_retention_days > 0 && !can_reach(&now, config.traces_retention_days) {
        assert(!reaches_back(*config, now));
        return false;
    }
    retain_memory_at(db, config, stats, &now);
    assert(is_pass(*config, *old(db), *db, now));
    true
}

/// The metric points that are kept are exactly those that are not too old.
pub proof fn lemma_unexpired(s: Seq<MetricRow>, cutoff: (int, int))
    ensures
        forall|m: MetricRow| #[trigger]
            unexpired(s, cutoff).contains(m) == (s.contains(m) && !time::earlier(
                m.timestamp@,
                cutoff,
            )),
        unexpired(s, cutoff).len() <= s.len(),
    decreases s.len(),
{
    if s.len() > 0 {
        lemma_unexpired(s.drop_last(), cutoff);
        let front = s.drop_last();
        let head = unexpired(front, cutoff);
        let kept = unexpired(s, cutoff);
        assert forall|m: MetricRow| #[trigger] kept.contains(m) == (s.contains(m)
            && !time::earlier(m.timestamp@, cutoff)) by {
            assert(head.contains(m) == (front.contains(m) && !time::earlier(
                m.timestamp@,
                cutoff,
            )));
            if kept.contains(m) {
                let i = choose|i: int| 0 <= i < kept.len() && kept[i] == m;
                if i < head.len() {
                    assert(head[i] == m);
                    let j = choose|j: int| 0 <= j < front.len() && front[j] == m;
                    assert(s[j] == m);
                } else {
                    assert(s[s.len() - 1] == m);
                }
            }
            if s.contains(m) && !time::earlier(m.timestamp@, cutoff) {
                let j = choose|j: int| 0 <= j < s.len() && s[j] == m;
                if j < front.len() {
                    assert(front[j] == m);
                    let i = choose|i: int| 0 <= i < head.len() && head[i] == m;
                    assert(kept[i] == m);
                } else {
                    assert(kept[head.len() as int] == m);
                }
            }
        }
    }
}

/// The metric points that go where there are too many.
pub open spec fn overflow(s: Seq<MetricRow>, max: usize) -> Seq<MetricRow> {
    if max > 0 && s.len() > max {
        order::sorted(s).take(s.len() - max)
    } else {
        Seq::empty()
    }
}

/// The metric points that are kept are as many as allowed, or all; with those that
/// go they are those that there were, and none that goes is later than one that
/// stays.
pub proof fn lemma_newest(s: Seq<MetricRow>, max: usize)
    ensures
        newest(s, max).len() == (if max > 0 && s.len() > max {
            max as nat
        } else {
            s.len()
        }),
        (overflow(s, max) + newest(s, max)).to_multiset() == s.to_multiset(),
        forall|i: int, j: int|
            0 <= i < overflow(s, max).len() && 0 <= j < newest(s, max).len() ==> !time::earlier(
                (#[trigger] newest(s, max)[j]).timestamp@,
                (#[trigger] overflow(s, max)[i]).timestamp@,
            ),
{
    order::lemma_sorted_same_items(s);
    order::lemma_sorted_in_order(s);
    if max > 0 && s.len() > max {
        let t = order::sorted(s);
        let n = s.len() - max;
        assert(overflow(s, max) + newest(s, max) =~= t);
        assert forall|i: int, j: int|
            0 <= i < n && 0 <= j < newest(s, max).len() implies !time::earlier(
            (#[trigger] newest(s, max)[j]).timestamp@,
            (#[trigger] overflow(s, max)[i]).timestamp@,
        ) by {
            assert(newest(s, max)[j] == t[n + j]);
            assert(overflow(s, max)[i] == t[i]);
            assert(!t[n + j].before(&t[i]));
        }
    } else {
        assert(overflow(s, max) + newest(s, max) =~= s);
    }
}

/// Where traces are kept for a time and their number is not limited, a pass leaves
/// exactly the traces that are not older, and exactly the observations whose trace
/// does not go and that did not start before; what it leaves is as it was, and what
/// it removes is counted.
pub proof fn lemma_pass_removes_old_traces(
    c: RetentionConfig,
    db0: MemoryDb,
    db1: MemoryDb,
    st: RetentionStats,
    now: Timestamp,
    cutoff: (int, int),
)
    requires
        is_pass(c, db0, db1, now),
        c.traces_retention_days > 0,
        c.memory_max_traces == 0,
        days_ago(now, c.traces_retention_days) == Some(cutoff),
        db0.wf(),
    ensures
        forall|k: u128| #[trigger]
            db1.traces().contains_key(k) == (db0.traces().contains_key(k) && !time::earlier(
                db0.traces()[k].timestamp@,
                cutoff,
            )),
        forall|k: u128| #[trigger]
            db1.traces().contains_key(k) ==> db1.traces()[k] == db0.traces()[k],
        forall|k: u128| #[trigger]
            db1.observations().contains_key(k) == ({
                let o = db0.observations()[k];
                let t = db0.traces();
                &&& db0.observations().contains_key(k)
                &&& !(t.contains_key(o.trace_id) && time::earlier(
                    t[o.trace_id].timestamp@,
                    cutoff,
                ))
                &&& o.start_time matches Some(x) ==> !time::earlier(x@, cutoff)
            }),
        forall|k: u128| #[trigger]
            db1.observations().contains_key(k) ==> db1.observations()[k] == db0.observations()[k],
        stats_after_pass(c, db0, st, now).traces_deleted == st.traces_deleted.wrapping_add(
            (db0.traces().len() - db1.traces().len()) as u64,
        ),
        stats_after_pass(c, db0, st, now).observations_deleted
            == st.observations_deleted.wrapping_add(
            (db0.observations().len() - db1.observations().len()) as u64,
        ),
        stats_after_pass(c, db0, st, now).memory_traces_evicted == st.memory_traces_evicted,
{
    let old_traces = traces_expired(c, db0.traces(), now);
    let old_observations = observations_expired(c, db0.traces(), db0.observations(), now);
    assert(old_traces.subset_of(db0.traces().dom()));
    assert(old_observations.subset_of(db0.observations().dom()));
    vstd::set_lib::lemma_len_subset(old_traces, db0.traces().dom());
    vstd::set_lib::lemma_len_subset(old_observations, db0.observations().dom());
    assert(db1.traces().dom() =~= db0.traces().dom().difference(old_traces));
    assert(db1.observations().dom() =~= db0.observations().dom().difference(old_observations));
    lemma_parts_len(db0.traces().dom(), old_traces);
    lemma_parts_len(db0.observations().dom(), old_observations);
}

/// A set without some of its members is smaller by as many.
pub(crate) proof fn lemma_parts_len(whole: Set<u128>, part: Set<u128>)
    requires
        whole.finite(),
        part.subset_of(whole),
    ensures
        whole.difference(part).len() + part.len() == whole.len(),
{
    vstd::set_lib::lemma_len_subset(part, whole);
    vstd::set_lib::lemma_set_disjoint_lens(whole.difference(part), part);
    assert(whole.difference(part) + part =~= whole);
}

/// Where the number of metric points is limited and their age is not, a pass leaves
/// as many as allowed, or all and in their order; those that go are not later than
/// those that stay, and they are counted as evicted.
pub proof fn lemma_pass_caps_metrics(
    c: RetentionConfig,
    db0: MemoryDb,
    db1: MemoryDb,
    st: RetentionStats,
    now: Timestamp,
)
    requires
        is_pass(c, db0, db1, now),
        c.metrics_retention_days == 0,
        c.memory_max_metrics > 0,
    ensures
        db0.metrics().len() <= c.memory_max_metrics ==> db1.metrics() == db0.metrics(),
        db0.metrics().len() > c.memory_max_metrics ==> db1.metrics().len() == c.memory_max_metrics,
        (overflow(db0.metrics(), c.memory_max_metrics) + db1.metrics()).to_multiset()
            == db0.metrics().to_multiset(),
        forall|i: int, j: int|
            0 <= i < overflow(db0.metrics(), c.memory_max_metrics).len() && 0 <= j
                < db1.metrics().len() ==> !time::earlier(
                (#[trigger] db1.metrics()[j]).timestamp@,
                (#[trigger] overflow(db0.metrics(), c.memory_max_metrics)[i]).timestamp@,
            ),
        stats_after_pass(c, db0, st, now).memory_metrics_evicted
            == st.memory_metrics_evicted.wrapping_add(
            (db0.metrics().len() - db1.metrics().len()) as u64,
        ),
        stats_after_pass(c, db0, st, now).metrics_deleted == st.metrics_deleted,
{
    lemma_newest(db0.metrics(), c.memory_max_metrics);
}

/// Without a limit a pass keeps everything.
pub proof fn lemma_no_limit_keeps_all(c: RetentionConfig, db0: MemoryDb, db1: MemoryDb, now: Timestamp)
    requires
        is_pass(c, db0, db1, now),
        c.metrics_retention_days == 0,
        c.traces_retention_days == 0,
        c.memory_max_metrics == 0,
        c.memory_max_traces == 0,
    ensures
        db1.traces() == db0.traces(),
        db1.observations() == db0.observations(),
        db1.metrics() == db0.metrics(),
        db1.media() == db0.media(),
{
    assert(traces_left(c, db0.traces(), now) =~= db0.traces());
    assert(observations_left(c, db0.traces(), db0.observations(), now) =~= db0.observations());
}

/// The ids of distinct traces are as many as the traces.
pub(crate) proof fn lemma_first_ids_len(listed: Seq<TraceTime>, m: Map<u128, rows::TraceModel>, n: int)
    requires
        lists_times(listed, m),
        0 <= n <= listed.len(),
    ensures
        first_ids(order::sorted(listed), n).len() == n,
        first_ids(order::sorted(listed), n).finite(),
        first_ids(order::sorted(listed), n).subset_of(m.dom()),
{
    broadcast use vstd::seq_lib::group_to_multiset_ensures;

    let t = order::sorted(listed);
    order::lemma_sorted_same_items(listed);
    let ids = t.take(n).map_values(|x: TraceTime| x.id);
    assert(listed.no_duplicates()) by {
        assert forall|i: int, j: int| 0 <= i < listed.len() && 0 <= j < listed.len() && i
            != j implies listed[i] != listed[j] by {
            if i < j {
                assert(listed[i].id != listed[j].id);
            } else {
                assert(listed[j].id != listed[i].id);
            }
        }
    }
    assert forall|i: int| 0 <= i < t.len() implies listed.contains(#[trigger] t[i]) by {
        assert(t.contains(t[i]));
        assert(t.to_multiset().count(t[i]) > 0);
        assert(listed.to_multiset().count(t[i]) > 0);
    }
    assert(t.no_duplicates()) by {
        listed.lemma_multiset_has_no_duplicates();
        assert(t.to_multiset() == listed.to_multiset());
        t.lemma_multiset_has_no_duplicates_conv();
    }
    assert(ids.no_duplicates()) by {
        assert forall|i: int, j: int| 0 <= i < ids.len() && 0 <= j < ids.len() && i != j implies ids[i]
            != ids[j] by {
            let a = choose|a: int| 0 <= a < listed.len() && listed[a] == t[i];
            let b = choose|b: int| 0 <= b < listed.len() && listed[b] == t[j];
            assert(t[i] != t[j]);
            if a < b {
                assert(listed[a].id != listed[b].id);
            } else {
                assert(listed[b].id != listed[a].id);
            }
        }
    }
    ids.unique_seq_to_set();
    vstd::seq_lib::seq_to_set_is_finite(ids);
    assert forall|k: u128| first_ids(t, n).contains(k) implies #[trigger] m.dom().contains(k) by {
        let i = choose|i: int| 0 <= i < ids.len() && ids[i] == k;
        let a = choose|a: int| 0 <= a < listed.len() && listed[a] == t[i];
        assert(m.contains_key(listed[a].id));
    }
}

/// What is sorted is what was listed.
pub(crate) proof fn lemma_sorted_from_listed(
    listed: Seq<TraceTime>,
    m: Map<u128, rows::TraceModel>,
    i: int,
)
    requires
        lists_times(listed, m),
        0 <= i < order::sorted(listed).len(),
    ensures
        m.contains_key(order::sorted(listed)[i].id),
        m[order::sorted(listed)[i].id].timestamp == order::sorted(listed)[i].timestamp,
{
    broadcast use vstd::seq_lib::group_to_multiset_ensures;

    let t = order::sorted(listed);
    order::lemma_sorted_same_items(listed);
    assert(t.contains(t[i]));
    assert(t.to_multiset().count(t[i]) > 0);
    assert(listed.to_multiset().count(t[i]) > 0);
    assert(listed.contains(t[i]));
    let a = choose|a: int| 0 <= a < listed.len() && listed[a] == t[i];
    assert(m.contains_key(listed[a].id));
}

/// A list of as many traces as there are lists all of them.
pub(crate) proof fn lemma_all_listed(listed: Seq<TraceTime>, m: Map<u128, rows::TraceModel>)
    requires
        lists_times(listed, m),
        m.dom().finite(),
    ensures
        forall|k: u128| #[trigger]
            m.contains_key(k) ==> exists|j: int|
                0 <= j < order::sorted(listed).len() && (#[trigger] order::sorted(listed)[j]).id
                    == k,
{
    let t = order::sorted(listed);
    let n = listed.len() as int;
    order::lemma_sorted_same_items(listed);
    lemma_first_ids_len(listed, m, n);
    let all = first_ids(t, n);
    vstd::set_lib::lemma_subset_equality(all, m.dom());
    assert forall|k: u128| #[trigger] m.contains_key(k) implies exists|j: int|
        0 <= j < t.len() && (#[trigger] t[j]).id == k by {
        assert(all.contains(k));
        let ids = t.take(n).map_values(|x: TraceTime| x.id);
        let j = choose|j: int| 0 <= j < ids.len() && ids[j] == k;
        assert(t[j].id == k);
    }
}

/// After a pass there are no more traces than allowed.
pub proof fn lemma_pass_caps_traces(c: RetentionConfig, db0: MemoryDb, db1: MemoryDb, now: Timestamp)
    requires
        is_pass(c, db0, db1, now),
        c.memory_max_traces > 0,
        db0.traces().dom().finite(),
    ensures
        db1.traces().len() <= c.memory_max_traces,
{
    let traces1 = traces_left(c, db0.traces(), now);
    let n = evictions(c, traces1.len());
    assert(traces1.dom() =~= db0.traces().dom().difference(traces_expired(c, db0.traces(), now)));
    if n > 0 {
        let listed = choose|listed: Seq<TraceTime>| #[trigger]
            lists_times(listed, traces1) && {
                let gone = first_ids(order::sorted(listed), n as int);
                &&& db1.traces() == traces1.remove_keys(gone)
                &&& db1.observations() == without_traces(
                    observations_left(c, db0.traces(), db0.observations(), now),
                    gone,
                )
            };
        let gone = first_ids(order::sorted(listed), n as int);
        lemma_first_ids_len(listed, traces1, n as int);
        assert(db1.traces().dom() =~= traces1.dom().difference(gone));
        vstd::set_lib::lemma_len_difference(traces1.dom(), gone);
        assert(traces1.dom().intersect(gone) =~= gone);
        vstd::set_lib::lemma_set_difference_len(traces1.dom(), gone);
    }
}

/// A pass leaves no observation behind whose trace it removes.
pub proof fn lemma_pass_no_orphans(c: RetentionConfig, db0: MemoryDb, db1: MemoryDb, now: Timestamp)
    requires
        is_pass(c, db0, db1, now),
        ingest::all_have_traces(db0.traces(), db0.observations()),
    ensures
        ingest::all_have_traces(db1.traces(), db1.observations()),
{
    let traces1 = traces_left(c, db0.traces(), now);
    let observations1 = observations_left(c, db0.traces(), db0.observations(), now);
    let n = evictions(c, traces1.len());
    assert(ingest::all_have_traces(traces1, observations1)) by {
        assert forall|k: u128| #[trigger] observations1.contains_key(k) implies traces1.contains_key(
            observations1[k].trace_id,
        ) by {
            assert(db0.observations().contains_key(k));
        }
    }
    if n > 0 {
        let listed = choose|listed: Seq<TraceTime>| #[trigger]
            lists_times(listed, traces1) && {
                let gone = first_ids(order::sorted(listed), n as int);
                &&& db1.traces() == traces1.remove_keys(gone)
                &&& db1.observations() == without_traces(observations1, gone)
            };
        assert forall|k: u128| #[trigger] db1.observations().contains_key(k) implies db1.traces().contains_key(
            db1.observations()[k].trace_id,
        ) by {
            assert(observations1.contains_key(k));
        }
    }
}

/// A statement that retention makes to a database.
#[derive(Debug, Clone, Copy, PartialEq, Eq, Structural)]
pub enum DatabaseStep {
    /// Puts an average for each hour in the place of the points from `from` on and
    /// before `to`. The averages stand in that stretch of time too.
    Downsample { from: Timestamp, to: Timestamp },
    /// Deletes the points before an instant.
    DeleteMetricsBefore { before: Timestamp },
    /// Deletes the observations of the traces before an instant.
    DeleteObservationsBefore { before: Timestamp },
    /// Deletes the traces before an instant.
    DeleteTracesBefore { before: Timestamp },
}

/// Whether points are to be averaged: before they are deleted altogether.
pub open spec fn downsamples(c: RetentionConfig) -> bool {
    c.metrics_downsample_after_days > 0 && c.metrics_retention_days
        > c.metrics_downsample_after_days
}

/// Whether the instants that a pass over a database looks back to are in the
/// calendar.
pub open spec fn database_reaches_back(c: RetentionConfig, now: Timestamp) -> bool {
    &&& reaches_back(c, now)
    &&& downsamples(c) ==> days_ago(now, c.metrics_downsample_after_days) is Some
}

/// Whether `steps` are those of a pass over a database, in their order.
pub open spec fn are_steps(c: RetentionConfig, now: Timestamp, steps: Seq<DatabaseStep>) -> bool {
    let a: int = if downsamples(c) {
        1
    } else {
        0
    };
    let b: int = if c.metrics_retention_days > 0 {
        1
    } else {
        0
    };
    let d: int = if c.traces_retention_days > 0 {
        2
    } else {
        0
    };
    &&& steps.len() == a + b + d
    &&& downsamples(c) ==> (steps[0] matches DatabaseStep::Downsample { from, to } && days_ago(
        now,
        c.metrics_retention_days,
    ) == Some(from@) && days_ago(now, c.metrics_downsample_after_days) == Some(to@))
    &&& c.metrics_retention_days > 0 ==> (steps[a] matches DatabaseStep::DeleteMetricsBefore {
        before,
    } && days_ago(now, c.metrics_retention_days) == Some(before@))
    &&& c.traces_retention_days > 0 ==> {
        &&& steps[a + b] matches DatabaseStep::DeleteObservationsBefore { before } && days_ago(
            now,
            c.traces_retention_days,
        ) == Some(before@)
        &&& steps[a + b + 1] matches DatabaseStep::DeleteTracesBefore { before } && days_ago(
            now,
            c.traces_retention_days,
        ) == Some(before@)
    }
}

/// The statements of a pass over a database, in their order.
pub fn database_steps(config: &RetentionConfig, now: &Timestamp) -> (r: Vec<DatabaseStep>)
    requires
        database_reaches_back(*config, *now),
    ensures
        are_steps(*config, *now, r@),
{
    let mut steps: Vec<DatabaseStep> = Vec::new();
    if config.metrics_downsample_after_days > 0 && config.metrics_retention_days
        > config.metrics_downsample_after_days {
        let to = cutoff(now, config.metrics_downsample_after_days);
        let from = cutoff(now, config.metrics_retention_days);
        steps.push(DatabaseStep::Downsample { from, to });
    }
    if config.metrics_retention_days > 0 {
        let before = cutoff(now, config.metrics_retention_days);
        steps.push(DatabaseStep::DeleteMetricsBefore { before });
    }
    if config.traces_retention_days > 0 {
        let before = cutoff(now, config.traces_retention_days);
        steps.push(DatabaseStep::DeleteObservationsBefore { before });
        steps.push(DatabaseStep::DeleteTracesBefore { before });
    }
    steps
}

/// Whether a step deletes the metric points of an instant for good.
pub open spec fn deletes_points_at(step: DatabaseStep, t: Timestamp) -> bool {
    step matches DatabaseStep::DeleteMetricsBefore { before } && time::earlier(t@, before@)
}

/// What a pass has averaged stays: no step of the pass deletes points of the
/// stretch of time in which the averages stand, nor any later ones.
pub proof fn lemma_averages_stay(
    c: RetentionConfig,
    now: Timestamp,
    steps: Seq<DatabaseStep>,
    t: Timestamp,
)
    requires
        are_steps(c, now, steps),
        downsamples(c),
        steps[0] matches DatabaseStep::Downsample { from, to } && !time::earlier(t@, from@),
    ensures
        forall|i: int| 0 <= i < steps.len() ==> !deletes_points_at(#[trigger] steps[i], t),
{
    assert forall|i: int| 0 <= i < steps.len() implies !deletes_points_at(
        #[trigger] steps[i],
        t,
    ) by {
        assert(i == 0 || i == 1 || i == 2 || i == 3);
    }
}

/// Counts the rows that a step deleted and those that it wrote.
pub fn record_step(stats: &mut RetentionStats, step: &DatabaseStep, deleted: u64, written: u64)
    ensures
        *final(stats) == match *step {
            DatabaseStep::Downsample { .. } => RetentionStats {
                metrics_deleted: old(stats).metrics_deleted.wrapping_add(deleted),
                metrics_downsampled: old(stats).metrics_downsampled.wrapping_add(written),
                ..*old(stats)
            },
            DatabaseStep::DeleteMetricsBefore { .. } => RetentionStats {
                metrics_deleted: old(stats).metrics_deleted.wrapping_add(deleted),
                ..*old(stats)
            },
            DatabaseStep::DeleteObservationsBefore { .. } => RetentionStats {
                observations_deleted: old(stats).observations_deleted.wrapping_add(deleted),
                ..*old(stats)
            },
            DatabaseStep::DeleteTracesBefore { .. } => RetentionStats {
                traces_deleted: old(stats).traces_deleted.wrapping_add(deleted),
                ..*old(stats)
            },
        },
{
    match step {
        DatabaseStep::Downsample { .. } => {
            stats.metrics_deleted = stats.metrics_deleted.wrapping_add(deleted);
            stats.metrics_downsampled = stats.metrics_downsampled.wrapping_add(written);
        },
        DatabaseStep::DeleteMetricsBefore { .. } => {
            stats.metrics_deleted = stats.metrics_deleted.wrapping_add(deleted);
        },
        DatabaseStep::DeleteObservationsBefore { .. } => {
            stats.observations_deleted = stats.observations_deleted.wrapping_add(deleted);
        },
        DatabaseStep::DeleteTracesBefore { .. } => {
            stats.traces_deleted = stats.traces_deleted.wrapping_add(deleted);
        },
    }
}

}
