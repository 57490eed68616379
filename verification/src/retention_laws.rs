//! What retention removes and what it leaves.

use vstd::prelude::*;

use crate::memory_db::MemoryDb;
use crate::order;
use crate::order::Ranked;
use crate::retention;
use crate::retention::{DatabaseStep, RetentionConfig, RetentionStats, TraceTime};
use crate::rows::MetricRow;
use crate::time;
use crate::time::Timestamp;

verus! {

/// Whether an instant comes before the one that lies so many days of 86400 seconds
/// before now.
pub open spec fn is_older(t: (int, int), days: int, now: Timestamp) -> bool {
    time::ticks(t) < time::ticks((now@.0 - days * 86400, now@.1))
}

/// Whether an instant is one of the calendar, and none within a leap second.
pub open spec fn plain(t: Timestamp) -> bool {
    time::valid_instant(t@.0, t@.1) && t@.1 < time::NANOS_PER_SECOND
}

/// The instant some days ago lies as many times 86400 seconds back; what is earlier
/// than it is older than so many days.
pub proof fn lemma_days_ago(now: Timestamp, days: u32, t: (int, int))
    requires
        plain(now),
        time::valid_instant(t.0, t.1),
    ensures
        retention::days_ago(now, days) matches Some(u) ==> {
            &&& u.0 == now@.0 - days * 86400
            &&& u.1 == now@.1
            &&& time::earlier(t, u) == is_older(t, days as int, now)
        },
        now@.0 >= days * 86400 ==> retention::days_ago(now, days) is Some,
{
    if retention::days_ago(now, days) is Some {
        let u = retention::days_ago(now, days)->0;
        time::lemma_earlier_counts(t, u);
    }
}

/// What a pass over a database deletes of metric points: where they are kept for some
/// days, those of every instant that is older, and of no other.
pub proof fn lemma_steps_delete_old_points(
    c: RetentionConfig,
    now: Timestamp,
    steps: Seq<DatabaseStep>,
    t: Timestamp,
)
    requires
        retention::are_steps(c, now, steps),
        plain(now),
        time::valid_instant(t@.0, t@.1),
    ensures
        (exists|i: int|
            0 <= i < steps.len() && (#[trigger] steps[i] matches DatabaseStep::DeleteMetricsBefore {
                before,
            } && time::ticks(t@) < time::ticks(before@))) <==> c.metrics_retention_days > 0
            && is_older(t@, c.metrics_retention_days as int, now),
{
    if c.metrics_retention_days > 0 {
        lemma_days_ago(now, c.metrics_retention_days, t@);
        let a: int = if retention::downsamples(c) {
            1
        } else {
            0
        };
        assert(steps[a] is DeleteMetricsBefore);
    }
    if exists|i: int|
        0 <= i < steps.len() && (#[trigger] steps[i] matches DatabaseStep::DeleteMetricsBefore {
            before,
        } && time::ticks(t@) < time::ticks(before@)) {
        let i = choose|i: int|
            0 <= i < steps.len() && (#[trigger] steps[i] matches DatabaseStep::DeleteMetricsBefore {
                before,
            } && time::ticks(t@) < time::ticks(before@));
        assert(i == 0 || i == 1 || i == 2 || i == 3);
    }
}

/// What a pass over a database averages: where points are averaged after some days
/// and kept for more, those that are older than the former and not older than the
/// latter, and no others; and it does so before it deletes anything.
pub proof fn lemma_steps_average_between(
    c: RetentionConfig,
    now: Timestamp,
    steps: Seq<DatabaseStep>,
    t: Timestamp,
)
    requires
        retention::are_steps(c, now, steps),
        plain(now),
        time::valid_instant(t@.0, t@.1),
    ensures
        (exists|i: int|
            0 <= i < steps.len() && (#[trigger] steps[i] matches DatabaseStep::Downsample {
                from,
                to,
            } && time::ticks(from@) <= time::ticks(t@) < time::ticks(to@))) <==> 0
            < c.metrics_downsample_after_days < c.metrics_retention_days && is_older(
            t@,
            c.metrics_downsample_after_days as int,
            now,
        ) && !is_older(t@, c.metrics_retention_days as int, now),
        forall|i: int|
            0 <= i < steps.len() && (#[trigger] steps[i]) is Downsample ==> i == 0,
        (exists|i: int| 0 <= i < steps.len() && (#[trigger] steps[i]) is Downsample) <==> 0
            < c.metrics_downsample_after_days < c.metrics_retention_days,
{
    if retention::downsamples(c) {
        lemma_days_ago(now, c.metrics_downsample_after_days, t@);
        lemma_days_ago(now, c.metrics_retention_days, t@);
        assert(steps[0] is Downsample);
    }
    assert forall|i: int| 0 <= i < steps.len() && (#[trigger] steps[i]) is Downsample implies i
        == 0 && retention::downsamples(c) by {
        assert(i == 0 || i == 1 || i == 2 || i == 3);
    }
}

/// What a pass over a database deletes of traces and their observations: where they
/// are kept for some days, the traces of every instant that is older, and of no
/// other; and before them the observations of the same traces.
pub proof fn lemma_steps_delete_old_traces(
    c: RetentionConfig,
    now: Timestamp,
    steps: Seq<DatabaseStep>,
    t: Timestamp,
)
    requires
        retention::are_steps(c, now, steps),
        plain(now),
        time::valid_instant(t@.0, t@.1),
    ensures
        (exists|i: int|
            0 <= i < steps.len() && (#[trigger] steps[i] matches DatabaseStep::DeleteTracesBefore {
                before,
            } && time::ticks(t@) < time::ticks(before@))) <==> c.traces_retention_days > 0
            && is_older(t@, c.traces_retention_days as int, now),
        (exists|i: int|
            0 <= i < steps.len() && (
            #[trigger] steps[i] matches DatabaseStep::DeleteObservationsBefore { before }
                && time::ticks(t@) < time::ticks(before@))) <==> c.traces_retention_days > 0
            && is_older(t@, c.traces_retention_days as int, now),
        forall|i: int, j: int|
            0 <= i < steps.len() && 0 <= j < steps.len() && (
            #[trigger] steps[i]) is DeleteObservationsBefore && (
            #[trigger] steps[j]) is DeleteTracesBefore ==> i < j,
{
    if c.traces_retention_days > 0 {
        lemma_days_ago(now, c.traces_retention_days, t@);
        let n = steps.len() as int;
        assert(steps[n - 2] is DeleteObservationsBefore);
        assert(steps[n - 1] is DeleteTracesBefore);
    }
    assert forall|i: int|
        0 <= i < steps.len() && (#[trigger] steps[i]) is DeleteTracesBefore implies
        c.traces_retention_days > 0 && i == steps.len() - 1 by {
        assert(i == 0 || i == 1 || i == 2 || i == 3);
    }
    assert forall|i: int|
        0 <= i < steps.len() && (#[trigger] steps[i]) is DeleteObservationsBefore implies
        c.traces_retention_days > 0 && i == steps.len() - 2 by {
        assert(i == 0 || i == 1 || i == 2 || i == 3);
    }
}

/// What a pass over a store in memory leaves of metric points whose number is not
/// limited: where they are kept for some days, exactly those that are not older, and
/// otherwise all.
pub proof fn lemma_pass_removes_old_points(
    c: RetentionConfig,
    db0: MemoryDb,
    db1: MemoryDb,
    now: Timestamp,
    m: MetricRow,
)
    requires
        retention::is_pass(c, db0, db1, now),
        retention::reaches_back(c, now),
        c.memory_max_metrics == 0,
        plain(now),
        time::valid_instant(m.timestamp@.0, m.timestamp@.1),
    ensures
        db1.metrics().contains(m) <==> db0.metrics().contains(m) && (c.metrics_retention_days > 0
            ==> !is_older(m.timestamp@, c.metrics_retention_days as int, now)),
        c.metrics_retention_days == 0 ==> db1.metrics() == db0.metrics(),
{
    if c.metrics_retention_days > 0 {
        lemma_days_ago(now, c.metrics_retention_days, m.timestamp@);
        retention::lemma_unexpired(
            db0.metrics(),
            retention::days_ago(now, c.metrics_retention_days)->0,
        );
    }
}

/// The metric points that a pass leaves are in the order in which they were, where
/// their number is not limited.
pub proof fn lemma_points_keep_their_order(a: Seq<MetricRow>, b: Seq<MetricRow>, cutoff: (int, int))
    ensures
        retention::unexpired(a + b, cutoff) == retention::unexpired(a, cutoff)
            + retention::unexpired(b, cutoff),
    decreases b.len(),
{
    if b.len() == 0 {
        assert(a + b =~= a);
        assert(retention::unexpired(a, cutoff) + retention::unexpired(b, cutoff)
            =~= retention::unexpired(a, cutoff));
    } else {
        lemma_points_keep_their_order(a, b.drop_last(), cutoff);
        assert((a + b).drop_last() =~= a + b.drop_last());
        assert(retention::unexpired(a + b, cutoff) =~= retention::unexpired(a, cutoff)
            + retention::unexpired(b, cutoff));
    }
}

/// What a pass over a store in memory counts is what it removes: the traces that are
/// gone are those that it says it deleted and evicted together, and so are the metric
/// points.
pub proof fn lemma_pass_counts_what_it_removes(
    c: RetentionConfig,
    db0: MemoryDb,
    db1: MemoryDb,
    st: RetentionStats,
    now: Timestamp,
)
    requires
        retention::is_pass(c, db0, db1, now),
        db0.wf(),
        st.traces_deleted == 0,
        st.memory_traces_evicted == 0,
        st.metrics_deleted == 0,
        st.memory_metrics_evicted == 0,
        db0.traces().len() <= u64::MAX,
        db0.metrics().len() <= u64::MAX,
    ensures
        ({
            let after = retention::stats_after_pass(c, db0, st, now);
            &&& db1.traces().len() + after.traces_deleted + after.memory_traces_evicted
                == db0.traces().len()
            &&& db1.metrics().len() + after.metrics_deleted + after.memory_metrics_evicted
                == db0.metrics().len()
            &&& after.runs == st.runs
            &&& after.metrics_downsampled == st.metrics_downsampled
            &&& after.last_error == st.last_error
        }),
{
    let gone = retention::traces_expired(c, db0.traces(), now);
    let left = retention::traces_left(c, db0.traces(), now);
    assert(gone.subset_of(db0.traces().dom()));
    vstd::set_lib::lemma_len_subset(gone, db0.traces().dom());
    assert(left.dom() =~= db0.traces().dom().difference(gone));
    retention::lemma_parts_len(db0.traces().dom(), gone);
    let n = retention::evictions(c, left.len());
    if n > 0 {
        let listed = choose|listed: Seq<TraceTime>| #[trigger]
            retention::lists_times(listed, left) && {
                let out = retention::first_ids(order::sorted(listed), n as int);
                &&& db1.traces() == left.remove_keys(out)
                &&& db1.observations() == retention::without_traces(
                    retention::observations_left(c, db0.traces(), db0.observations(), now),
                    out,
                )
            };
        let out = retention::first_ids(order::sorted(listed), n as int);
        retention::lemma_first_ids_len(listed, left, n as int);
        assert(db1.traces().dom() =~= left.dom().difference(out));
        retention::lemma_parts_len(left.dom(), out);
    }
    let kept = retention::metrics_unexpired(c, db0.metrics(), now);
    if c.metrics_retention_days > 0 {
        retention::lemma_unexpired(
            db0.metrics(),
            retention::days_ago(now, c.metrics_retention_days)->0,
        );
    }
    retention::lemma_newest(kept, c.memory_max_metrics);
}

/// Where the number of traces is limited and their age is not, a pass leaves as many
/// as allowed, or all; no trace that goes is later than one that stays; what stays is
/// as it was; and exactly the observations of the traces that go, go with them.
pub proof fn lemma_pass_evicts_the_oldest(
    c: RetentionConfig,
    db0: MemoryDb,
    db1: MemoryDb,
    now: Timestamp,
)
    requires
        retention::is_pass(c, db0, db1, now),
        c.traces_retention_days == 0,
        c.memory_max_traces > 0,
        db0.wf(),
    ensures
        db1.traces().len() == (if db0.traces().len() > c.memory_max_traces {
            c.memory_max_traces as nat
        } else {
            db0.traces().len()
        }),
        db0.traces().len() <= c.memory_max_traces ==> db1.traces() == db0.traces()
            && db1.observations() == db0.observations(),
        forall|k: u128| #[trigger]
            db1.traces().contains_key(k) ==> db0.traces().contains_key(k) && db1.traces()[k]
                == db0.traces()[k],
        forall|k: u128, g: u128|
            #![trigger db1.traces().contains_key(k), db0.traces().contains_key(g)]
            db1.traces().contains_key(k) && db0.traces().contains_key(g)
                && !db1.traces().contains_key(g) ==> !time::earlier(
                db1.traces()[k].timestamp@,
                db0.traces()[g].timestamp@,
            ),
        forall|o: u128| #[trigger]
            db1.observations().contains_key(o) == (db0.observations().contains_key(o) && !(
            db0.traces().contains_key(db0.observations()[o].trace_id)
                && !db1.traces().contains_key(db0.observations()[o].trace_id))),
        forall|o: u128| #[trigger]
            db1.observations().contains_key(o) ==> db1.observations()[o] == db0.observations()[o],
{
    let left = retention::traces_left(c, db0.traces(), now);
    let obs = retention::observations_left(c, db0.traces(), db0.observations(), now);
    assert(left =~= db0.traces());
    assert(obs =~= db0.observations());
    let n = retention::evictions(c, left.len());
    if n > 0 {
        let listed = choose|listed: Seq<TraceTime>| #[trigger]
            retention::lists_times(listed, left) && {
                let out = retention::first_ids(order::sorted(listed), n as int);
                &&& db1.traces() == left.remove_keys(out)
                &&& db1.observations() == retention::without_traces(obs, out)
            };
        let t = order::sorted(listed);
        let out = retention::first_ids(t, n as int);
        retention::lemma_first_ids_len(listed, left, n as int);
        assert(db1.traces().dom() =~= left.dom().difference(out));
        retention::lemma_parts_len(left.dom(), out);
        order::lemma_sorted_in_order(listed);
        order::lemma_sorted_same_items(listed);
        retention::lemma_all_listed(listed, left);
        let ids = t.take(n as int).map_values(|x: TraceTime| x.id);
        assert forall|k: u128, g: u128|
            #![trigger db1.traces().contains_key(k), db0.traces().contains_key(g)]
            db1.traces().contains_key(k) && db0.traces().contains_key(g)
                && !db1.traces().contains_key(g) implies !time::earlier(
            db1.traces()[k].timestamp@,
            db0.traces()[g].timestamp@,
        ) by {
            assert(out.contains(g));
            assert(ids.to_set().contains(g));
            let i = choose|i: int| 0 <= i < ids.len() && ids[i] == g;
            let j = choose|j: int| 0 <= j < t.len() && (#[trigger] t[j]).id == k;
            assert(!out.contains(k));
            if j < n {
                assert(ids[j] == k);
                assert(ids.contains(k));
            }
            assert(!t[j].before(&t[i]));
            retention::lemma_sorted_from_listed(listed, left, i);
            retention::lemma_sorted_from_listed(listed, left, j);
        }
    }
}

/// A pass leaves the accounts of media files alone.
pub proof fn lemma_pass_keeps_media(c: RetentionConfig, db0: MemoryDb, db1: MemoryDb, now: Timestamp)
    requires
        retention::is_pass(c, db0, db1, now),
    ensures
        db1.media() == db0.media(),
{
}

/// Whatever the limits are, a pass leaves only traces, observations and metric
/// points that there were, each as it was; and where traces are kept for a time,
/// it leaves none that is older, and no observation that started before.
pub proof fn lemma_pass_only_removes(
    c: RetentionConfig,
    db0: MemoryDb,
    db1: MemoryDb,
    now: Timestamp,
    k: u128,
)
    requires
        retention::is_pass(c, db0, db1, now),
    ensures
        db1.traces().contains_key(k) ==> db0.traces().contains_key(k) && db1.traces()[k]
            == db0.traces()[k],
        db1.observations().contains_key(k) ==> db0.observations().contains_key(k)
            && db1.observations()[k] == db0.observations()[k],
        c.traces_retention_days > 0 && db1.traces().contains_key(k) ==> !time::earlier(
            db0.traces()[k].timestamp@,
            retention::days_ago(now, c.traces_retention_days)->0,
        ),
        c.traces_retention_days > 0 && db1.observations().contains_key(k) ==> (
        db0.observations()[k].start_time matches Some(t) ==> !time::earlier(
            t@,
            retention::days_ago(now, c.traces_retention_days)->0,
        )),
        c.traces_retention_days == 0 && c.memory_max_traces == 0 ==> db1.traces() == db0.traces()
            && db1.observations() == db0.observations(),
{
    if c.traces_retention_days == 0 {
        assert(retention::traces_left(c, db0.traces(), now) =~= db0.traces());
        assert(retention::observations_left(c, db0.traces(), db0.observations(), now)
            =~= db0.observations());
    }
}

}
