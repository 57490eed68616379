//! The store that keeps everything in memory.

use dashmap::DashMap;
use std::collections::hash_map::RandomState;
use vstd::prelude::*;

use crate::maps::{
    media_get, media_insert, media_list, media_new, observations_created_at,
    observations_drop_trace, observations_insert, observations_list, observations_new,
    observations_remove, traces_contain, traces_created_at, traces_insert, traces_len, traces_list,
    traces_new, traces_remove,
};
use crate::maps;
use crate::rows;
use crate::rows::{MediaRow, MetricRow, ObservationRow, TraceRow};
use crate::text::{join3, same};
use crate::time::Timestamp;

verus! {

/// Traces and observations by their ids, metric points in the order in which
/// they came, and media by project and id.
pub struct MemoryDb {
    traces: DashMap<u128, TraceRow, RandomState>,
    observations: DashMap<u128, ObservationRow, RandomState>,
    metrics: Vec<MetricRow>,
    media: DashMap<String, MediaRow, RandomState>,
}

/// Whether `s` lists the rows of `m`, each once, in whatever order.
pub open spec fn lists_trace_rows(s: Seq<TraceRow>, m: Map<u128, rows::TraceModel>) -> bool {
    &&& forall|i: int, j: int| 0 <= i < j < s.len() ==> (#[trigger] s[i]).id != (#[trigger] s[j]).id
    &&& forall|i: int|
        0 <= i < s.len() ==> m.contains_key((#[trigger] s[i]).id) && m[s[i].id] == s[i]@
    &&& forall|k: u128| #[trigger]
        m.contains_key(k) ==> exists|i: int| 0 <= i < s.len() && (#[trigger] s[i]).id == k
}

/// Whether `s` lists the rows of `m`, each once, in whatever order.
pub open spec fn lists_observation_rows(s: Seq<ObservationRow>, m: Map<u128, rows::ObservationModel>) -> bool {
    &&& forall|i: int, j: int| 0 <= i < j < s.len() ==> (#[trigger] s[i]).id != (#[trigger] s[j]).id
    &&& forall|i: int|
        0 <= i < s.len() ==> m.contains_key((#[trigger] s[i]).id) && m[s[i].id] == s[i]@
    &&& forall|k: u128| #[trigger]
        m.contains_key(k) ==> exists|i: int| 0 <= i < s.len() && (#[trigger] s[i]).id == k
}

/// The rows of a list by their ids; of two with one id the later.
pub open spec fn traces_by_id(s: Seq<TraceRow>) -> Map<u128, rows::TraceModel>
    decreases s.len(),
{
    if s.len() == 0 {
        Map::empty()
    } else {
        traces_by_id(s.drop_last()).insert(s.last().id, s.last()@)
    }
}

proof fn lemma_traces_by_id(s: Seq<TraceRow>)
    ensures
        forall|k: u128| #[trigger]
            traces_by_id(s).contains_key(k) <==> exists|i: int|
                0 <= i < s.len() && (#[trigger] s[i]).id == k,
        forall|k: u128| #[trigger]
            traces_by_id(s).contains_key(k) ==> exists|i: int|
                0 <= i < s.len() && (#[trigger] s[i]).id == k && traces_by_id(s)[k] == s[i]@,
    decreases s.len(),
{
    if s.len() > 0 {
        let head = s.drop_last();
        lemma_traces_by_id(head);
        assert(s[s.len() - 1] == s.last());
        assert forall|k: u128| #[trigger] traces_by_id(s).contains_key(k) implies exists|i: int|
            0 <= i < s.len() && (#[trigger] s[i]).id == k && traces_by_id(s)[k] == s[i]@ by {
            if k != s.last().id {
                assert(traces_by_id(head).contains_key(k));
                let i = choose|i: int|
                    0 <= i < head.len() && (#[trigger] head[i]).id == k && traces_by_id(head)[k]
                        == head[i]@;
                assert(s[i] == head[i]);
            }
        }
        assert forall|k: u128|
            (exists|i: int| 0 <= i < s.len() && (#[trigger] s[i]).id == k) implies #[trigger]
        traces_by_id(s).contains_key(k) by {
            let i = choose|i: int| 0 <= i < s.len() && (#[trigger] s[i]).id == k;
            if i < head.len() {
                assert(head[i] == s[i]);
                assert(traces_by_id(head).contains_key(k));
            }
        }
    }
}

/// What is listed and stored again is what there was: a list of all traces,
/// in whatever order it comes, gives them back.
pub proof fn lemma_traces_survive_reload(s: Seq<TraceRow>, m: Map<u128, rows::TraceModel>)
    requires
        lists_trace_rows(s, m),
    ensures
        traces_by_id(s) == m,
{
    lemma_traces_by_id(s);
    let r = traces_by_id(s);
    assert forall|k: u128| #[trigger] r.contains_key(k) == m.contains_key(k) by {
        if r.contains_key(k) {
            let i = choose|i: int| 0 <= i < s.len() && (#[trigger] s[i]).id == k;
            assert(m.contains_key(s[i].id));
        }
    }
    assert forall|k: u128| #[trigger] r.contains_key(k) implies r[k] == m[k] by {
        let i = choose|i: int|
            0 <= i < s.len() && (#[trigger] s[i]).id == k && traces_by_id(s)[k] == s[i]@;
        assert(m[s[i].id] == s[i]@);
    }
    assert(r =~= m);
}

/// The rows of a list by their ids; of two with one id the later.
pub open spec fn observations_by_id(s: Seq<ObservationRow>) -> Map<u128, rows::ObservationModel>
    decreases s.len(),
{
    if s.len() == 0 {
        Map::empty()
    } else {
        observations_by_id(s.drop_last()).insert(s.last().id, s.last()@)
    }
}

proof fn lemma_observations_by_id(s: Seq<ObservationRow>)
    ensures
        forall|k: u128| #[trigger]
            observations_by_id(s).contains_key(k) <==> exists|i: int|
                0 <= i < s.len() && (#[trigger] s[i]).id == k,
        forall|k: u128| #[trigger]
            observations_by_id(s).contains_key(k) ==> exists|i: int|
                0 <= i < s.len() && (#[trigger] s[i]).id == k && observations_by_id(s)[k] == s[i]@,
    decreases s.len(),
{
    if s.len() > 0 {
        let head = s.drop_last();
        lemma_observations_by_id(head);
        assert(s[s.len() - 1] == s.last());
        assert forall|k: u128| #[trigger] observations_by_id(s).contains_key(k) implies exists|i: int|
            0 <= i < s.len() && (#[trigger] s[i]).id == k && observations_by_id(s)[k] == s[i]@ by {
            if k != s.last().id {
                assert(observations_by_id(head).contains_key(k));
                let i = choose|i: int|
                    0 <= i < head.len() && (#[trigger] head[i]).id == k && observations_by_id(head)[k]
                        == head[i]@;
                assert(s[i] == head[i]);
            }
        }
        assert forall|k: u128|
            (exists|i: int| 0 <= i < s.len() && (#[trigger] s[i]).id == k) implies #[trigger]
        observations_by_id(s).contains_key(k) by {
            let i = choose|i: int| 0 <= i < s.len() && (#[trigger] s[i]).id == k;
            if i < head.len() {
                assert(head[i] == s[i]);
                assert(observations_by_id(head).contains_key(k));
            }
        }
    }
}

/// What is listed and stored again is what there was: a list of all observations,
/// in whatever order it comes, gives them back.
pub proof fn lemma_observations_survive_reload(s: Seq<ObservationRow>, m: Map<u128, rows::ObservationModel>)
    requires
        lists_observation_rows(s, m),
    ensures
        observations_by_id(s) == m,
{
    lemma_observations_by_id(s);
    let r = observations_by_id(s);
    assert forall|k: u128| #[trigger] r.contains_key(k) == m.contains_key(k) by {
        if r.contains_key(k) {
            let i = choose|i: int| 0 <= i < s.len() && (#[trigger] s[i]).id == k;
            assert(m.contains_key(s[i].id));
        }
    }
    assert forall|k: u128| #[trigger] r.contains_key(k) implies r[k] == m[k] by {
        let i = choose|i: int|
            0 <= i < s.len() && (#[trigger] s[i]).id == k && observations_by_id(s)[k] == s[i]@;
        assert(m[s[i].id] == s[i]@);
    }
    assert(r =~= m);
}

/// The key of a media file: its project and its id.
pub open spec fn media_key(project: Seq<char>, id: Seq<char>) -> Seq<char> {
    project + ":"@ + id
}

impl MemoryDb {
    /// Every row is stored under its own id, and there are finitely many.
    pub open spec fn wf(&self) -> bool {
        &&& self.traces().dom().finite()
        &&& self.observations().dom().finite()
        &&& forall|k: u128| #[trigger]
            self.traces().contains_key(k) ==> self.traces()[k].id == k
        &&& forall|k: u128| #[trigger]
            self.observations().contains_key(k) ==> self.observations()[k].id == k
        &&& forall|k: Seq<char>| #[trigger]
            self.media().contains_key(k) ==> k == media_key(
                self.media()[k].project_id,
                self.media()[k].id,
            )
    }

    /// The metric points, in the order in which they came.
    pub closed spec fn metrics(&self) -> Seq<MetricRow> {
        self.metrics@
    }

    /// The media by their keys.
    pub closed spec fn media(&self) -> Map<Seq<char>, rows::MediaModel> {
        maps::media_in(self.media)
    }

    /// Whether all but the traces is as in `other`.
    pub open spec fn same_but_traces(&self, other: MemoryDb) -> bool {
        &&& self.observations() == other.observations()
        &&& self.metrics() == other.metrics()
        &&& self.media() == other.media()
    }

    /// Whether all but the observations is as in `other`.
    pub open spec fn same_but_observations(&self, other: MemoryDb) -> bool {
        &&& self.traces() == other.traces()
        &&& self.metrics() == other.metrics()
        &&& self.media() == other.media()
    }

    /// Whether all but the metric points is as in `other`.
    pub open spec fn same_but_metrics(&self, other: MemoryDb) -> bool {
        &&& self.traces() == other.traces()
        &&& self.observations() == other.observations()
        &&& self.media() == other.media()
    }

    /// A store that holds nothing.
    pub fn new() -> (r: MemoryDb)
        ensures
            r.wf(),
            r.traces() == Map::<u128, rows::TraceModel>::empty(),
            r.observations() == Map::<u128, rows::ObservationModel>::empty(),
            r.metrics() == Seq::<MetricRow>::empty(),
            r.media() == Map::<Seq<char>, rows::MediaModel>::empty(),
    {
        MemoryDb {
            traces: traces_new(),
            observations: observations_new(),
            metrics: Vec::new(),
            media: media_new(),
        }
    }

    /// The store that holds rows read back from where they were saved.
    pub fn restore(
        traces: Vec<TraceRow>,
        observations: Vec<ObservationRow>,
        metrics: Vec<MetricRow>,
    ) -> (r: MemoryDb)
        ensures
            r.wf(),
            r.traces() == traces_by_id(traces@),
            r.observations() == observations_by_id(observations@),
            r.metrics() == metrics@,
            r.media() == Map::<Seq<char>, rows::MediaModel>::empty(),
    {
        let mut db = MemoryDb::new();
        let ghost all_traces = traces@;
        let ghost all_observations = observations@;
        assert(all_traces.take(0) =~= Seq::<TraceRow>::empty());
        for row in it: traces
            invariant
                it.seq() == all_traces,
                db.wf(),
                db.traces() == traces_by_id(all_traces.take(it.index() as int)),
                db.observations() == Map::<u128, rows::ObservationModel>::empty(),
                db.metrics() == Seq::<MetricRow>::empty(),
                db.media() == Map::<Seq<char>, rows::MediaModel>::empty(),
        {
            let ghost i = it.index() as int;
            assert(all_traces.take(i + 1).drop_last() =~= all_traces.take(i));
            db.insert_trace(row);
        }
        assert(all_traces.take(all_traces.len() as int) =~= all_traces);
        assert(all_observations.take(0) =~= Seq::<ObservationRow>::empty());
        for row in it: observations
            invariant
                it.seq() == all_observations,
                db.wf(),
                db.traces() == traces_by_id(all_traces),
                db.observations() == observations_by_id(all_observations.take(it.index() as int)),
                db.metrics() == Seq::<MetricRow>::empty(),
                db.media() == Map::<Seq<char>, rows::MediaModel>::empty(),
        {
            let ghost i = it.index() as int;
            assert(all_observations.take(i + 1).drop_last() =~= all_observations.take(i));
            db.insert_observation(row);
        }
        assert(all_observations.take(all_observations.len() as int) =~= all_observations);
        db.set_metrics(metrics);
        db
    }

    /// The traces by their ids.
    pub closed spec fn traces(&self) -> Map<u128, rows::TraceModel> {
        maps::traces_in(self.traces)
    }

    /// Stores a row under its id, in place of the one that was there.
    pub fn insert_trace(&mut self, row: TraceRow)
        requires
            old(self).wf(),
        ensures
            final(self).wf(),
            final(self).traces() == old(self).traces().insert(row@.id, row@),
            final(self).same_but_traces(*old(self)),
    {
        let id = row.id;
        traces_insert(&mut self.traces, id, row);
    }

    /// When the row under an id was created, if there is one.
    pub fn trace_created_at(&self, id: u128) -> (r: Option<Timestamp>)
        ensures
            match r {
                Some(t) => self.traces().contains_key(id) && self.traces()[id].created_at == t,
                None => !self.traces().contains_key(id),
            },
    {
        traces_created_at(&self.traces, id)
    }

    /// Removes the row under an id.
    pub fn remove_trace(&mut self, id: u128)
        requires
            old(self).wf(),
        ensures
            final(self).wf(),
            final(self).traces() == old(self).traces().remove(id),
            final(self).same_but_traces(*old(self)),
    {
        traces_remove(&mut self.traces, id);
    }

    /// All traces, in whatever order.
    pub fn list_traces(&self) -> (r: Vec<TraceRow>)
        requires
            self.wf(),
        ensures
            lists_trace_rows(r@, self.traces()),
    {
        let pairs = traces_list(&self.traces);
        let ghost all = pairs@;
        let mut out: Vec<TraceRow> = Vec::new();
        for pair in it: pairs
            invariant
                it.seq() == all,
                out@.len() == it.index(),
                forall|j: int| 0 <= j < out@.len() ==> #[trigger] out@[j] == all[j].1,
        {
            out.push(pair.1);
        }
        assert(lists_trace_rows(out@, self.traces())) by {
            let m = self.traces();
            assert forall|i: int| 0 <= i < out@.len() implies m.contains_key((#[trigger] out@[i]).id)
                && m[out@[i].id] == out@[i]@ && out@[i].id == all[i].0 by {
                assert(m.contains_key(all[i].0));
                assert(m[all[i].0] == all[i].1@);
                assert(out@[i]@.id == out@[i].id);
            }
            assert forall|k: u128| #[trigger] m.contains_key(k) implies exists|i: int|
                0 <= i < out@.len() && (#[trigger] out@[i]).id == k by {
                let i = choose|i: int| 0 <= i < all.len() && (#[trigger] all[i]).0 == k;
                assert(out@[i].id == k);
            }
        }
        out
    }

    /// Whether there is a trace under an id.
    pub fn has_trace(&self, id: u128) -> (r: bool)
        ensures
            r == self.traces().contains_key(id),
    {
        traces_contain(&self.traces, id)
    }

    /// How many traces there are.
    pub fn trace_count(&self) -> (r: usize)
        ensures
            r == self.traces().len(),
    {
        traces_len(&self.traces)
    }

    /// The observations by their ids.
    pub closed spec fn observations(&self) -> Map<u128, rows::ObservationModel> {
        maps::observations_in(self.observations)
    }

    /// Stores a row under its id, in place of the one that was there.
    pub fn insert_observation(&mut self, row: ObservationRow)
        requires
            old(self).wf(),
        ensures
            final(self).wf(),
            final(self).observations() == old(self).observations().insert(row@.id, row@),
            final(self).same_but_observations(*old(self)),
    {
        let id = row.id;
        observations_insert(&mut self.observations, id, row);
    }

    /// When the row under an id was created, if there is one.
    pub fn observation_created_at(&self, id: u128) -> (r: Option<Timestamp>)
        ensures
            match r {
                Some(t) => self.observations().contains_key(id) && self.observations()[id].created_at == t,
                None => !self.observations().contains_key(id),
            },
    {
        observations_created_at(&self.observations, id)
    }

    /// Removes the row under an id.
    pub fn remove_observation(&mut self, id: u128)
        requires
            old(self).wf(),
        ensures
            final(self).wf(),
            final(self).observations() == old(self).observations().remove(id),
            final(self).same_but_observations(*old(self)),
    {
        observations_remove(&mut self.observations, id);
    }

    /// All observations, in whatever order.
    pub fn list_observations(&self) -> (r: Vec<ObservationRow>)
        requires
            self.wf(),
        ensures
            lists_observation_rows(r@, self.observations()),
    {
        let pairs = observations_list(&self.observations);
        let ghost all = pairs@;
        let mut out: Vec<ObservationRow> = Vec::new();
        for pair in it: pairs
            invariant
                it.seq() == all,
                out@.len() == it.index(),
                forall|j: int| 0 <= j < out@.len() ==> #[trigger] out@[j] == all[j].1,
        {
            out.push(pair.1);
        }
        assert(lists_observation_rows(out@, self.observations())) by {
            let m = self.observations();
            assert forall|i: int| 0 <= i < out@.len() implies m.contains_key((#[trigger] out@[i]).id)
                && m[out@[i].id] == out@[i]@ && out@[i].id == all[i].0 by {
                assert(m.contains_key(all[i].0));
                assert(m[all[i].0] == all[i].1@);
                assert(out@[i]@.id == out@[i].id);
            }
            assert forall|k: u128| #[trigger] m.contains_key(k) implies exists|i: int|
                0 <= i < out@.len() && (#[trigger] out@[i]).id == k by {
                let i = choose|i: int| 0 <= i < all.len() && (#[trigger] all[i]).0 == k;
                assert(out@[i].id == k);
            }
        }
        out
    }

    /// Removes the observations of a trace.
    pub fn drop_observations_of(&mut self, trace_id: u128)
        requires
            old(self).wf(),
        ensures
            final(self).wf(),
            final(self).observations() == maps::without_trace(
                old(self).observations(),
                trace_id,
            ),
            final(self).same_but_observations(*old(self)),
    {
        observations_drop_trace(&mut self.observations, trace_id);
        proof {
            let before = old(self).observations();
            let after = self.observations();
            assert(after.dom().subset_of(before.dom()));
            vstd::set_lib::lemma_len_subset(after.dom(), before.dom());
        }
    }

    /// The metric points.
    pub fn metric_rows(&self) -> (r: &Vec<MetricRow>)
        ensures
            r@ == self.metrics(),
    {
        &self.metrics
    }

    /// Adds a metric point.
    pub fn push_metric(&mut self, row: MetricRow)
        requires
            old(self).wf(),
        ensures
            final(self).wf(),
            final(self).metrics() == old(self).metrics().push(row),
            final(self).same_but_metrics(*old(self)),
    {
        self.metrics.push(row);
    }

    /// Takes out the metric points, which leaves none.
    pub fn take_metrics(&mut self) -> (r: Vec<MetricRow>)
        requires
            old(self).wf(),
        ensures
            final(self).wf(),
            r@ == old(self).metrics(),
            final(self).metrics() == Seq::<MetricRow>::empty(),
            final(self).same_but_metrics(*old(self)),
    {
        let mut metrics: Vec<MetricRow> = Vec::new();
        std::mem::swap(&mut metrics, &mut self.metrics);
        metrics
    }

    /// Puts metric points in the place of those that there are.
    pub fn set_metrics(&mut self, metrics: Vec<MetricRow>)
        requires
            old(self).wf(),
        ensures
            final(self).wf(),
            final(self).metrics() == metrics@,
            final(self).same_but_metrics(*old(self)),
    {
        self.metrics = metrics;
    }

    /// The media file of a project under an id, if there is one.
    pub fn get_media_row(&self, project_id: &str, media_id: &str) -> (r: Option<MediaRow>)
        ensures
            match r {
                Some(row) => self.media().contains_key(media_key(project_id@, media_id@))
                    && self.media()[media_key(project_id@, media_id@)] == row@,
                None => !self.media().contains_key(media_key(project_id@, media_id@)),
            },
    {
        let key = join3(project_id, ":", media_id);
        media_get(&self.media, key.as_str())
    }

    /// Stores the account of a media file under its project and id, in place of
    /// the one that was there.
    pub fn upsert_media_row(&mut self, row: MediaRow)
        requires
            old(self).wf(),
        ensures
            final(self).wf(),
            final(self).media() == old(self).media().insert(
                media_key(row@.project_id, row@.id),
                row@,
            ),
            final(self).traces() == old(self).traces(),
            final(self).observations() == old(self).observations(),
            final(self).metrics() == old(self).metrics(),
    {
        let key = join3(row.project_id.as_str(), ":", row.id.as_str());
        media_insert(&mut self.media, key, row);
    }

    /// A media file of a project with a hash, if there is one; of several, any.
    pub fn find_media_by_sha256(&self, project_id: &str, sha256_hash: &str) -> (r: Option<MediaRow>)
        ensures
            match r {
                Some(row) => {
                    &&& row@.project_id == project_id@
                    &&& row@.sha256_hash == sha256_hash@
                    &&& exists|k: Seq<char>| #[trigger]
                        self.media().contains_key(k) && self.media()[k] == row@
                },
                None => forall|k: Seq<char>| #[trigger]
                    self.media().contains_key(k) ==> !(self.media()[k].project_id == project_id@
                        && self.media()[k].sha256_hash == sha256_hash@),
            },
    {
        let pairs = media_list(&self.media);
        let ghost all = pairs@;
        for pair in it: pairs
            invariant
                it.seq() == all,
                maps::lists_media(all, self.media()),
                forall|j: int|
                    0 <= j < it.index() ==> !((#[trigger] all[j]).1@.project_id == project_id@
                        && all[j].1@.sha256_hash == sha256_hash@),
        {
            let (key, row) = pair;
            if same(row.project_id.as_str(), project_id) && same(
                row.sha256_hash.as_str(),
                sha256_hash,
            ) {
                assert(all[it.index() as int] == pair);
                assert(self.media().contains_key(pair.0@));
                return Some(row);
            }
        }
        assert forall|k: Seq<char>| #[trigger] self.media().contains_key(k) implies !(
        self.media()[k].project_id == project_id@ && self.media()[k].sha256_hash
            == sha256_hash@) by {
            let i = choose|i: int| 0 <= i < all.len() && (#[trigger] all[i]).0@ == k;
            assert(self.media()[all[i].0@] == all[i].1@);
        }
        None
    }
}

}
