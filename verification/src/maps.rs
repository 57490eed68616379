//! The concurrent maps that hold the rows and counts of a running server.
//!
//! The maps are reached through these functions alone, and changed only through
//! a mutable reference, so that what a map holds is a function of the map.

use dashmap::DashMap;
use std::collections::hash_map::RandomState;
use vstd::prelude::*;

use crate::rows;
use crate::rows::{MediaRow, ObservationRow, TraceRow};
use crate::stats::TokenCount;
use crate::time::Timestamp;

verus! {

/// The concurrent map of dashmap.
#[verifier::external_type_specification]
#[verifier::external_body]
#[verifier::reject_recursive_types(K)]
#[verifier::reject_recursive_types(V)]
#[verifier::reject_recursive_types(S)]
pub struct ExDashMap<K, V, S>(DashMap<K, V, S>);

/// What a map of counts holds for each key.
pub uninterp spec fn counts_in(m: DashMap<String, u64, RandomState>) -> Map<Seq<char>, u64>;

/// `DashMap::new` of dashmap: a map that holds nothing.
#[verifier::external_body]
pub(crate) fn counts_new() -> (m: DashMap<String, u64, RandomState>)
    ensures
        counts_in(m) == (Map::<Seq<char>, u64>::empty()),
{
    DashMap::new()
}

/// One more than `c`, wrapping around.
fn bump(c: &mut u64)
    ensures
        *final(c) == old(c).wrapping_add(1),
{
    *c = c.wrapping_add(1);
}

/// `DashMap::entry` of dashmap, with `and_modify` and `or_insert`: the count of
/// a key that the map holds goes up by one; another key gets the count `first`.
#[verifier::external_body]
pub(crate) fn counts_bump(m: &mut DashMap<String, u64, RandomState>, key: &str, first: u64)
    ensures
        counts_in(*final(m)) == counts_in(*old(m)).insert(
            key@,
            if counts_in(*old(m)).contains_key(key@) {
                counts_in(*old(m))[key@].wrapping_add(1)
            } else {
                first
            },
        ),
{
    m.entry(key.to_owned()).and_modify(bump).or_insert(first);
}

/// Whether `s` lists what `m` holds, each key once, in whatever order.
pub open spec fn lists_counts(s: Seq<TokenCount>, m: Map<Seq<char>, u64>) -> bool {
    &&& forall|i: int, j: int|
        0 <= i < j < s.len() ==> (#[trigger] s[i]).token@ != (#[trigger] s[j]).token@
    &&& forall|i: int|
        0 <= i < s.len() ==> m.contains_key((#[trigger] s[i]).token@) && m[s[i].token@]
            == s[i].count
    &&& forall|k: Seq<char>| #[trigger]
        m.contains_key(k) ==> exists|i: int| 0 <= i < s.len() && (#[trigger] s[i]).token@ == k
}

/// `DashMap::iter` of dashmap: every key that the map holds, once, with its
/// count. The order in which they come is not stated; it differs between runs.
#[verifier::external_body]
pub(crate) fn counts_list(m: &DashMap<String, u64, RandomState>) -> (r: Vec<TokenCount>)
    ensures
        lists_counts(r@, counts_in(*m)),
{
    m.iter().map(|e| TokenCount { token: e.key().clone(), count: *e.value() }).collect()
}

/// What a map of traces holds for each key.
pub uninterp spec fn traces_in(m: DashMap<u128, TraceRow, RandomState>) -> Map<u128, rows::TraceModel>;

/// `DashMap::new` of dashmap: a map that holds nothing.
#[verifier::external_body]
pub(crate) fn traces_new() -> (m: DashMap<u128, TraceRow, RandomState>)
    ensures
        traces_in(m) == (Map::<u128, rows::TraceModel>::empty()),
{
    DashMap::new()
}

/// `DashMap::insert` of dashmap: the key holds the row, in place of what it held.
#[verifier::external_body]
pub(crate) fn traces_insert(m: &mut DashMap<u128, TraceRow, RandomState>, key: u128, row: TraceRow)
    ensures
        traces_in(*final(m)) == traces_in(*old(m)).insert(key, row@),
{
    m.insert(key, row);
}

/// `DashMap::get` of dashmap, of which the instant of creation is read: that of
/// the row that the key holds, if it holds one.
#[verifier::external_body]
pub(crate) fn traces_created_at(m: &DashMap<u128, TraceRow, RandomState>, key: u128) -> (r: Option<
    Timestamp,
>)
    ensures
        match r {
            Some(t) => traces_in(*m).contains_key(key) && traces_in(*m)[key].created_at == t,
            None => !traces_in(*m).contains_key(key),
        },
{
    m.get(&key).map(|e| e.value().created_at)
}

/// `DashMap::remove` of dashmap: the key holds nothing any more.
#[verifier::external_body]
pub(crate) fn traces_remove(m: &mut DashMap<u128, TraceRow, RandomState>, key: u128)
    ensures
        traces_in(*final(m)) == traces_in(*old(m)).remove(key),
{
    m.remove(&key);
}

/// Whether `s` lists what `m` holds, each key once, in whatever order.
pub open spec fn lists_traces(s: Seq<(u128, TraceRow)>, m: Map<u128, rows::TraceModel>) -> bool {
    &&& forall|i: int, j: int| 0 <= i < j < s.len() ==> (#[trigger] s[i]).0 != (#[trigger] s[j]).0
    &&& forall|i: int|
        0 <= i < s.len() ==> m.contains_key((#[trigger] s[i]).0) && m[s[i].0] == s[i].1@
    &&& forall|k: u128| #[trigger]
        m.contains_key(k) ==> exists|i: int| 0 <= i < s.len() && (#[trigger] s[i]).0 == k
}

/// `DashMap::iter` of dashmap: every key that the map holds, once, with a copy
/// of its row. The order in which they come is not stated; it differs between
/// runs.
#[verifier::external_body]
pub(crate) fn traces_list(m: &DashMap<u128, TraceRow, RandomState>) -> (r: Vec<(u128, TraceRow)>)
    ensures
        lists_traces(r@, traces_in(*m)),
{
    m.iter().map(|e| (*e.key(), e.value().copy())).collect()
}

/// `DashMap::contains_key` of dashmap: whether the key holds a row.
#[verifier::external_body]
pub(crate) fn traces_contain(m: &DashMap<u128, TraceRow, RandomState>, key: u128) -> (r: bool)
    ensures
        r == traces_in(*m).contains_key(key),
{
    m.contains_key(&key)
}

/// `DashMap::len` of dashmap: how many keys the map holds.
#[verifier::external_body]
pub(crate) fn traces_len(m: &DashMap<u128, TraceRow, RandomState>) -> (r: usize)
    ensures
        r == traces_in(*m).len(),
{
    m.len()
}

/// What a map of observations holds for each key.
pub uninterp spec fn observations_in(m: DashMap<u128, ObservationRow, RandomState>) -> Map<u128, rows::ObservationModel>;

/// `DashMap::new` of dashmap: a map that holds nothing.
#[verifier::external_body]
pub(crate) fn observations_new() -> (m: DashMap<u128, ObservationRow, RandomState>)
    ensures
        observations_in(m) == (Map::<u128, rows::ObservationModel>::empty()),
{
    DashMap::new()
}

/// `DashMap::insert` of dashmap: the key holds the row, in place of what it held.
#[verifier::external_body]
pub(crate) fn observations_insert(m: &mut DashMap<u128, ObservationRow, RandomState>, key: u128, row: ObservationRow)
    ensures
        observations_in(*final(m)) == observations_in(*old(m)).insert(key, row@),
{
    m.insert(key, row);
}

/// `DashMap::get` of dashmap, of which the instant of creation is read: that of
/// the row that the key holds, if it holds one.
#[verifier::external_body]
pub(crate) fn observations_created_at(m: &DashMap<u128, ObservationRow, RandomState>, key: u128) -> (r: Option<
    Timestamp,
>)
    ensures
        match r {
            Some(t) => observations_in(*m).contains_key(key) && observations_in(*m)[key].created_at == t,
            None => !observations_in(*m).contains_key(key),
        },
{
    m.get(&key).map(|e| e.value().created_at)
}

/// `DashMap::remove` of dashmap: the key holds nothing any more.
#[verifier::external_body]
pub(crate) fn observations_remove(m: &mut DashMap<u128, ObservationRow, RandomState>, key: u128)
    ensures
        observations_in(*final(m)) == observations_in(*old(m)).remove(key),
{
    m.remove(&key);
}

/// Whether `s` lists what `m` holds, each key once, in whatever order.
pub open spec fn lists_observations(s: Seq<(u128, ObservationRow)>, m: Map<u128, rows::ObservationModel>) -> bool {
    &&& forall|i: int, j: int| 0 <= i < j < s.len() ==> (#[trigger] s[i]).0 != (#[trigger] s[j]).0
    &&& forall|i: int|
        0 <= i < s.len() ==> m.contains_key((#[trigger] s[i]).0) && m[s[i].0] == s[i].1@
    &&& forall|k: u128| #[trigger]
        m.contains_key(k) ==> exists|i: int| 0 <= i < s.len() && (#[trigger] s[i]).0 == k
}

/// `DashMap::iter` of dashmap: every key that the map holds, once, with a copy
/// of its row. The order in which they come is not stated; it differs between
/// runs.
#[verifier::external_body]
pub(crate) fn observations_list(m: &DashMap<u128, ObservationRow, RandomState>) -> (r: Vec<(u128, ObservationRow)>)
    ensures
        lists_observations(r@, observations_in(*m)),
{
    m.iter().map(|e| (*e.key(), e.value().copy())).collect()
}

/// `m` without the observations of the trace `trace_id`.
pub open spec fn without_trace(
    m: Map<u128, rows::ObservationModel>,
    trace_id: u128,
) -> Map<u128, rows::ObservationModel> {
    m.restrict(Set::new(|k: u128| m.contains_key(k) && m[k].trace_id != trace_id))
}

/// Whether an observation belongs to another trace than `trace_id`.
fn of_another_trace(row: &ObservationRow, trace_id: u128) -> (r: bool)
    ensures
        r == (row@.trace_id != trace_id),
{
    row.trace_id != trace_id
}

/// `DashMap::retain` of dashmap: the keys stay whose rows belong to another
/// trace than `trace_id`, with those rows; the others hold nothing any more.
#[verifier::external_body]
pub(crate) fn observations_drop_trace(
    m: &mut DashMap<u128, ObservationRow, RandomState>,
    trace_id: u128,
)
    ensures
        observations_in(*final(m)) == without_trace(observations_in(*old(m)), trace_id),
{
    m.retain(|_, row| of_another_trace(row, trace_id));
}

/// What a map of media holds for each key.
pub uninterp spec fn media_in(m: DashMap<String, MediaRow, RandomState>) -> Map<
    Seq<char>,
    rows::MediaModel,
>;

/// `DashMap::new` of dashmap: a map that holds nothing.
#[verifier::external_body]
pub(crate) fn media_new() -> (m: DashMap<String, MediaRow, RandomState>)
    ensures
        media_in(m) == (Map::<Seq<char>, rows::MediaModel>::empty()),
{
    DashMap::new()
}

/// `DashMap::insert` of dashmap: the key holds the row, in place of what it held.
#[verifier::external_body]
pub(crate) fn media_insert(m: &mut DashMap<String, MediaRow, RandomState>, key: String, row: MediaRow)
    ensures
        media_in(*final(m)) == media_in(*old(m)).insert(key@, row@),
{
    m.insert(key, row);
}

/// `DashMap::get` of dashmap: a copy of the row that the key holds, if it holds
/// one.
#[verifier::external_body]
pub(crate) fn media_get(m: &DashMap<String, MediaRow, RandomState>, key: &str) -> (r: Option<
    MediaRow,
>)
    ensures
        match r {
            Some(row) => media_in(*m).contains_key(key@) && media_in(*m)[key@] == row@,
            None => !media_in(*m).contains_key(key@),
        },
{
    m.get(key).map(|e| e.value().copy())
}

/// Whether `s` lists what `m` holds, each key once, in whatever order.
pub open spec fn lists_media(s: Seq<(String, MediaRow)>, m: Map<Seq<char>, rows::MediaModel>) -> bool {
    &&& forall|i: int, j: int|
        0 <= i < j < s.len() ==> (#[trigger] s[i]).0@ != (#[trigger] s[j]).0@
    &&& forall|i: int|
        0 <= i < s.len() ==> m.contains_key((#[trigger] s[i]).0@) && m[s[i].0@] == s[i].1@
    &&& forall|k: Seq<char>| #[trigger]
        m.contains_key(k) ==> exists|i: int| 0 <= i < s.len() && (#[trigger] s[i]).0@ == k
}

/// `DashMap::iter` of dashmap: every key that the map holds, once, with a copy
/// of its row. The order in which they come is not stated; it differs between
/// runs.
#[verifier::external_body]
pub(crate) fn media_list(m: &DashMap<String, MediaRow, RandomState>) -> (r: Vec<(String, MediaRow)>)
    ensures
        lists_media(r@, media_in(*m)),
{
    m.iter().map(|e| (e.key().clone(), e.value().copy())).collect()
}

}
