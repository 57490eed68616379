//! What an overview tells of traces and of errors.

use vstd::prelude::*;

use crate::json;
use crate::metrics_overview;
use crate::metrics_query::Window;
use crate::rows;
use crate::rows::Latency;
use crate::time;

verus! {

/// Whether an instant lies between the ends of a window, both included.
pub open spec fn inside(w: Window, t: (int, int)) -> bool {
    time::ticks(w.from@) <= time::ticks(t) <= time::ticks(w.to@)
}

/// Whether the ends of a window are instants of the calendar.
pub open spec fn is_window(w: Window) -> bool {
    time::valid_instant(w.from@.0, w.from@.1) && time::valid_instant(w.to@.0, w.to@.1)
}

/// Whether the instants of traces are in the calendar.
pub open spec fn traces_in_time(s: Seq<rows::TraceModel>) -> bool {
    forall|i: int|
        0 <= i < s.len() ==> time::valid_instant(
            (#[trigger] s[i]).timestamp@.0,
            s[i].timestamp@.1,
        )
}

/// Whether the instants of observations are in the calendar.
pub open spec fn observations_in_time(s: Seq<rows::ObservationModel>) -> bool {
    forall|i: int|
        0 <= i < s.len() ==> time::valid_instant(
            (#[trigger] s[i]).created_at@.0,
            s[i].created_at@.1,
        ) && (s[i].start_time is Some ==> time::valid_instant(
            s[i].start_time->0@.0,
            s[i].start_time->0@.1,
        ))
}

/// The traces of a project inside a window.
pub open spec fn of_project(project: Seq<char>, w: Window) -> spec_fn(rows::TraceModel) -> bool {
    |t: rows::TraceModel| t.project_id == project && inside(w, t.timestamp@)
}

/// The latency of a trace of a project inside a window, where it has one: of those
/// that clients report only those that are neither negative nor infinite nor no
/// number at all.
pub open spec fn latency_told(project: Seq<char>, w: Window) -> spec_fn(rows::TraceModel) -> Option<
    Latency,
> {
    |t: rows::TraceModel|
        if of_project(project, w)(t) && t.latency is Some && (t.latency->0 matches
            Latency::Reported(d) ==> d.bits <= 0x7FEF_FFFF_FFFF_FFFF || d.bits
            == 0x8000_0000_0000_0000) && (t.latency->0 matches Latency::Millis(ms) ==> ms >= 0) {
            t.latency
        } else {
            None
        }
}

/// An overview counts the traces of the project that lie inside the window.
pub proof fn lemma_traces_counted(s: Seq<rows::TraceModel>, project: Seq<char>, w: Window)
    requires
        is_window(w),
        traces_in_time(s),
    ensures
        metrics_overview::count_of(s, project, w) == s.filter(of_project(project, w)).len(),
    decreases s.len(),
{
    reveal(Seq::filter);
    if s.len() > 0 {
        assert forall|i: int| 0 <= i < s.drop_last().len() implies #[trigger] s.drop_last()[i]
            == s[i] by {}
        lemma_traces_counted(s.drop_last(), project, w);
        assert(s[s.len() - 1] == s.last());
        time::lemma_earlier_counts(s.last().timestamp@, w.from@);
        time::lemma_earlier_counts(w.to@, s.last().timestamp@);
    }
}

/// Whether an observation is one with the level "ERROR", of the project, that started
/// inside the window; where it has no start, that was written inside it.
pub open spec fn is_failure(o: rows::ObservationModel, project: Seq<char>, w: Window) -> bool {
    &&& o.level is Some
    &&& o.level->0 == "ERROR"@
    &&& o.project_id == project
    &&& o.start_time is Some ==> inside(w, o.start_time->0@)
    &&& o.start_time is None ==> inside(w, o.created_at@)
}

/// A trace has an error if and only if one of its observations is one: an observation
/// with another level than "ERROR", or none, of another project or outside the window
/// makes none.
pub proof fn lemma_errors_are_failures(
    s: Seq<rows::ObservationModel>,
    project: Seq<char>,
    w: Window,
    id: u128,
)
    requires
        is_window(w),
        observations_in_time(s),
    ensures
        metrics_overview::error_traces(s, project, w).contains(id) <==> exists|i: int|
            0 <= i < s.len() && (#[trigger] s[i]).trace_id == id && is_failure(s[i], project, w),
        metrics_overview::error_list(s, project, w).contains(id) <==> exists|i: int|
            0 <= i < s.len() && (#[trigger] s[i]).trace_id == id && is_failure(s[i], project, w),
        metrics_overview::error_list(s, project, w).no_duplicates(),
        metrics_overview::error_traces(s, project, w).finite(),
        metrics_overview::error_traces(s, project, w).len() == metrics_overview::error_list(
            s,
            project,
            w,
        ).len(),
{
    metrics_overview::lemma_error_list(s, project, w);
    metrics_overview::lemma_error_traces(s, project, w, id);
    let l = metrics_overview::error_list(s, project, w);
    l.unique_seq_to_set();
    assert(l.to_set().contains(id) == l.contains(id));
    assert forall|i: int| 0 <= i < s.len() implies metrics_overview::is_error(
        #[trigger] s[i],
        project,
        w,
    ) == is_failure(s[i], project, w) by {
        let at = metrics_overview::time_of(s[i]);
        time::lemma_earlier_counts(at@, w.from@);
        time::lemma_earlier_counts(w.to@, at@);
    }
    if metrics_overview::error_traces(s, project, w).contains(id) {
        let i = choose|i: int|
            #![trigger s[i]]
            0 <= i < s.len() && metrics_overview::is_error(s[i], project, w) && s[i].trace_id == id;
        assert(is_failure(s[i], project, w));
    }
}

/// An observation that is no error changes nothing: neither how many traces have
/// errors nor which.
pub proof fn lemma_harmless_observation(
    s: Seq<rows::ObservationModel>,
    o: rows::ObservationModel,
    project: Seq<char>,
    w: Window,
)
    requires
        o.level != Some("ERROR"@) || o.project_id != project,
    ensures
        metrics_overview::error_traces(s.push(o), project, w) == metrics_overview::error_traces(
            s,
            project,
            w,
        ),
        metrics_overview::error_list(s.push(o), project, w) == metrics_overview::error_list(
            s,
            project,
            w,
        ),
{
    assert(s.push(o).drop_last() =~= s);
}

/// The traces with errors come in the order of their first errors.
pub proof fn lemma_errors_in_order(
    a: Seq<rows::ObservationModel>,
    b: Seq<rows::ObservationModel>,
    project: Seq<char>,
    w: Window,
)
    ensures
        ({
            let front = metrics_overview::error_list(a, project, w);
            let all = metrics_overview::error_list(a + b, project, w);
            all.len() >= front.len() && all.take(front.len() as int) == front
        }),
    decreases b.len(),
{
    let front = metrics_overview::error_list(a, project, w);
    if b.len() == 0 {
        assert(a + b =~= a);
        assert(front.take(front.len() as int) =~= front);
    } else {
        assert((a + b).drop_last() =~= a + b.drop_last());
        lemma_errors_in_order(a, b.drop_last(), project, w);
        let part = metrics_overview::error_list(a + b.drop_last(), project, w);
        let all = metrics_overview::error_list(a + b, project, w);
        assert(all.take(front.len() as int) =~= part.take(front.len() as int));
    }
}

/// The latencies of an overview are those of the traces of the project inside the
/// window that have one that counts, in their order.
pub proof fn lemma_latencies_told(s: Seq<rows::TraceModel>, project: Seq<char>, w: Window)
    requires
        is_window(w),
        traces_in_time(s),
    ensures
        metrics_overview::latencies_of(s, project, w) == s.filter_map(latency_told(project, w)),
    decreases s.len(),
{
    if s.len() > 0 {
        assert forall|i: int| 0 <= i < s.drop_last().len() implies #[trigger] s.drop_last()[i]
            == s[i] by {}
        lemma_latencies_told(s.drop_last(), project, w);
        assert(s[s.len() - 1] == s.last());
        time::lemma_earlier_counts(s.last().timestamp@, w.from@);
        time::lemma_earlier_counts(w.to@, s.last().timestamp@);
        let f = latency_told(project, w);
        let head = s.drop_last().filter_map(f);
        match f(s.last()) {
            Some(l) => {
                assert(head + seq![l] =~= head.push(l));
            },
            None => {},
        }
    }
}

/// The digits of an id are as many as are asked for, the last of them its lowest, and
/// the others those of what is left of it without that.
pub proof fn lemma_id_digits(id: nat, d: nat, n: nat)
    requires
        d < 16,
    ensures
        metrics_overview::hex_digits(id, n).len() == n,
        metrics_overview::hex_digits(16 * id + d, n + 1) == metrics_overview::hex_digits(id, n)
            + seq![json::hex_digit(d)],
    decreases n,
{
    if n > 0 {
        lemma_id_digits(id / 16, 0, (n - 1) as nat);
    }
    let m = 16 * id + d;
    assert(m / 16 == id && m % 16 == d);
    let h = metrics_overview::hex_digits(id, n);
    assert(h.push(json::hex_digit(d)) == h + seq![json::hex_digit(d)]);
}

/// The text of an id is its 32 hexadecimal digits with hyphens behind the eighth, the
/// twelfth, the sixteenth and the twentieth.
pub proof fn lemma_id_text(id: u128)
    ensures
        metrics_overview::id_text(id).len() == 36,
        metrics_overview::id_text(id)[8] == '-',
        metrics_overview::id_text(id)[13] == '-',
        metrics_overview::id_text(id)[18] == '-',
        metrics_overview::id_text(id)[23] == '-',
        ({
            let t = metrics_overview::id_text(id);
            t.subrange(0, 8) + t.subrange(9, 13) + t.subrange(14, 18) + t.subrange(19, 23)
                + t.subrange(24, 36) == metrics_overview::hex_digits(id as nat, 32)
        }),
{
    lemma_id_digits(id as nat, 0, 32);
    let h = metrics_overview::hex_digits(id as nat, 32);
    let t = metrics_overview::id_text(id);
    assert(t.subrange(0, 8) == h.subrange(0, 8));
    assert(t.subrange(9, 13) == h.subrange(8, 12));
    assert(t.subrange(14, 18) == h.subrange(12, 16));
    assert(t.subrange(19, 23) == h.subrange(16, 20));
    assert(t.subrange(24, 36) == h.subrange(20, 32));
}

}
