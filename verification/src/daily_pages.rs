//! What the pages of a daily report make up together.

use vstd::prelude::*;

use crate::memory_db;
use crate::metrics_daily;
use crate::metrics_daily::{DailyAnswer, DailyFilter, DailyItem, DayGroup, Page};
use crate::metrics_query::Window;
use crate::order;
use crate::order::Ranked;
use crate::rows;
use crate::rows::{ObservationRow, TraceRow};
use crate::text;

verus! {

/// The first `n` pages of a list, one behind the other.
pub open spec fn joined<T>(s: Seq<T>, limit: nat, n: nat) -> Seq<T>
    decreases n,
{
    if n == 0 {
        Seq::empty()
    } else {
        joined(s, limit, (n - 1) as nat) + metrics_daily::part_of(
            s,
            (n - 1) * limit,
            limit as int,
        )
    }
}

/// The first pages of a list hold the front of it.
proof fn lemma_joined_is_front<T>(s: Seq<T>, limit: nat, n: nat)
    ensures
        joined(s, limit, n) == (if n * limit < s.len() {
            s.take((n * limit) as int)
        } else {
            s
        }),
    decreases n,
{
    if n == 0 {
        assert(0 * limit == 0);
        if s.len() > 0 {
            assert(s.take(0) =~= Seq::empty());
        } else {
            assert(s =~= Seq::empty());
        }
    } else {
        let m = (n - 1) as nat;
        lemma_joined_is_front(s, limit, m);
        assert(n * limit == m * limit + limit) by (nonlinear_arith)
            requires
                n == m + 1,
        ;
        if n * limit < s.len() {
            assert(joined(s, limit, n) =~= s.take((n * limit) as int));
        } else {
            assert(joined(s, limit, n) =~= s);
        }
    }
}

/// The pages of a list, one behind the other, are the list: no item is missing
/// and none stands on two pages.
pub proof fn lemma_pages_joined<T>(s: Seq<T>, limit: nat)
    requires
        limit > 0,
    ensures
        joined(s, limit, metrics_daily::pages_for(s.len(), limit)) == s,
{
    let n = metrics_daily::pages_for(s.len(), limit);
    lemma_joined_is_front(s, limit, n);
    if s.len() > 0 {
        let t = s.len() as int;
        let l = limit as int;
        assert(((t + l - 1) / l) * l >= t) by (nonlinear_arith)
            requires
                l > 0,
                t > 0,
        ;
    }
}

/// Whether two items tell of the same day, under the same date, and count as many
/// traces on it.
pub open spec fn alike(a: DailyItem, b: DailyItem) -> bool {
    &&& a.date@ == b.date@
    &&& a.group.day == b.group.day
    &&& a.group.count_traces == b.group.count_traces
}

/// Whether the items of two lists are alike, one by one.
pub open spec fn all_alike(a: Seq<DailyItem>, b: Seq<DailyItem>) -> bool {
    &&& a.len() == b.len()
    &&& forall|i: int| 0 <= i < a.len() ==> alike(#[trigger] a[i], b[i])
}

proof fn lemma_inserted_alike(a: Seq<DailyItem>, x: DailyItem, b: Seq<DailyItem>, y: DailyItem)
    requires
        all_alike(a, b),
        alike(x, y),
    ensures
        all_alike(order::inserted(a, x), order::inserted(b, y)),
    decreases a.len(),
{
    if a.len() > 0 {
        assert(alike(a[a.len() - 1], b[b.len() - 1]));
        if x.before(&a.last()) {
            assert forall|i: int| 0 <= i < a.drop_last().len() implies alike(
                #[trigger] a.drop_last()[i],
                b.drop_last()[i],
            ) by {
                assert(alike(a[i], b[i]));
            }
            lemma_inserted_alike(a.drop_last(), x, b.drop_last(), y);
        }
    }
}

/// Lists whose items are alike are alike when they are sorted.
proof fn lemma_sorted_alike(a: Seq<DailyItem>, b: Seq<DailyItem>)
    requires
        all_alike(a, b),
    ensures
        all_alike(order::sorted(a), order::sorted(b)),
    decreases a.len(),
{
    if a.len() > 0 {
        assert forall|i: int| 0 <= i < a.drop_last().len() implies alike(
            #[trigger] a.drop_last()[i],
            b.drop_last()[i],
        ) by {
            assert(alike(a[i], b[i]));
        }
        lemma_sorted_alike(a.drop_last(), b.drop_last());
        assert(alike(a[a.len() - 1], b[b.len() - 1]));
        lemma_inserted_alike(
            order::sorted(a.drop_last()),
            a.last(),
            order::sorted(b.drop_last()),
            b.last(),
        );
    }
}

/// How many traces the items of a list count.
pub open spec fn traces_in(s: Seq<DailyItem>) -> nat
    decreases s.len(),
{
    if s.len() == 0 {
        0
    } else {
        traces_in(s.drop_last()) + s.last().group.count_traces as nat
    }
}

proof fn lemma_traces_in_alike(a: Seq<DailyItem>, b: Seq<DailyItem>)
    requires
        all_alike(a, b),
    ensures
        traces_in(a) == traces_in(b),
    decreases a.len(),
{
    if a.len() > 0 {
        assert(alike(a[a.len() - 1], b[b.len() - 1]));
        assert forall|i: int| 0 <= i < a.drop_last().len() implies alike(
            #[trigger] a.drop_last()[i],
            b.drop_last()[i],
        ) by {
            assert(alike(a[i], b[i]));
        }
        lemma_traces_in_alike(a.drop_last(), b.drop_last());
    }
}

proof fn lemma_traces_in_inserted(s: Seq<DailyItem>, x: DailyItem)
    ensures
        traces_in(order::inserted(s, x)) == traces_in(s) + x.group.count_traces,
    decreases s.len(),
{
    if s.len() > 0 && x.before(&s.last()) {
        let head = order::inserted(s.drop_last(), x);
        lemma_traces_in_inserted(s.drop_last(), x);
        assert(head.push(s.last()).drop_last() =~= head);
    } else {
        assert(s.push(x).drop_last() =~= s);
    }
}

/// Sorting does not change how many traces are counted.
proof fn lemma_traces_in_sorted(s: Seq<DailyItem>)
    ensures
        traces_in(order::sorted(s)) == traces_in(s),
    decreases s.len(),
{
    if s.len() > 0 {
        lemma_traces_in_sorted(s.drop_last());
        lemma_traces_in_inserted(order::sorted(s.drop_last()), s.last());
    }
}

/// The items count what their groups count.
proof fn lemma_traces_in_dated(items: Seq<DailyItem>, groups: Seq<DayGroup>)
    requires
        metrics_daily::are_dated(items, groups),
    ensures
        traces_in(items) == metrics_daily::traces_counted(groups),
    decreases items.len(),
{
    if items.len() > 0 {
        let head = items.drop_last();
        let days = groups.drop_last();
        assert forall|i: int| 0 <= i < head.len() implies (#[trigger] head[i]).group == days[i]
            && head[i].date@ == crate::time::date_name(
            days[i].day * crate::time::SECONDS_PER_DAY,
        ) by {
            assert(items[i].group == groups[i]);
        }
        lemma_traces_in_dated(head, days);
        assert(items[items.len() - 1].group == groups[groups.len() - 1]);
    }
}

/// Whether items stand in strictly descending order of their dates.
pub open spec fn dates_descend(s: Seq<DailyItem>) -> bool {
    forall|i: int, j: int|
        0 <= i < j < s.len() ==> text::text_lt((#[trigger] s[j]).date@, (#[trigger] s[i]).date@)
}

proof fn lemma_inserted_differ(s: Seq<DailyItem>, x: DailyItem)
    requires
        metrics_daily::dates_differ(s),
        forall|i: int| 0 <= i < s.len() ==> (#[trigger] s[i]).date@ != x.date@,
    ensures
        metrics_daily::dates_differ(order::inserted(s, x)),
        forall|i: int|
            0 <= i < order::inserted(s, x).len() ==> (#[trigger] order::inserted(s, x)[i]).date@
                == x.date@ || exists|j: int|
                0 <= j < s.len() && (#[trigger] s[j]).date@ == order::inserted(s, x)[i].date@,
{
    let k = order::lemma_inserted_place(s, x);
    let r = s.insert(k, x);
    assert forall|i: int, j: int| 0 <= i < j < r.len() implies (#[trigger] r[i]).date@ != (
    #[trigger] r[j]).date@ by {
        if i != k && j != k {
            let a = if i < k {
                i
            } else {
                i - 1
            };
            let b = if j < k {
                j
            } else {
                j - 1
            };
            assert(r[i] == s[a] && r[j] == s[b]);
        } else if i == k {
            assert(r[j] == s[j - 1]);
        } else {
            assert(r[i] == s[i]);
        }
    }
    assert forall|i: int| 0 <= i < r.len() implies (#[trigger] r[i]).date@ == x.date@ || exists|
        j: int,
    | 0 <= j < s.len() && (#[trigger] s[j]).date@ == r[i].date@ by {
        if i < k {
            assert(s[i].date@ == r[i].date@);
        } else if i > k {
            assert(s[i - 1].date@ == r[i].date@);
        }
    }
}

/// Sorting neither makes dates equal nor brings new ones.
proof fn lemma_sorted_differ(s: Seq<DailyItem>)
    requires
        metrics_daily::dates_differ(s),
    ensures
        metrics_daily::dates_differ(order::sorted(s)),
        forall|i: int|
            0 <= i < order::sorted(s).len() ==> exists|j: int|
                0 <= j < s.len() && (#[trigger] s[j]).date@ == (
                #[trigger] order::sorted(s)[i]).date@,
    decreases s.len(),
{
    if s.len() > 0 {
        let head = s.drop_last();
        let r = order::sorted(head);
        assert forall|i: int, j: int| 0 <= i < j < head.len() implies (#[trigger] head[i]).date@
            != (#[trigger] head[j]).date@ by {
            assert(head[i] == s[i] && head[j] == s[j]);
        }
        lemma_sorted_differ(head);
        assert(s[s.len() - 1] == s.last());
        assert forall|i: int| 0 <= i < r.len() implies (#[trigger] r[i]).date@ != s.last().date@ by {
            let j = choose|j: int| 0 <= j < head.len() && (#[trigger] head[j]).date@ == r[i].date@;
            assert(head[j] == s[j]);
            assert(s[j].date@ != s[s.len() - 1].date@);
        }
        lemma_inserted_differ(r, s.last());
        let whole = order::sorted(s);
        assert forall|i: int| 0 <= i < whole.len() implies exists|j: int|
            0 <= j < s.len() && (#[trigger] s[j]).date@ == (#[trigger] whole[i]).date@ by {
            if whole[i].date@ == s.last().date@ {
                assert(s[s.len() - 1].date@ == whole[i].date@);
            } else {
                let j = choose|j: int|
                    0 <= j < r.len() && (#[trigger] r[j]).date@ == whole[i].date@;
                let k = choose|k: int|
                    0 <= k < head.len() && (#[trigger] head[k]).date@ == r[j].date@;
                assert(s[k].date@ == whole[i].date@);
            }
        }
    }
}

/// Items with different dates stand in strictly descending order of them when they
/// are sorted.
proof fn lemma_sorted_descends(s: Seq<DailyItem>)
    requires
        metrics_daily::dates_differ(s),
    ensures
        dates_descend(order::sorted(s)),
{
    let r = order::sorted(s);
    order::lemma_sorted_in_order(s);
    lemma_sorted_differ(s);
    assert forall|i: int, j: int| 0 <= i < j < r.len() implies text::text_lt(
        (#[trigger] r[j]).date@,
        (#[trigger] r[i]).date@,
    ) by {
        assert(!r[j].before(&r[i]));
        assert(r[i].date@ != r[j].date@);
        text::lemma_text_lt_total(r[i].date@, r[j].date@);
    }
}

/// The ids of the traces of a store that are counted.
pub open spec fn counted_ids(
    f: DailyFilter,
    project: Seq<char>,
    w: Window,
    traces: Map<u128, rows::TraceModel>,
) -> Set<u128> {
    Set::new(
        |id: u128|
            traces.contains_key(id) && metrics_daily::counted(f, project, w, traces[id]),
    )
}

/// The ids of the traces of a store that are counted and of a day.
spec fn ids_on(
    f: DailyFilter,
    project: Seq<char>,
    w: Window,
    traces: Map<u128, rows::TraceModel>,
    day: int,
) -> Set<u128> {
    Set::new(
        |id: u128|
            traces.contains_key(id) && metrics_daily::counted(f, project, w, traces[id])
                && metrics_daily::day_of_trace(traces[id]) == day,
    )
}

/// The ids of the rows that are counted.
spec fn row_ids(f: DailyFilter, project: Seq<char>, w: Window, s: Seq<TraceRow>) -> Set<u128>
    decreases s.len(),
{
    if s.len() == 0 {
        Set::empty()
    } else {
        let head = row_ids(f, project, w, s.drop_last());
        if metrics_daily::counted(f, project, w, s.last()@) {
            head.insert(s.last().id)
        } else {
            head
        }
    }
}

/// The ids of the rows that are counted and of a day.
spec fn row_ids_on(
    f: DailyFilter,
    project: Seq<char>,
    w: Window,
    s: Seq<TraceRow>,
    day: int,
) -> Set<u128>
    decreases s.len(),
{
    if s.len() == 0 {
        Set::empty()
    } else {
        let head = row_ids_on(f, project, w, s.drop_last(), day);
        if metrics_daily::counted(f, project, w, s.last()@) && metrics_daily::day_of_trace(
            s.last()@,
        ) == day {
            head.insert(s.last().id)
        } else {
            head
        }
    }
}

/// Rows with different ids are as many as their ids.
proof fn lemma_rows_and_ids(
    f: DailyFilter,
    project: Seq<char>,
    w: Window,
    s: Seq<TraceRow>,
    day: int,
)
    requires
        forall|i: int, j: int|
            0 <= i < j < s.len() ==> (#[trigger] s[i]).id != (#[trigger] s[j]).id,
    ensures
        ({
            let t = metrics_daily::counted_traces(f, project, w, rows::trace_models(s));
            let ids = row_ids(f, project, w, s);
            let on = row_ids_on(f, project, w, s, day);
            &&& ids.finite()
            &&& ids.len() == t.len()
            &&& on.finite()
            &&& on.len() == metrics_daily::traces_on(t, day).len()
            &&& forall|id: u128| #[trigger]
                ids.contains(id) <==> exists|i: int|
                    0 <= i < s.len() && (#[trigger] s[i]).id == id && metrics_daily::counted(
                        f,
                        project,
                        w,
                        s[i]@,
                    )
            &&& forall|id: u128| #[trigger]
                on.contains(id) <==> exists|i: int|
                    0 <= i < s.len() && (#[trigger] s[i]).id == id && metrics_daily::counted(
                        f,
                        project,
                        w,
                        s[i]@,
                    ) && metrics_daily::day_of_trace(s[i]@) == day
        }),
    decreases s.len(),
{
    if s.len() > 0 {
        let head = s.drop_last();
        let last = s.last();
        assert(s[s.len() - 1] == last);
        assert forall|i: int| 0 <= i < head.len() implies #[trigger] head[i] == s[i] && head[i].id
            != last.id by {
            assert(s[i].id != s[s.len() - 1].id);
        }
        lemma_rows_and_ids(f, project, w, head, day);
        assert(rows::trace_models(s).drop_last() =~= rows::trace_models(head));
        assert(rows::trace_models(s).last() == last@);
        let t0 = metrics_daily::counted_traces(f, project, w, rows::trace_models(head));
        let ids0 = row_ids(f, project, w, head);
        let on0 = row_ids_on(f, project, w, head, day);
        assert(!ids0.contains(last.id));
        assert(!on0.contains(last.id));
        if metrics_daily::counted(f, project, w, last@) {
            assert(t0.push(last@).drop_last() =~= t0);
        }
        let ids = row_ids(f, project, w, s);
        assert forall|id: u128| #[trigger] ids.contains(id) <==> exists|i: int|
            0 <= i < s.len() && (#[trigger] s[i]).id == id && metrics_daily::counted(
                f,
                project,
                w,
                s[i]@,
            ) by {
            if ids0.contains(id) {
                let i = choose|i: int|
                    0 <= i < head.len() && (#[trigger] head[i]).id == id && metrics_daily::counted(
                        f,
                        project,
                        w,
                        head[i]@,
                    );
                assert(s[i] == head[i]);
            }
            if exists|i: int|
                0 <= i < s.len() && (#[trigger] s[i]).id == id && metrics_daily::counted(
                    f,
                    project,
                    w,
                    s[i]@,
                ) {
                let i = choose|i: int|
                    0 <= i < s.len() && (#[trigger] s[i]).id == id && metrics_daily::counted(
                        f,
                        project,
                        w,
                        s[i]@,
                    );
                if i < head.len() {
                    assert(head[i] == s[i]);
                }
            }
        }
        let on = row_ids_on(f, project, w, s, day);
        assert forall|id: u128| #[trigger] on.contains(id) <==> exists|i: int|
            0 <= i < s.len() && (#[trigger] s[i]).id == id && metrics_daily::counted(
                f,
                project,
                w,
                s[i]@,
            ) && metrics_daily::day_of_trace(s[i]@) == day by {
            if on0.contains(id) {
                let i = choose|i: int|
                    0 <= i < head.len() && (#[trigger] head[i]).id == id && metrics_daily::counted(
                        f,
                        project,
                        w,
                        head[i]@,
                    ) && metrics_daily::day_of_trace(head[i]@) == day;
                assert(s[i] == head[i]);
            }
            if exists|i: int|
                0 <= i < s.len() && (#[trigger] s[i]).id == id && metrics_daily::counted(
                    f,
                    project,
                    w,
                    s[i]@,
                ) && metrics_daily::day_of_trace(s[i]@) == day {
                let i = choose|i: int|
                    0 <= i < s.len() && (#[trigger] s[i]).id == id && metrics_daily::counted(
                        f,
                        project,
                        w,
                        s[i]@,
                    ) && metrics_daily::day_of_trace(s[i]@) == day;
                if i < head.len() {
                    assert(head[i] == s[i]);
                }
            }
        }
    }
}

/// How many traces are counted, and how many of a day, does not depend on the
/// order in which a store hands them out.
proof fn lemma_counts_from_store(
    f: DailyFilter,
    project: Seq<char>,
    w: Window,
    s: Seq<TraceRow>,
    traces: Map<u128, rows::TraceModel>,
    day: int,
)
    requires
        memory_db::lists_trace_rows(s, traces),
    ensures
        ({
            let t = metrics_daily::counted_traces(f, project, w, rows::trace_models(s));
            &&& t.len() == counted_ids(f, project, w, traces).len()
            &&& ids_on(f, project, w, traces, day).finite()
            &&& metrics_daily::traces_on(t, day).len() == ids_on(f, project, w, traces, day).len()
        }),
{
    lemma_rows_and_ids(f, project, w, s, day);
    let ids = row_ids(f, project, w, s);
    let on = row_ids_on(f, project, w, s, day);
    assert forall|id: u128| ids.contains(id) == counted_ids(f, project, w, traces).contains(id) by {
        if traces.contains_key(id) {
            let i = choose|i: int| 0 <= i < s.len() && (#[trigger] s[i]).id == id;
            assert(traces[s[i].id] == s[i]@);
        }
        if ids.contains(id) {
            let i = choose|i: int|
                0 <= i < s.len() && (#[trigger] s[i]).id == id && metrics_daily::counted(
                    f,
                    project,
                    w,
                    s[i]@,
                );
            assert(traces.contains_key(s[i].id));
        }
    }
    assert(ids =~= counted_ids(f, project, w, traces));
    assert forall|id: u128| on.contains(id) == ids_on(f, project, w, traces, day).contains(id) by {
        if traces.contains_key(id) {
            let i = choose|i: int| 0 <= i < s.len() && (#[trigger] s[i]).id == id;
            assert(traces[s[i].id] == s[i]@);
        }
        if on.contains(id) {
            let i = choose|i: int|
                0 <= i < s.len() && (#[trigger] s[i]).id == id && metrics_daily::counted(
                    f,
                    project,
                    w,
                    s[i]@,
                ) && metrics_daily::day_of_trace(s[i]@) == day;
            assert(traces.contains_key(s[i].id));
        }
    }
    assert(on =~= ids_on(f, project, w, traces, day));
}

/// A day with traces is the day of one of them.
proof fn lemma_day_has_trace(s: Seq<rows::TraceModel>, day: int)
    requires
        metrics_daily::traces_on(s, day).len() > 0,
    ensures
        exists|i: int| 0 <= i < s.len() && metrics_daily::day_of_trace(#[trigger] s[i]) == day,
    decreases s.len(),
{
    if s.len() > 0 {
        if metrics_daily::day_of_trace(s.last()) == day {
            assert(metrics_daily::day_of_trace(s[s.len() - 1]) == day);
        } else {
            lemma_day_has_trace(s.drop_last(), day);
            let i = choose|i: int|
                0 <= i < s.drop_last().len() && metrics_daily::day_of_trace(
                    #[trigger] s.drop_last()[i],
                ) == day;
            assert(s[i] == s.drop_last()[i]);
        }
    }
}

/// Whether one of the groups is that of a day.
spec fn has_group(s: Seq<DayGroup>, day: int) -> bool {
    exists|i: int| 0 <= i < s.len() && (#[trigger] s[i]).day == day
}

/// Two lists of the same days, each in the order of time, are the same days one by
/// one.
proof fn lemma_same_days(a: Seq<DayGroup>, b: Seq<DayGroup>)
    requires
        forall|i: int, j: int| 0 <= i < j < a.len() ==> (#[trigger] a[i]).day < (#[trigger] a[j]).day,
        forall|i: int, j: int| 0 <= i < j < b.len() ==> (#[trigger] b[i]).day < (#[trigger] b[j]).day,
        forall|d: int| has_group(a, d) == has_group(b, d),
    ensures
        a.len() == b.len(),
        forall|i: int| 0 <= i < a.len() ==> (#[trigger] a[i]).day == b[i].day,
    decreases a.len(),
{
    if a.len() == 0 {
        if b.len() > 0 {
            assert(has_group(b, b[0].day as int));
            assert(has_group(a, b[0].day as int));
        }
    } else {
        let x = a[a.len() - 1].day as int;
        assert(has_group(a, x));
        assert(has_group(b, x));
        let y = b[b.len() - 1].day as int;
        assert(has_group(b, y));
        assert(has_group(a, y));
        let i = choose|i: int| 0 <= i < b.len() && (#[trigger] b[i]).day == x;
        let j = choose|j: int| 0 <= j < a.len() && (#[trigger] a[j]).day == y;
        assert(x == y) by {
            if i < b.len() - 1 {
                assert(b[i].day < b[b.len() - 1].day);
            }
            if j < a.len() - 1 {
                assert(a[j].day < a[a.len() - 1].day);
            }
        }
        let ah = a.drop_last();
        let bh = b.drop_last();
        assert forall|d: int| has_group(ah, d) == has_group(bh, d) by {
            lemma_days_before(a, d);
            lemma_days_before(b, d);
        }
        assert forall|i: int, j: int| 0 <= i < j < ah.len() implies (#[trigger] ah[i]).day < (
        #[trigger] ah[j]).day by {
            assert(ah[i] == a[i] && ah[j] == a[j]);
        }
        assert forall|i: int, j: int| 0 <= i < j < bh.len() implies (#[trigger] bh[i]).day < (
        #[trigger] bh[j]).day by {
            assert(bh[i] == b[i] && bh[j] == b[j]);
        }
        lemma_same_days(ah, bh);
        assert forall|i: int| 0 <= i < a.len() implies (#[trigger] a[i]).day == b[i].day by {
            if i < ah.len() {
                assert(ah[i].day == bh[i].day);
            }
        }
    }
}

/// The days but the last are those that are not the last.
proof fn lemma_days_before(a: Seq<DayGroup>, d: int)
    requires
        a.len() > 0,
        forall|i: int, j: int| 0 <= i < j < a.len() ==> (#[trigger] a[i]).day < (#[trigger] a[j]).day,
    ensures
        has_group(a.drop_last(), d) == (has_group(a, d) && d != a[a.len() - 1].day),
{
    let h = a.drop_last();
    if has_group(h, d) {
        let i = choose|i: int| 0 <= i < h.len() && (#[trigger] h[i]).day == d;
        assert(a[i].day == d);
        assert(a[i].day < a[a.len() - 1].day);
    }
    if has_group(a, d) && d != a[a.len() - 1].day {
        let i = choose|i: int| 0 <= i < a.len() && (#[trigger] a[i]).day == d;
        assert(h[i].day == d);
    }
}

/// The days of a list are the days of the traces that are counted.
proof fn lemma_groups_of_store(
    f: DailyFilter,
    project: Seq<char>,
    w: Window,
    traces: Map<u128, rows::TraceModel>,
    s: Seq<TraceRow>,
    observations: Seq<rows::ObservationModel>,
    groups: Seq<DayGroup>,
    day: int,
)
    requires
        memory_db::lists_trace_rows(s, traces),
        metrics_daily::lists_days(
            groups,
            metrics_daily::counted_traces(f, project, w, rows::trace_models(s)),
            observations,
        ),
    ensures
        has_group(groups, day) == (ids_on(f, project, w, traces, day).len() > 0),
        forall|i: int|
            0 <= i < groups.len() && (#[trigger] groups[i]).day == day ==> groups[i].count_traces
                == ids_on(f, project, w, traces, day).len(),
{
    let t = metrics_daily::counted_traces(f, project, w, rows::trace_models(s));
    lemma_counts_from_store(f, project, w, s, traces, day);
    if has_group(groups, day) {
        let i = choose|i: int| 0 <= i < groups.len() && (#[trigger] groups[i]).day == day;
        assert(metrics_daily::is_day(groups[i], t, observations));
    }
    if metrics_daily::traces_on(t, day).len() > 0 {
        lemma_day_has_trace(t, day);
        let i = choose|i: int|
            0 <= i < t.len() && metrics_daily::day_of_trace(#[trigger] t[i]) == day;
        let k = choose|k: int|
            0 <= k < groups.len() && (#[trigger] groups[k]).day == metrics_daily::day_of_trace(t[i]);
        assert(groups[k].day == day);
    }
    assert forall|i: int| 0 <= i < groups.len() && (#[trigger] groups[i]).day == day implies
        groups[i].count_traces == ids_on(f, project, w, traces, day).len() by {
        assert(metrics_daily::is_day(groups[i], t, observations));
    }
}

/// Whatever the order in which a store hands out its rows, the days are the same,
/// with the same dates and counts.
proof fn lemma_days_alike(
    f: DailyFilter,
    project: Seq<char>,
    w: Window,
    traces: Map<u128, rows::TraceModel>,
    s: Seq<TraceRow>,
    os: Seq<rows::ObservationModel>,
    groups: Seq<DayGroup>,
    items: Seq<DailyItem>,
    s2: Seq<TraceRow>,
    os2: Seq<rows::ObservationModel>,
    groups2: Seq<DayGroup>,
    items2: Seq<DailyItem>,
)
    requires
        memory_db::lists_trace_rows(s, traces),
        memory_db::lists_trace_rows(s2, traces),
        metrics_daily::lists_days(
            groups,
            metrics_daily::counted_traces(f, project, w, rows::trace_models(s)),
            os,
        ),
        metrics_daily::lists_days(
            groups2,
            metrics_daily::counted_traces(f, project, w, rows::trace_models(s2)),
            os2,
        ),
        metrics_daily::are_dated(items, groups),
        metrics_daily::are_dated(items2, groups2),
    ensures
        all_alike(items, items2),
{
    assert forall|d: int| has_group(groups, d) == has_group(groups2, d) by {
        lemma_groups_of_store(f, project, w, traces, s, os, groups, d);
        lemma_groups_of_store(f, project, w, traces, s2, os2, groups2, d);
    }
    lemma_same_days(groups, groups2);
    assert forall|i: int| 0 <= i < items.len() implies alike(#[trigger] items[i], items2[i]) by {
        let d = groups[i].day as int;
        lemma_groups_of_store(f, project, w, traces, s, os, groups, d);
        lemma_groups_of_store(f, project, w, traces, s2, os2, groups2, d);
        assert(groups2[i].day == d);
        assert(items2[i].group == groups2[i]);
    }
}

/// The items of answers, one answer behind the other.
pub open spec fn items_joined(answers: Seq<DailyAnswer>) -> Seq<DailyItem>
    decreases answers.len(),
{
    if answers.len() == 0 {
        Seq::empty()
    } else {
        items_joined(answers.drop_last()) + answers.last().items@
    }
}

/// Whether these are the first pages, of so many items each, one after the other.
pub open spec fn are_pages(pages: Seq<Page>, limit: nat) -> bool {
    forall|i: int|
        0 <= i < pages.len() ==> (#[trigger] pages[i]).limit == limit && pages[i].offset == i
            * limit
}

/// A page is alike that of any list of the days.
proof fn lemma_page_alike(
    f: DailyFilter,
    project: Seq<char>,
    w: Window,
    traces: Map<u128, rows::TraceModel>,
    observations: Map<u128, rows::ObservationModel>,
    page: Page,
    a: DailyAnswer,
    s: Seq<TraceRow>,
    os: Seq<rows::ObservationModel>,
    groups: Seq<DayGroup>,
    items: Seq<DailyItem>,
)
    requires
        page.offset >= 0,
        page.limit > 0,
        metrics_daily::answers_from(a, f, project, w, page, traces, observations),
        memory_db::lists_trace_rows(s, traces),
        metrics_daily::lists_days(
            groups,
            metrics_daily::counted_traces(f, project, w, rows::trace_models(s)),
            os,
        ),
        metrics_daily::are_dated(items, groups),
    ensures
        all_alike(
            a.items@,
            metrics_daily::part_of(order::sorted(items), page.offset as int, page.limit as int),
        ),
        a.total_items == items.len(),
        a.total_pages == metrics_daily::pages_for(items.len(), page.limit as nat),
{
    let (s2, o2) = choose|ts: Seq<TraceRow>, os: Seq<ObservationRow>|
        #![trigger memory_db::lists_trace_rows(ts, traces), memory_db::lists_observation_rows(os, observations)]
        {
            &&& memory_db::lists_trace_rows(ts, traces)
            &&& memory_db::lists_observation_rows(os, observations)
            &&& metrics_daily::is_daily_answer(
                a,
                metrics_daily::counted_traces(f, project, w, rows::trace_models(ts)),
                rows::observation_models(os),
                page,
            )
        };
    let t2 = metrics_daily::counted_traces(f, project, w, rows::trace_models(s2));
    let os2 = rows::observation_models(o2);
    let (groups2, items2) = choose|groups: Seq<DayGroup>, items: Seq<DailyItem>|
        #![trigger metrics_daily::are_dated(items, groups)]
        {
            &&& metrics_daily::lists_days(groups, t2, os2)
            &&& metrics_daily::are_dated(items, groups)
            &&& metrics_daily::dates_differ(items)
            &&& a.items@ == metrics_daily::part_of(
                order::sorted(items),
                page.offset as int,
                page.limit as int,
            )
            &&& a.total_items == groups.len()
            &&& a.total_pages == metrics_daily::pages_for(groups.len(), page.limit as nat)
        };
    lemma_days_alike(f, project, w, traces, s2, os2, groups2, items2, s, os, groups, items);
    lemma_sorted_alike(items2, items);
    let x = order::sorted(items2);
    let y = order::sorted(items);
    let px = metrics_daily::part_of(x, page.offset as int, page.limit as int);
    let py = metrics_daily::part_of(y, page.offset as int, page.limit as int);
    assert forall|i: int| 0 <= i < px.len() implies alike(#[trigger] px[i], py[i]) by {
        assert(alike(x[page.offset + i], y[page.offset + i]));
    }
}

/// Pages one behind the other are alike those of any list of the days.
proof fn lemma_pages_alike(
    f: DailyFilter,
    project: Seq<char>,
    w: Window,
    traces: Map<u128, rows::TraceModel>,
    observations: Map<u128, rows::ObservationModel>,
    limit: nat,
    pages: Seq<Page>,
    answers: Seq<DailyAnswer>,
    s: Seq<TraceRow>,
    os: Seq<rows::ObservationModel>,
    groups: Seq<DayGroup>,
    items: Seq<DailyItem>,
)
    requires
        limit > 0,
        are_pages(pages, limit),
        pages.len() == answers.len(),
        forall|i: int|
            0 <= i < answers.len() ==> metrics_daily::answers_from(
                #[trigger] answers[i],
                f,
                project,
                w,
                pages[i],
                traces,
                observations,
            ),
        memory_db::lists_trace_rows(s, traces),
        metrics_daily::lists_days(
            groups,
            metrics_daily::counted_traces(f, project, w, rows::trace_models(s)),
            os,
        ),
        metrics_daily::are_dated(items, groups),
    ensures
        all_alike(items_joined(answers), joined(order::sorted(items), limit, answers.len())),
    decreases answers.len(),
{
    if answers.len() > 0 {
        let n = (answers.len() - 1) as nat;
        let head = answers.drop_last();
        let front = pages.drop_last();
        assert forall|i: int| 0 <= i < head.len() implies metrics_daily::answers_from(
            #[trigger] head[i],
            f,
            project,
            w,
            front[i],
            traces,
            observations,
        ) by {
            assert(head[i] == answers[i]);
        }
        assert forall|i: int| 0 <= i < front.len() implies (#[trigger] front[i]).limit == limit
            && front[i].offset == i * limit by {
            assert(front[i] == pages[i]);
        }
        lemma_pages_alike(
            f,
            project,
            w,
            traces,
            observations,
            limit,
            front,
            head,
            s,
            os,
            groups,
            items,
        );
        assert(answers[n as int] == answers.last());
        assert(pages[n as int].offset == n * limit);
        assert(n * limit >= 0) by (nonlinear_arith);
        lemma_page_alike(
            f,
            project,
            w,
            traces,
            observations,
            pages[n as int],
            answers.last(),
            s,
            os,
            groups,
            items,
        );
        let a = items_joined(head);
        let b = answers.last().items@;
        let c = joined(order::sorted(items), limit, n);
        let d = metrics_daily::part_of(order::sorted(items), (n * limit) as int, limit as int);
        assert forall|i: int| 0 <= i < (a + b).len() implies alike(
            #[trigger] (a + b)[i],
            (c + d)[i],
        ) by {
            if i < a.len() {
                assert(alike(a[i], c[i]));
            } else {
                assert(alike(b[i - a.len()], d[i - a.len()]));
            }
        }
    }
}

/// The pages of a daily report make up all of its days. Asked one after the other
/// until there are as many as the first one says, they agree on how many days
/// there are; put together they hold that many days, none twice and the latest
/// date first, the day of every trace that is counted among them; and the counts
/// of the days add up to the number of the traces that are counted.
pub proof fn lemma_pages_make_up_all_days(
    f: DailyFilter,
    project: Seq<char>,
    w: Window,
    traces: Map<u128, rows::TraceModel>,
    observations: Map<u128, rows::ObservationModel>,
    limit: nat,
    pages: Seq<Page>,
    answers: Seq<DailyAnswer>,
)
    requires
        limit > 0,
        are_pages(pages, limit),
        pages.len() == answers.len(),
        forall|i: int|
            0 <= i < answers.len() ==> metrics_daily::answers_from(
                #[trigger] answers[i],
                f,
                project,
                w,
                pages[i],
                traces,
                observations,
            ),
        answers.len() > 0,
        answers.len() >= answers[0].total_pages,
    ensures
        forall|i: int|
            0 <= i < answers.len() ==> (#[trigger] answers[i]).total_items
                == answers[0].total_items && answers[i].total_pages == answers[0].total_pages,
        items_joined(answers).len() == answers[0].total_items,
        dates_descend(items_joined(answers)),
        traces_in(items_joined(answers)) == counted_ids(f, project, w, traces).len(),
        forall|id: u128| #[trigger]
            counted_ids(f, project, w, traces).contains(id) ==> exists|i: int|
                0 <= i < items_joined(answers).len() && (
                #[trigger] items_joined(answers)[i]).group.day == metrics_daily::day_of_trace(
                    traces[id],
                ),
{
    let first = answers[0];
    assert(metrics_daily::answers_from(first, f, project, w, pages[0], traces, observations));
    let (s, o) = choose|ts: Seq<TraceRow>, os: Seq<ObservationRow>|
        #![trigger memory_db::lists_trace_rows(ts, traces), memory_db::lists_observation_rows(os, observations)]
        {
            &&& memory_db::lists_trace_rows(ts, traces)
            &&& memory_db::lists_observation_rows(os, observations)
            &&& metrics_daily::is_daily_answer(
                first,
                metrics_daily::counted_traces(f, project, w, rows::trace_models(ts)),
                rows::observation_models(os),
                pages[0],
            )
        };
    let t = metrics_daily::counted_traces(f, project, w, rows::trace_models(s));
    let os = rows::observation_models(o);
    let (groups, items) = choose|groups: Seq<DayGroup>, items: Seq<DailyItem>|
        #![trigger metrics_daily::are_dated(items, groups)]
        {
            &&& metrics_daily::lists_days(groups, t, os)
            &&& metrics_daily::are_dated(items, groups)
            &&& metrics_daily::dates_differ(items)
            &&& first.items@ == metrics_daily::part_of(
                order::sorted(items),
                pages[0].offset as int,
                pages[0].limit as int,
            )
            &&& first.total_items == groups.len()
            &&& first.total_pages == metrics_daily::pages_for(groups.len(), pages[0].limit as nat)
        };
    let whole = order::sorted(items);
    order::lemma_sorted_same_items(items);
    assert forall|i: int| 0 <= i < answers.len() implies (#[trigger] answers[i]).total_items
        == first.total_items && answers[i].total_pages == first.total_pages by {
        assert(i * limit >= 0) by (nonlinear_arith)
            requires
                i >= 0,
        ;
        assert(pages[i].limit == limit && pages[i].offset == i * limit);
        lemma_page_alike(
            f,
            project,
            w,
            traces,
            observations,
            pages[i],
            answers[i],
            s,
            os,
            groups,
            items,
        );
    }
    let n = answers.len();
    lemma_joined_is_front(whole, limit, n);
    assert(n * limit >= whole.len()) by {
        if whole.len() > 0 {
            let size = whole.len() as int;
            let l = limit as int;
            let k = n as int;
            assert(pages[0].limit == limit);
            assert(k * l >= size) by (nonlinear_arith)
                requires
                    l > 0,
                    size > 0,
                    k >= (size + l - 1) / l,
            ;
        }
    }
    lemma_pages_alike(
        f,
        project,
        w,
        traces,
        observations,
        limit,
        pages,
        answers,
        s,
        os,
        groups,
        items,
    );
    let all = items_joined(answers);
    assert(all_alike(all, whole));
    lemma_sorted_descends(items);
    assert forall|i: int, j: int| 0 <= i < j < all.len() implies text::text_lt(
        (#[trigger] all[j]).date@,
        (#[trigger] all[i]).date@,
    ) by {
        assert(alike(all[i], whole[i]) && alike(all[j], whole[j]));
    }
    lemma_traces_in_alike(all, whole);
    lemma_traces_in_sorted(items);
    lemma_traces_in_dated(items, groups);
    metrics_daily::lemma_days_count_every_trace(groups, t, os);
    lemma_counts_from_store(f, project, w, s, traces, 0);
    assert forall|id: u128| #[trigger]
        counted_ids(f, project, w, traces).contains(id) implies exists|i: int|
        0 <= i < all.len() && (#[trigger] all[i]).group.day == metrics_daily::day_of_trace(
            traces[id],
        ) by {
        let d = metrics_daily::day_of_trace(traces[id]);
        lemma_counts_from_store(f, project, w, s, traces, d);
        assert(ids_on(f, project, w, traces, d).contains(id));
        lemma_groups_of_store(f, project, w, traces, s, os, groups, d);
        let k = choose|k: int| 0 <= k < groups.len() && (#[trigger] groups[k]).day == d;
        assert(items[k].group == groups[k]);
        assert(whole.contains(items[k])) by {
            broadcast use vstd::seq_lib::group_to_multiset_ensures;

            assert(items.contains(items[k]));
            assert(items.to_multiset().count(items[k]) > 0);
        }
        let i = choose|i: int| 0 <= i < whole.len() && whole[i] == items[k];
        assert(alike(all[i], whole[i]));
    }
}

}
