//! Collapsing a stream of transitions into timesheet rows.
use vstd::prelude::*;

use crate::entry::{ActivityEntry, ActivityStart, EntryView, StartView};
use crate::timestamp::Timestamp;

verus! {

/// The most events that `group_activities` sums: the durations of this many
/// intervals, each shorter than the span of two `Timestamp`s, fit in an `i128`.
pub const MAX_EVENTS: usize = 0xFFFF_FFFF;

/// Time spent with the same billing code, description and attendance type on
/// one local calendar day. `duration` is in nanoseconds; `start_of_first` is
/// the start of the first interval that went into the row.
#[derive(Clone, Debug)]
pub struct CollapsedActivity {
    pub attendance_type: String,
    pub description: String,
    pub duration: i128,
    pub start_of_first: Timestamp,
    pub wbs: String,
}

pub struct RowView {
    pub attendance_type: Seq<char>,
    pub description: Seq<char>,
    pub duration: int,
    pub start_of_first: Timestamp,
    pub wbs: Seq<char>,
}

impl View for CollapsedActivity {
    type V = RowView;

    open spec fn view(&self) -> RowView {
        RowView {
            attendance_type: self.attendance_type@,
            description: self.description@,
            duration: self.duration as int,
            start_of_first: self.start_of_first,
            wbs: self.wbs@,
        }
    }
}

/// What rows are grouped by: the time of day is left out.
pub struct GroupKey {
    pub wbs: Seq<char>,
    pub attendance_type: Seq<char>,
    pub description: Seq<char>,
    pub day: int,
}

pub open spec fn key_of_start(p: StartView) -> GroupKey {
    GroupKey {
        wbs: p.wbs,
        attendance_type: p.attendance_type,
        description: p.description,
        day: p.start.day(),
    }
}

pub open spec fn key_of_row(r: RowView) -> GroupKey {
    GroupKey {
        wbs: r.wbs,
        attendance_type: r.attendance_type,
        description: r.description,
        day: r.start_of_first.day(),
    }
}

/// How many events at the front of `evs` come before `bound`.
pub open spec fn leading_before(evs: Seq<EntryView>, bound: Timestamp) -> nat
    decreases evs.len(),
{
    if evs.len() > 0 && evs[0].time_stamp().instant() < bound.instant() {
        1 + leading_before(evs.drop_first(), bound)
    } else {
        0
    }
}

/// The events that are visited: those before `from` are skipped, and the scan
/// stops at the first event at or after `to`.
pub open spec fn window(evs: Seq<EntryView>, from: Timestamp, to: Timestamp) -> Seq<EntryView> {
    let rest = evs.skip(leading_before(evs, from) as int);
    rest.take(leading_before(rest, to) as int)
}

/// The intervals between consecutive events whose first event is a start,
/// each as that start and the time until the next event. A start with no
/// next event opens no interval.
pub open spec fn intervals(w: Seq<EntryView>) -> Seq<(StartView, int)>
    decreases w.len(),
{
    if w.len() < 2 {
        Seq::empty()
    } else {
        let pre = intervals(w.drop_last());
        match w[w.len() - 2] {
            EntryView::Start(p) => pre.push(
                (p, w.last().time_stamp().instant() - p.start.instant()),
            ),
            EntryView::End(_) => pre,
        }
    }
}

/// The first row with key `k`, or -1.
pub open spec fn row_index(rows: Seq<RowView>, k: GroupKey) -> int
    decreases rows.len(),
{
    if rows.len() == 0 {
        -1
    } else {
        let i = row_index(rows.drop_last(), k);
        if i >= 0 {
            i
        } else if key_of_row(rows.last()) == k {
            rows.len() - 1
        } else {
            -1
        }
    }
}

/// Adds an interval to the row of its key, or opens a row for it.
pub open spec fn add_interval(rows: Seq<RowView>, p: StartView, d: int) -> Seq<RowView> {
    let i = row_index(rows, key_of_start(p));
    if i >= 0 {
        rows.update(i, RowView { duration: rows[i].duration + d, ..rows[i] })
    } else {
        rows.push(
            RowView {
                attendance_type: p.attendance_type,
                description: p.description,
                duration: d,
                start_of_first: p.start,
                wbs: p.wbs,
            },
        )
    }
}

/// The rows of a sequence of intervals, in the order in which they were opened.
pub open spec fn accumulate(ivs: Seq<(StartView, int)>) -> Seq<RowView>
    decreases ivs.len(),
{
    if ivs.len() == 0 {
        Seq::empty()
    } else {
        let (p, d) = ivs.last();
        add_interval(accumulate(ivs.drop_last()), p, d)
    }
}

/// Inserts `r` after every row that started no later than it.
pub open spec fn insert_row(sorted: Seq<RowView>, r: RowView) -> Seq<RowView>
    decreases sorted.len(),
{
    if sorted.len() == 0 {
        seq![r]
    } else if sorted.last().start_of_first.instant() <= r.start_of_first.instant() {
        sorted.push(r)
    } else {
        insert_row(sorted.drop_last(), r).push(sorted.last())
    }
}

/// The rows ordered by the start of their first interval; rows that started
/// at the same instant keep their order.
pub open spec fn sort_rows(rows: Seq<RowView>) -> Seq<RowView>
    decreases rows.len(),
{
    if rows.len() == 0 {
        Seq::empty()
    } else {
        insert_row(sort_rows(rows.drop_last()), rows.last())
    }
}

/// The timesheet rows of the events between `from` and `to`.
pub open spec fn collapse(evs: Seq<EntryView>, from: Timestamp, to: Timestamp) -> Seq<RowView> {
    sort_rows(accumulate(intervals(window(evs, from, to))))
}

pub open spec fn rows_view(v: Seq<CollapsedActivity>) -> Seq<RowView> {
    v.map_values(|r: CollapsedActivity| r@)
}

pub open spec fn entries_view(v: Seq<ActivityEntry>) -> Seq<EntryView> {
    v.map_values(|e: ActivityEntry| e@)
}

proof fn lemma_leading_before(evs: Seq<EntryView>, bound: Timestamp, k: int)
    requires
        0 <= k <= evs.len(),
        forall|i: int| 0 <= i < k ==> #[trigger] evs[i].time_stamp().instant() < bound.instant(),
        k == evs.len() || evs[k].time_stamp().instant() >= bound.instant(),
    ensures
        leading_before(evs, bound) == k,
    decreases k,
{
    if k > 0 {
        let rest = evs.drop_first();
        assert forall|i: int| 0 <= i < k - 1 implies #[trigger] rest[i].time_stamp().instant()
            < bound.instant() by {
            assert(rest[i] == evs[i + 1]);
        }
        lemma_leading_before(rest, bound, k - 1);
    }
}

proof fn lemma_row_index_prefix(rows: Seq<RowView>, k: GroupKey, m: int)
    requires
        0 <= m <= rows.len(),
        row_index(rows.take(m), k) >= 0,
    ensures
        row_index(rows, k) == row_index(rows.take(m), k),
    decreases rows.len(),
{
    if m < rows.len() {
        assert(rows.drop_last().take(m) =~= rows.take(m));
        lemma_row_index_prefix(rows.drop_last(), k, m);
    } else {
        assert(rows.take(m) =~= rows);
    }
}

proof fn lemma_row_index_bounds(rows: Seq<RowView>, k: GroupKey)
    ensures
        -1 <= row_index(rows, k) < rows.len(),
        row_index(rows, k) >= 0 ==> key_of_row(rows[row_index(rows, k)]) == k,
    decreases rows.len(),
{
    if rows.len() > 0 {
        lemma_row_index_bounds(rows.drop_last(), k);
    }
}

/// Inserting at the place that `insert_row` finds.
proof fn lemma_insert_row(sorted: Seq<RowView>, r: RowView, j: int)
    requires
        0 <= j <= sorted.len(),
        forall|i: int|
            j <= i < sorted.len() ==> #[trigger] sorted[i].start_of_first.instant()
                > r.start_of_first.instant(),
        j == 0 || sorted[j - 1].start_of_first.instant() <= r.start_of_first.instant(),
    ensures
        insert_row(sorted, r) == sorted.insert(j, r),
    decreases sorted.len(),
{
    if sorted.len() == 0 {
        assert(sorted.insert(j, r) =~= seq![r]);
    } else if j == sorted.len() {
        assert(sorted.insert(j, r) =~= sorted.push(r));
    } else {
        let s2 = sorted.drop_last();
        assert(sorted.last().start_of_first.instant() > r.start_of_first.instant());
        assert forall|i: int| j <= i < s2.len() implies #[trigger] s2[i].start_of_first.instant()
            > r.start_of_first.instant() by {
            assert(s2[i] == sorted[i]);
        }
        lemma_insert_row(s2, r, j);
        assert(s2.insert(j, r).push(sorted.last()) =~= sorted.insert(j, r));
    }
}

impl CollapsedActivity {
    fn copy_row(&self) -> (r: CollapsedActivity)
        ensures
            r@ == self@,
    {
        CollapsedActivity {
            attendance_type: self.attendance_type.clone(),
            description: self.description.clone(),
            duration: self.duration,
            start_of_first: self.start_of_first,
            wbs: self.wbs.clone(),
        }
    }
}

/// The row of `p`'s key, if there is one.
fn find_row(rows: &Vec<CollapsedActivity>, p: &ActivityStart) -> (r: Option<usize>)
    ensures
        match r {
            Some(j) => j as int == row_index(rows_view(rows@), key_of_start(p@)),
            None => row_index(rows_view(rows@), key_of_start(p@)) == -1,
        },
{
    let ghost v = rows_view(rows@);
    let ghost k = key_of_start(p@);
    let day = p.start.local_day();
    let mut j: usize = 0;
    proof {
        assert(v.take(0) =~= Seq::<RowView>::empty());
    }
    while j < rows.len()
        invariant
            v == rows_view(rows@),
            k == key_of_start(p@),
            day == p@.start.day(),
            j <= rows@.len(),
            row_index(v.take(j as int), k) == -1,
        decreases rows@.len() - j,
    {
        let row = &rows[j];
        let same = row.wbs == p.wbs && row.attendance_type == p.attendance_type && row.description
            == p.description && row.start_of_first.local_day() == day;
        proof {
            assert(v.take(j as int + 1).drop_last() =~= v.take(j as int));
            assert(v[j as int] == row@);
            assert(same == (key_of_row(row@) == k));
        }
        if same {
            proof {
                lemma_row_index_prefix(v, k, j as int + 1);
            }
            return Some(j);
        }
        j = j + 1;
    }
    proof {
        assert(v.take(j as int) =~= v);
    }
    None
}

/// Adds the interval that `p` opened, `d` nanoseconds long, to the rows.
fn add_to_rows(rows: &mut Vec<CollapsedActivity>, p: &ActivityStart, d: i128)
    requires
        forall|i: int|
            0 <= i < old(rows)@.len() ==> i128::MIN <= #[trigger] old(rows)@[i].duration + d
                <= i128::MAX,
    ensures
        rows_view(final(rows)@) == add_interval(rows_view(old(rows)@), p@, d as int),
{
    let ghost v = rows_view(rows@);
    proof {
        lemma_row_index_bounds(v, key_of_start(p@));
    }
    match find_row(rows, p) {
        Some(j) => {
            let total = rows[j].duration + d;
            rows[j].duration = total;
            proof {
                assert(rows_view(rows@) =~= add_interval(v, p@, d as int));
            }
        },
        None => {
            rows.push(
                CollapsedActivity {
                    attendance_type: p.attendance_type.clone(),
                    description: p.description.clone(),
                    duration: d,
                    start_of_first: p.start,
                    wbs: p.wbs.clone(),
                },
            );
            proof {
                assert(rows_view(rows@) =~= add_interval(v, p@, d as int));
            }
        },
    }
}

/// Orders the rows by the start of their first interval, keeping the order of
/// rows that started at the same instant.
fn sort_by_first_start(rows: &Vec<CollapsedActivity>) -> (r: Vec<CollapsedActivity>)
    ensures
        rows_view(r@) == sort_rows(rows_view(rows@)),
{
    let ghost v = rows_view(rows@);
    let mut sorted: Vec<CollapsedActivity> = Vec::new();
    let mut i: usize = 0;
    proof {
        assert(v.take(0) =~= Seq::<RowView>::empty());
    }
    while i < rows.len()
        invariant
            v == rows_view(rows@),
            i <= rows@.len(),
            rows_view(sorted@) == sort_rows(v.take(i as int)),
        decreases rows@.len() - i,
    {
        let row = rows[i].copy_row();
        let key = row.start_of_first.instant_nanos();
        let ghost sv = rows_view(sorted@);
        let mut j: usize = sorted.len();
        while j > 0 && sorted[j - 1].start_of_first.instant_nanos() > key
            invariant
                sv == rows_view(sorted@),
                j <= sorted@.len(),
                key == row@.start_of_first.instant(),
                forall|m: int|
                    j <= m < sorted@.len() ==> #[trigger] sv[m].start_of_first.instant()
                        > row@.start_of_first.instant(),
            decreases j,
        {
            j = j - 1;
        }
        proof {
            lemma_insert_row(sv, row@, j as int);
            assert(v.take(i as int + 1).drop_last() =~= v.take(i as int));
            assert(v[i as int] == row@);
        }
        sorted.insert(j, row);
        proof {
            assert(rows_view(sorted@) =~= sv.insert(j as int, row@));
        }
        i = i + 1;
    }
    proof {
        assert(v.take(i as int) =~= v);
    }
    sorted
}

/// More than the nanoseconds between any two `Timestamp`s.
pub open spec fn span_bound() -> int {
    0x4000_0000_0000_0000_0000_0000
}

proof fn lemma_instant_bounds(t: Timestamp)
    ensures
        -0x8000_0000_0000_0000 * 1_000_000_000 <= t.instant() < 0x8000_0000_0000_0000
            * 1_000_000_000 + 0x1_0000_0000,
{
    let s = t.secs as int;
    assert(-0x8000_0000_0000_0000 * 1_000_000_000 <= s * 1_000_000_000 <= 0x7FFF_FFFF_FFFF_FFFF
        * 1_000_000_000) by (nonlinear_arith)
        requires
            -0x8000_0000_0000_0000 <= s <= 0x7FFF_FFFF_FFFF_FFFF,
    ;
}

/// Collapses the events between `from` and `to` into timesheet rows, ordered
/// by the start of their first interval.
///
/// Events before `from` are skipped and the scan stops at the first event at
/// or after `to`. Each interval from a start to the next visited event is
/// added to the row of the start's billing code, attendance type, description
/// and local day. A start with no next event in the window is not counted.
///
/// The local day of a start is taken at the UTC offset written with it, that
/// is the local time zone when the entry was made. It differs from the day in
/// the machine's current zone only where that zone changed since.
pub fn group_activities(entries: &[ActivityEntry], from: &Timestamp, to: &Timestamp) -> (r: Vec<
    CollapsedActivity,
>)
    requires
        entries@.len() <= MAX_EVENTS,
    ensures
        rows_view(r@) == collapse(entries_view(entries@), *from, *to),
{
    let ghost evs = entries_view(entries@);
    let n = entries.len();
    let lo_bound = from.instant_nanos();
    let hi_bound = to.instant_nanos();
    let mut k: usize = 0;
    while k < n && entries[k].time_stamp().instant_nanos() < lo_bound
        invariant
            n == entries@.len(),
            evs == entries_view(entries@),
            lo_bound == from.instant(),
            k <= n,
            forall|i: int| 0 <= i < k ==> #[trigger] evs[i].time_stamp().instant() < from.instant(),
        decreases n - k,
    {
        k = k + 1;
    }
    proof {
        lemma_leading_before(evs, *from, k as int);
    }
    let lo = k;
    let ghost rest = evs.skip(lo as int);
    let ghost span: int = span_bound();
    let mut rows: Vec<CollapsedActivity> = Vec::new();
    let mut prev: Option<&ActivityStart> = None;
    proof {
        assert(evs.subrange(lo as int, lo as int) =~= Seq::<EntryView>::empty());
    }
    while k < n && entries[k].time_stamp().instant_nanos() < hi_bound
        invariant
            n == entries@.len(),
            n <= MAX_EVENTS,
            evs == entries_view(entries@),
            hi_bound == to.instant(),
            lo == leading_before(evs, *from),
            rest == evs.skip(lo as int),
            span == span_bound(),
            lo <= k <= n,
            forall|i: int| lo <= i < k ==> #[trigger] evs[i].time_stamp().instant() < to.instant(),
            rows_view(rows@) == accumulate(intervals(evs.subrange(lo as int, k as int))),
            forall|i: int|
                0 <= i < rows@.len() ==> -((k - lo) * span) <= #[trigger] rows_view(rows@)[i].duration
                    <= (k - lo) * span,
            match prev {
                Some(p) => k > lo && evs[k - 1] == EntryView::Start(p@),
                None => k == lo || evs[k - 1] is End,
            },
        decreases n - k,
    {
        let current = &entries[k];
        let now = current.time_stamp().instant_nanos();
        proof {
            assert(evs[k as int] == current@);
        }
        let ghost w = evs.subrange(lo as int, k as int + 1);
        proof {
            assert(w.drop_last() =~= evs.subrange(lo as int, k as int));
        }
        if let Some(p) = prev {
            let d = now - p.start.instant_nanos();
            proof {
                assert(w[w.len() - 2] == evs[k - 1]);
                assert(w.last() == evs[k as int]);
                lemma_instant_bounds(p@.start);
                lemma_instant_bounds(current@.time_stamp());
                assert(-span < d < span);
                let c = (k - lo) as int;
                assert(c * span + span == (c + 1) * span) by (nonlinear_arith);
                assert(0 <= c + 1 <= 0xFFFF_FFFF);
                assert(span <= 0x4000_0000_0000_0000_0000_0000);
                assert((c + 1) * span <= 0xFFFF_FFFF * 0x4000_0000_0000_0000_0000_0000) by (nonlinear_arith)
                    requires
                        0 <= c + 1 <= 0xFFFF_FFFF,
                        0 < span <= 0x4000_0000_0000_0000_0000_0000,
                ;
            }
            let ghost before = rows_view(rows@);
            proof {
                assert forall|i: int| 0 <= i < rows@.len() implies i128::MIN <= #[trigger] rows@[i].duration + d <= i128::MAX by {
                    assert(before[i].duration == rows@[i].duration);
                }
            }
            add_to_rows(&mut rows, p, d);
            proof {
                assert(intervals(w) == intervals(evs.subrange(lo as int, k as int)).push(
                    (p@, evs[k as int].time_stamp().instant() - p@.start.instant()),
                ));
                let ivs = intervals(w);
                assert(ivs.drop_last() =~= intervals(evs.subrange(lo as int, k as int)));
                assert forall|i: int| 0 <= i < rows@.len() implies -((k + 1 - lo) * span)
                    <= #[trigger] rows_view(rows@)[i].duration <= (k + 1 - lo) * span by {
                    let c = (k - lo) as int;
                    assert(c * span + span == (c + 1) * span) by (nonlinear_arith);
                    assert(0 <= c * span) by (nonlinear_arith)
                        requires
                            c >= 0,
                            span >= 0,
                    ;
                    lemma_row_index_bounds(before, key_of_start(p@));
                    let j = row_index(before, key_of_start(p@));
                    if j >= 0 {
                        assert(rows_view(rows@) == before.update(
                            j,
                            RowView { duration: before[j].duration + d, ..before[j] },
                        ));
                        assert(-(c * span) <= before[i].duration <= c * span);
                    } else {
                        if i < before.len() {
                            assert(rows_view(rows@)[i] == before[i]);
                            assert(-(c * span) <= before[i].duration <= c * span);
                        } else {
                            assert(rows_view(rows@) == before.push(
                                RowView {
                                    attendance_type: p@.attendance_type,
                                    description: p@.description,
                                    duration: d as int,
                                    start_of_first: p@.start,
                                    wbs: p@.wbs,
                                },
                            ));
                            assert(i == before.len());
                            assert(rows_view(rows@)[i].duration == d);
                        }
                    }
                }
            }
        } else {
            proof {
                if k > lo {
                    assert(w[w.len() - 2] == evs[k - 1]);
                }
                assert(intervals(w) == intervals(evs.subrange(lo as int, k as int)));
                assert forall|i: int| 0 <= i < rows@.len() implies -((k + 1 - lo) * span)
                    <= #[trigger] rows_view(rows@)[i].duration <= (k + 1 - lo) * span by {
                    let c = (k - lo) as int;
                    assert(c * span <= (c + 1) * span) by (nonlinear_arith)
                        requires
                            span >= 0,
                    ;
                }
            }
        }
        prev = match current {
            ActivityEntry::Start(activity_start) => Some(activity_start),
            ActivityEntry::End(_) => None,
        };
        k = k + 1;
    }
    proof {
        assert forall|i: int| 0 <= i < k - lo implies #[trigger] rest[i].time_stamp().instant()
            < to.instant() by {
            assert(rest[i] == evs[lo + i]);
        }
        if k < n {
            assert(rest[k - lo] == evs[k as int]);
        }
        lemma_leading_before(rest, *to, k - lo);
        assert(rest.take(k - lo) =~= evs.subrange(lo as int, k as int));
    }
    sort_by_first_start(&rows)
}

/// The total length of the intervals whose start has key `k`.
pub open spec fn key_total(ivs: Seq<(StartView, int)>, k: GroupKey) -> int
    decreases ivs.len(),
{
    if ivs.len() == 0 {
        0
    } else {
        let (p, d) = ivs.last();
        key_total(ivs.drop_last(), k) + if key_of_start(p) == k {
            d
        } else {
            0
        }
    }
}

/// No two rows share a key.
pub open spec fn keys_unique(rows: Seq<RowView>) -> bool {
    forall|i: int, j: int|
        0 <= i < rows.len() && 0 <= j < rows.len() && i != j ==> key_of_row(rows[i]) != key_of_row(
            rows[j],
        )
}

/// Some row has key `k`.
pub open spec fn has_key(rows: Seq<RowView>, k: GroupKey) -> bool {
    exists|i: int| 0 <= i < rows.len() && #[trigger] key_of_row(rows[i]) == k
}

proof fn lemma_row_index_none(rows: Seq<RowView>, k: GroupKey)
    ensures
        row_index(rows, k) == -1 <==> !has_key(rows, k),
    decreases rows.len(),
{
    lemma_row_index_bounds(rows, k);
    if rows.len() > 0 {
        let pre = rows.drop_last();
        lemma_row_index_none(pre, k);
        if has_key(rows, k) && row_index(rows, k) == -1 {
            let i = choose|i: int| 0 <= i < rows.len() && #[trigger] key_of_row(rows[i]) == k;
            if i < pre.len() {
                assert(key_of_row(pre[i]) == k);
            }
        }
        if has_key(pre, k) {
            let i = choose|i: int| 0 <= i < pre.len() && #[trigger] key_of_row(pre[i]) == k;
            assert(key_of_row(rows[i]) == k);
        }
    }
}

proof fn lemma_key_total_zero(ivs: Seq<(StartView, int)>, k: GroupKey)
    requires
        forall|m: int| 0 <= m < ivs.len() ==> key_of_start(#[trigger] ivs[m].0) != k,
    ensures
        key_total(ivs, k) == 0,
    decreases ivs.len(),
{
    if ivs.len() > 0 {
        let pre = ivs.drop_last();
        assert forall|m: int| 0 <= m < pre.len() implies key_of_start(#[trigger] pre[m].0) != k by {
            assert(pre[m] == ivs[m]);
        }
        lemma_key_total_zero(pre, k);
        assert(key_of_start(ivs[ivs.len() - 1].0) != k);
    }
}

/// The rows that `accumulate` opens have distinct keys, each row sums the
/// intervals of its key, and every interval has its row.
proof fn lemma_accumulate(ivs: Seq<(StartView, int)>)
    ensures
        keys_unique(accumulate(ivs)),
        forall|i: int|
            0 <= i < accumulate(ivs).len() ==> (#[trigger] accumulate(ivs)[i]).duration == key_total(
                ivs,
                key_of_row(accumulate(ivs)[i]),
            ),
        forall|m: int| 0 <= m < ivs.len() ==> has_key(accumulate(ivs), key_of_start(#[trigger] ivs[m].0)),
    decreases ivs.len(),
{
    if ivs.len() > 0 {
        let pre = ivs.drop_last();
        lemma_accumulate(pre);
        let rows = accumulate(pre);
        let (p, d) = ivs.last();
        let k = key_of_start(p);
        let out = accumulate(ivs);
        assert(out == add_interval(rows, p, d));
        lemma_row_index_bounds(rows, k);
        lemma_row_index_none(rows, k);
        let j = row_index(rows, k);
        assert forall|q: GroupKey| #[trigger] key_total(ivs, q) == key_total(pre, q) + if k == q {
            d
        } else {
            0
        } by {}
        if j >= 0 {
            assert(out.len() == rows.len());
            assert forall|i: int| 0 <= i < out.len() implies #[trigger] key_of_row(out[i])
                == key_of_row(rows[i]) by {}
            assert forall|i: int| 0 <= i < out.len() implies (#[trigger] out[i]).duration
                == key_total(ivs, key_of_row(out[i])) by {
                if i != j {
                    assert(key_of_row(rows[i]) != k);
                }
            }
            assert forall|m: int| 0 <= m < ivs.len() implies has_key(
                out,
                key_of_start(#[trigger] ivs[m].0),
            ) by {
                if m < pre.len() {
                    assert(pre[m] == ivs[m]);
                    let i = choose|i: int|
                        0 <= i < rows.len() && #[trigger] key_of_row(rows[i]) == key_of_start(
                            pre[m].0,
                        );
                    assert(key_of_row(out[i]) == key_of_start(ivs[m].0));
                } else {
                    assert(key_of_row(out[j]) == k);
                }
            }
        } else {
            assert forall|m: int| 0 <= m < pre.len() implies key_of_start(#[trigger] pre[m].0)
                != k by {
                if key_of_start(pre[m].0) == k {
                    assert(has_key(rows, key_of_start(pre[m].0)));
                }
            }
            lemma_key_total_zero(pre, k);
            assert(out.len() == rows.len() + 1);
            assert(key_of_row(out[rows.len() as int]) == k);
            assert forall|i: int| 0 <= i < rows.len() implies #[trigger] out[i] == rows[i] by {}
            assert forall|i: int| 0 <= i < out.len() implies (#[trigger] out[i]).duration
                == key_total(ivs, key_of_row(out[i])) by {
                if i < rows.len() {
                    assert(out[i] == rows[i]);
                    assert(key_of_row(rows[i]) != k);
                }
            }
            assert forall|m: int| 0 <= m < ivs.len() implies has_key(
                out,
                key_of_start(#[trigger] ivs[m].0),
            ) by {
                if m < pre.len() {
                    assert(pre[m] == ivs[m]);
                    let i = choose|i: int|
                        0 <= i < rows.len() && #[trigger] key_of_row(rows[i]) == key_of_start(
                            pre[m].0,
                        );
                    assert(out[i] == rows[i]);
                    assert(key_of_row(out[i]) == key_of_start(ivs[m].0));
                } else {
                    assert(key_of_row(out[rows.len() as int]) == k);
                }
            }
        }
    }
}

/// Row `x` stands somewhere in `s`.
pub open spec fn holds(s: Seq<RowView>, x: RowView) -> bool {
    exists|m: int| 0 <= m < s.len() && s[m] == x
}

/// `a` and `b` hold the same rows: each row of one stands in the other.
pub open spec fn same_rows(a: Seq<RowView>, b: Seq<RowView>) -> bool {
    &&& a.len() == b.len()
    &&& forall|i: int| 0 <= i < a.len() ==> #[trigger] holds(b, a[i])
    &&& forall|m: int| 0 <= m < b.len() ==> #[trigger] holds(a, b[m])
}

proof fn lemma_insert_row_place(s: Seq<RowView>, r: RowView)
    ensures
        exists|j: int| 0 <= j <= s.len() && insert_row(s, r) == s.insert(j, r),
    decreases s.len(),
{
    if s.len() == 0 {
        assert(insert_row(s, r) == s.insert(0, r));
    } else if s.last().start_of_first.instant() <= r.start_of_first.instant() {
        assert(insert_row(s, r) =~= s.insert(s.len() as int, r));
    } else {
        let s2 = s.drop_last();
        lemma_insert_row_place(s2, r);
        let j = choose|j: int| 0 <= j <= s2.len() && insert_row(s2, r) == s2.insert(j, r);
        assert(s2.insert(j, r).push(s.last()) =~= s.insert(j, r));
    }
}

proof fn lemma_insert_same(sp: Seq<RowView>, pre: Seq<RowView>, r: RowView, j: int)
    requires
        0 <= j <= sp.len(),
        same_rows(sp, pre),
    ensures
        same_rows(sp.insert(j, r), pre.push(r)),
{
    let out = sp.insert(j, r);
    let rows = pre.push(r);
    assert forall|i: int| 0 <= i < out.len() implies #[trigger] holds(rows, out[i]) by {
        if i == j {
            assert(rows[rows.len() - 1] == out[i]);
        } else {
            let i2 = if i < j {
                i
            } else {
                i - 1
            };
            assert(out[i] == sp[i2]);
            assert(holds(pre, sp[i2]));
            let m = choose|m: int| 0 <= m < pre.len() && pre[m] == sp[i2];
            assert(rows[m] == out[i]);
        }
    }
    assert forall|m: int| 0 <= m < rows.len() implies #[trigger] holds(out, rows[m]) by {
        if m == rows.len() - 1 {
            assert(out[j] == rows[m]);
        } else {
            assert(rows[m] == pre[m]);
            assert(holds(sp, pre[m]));
            let i = choose|i: int| 0 <= i < sp.len() && sp[i] == pre[m];
            if i < j {
                assert(out[i] == rows[m]);
            } else {
                assert(out[i + 1] == rows[m]);
            }
        }
    }
}

proof fn lemma_sort_rows(rows: Seq<RowView>)
    ensures
        same_rows(sort_rows(rows), rows),
    decreases rows.len(),
{
    if rows.len() > 0 {
        let pre = rows.drop_last();
        let r = rows.last();
        lemma_sort_rows(pre);
        let sp = sort_rows(pre);
        lemma_insert_row_place(sp, r);
        let j = choose|j: int| 0 <= j <= sp.len() && insert_row(sp, r) == sp.insert(j, r);
        assert(sort_rows(rows) == sp.insert(j, r));
        lemma_insert_same(sp, pre, r, j);
        assert(pre.push(r) =~= rows);
    } else {
        assert(sort_rows(rows) =~= rows);
    }
}

proof fn lemma_insert_unique(sp: Seq<RowView>, r: RowView, j: int)
    requires
        0 <= j <= sp.len(),
        keys_unique(sp),
        forall|i: int| 0 <= i < sp.len() ==> key_of_row(#[trigger] sp[i]) != key_of_row(r),
    ensures
        keys_unique(sp.insert(j, r)),
{
    let out = sp.insert(j, r);
    assert forall|a: int, b: int|
        0 <= a < out.len() && 0 <= b < out.len() && a != b implies key_of_row(out[a])
        != key_of_row(out[b]) by {
        let oa = if a < j {
            a
        } else {
            a - 1
        };
        let ob = if b < j {
            b
        } else {
            b - 1
        };
        if a == j {
            assert(out[b] == sp[ob]);
        } else if b == j {
            assert(out[a] == sp[oa]);
        } else {
            assert(out[a] == sp[oa] && out[b] == sp[ob]);
        }
    }
}

proof fn lemma_sort_rows_unique(rows: Seq<RowView>)
    requires
        keys_unique(rows),
    ensures
        keys_unique(sort_rows(rows)),
    decreases rows.len(),
{
    if rows.len() > 0 {
        let pre = rows.drop_last();
        let r = rows.last();
        assert(keys_unique(pre)) by {
            assert forall|a: int, b: int|
                0 <= a < pre.len() && 0 <= b < pre.len() && a != b implies key_of_row(pre[a])
                != key_of_row(pre[b]) by {
                assert(pre[a] == rows[a] && pre[b] == rows[b]);
            }
        }
        lemma_sort_rows_unique(pre);
        lemma_sort_rows(pre);
        let sp = sort_rows(pre);
        lemma_insert_row_place(sp, r);
        let j = choose|j: int| 0 <= j <= sp.len() && insert_row(sp, r) == sp.insert(j, r);
        assert forall|i: int| 0 <= i < sp.len() implies key_of_row(#[trigger] sp[i]) != key_of_row(
            r,
        ) by {
            assert(holds(pre, sp[i]));
            let m = choose|m: int| 0 <= m < pre.len() && pre[m] == sp[i];
            assert(rows[m] == sp[i]);
        }
        lemma_insert_unique(sp, r, j);
    } else {
        assert(sort_rows(rows) =~= rows);
    }
}

/// Grouping: in the rows of `collapse`, no two rows share a billing code,
/// attendance type, description and local day; each row's duration is the sum
/// of all intervals of its key in the window; and every interval in the window
/// has its row.
pub proof fn lemma_grouping(evs: Seq<EntryView>, from: Timestamp, to: Timestamp)
    ensures
        keys_unique(collapse(evs, from, to)),
        forall|i: int|
            0 <= i < collapse(evs, from, to).len() ==> (#[trigger] collapse(evs, from, to)[i]).duration
                == key_total(
                intervals(window(evs, from, to)),
                key_of_row(collapse(evs, from, to)[i]),
            ),
        forall|m: int|
            0 <= m < intervals(window(evs, from, to)).len() ==> has_key(
                collapse(evs, from, to),
                key_of_start(#[trigger] intervals(window(evs, from, to))[m].0),
            ),
{
    let ivs = intervals(window(evs, from, to));
    let rows = accumulate(ivs);
    let out = collapse(evs, from, to);
    lemma_accumulate(ivs);
    lemma_sort_rows(rows);
    lemma_sort_rows_unique(rows);
    assert forall|i: int| 0 <= i < out.len() implies (#[trigger] out[i]).duration == key_total(
        ivs,
        key_of_row(out[i]),
    ) by {
        assert(holds(rows, out[i]));
        let m = choose|m: int| 0 <= m < rows.len() && rows[m] == out[i];
        assert(rows[m].duration == key_total(ivs, key_of_row(rows[m])));
    }
    assert forall|m: int| 0 <= m < ivs.len() implies has_key(out, key_of_start(#[trigger] ivs[m].0)) by {
        assert(has_key(rows, key_of_start(ivs[m].0)));
        let q = choose|q: int| 0 <= q < rows.len() && #[trigger] key_of_row(rows[q]) == key_of_start(
            ivs[m].0,
        );
        assert(holds(out, rows[q]));
        let i = choose|i: int| 0 <= i < out.len() && out[i] == rows[q];
        assert(key_of_row(out[i]) == key_of_start(ivs[m].0));
    }
}

proof fn lemma_leading_props(evs: Seq<EntryView>, bound: Timestamp)
    ensures
        leading_before(evs, bound) <= evs.len(),
        forall|i: int|
            0 <= i < leading_before(evs, bound) ==> #[trigger] evs[i].time_stamp().instant()
                < bound.instant(),
        leading_before(evs, bound) < evs.len() ==> evs[leading_before(
            evs,
            bound,
        ) as int].time_stamp().instant() >= bound.instant(),
    decreases evs.len(),
{
    if evs.len() > 0 && evs[0].time_stamp().instant() < bound.instant() {
        let rest = evs.drop_first();
        lemma_leading_props(rest, bound);
        assert forall|i: int| 0 <= i < leading_before(evs, bound) implies #[trigger] evs[i].time_stamp().instant()
            < bound.instant() by {
            if i > 0 {
                assert(evs[i] == rest[i - 1]);
            }
        }
    }
}

/// Window: events before `from` or at or after `to` add nothing. Where a log
/// is some events before `from`, then events inside the window, then events
/// from `to` on, its rows are those of the events inside the window alone.
pub proof fn lemma_window(
    pre: Seq<EntryView>,
    mid: Seq<EntryView>,
    post: Seq<EntryView>,
    from: Timestamp,
    to: Timestamp,
)
    requires
        forall|i: int| 0 <= i < pre.len() ==> #[trigger] pre[i].time_stamp().instant() < from.instant(),
        forall|i: int|
            0 <= i < mid.len() ==> from.instant() <= #[trigger] mid[i].time_stamp().instant()
                < to.instant(),
        forall|i: int| 0 <= i < post.len() ==> #[trigger] post[i].time_stamp().instant() >= to.instant(),
    ensures
        collapse(pre + mid + post, from, to) == collapse(mid, from, to),
{
    let all = pre + mid + post;
    if mid.len() > 0 {
        assert forall|i: int| 0 <= i < pre.len() implies #[trigger] all[i].time_stamp().instant()
            < from.instant() by {
            assert(all[i] == pre[i]);
        }
        assert(all[pre.len() as int] == mid[0]);
        lemma_leading_before(all, from, pre.len() as int);
        let rest = all.skip(pre.len() as int);
        assert(rest =~= mid + post);
        assert forall|i: int| 0 <= i < mid.len() implies #[trigger] rest[i].time_stamp().instant()
            < to.instant() by {
            assert(rest[i] == mid[i]);
        }
        if post.len() > 0 {
            assert(rest[mid.len() as int] == post[0]);
        }
        lemma_leading_before(rest, to, mid.len() as int);
        assert(rest.take(mid.len() as int) =~= mid);
        lemma_leading_before(mid, from, 0);
        assert(mid.skip(0) =~= mid);
        assert forall|i: int| 0 <= i < mid.len() implies #[trigger] mid.skip(0)[i].time_stamp().instant()
            < to.instant() by {
            assert(mid.skip(0)[i] == mid[i]);
        }
        lemma_leading_before(mid.skip(0), to, mid.len() as int);
        assert(mid.skip(0).take(mid.len() as int) =~= mid);
        assert(window(all, from, to) == window(mid, from, to));
    } else {
        lemma_leading_props(all, from);
        let k = leading_before(all, from) as int;
        let rest = all.skip(k);
        if k < all.len() {
            if k < pre.len() {
                assert(all[k] == pre[k]);
            } else {
                assert(all[k] == post[k - pre.len()]);
            }
            assert(rest[0] == all[k]);
        }
        lemma_leading_before(rest, to, 0);
        assert(rest.take(0) =~= Seq::<EntryView>::empty());
        lemma_leading_before(mid, from, 0);
        assert(mid.skip(0).take(0) =~= Seq::<EntryView>::empty());
        assert(window(all, from, to) =~= window(mid, from, to));
    }
}

/// Collapsing depends on the events and the window alone: two calls on the
/// same events and window give the same rows.
pub proof fn lemma_collapse_deterministic(
    evs1: Seq<EntryView>,
    evs2: Seq<EntryView>,
    from: Timestamp,
    to: Timestamp,
)
    requires
        evs1 == evs2,
    ensures
        collapse(evs1, from, to) == collapse(evs2, from, to),
{
}

/// The events of a log are in non-decreasing time order.
pub open spec fn sorted_by_time(evs: Seq<EntryView>) -> bool {
    forall|i: int, j: int|
        0 <= i < j < evs.len() ==> #[trigger] evs[i].time_stamp().instant()
            <= #[trigger] evs[j].time_stamp().instant()
}

/// The event falls inside the window `[from, to)`.
pub open spec fn in_window(from: Timestamp, to: Timestamp) -> spec_fn(EntryView) -> bool {
    |e: EntryView| from.instant() <= e.time_stamp().instant() < to.instant()
}

proof fn lemma_filter_all(s: Seq<EntryView>, p: spec_fn(EntryView) -> bool)
    requires
        forall|i: int| 0 <= i < s.len() ==> p(#[trigger] s[i]),
    ensures
        s.filter(p) == s,
    decreases s.len(),
{
    reveal(Seq::filter);
    if s.len() > 0 {
        let t = s.drop_last();
        assert forall|i: int| 0 <= i < t.len() implies p(#[trigger] t[i]) by {
            assert(t[i] == s[i]);
        }
        lemma_filter_all(t, p);
        assert(p(s[s.len() - 1]));
        assert(t.push(s.last()) =~= s);
    }
}

proof fn lemma_filter_none(s: Seq<EntryView>, p: spec_fn(EntryView) -> bool)
    requires
        forall|i: int| 0 <= i < s.len() ==> !p(#[trigger] s[i]),
    ensures
        s.filter(p) == Seq::<EntryView>::empty(),
    decreases s.len(),
{
    reveal(Seq::filter);
    if s.len() > 0 {
        let t = s.drop_last();
        assert forall|i: int| 0 <= i < t.len() implies !p(#[trigger] t[i]) by {
            assert(t[i] == s[i]);
        }
        lemma_filter_none(t, p);
        assert(!p(s[s.len() - 1]));
    } else {
        assert(s.filter(p) =~= Seq::<EntryView>::empty());
    }
}

/// Window, for a log in time order: its rows are those of the events inside
/// `[from, to)` alone. Events before `from` or from `to` on add nothing.
pub proof fn lemma_window_sorted(evs: Seq<EntryView>, from: Timestamp, to: Timestamp)
    requires
        sorted_by_time(evs),
    ensures
        collapse(evs, from, to) == collapse(evs.filter(in_window(from, to)), from, to),
{
    let lo = leading_before(evs, from) as int;
    lemma_leading_props(evs, from);
    let rest = evs.skip(lo);
    lemma_leading_props(rest, to);
    let hi = lo + leading_before(rest, to) as int;
    let pre = evs.take(lo);
    let mid = evs.subrange(lo, hi);
    let post = evs.skip(hi);
    assert(evs =~= pre + mid + post);
    assert forall|i: int| 0 <= i < pre.len() implies #[trigger] pre[i].time_stamp().instant()
        < from.instant() by {
        assert(pre[i] == evs[i]);
    }
    assert forall|i: int| 0 <= i < mid.len() implies from.instant() <= #[trigger] mid[i].time_stamp().instant()
        < to.instant() by {
        assert(mid[i] == evs[lo + i]);
        assert(rest[i] == evs[lo + i]);
        assert(rest[0] == evs[lo]);
        if i > 0 {
            assert(evs[lo].time_stamp().instant() <= evs[lo + i].time_stamp().instant());
        }
    }
    assert forall|i: int| 0 <= i < post.len() implies #[trigger] post[i].time_stamp().instant()
        >= to.instant() by {
        assert(post[i] == evs[hi + i]);
        assert(rest[hi - lo] == evs[hi]);
        if i > 0 {
            assert(evs[hi].time_stamp().instant() <= evs[hi + i].time_stamp().instant());
        }
    }
    lemma_window(pre, mid, post, from, to);
    let p = in_window(from, to);
    assert forall|i: int| 0 <= i < pre.len() implies !p(#[trigger] pre[i]) by {}
    assert forall|i: int| 0 <= i < mid.len() implies p(#[trigger] mid[i]) by {}
    assert forall|i: int| 0 <= i < post.len() implies !p(#[trigger] post[i]) by {}
    lemma_filter_none(pre, p);
    lemma_filter_all(mid, p);
    lemma_filter_none(post, p);
    Seq::filter_distributes_over_add(pre, mid, p);
    Seq::filter_distributes_over_add(pre + mid, post, p);
    assert(evs.filter(p) =~= mid);
}

proof fn lemma_intervals_in_window(w: Seq<EntryView>, from: Timestamp, to: Timestamp)
    requires
        sorted_by_time(w),
        forall|i: int|
            0 <= i < w.len() ==> from.instant() <= #[trigger] w[i].time_stamp().instant()
                < to.instant(),
    ensures
        forall|m: int|
            0 <= m < intervals(w).len() ==> from.instant() <= (#[trigger] intervals(w)[m]).0.start.instant()
                < to.instant() && intervals(w)[m].1 >= 0,
    decreases w.len(),
{
    if w.len() >= 2 {
        let t = w.drop_last();
        assert forall|i: int, j: int|
            0 <= i < j < t.len() implies #[trigger] t[i].time_stamp().instant()
            <= #[trigger] t[j].time_stamp().instant() by {
            assert(t[i] == w[i] && t[j] == w[j]);
        }
        assert forall|i: int| 0 <= i < t.len() implies from.instant()
            <= #[trigger] t[i].time_stamp().instant() < to.instant() by {
            assert(t[i] == w[i]);
        }
        lemma_intervals_in_window(t, from, to);
        let n = w.len() as int;
        assert(w[n - 2].time_stamp().instant() <= w[n - 1].time_stamp().instant());
        assert(w.last() == w[n - 1]);
        assert(t[n - 2] == w[n - 2]);
        let it = intervals(t);
        match w[n - 2] {
            EntryView::Start(p) => {
                let x = (p, w.last().time_stamp().instant() - p.start.instant());
                assert(intervals(w) == it.push(x));
                assert forall|m: int| 0 <= m < intervals(w).len() implies from.instant()
                    <= (#[trigger] intervals(w)[m]).0.start.instant() < to.instant()
                    && intervals(w)[m].1 >= 0 by {
                    if m < it.len() {
                        assert(intervals(w)[m] == it[m]);
                    } else {
                        assert(intervals(w)[m] == x);
                    }
                }
            },
            EntryView::End(_) => {
                assert(intervals(w) == it);
            },
        }
    }
}

proof fn lemma_accumulate_starts(ivs: Seq<(StartView, int)>)
    ensures
        forall|r: int|
            0 <= r < accumulate(ivs).len() ==> exists|m: int|
                0 <= m < ivs.len() && (#[trigger] accumulate(ivs)[r]).start_of_first
                    == ivs[m].0.start,
    decreases ivs.len(),
{
    if ivs.len() > 0 {
        let pre = ivs.drop_last();
        lemma_accumulate_starts(pre);
        let rows = accumulate(pre);
        let (p, d) = ivs.last();
        let k = key_of_start(p);
        lemma_row_index_bounds(rows, k);
        let out = accumulate(ivs);
        assert(out == add_interval(rows, p, d));
        assert forall|r: int| 0 <= r < out.len() implies exists|m: int|
            0 <= m < ivs.len() && (#[trigger] out[r]).start_of_first == ivs[m].0.start by {
            if r < rows.len() {
                assert(out[r].start_of_first == rows[r].start_of_first);
                let m = choose|m: int|
                    0 <= m < pre.len() && (#[trigger] rows[r]).start_of_first == pre[m].0.start;
                assert(pre[m] == ivs[m]);
            } else {
                assert(out[r].start_of_first == ivs[ivs.len() - 1].0.start);
            }
        }
    }
}

proof fn lemma_key_total_nonneg(ivs: Seq<(StartView, int)>, k: GroupKey)
    requires
        forall|m: int| 0 <= m < ivs.len() ==> (#[trigger] ivs[m]).1 >= 0,
    ensures
        key_total(ivs, k) >= 0,
    decreases ivs.len(),
{
    if ivs.len() > 0 {
        let pre = ivs.drop_last();
        assert forall|m: int| 0 <= m < pre.len() implies (#[trigger] pre[m]).1 >= 0 by {
            assert(pre[m] == ivs[m]);
        }
        lemma_key_total_nonneg(pre, k);
        assert(ivs[ivs.len() - 1].1 >= 0);
    }
}

/// For a log in time order, every row starts inside `[from, to)` and has a
/// duration of zero or more.
pub proof fn lemma_rows_in_window(evs: Seq<EntryView>, from: Timestamp, to: Timestamp)
    requires
        sorted_by_time(evs),
    ensures
        forall|r: int|
            0 <= r < collapse(evs, from, to).len() ==> from.instant() <= (#[trigger] collapse(
                evs,
                from,
                to,
            )[r]).start_of_first.instant() < to.instant() && collapse(evs, from, to)[r].duration
                >= 0,
{
    let lo = leading_before(evs, from) as int;
    lemma_leading_props(evs, from);
    let rest = evs.skip(lo);
    lemma_leading_props(rest, to);
    let w = window(evs, from, to);
    let hi = leading_before(rest, to) as int;
    assert(w == rest.take(hi));
    assert forall|i: int| 0 <= i < w.len() implies from.instant() <= #[trigger] w[i].time_stamp().instant()
        < to.instant() by {
        assert(w[i] == evs[lo + i]);
        assert(rest[i] == evs[lo + i]);
        if i > 0 {
            assert(evs[lo].time_stamp().instant() <= evs[lo + i].time_stamp().instant());
        }
    }
    assert forall|i: int, j: int|
        0 <= i < j < w.len() implies #[trigger] w[i].time_stamp().instant()
        <= #[trigger] w[j].time_stamp().instant() by {
        assert(w[i] == evs[lo + i] && w[j] == evs[lo + j]);
    }
    let ivs = intervals(w);
    lemma_intervals_in_window(w, from, to);
    let rows = accumulate(ivs);
    lemma_accumulate_starts(ivs);
    lemma_accumulate(ivs);
    lemma_sort_rows(rows);
    let out = collapse(evs, from, to);
    assert forall|m: int| 0 <= m < ivs.len() implies (#[trigger] ivs[m]).1 >= 0 by {}
    assert forall|r: int| 0 <= r < out.len() implies from.instant() <= (#[trigger] out[r]).start_of_first.instant()
        < to.instant() && out[r].duration >= 0 by {
        assert(holds(rows, out[r]));
        let q = choose|q: int| 0 <= q < rows.len() && rows[q] == out[r];
        let m = choose|m: int|
            0 <= m < ivs.len() && (#[trigger] rows[q]).start_of_first == ivs[m].0.start;
        assert(from.instant() <= ivs[m].0.start.instant() < to.instant());
        lemma_key_total_nonneg(ivs, key_of_row(rows[q]));
    }
}

/// The durations of the rows, added up.
pub open spec fn total_duration(rows: Seq<RowView>) -> int
    decreases rows.len(),
{
    if rows.len() == 0 {
        0
    } else {
        total_duration(rows.drop_last()) + rows.last().duration
    }
}

/// The lengths of the intervals, added up.
pub open spec fn interval_total(ivs: Seq<(StartView, int)>) -> int
    decreases ivs.len(),
{
    if ivs.len() == 0 {
        0
    } else {
        interval_total(ivs.drop_last()) + ivs.last().1
    }
}

proof fn lemma_total_update(rows: Seq<RowView>, j: int, r: RowView)
    requires
        0 <= j < rows.len(),
    ensures
        total_duration(rows.update(j, r)) == total_duration(rows) - rows[j].duration + r.duration,
    decreases rows.len(),
{
    let u = rows.update(j, r);
    if j == rows.len() - 1 {
        assert(u.drop_last() =~= rows.drop_last());
    } else {
        assert(u.drop_last() =~= rows.drop_last().update(j, r));
        lemma_total_update(rows.drop_last(), j, r);
    }
}

proof fn lemma_total_insert(rows: Seq<RowView>, j: int, r: RowView)
    requires
        0 <= j <= rows.len(),
    ensures
        total_duration(rows.insert(j, r)) == total_duration(rows) + r.duration,
    decreases rows.len(),
{
    let u = rows.insert(j, r);
    if j == rows.len() {
        assert(u.drop_last() =~= rows);
    } else {
        assert(u.drop_last() =~= rows.drop_last().insert(j, r));
        assert(u.last() == rows.last());
        lemma_total_insert(rows.drop_last(), j, r);
    }
}

proof fn lemma_total_sort(rows: Seq<RowView>)
    ensures
        total_duration(sort_rows(rows)) == total_duration(rows),
    decreases rows.len(),
{
    if rows.len() > 0 {
        let pre = rows.drop_last();
        lemma_total_sort(pre);
        let sp = sort_rows(pre);
        lemma_insert_row_place(sp, rows.last());
        let j = choose|j: int|
            0 <= j <= sp.len() && insert_row(sp, rows.last()) == sp.insert(j, rows.last());
        lemma_total_insert(sp, j, rows.last());
    }
}

proof fn lemma_total_accumulate(ivs: Seq<(StartView, int)>)
    ensures
        total_duration(accumulate(ivs)) == interval_total(ivs),
    decreases ivs.len(),
{
    if ivs.len() > 0 {
        let pre = ivs.drop_last();
        lemma_total_accumulate(pre);
        let rows = accumulate(pre);
        let (p, d) = ivs.last();
        lemma_row_index_bounds(rows, key_of_start(p));
        let i = row_index(rows, key_of_start(p));
        if i >= 0 {
            lemma_total_update(rows, i, RowView { duration: rows[i].duration + d, ..rows[i] });
        } else {
            let r = RowView {
                attendance_type: p.attendance_type,
                description: p.description,
                duration: d,
                start_of_first: p.start,
                wbs: p.wbs,
            };
            assert(rows.push(r).drop_last() =~= rows);
        }
    }
}

proof fn lemma_interval_total_span(w: Seq<EntryView>)
    requires
        sorted_by_time(w),
        w.len() > 0,
    ensures
        interval_total(intervals(w)) <= w.last().time_stamp().instant() - w[0].time_stamp().instant(),
    decreases w.len(),
{
    if w.len() >= 2 {
        let t = w.drop_last();
        assert forall|i: int, j: int|
            0 <= i < j < t.len() implies #[trigger] t[i].time_stamp().instant()
            <= #[trigger] t[j].time_stamp().instant() by {
            assert(t[i] == w[i] && t[j] == w[j]);
        }
        lemma_interval_total_span(t);
        let n = w.len() as int;
        assert(w[n - 2].time_stamp().instant() <= w[n - 1].time_stamp().instant());
        assert(t.last() == w[n - 2]);
        assert(t[0] == w[0]);
        let it = intervals(t);
        match w[n - 2] {
            EntryView::Start(p) => {
                let x = (p, w.last().time_stamp().instant() - p.start.instant());
                assert(intervals(w) == it.push(x));
                assert(it.push(x).drop_last() =~= it);
            },
            EntryView::End(_) => {
                assert(intervals(w) == it);
            },
        }
    } else {
        assert(intervals(w) =~= Seq::<(StartView, int)>::empty());
    }
}

/// For a log in time order, the rows add up to no more than the length of
/// the window.
pub proof fn lemma_total_in_window(evs: Seq<EntryView>, from: Timestamp, to: Timestamp)
    requires
        sorted_by_time(evs),
    ensures
        0 <= total_duration(collapse(evs, from, to)),
        from.instant() <= to.instant() ==> total_duration(collapse(evs, from, to)) <= to.instant()
            - from.instant(),
{
    let lo = leading_before(evs, from) as int;
    lemma_leading_props(evs, from);
    let rest = evs.skip(lo);
    lemma_leading_props(rest, to);
    let w = window(evs, from, to);
    let hi = leading_before(rest, to) as int;
    assert(w == rest.take(hi));
    assert forall|i: int| 0 <= i < w.len() implies from.instant() <= #[trigger] w[i].time_stamp().instant()
        < to.instant() by {
        assert(w[i] == evs[lo + i]);
        assert(rest[i] == evs[lo + i]);
        if i > 0 {
            assert(evs[lo].time_stamp().instant() <= evs[lo + i].time_stamp().instant());
        }
    }
    assert forall|i: int, j: int|
        0 <= i < j < w.len() implies #[trigger] w[i].time_stamp().instant()
        <= #[trigger] w[j].time_stamp().instant() by {
        assert(w[i] == evs[lo + i] && w[j] == evs[lo + j]);
    }
    let ivs = intervals(w);
    lemma_total_accumulate(ivs);
    lemma_total_sort(accumulate(ivs));
    lemma_intervals_in_window(w, from, to);
    assert forall|m: int| 0 <= m < ivs.len() implies (#[trigger] ivs[m]).1 >= 0 by {}
    lemma_interval_total_nonneg(ivs);
    if w.len() > 0 {
        lemma_interval_total_span(w);
        assert(w.last() == w[w.len() - 1]);
    } else {
        assert(ivs =~= Seq::<(StartView, int)>::empty());
    }
}

proof fn lemma_interval_total_nonneg(ivs: Seq<(StartView, int)>)
    requires
        forall|m: int| 0 <= m < ivs.len() ==> (#[trigger] ivs[m]).1 >= 0,
    ensures
        interval_total(ivs) >= 0,
    decreases ivs.len(),
{
    if ivs.len() > 0 {
        let pre = ivs.drop_last();
        assert forall|m: int| 0 <= m < pre.len() implies (#[trigger] pre[m]).1 >= 0 by {
            assert(pre[m] == ivs[m]);
        }
        lemma_interval_total_nonneg(pre);
        assert(ivs[ivs.len() - 1].1 >= 0);
    }
}

} // verus!
