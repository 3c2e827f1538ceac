//! The history ledger: an append-only collection of session intervals,
//! each attributing a span of wall-clock time to a (project, sub-project,
//! subject) triple.
//!
//! The ledger supports live extension of the open interval, half-open
//! range filtering, and a day-bucketed report that splits any interval
//! crossing midnight into one fragment per calendar day.

use vstd::prelude::*;

use crate::ids::fresh_id;
use crate::sort::SortKeyed;
use crate::sort::sort_items;
use crate::sort::views_of;
use crate::time::SECS_PER_DAY;
use crate::time::day_end;
use crate::time::day_of;
use crate::time::day_start;
use crate::time::lemma_day_bounds;
use crate::time::lemma_day_mono;

verus! {

/// One session interval. `start_date` never changes once written;
/// `end_date` is advanced while the record is the open one and never
/// precedes `start_date`.
#[derive(Clone, Copy, PartialEq, Eq, Structural, Debug)]
pub struct HistoryRecord {
    pub id: u64,
    pub start_date: u64,
    pub end_date: u64,
    pub project_id: u64,
    pub sub_project_id: u64,
    pub subject_id: u64,
}

impl View for HistoryRecord {
    type V = HistoryRecord;

    open spec fn view(&self) -> HistoryRecord {
        *self
    }
}

impl SortKeyed for HistoryRecord {
    open spec fn view_key(v: HistoryRecord) -> u64 {
        v.start_date
    }

    fn sort_key(&self) -> u64 {
        self.start_date
    }

    fn duplicate(&self) -> Self {
        *self
    }
}

/// A signed quantity clamped into the `i64` range.
pub open spec fn clamp_i64(x: int) -> int {
    if x > i64::MAX {
        i64::MAX as int
    } else if x < i64::MIN {
        i64::MIN as int
    } else {
        x
    }
}

impl HistoryRecord {
    /// The exact (unclamped) span of the interval, in seconds.
    pub open spec fn spec_duration(self) -> int {
        self.end_date - self.start_date
    }

    /// The span of the interval in seconds, clamped into `i64`.
    pub fn get_duration(&self) -> (d: i64)
        ensures
            d == clamp_i64(self.spec_duration()),
    {
        if self.end_date >= self.start_date {
            let u = self.end_date - self.start_date;
            if u > i64::MAX as u64 {
                i64::MAX
            } else {
                u as i64
            }
        } else {
            let u = self.start_date - self.end_date;
            if u > i64::MAX as u64 {
                i64::MIN
            } else {
                -(u as i64)
            }
        }
    }
}

/// Ledger well-formedness: ids are unique and no interval runs backwards.
pub open spec fn wf_records(s: Seq<HistoryRecord>) -> bool {
    &&& forall|i: int, j: int|
        0 <= i < j < s.len() ==> (#[trigger] s[i]).id != (#[trigger] s[j]).id
    &&& forall|i: int| 0 <= i < s.len() ==> (#[trigger] s[i]).start_date <= s[i].end_date
}

/// Whether some record carries the given id.
pub open spec fn has_rec(s: Seq<HistoryRecord>, id: u64) -> bool {
    exists|i: int| 0 <= i < s.len() && (#[trigger] s[i]).id == id
}

/// The position of the record carrying an id (meaningful under unique ids).
pub open spec fn rec_index(s: Seq<HistoryRecord>, id: u64) -> int {
    choose|i: int| 0 <= i < s.len() && (#[trigger] s[i]).id == id
}

/// The ledger after storing a record under its id: an existing id is
/// silently overwritten, a new one appended.
pub open spec fn put_record(s: Seq<HistoryRecord>, r: HistoryRecord) -> Seq<HistoryRecord> {
    if has_rec(s, r.id) {
        s.update(rec_index(s, r.id), r)
    } else {
        s.push(r)
    }
}

/// A record with its end advanced to the given instant, never before its
/// own start.
pub open spec fn touched(r: HistoryRecord, now: u64) -> HistoryRecord {
    HistoryRecord {
        end_date: if now >= r.start_date {
            now
        } else {
            r.start_date
        },
        ..r
    }
}

/// The ledger after extending the record with the given id, if present.
pub open spec fn touch_model(s: Seq<HistoryRecord>, id: u64, now: u64) -> Seq<HistoryRecord> {
    if has_rec(s, id) {
        s.update(rec_index(s, id), touched(s[rec_index(s, id)], now))
    } else {
        s
    }
}

/// Under unique ids, a position holding an id is the position of that id.
pub proof fn lemma_rec_index(s: Seq<HistoryRecord>, i: int, id: u64)
    requires
        forall|a: int, b: int| 0 <= a < b < s.len() ==> (#[trigger] s[a]).id != (#[trigger] s[b]).id,
        0 <= i < s.len(),
        s[i].id == id,
    ensures
        has_rec(s, id),
        rec_index(s, id) == i,
{
    assert(has_rec(s, id));
    let j = rec_index(s, id);
    if i != j {
        assert(s[i].id != s[j].id);
    }
}

/// Whether a record is picked up by the inclusive range filter of the
/// day-bucketed report.
pub open spec fn in_report_range(rec: HistoryRecord, from: u64, to: u64) -> bool {
    from <= rec.start_date <= to
}

/// The records whose start falls in the half-open range `[from, to)`, in
/// ledger order.
pub open spec fn records_in_range(s: Seq<HistoryRecord>, from: u64, to: u64) -> Seq<
    HistoryRecord,
>
    decreases s.len(),
{
    if s.len() == 0 {
        Seq::empty()
    } else {
        records_in_range(s.drop_last(), from, to) + (if from <= s.last().start_date
            && s.last().start_date < to {
            seq![s.last()]
        } else {
            Seq::empty()
        })
    }
}

/// The records picked up by the day-bucketed report: start in the
/// inclusive range `[from, to]`, in ledger order.
pub open spec fn report_records(s: Seq<HistoryRecord>, from: u64, to: u64) -> Seq<HistoryRecord>
    decreases s.len(),
{
    if s.len() == 0 {
        Seq::empty()
    } else {
        report_records(s.drop_last(), from, to) + (if in_report_range(s.last(), from, to) {
            seq![s.last()]
        } else {
            Seq::empty()
        })
    }
}

/// The fragment of a record that belongs to a given calendar day: the
/// whole record on the day it starts if it also ends there; otherwise the
/// head clamped to 23:59:59 of the start day, and the tail clamped to
/// 00:00:00 of the following day.
pub open spec fn frag_for_day(rec: HistoryRecord, day: u64) -> Option<HistoryRecord> {
    if day_of(rec.start_date) == day {
        if day_of(rec.end_date) == day {
            Some(rec)
        } else {
            Some(HistoryRecord { end_date: day_end(day), ..rec })
        }
    } else if day_of(rec.start_date) + 1 == day && day_of(rec.end_date) != day_of(
        rec.start_date,
    ) {
        Some(HistoryRecord { start_date: day_start(day), ..rec })
    } else {
        None
    }
}

/// The fragment of a record for a day, as a sequence of zero or one
/// records.
pub open spec fn frag_seq(rec: HistoryRecord, day: u64) -> Seq<HistoryRecord> {
    match frag_for_day(rec, day) {
        Some(f) => seq![f],
        None => Seq::empty(),
    }
}

/// All fragments a run of records contributes to a calendar day, in run
/// order.
pub open spec fn bucket_of(s: Seq<HistoryRecord>, day: u64) -> Seq<HistoryRecord>
    decreases s.len(),
{
    if s.len() == 0 {
        Seq::empty()
    } else {
        bucket_of(s.drop_last(), day) + frag_seq(s.last(), day)
    }
}

/// Ascending start instants.
pub open spec fn sorted_by_start(s: Seq<HistoryRecord>) -> bool {
    forall|i: int, j: int|
        0 <= i < j < s.len() ==> (#[trigger] s[i]).start_date <= (#[trigger] s[j]).start_date
}

/// What the day-bucketed report returns: `s` is the in-range records of
/// the ledger in some ascending-start order, and bucket `d` holds exactly
/// the fragments the run contributes to the `d`-th day of the range.
pub open spec fn day_partition(
    recs: Seq<HistoryRecord>,
    from: u64,
    to: u64,
    s: Seq<HistoryRecord>,
    out: Seq<Vec<HistoryRecord>>,
) -> bool {
    &&& s.to_multiset() == report_records(recs, from, to).to_multiset()
    &&& sorted_by_start(s)
    &&& forall|d: int|
        0 <= d < out.len() ==> (#[trigger] out[d])@ == bucket_of(s, (day_of(from) + d) as u64)
}

/// The larger of two instants.
pub open spec fn max_instant(a: u64, b: u64) -> u64 {
    if a >= b {
        a
    } else {
        b
    }
}

/// A fragment starts at its record's own start, or at the first second
/// of the fragment's day, whichever is later.
pub proof fn lemma_frag_start(rec: HistoryRecord, day: u64)
    requires
        rec.start_date <= rec.end_date,
        frag_for_day(rec, day) is Some,
    ensures
        frag_for_day(rec, day)->Some_0.start_date == max_instant(day_start(day), rec.start_date),
{
    lemma_day_bounds(rec.start_date);
    lemma_day_bounds(rec.end_date);
    lemma_day_mono(rec.start_date, rec.end_date);
    if day_of(rec.start_date) == day {
    } else {
        assert(day == day_of(rec.start_date) + 1);
        assert(day_of(rec.end_date) >= day);
        assert(day_of(rec.end_date) * SECS_PER_DAY >= day * SECS_PER_DAY) by (nonlinear_arith)
            requires
                day_of(rec.end_date) >= day,
        ;
        assert(rec.end_date >= day * SECS_PER_DAY);
    }
}

/// A fragment starts on the very day it is assigned to: the head of a
/// split keeps its start, the tail is clamped to the following midnight,
/// so no bucket's contents start outside its own calendar day.
pub proof fn lemma_frag_day(rec: HistoryRecord, day: u64)
    requires
        rec.start_date <= rec.end_date,
        frag_for_day(rec, day) is Some,
    ensures
        day_of(frag_for_day(rec, day)->Some_0.start_date) == day,
{
    lemma_day_bounds(rec.end_date);
    lemma_day_mono(rec.start_date, rec.end_date);
    if day_of(rec.start_date) == day {
    } else {
        assert(day == day_of(rec.start_date) + 1);
        assert(day_of(rec.end_date) >= day);
        assert(day_of(rec.end_date) * SECS_PER_DAY >= day * SECS_PER_DAY) by (nonlinear_arith)
            requires
                day_of(rec.end_date) >= day,
        ;
        assert(rec.end_date >= day * SECS_PER_DAY);
        assert(day_start(day) == day * SECS_PER_DAY);
        vstd::arithmetic::div_mod::lemma_div_multiples_vanish(day as int, SECS_PER_DAY as int);
        assert((day * SECS_PER_DAY) as u64 / SECS_PER_DAY == day);
    }
}

/// Every record of a bucket starts on the bucket's calendar day.
pub open spec fn all_start_on_day(b: Seq<HistoryRecord>, day: u64) -> bool {
    forall|i: int| 0 <= i < b.len() ==> day_of((#[trigger] b[i]).start_date) == day
}

/// The fragments a run contributes to a day all start on that day.
pub proof fn lemma_bucket_of_days(s: Seq<HistoryRecord>, day: u64)
    requires
        forall|k: int| 0 <= k < s.len() ==> (#[trigger] s[k]).start_date <= s[k].end_date,
    ensures
        all_start_on_day(bucket_of(s, day), day),
    decreases s.len(),
{
    if s.len() > 0 {
        let s0 = s.drop_last();
        lemma_bucket_of_days(s0, day);
        if frag_for_day(s.last(), day) is Some {
            lemma_frag_day(s.last(), day);
        }
    }
}

/// The fragments of an ascending-start run land in each day bucket in
/// ascending start order, and none starts after the later of the day's
/// first second and the run's last start.
pub proof fn lemma_bucket_of_sorted(s: Seq<HistoryRecord>, day: u64)
    requires
        sorted_by_start(s),
        forall|k: int| 0 <= k < s.len() ==> (#[trigger] s[k]).start_date <= s[k].end_date,
    ensures
        sorted_by_start(bucket_of(s, day)),
        s.len() > 0 ==> forall|i: int|
            0 <= i < bucket_of(s, day).len() ==> (#[trigger] bucket_of(s, day)[i]).start_date
                <= max_instant(day_start(day), s.last().start_date),
    decreases s.len(),
{
    if s.len() > 0 {
        let s0 = s.drop_last();
        assert(sorted_by_start(s0));
        lemma_bucket_of_sorted(s0, day);
        let b0 = bucket_of(s0, day);
        let b = bucket_of(s, day);
        assert(b == b0 + frag_seq(s.last(), day));
        match frag_for_day(s.last(), day) {
            Some(f) => {
                lemma_frag_start(s.last(), day);
                assert(b.len() == b0.len() + 1);
                assert(b[b.len() - 1] == f);
                assert forall|i: int| 0 <= i < b0.len() implies (#[trigger] b0[i]).start_date
                    <= f.start_date by {
                    if s0.len() > 0 {
                        assert(s0.last().start_date <= s.last().start_date);
                    }
                }
                assert forall|i: int, j: int| 0 <= i < j < b.len() implies (
                #[trigger] b[i]).start_date <= (#[trigger] b[j]).start_date by {
                    if j < b.len() - 1 {
                        assert(b0[i].start_date <= b0[j].start_date);
                    } else {
                        assert(b[i] == b0[i]);
                    }
                }
            },
            None => {
                assert(b =~= b0);
                if s0.len() > 0 {
                    assert(s0.last().start_date <= s.last().start_date);
                }
            },
        }
    }
}

/// *Day-split conservation*: a record crossing midnight yields a head and
/// a tail fragment; neither runs backwards, and together they cover the
/// record's span except for the single second between 23:59:59 and the
/// following midnight.
pub proof fn lemma_day_split_conservation(rec: HistoryRecord)
    requires
        rec.start_date <= rec.end_date,
        day_of(rec.start_date) != day_of(rec.end_date),
    ensures
        frag_for_day(rec, day_of(rec.start_date)) is Some,
        frag_for_day(rec, (day_of(rec.start_date) + 1) as u64) is Some,
        frag_for_day(rec, day_of(rec.start_date))->Some_0.spec_duration() >= 0,
        frag_for_day(rec, (day_of(rec.start_date) + 1) as u64)->Some_0.spec_duration() >= 0,
        frag_for_day(rec, day_of(rec.start_date))->Some_0.spec_duration() + frag_for_day(
            rec,
            (day_of(rec.start_date) + 1) as u64,
        )->Some_0.spec_duration() + 1 == rec.spec_duration(),
{
    let d = day_of(rec.start_date);
    lemma_day_mono(rec.start_date, rec.end_date);
    lemma_day_bounds(rec.start_date);
    lemma_day_bounds(rec.end_date);
    assert(day_of(rec.end_date) >= d + 1);
    assert(day_of(rec.end_date) * SECS_PER_DAY >= (d + 1) * SECS_PER_DAY) by (nonlinear_arith)
        requires
            day_of(rec.end_date) >= d + 1,
    ;
    assert(rec.end_date >= (d + 1) * SECS_PER_DAY);
    assert(day_of(rec.start_date) + 1 != day_of(rec.start_date));
}

/// The history ledger. Records are never deleted; the reporting paths
/// never mutate it.
pub struct History {
    pub records: Vec<HistoryRecord>,
}

impl History {
    /// Ledger well-formedness; see [`wf_records`].
    pub open spec fn wf(&self) -> bool {
        wf_records(self.records@)
    }

    /// An empty ledger.
    pub fn new() -> (r: History)
        ensures
            r.records@ == Seq::<HistoryRecord>::empty(),
            r.wf(),
    {
        let r = History { records: Vec::new() };
        proof {
            assert(r.records@ =~= Seq::<HistoryRecord>::empty());
        }
        r
    }

    /// Whether the stored records satisfy the ledger invariant: unique
    /// ids, no interval running backwards.
    pub fn check_wf(&self) -> (r: bool)
        ensures
            r == self.wf(),
    {
        let mut i: usize = 0;
        while i < self.records.len()
            invariant
                i <= self.records@.len(),
                forall|a: int, b: int|
                    0 <= a < b < self.records@.len() && a < i ==> (
                    #[trigger] self.records@[a]).id != (#[trigger] self.records@[b]).id,
                forall|a: int| 0 <= a < i ==> (#[trigger] self.records@[a]).start_date
                    <= self.records@[a].end_date,
            decreases self.records@.len() - i,
        {
            if self.records[i].start_date > self.records[i].end_date {
                return false;
            }
            let mut j: usize = i + 1;
            while j < self.records.len()
                invariant
                    i < j,
                    j <= self.records@.len(),
                    i < self.records@.len(),
                    forall|b: int| i < b < j ==> (#[trigger] self.records@[b]).id
                        != self.records@[i as int].id,
                decreases self.records@.len() - j,
            {
                if self.records[j].id == self.records[i].id {
                    return false;
                }
                j += 1;
            }
            i += 1;
        }
        true
    }

    /// The position of the record carrying an id, if any.
    fn find_rec(&self, id: u64) -> (r: Option<usize>)
        ensures
            match r {
                Some(i) => i < self.records@.len() && self.records@[i as int].id == id,
                None => !has_rec(self.records@, id),
            },
    {
        let mut i: usize = 0;
        while i < self.records.len()
            invariant
                i <= self.records@.len(),
                forall|j: int| 0 <= j < i ==> (#[trigger] self.records@[j]).id != id,
            decreases self.records@.len() - i,
        {
            if self.records[i].id == id {
                return Some(i);
            }
            i += 1;
        }
        proof {
            if has_rec(self.records@, id) {
                let j = choose|j: int|
                    0 <= j < self.records@.len() && (#[trigger] self.records@[j]).id == id;
                assert(self.records@[j].id != id);
            }
        }
        None
    }

    /// Opens a new interval for the given triple: start and end both at
    /// the given instant, stored under a fresh random id, which is
    /// returned for the session tracker to hold.
    pub fn add_record(
        &mut self,
        project_id: u64,
        sub_project_id: u64,
        subject_id: u64,
        now: u64,
    ) -> (rid: u64)
        requires
            old(self).wf(),
        ensures
            final(self).records@ == put_record(
                old(self).records@,
                (HistoryRecord {
                    id: rid,
                    start_date: now,
                    end_date: now,
                    project_id,
                    sub_project_id,
                    subject_id,
                }),
            ),
            final(self).wf(),
    {
        let ghost pre = self.records@;
        let rid = fresh_id();
        let rec = HistoryRecord {
            id: rid,
            start_date: now,
            end_date: now,
            project_id,
            sub_project_id,
            subject_id,
        };
        match self.find_rec(rid) {
            Some(i) => {
                self.records[i] = rec;
                proof {
                    lemma_rec_index(pre, i as int, rid);
                    assert(self.records@ =~= put_record(pre, rec));
                }
            },
            None => {
                self.records.push(rec);
                proof {
                    assert(self.records@ =~= put_record(pre, rec));
                }
            },
        }
        proof {
            let post = self.records@;
            assert forall|a: int, b: int| 0 <= a < b < post.len() implies (
            #[trigger] post[a]).id != (#[trigger] post[b]).id by {}
            assert forall|a: int| 0 <= a < post.len() implies (#[trigger] post[a]).start_date
                <= post[a].end_date by {}
        }
        rid
    }

    /// Advances the end of the record with the given id to the given
    /// instant (never before the record's own start); a stale id is a
    /// silent no-op.
    pub fn update(&mut self, id: u64, now: u64)
        requires
            old(self).wf(),
        ensures
            final(self).records@ == touch_model(old(self).records@, id, now),
            final(self).wf(),
    {
        let ghost pre = self.records@;
        match self.find_rec(id) {
            Some(i) => {
                let r = self.records[i];
                let nr = HistoryRecord {
                    end_date: if now >= r.start_date {
                        now
                    } else {
                        r.start_date
                    },
                    ..r
                };
                self.records[i] = nr;
                proof {
                    lemma_rec_index(pre, i as int, id);
                    assert(self.records@ =~= touch_model(pre, id, now));
                }
            },
            None => {
                proof {
                    assert(self.records@ =~= touch_model(pre, id, now));
                }
            },
        }
        proof {
            let post = self.records@;
            assert forall|a: int, b: int| 0 <= a < b < post.len() implies (
            #[trigger] post[a]).id != (#[trigger] post[b]).id by {}
            assert forall|a: int| 0 <= a < post.len() implies (#[trigger] post[a]).start_date
                <= post[a].end_date by {}
        }
    }

    /// All records whose start falls in the half-open range `[from, to)`,
    /// in ledger order.
    pub fn get_records(&self, from: u64, to: u64) -> (r: Vec<HistoryRecord>)
        ensures
            r@ == records_in_range(self.records@, from, to),
    {
        let mut out: Vec<HistoryRecord> = Vec::new();
        let mut i: usize = 0;
        proof {
            assert(self.records@.take(0) =~= Seq::<HistoryRecord>::empty());
            assert(out@ =~= records_in_range(self.records@.take(0), from, to));
        }
        while i < self.records.len()
            invariant
                i <= self.records@.len(),
                out@ == records_in_range(self.records@.take(i as int), from, to),
            decreases self.records@.len() - i,
        {
            let rec = self.records[i];
            let ghost pre_out = out@;
            if from <= rec.start_date && rec.start_date < to {
                out.push(rec);
            }
            proof {
                let t1 = self.records@.take(i + 1);
                assert(t1.drop_last() =~= self.records@.take(i as int));
                assert(t1.last() == rec);
                if from <= rec.start_date && rec.start_date < to {
                    assert(out@ =~= records_in_range(t1.drop_last(), from, to) + seq![rec]);
                } else {
                    assert(out@ =~= records_in_range(t1.drop_last(), from, to) + Seq::<
                        HistoryRecord,
                    >::empty());
                }
            }
            i += 1;
        }
        proof {
            assert(self.records@.take(self.records@.len() as int) =~= self.records@);
        }
        out
    }

    /// The day-bucketed report over the inclusive range `[from, to]`: one
    /// bucket per calendar day of the range; every in-range record lands
    /// in the bucket of its start day, records crossing midnight are split
    /// (see [`frag_for_day`]), and each bucket comes out ascending by
    /// start.
    pub fn get_ordered_records(&self, from: u64, to: u64) -> (r: Vec<Vec<HistoryRecord>>)
        requires
            from <= to,
            self.wf(),
            day_of(to) - day_of(from) < usize::MAX,
        ensures
            r@.len() == day_of(to) - day_of(from) + 1,
            forall|d: int| 0 <= d < r@.len() ==> sorted_by_start((#[trigger] r@[d])@),
            forall|d: int|
                0 <= d < r@.len() ==> all_start_on_day((#[trigger] r@[d])@, (day_of(from)
                    + d) as u64),
            exists|s: Seq<HistoryRecord>|
                #[trigger] day_partition(self.records@, from, to, s, r@),
    {
        proof {
            lemma_day_mono(from, to);
        }
        let nb: usize = ((to / SECS_PER_DAY) - (from / SECS_PER_DAY) + 1) as usize;
        let mut res: Vec<Vec<HistoryRecord>> = Vec::new();
        while res.len() < nb
            invariant
                res@.len() <= nb,
                forall|d: int| 0 <= d < res@.len() ==> (#[trigger] res@[d])@ == Seq::<
                    HistoryRecord,
                >::empty(),
            decreases nb - res@.len(),
        {
            let b: Vec<HistoryRecord> = Vec::new();
            proof {
                assert(b@ =~= Seq::<HistoryRecord>::empty());
            }
            res.push(b);
        }
        let mut kept: Vec<HistoryRecord> = Vec::new();
        let mut i: usize = 0;
        proof {
            assert(self.records@.take(0) =~= Seq::<HistoryRecord>::empty());
            assert(kept@ =~= report_records(self.records@.take(0), from, to));
        }
        while i < self.records.len()
            invariant
                i <= self.records@.len(),
                self.wf(),
                kept@ == report_records(self.records@.take(i as int), from, to),
                forall|k: int|
                    0 <= k < kept@.len() ==> in_report_range(#[trigger] kept@[k], from, to)
                        && kept@[k].start_date <= kept@[k].end_date,
            decreases self.records@.len() - i,
        {
            let rec = self.records[i];
            if from <= rec.start_date && rec.start_date <= to {
                kept.push(rec);
            }
            proof {
                let t1 = self.records@.take(i + 1);
                assert(t1.drop_last() =~= self.records@.take(i as int));
                assert(t1.last() == rec);
                if from <= rec.start_date && rec.start_date <= to {
                    assert(kept@ =~= report_records(t1.drop_last(), from, to) + seq![rec]);
                } else {
                    assert(kept@ =~= report_records(t1.drop_last(), from, to) + Seq::<
                        HistoryRecord,
                    >::empty());
                }
            }
            i += 1;
        }
        proof {
            assert(self.records@.take(self.records@.len() as int) =~= self.records@);
        }
        let sorted = sort_items(kept);
        proof {
            broadcast use vstd::seq_lib::group_to_multiset_ensures;

            assert(views_of(sorted@) =~= sorted@);
            assert(views_of(kept@) =~= kept@);
            assert(sorted_by_start(sorted@)) by {
                assert forall|a: int, b: int| 0 <= a < b < sorted@.len() implies (
                #[trigger] sorted@[a]).start_date <= (#[trigger] sorted@[b]).start_date by {
                    assert(HistoryRecord::view_key(views_of(sorted@)[a]) <= HistoryRecord::view_key(
                        views_of(sorted@)[b],
                    ));
                }
            }
            assert forall|k: int| 0 <= k < sorted@.len() implies in_report_range(
                #[trigger] sorted@[k],
                from,
                to,
            ) && sorted@[k].start_date <= sorted@[k].end_date by {
                assert(sorted@.to_multiset().contains(sorted@[k]));
                assert(kept@.to_multiset().contains(sorted@[k]));
                assert(kept@.contains(sorted@[k]));
                let n = choose|n: int| 0 <= n < kept@.len() && kept@[n] == sorted@[k];
                assert(in_report_range(kept@[n], from, to));
            }
        }
        let mut j: usize = 0;
        proof {
            assert forall|d: int| 0 <= d < res@.len() implies (#[trigger] res@[d])@ == bucket_of(
                sorted@.take(0),
                (day_of(from) + d) as u64,
            ) by {
                assert(sorted@.take(0) =~= Seq::<HistoryRecord>::empty());
            }
        }
        while j < sorted.len()
            invariant
                j <= sorted@.len(),
                res@.len() == nb,
                nb == day_of(to) - day_of(from) + 1,
                from <= to,
                sorted_by_start(sorted@),
                forall|k: int|
                    0 <= k < sorted@.len() ==> in_report_range(#[trigger] sorted@[k], from, to)
                        && sorted@[k].start_date <= sorted@[k].end_date,
                forall|d: int| 0 <= d < nb ==> (#[trigger] res@[d])@ == bucket_of(
                    sorted@.take(j as int),
                    (day_of(from) + d) as u64,
                ),
            decreases sorted@.len() - j,
        {
            let rec = sorted[j];
            proof {
                lemma_day_mono(from, rec.start_date);
                lemma_day_mono(rec.start_date, to);
                lemma_day_bounds(rec.start_date);
            }
            let ind: usize = ((rec.start_date / SECS_PER_DAY) - (from / SECS_PER_DAY)) as usize;
            let ghost day = day_of(rec.start_date);
            let ghost pre_res = res@;
            if rec.start_date / SECS_PER_DAY != rec.end_date / SECS_PER_DAY {
                proof {
                    lemma_day_mono(rec.start_date, rec.end_date);
                    lemma_day_bounds(rec.end_date);
                    assert(day_of(rec.end_date) * SECS_PER_DAY >= (day + 1) * SECS_PER_DAY)
                        by (nonlinear_arith)
                        requires
                            day_of(rec.end_date) >= day + 1,
                    ;
                }
                let ds = (rec.start_date / SECS_PER_DAY) * SECS_PER_DAY;
                let first = HistoryRecord { end_date: ds + (SECS_PER_DAY - 1), ..rec };
                res[ind].push(first);
                if ind + 1 < nb {
                    let second = HistoryRecord { start_date: ds + SECS_PER_DAY, ..rec };
                    res[ind + 1].push(second);
                }
            } else {
                res[ind].push(rec);
            }
            proof {
                assert(sorted@.take(j + 1).drop_last() =~= sorted@.take(j as int));
                assert(sorted@.take(j + 1).last() == rec);
                assert forall|d: int| 0 <= d < nb implies (#[trigger] res@[d])@ == bucket_of(
                    sorted@.take(j + 1),
                    (day_of(from) + d) as u64,
                ) by {
                    let dd = (day_of(from) + d) as u64;
                    assert(bucket_of(sorted@.take(j + 1), dd) == bucket_of(
                        sorted@.take(j as int),
                        dd,
                    ) + frag_seq(rec, dd));
                    if dd == day {
                        assert(d == ind);
                        assert(res@[d]@ =~= pre_res[d]@ + frag_seq(rec, dd));
                    } else if dd == day + 1 && day_of(rec.end_date) != day {
                        assert(d == ind + 1);
                        assert(res@[d]@ =~= pre_res[d]@ + frag_seq(rec, dd));
                    } else {
                        assert(frag_for_day(rec, dd) is None);
                        assert(res@[d]@ =~= pre_res[d]@ + frag_seq(rec, dd));
                    }
                }
            }
            j += 1;
        }
        proof {
            assert(sorted@.take(sorted@.len() as int) =~= sorted@);
            assert(day_partition(self.records@, from, to, sorted@, res@));
            assert forall|d: int| 0 <= d < res@.len() implies sorted_by_start(
                (#[trigger] res@[d])@,
            ) by {
                lemma_bucket_of_sorted(sorted@, (day_of(from) + d) as u64);
            }
            assert forall|d: int| 0 <= d < res@.len() implies all_start_on_day(
                (#[trigger] res@[d])@,
                (day_of(from) + d) as u64,
            ) by {
                lemma_bucket_of_days(sorted@, (day_of(from) + d) as u64);
            }
        }
        res
    }
}

} // verus!
