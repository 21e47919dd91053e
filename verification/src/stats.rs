//! The durable per-day trigger ledger: counting with day rollover, the
//! Monday-to-Sunday week windows with their twelve-week horizon, and the
//! laws that no trigger is lost or doubled and that no window ever shows a
//! day still in progress.

use vstd::prelude::*;
use vstd::arithmetic::div_mod::lemma_mod_multiples_vanish;
use vstd::string::StringExecFns;
use crate::date::{
    Date, date_chars, date_le, date_lt, date_ord, date_string, days_from_monday, date_minus,
    date_plus, current_date, spec_days_from_monday, spec_minus, spec_plus,
    lemma_plus_after_minus, lemma_minus_valid, lemma_plus_valid, lemma_weekday_minus,
    lemma_weekday_plus,
};

verus! {

/// One stored day of the ledger: the calendar day and its trigger count.
#[derive(Clone, Copy, PartialEq, Eq, Structural, Debug)]
pub struct DayEntry {
    pub date: Date,
    pub count: u32,
}

/// A day's statistics as handed to callers: the day rendered `YYYY-MM-DD`
/// and how many triggers it saw.
#[derive(Clone, Debug)]
pub struct DailyStats {
    pub date: String,
    pub trigger_count: u32,
}

impl DailyStats {
    pub fn new(date: String) -> (s: Self)
        ensures
            s.date == date,
            s.trigger_count == 0,
    {
        Self { date, trigger_count: 0 }
    }
}

#[derive(Debug)]
pub struct TodayStatsResponse {
    pub date: String,
    pub trigger_count: u32,
}

#[derive(Debug)]
pub struct WeekStatsResponse {
    pub week_label: String,
    pub week_start: String,
    pub week_end: String,
    pub days: Vec<Option<DailyStats>>,
    pub can_go_next: bool,
    pub can_go_prev: bool,
}

#[derive(Clone, Copy, PartialEq, Eq, Structural, Debug)]
pub enum WeekStatsError {
    /// The requested week lies in the future.
    FutureWeekRequested,
    /// The requested week lies beyond the twelve-week retention horizon.
    WindowExceeded,
}

impl WeekStatsError {
    pub fn message(&self) -> (r: String)
        ensures
            *self == WeekStatsError::FutureWeekRequested ==> r@ == "cannot view a future week"@,
            *self == WeekStatsError::WindowExceeded ==> r@ == "can look back at most 12 weeks"@,
    {
        match self {
            WeekStatsError::FutureWeekRequested => String::from_str("cannot view a future week"),
            WeekStatsError::WindowExceeded => String::from_str("can look back at most 12 weeks"),
        }
    }
}

/// The trigger count that a ledger holds for day `d`: the count of the first
/// entry for `d`, or zero when no entry exists.
pub open spec fn spec_count(s: Seq<DayEntry>, d: Date) -> u32
    decreases s.len(),
{
    if s.len() == 0 {
        0u32
    } else if s[0].date == d {
        s[0].count
    } else {
        spec_count(s.drop_first(), d)
    }
}

pub open spec fn spec_has(s: Seq<DayEntry>, d: Date) -> bool {
    exists|i: int| 0 <= i < s.len() && s[i].date == d
}

/// Ledger well-formedness: every stored day is a valid date, and no day is
/// stored twice.
pub open spec fn entries_wf(s: Seq<DayEntry>) -> bool {
    &&& forall|i: int| 0 <= i < s.len() ==> (#[trigger] s[i]).date.valid()
    &&& forall|i: int, j: int|
        0 <= i < j < s.len() ==> (#[trigger] s[i]).date != (#[trigger] s[j]).date
}

pub proof fn lemma_spec_count_found(s: Seq<DayEntry>, i: int)
    requires
        0 <= i < s.len(),
        forall|j: int| 0 <= j < i ==> (#[trigger] s[j]).date != s[i].date,
    ensures
        spec_count(s, s[i].date) == s[i].count,
    decreases i,
{
    if i > 0 {
        lemma_spec_count_found(s.drop_first(), i - 1);
    }
}

pub proof fn lemma_spec_count_absent(s: Seq<DayEntry>, d: Date)
    requires
        forall|j: int| 0 <= j < s.len() ==> (#[trigger] s[j]).date != d,
    ensures
        spec_count(s, d) == 0,
    decreases s.len(),
{
    if s.len() > 0 {
        lemma_spec_count_absent(s.drop_first(), d);
    }
}

pub proof fn lemma_count_push(s: Seq<DayEntry>, e: DayEntry, d: Date)
    ensures
        spec_count(s.push(e), d) == if spec_has(s, d) {
            spec_count(s, d)
        } else if e.date == d {
            e.count
        } else {
            0u32
        },
    decreases s.len(),
{
    if s.len() == 0 {
        assert(s.push(e)[0] == e);
        assert(s.push(e).drop_first() =~= Seq::<DayEntry>::empty());
        assert(!spec_has(s, d));
        if e.date == d {
            assert(spec_count(s.push(e), d) == e.count);
        } else {
            assert(spec_count(s.push(e), d) == spec_count(s.push(e).drop_first(), d));
            assert(spec_count(s.push(e), d) == 0);
        }
    } else {
        let t = s.drop_first();
        assert(s.push(e)[0] == s[0]);
        assert(s.push(e).drop_first() =~= t.push(e));
        lemma_count_push(t, e, d);
        if s[0].date == d {
            assert(0 <= 0 < s.len() && s[0].date == d);
            assert(spec_has(s, d));
            assert(spec_count(s.push(e), d) == s[0].count);
            assert(spec_count(s, d) == s[0].count);
        } else {
            assert(spec_count(s.push(e), d) == spec_count(t.push(e), d));
            if spec_has(t, d) {
                let w = choose|i: int| 0 <= i < t.len() && t[i].date == d;
                assert(s[w + 1].date == d);
                assert(spec_has(s, d));
            } else {
                if spec_has(s, d) {
                    let w = choose|i: int| 0 <= i < s.len() && s[i].date == d;
                    assert(w != 0);
                    assert(t[w - 1].date == d);
                    assert(false);
                }
            }
        }
    }
}

pub proof fn lemma_count_update(s: Seq<DayEntry>, i: int, e: DayEntry, d: Date)
    requires
        0 <= i < s.len(),
        e.date == s[i].date,
        forall|j: int| 0 <= j < s.len() && j != i ==> (#[trigger] s[j]).date != s[i].date,
    ensures
        spec_count(s.update(i, e), d) == if d == e.date {
            e.count
        } else {
            spec_count(s, d)
        },
    decreases s.len(),
{
    let s2 = s.update(i, e);
    if i == 0 {
        assert(s2[0] == e);
        if d != e.date {
            assert(s2.drop_first() =~= s.drop_first());
        }
    } else {
        assert(s2[0] == s[0]);
        assert(s2.drop_first() =~= s.drop_first().update(i - 1, e));
        lemma_count_update(s.drop_first(), i - 1, e, d);
    }
}

/// The ledger after one more trigger on day `d`: the first entry for `d` is
/// raised by one, or a fresh entry with count one is appended.
pub open spec fn spec_bump(s: Seq<DayEntry>, d: Date) -> Seq<DayEntry> {
    if spec_has(s, d) {
        let i = choose|i: int| 0 <= i < s.len() && s[i].date == d;
        s.update(i, DayEntry { date: d, count: (spec_count(s, d) + 1) as u32 })
    } else {
        s.push(DayEntry { date: d, count: 1u32 })
    }
}

pub proof fn lemma_bump(s: Seq<DayEntry>, d: Date)
    requires
        entries_wf(s),
        d.valid(),
        spec_count(s, d) < u32::MAX,
    ensures
        entries_wf(spec_bump(s, d)),
        spec_count(spec_bump(s, d), d) == spec_count(s, d) + 1,
        forall|d2: Date| d2 != d ==> spec_count(spec_bump(s, d), d2) == spec_count(s, d2),
        spec_has(spec_bump(s, d), d),
{
    let b = spec_bump(s, d);
    if spec_has(s, d) {
        let i = choose|i: int| 0 <= i < s.len() && s[i].date == d;
        assert forall|j: int| 0 <= j < s.len() && j != i implies (#[trigger] s[j]).date
            != s[i].date by {
            if j < i {
                assert(s[j].date != s[i].date);
            } else {
                assert(s[i].date != s[j].date);
            }
        }
        lemma_spec_count_found(s, i);
        let e = DayEntry { date: d, count: (spec_count(s, d) + 1) as u32 };
        assert forall|d2: Date| d2 != d implies spec_count(b, d2) == spec_count(s, d2) by {
            lemma_count_update(s, i, e, d2);
        }
        lemma_count_update(s, i, e, d);
        assert(b[i].date == d);
    } else {
        let e = DayEntry { date: d, count: 1u32 };
        assert(forall|j: int| 0 <= j < s.len() ==> (#[trigger] s[j]).date != d);
        lemma_spec_count_absent(s, d);
        lemma_count_push(s, e, d);
        assert forall|d2: Date| d2 != d implies spec_count(b, d2) == spec_count(s, d2) by {
            lemma_count_push(s, e, d2);
            if !spec_has(s, d2) {
                assert(forall|j: int| 0 <= j < s.len() ==> (#[trigger] s[j]).date != d2);
                lemma_spec_count_absent(s, d2);
            }
        }
        assert(b[s.len() as int].date == d);
    }
}

/// The durable per-day trigger ledger together with the cached current day.
/// Entries are kept in one flat vector with at most one entry per day; the
/// surrounding application persists the rendered ledger after each mutation.
pub struct StatsManager {
    pub data: Vec<DayEntry>,
    pub current_date: Date,
}

/// What a clock-driven rollover did: some valid day `now` was read from
/// the clock and the cached current day became exactly that day, with the
/// ledger untouched.
pub open spec fn rolled_to(pre: StatsManager, post: StatsManager, now: Date) -> bool {
    &&& now.valid()
    &&& 2 <= now.year <= 9998
    &&& post.current_date == now
    &&& post.data@ == pre.data@
}

/// What one clock-driven trigger recording did: some valid day `d` was read
/// from the clock; if its count had room the ledger was bumped for `d` and
/// the cached day rolled to `d`, otherwise nothing changed.
pub open spec fn trigger_outcome(
    pre: StatsManager,
    post: StatsManager,
    d: Date,
    r: u32,
) -> bool {
    &&& d.valid()
    &&& if spec_count(pre.data@, d) < u32::MAX {
        &&& post.current_date == d
        &&& post.data@ == spec_bump(pre.data@, d)
        &&& r == spec_count(pre.data@, d) + 1
    } else {
        &&& post == pre
        &&& r == u32::MAX
    }
}

impl StatsManager {
    pub open spec fn wf(self) -> bool {
        &&& entries_wf(self.data@)
        &&& self.current_date.valid()
    }

    /// A fresh, empty ledger whose cached day is today's local date.
    pub fn new() -> (m: StatsManager)
        ensures
            m.wf(),
            m.data@.len() == 0,
            2 <= m.current_date.year <= 9998,
    {
        StatsManager { data: Vec::new(), current_date: current_date() }
    }

    fn find_day(&self, d: Date) -> (r: Option<usize>)
        ensures
            r matches Some(i) ==> i < self.data@.len() && self.data@[i as int].date == d
                && forall|j: int| 0 <= j < i ==> (#[trigger] self.data@[j]).date != d,
            r is None ==> forall|j: int|
                0 <= j < self.data@.len() ==> (#[trigger] self.data@[j]).date != d,
    {
        let mut i: usize = 0;
        while i < self.data.len()
            invariant
                i <= self.data@.len(),
                forall|j: int| 0 <= j < i ==> (#[trigger] self.data@[j]).date != d,
            decreases self.data@.len() - i,
        {
            if self.data[i].date == d {
                return Some(i);
            }
            i = i + 1;
        }
        None
    }

    /// The trigger count stored for day `d`, zero when the day is absent.
    pub fn trigger_count_on(&self, d: Date) -> (r: u32)
        ensures
            r == spec_count(self.data@, d),
    {
        match self.find_day(d) {
            Some(i) => {
                proof {
                    lemma_spec_count_found(self.data@, i as int);
                }
                self.data[i].count
            }
            None => {
                proof {
                    lemma_spec_count_absent(self.data@, d);
                }
                0
            }
        }
    }

    /// Record one trigger on the given day: the cached day rolls over to it
    /// and its count rises by exactly one, with a zero-initialised entry
    /// created on a day's first trigger. Every other day is untouched.
    pub fn add_trigger_on(&mut self, today: Date)
        requires
            old(self).wf(),
            today.valid(),
            spec_count(old(self).data@, today) < u32::MAX,
        ensures
            final(self).wf(),
            final(self).current_date == today,
            final(self).data@ == spec_bump(old(self).data@, today),
            spec_count(final(self).data@, today) == spec_count(old(self).data@, today) + 1,
            forall|d: Date|
                d != today ==> spec_count(final(self).data@, d) == spec_count(old(self).data@, d),
    {
        proof {
            lemma_bump(old(self).data@, today);
        }
        self.current_date = today;
        match self.find_day(today) {
            Some(i) => {
                proof {
                    lemma_spec_count_found(self.data@, i as int);
                    let ci = choose|ci: int|
                        0 <= ci < self.data@.len() && self.data@[ci].date == today;
                    assert(ci == i);
                }
                let c = self.data[i].count;
                self.data[i] = DayEntry { date: today, count: c + 1 };
                proof {
                    assert(self.data@ =~= spec_bump(old(self).data@, today));
                }
            }
            None => {
                self.data.push(DayEntry { date: today, count: 1 });
                proof {
                    assert(!spec_has(old(self).data@, today));
                    assert(self.data@ =~= spec_bump(old(self).data@, today));
                }
            }
        }
    }

    /// Roll the cached current day over to the given day. The ledger itself
    /// is untouched: a rollover only moves the cached date, it migrates and
    /// deletes nothing — each day is an independent record.
    pub fn roll_to(&mut self, now: Date)
        requires
            old(self).wf(),
            now.valid(),
        ensures
            final(self).wf(),
            final(self).data@ == old(self).data@,
            final(self).current_date == now,
    {
        if !(now == self.current_date) {
            self.current_date = now;
        }
    }

    /// Roll the cached current day over to the clock's date when the
    /// calendar day has changed since the last operation: afterwards the
    /// cached day is the local calendar date, whatever it was before, and
    /// the ledger is untouched.
    pub fn check_date_change(&mut self)
        requires
            old(self).wf(),
        ensures
            final(self).wf(),
            final(self).data@ == old(self).data@,
            2 <= final(self).current_date.year <= 9998,
            exists|now: Date| #[trigger] rolled_to(*old(self), *final(self), now),
    {
        let now = current_date();
        self.roll_to(now);
        proof {
            assert(rolled_to(*old(self), *self, now));
        }
    }

    /// Record one trigger against today's local date, rolling the day over
    /// first, and hand back the day's new count. The in-memory ledger is
    /// updated before any attempt to persist it, so a failed save never
    /// loses the count.
    pub fn add_trigger(&mut self) -> (r: u32)
        requires
            old(self).wf(),
        ensures
            final(self).wf(),
            exists|d: Date| #[trigger] trigger_outcome(*old(self), *final(self), d, r),
    {
        let d = current_date();
        let c = self.trigger_count_on(d);
        if c < u32::MAX {
            self.add_trigger_on(d);
            proof {
                assert(trigger_outcome(*old(self), *self, d, (c + 1) as u32));
            }
            c + 1
        } else {
            proof {
                assert(trigger_outcome(*old(self), *self, d, u32::MAX));
            }
            u32::MAX
        }
    }

    /// Today's statistics under the cached current day: the stored count, or
    /// a zero count when today has no record yet.
    pub fn get_today_stats(&self) -> (r: TodayStatsResponse)
        requires
            self.wf(),
        ensures
            r.date@ == date_chars(self.current_date),
            r.trigger_count == spec_count(self.data@, self.current_date),
    {
        TodayStatsResponse {
            date: date_string(self.current_date),
            trigger_count: self.trigger_count_on(self.current_date),
        }
    }

    /// The Monday-to-Sunday window `week_offset` whole weeks before today's
    /// week, queried against the clock. The offset checks do not depend on
    /// the clock: a positive offset always fails as a future week, one below
    /// -11 always exceeds the window, and everything between succeeds.
    pub fn get_week_stats(&self, week_offset: i32) -> (r: Result<
        WeekStatsResponse,
        WeekStatsError,
    >)
        requires
            self.wf(),
        ensures
            r is Err <==> !(-11 <= week_offset <= 0),
            week_offset > 0 ==> (r matches Err(e) && e == WeekStatsError::FutureWeekRequested),
            week_offset < -11 ==> (r matches Err(e) && e == WeekStatsError::WindowExceeded),
            r matches Ok(w) ==> exists|today: Date|
                {
                    &&& today.valid()
                    &&& 2 <= today.year <= 9998
                    &&& #[trigger] week_ok(*self, today, week_offset as int, w)
                },
    {
        let today = current_date();
        self.get_week_stats_on(today, week_offset)
    }

    /// As `get_week_stats`, for an explicitly given today. Exactly seven
    /// slots come back, Monday first; a slot on or after `today` is `None`
    /// even when a record exists for it, a slot before `today` carries the
    /// stored record, or `None` when the day was never recorded.
    pub fn get_week_stats_on(&self, today: Date, week_offset: i32) -> (r: Result<
        WeekStatsResponse,
        WeekStatsError,
    >)
        requires
            self.wf(),
            today.valid(),
            2 <= today.year <= 9998,
        ensures
            r is Err <==> !(-11 <= week_offset <= 0),
            week_offset > 0 ==> (r matches Err(e) && e == WeekStatsError::FutureWeekRequested),
            week_offset < -11 ==> (r matches Err(e) && e == WeekStatsError::WindowExceeded),
            r matches Ok(w) ==> week_ok(*self, today, week_offset as int, w),
    {
        if week_offset > 0 {
            return Err(WeekStatsError::FutureWeekRequested);
        }
        if week_offset < -11 {
            return Err(WeekStatsError::WindowExceeded);
        }
        let k: u32 = (-week_offset) as u32;
        let dsm: u32 = days_from_monday(today);
        let delta: u32 = dsm + 7 * k;
        proof {
            assert(date_ord(today) > 404 + 4 * delta);
            assert(delta == spec_week_delta(today, week_offset as int));
        }
        let monday = date_minus(today, delta);
        let sunday = date_plus(monday, 6);
        let mut days: Vec<Option<DailyStats>> = Vec::new();
        let mut i: u32 = 0;
        while i < 7
            invariant
                i <= 7,
                self.wf(),
                today.valid(),
                2 <= today.year <= 9998,
                -11 <= week_offset <= 0,
                monday == spec_week_monday(today, week_offset as int),
                monday.valid(),
                monday.year <= 9998,
                days@.len() == i,
                forall|j: int|
                    0 <= j < i ==> slot_matches(
                        *self,
                        today,
                        week_offset as int,
                        j,
                        #[trigger] days@[j],
                    ),
            decreases 7 - i,
        {
            let slot = date_plus(monday, i);
            if date_le_of(today, slot) {
                days.push(None);
            } else {
                match self.find_day(slot) {
                    Some(idx) => {
                        proof {
                            lemma_spec_count_found(self.data@, idx as int);
                        }
                        days.push(
                            Some(
                                DailyStats {
                                    date: date_string(slot),
                                    trigger_count: self.data[idx].count,
                                },
                            ),
                        );
                    }
                    None => {
                        proof {
                            lemma_spec_count_absent(self.data@, slot);
                        }
                        days.push(None);
                    }
                }
            }
            i = i + 1;
        }
        Ok(
            WeekStatsResponse {
                week_label: week_label(week_offset),
                week_start: date_string(monday),
                week_end: date_string(sunday),
                days,
                can_go_next: week_offset < 0,
                can_go_prev: week_offset > -11,
            },
        )
    }
}

pub fn date_le_of(a: Date, b: Date) -> (r: bool)
    ensures
        r == date_le(a, b),
{
    a.year < b.year || (a.year == b.year && a.month < b.month) || (a.year == b.year && a.month
        == b.month && a.day <= b.day)
}

/// How many days before today the Monday of the requested week lies.
pub open spec fn spec_week_delta(today: Date, off: int) -> int {
    spec_days_from_monday(today) + 7 * (-off)
}

pub open spec fn spec_week_monday(today: Date, off: int) -> Date {
    spec_minus(today, spec_week_delta(today, off) as nat)
}

pub open spec fn spec_week_slot(today: Date, off: int, i: int) -> Date {
    spec_plus(spec_week_monday(today, off), i as nat)
}

/// What one slot of a week window must hold: nothing for today or a later
/// day, the stored record for an earlier recorded day, nothing otherwise.
pub open spec fn slot_matches(
    m: StatsManager,
    today: Date,
    off: int,
    i: int,
    v: Option<DailyStats>,
) -> bool {
    let slot = spec_week_slot(today, off, i);
    if date_le(today, slot) {
        v is None
    } else if spec_has(m.data@, slot) {
        v matches Some(s) && s.date@ == date_chars(slot) && s.trigger_count == spec_count(
            m.data@,
            slot,
        )
    } else {
        v is None
    }
}

pub open spec fn spec_week_label(off: int) -> Seq<char> {
    if off == 0 {
        "this week"@
    } else if off == -1 {
        "last week"@
    } else if off == -2 {
        "2 weeks ago"@
    } else if off == -3 {
        "3 weeks ago"@
    } else if off == -4 {
        "4 weeks ago"@
    } else if off == -5 {
        "5 weeks ago"@
    } else if off == -6 {
        "6 weeks ago"@
    } else if off == -7 {
        "7 weeks ago"@
    } else if off == -8 {
        "8 weeks ago"@
    } else if off == -9 {
        "9 weeks ago"@
    } else if off == -10 {
        "10 weeks ago"@
    } else {
        "11 weeks ago"@
    }
}

fn week_label(off: i32) -> (r: String)
    requires
        -11 <= off <= 0,
    ensures
        r@ == spec_week_label(off as int),
{
    if off == 0 {
        String::from_str("this week")
    } else if off == -1 {
        String::from_str("last week")
    } else if off == -2 {
        String::from_str("2 weeks ago")
    } else if off == -3 {
        String::from_str("3 weeks ago")
    } else if off == -4 {
        String::from_str("4 weeks ago")
    } else if off == -5 {
        String::from_str("5 weeks ago")
    } else if off == -6 {
        String::from_str("6 weeks ago")
    } else if off == -7 {
        String::from_str("7 weeks ago")
    } else if off == -8 {
        String::from_str("8 weeks ago")
    } else if off == -9 {
        String::from_str("9 weeks ago")
    } else if off == -10 {
        String::from_str("10 weeks ago")
    } else {
        String::from_str("11 weeks ago")
    }
}

/// The ledger after `n` triggers recorded on one and the same day `d`.
pub open spec fn spec_bump_n(s: Seq<DayEntry>, d: Date, n: nat) -> Seq<DayEntry>
    decreases n,
{
    if n == 0 {
        s
    } else {
        spec_bump(spec_bump_n(s, d, (n - 1) as nat), d)
    }
}

/// Recording `n` triggers on one calendar day raises that day's count by
/// exactly `n` — no update is lost and none is doubled — and leaves every
/// other day's count untouched. Callers that share one ledger behind a lock
/// therefore see exactly one increment per recorded trigger, however the
/// calls interleave: each call works on the ledger through exclusive access.
pub proof fn lemma_triggers_accumulate(s: Seq<DayEntry>, d: Date, n: nat)
    requires
        entries_wf(s),
        d.valid(),
        spec_count(s, d) + n <= u32::MAX,
    ensures
        entries_wf(spec_bump_n(s, d, n)),
        spec_count(spec_bump_n(s, d, n), d) == spec_count(s, d) + n,
        forall|d2: Date| d2 != d ==> spec_count(spec_bump_n(s, d, n), d2) == spec_count(s, d2),
    decreases n,
{
    if n > 0 {
        lemma_triggers_accumulate(s, d, (n - 1) as nat);
        lemma_bump(spec_bump_n(s, d, (n - 1) as nat), d);
    }
}

/// A trigger on a fresh day starts that day's record at one and leaves any
/// earlier day's record at its last value.
pub proof fn lemma_day_rollover(s: Seq<DayEntry>, prior: Date, next: Date)
    requires
        entries_wf(s),
        next.valid(),
        prior != next,
        !spec_has(s, next),
    ensures
        spec_count(spec_bump(s, next), next) == 1,
        spec_count(spec_bump(s, next), prior) == spec_count(s, prior),
{
    assert(forall|j: int| 0 <= j < s.len() ==> (#[trigger] s[j]).date != next);
    lemma_spec_count_absent(s, next);
    lemma_bump(s, next);
}

/// The current week's window never shows today's record: the slot that
/// falls on today's date is empty, and no other of the seven slots lies on
/// today's date at all.
pub proof fn lemma_current_week_excludes_today(
    m: StatsManager,
    today: Date,
    w: WeekStatsResponse,
)
    requires
        m.wf(),
        today.valid(),
        2 <= today.year <= 9998,
        week_ok(m, today, 0, w),
    ensures
        0 <= spec_days_from_monday(today) <= 6,
        spec_week_slot(today, 0, spec_days_from_monday(today)) == today,
        w.days@[spec_days_from_monday(today)] is None,
        forall|i: int|
            0 <= i < 7 && i != spec_days_from_monday(today) ==> spec_week_slot(today, 0, i)
                != today,
{
    let dsm = spec_days_from_monday(today);
    let monday = spec_week_monday(today, 0);
    assert(spec_week_delta(today, 0) == dsm);
    assert(date_ord(today) > 404 + 4 * dsm);
    lemma_plus_after_minus(today, dsm as nat, dsm as nat);
    assert(spec_week_slot(today, 0, dsm) == today);
    assert(slot_matches(m, today, 0, dsm, w.days@[dsm]));
    assert(w.days@[dsm] is None);
    assert forall|i: int|
        0 <= i < 7 && i != dsm implies spec_week_slot(today, 0, i) != today by {
        if i < dsm {
            lemma_plus_after_minus(today, dsm as nat, i as nat);
            lemma_minus_valid(today, (dsm - i) as nat);
            assert(date_lt(spec_week_slot(today, 0, i), today));
        } else {
            crate::date::lemma_plus_add(monday, dsm as nat, (i - dsm) as nat);
            assert(spec_week_slot(today, 0, i) == spec_plus(today, (i - dsm) as nat));
            lemma_plus_valid(today, (i - dsm) as nat);
            assert(date_lt(today, spec_week_slot(today, 0, i)));
        }
    }
}

/// Alignment law: every window the store hands out runs Monday to Sunday.
/// Slot `i` of any week window falls on the `i`-th day after a Monday, so
/// the first slot is always a Monday and the last always a Sunday, for
/// every today and every offset the store accepts.
pub proof fn lemma_week_slots_align(today: Date, off: int)
    requires
        today.valid(),
        2 <= today.year <= 9998,
        -11 <= off <= 0,
    ensures
        forall|i: int|
            0 <= i < 7 ==> spec_days_from_monday(#[trigger] spec_week_slot(today, off, i)) == i,
{
    let dsm = spec_days_from_monday(today);
    assert(0 <= dsm < 7);
    let delta = spec_week_delta(today, off);
    assert(delta <= 83);
    assert(date_ord(today) > 404 + 4 * delta);
    lemma_weekday_minus(today, delta as nat);
    let monday = spec_week_monday(today, off);
    assert(dsm - delta == 7 * off);
    lemma_mod_multiples_vanish(off, 0, 7);
    assert(spec_days_from_monday(monday) == 0);
    lemma_minus_valid(today, delta as nat);
    assert(monday.year <= 9998);
    assert forall|i: int|
        0 <= i < 7 implies spec_days_from_monday(spec_week_slot(today, off, i)) == i by {
        lemma_weekday_plus(monday, i as nat);
    }
}

/// What a well-formed week window response states, slot by slot.
pub open spec fn week_ok(m: StatsManager, today: Date, off: int, w: WeekStatsResponse) -> bool {
    let monday = spec_week_monday(today, off);
    &&& w.week_start@ == date_chars(monday)
    &&& w.week_end@ == date_chars(spec_plus(monday, 6))
    &&& w.week_label@ == spec_week_label(off)
    &&& w.can_go_next == (off < 0)
    &&& w.can_go_prev == (off > -11)
    &&& w.days@.len() == 7
    &&& forall|i: int| 0 <= i < 7 ==> slot_matches(m, today, off, i, #[trigger] w.days@[i])
}

} // verus!
