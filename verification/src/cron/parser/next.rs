//! The next time at which a [`CronTime`] lets a job run.

use vstd::prelude::*;

use super::{numbered_allowed, weekday_allowed, CronSection, CronSectionView, CronTime, CronTimeView};
use crate::cron::civil::{date_add_one_day, date_weekday, Date, DateTime, Time};

verus! {

/// `a` is a multiple of `n`; zero is the only multiple of zero, as
/// `is_multiple_of` counts.
pub open spec fn multiple_of(a: int, n: int) -> bool {
    if n == 0 {
        a == 0
    } else {
        a % n == 0
    }
}

/// Whether a minute or hour value is one that the section selects.
pub open spec fn unit_allowed(s: CronSectionView, v: int) -> bool {
    match s {
        CronSectionView::EveryTime => true,
        CronSectionView::At(x) => v == x,
        CronSectionView::Multiple(a) => a[v],
        CronSectionView::EveryNth(n) => multiple_of(v, n as int),
        CronSectionView::StartingAtXEveryNth(x, n) => v >= x && multiple_of(v - x, n as int),
    }
}

/// The `k`th value of a step that starts at `start` and moves on by `n`.
pub open spec fn step_value(start: int, k: nat, n: int) -> int {
    start + k * n
}

/// `v` is one of `start`, `start + n`, `start + 2n`, ...
proof fn lemma_on_step(start: int, n: int, v: int)
    requires
        n >= 1,
    ensures
        (v >= start && (v - start) % n == 0) <==> exists|k: nat| v == #[trigger] step_value(start, k, n),
{
    if v >= start && (v - start) % n == 0 {
        vstd::arithmetic::div_mod::lemma_fundamental_div_mod(v - start, n);
        let k = ((v - start) / n) as nat;
        assert((v - start) / n >= 0) by (nonlinear_arith)
            requires
                v - start >= 0,
                n >= 1,
        ;
        assert(v == step_value(start, k, n)) by (nonlinear_arith)
            requires
                v - start == n * ((v - start) / n),
                k == (v - start) / n,
        ;
    }
    if exists|k: nat| v == #[trigger] step_value(start, k, n) {
        let k = choose|k: nat| v == #[trigger] step_value(start, k, n);
        vstd::arithmetic::div_mod::lemma_mod_multiples_basic(k as int, n);
        assert(k * n >= 0) by (nonlinear_arith)
            requires
                n >= 1,
        ;
    }
}

/// What a minute or hour section selects: `*` every value, `x` the value
/// `x`, a list its members, `*/n` the values `0`, `n`, `2n`, ..., and `x/n`
/// the values `x`, `x + n`, `x + 2n`, ..., starting at `x` itself (for a step
/// `n` of at least one).
pub proof fn law_time_section_selects(s: CronSectionView, v: int)
    requires
        0 <= v,
    ensures
        s is EveryTime ==> unit_allowed(s, v),
        s matches CronSectionView::At(x) ==> (unit_allowed(s, v) <==> v == x),
        s matches CronSectionView::Multiple(a) ==> (unit_allowed(s, v) <==> a[v]),
        s matches CronSectionView::EveryNth(n) ==> n >= 1 ==> (unit_allowed(s, v) <==> exists|k: nat|
            v == #[trigger] step_value(0, k, n as int)),
        s matches CronSectionView::StartingAtXEveryNth(x, n) ==> n >= 1 ==> (unit_allowed(s, v)
            <==> exists|k: nat| v == #[trigger] step_value(x as int, k, n as int)),
{
    match s {
        CronSectionView::EveryNth(n) => {
            if n >= 1 {
                lemma_on_step(0, n as int, v);
            }
        },
        CronSectionView::StartingAtXEveryNth(x, n) => {
            if n >= 1 {
                lemma_on_step(x as int, n as int, v);
            }
        },
        _ => {},
    }
}

/// What a day of month or month section selects, for a day or month `v`
/// counted from one: `*` every one, `x` just `x`, a list its members, `*/n`
/// the values `1`, `1 + n`, `1 + 2n`, ..., and `x/n` the values `x`, `x + n`,
/// `x + 2n`, ..., starting at `x` itself.
pub proof fn law_date_section_selects(s: CronSectionView, v: int)
    requires
        1 <= v,
    ensures
        s is EveryTime ==> numbered_allowed(s, v - 1),
        s matches CronSectionView::At(x) ==> x >= 1 ==> (numbered_allowed(s, v - 1) <==> v == x),
        s matches CronSectionView::Multiple(a) ==> (numbered_allowed(s, v - 1) <==> a[v]),
        s matches CronSectionView::EveryNth(n) ==> n >= 1 ==> (numbered_allowed(s, v - 1) <==> exists|k: nat|
            v == #[trigger] step_value(1, k, n as int)),
        s matches CronSectionView::StartingAtXEveryNth(x, n) ==> x >= 1 ==> n >= 1 ==> (numbered_allowed(
            s,
            v - 1,
        ) <==> exists|k: nat| v == #[trigger] step_value(x as int, k, n as int)),
{
    match s {
        CronSectionView::EveryNth(n) => {
            if n >= 1 {
                lemma_on_step(1, n as int, v);
            }
        },
        CronSectionView::StartingAtXEveryNth(x, n) => {
            if n >= 1 && x >= 1 {
                lemma_on_step(x as int, n as int, v);
            }
        },
        _ => {},
    }
}

/// What a day of week section selects, for a week day `w` from 0 (Sunday) to
/// 6 (Saturday), where the value 7 stands for Sunday too: `*` every day, `x`
/// the day `x`, a list its members, `*/n` the days `0`, `n`, `2n`, ... and
/// `x/n` the days `x`, `x + n`, ..., each up to 7.
pub proof fn law_week_section_selects(s: CronSectionView, w: int)
    requires
        0 <= w <= 6,
    ensures
        s is EveryTime ==> weekday_allowed(s, w),
        s matches CronSectionView::At(x) ==> x <= 7 ==> (weekday_allowed(s, w) <==> (w == x || (w == 0
            && x == 7))),
        s matches CronSectionView::Multiple(a) ==> (weekday_allowed(s, w) <==> (a[w] || (w == 0 && a[7]))),
        s matches CronSectionView::EveryNth(n) ==> n >= 1 ==> (weekday_allowed(s, w) <==> ((exists|k: nat|
            w == #[trigger] step_value(0, k, n as int)) || (w == 0 && exists|k: nat|
            7 == #[trigger] step_value(0, k, n as int)))),
        s matches CronSectionView::StartingAtXEveryNth(x, n) ==> n >= 1 ==> (weekday_allowed(s, w) <==> ((
        exists|k: nat| w == #[trigger] step_value(x as int, k, n as int)) || (w == 0 && exists|k: nat|
            7 == #[trigger] step_value(x as int, k, n as int)))),
{
    match s {
        CronSectionView::EveryNth(n) => {
            if n >= 1 {
                lemma_on_step(0, n as int, w);
                lemma_on_step(0, n as int, 7);
            }
        },
        CronSectionView::StartingAtXEveryNth(x, n) => {
            if n >= 1 {
                lemma_on_step(x as int, n as int, w);
                lemma_on_step(x as int, n as int, 7);
            }
        },
        _ => {},
    }
}

/// The minute of the day of `t`, from 0 to 1439.
pub open spec fn minute_of_day(t: Time) -> int {
    t.hour * 60 + t.minute
}

/// The start of minute `k` of the day.
pub open spec fn time_at(k: int) -> Time {
    Time { hour: (k / 60) as i8, minute: (k % 60) as i8, second: 0, subsec_nanosecond: 0 }
}

impl CronTimeView {
    /// The day of the month is one of the selected ones.
    pub open spec fn day_ok(self, d: Date) -> bool {
        numbered_allowed(self.day_of_month, d.day - 1)
    }

    /// The month is one of the selected ones.
    pub open spec fn month_ok(self, d: Date) -> bool {
        numbered_allowed(self.month, d.month - 1)
    }

    /// The day of the month and the month are selected ones.
    pub open spec fn date_ok(self, d: Date) -> bool {
        self.day_ok(d) && self.month_ok(d)
    }

    /// The day of the week is one of the selected ones.
    pub open spec fn weekday_ok(self, d: Date) -> bool {
        weekday_allowed(self.day_of_week, d.weekday())
    }

    /// The day of the month, the month and the day of the week are selected ones.
    pub open spec fn date_selected(self, d: Date) -> bool {
        self.date_ok(d) && self.weekday_ok(d)
    }

    /// The hour and the minute are selected ones.
    pub open spec fn time_ok(self, t: Time) -> bool {
        unit_allowed(self.hour, t.hour as int) && unit_allowed(self.minute, t.minute as int)
    }

    /// `dt` is the start of a minute at which a job with this cron time runs.
    pub open spec fn selected(self, dt: DateTime) -> bool {
        &&& dt.is_valid()
        &&& self.date_selected(dt.date)
        &&& self.time_ok(dt.time)
        &&& dt.time.second == 0
        &&& dt.time.subsec_nanosecond == 0
    }

    /// `r` is the next run after `curr`: a selected time later than `curr`,
    /// with no selected time in between.
    pub open spec fn is_next_run(self, curr: DateTime, r: DateTime) -> bool {
        &&& curr.is_before(r)
        &&& self.selected(r)
        &&& forall|dt: DateTime| curr.is_before(dt) && dt.is_before(r) ==> !#[trigger] self.selected(dt)
    }

    /// The first minute of the day from `k` on whose time is selected.
    pub open spec fn first_minute_from(self, k: int) -> Option<int>
        decreases 1440 - k,
    {
        if k >= 1440 {
            None
        } else if self.time_ok(time_at(k)) {
            Some(k)
        } else {
            self.first_minute_from(k + 1)
        }
    }

    /// The first selected date after `d`.
    pub open spec fn next_selected_date(self, d: Date) -> Option<Date>
        decreases d.rank(),
        when d.is_valid()
    {
        if d == Date::spec_max() {
            None
        } else {
            proof {
                lemma_successor(d);
            }
            if self.date_selected(d.successor()) {
                Some(d.successor())
            } else {
                self.next_selected_date(d.successor())
            }
        }
    }

    /// The next time after `curr` at which a job with this cron time runs:
    /// a later selected minute of the same day, or else the first selected
    /// minute of the next selected date.
    pub open spec fn spec_get_next_time(self, curr: DateTime) -> Option<DateTime> {
        let same_day = if self.date_selected(curr.date) {
            self.first_minute_from(minute_of_day(curr.time) + 1)
        } else {
            None
        };
        match same_day {
            Some(k) => Some(DateTime { date: curr.date, time: time_at(k) }),
            None => match self.first_minute_from(0) {
                None => None,
                Some(k) => match self.next_selected_date(curr.date) {
                    None => None,
                    Some(d) => Some(DateTime { date: d, time: time_at(k) }),
                },
            },
        }
    }
}

pub proof fn lemma_successor(d: Date)
    requires
        d.is_valid(),
        d != Date::spec_max(),
    ensures
        d.successor().is_valid(),
        d.successor().rank() < d.rank(),
        d.is_before(d.successor()),
{
}

/// No valid date lies strictly between a date and the following one, and
/// none after the last one.
proof fn lemma_successor_is_next(d: Date, f: Date)
    requires
        d.is_valid(),
        f.is_valid(),
        d.is_before(f),
    ensures
        d != Date::spec_max(),
        f == d.successor() || d.successor().is_before(f),
{
}

proof fn lemma_first_minute(t: CronTimeView, k: int)
    requires
        0 <= k,
    ensures
        t.first_minute_from(k) matches Some(j) ==> k <= j < 1440 && t.time_ok(time_at(j)) && forall|i: int|
            k <= i < j ==> !#[trigger] t.time_ok(time_at(i)),
        t.first_minute_from(k) is None ==> forall|i: int| k <= i < 1440 ==> !#[trigger] t.time_ok(time_at(i)),
    decreases 1440 - k,
{
    if k < 1440 && !t.time_ok(time_at(k)) {
        lemma_first_minute(t, k + 1);
    }
}

proof fn lemma_next_selected_date(t: CronTimeView, d: Date)
    requires
        d.is_valid(),
    ensures
        t.next_selected_date(d) matches Some(e) ==> e.is_valid() && d.is_before(e) && t.date_selected(e)
            && forall|f: Date| f.is_valid() && d.is_before(f) && f.is_before(e) ==> !#[trigger] t.date_selected(f),
        t.next_selected_date(d) is None ==> forall|f: Date| f.is_valid() && d.is_before(f) ==> !#[trigger] t.date_selected(f),
    decreases d.rank(),
{
    if d != Date::spec_max() {
        lemma_successor(d);
        let e = d.successor();
        lemma_next_selected_date(t, e);
        assert forall|f: Date| f.is_valid() && d.is_before(f) && f != e implies e.is_before(f) by {
            lemma_successor_is_next(d, f);
        }
    } else {
        assert forall|f: Date| f.is_valid() && d.is_before(f) implies false by {
            lemma_successor_is_next(d, f);
        }
    }
}

/// A valid time at the start of a minute is the start of its minute of the day.
proof fn lemma_time_at(tm: Time)
    requires
        tm.is_valid(),
        tm.second == 0,
        tm.subsec_nanosecond == 0,
    ensures
        0 <= minute_of_day(tm) < 1440,
        time_at(minute_of_day(tm)) == tm,
{
    let k = minute_of_day(tm);
    assert(k / 60 == tm.hour && k % 60 == tm.minute) by (nonlinear_arith)
        requires
            k == tm.hour * 60 + tm.minute,
            0 <= tm.minute < 60,
            0 <= tm.hour,
    ;
}

proof fn lemma_minute_start(k: int)
    requires
        0 <= k < 1440,
    ensures
        time_at(k).is_valid(),
        minute_of_day(time_at(k)) == k,
{
    assert(0 <= k / 60 < 24 && 0 <= k % 60 < 60 && (k / 60) * 60 + k % 60 == k) by (nonlinear_arith)
        requires
            0 <= k < 1440,
    ;
}

/// [`CronTime::get_next_time`] gives the next run after `curr`: the earliest
/// selected minute later than `curr`, or `None` when no minute after `curr`
/// (up to the last representable date) is selected.
pub proof fn law_next_time_is_the_next_run(t: CronTimeView, curr: DateTime)
    requires
        curr.is_valid(),
    ensures
        t.spec_get_next_time(curr) matches Some(r) ==> t.is_next_run(curr, r),
        t.spec_get_next_time(curr) is None ==> forall|dt: DateTime|
            curr.is_before(dt) ==> !#[trigger] t.selected(dt),
{
    let mc = minute_of_day(curr.time);
    lemma_time_at(Time { second: 0, subsec_nanosecond: 0, ..curr.time });
    lemma_first_minute(t, mc + 1);
    lemma_first_minute(t, 0);
    lemma_next_selected_date(t, curr.date);
    let same_day = if t.date_selected(curr.date) {
        t.first_minute_from(mc + 1)
    } else {
        None
    };
    // Selected times on the date of `curr` that come after it.
    assert forall|dt: DateTime|
        curr.is_before(dt) && dt.date == curr.date && #[trigger] t.selected(dt) implies same_day matches Some(k) && mc + 1 <= minute_of_day(dt.time) && k <= minute_of_day(dt.time) by {
        lemma_time_at(dt.time);
        let j = minute_of_day(dt.time);
        assert(t.time_ok(time_at(j)));
    }
    if let Some(k) = same_day {
        lemma_minute_start(k);
        let r = DateTime { date: curr.date, time: time_at(k) };
        assert forall|dt: DateTime| curr.is_before(dt) && dt.is_before(r) implies !#[trigger] t.selected(dt) by {
            if t.selected(dt) {
                lemma_time_at(dt.time);
            }
        }
    } else if let Some(k) = t.first_minute_from(0) {
        lemma_minute_start(k);
        if let Some(d) = t.next_selected_date(curr.date) {
            let r = DateTime { date: d, time: time_at(k) };
            assert forall|dt: DateTime| curr.is_before(dt) && dt.is_before(r) implies !#[trigger] t.selected(dt) by {
                if t.selected(dt) {
                    lemma_time_at(dt.time);
                    if dt.date != curr.date && dt.date != d {
                        assert(t.date_selected(dt.date));
                    }
                }
            }
        } else {
            assert forall|dt: DateTime| curr.is_before(dt) implies !#[trigger] t.selected(dt) by {
                if t.selected(dt) && dt.date != curr.date {
                    assert(t.date_selected(dt.date));
                }
            }
        }
    } else {
        assert forall|dt: DateTime| curr.is_before(dt) implies !#[trigger] t.selected(dt) by {
            if t.selected(dt) {
                lemma_time_at(dt.time);
                assert(t.time_ok(time_at(minute_of_day(dt.time))));
            }
        }
    }
}

/// The next run meets every section: it lies after `curr`, at the start of
/// a minute whose minute and hour, and on a date whose day of month, month
/// and day of week, each section selects; and no earlier minute after
/// `curr` meets all five. Without a next run, no minute after `curr` does.
pub proof fn law_next_run_meets_every_section(t: CronTimeView, curr: DateTime)
    requires
        curr.is_valid(),
    ensures
        t.spec_get_next_time(curr) matches Some(r) ==> {
            &&& curr.is_before(r)
            &&& r.is_valid()
            &&& r.time.second == 0 && r.time.subsec_nanosecond == 0
            &&& unit_allowed(t.minute, r.time.minute as int)
            &&& unit_allowed(t.hour, r.time.hour as int)
            &&& numbered_allowed(t.day_of_month, r.date.day - 1)
            &&& numbered_allowed(t.month, r.date.month - 1)
            &&& weekday_allowed(t.day_of_week, r.date.weekday())
        },
        forall|dt: DateTime|
            {
                &&& dt.is_valid()
                &&& curr.is_before(dt)
                &&& (t.spec_get_next_time(curr) matches Some(r) ==> dt.is_before(r))
                &&& dt.time.second == 0 && dt.time.subsec_nanosecond == 0
                &&& unit_allowed(t.minute, dt.time.minute as int)
                &&& unit_allowed(t.hour, dt.time.hour as int)
                &&& numbered_allowed(t.day_of_month, dt.date.day - 1)
                &&& numbered_allowed(t.month, dt.date.month - 1)
            } ==> !weekday_allowed(t.day_of_week, #[trigger] dt.date.weekday()),
{
    law_next_time_is_the_next_run(t, curr);
    assert forall|dt: DateTime|
        {
            &&& dt.is_valid()
            &&& curr.is_before(dt)
            &&& (t.spec_get_next_time(curr) matches Some(r) ==> dt.is_before(r))
            &&& dt.time.second == 0 && dt.time.subsec_nanosecond == 0
            &&& unit_allowed(t.minute, dt.time.minute as int)
            &&& unit_allowed(t.hour, dt.time.hour as int)
            &&& numbered_allowed(t.day_of_month, dt.date.day - 1)
            &&& numbered_allowed(t.month, dt.date.month - 1)
        } implies !weekday_allowed(t.day_of_week, #[trigger] dt.date.weekday()) by {
        assert(!t.selected(dt));
    }
}

impl CronTime {
    fn is_valid_day(&self, date: Date) -> (r: bool)
        requires
            date.is_valid(),
        ensures
            r == self@.day_ok(date),
    {
        proof {
            use_type_invariant(self);
        }
        self.valid_days[(date.day - 1) as usize]
    }

    fn is_valid_month(&self, date: Date) -> (r: bool)
        requires
            date.is_valid(),
        ensures
            r == self@.month_ok(date),
    {
        proof {
            use_type_invariant(self);
        }
        self.valid_months[(date.month - 1) as usize]
    }

    fn is_valid_weekday(&self, date: Date) -> (r: bool)
        requires
            date.is_valid(),
        ensures
            r == self@.weekday_ok(date),
    {
        proof {
            use_type_invariant(self);
        }
        let w = date_weekday(date);
        self.valid_week_days[w as usize]
    }

    fn is_valid_date(&self, date: Date) -> (r: bool)
        requires
            date.is_valid(),
        ensures
            r == self@.date_selected(date),
    {
        self.is_valid_day(date) && self.is_valid_month(date) && self.is_valid_weekday(date)
    }

    fn is_valid_time(&self, time: Time) -> (r: bool)
        requires
            time.is_valid(),
        ensures
            r == self@.time_ok(time),
    {
        proof {
            use_type_invariant(self);
        }
        let hour = match self.hour {
            CronSection::EveryTime => true,
            CronSection::At(v) => time.hour == v as i8,
            CronSection::Multiple(v) => v[time.hour as usize],
            CronSection::EveryNth(v) => (time.hour as u8).is_multiple_of(v),
            CronSection::StartingAtXEveryNth(x, n) => {
                let h = time.hour as u8;
                h >= x && (h - x).is_multiple_of(n)
            },
        };
        if !hour {
            return false;
        }
        match self.minute {
            CronSection::EveryTime => true,
            CronSection::At(v) => time.minute == v as i8,
            CronSection::Multiple(v) => v[time.minute as usize],
            CronSection::EveryNth(v) => (time.minute as u8).is_multiple_of(v),
            CronSection::StartingAtXEveryNth(x, n) => {
                let m = time.minute as u8;
                m >= x && (m - x).is_multiple_of(n)
            },
        }
    }

    /// The first minute of the day from `k` on whose time is selected.
    fn first_minute_from(&self, k: u16) -> (r: Option<u16>)
        requires
            k <= 1440,
        ensures
            match r {
                Some(j) => self@.first_minute_from(k as int) == Some(j as int),
                None => self@.first_minute_from(k as int) is None,
            },
    {
        let mut i = k;
        while i < 1440
            invariant
                k <= i <= 1440,
                self@.first_minute_from(k as int) == self@.first_minute_from(i as int),
            decreases 1440 - i,
        {
            let time = Time { hour: (i / 60) as i8, minute: (i % 60) as i8, second: 0, subsec_nanosecond: 0 };
            proof {
                lemma_minute_start(i as int);
            }
            if self.is_valid_time(time) {
                return Some(i);
            }
            i = i + 1;
        }
        None
    }

    /// The first selected date after `date`, walking day by day.
    fn next_selected_date(&self, date: Date) -> (r: Option<Date>)
        requires
            date.is_valid(),
        ensures
            r == self@.next_selected_date(date),
    {
        let mut d = date;
        loop
            invariant
                d.is_valid(),
                self@.next_selected_date(date) == self@.next_selected_date(d),
            decreases d.rank(),
        {
            if d == Date::max() {
                return None;
            }
            proof {
                lemma_successor(d);
            }
            let e = date_add_one_day(d);
            if self.is_valid_date(e) {
                return Some(e);
            }
            d = e;
        }
    }

    /// The next time after `curr` at which a job with this cron time runs:
    /// the earliest selected minute later than `curr`, or `None` when no
    /// minute after `curr` up to the last representable date is selected.
    pub fn get_next_time(&self, curr: DateTime) -> (r: Option<DateTime>)
        requires
            curr.is_valid(),
        ensures
            r == self@.spec_get_next_time(curr),
            r matches Some(t) ==> self@.is_next_run(curr, t),
            r is None ==> forall|dt: DateTime| curr.is_before(dt) ==> !#[trigger] self@.selected(dt),
    {
        proof {
            law_next_time_is_the_next_run(self@, curr);
        }
        if self.is_valid_date(curr.date) {
            let start: u16 = (curr.time.hour as u16) * 60 + (curr.time.minute as u16) + 1;
            if let Some(k) = self.first_minute_from(start) {
                proof {
                    lemma_first_minute(self@, start as int);
                }
                let time = Time { hour: (k / 60) as i8, minute: (k % 60) as i8, second: 0, subsec_nanosecond: 0 };
                return Some(DateTime { date: curr.date, time });
            }
        }
        match self.first_minute_from(0) {
            None => None,
            Some(k) => {
                proof {
                    lemma_first_minute(self@, 0);
                }
                match self.next_selected_date(curr.date) {
                    None => None,
                    Some(d) => {
                        let time = Time { hour: (k / 60) as i8, minute: (k % 60) as i8, second: 0, subsec_nanosecond: 0 };
                        Some(DateTime { date: d, time })
                    },
                }
            },
        }
    }
}

} // verus!
