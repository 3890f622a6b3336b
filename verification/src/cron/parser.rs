//! Parsing of cron strings into [`CronSection`]s and [`CronTime`]s.

use vstd::prelude::*;

mod display;
pub mod next;

use super::text::{
    all_white, chars_of, find, find_in, is_whitespace, lemma_trim_ignores_white, parse_bounded,
    parse_nat, parse_u8, split, split_bounds, trim, trim_bounds,
};

verus! {

/// A single section of a cron string.
///
/// The formats are;
/// - `*`: every unit
/// - `n`: at `n` unit
/// - `n-m`, `x,y,z` and `n-m,x,y,a-f`: ranges and lists of values, all below 60
/// - `*/n`: every `n`th unit, starting at the unit's lowest value
/// - `x/n`: starting at `x` and then every `n`th unit from there
#[derive(Debug, Clone, Copy, PartialEq, Eq)]
#[non_exhaustive]
pub enum CronSection {
    /// Represents `*` in this section
    EveryTime,
    /// Represents a single value in this section
    At(u8),
    /// Represents the array of multiple chosen values.
    Multiple([bool; 60]),
    /// Represents `*/n` in this section
    EveryNth(u8),
    /// Represents `x/n` in this section
    StartingAtXEveryNth(u8, u8),
}

/// The mathematical value of a [`CronSection`].
pub enum CronSectionView {
    EveryTime,
    At(u8),
    Multiple(Seq<bool>),
    EveryNth(u8),
    StartingAtXEveryNth(u8, u8),
}

impl View for CronSection {
    type V = CronSectionView;

    open spec fn view(&self) -> CronSectionView {
        match *self {
            CronSection::EveryTime => CronSectionView::EveryTime,
            CronSection::At(v) => CronSectionView::At(v),
            CronSection::Multiple(a) => CronSectionView::Multiple(a@),
            CronSection::EveryNth(v) => CronSectionView::EveryNth(v),
            CronSection::StartingAtXEveryNth(x, n) => CronSectionView::StartingAtXEveryNth(x, n),
        }
    }
}

/// The first index in `lo..hi` at which `a` holds `true`.
pub open spec fn first_set(a: Seq<bool>, lo: int, hi: int) -> Option<int>
    decreases hi - lo,
{
    if lo >= hi {
        None
    } else if a[lo] {
        Some(lo)
    } else {
        first_set(a, lo + 1, hi)
    }
}

/// What `first_set` finds holds `true`, and where it finds nothing only
/// `false` is held.
proof fn lemma_first_set(a: Seq<bool>, lo: int, hi: int)
    ensures
        first_set(a, lo, hi) matches Some(i) ==> lo <= i < hi && a[i],
        first_set(a, lo, hi) is None ==> forall|j: int| lo <= j < hi ==> !a[j],
    decreases hi - lo,
{
    if lo < hi {
        lemma_first_set(a, lo + 1, hi);
    }
}

impl CronSectionView {
    /// Every value that the section holds lies in `min..=max`: the value of
    /// `n`, both numbers of `*/n` and `x/n`, and each value of a list.
    pub open spec fn values_within(self, min: u8, max: u8) -> bool {
        match self {
            CronSectionView::EveryTime => true,
            CronSectionView::At(x) => min <= x <= max,
            CronSectionView::EveryNth(x) => min <= x <= max,
            CronSectionView::StartingAtXEveryNth(x, n) => min <= x <= max && min <= n <= max,
            CronSectionView::Multiple(a) => forall|i: int| 0 <= i < a.len() && #[trigger] a[i] ==> min <= i <= max,
        }
    }

    /// What [`CronSection::within`] returns: the first value found outside
    /// `min..=max`, in the order in which the section is checked.
    pub open spec fn spec_within(self, min: u8, max: u8) -> Result<(), u8> {
        match self {
            CronSectionView::EveryTime => Ok(()),
            CronSectionView::At(x) => if min <= x <= max { Ok(()) } else { Err(x) },
            CronSectionView::EveryNth(x) => if min <= x <= max { Ok(()) } else { Err(x) },
            CronSectionView::StartingAtXEveryNth(x, n) => if !(min <= x <= max) {
                Err(x)
            } else if !(min <= n <= max) {
                Err(n)
            } else {
                Ok(())
            },
            CronSectionView::Multiple(a) => match first_set(a, 0, min as int) {
                Some(i) => Err(i as u8),
                None => if max != 59 {
                    match first_set(a, max + 1, 60) {
                        Some(i) => Err(i as u8),
                        None => Ok(()),
                    }
                } else {
                    Ok(())
                },
            },
        }
    }

    /// Every step is at least one.
    pub open spec fn steps_forward(self) -> bool {
        match self {
            CronSectionView::EveryNth(v) => v >= 1,
            CronSectionView::StartingAtXEveryNth(_, n) => n >= 1,
            _ => true,
        }
    }

    /// Every step is at least one and every list holds at least one value:
    /// what each section of a parsed cron string satisfies.
    pub open spec fn is_proper(self) -> bool {
        match self {
            CronSectionView::EveryNth(v) => v >= 1,
            CronSectionView::StartingAtXEveryNth(_, n) => n >= 1,
            CronSectionView::Multiple(a) => a.len() == 60 && exists|i: int| 0 <= i < 60 && a[i],
            _ => true,
        }
    }
}

/// The bounds `(min, max)` that one comma separated piece of a list denotes,
/// when it is a valid value (`y`, below 60) or range (`n-m`, `n <= m < 60`).
pub open spec fn piece_bounds(p: Seq<char>) -> Option<(nat, nat)> {
    match find(p, '-') {
        Some(k) => match (parse_nat(p.take(k)), parse_nat(p.skip(k + 1))) {
            (Some(a), Some(b)) => if a <= b && b < 60 { Some((a, b)) } else { None },
            _ => None,
        },
        None => match parse_nat(p) {
            Some(y) => if y < 60 { Some((y, y)) } else { None },
            None => None,
        },
    }
}

/// Piece `j` of `pieces` is valid and covers the value `i`.
pub open spec fn piece_covers(pieces: Seq<Seq<char>>, j: int, i: int) -> bool {
    match piece_bounds(pieces[j]) {
        Some((a, b)) => a <= i <= b,
        None => false,
    }
}

/// The values that a list like `1,5,10-20` selects, when every piece of it is valid.
pub open spec fn spec_parse_list(s: Seq<char>) -> Option<Seq<bool>> {
    let pieces = split(s, ',');
    if forall|j: int| 0 <= j < pieces.len() ==> (#[trigger] piece_bounds(pieces[j])) is Some {
        Some(
            Seq::new(
                60,
                |i: int| exists|j: int| 0 <= j < pieces.len() && #[trigger] piece_covers(pieces, j, i),
            ),
        )
    } else {
        None
    }
}

/// The section that the text `s` denotes, as [`CronSection::new`] reads it.
pub open spec fn spec_parse_section(s: Seq<char>) -> Option<CronSectionView> {
    if s == seq!['*'] {
        Some(CronSectionView::EveryTime)
    } else if s.len() >= 2 && s[0] == '*' && s[1] == '/' {
        match parse_u8(s.skip(2)) {
            Some(y) => if y != 0 { Some(CronSectionView::EveryNth(y)) } else { None },
            None => None,
        }
    } else {
        match find(s, '/') {
            Some(k) => match (parse_u8(s.take(k)), parse_u8(s.skip(k + 1))) {
                (Some(x), Some(n)) => if n != 0 {
                    Some(CronSectionView::StartingAtXEveryNth(x, n))
                } else {
                    None
                },
                _ => None,
            },
            None => match parse_u8(s) {
                Some(y) => Some(CronSectionView::At(y)),
                None => match spec_parse_list(s) {
                    Some(a) => Some(CronSectionView::Multiple(a)),
                    None => None,
                },
            },
        }
    }
}

/// The view of an optional section.
pub open spec fn opt_view(r: Option<CronSection>) -> Option<CronSectionView> {
    match r {
        Some(c) => Some(c@),
        None => None,
    }
}

/// Reads one piece of a list in `s[lo..hi]`: its bounds.
fn piece_bounds_of(s: &Vec<char>, lo: usize, hi: usize) -> (r: Option<(usize, usize)>)
    requires
        lo <= hi <= s.len(),
    ensures
        match piece_bounds(s@.subrange(lo as int, hi as int)) {
            Some((a, b)) => r == Some((a as usize, b as usize)),
            None => r is None,
        },
{
    let ghost p = s@.subrange(lo as int, hi as int);
    let d = find_in(s, lo, hi, '-');
    if d < hi {
        assert(p.take(d - lo) =~= s@.subrange(lo as int, d as int));
        assert(p.skip(d - lo + 1) =~= s@.subrange(d + 1, hi as int));
        let a = parse_bounded(s, lo, d, 59);
        let b = parse_bounded(s, d + 1, hi, 59);
        match (a, b) {
            (Some(a), Some(b)) => if a <= b {
                Some((a as usize, b as usize))
            } else {
                None
            },
            _ => None,
        }
    } else {
        match parse_bounded(s, lo, hi, 59) {
            Some(y) => Some((y as usize, y as usize)),
            None => None,
        }
    }
}

/// Reads a list like `1,5,10-20` in `s[lo..hi]`.
fn parse_list(s: &Vec<char>, lo: usize, hi: usize) -> (r: Option<[bool; 60]>)
    requires
        lo <= hi <= s.len(),
    ensures
        match spec_parse_list(s@.subrange(lo as int, hi as int)) {
            Some(a) => r matches Some(arr) && arr@ == a,
            None => r is None,
        },
{
    let ghost pieces = split(s@.subrange(lo as int, hi as int), ',');
    let bounds = split_bounds(s, lo, hi, ',');
    let mut arr = [false; 60];
    let mut j: usize = 0;
    while j < bounds.len()
        invariant
            j <= bounds.len() == pieces.len(),
            pieces == split(s@.subrange(lo as int, hi as int), ','),
            forall|k: int|
                0 <= k < bounds.len() ==> {
                    &&& lo <= (#[trigger] bounds[k]).0 <= bounds[k].1 <= hi
                    &&& s@.subrange(bounds[k].0 as int, bounds[k].1 as int) == pieces[k]
                },
            hi <= s.len(),
            forall|k: int| 0 <= k < j ==> (#[trigger] piece_bounds(pieces[k])) is Some,
            forall|i: int|
                0 <= i < 60 ==> arr@[i] == exists|k: int| 0 <= k < j && #[trigger] piece_covers(pieces, k, i),
        decreases bounds.len() - j,
    {
        let (plo, phi) = bounds[j];
        match piece_bounds_of(s, plo, phi) {
            None => {
                assert(piece_bounds(pieces[j as int]) is None);
                return None;
            },
            Some((a, b)) => {
                let ghost before = arr@;
                assert(piece_bounds(pieces[j as int]) == Some((a as nat, b as nat)));
                assert(forall|x: int| 0 <= x < 60 ==> before[x] == exists|k: int|
                    0 <= k < j && #[trigger] piece_covers(pieces, k, x));
                let mut i = a;
                while i <= b
                    invariant
                        a <= i <= b + 1,
                        b < 60,
                        before.len() == 60,
                        forall|x: int|
                            0 <= x < 60 ==> arr@[x] == (before[x] || (a <= x < i)),
                    decreases b + 1 - i,
                {
                    let ghost prev = arr@;
                    arr[i] = true;
                    assert(arr@ =~= prev.update(i as int, true));
                    i = i + 1;
                }
                assert forall|x: int| 0 <= x < 60 implies arr@[x] == exists|k: int|
                    0 <= k < j + 1 && #[trigger] piece_covers(pieces, k, x) by {
                    assert(piece_covers(pieces, j as int, x) == (a <= x <= b));
                    if arr@[x] {
                        if a <= x <= b {
                            assert(piece_covers(pieces, j as int, x));
                        } else {
                            assert(before[x]);
                            let k = choose|k: int| 0 <= k < j && #[trigger] piece_covers(pieces, k, x);
                            assert(piece_covers(pieces, k, x));
                        }
                    } else {
                        assert(!before[x]);
                        assert forall|k: int| 0 <= k < j + 1 implies !#[trigger] piece_covers(pieces, k, x) by {
                            if k < j {
                                if piece_covers(pieces, k, x) {
                                    assert(exists|k: int| 0 <= k < j && #[trigger] piece_covers(pieces, k, x));
                                }
                            }
                        }
                    }
                }
            },
        }
        j = j + 1;
    }
    assert(arr@ =~= Seq::new(
        60,
        |i: int| exists|k: int| 0 <= k < pieces.len() && #[trigger] piece_covers(pieces, k, i),
    ));
    Some(arr)
}

/// Reads the section written in `s[lo..hi]`.
fn parse_section(s: &Vec<char>, lo: usize, hi: usize) -> (r: Option<CronSection>)
    requires
        lo <= hi <= s.len(),
    ensures
        opt_view(r) == spec_parse_section(s@.subrange(lo as int, hi as int)),
{
    let ghost t = s@.subrange(lo as int, hi as int);
    if hi - lo == 1 && s[lo] == '*' {
        assert(t =~= seq!['*']);
        return Some(CronSection::EveryTime);
    }
    assert(t != seq!['*']);
    if hi - lo >= 2 && s[lo] == '*' && s[lo + 1] == '/' {
        assert(t.skip(2) =~= s@.subrange(lo + 2, hi as int));
        return match parse_bounded(s, lo + 2, hi, 255) {
            Some(y) => if y != 0 {
                Some(CronSection::EveryNth(y as u8))
            } else {
                None
            },
            None => None,
        };
    }
    let d = find_in(s, lo, hi, '/');
    if d < hi {
        assert(t.take(d - lo) =~= s@.subrange(lo as int, d as int));
        assert(t.skip(d - lo + 1) =~= s@.subrange(d + 1, hi as int));
        let x = parse_bounded(s, lo, d, 255);
        let n = parse_bounded(s, d + 1, hi, 255);
        return match (x, n) {
            (Some(x), Some(n)) => if n != 0 {
                Some(CronSection::StartingAtXEveryNth(x as u8, n as u8))
            } else {
                None
            },
            _ => None,
        };
    }
    match parse_bounded(s, lo, hi, 255) {
        Some(y) => Some(CronSection::At(y as u8)),
        None => match parse_list(s, lo, hi) {
            Some(a) => Some(CronSection::Multiple(a)),
            None => None,
        },
    }
}

impl CronSection {
    /// Parses one section of a cron string; `None` when it has none of the formats.
    pub fn new(str: &str) -> (r: Option<Self>)
        ensures
            opt_view(r) == spec_parse_section(str@),
    {
        let s = chars_of(str);
        assert(s@.subrange(0, s@.len() as int) =~= s@);
        parse_section(&s, 0, s.len())
    }

    /// Returns [`Ok`] if all inner values are within `min` and `max`, inclusive on both sides.
    ///
    /// # Errors
    ///
    /// Returns an error with the inner number that does not fit inside range.
    pub fn within(self, min: u8, max: u8) -> (r: Result<(), u8>)
        requires
            min <= max <= 59,
        ensures
            r == self@.spec_within(min, max),
            r is Ok <==> self@.values_within(min, max),
    {
        proof {
            if let CronSection::Multiple(a) = self {
                lemma_first_set(a@, 0, min as int);
                lemma_first_set(a@, max + 1, 60);
            }
        }
        match self {
            CronSection::At(x) | CronSection::EveryNth(x) => if min <= x && x <= max {
                Ok(())
            } else {
                Err(x)
            },
            CronSection::StartingAtXEveryNth(x, n) => if !(min <= x && x <= max) {
                Err(x)
            } else if !(min <= n && n <= max) {
                Err(n)
            } else {
                Ok(())
            },
            CronSection::Multiple(a) => {
                let mut i: u8 = 0;
                while i < min
                    invariant
                        self == CronSection::Multiple(a),
                        i <= min <= max <= 59,
                        first_set(a@, 0, min as int) == first_set(a@, i as int, min as int),
                    decreases min - i,
                {
                    if a[i as usize] {
                        assert(first_set(a@, i as int, min as int) == Some(i as int));
                        return Err(i);
                    }
                    i = i + 1;
                }
                assert(first_set(a@, 0, min as int) is None);
                if max != 59 {
                    i = max + 1;
                    while i < 60
                        invariant
                            self == CronSection::Multiple(a),
                            first_set(a@, 0, min as int) is None,
                            max + 1 <= i <= 60,
                            max < 59,
                            first_set(a@, max + 1, 60) == first_set(a@, i as int, 60),
                        decreases 60 - i,
                    {
                        if a[i as usize] {
                            assert(first_set(a@, i as int, 60) == Some(i as int));
                            return Err(i);
                        }
                        i = i + 1;
                    }
                }
                Ok(())
            },
            CronSection::EveryTime => Ok(()),
        }
    }

    /// Returns `true` if all inner values are within `min` and `max`, inclusive on both sides.
    pub fn within_bool(self, min: u8, max: u8) -> (r: bool)
        requires
            min <= max <= 59,
        ensures
            r == self@.spec_within(min, max) is Ok,
            r <==> self@.values_within(min, max),
    {
        self.within(min, max).is_ok()
    }
}

/// An error returned during parsing of the cron string.
#[derive(Debug, Clone, Copy, PartialEq, Eq, Structural)]
#[non_exhaustive]
pub enum CronParsingError {
    /// The cron string supplied does not contain 5 different sections split by a single space
    NotCorrectLength,
    /// The first part in the cron string (minute section) is not in a correct format
    MinuteIsNotCorrectFormat,
    /// Minute is above 59
    MinuteIsTooBig(u8),
    /// The second part in the cron string (hour section) is not in a correct format
    HourIsNotCorrectFormat,
    /// Hour is above 23
    HourIsTooBig(u8),
    /// The third part in the cron string (day of month section) is not in a correct format
    DayOfMonthIsNotCorrectFormat,
    /// Day of month must be a valid `u8` between 1 and 31, inclusive on both sides.
    DayOfMonthIsOutsideRange(u8),
    /// The fourth part in the cron string (month section) is not in a correct format
    MonthIsNotCorrectFormat,
    /// Month must be a valid `u8` between 1 and 12, inclusive on both sides.
    MonthIsOutsideRange(u8),
    /// The fifth part in the cron string (week day section) is not in a correct format
    DayOfWeekIsNotCorrectFormat,
    /// Day of week must be a valid `u8` between 0 and 7, inclusive on both sides.
    DayOfWeekIsTooBig(u8),
}

impl CronParsingError {
    /// Returns `true` if the cron parsing error is [`CronParsingError::NotCorrectLength`].
    pub fn is_not_correct_length(&self) -> (r: bool)
        ensures
            r == (*self is NotCorrectLength),
    {
        matches!(self, Self::NotCorrectLength)
    }

    /// Returns `true` if the cron parsing error is [`CronParsingError::MinuteIsNotCorrectFormat`].
    pub fn is_minute_is_not_correct_format(&self) -> (r: bool)
        ensures
            r == (*self is MinuteIsNotCorrectFormat),
    {
        matches!(self, Self::MinuteIsNotCorrectFormat)
    }

    /// Returns `true` if the cron parsing error is [`CronParsingError::MinuteIsTooBig`].
    pub fn is_minute_is_too_big(&self) -> (r: bool)
        ensures
            r == (*self is MinuteIsTooBig),
    {
        matches!(self, Self::MinuteIsTooBig(..))
    }

    /// Returns `true` if the cron parsing error is [`CronParsingError::HourIsNotCorrectFormat`].
    pub fn is_hour_is_not_correct_format(&self) -> (r: bool)
        ensures
            r == (*self is HourIsNotCorrectFormat),
    {
        matches!(self, Self::HourIsNotCorrectFormat)
    }

    /// Returns `true` if the cron parsing error is [`CronParsingError::HourIsTooBig`].
    pub fn is_hour_is_too_big(&self) -> (r: bool)
        ensures
            r == (*self is HourIsTooBig),
    {
        matches!(self, Self::HourIsTooBig(..))
    }

    /// Returns `true` if the cron parsing error is [`CronParsingError::DayOfMonthIsNotCorrectFormat`].
    pub fn is_day_of_month_is_not_correct_format(&self) -> (r: bool)
        ensures
            r == (*self is DayOfMonthIsNotCorrectFormat),
    {
        matches!(self, Self::DayOfMonthIsNotCorrectFormat)
    }

    /// Returns `true` if the cron parsing error is [`CronParsingError::DayOfMonthIsOutsideRange`].
    pub fn is_day_of_month_is_outside_range(&self) -> (r: bool)
        ensures
            r == (*self is DayOfMonthIsOutsideRange),
    {
        matches!(self, Self::DayOfMonthIsOutsideRange(..))
    }

    /// Returns `true` if the cron parsing error is [`CronParsingError::MonthIsNotCorrectFormat`].
    pub fn is_month_is_not_correct_format(&self) -> (r: bool)
        ensures
            r == (*self is MonthIsNotCorrectFormat),
    {
        matches!(self, Self::MonthIsNotCorrectFormat)
    }

    /// Returns `true` if the cron parsing error is [`CronParsingError::MonthIsOutsideRange`].
    pub fn is_month_is_outside_range(&self) -> (r: bool)
        ensures
            r == (*self is MonthIsOutsideRange),
    {
        matches!(self, Self::MonthIsOutsideRange(..))
    }

    /// Returns `true` if the cron parsing error is [`CronParsingError::DayOfWeekIsNotCorrectFormat`].
    pub fn is_day_of_week_is_not_correct_format(&self) -> (r: bool)
        ensures
            r == (*self is DayOfWeekIsNotCorrectFormat),
    {
        matches!(self, Self::DayOfWeekIsNotCorrectFormat)
    }

    /// Returns `true` if the cron parsing error is [`CronParsingError::DayOfWeekIsTooBig`].
    pub fn is_day_of_week_is_too_big(&self) -> (r: bool)
        ensures
            r == (*self is DayOfWeekIsTooBig),
    {
        matches!(self, Self::DayOfWeekIsTooBig(..))
    }
}

/// Whether the day of month (or month) numbered `idx + 1` is one that the
/// section selects, as [`CronTime`] tabulates it.
pub open spec fn numbered_allowed(s: CronSectionView, idx: int) -> bool {
    match s {
        CronSectionView::EveryTime => true,
        CronSectionView::At(v) => idx == (if v >= 1 { v - 1 } else { 0 }),
        CronSectionView::Multiple(a) => a[idx + 1],
        CronSectionView::EveryNth(v) => idx % (v as int) == 0,
        CronSectionView::StartingAtXEveryNth(x, n) => {
            let start: int = if x >= 1 { x - 1 } else { 0 };
            idx >= start && (idx - start) % (n as int) == 0
        },
    }
}

/// Whether the week day `w` (0 is Sunday) is one that the section selects;
/// both 0 and 7 stand for Sunday.
pub open spec fn weekday_allowed(s: CronSectionView, w: int) -> bool {
    match s {
        CronSectionView::EveryTime => true,
        CronSectionView::At(v) => w == v % 7,
        CronSectionView::Multiple(a) => a[w] || (w == 0 && a[7]),
        CronSectionView::EveryNth(v) => w % (v as int) == 0,
        CronSectionView::StartingAtXEveryNth(x, n) => (x <= w && (w - x) % (n as int) == 0) || (w
            == 0 && x <= 7 && (7 - x) % (n as int) == 0),
    }
}

/// The mathematical value of a [`CronTime`]: its five sections.
pub struct CronTimeView {
    pub minute: CronSectionView,
    pub hour: CronSectionView,
    pub day_of_month: CronSectionView,
    pub month: CronSectionView,
    pub day_of_week: CronSectionView,
}

impl CronTimeView {
    /// Every section lies in its range.
    pub open spec fn is_in_range(self) -> bool {
        &&& self.minute.spec_within(0, 59) is Ok
        &&& self.hour.spec_within(0, 23) is Ok
        &&& self.day_of_month.spec_within(1, 31) is Ok
        &&& self.month.spec_within(1, 12) is Ok
        &&& self.day_of_week.spec_within(0, 7) is Ok
    }

    /// Every section lies in its range and the day of week steps forward
    /// (a step of zero there never ends the table of week days): what every
    /// [`CronTime`] holds.
    pub open spec fn is_well_formed(self) -> bool {
        &&& self.is_in_range()
        &&& self.day_of_week.steps_forward()
    }

    /// Every section lies in its range and is proper: what every parsed cron
    /// string gives.
    pub open spec fn is_proper(self) -> bool {
        &&& self.is_in_range()
        &&& self.minute.is_proper()
        &&& self.hour.is_proper()
        &&& self.day_of_month.is_proper()
        &&& self.month.is_proper()
        &&& self.day_of_week.is_proper()
    }
}

/// A parsed cron string.
///
/// A cron string has 5 sections, separated by a space; their allowed values are;
/// 1. minute (0-59)
/// 2. hour (0-23)
/// 3. day of month (1-31)
/// 4. month (1-12)
/// 5. day of week (0-7, where 0 and 7 are Sunday)
#[derive(Debug, Clone, Copy, PartialEq, Eq)]
pub struct CronTime {
    pub(crate) minute: CronSection,
    pub(crate) hour: CronSection,
    pub(crate) day_of_month: CronSection,
    pub(crate) month: CronSection,
    pub(crate) day_of_week: CronSection,
    /// 0 = first day (day 1) of the month, 30 = day 31st of the month
    pub(crate) valid_days: [bool; 31],
    /// 0 = january, 11 = december
    pub(crate) valid_months: [bool; 12],
    /// 0 = sunday, 6 = saturday
    pub(crate) valid_week_days: [bool; 7],
}

impl View for CronTime {
    type V = CronTimeView;

    closed spec fn view(&self) -> CronTimeView {
        CronTimeView {
            minute: self.minute@,
            hour: self.hour@,
            day_of_month: self.day_of_month@,
            month: self.month@,
            day_of_week: self.day_of_week@,
        }
    }
}

impl CronTime {
    /// The sections are well formed and the tables agree with them.
    #[verifier::type_invariant]
    pub closed spec fn inv(self) -> bool {
        &&& self@.is_well_formed()
        &&& forall|i: int| 0 <= i < 31 ==> self.valid_days@[i] == numbered_allowed(self@.day_of_month, i)
        &&& forall|i: int| 0 <= i < 12 ==> self.valid_months@[i] == numbered_allowed(self@.month, i)
        &&& forall|i: int| 0 <= i < 7 ==> self.valid_week_days@[i] == weekday_allowed(self@.day_of_week, i)
    }
}

/// Sections with the same view are equal.
pub proof fn lemma_section_view_injective(x: CronSection, y: CronSection)
    requires
        x@ == y@,
    ensures
        x == y,
{
    broadcast use vstd::array::axiom_array_ext_equal;

    if let CronSection::Multiple(a) = x {
        if let CronSection::Multiple(b) = y {
            assert(a@ == b@);
            assert(a =~= b);
        }
    }
}

/// The five sections determine a cron time: two cron times with the same
/// view are equal, their tables included.
pub proof fn lemma_view_determines(a: CronTime, b: CronTime)
    requires
        a.inv(),
        b.inv(),
        a@ == b@,
    ensures
        a == b,
{
    broadcast use vstd::array::axiom_array_ext_equal;

    lemma_section_view_injective(a.minute, b.minute);
    lemma_section_view_injective(a.hour, b.hour);
    lemma_section_view_injective(a.day_of_month, b.day_of_month);
    lemma_section_view_injective(a.month, b.month);
    lemma_section_view_injective(a.day_of_week, b.day_of_week);
    assert(a.valid_days =~= b.valid_days);
    assert(a.valid_months =~= b.valid_months);
    assert(a.valid_week_days =~= b.valid_week_days);
}

/// Between two numbers of one residue class modulo `v` lies no other.
proof fn lemma_step_window(x: int, i: int, st: int, v: int)
    requires
        v > 0,
        st <= i,
        (i - st) % v == 0,
        i <= x < i + v,
    ensures
        (x - st) % v == (x - i),
        (i + v - st) % v == 0,
{
    vstd::arithmetic::div_mod::lemma_fundamental_div_mod(i - st, v);
    let q = (i - st) / v;
    assert(x - st == v * q + (x - i));
    vstd::arithmetic::div_mod::lemma_mod_multiples_vanish(q, x - i, v);
    vstd::arithmetic::div_mod::lemma_small_mod((x - i) as nat, v as nat);
    assert(i + v - st == v * (q + 1)) by (nonlinear_arith)
        requires
            i - st == v * q,
    ;
    vstd::arithmetic::div_mod::lemma_mod_multiples_basic(q + 1, v);
    assert((q + 1) * v == v * (q + 1)) by (nonlinear_arith);
}

/// The table of days of the month that a day of month section selects.
fn day_flags(sec: CronSection) -> (r: [bool; 31])
    requires
        sec@.spec_within(1, 31) is Ok,
    ensures
        forall|i: int| 0 <= i < 31 ==> r@[i] == numbered_allowed(sec@, i),
{
    let mut arr = [false; 31];
    match sec {
        CronSection::EveryTime => {
            arr = [true; 31];
        },
        CronSection::At(v) => {
            arr[v as usize - 1] = true;
        },
        CronSection::Multiple(v) => {
            let mut i: usize = 1;
            while i <= 31
                invariant
                    1 <= i <= 32,
                    forall|x: int| 0 <= x < 31 ==> arr@[x] == (x + 1 < i && v@[x + 1]),
                decreases 32 - i,
            {
                if v[i] {
                    arr[i - 1] = true;
                }
                i = i + 1;
            }
        },
        CronSection::EveryNth(v) => {
            step_flags_31(&mut arr, 0, v as usize);
        },
        CronSection::StartingAtXEveryNth(x, n) => {
            step_flags_31(&mut arr, x as usize - 1, n as usize);
        },
    }
    arr
}

/// Marks every `v`th entry of `arr` from `start` on.
fn step_flags_31(arr: &mut [bool; 31], start: usize, v: usize)
    requires
        start < 31,
        1 <= v <= 31,
        forall|x: int| 0 <= x < 31 ==> !old(arr)@[x],
    ensures
        forall|x: int| 0 <= x < 31 ==> final(arr)@[x] == (x >= start && (x - start) % (v as int) == 0),
{
    let mut i = start;
    proof {
        vstd::arithmetic::div_mod::lemma_small_mod(0, v as nat);
    }
    while i < 31
        invariant
            start <= i < 31 + v,
            1 <= v <= 31,
            (i - start) % (v as int) == 0,
            forall|x: int|
                0 <= x < 31 ==> arr@[x] == (start <= x < i && (x - start) % (v as int) == 0),
        decreases 31 + v - i,
    {
        arr[i] = true;
        proof {
            assert forall|x: int| 0 <= x < 31 implies #[trigger] arr@[x] == (start <= x < i + v && (x
                - start) % (v as int) == 0) by {
                if i <= x < i + v {
                    lemma_step_window(x, i as int, start as int, v as int);
                }
            }
            lemma_step_window(i as int, i as int, start as int, v as int);
        }
        i = i + v;
    }
}

/// Marks every `v`th entry of `arr` from `start` on.
fn step_flags_12(arr: &mut [bool; 12], start: usize, v: usize)
    requires
        start < 12,
        1 <= v <= 12,
        forall|x: int| 0 <= x < 12 ==> !old(arr)@[x],
    ensures
        forall|x: int| 0 <= x < 12 ==> final(arr)@[x] == (x >= start && (x - start) % (v as int) == 0),
{
    let mut i = start;
    proof {
        vstd::arithmetic::div_mod::lemma_small_mod(0, v as nat);
    }
    while i < 12
        invariant
            start <= i < 12 + v,
            1 <= v <= 12,
            (i - start) % (v as int) == 0,
            forall|x: int|
                0 <= x < 12 ==> arr@[x] == (start <= x < i && (x - start) % (v as int) == 0),
        decreases 12 + v - i,
    {
        arr[i] = true;
        proof {
            assert forall|x: int| 0 <= x < 12 implies #[trigger] arr@[x] == (start <= x < i + v && (x
                - start) % (v as int) == 0) by {
                if i <= x < i + v {
                    lemma_step_window(x, i as int, start as int, v as int);
                }
            }
            lemma_step_window(i as int, i as int, start as int, v as int);
        }
        i = i + v;
    }
}

/// The table of months that a month section selects.
fn month_flags(sec: CronSection) -> (r: [bool; 12])
    requires
        sec@.spec_within(1, 12) is Ok,
    ensures
        forall|i: int| 0 <= i < 12 ==> r@[i] == numbered_allowed(sec@, i),
{
    let mut arr = [false; 12];
    match sec {
        CronSection::EveryTime => {
            arr = [true; 12];
        },
        CronSection::At(v) => {
            arr[v as usize - 1] = true;
        },
        CronSection::Multiple(v) => {
            let mut i: usize = 1;
            while i <= 12
                invariant
                    1 <= i <= 13,
                    forall|x: int| 0 <= x < 12 ==> arr@[x] == (x + 1 < i && v@[x + 1]),
                decreases 13 - i,
            {
                if v[i] {
                    arr[i - 1] = true;
                }
                i = i + 1;
            }
        },
        CronSection::EveryNth(v) => {
            step_flags_12(&mut arr, 0, v as usize);
        },
        CronSection::StartingAtXEveryNth(x, n) => {
            step_flags_12(&mut arr, x as usize - 1, n as usize);
        },
    }
    arr
}

/// The table of week days that a day of week section selects.
fn week_day_flags(sec: CronSection) -> (r: [bool; 7])
    requires
        sec@.spec_within(0, 7) is Ok,
        sec@.steps_forward(),
    ensures
        forall|i: int| 0 <= i < 7 ==> r@[i] == weekday_allowed(sec@, i),
{
    let mut arr = [false; 7];
    match sec {
        CronSection::EveryTime => {
            arr = [true; 7];
        },
        CronSection::At(v) => {
            arr[v as usize % 7] = true;
        },
        CronSection::Multiple(v) => {
            let mut i: usize = 0;
            while i <= 7
                invariant
                    i <= 8,
                    forall|x: int| 0 <= x < 7 ==> arr@[x] == ((x < i && v@[x]) || (x == 0 && i > 7 && v@[7])),
                decreases 8 - i,
            {
                if v[i] {
                    arr[i % 7] = true;
                }
                i = i + 1;
            }
        },
        CronSection::EveryNth(v) => {
            week_step_flags(&mut arr, 0, v as usize);
            proof {
                vstd::arithmetic::div_mod::lemma_small_mod(0, v as nat);
            }
        },
        CronSection::StartingAtXEveryNth(x, n) => {
            week_step_flags(&mut arr, x as usize, n as usize);
        },
    }
    arr
}

/// Marks the week days `start`, `start + v`, ... up to 7, counting 7 as 0.
fn week_step_flags(arr: &mut [bool; 7], start: usize, v: usize)
    requires
        start <= 7,
        1 <= v <= 7,
        forall|x: int| 0 <= x < 7 ==> !old(arr)@[x],
    ensures
        forall|x: int|
            0 <= x < 7 ==> final(arr)@[x] == ((start <= x && (x - start) % (v as int) == 0) || (x == 0
                && (7 - start) % (v as int) == 0)),
{
    let mut i = start;
    proof {
        vstd::arithmetic::div_mod::lemma_small_mod(0, v as nat);
    }
    while i <= 7
        invariant
            start <= i <= 7 + v,
            1 <= v <= 7,
            start <= 7,
            (i - start) % (v as int) == 0,
            forall|x: int|
                0 <= x < 7 ==> arr@[x] == ((start <= x < i && (x - start) % (v as int) == 0) || (x == 0
                    && 7 < i && (7 - start) % (v as int) == 0)),
        decreases 8 + v - i,
    {
        arr[i % 7] = true;
        proof {
            lemma_step_window(i as int, i as int, start as int, v as int);
            if i < 7 < i + v {
                lemma_step_window(7, i as int, start as int, v as int);
            }
            assert forall|x: int| 0 <= x < 7 implies #[trigger] arr@[x] == ((start <= x < i + v && (x
                - start) % (v as int) == 0) || (x == 0 && 7 < i + v && (7 - start) % (v as int)
                == 0)) by {
                if i <= x < i + v {
                    lemma_step_window(x, i as int, start as int, v as int);
                }
            }
        }
        i = i + v;
    }
}

/// One section of a cron string read and checked against `min..=max`: the
/// section, or `Err(None)` for a section in no format, or `Err(Some(v))` with
/// the first value outside the range.
pub open spec fn spec_field(s: Seq<char>, min: u8, max: u8) -> Result<CronSectionView, Option<u8>> {
    match spec_parse_section(s) {
        None => Err(None),
        Some(sec) => match sec.spec_within(min, max) {
            Err(v) => Err(Some(v)),
            Ok(_) => Ok(sec),
        },
    }
}

/// What [`CronTime::new`] makes of the cron string `s`.
pub open spec fn spec_parse_cron(s: Seq<char>) -> Result<CronTimeView, CronParsingError> {
    let parts = split(trim(s), ' ');
    if parts.len() != 5 {
        Err(CronParsingError::NotCorrectLength)
    } else {
        match spec_field(parts[0], 0, 59) {
            Err(None) => Err(CronParsingError::MinuteIsNotCorrectFormat),
            Err(Some(v)) => Err(CronParsingError::MinuteIsTooBig(v)),
            Ok(minute) => match spec_field(parts[1], 0, 23) {
                Err(None) => Err(CronParsingError::HourIsNotCorrectFormat),
                Err(Some(v)) => Err(CronParsingError::HourIsTooBig(v)),
                Ok(hour) => match spec_field(parts[2], 1, 31) {
                    Err(None) => Err(CronParsingError::DayOfMonthIsNotCorrectFormat),
                    Err(Some(v)) => Err(CronParsingError::DayOfMonthIsOutsideRange(v)),
                    Ok(day_of_month) => match spec_field(parts[3], 1, 12) {
                        Err(None) => Err(CronParsingError::MonthIsNotCorrectFormat),
                        Err(Some(v)) => Err(CronParsingError::MonthIsOutsideRange(v)),
                        Ok(month) => match spec_field(parts[4], 0, 7) {
                            Err(None) => Err(CronParsingError::DayOfWeekIsNotCorrectFormat),
                            Err(Some(v)) => Err(CronParsingError::DayOfWeekIsTooBig(v)),
                            Ok(day_of_week) => Ok(
                                CronTimeView { minute, hour, day_of_month, month, day_of_week },
                            ),
                        },
                    },
                },
            },
        }
    }
}

/// Parsing ignores white space before and after the cron string: tabs,
/// line feeds, carriage returns, spaces and every other Unicode `White_Space`
/// character, as `str::trim` drops them.
pub proof fn law_parse_ignores_surrounding_white_space(w1: Seq<char>, s: Seq<char>, w2: Seq<char>)
    requires
        forall|i: int|
            0 <= i < w1.len() + w2.len() ==> {
                let c = #[trigger] (w1 + w2)[i];
                ||| '\t' <= c <= '\r'
                ||| c == ' '
                ||| c == '\u{85}'
                ||| c == '\u{A0}'
                ||| c == '\u{1680}'
                ||| '\u{2000}' <= c <= '\u{200A}'
                ||| c == '\u{2028}'
                ||| c == '\u{2029}'
                ||| c == '\u{202F}'
                ||| c == '\u{205F}'
                ||| c == '\u{3000}'
            },
    ensures
        spec_parse_cron(w1 + s + w2) == spec_parse_cron(s),
{
    assert(all_white(w1)) by {
        assert forall|i: int| 0 <= i < w1.len() implies is_whitespace(#[trigger] w1[i]) by {
            assert((w1 + w2)[i] == w1[i]);
        }
    }
    assert(all_white(w2)) by {
        assert forall|i: int| 0 <= i < w2.len() implies is_whitespace(#[trigger] w2[i]) by {
            assert((w1 + w2)[w1.len() + i] == w2[i]);
        }
    }
    lemma_trim_ignores_white(w1, s, w2);
}

proof fn lemma_split_nonempty(s: Seq<char>, c: char)
    ensures
        split(s, c).len() >= 1,
{
    reveal_with_fuel(split, 2);
}

/// Every section that parses is proper.
proof fn lemma_parsed_section_is_proper(s: Seq<char>)
    ensures
        spec_parse_section(s) matches Some(sec) ==> sec.is_proper(),
{
    if let Some(CronSectionView::Multiple(a)) = spec_parse_section(s) {
        let pieces = split(s, ',');
        lemma_split_nonempty(s, ',');
        assert(piece_bounds(pieces[0]) is Some);
        let (lo, hi) = piece_bounds(pieces[0]).unwrap();
        assert(piece_covers(pieces, 0, lo as int));
        assert(a[lo as int]);
    }
}

/// Reads the section in `s[lo..hi]` and checks it against `min..=max`.
fn parse_field(s: &Vec<char>, lo: usize, hi: usize, min: u8, max: u8) -> (r: Result<
    CronSection,
    Option<u8>,
>)
    requires
        lo <= hi <= s.len(),
        min <= max <= 59,
    ensures
        match r {
            Ok(c) => spec_field(s@.subrange(lo as int, hi as int), min, max) == Ok::<
                CronSectionView,
                Option<u8>,
            >(c@) && c@.is_proper(),
            Err(e) => spec_field(s@.subrange(lo as int, hi as int), min, max) == Err::<
                CronSectionView,
                Option<u8>,
            >(e),
        },
{
    proof {
        lemma_parsed_section_is_proper(s@.subrange(lo as int, hi as int));
    }
    match parse_section(s, lo, hi) {
        None => Err(None),
        Some(sec) => match sec.within(min, max) {
            Err(v) => Err(Some(v)),
            Ok(_) => Ok(sec),
        },
    }
}

impl CronTime {
    /// Converts the sections for day of month, month and day of week into
    /// the tables of valid days (day 1 at index 0), months (January at index
    /// 0) and week days (Sunday at index 0).
    fn get_valid_times(day_of_month: CronSection, month: CronSection, day_of_week: CronSection) -> (r: (
        [bool; 31],
        [bool; 12],
        [bool; 7],
    ))
        requires
            day_of_month@.spec_within(1, 31) is Ok,
            month@.spec_within(1, 12) is Ok,
            day_of_week@.spec_within(0, 7) is Ok,
            day_of_week@.steps_forward(),
        ensures
            forall|i: int| 0 <= i < 31 ==> r.0@[i] == numbered_allowed(day_of_month@, i),
            forall|i: int| 0 <= i < 12 ==> r.1@[i] == numbered_allowed(month@, i),
            forall|i: int| 0 <= i < 7 ==> r.2@[i] == weekday_allowed(day_of_week@, i),
    {
        (day_flags(day_of_month), month_flags(month), week_day_flags(day_of_week))
    }

    /// Parses a cron string into a [`CronTime`].
    ///
    /// # Errors
    ///
    /// This function errors if the cron string is not a valid cron string.
    pub fn new(cron: &str) -> (r: Result<Self, CronParsingError>)
        ensures
            match r {
                Ok(t) => spec_parse_cron(cron@) == Ok::<CronTimeView, CronParsingError>(t@),
                Err(e) => spec_parse_cron(cron@) == Err::<CronTimeView, CronParsingError>(e),
            },
    {
        let s = chars_of(cron);
        let (lo, hi) = trim_bounds(&s);
        let parts = split_bounds(&s, lo, hi, ' ');
        if parts.len() != 5 {
            return Err(CronParsingError::NotCorrectLength);
        }
        let minute = match parse_field(&s, parts[0].0, parts[0].1, 0, 59) {
            Ok(x) => x,
            Err(None) => return Err(CronParsingError::MinuteIsNotCorrectFormat),
            Err(Some(v)) => return Err(CronParsingError::MinuteIsTooBig(v)),
        };
        let hour = match parse_field(&s, parts[1].0, parts[1].1, 0, 23) {
            Ok(x) => x,
            Err(None) => return Err(CronParsingError::HourIsNotCorrectFormat),
            Err(Some(v)) => return Err(CronParsingError::HourIsTooBig(v)),
        };
        let day_of_month = match parse_field(&s, parts[2].0, parts[2].1, 1, 31) {
            Ok(x) => x,
            Err(None) => return Err(CronParsingError::DayOfMonthIsNotCorrectFormat),
            Err(Some(v)) => return Err(CronParsingError::DayOfMonthIsOutsideRange(v)),
        };
        let month = match parse_field(&s, parts[3].0, parts[3].1, 1, 12) {
            Ok(x) => x,
            Err(None) => return Err(CronParsingError::MonthIsNotCorrectFormat),
            Err(Some(v)) => return Err(CronParsingError::MonthIsOutsideRange(v)),
        };
        let day_of_week = match parse_field(&s, parts[4].0, parts[4].1, 0, 7) {
            Ok(x) => x,
            Err(None) => return Err(CronParsingError::DayOfWeekIsNotCorrectFormat),
            Err(Some(v)) => return Err(CronParsingError::DayOfWeekIsTooBig(v)),
        };
        let (valid_days, valid_months, valid_week_days) = CronTime::get_valid_times(
            day_of_month,
            month,
            day_of_week,
        );
        Ok(CronTime {
            minute,
            hour,
            day_of_month,
            month,
            day_of_week,
            valid_days,
            valid_months,
            valid_week_days,
        })
    }

    /// Builds a [`CronTime`] from the sections `[minute, hour, day_of_month,
    /// month, day_of_week]`, which must lie in their ranges; a step of the
    /// day of week must be at least one.
    pub fn new_unchecked(cron: &[CronSection]) -> (r: Self)
        requires
            cron@.len() >= 5,
            (CronTimeView {
                minute: cron@[0]@,
                hour: cron@[1]@,
                day_of_month: cron@[2]@,
                month: cron@[3]@,
                day_of_week: cron@[4]@,
            }).is_well_formed(),
        ensures
            r@ == (CronTimeView {
                minute: cron@[0]@,
                hour: cron@[1]@,
                day_of_month: cron@[2]@,
                month: cron@[3]@,
                day_of_week: cron@[4]@,
            }),
    {
        let (valid_days, valid_months, valid_week_days) = CronTime::get_valid_times(
            cron[2],
            cron[3],
            cron[4],
        );
        CronTime {
            minute: cron[0],
            hour: cron[1],
            day_of_month: cron[2],
            month: cron[3],
            day_of_week: cron[4],
            valid_days,
            valid_months,
            valid_week_days,
        }
    }

    /// Returns the array representation of this: `[minute, hour,
    /// day_of_month, month, day_of_week]`.
    pub fn into_array(self) -> (r: [CronSection; 5])
        ensures
            r@[0]@ == self@.minute,
            r@[1]@ == self@.hour,
            r@[2]@ == self@.day_of_month,
            r@[3]@ == self@.month,
            r@[4]@ == self@.day_of_week,
    {
        [self.minute, self.hour, self.day_of_month, self.month, self.day_of_week]
    }
}

/// Building a cron time from the array that [`CronTime::into_array`] gives
/// returns the same cron time: the sections that `new_unchecked` reads from
/// the array are those of the cron time.
pub proof fn law_array_rebuilds_cron_time(t: CronTimeView, a: Seq<CronSection>)
    requires
        a.len() == 5,
        a[0]@ == t.minute,
        a[1]@ == t.hour,
        a[2]@ == t.day_of_month,
        a[3]@ == t.month,
        a[4]@ == t.day_of_week,
    ensures
        (CronTimeView {
            minute: a[0]@,
            hour: a[1]@,
            day_of_month: a[2]@,
            month: a[3]@,
            day_of_week: a[4]@,
        }) == t,
{
}

impl std::str::FromStr for CronTime {
    type Err = CronParsingError;

    /// Parses a cron string, as [`CronTime::new`] does.
    fn from_str(s: &str) -> (r: Result<Self, Self::Err>)
        ensures
            match r {
                Ok(t) => spec_parse_cron(s@) == Ok::<CronTimeView, CronParsingError>(t@),
                Err(e) => spec_parse_cron(s@) == Err::<CronTimeView, CronParsingError>(e),
            },
    {
        CronTime::new(s)
    }
}

} // verus!
