use tobys_lib::cron::{CronParsingError, CronSection, CronTime, Date, DateTime, Job, Scheduler, Time};

fn at(year: i16, month: i8, day: i8, hour: i8, minute: i8) -> DateTime {
    DateTime {
        date: Date { year, month, day },
        time: Time { hour, minute, second: 0, subsec_nanosecond: 0 },
    }
}

fn list(values: &[usize]) -> CronSection {
    let mut a = [false; 60];
    for &v in values {
        a[v] = true;
    }
    CronSection::Multiple(a)
}

#[test]
fn within_reports_the_first_value_outside() {
    assert_eq!(CronSection::EveryTime.within(1, 12), Ok(()));
    assert_eq!(CronSection::At(0).within(1, 12), Err(0));
    assert_eq!(CronSection::EveryNth(13).within(1, 12), Err(13));
    assert_eq!(CronSection::StartingAtXEveryNth(2, 30).within(1, 12), Err(30));
    assert_eq!(CronSection::StartingAtXEveryNth(40, 30).within(1, 12), Err(40));
    assert_eq!(list(&[0, 5, 40]).within(1, 12), Err(0));
    assert_eq!(list(&[5, 40, 13]).within(1, 12), Err(13));
    assert_eq!(list(&[5, 59]).within(0, 59), Ok(()));
    assert!(list(&[3, 7]).within_bool(3, 7));
    assert!(!list(&[3, 8]).within_bool(3, 7));
}

#[test]
fn error_predicates() {
    let e = CronTime::new("* *").unwrap_err();
    assert!(e.is_not_correct_length());
    assert!(!e.is_minute_is_not_correct_format());
    assert!(CronTime::new("x * * * *").unwrap_err().is_minute_is_not_correct_format());
    assert!(CronTime::new("60 * * * *").unwrap_err().is_minute_is_too_big());
    assert!(CronTime::new("* x * * *").unwrap_err().is_hour_is_not_correct_format());
    assert!(CronTime::new("* 24 * * *").unwrap_err().is_hour_is_too_big());
    assert!(CronTime::new("* * x * *").unwrap_err().is_day_of_month_is_not_correct_format());
    assert!(CronTime::new("* * 0 * *").unwrap_err().is_day_of_month_is_outside_range());
    assert!(CronTime::new("* * * x *").unwrap_err().is_month_is_not_correct_format());
    assert!(CronTime::new("* * * 13 *").unwrap_err().is_month_is_outside_range());
    assert!(CronTime::new("* * * * x").unwrap_err().is_day_of_week_is_not_correct_format());
    assert!(CronTime::new("* * * * 8").unwrap_err().is_day_of_week_is_too_big());
    assert_eq!(CronTime::new("1,2,61 * * * *"), Err(CronParsingError::MinuteIsNotCorrectFormat));
    assert_eq!("* * * * 9".parse::<CronTime>(), Err(CronParsingError::DayOfWeekIsTooBig(9)));
}

#[test]
fn unchecked_and_array_agree() {
    let t = CronTime::new("5 */2 1-3 4/2 0,7").unwrap();
    let again = CronTime::new_unchecked(&t.into_array());
    assert_eq!(again, t);
    assert_eq!(again.into_array()[1], CronSection::EveryNth(2));
}

#[test]
fn list_of_minutes_at_minute_fifty_nine() {
    let t = CronTime::new("0,30 * * * *").unwrap();
    assert_eq!(t.get_next_time(at(2026, 1, 1, 10, 59)), Some(at(2026, 1, 1, 11, 0)));
    assert_eq!(t.get_next_time(at(2026, 1, 1, 10, 58)), Some(at(2026, 1, 1, 11, 0)));
    assert_eq!(t.get_next_time(at(2026, 1, 1, 10, 0)), Some(at(2026, 1, 1, 10, 30)));
}

#[test]
fn no_date_left() {
    let t = CronTime::new("0 0 1 1 *").unwrap();
    assert_eq!(t.get_next_time(at(9999, 6, 1, 0, 0)), None);
}

fn first() -> u8 {
    1
}

fn second() -> u8 {
    2
}

#[test]
fn ticking_keeps_every_job() {
    let start = at(2026, 3, 1, 9, 0);
    let mut scheduler = Scheduler::new();
    scheduler.add_job(Job::new_with_string("*/10 * * * *", first as fn() -> u8).unwrap());
    let mut scheduler = scheduler.init(start);
    scheduler.add_job(Job::new_with_string("5 * * * *", second as fn() -> u8).unwrap(), start);
    assert_eq!(
        scheduler.upcoming_times(),
        vec![Some(at(2026, 3, 1, 9, 5)), Some(at(2026, 3, 1, 9, 10))]
    );
    // Nothing is due yet.
    assert!(scheduler.manual_tick(at(2026, 3, 1, 9, 4)).is_empty());
    // Both jobs are due.
    let due = scheduler.manual_tick(at(2026, 3, 1, 9, 10));
    assert_eq!(due.iter().map(|f| f()).collect::<Vec<_>>(), vec![2, 1]);
    assert_eq!(
        scheduler.upcoming_times(),
        vec![Some(at(2026, 3, 1, 9, 20)), Some(at(2026, 3, 1, 10, 5))]
    );
    let due = scheduler.manual_tick(at(2026, 3, 1, 10, 5));
    assert_eq!(due.iter().map(|f| f()).collect::<Vec<_>>(), vec![1, 2]);
    assert_eq!(scheduler.upcoming_times().len(), 2);
    assert_eq!(Job::new_with_string("61 * * * *", first as fn() -> u8).err(), Some(CronParsingError::MinuteIsTooBig(61)));
}

#[test]
fn next_time_is_the_next_selected_minute() {
    let t = CronTime::new("*/36 5,18 * * *").unwrap();
    let curr = DateTime {
        date: Date { year: 2026, month: 3, day: 23 },
        time: Time { hour: 5, minute: 37, second: 1, subsec_nanosecond: 0 },
    };
    assert_eq!(t.get_next_time(curr), Some(at(2026, 3, 23, 18, 0)));
    let half_past = DateTime {
        date: Date { year: 2026, month: 8, day: 30 },
        time: Time { hour: 12, minute: 5, second: 30, subsec_nanosecond: 0 },
    };
    // A step lands on the next multiple, not on the current minute.
    assert_eq!(CronTime::new("*/5 * * * *").unwrap().get_next_time(half_past), Some(at(2026, 8, 30, 12, 10)));
    // The minute starts over when the hour moves on.
    assert_eq!(CronTime::new("* 12 * * *").unwrap().get_next_time(at(2026, 8, 30, 11, 30)), Some(at(2026, 8, 30, 12, 0)));
    // The current hour is still open while a later minute of it is selected.
    assert_eq!(
        CronTime::new("0,30 9,10 * * *").unwrap().get_next_time(at(2026, 8, 30, 9, 10)),
        Some(at(2026, 8, 30, 9, 30))
    );
    // Exactly at a selected minute, the next one is later.
    assert_eq!(CronTime::new("*/5 * * * *").unwrap().get_next_time(at(2026, 8, 30, 12, 5)), Some(at(2026, 8, 30, 12, 10)));
}

#[test]
fn sections_that_select_little() {
    // A minute step of zero selects minute zero only.
    let zero_step = CronTime::new_unchecked(&[
        CronSection::EveryNth(0),
        CronSection::EveryTime,
        CronSection::EveryTime,
        CronSection::EveryTime,
        CronSection::EveryTime,
    ]);
    assert_eq!(zero_step.get_next_time(at(2026, 1, 1, 10, 0)), Some(at(2026, 1, 1, 11, 0)));
    // An empty list of minutes selects no time at all.
    let empty = CronTime::new_unchecked(&[
        CronSection::Multiple([false; 60]),
        CronSection::EveryTime,
        CronSection::EveryTime,
        CronSection::EveryTime,
        CronSection::EveryTime,
    ]);
    assert_eq!(empty.get_next_time(at(2026, 1, 1, 10, 0)), None);
    assert_eq!(empty.into_array()[0], CronSection::Multiple([false; 60]));
    // The 30th of February never comes.
    let never = CronTime::new("0 0 30 2 *").unwrap();
    assert_eq!(never.get_next_time(at(9990, 1, 1, 0, 0)), None);
}

#[test]
fn plain_sections_give_a_later_selected_time() {
    let curr = DateTime {
        date: Date { year: 2026, month: 9, day: 7 },
        time: Time { hour: 10, minute: 51, second: 53, subsec_nanosecond: 0 },
    };
    let daily = CronTime::new("30 8 * * *").unwrap();
    assert_eq!(daily.get_next_time(curr), Some(at(2026, 9, 8, 8, 30)));
    let hourly = CronTime::new("15 * * * 1").unwrap();
    assert_eq!(hourly.get_next_time(curr), Some(at(2026, 9, 7, 11, 15)));
    // On a later date the first selected minute of the day is taken.
    let monthly = CronTime::new("* 8 26 * *").unwrap();
    assert_eq!(monthly.get_next_time(curr), Some(at(2026, 9, 26, 8, 0)));
}
