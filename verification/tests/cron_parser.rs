use tobys_lib::cron::{CronParsingError, CronSection, CronTime, Date, DateTime, Time};

fn datetime(year: i16, month: i8, day: i8, hour: i8, minute: i8, second: i8, subsec_nanosecond: i32) -> DateTime {
    DateTime {
        date: Date { year, month, day },
        time: Time { hour, minute, second, subsec_nanosecond },
    }
}

fn joined(range: std::ops::RangeInclusive<u32>) -> String {
    range.map(|i| i.to_string()).collect::<Vec<_>>().join(",")
}

#[test]
fn section_parse_test() {
    // tests that all types of sections can be parsed
    assert_eq!(CronSection::new("*"), Some(CronSection::EveryTime));
    assert_eq!(CronSection::new("2"), Some(CronSection::At(2)));
    assert_eq!(
        CronSection::new("2,5,8,1,59,30"),
        Some(CronSection::Multiple([
            false, true, true, false, false, true, false, false, true,
            false, false, false, false, false, false, false, false, false,
            false, false, false, false, false, false, false, false, false,
            false, false, false, true, false, false, false, false, false,
            false, false, false, false, false, false, false, false, false,
            false, false, false, false, false, false, false, false, false,
            false, false, false, false, false, true
        ]))
    );
    assert_eq!(
        CronSection::new("5,8,30-45"),
        Some(CronSection::Multiple([
            false, false, false, false, false, true, false, false, true,
            false, false, false, false, false, false, false, false, false,
            false, false, false, false, false, false, false, false, false,
            false, false, false, true, true, true, true, true, true, true,
            true, true, true, true, true, true, true, true, true, false,
            false, false, false, false, false, false, false, false, false,
            false, false, false, false
        ]))
    );
    assert_eq!(CronSection::new("*/5"), Some(CronSection::EveryNth(5)));
    assert_eq!(CronSection::new("56/45"), Some(CronSection::StartingAtXEveryNth(56, 45)));

    // tests some bad parsing
    assert_eq!(CronSection::new("woah"), None);
    assert_eq!(CronSection::new("*/+"), None);
    assert_eq!(CronSection::new("*/dawi9dja90"), None);
    assert_eq!(CronSection::new("*/0"), None);
}

#[test]
fn time_parse_test() {
    // test parsing of 5 different sections in a cron time work
    let cron_time = CronTime::new("*/54 */12 * 4 1").unwrap();
    let [minute, hour, day_of_month, month, day_of_week] = cron_time.into_array();
    assert_eq!(minute, CronSection::EveryNth(54));
    assert_eq!(hour, CronSection::EveryNth(12));
    assert_eq!(day_of_month, CronSection::EveryTime);
    assert_eq!(month, CronSection::At(4));
    assert_eq!(day_of_week, CronSection::At(1));

    // wrong length
    assert_eq!(CronTime::new(" "), Err(CronParsingError::NotCorrectLength));
    assert_eq!(CronTime::new("* "), Err(CronParsingError::NotCorrectLength));
    assert_eq!(CronTime::new("* * "), Err(CronParsingError::NotCorrectLength));
    assert_eq!(CronTime::new("* * * "), Err(CronParsingError::NotCorrectLength));
    assert_eq!(CronTime::new("* * * * "), Err(CronParsingError::NotCorrectLength));

    // test parsing but outside ranges fail individually
    assert_eq!(CronTime::new("woah * * * *"), Err(CronParsingError::MinuteIsNotCorrectFormat));
    assert_eq!(CronTime::new("*/60 * * * *"), Err(CronParsingError::MinuteIsTooBig(60)));

    assert_eq!(CronTime::new("* woah * * *"), Err(CronParsingError::HourIsNotCorrectFormat));
    assert_eq!(CronTime::new("* */24 * * *"), Err(CronParsingError::HourIsTooBig(24)));

    assert_eq!(CronTime::new("* * woah * *"), Err(CronParsingError::DayOfMonthIsNotCorrectFormat));
    assert_eq!(CronTime::new("* * 0 * *"), Err(CronParsingError::DayOfMonthIsOutsideRange(0)));
    assert_eq!(CronTime::new("* * */32 * *"), Err(CronParsingError::DayOfMonthIsOutsideRange(32)));

    assert_eq!(CronTime::new("* * * woah *"), Err(CronParsingError::MonthIsNotCorrectFormat));
    assert_eq!(CronTime::new("* * * 0 *"), Err(CronParsingError::MonthIsOutsideRange(0)));
    assert_eq!(CronTime::new("* * * */13 *"), Err(CronParsingError::MonthIsOutsideRange(13)));

    assert_eq!(CronTime::new("* * * * woah"), Err(CronParsingError::DayOfWeekIsNotCorrectFormat));
    assert_eq!(CronTime::new("* * * * */8"), Err(CronParsingError::DayOfWeekIsTooBig(8)));
}

#[test]
fn valid_numbers_parse_test() {
    CronTime::new("0 * * * *").unwrap();
    for i in 1..=59 {
        CronTime::new(&format!("*/{i} * * * *")).unwrap();
        CronTime::new(&format!("{i}/{i} * * * *")).unwrap();
    }
    for i in 60..=u8::MAX {
        CronTime::new(&format!("{i} * * * *")).unwrap_err();
        CronTime::new(&format!("*/{i} * * * *")).unwrap_err();
        CronTime::new(&format!("{i}/{i} * * * *")).unwrap_err();
    }
    CronTime::new("0-59 * * * *").unwrap();
    CronTime::new("59-60 * * * *").unwrap_err();
    CronTime::new(&format!("60-{} * * * *", u8::MAX)).unwrap_err();
    CronTime::new(&format!("{} * * * *", joined(0..=59))).unwrap();
    CronTime::new(&format!("{} * * * *", joined(60..=u8::MAX as u32))).unwrap_err();

    CronTime::new("* 0 * * *").unwrap();
    for i in 1..=23 {
        CronTime::new(&format!("* {i} * * *")).unwrap();
        CronTime::new(&format!("* */{i} * * *")).unwrap();
        CronTime::new(&format!("* {i}/{i} * * *")).unwrap();
    }
    for i in 24..=u8::MAX {
        CronTime::new(&format!("* {i} * * *")).unwrap_err();
        CronTime::new(&format!("* */{i} * * *")).unwrap_err();
        CronTime::new(&format!("* {i}/{i} * * *")).unwrap_err();
    }
    CronTime::new("* 0-23 * * *").unwrap();
    CronTime::new("* 23-24 * * *").unwrap_err();
    CronTime::new(&format!("* 24-{} * * *", u8::MAX)).unwrap_err();
    CronTime::new(&format!("* {} * * *", joined(0..=23))).unwrap();
    CronTime::new(&format!("* {} * * *", joined(24..=u8::MAX as u32))).unwrap_err();

    for i in 1..=31 {
        CronTime::new(&format!("* * {i} * *")).unwrap();
        CronTime::new(&format!("* * */{i} * *")).unwrap();
        CronTime::new(&format!("* * {i}/{i} * *")).unwrap();
    }
    CronTime::new("* * 0 * *").unwrap_err();
    for i in 32..=u8::MAX {
        CronTime::new(&format!("* * {i} * *")).unwrap_err();
        CronTime::new(&format!("* * */{i} * *")).unwrap_err();
        CronTime::new(&format!("* * {i}/{i} * *")).unwrap_err();
    }
    CronTime::new("* * 0-1 * *").unwrap_err();
    CronTime::new("* * 1-31 * *").unwrap();
    CronTime::new("* * 31-32 * *").unwrap_err();
    CronTime::new(&format!("* * 32-{} * *", u8::MAX)).unwrap_err();
    CronTime::new(&format!("* * {} * *", joined(1..=31))).unwrap();
    CronTime::new(&format!("* * 0,{} * *", joined(32..=u8::MAX as u32))).unwrap_err();

    for i in 1..=12 {
        CronTime::new(&format!("* * * {i} *")).unwrap();
        CronTime::new(&format!("* * * */{i} *")).unwrap();
        CronTime::new(&format!("* * * {i}/{i} *")).unwrap();
    }
    CronTime::new("* * * 0 *").unwrap_err();
    for i in 13..=u8::MAX {
        CronTime::new(&format!("* * * {i} *")).unwrap_err();
        CronTime::new(&format!("* * * */{i} *")).unwrap_err();
        CronTime::new(&format!("* * * {i}/{i} *")).unwrap_err();
    }
    CronTime::new("* * * 0-1 *").unwrap_err();
    CronTime::new("* * * 1-12 *").unwrap();
    CronTime::new("* * * 12-13 *").unwrap_err();
    CronTime::new(&format!("* * * 13-{} *", u8::MAX)).unwrap_err();
    CronTime::new(&format!("* * * {} *", joined(1..=12))).unwrap();
    CronTime::new(&format!("* * * 0,{} *", joined(13..=u8::MAX as u32))).unwrap_err();

    CronTime::new("* * * * 0").unwrap();
    for i in 1..=7 {
        CronTime::new(&format!("* * * * {i}")).unwrap();
        CronTime::new(&format!("* * * * */{i}")).unwrap();
        CronTime::new(&format!("* * * * {i}/{i}")).unwrap();
    }
    for i in 8..=u8::MAX {
        CronTime::new(&format!("* * * * {i}")).unwrap_err();
        CronTime::new(&format!("* * * * */{i}")).unwrap_err();
        CronTime::new(&format!("* * * * {i}/{i}")).unwrap_err();
    }
    CronTime::new("* * * * 0-7").unwrap();
    CronTime::new("* * * * 7-8").unwrap_err();
    CronTime::new(&format!("* * * * 8-{}", u8::MAX)).unwrap_err();
    CronTime::new(&format!("* * * * {}", joined(0..=7))).unwrap();
    CronTime::new(&format!("* * * * {}", joined(8..=u8::MAX as u32))).unwrap_err();
}

#[test]
fn next_time_test() {
    let base_line = datetime(2026, 8, 30, 12, 0, 30, 0);

    // test that a lot of variants (of crontime) actually give the correct next date
    assert_eq!(
        CronTime::new("* * * * *").unwrap().get_next_time(base_line),
        Some(datetime(2026, 8, 30, 12, 1, 0, 0))
    );
    assert_eq!(
        CronTime::new("0 * * * *").unwrap().get_next_time(base_line),
        Some(datetime(2026, 8, 30, 13, 0, 0, 0))
    );
    assert_eq!(
        CronTime::new("0 12 * * *").unwrap().get_next_time(base_line),
        Some(datetime(2026, 8, 31, 12, 0, 0, 0))
    );
    assert_eq!(
        CronTime::new("0 */21 */7 */3 *").unwrap().get_next_time(base_line),
        Some(datetime(2026, 10, 1, 0, 0, 0, 0))
    );

    // next sunday
    assert_eq!(
        CronTime::new("0 12 * * 7").unwrap().get_next_time(base_line),
        Some(datetime(2026, 9, 6, 12, 0, 0, 0))
    );

    // next sunday/wednesday/saturday that is the 13th of the month
    assert_eq!(
        CronTime::new("0 12 13 * */3").unwrap().get_next_time(base_line),
        Some(datetime(2026, 9, 13, 12, 0, 0, 0))
    );

    // next friday the 13th
    assert_eq!(
        CronTime::new("0 12 13 * 5").unwrap().get_next_time(base_line),
        Some(datetime(2026, 11, 13, 12, 0, 0, 0))
    );

    // next day divisible by 10 (10, 20, 30)
    assert_eq!(
        CronTime::new("0 12 10/10 * *").unwrap().get_next_time(base_line),
        Some(datetime(2026, 9, 10, 12, 0, 0, 0))
    );
}

#[test]
fn sunday_as_seven_in_a_list() {
    // 2026-08-30 is a Sunday.
    let base_line = datetime(2026, 8, 30, 12, 0, 30, 0);
    assert_eq!(
        CronTime::new("0 13 * * 1,7").unwrap().get_next_time(base_line),
        Some(datetime(2026, 8, 30, 13, 0, 0, 0))
    );
    assert_eq!(
        CronTime::new("0 13 * * 1,6").unwrap().get_next_time(base_line),
        Some(datetime(2026, 8, 31, 13, 0, 0, 0))
    );
}

#[test]
fn next_time_never_on_an_earlier_date() {
    let base_line = datetime(2026, 8, 30, 23, 59, 0, 0);
    for text in ["* * * * *", "*/7 */5 * * *", "0 0 1 1 *", "3/4 2/9 */2 * 0,3"] {
        let next = CronTime::new(text).unwrap().get_next_time(base_line).unwrap();
        assert!(next.date >= base_line.date, "{text}");
    }
}

#[test]
fn section_to_string() {
    assert_eq!(CronSection::EveryTime.to_string(), "*");
    assert_eq!(CronSection::At(5).to_string(), "5");
    assert_eq!(CronSection::EveryNth(15).to_string(), "*/15");
    assert_eq!(CronSection::StartingAtXEveryNth(3, 20).to_string(), "3/20");
    assert_eq!(CronSection::new("5,8,30-33").unwrap().to_string(), "5,8,30,31,32,33");
}

#[test]
fn time_to_string() {
    assert_eq!(
        CronTime::new("*/54 */12 * 4 1").unwrap().to_string(),
        "*/54 */12 * 4 1"
    );
    assert_eq!(
        CronTime::new("  0,30 8-10 1/7 */3 0,7 ").unwrap().to_string(),
        "0,30 8,9,10 1/7 */3 0,7"
    );
}

#[test]
fn to_string_reads_back() {
    for text in ["* * * * *", "*/54 */12 * 4 1", "0,30 8-10 1/7 */3 0,7", "59 23 31 12 7"] {
        let t = CronTime::new(text).unwrap();
        assert_eq!(CronTime::new(&t.to_string()), Ok(t));
    }
    // A list of one value is written as that value, which reads back as a single value.
    let t = CronTime::new("5-5 * * * *").unwrap();
    assert_eq!(t.to_string(), "5 * * * *");
    assert_ne!(CronTime::new(&t.to_string()), Ok(t));
}
