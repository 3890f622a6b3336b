use tobys_lib::cron::{CronTime, Date, DateTime, Job, Scheduler, Time};

fn now() -> DateTime {
    let now = jiff::Zoned::now().datetime();
    DateTime {
        date: Date { year: now.year(), month: now.month(), day: now.day() },
        time: Time {
            hour: now.hour(),
            minute: now.minute(),
            second: now.second(),
            subsec_nanosecond: now.subsec_nanosecond(),
        },
    }
}

fn work() -> &'static str {
    "testing"
}

#[test]
fn basic_test() {
    let mut scheduler = Scheduler::new();
    let cron_time = CronTime::new("* * * * *").unwrap();
    scheduler.add_job(Job::new(cron_time, work as fn() -> &'static str));

    let current = now();
    let scheduler = scheduler.init(current);
    // move to next minute
    let next = cron_time.get_next_time(current).unwrap();
    let mut scheduler = scheduler;
    let jobs = scheduler.manual_tick(next);
    assert_eq!(jobs.len(), 1); // the added job must run now
    for job in jobs {
        assert_eq!(job(), "testing");
    }
}

fn every_minute() -> &'static str {
    "every minute (*)"
}

fn next_minute() -> &'static str {
    "next minute (+1)"
}

fn in_three_minutes() -> &'static str {
    "in 3 minutes (+3)"
}

fn is_sorted(scheduler: &Scheduler<tobys_lib::cron::Initialized, fn() -> &'static str>) -> bool {
    let times = scheduler.upcoming_times();
    times.windows(2).all(|w| match (w[0], w[1]) {
        (_, None) => true,
        (None, Some(_)) => false,
        (Some(a), Some(b)) => a <= b,
    })
}

#[test]
fn manual_tick_test() {
    let start = now();
    let every = CronTime::new("* * * * *").unwrap();

    let scheduler = Scheduler::new_with_jobs(vec![
        Job::new_with_string("* * * * *", every_minute as fn() -> &'static str).unwrap(),
        Job::new_with_string(&format!("{} * * * *", (start.time.minute + 1) % 60), next_minute as fn() -> &'static str)
            .unwrap(),
        Job::new_with_string(&format!("{} * * * *", (start.time.minute + 3) % 60), in_three_minutes as fn() -> &'static str)
            .unwrap(),
    ])
    .init(start);

    assert!(is_sorted(&scheduler));
    let mut scheduler = scheduler;

    let mut now = every.get_next_time(start).unwrap(); // move to next minute
    let jobs = scheduler.manual_tick(now);
    assert_eq!(jobs.len(), 2); // the * and +1 jobs should be here now
    assert!(is_sorted(&scheduler));

    now = every.get_next_time(now).unwrap(); // move to next minute
    let jobs = scheduler.manual_tick(now);
    assert_eq!(jobs.len(), 1); // the * job should be here now
    assert!(is_sorted(&scheduler));

    now = every.get_next_time(now).unwrap(); // move to next minute
    let jobs = scheduler.manual_tick(now);
    assert_eq!(jobs.len(), 2); // the * and +3 jobs should be here now
    assert!(is_sorted(&scheduler));
}
