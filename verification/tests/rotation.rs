use murpapier::entry::Wallpaper;
use murpapier::flags::Flags;
use murpapier::now::{current_minute_of_day, minute_of};
use murpapier::schedule::Schedule;
use murpapier::scheduler::{Action, Scheduler};

fn at(path: &str, hour: u32, min: u32) -> Wallpaper {
    let mut w = Wallpaper::new(path.to_string());
    w.set_time(hour, min);
    w
}

fn three() -> Schedule {
    Schedule::from_entries(vec![at("a", 0, 0), at("b", 8, 0), at("c", 16, 0)]).unwrap()
}

fn daytime() -> Schedule {
    Schedule::from_entries(vec![at("a", 6, 0), at("b", 12, 0), at("c", 18, 0)]).unwrap()
}

#[test]
fn half_past_ten_shows_b_and_waits_for_c() {
    let schedule = three();
    assert_eq!(schedule.locate(10 * 60 + 30), 1);
    let (scheduler, active) = Scheduler::start(schedule, 10 * 60 + 30);
    assert_eq!(scheduler.schedule().get(active).unwrap().path, "b");
    let next = scheduler.schedule().get(scheduler.cursor()).unwrap();
    assert_eq!((next.path.as_str(), next.hour, next.min), ("c", 16, 0));
}

#[test]
fn eleven_at_night_shows_c_and_waits_for_a() {
    let schedule = three();
    assert_eq!(schedule.locate(23 * 60), 2);
    let (scheduler, active) = Scheduler::start(schedule, 23 * 60);
    assert_eq!(scheduler.schedule().get(active).unwrap().path, "c");
    assert_eq!(scheduler.cursor(), 0);
    let next = scheduler.schedule().get(scheduler.cursor()).unwrap();
    assert_eq!((next.path.as_str(), next.hour, next.min), ("a", 0, 0));
}

#[test]
fn single_entry_is_always_active() {
    let schedule = Schedule::from_entries(vec![at("only", 9, 30)]).unwrap();
    for t in 0..1440 {
        assert_eq!(schedule.locate(t), 0);
    }
    let (mut scheduler, active) = Scheduler::start(schedule, 100);
    assert_eq!(active, 0);
    assert_eq!(scheduler.cursor(), 0);
    for t in 0..1440 {
        let action = scheduler.poll(t);
        if t <= 570 {
            assert_eq!(action, Action::WaitForMorning);
        } else {
            assert_eq!(action, Action::Apply(0));
        }
        assert_eq!(scheduler.cursor(), 0);
    }
}

#[test]
fn locate_finds_the_last_entry_due() {
    let schedule = daytime();
    assert_eq!(schedule.locate(6 * 60 + 1), 0);
    assert_eq!(schedule.locate(11 * 60 + 59), 0);
    assert_eq!(schedule.locate(12 * 60 + 1), 1);
    assert_eq!(schedule.locate(17 * 60 + 59), 1);
    assert_eq!(schedule.locate(18 * 60 + 1), 2);
    assert_eq!(schedule.locate(1439), 2);
}

#[test]
fn locate_at_the_very_minute_of_an_entry() {
    let schedule = daytime();
    assert_eq!(schedule.locate(6 * 60), 0);
    assert_eq!(schedule.locate(12 * 60), 1);
    assert_eq!(schedule.locate(18 * 60), 2);
    assert_eq!(three().locate(0), 0);
    assert_eq!(three().locate(8 * 60), 1);
}

#[test]
fn locate_before_the_first_entry_wraps_to_the_last() {
    let schedule = daytime();
    assert_eq!(schedule.locate(0), 2);
    assert_eq!(schedule.locate(5 * 60 + 59), 2);
}

#[test]
fn locate_meets_its_law_at_every_minute() {
    let schedule = Schedule::from_entries(vec![
        at("a", 3, 10),
        at("b", 3, 10),
        at("c", 7, 0),
        at("d", 20, 20),
        at("e", 23, 59),
    ])
    .unwrap();
    let n = schedule.len();
    for t in 0..1440u32 {
        let index = schedule.locate(t);
        assert!(index < n);
        let some_due = (0..n).any(|i| schedule.get(i).unwrap().minute_of_day() <= t as u64);
        if some_due {
            assert!(schedule.get(index).unwrap().minute_of_day() <= t as u64);
            for k in index + 1..n {
                assert!(schedule.get(k).unwrap().minute_of_day() > t as u64);
            }
        } else {
            assert_eq!(index, n - 1);
        }
    }
}

#[test]
fn locate_twice_gives_the_same_index() {
    let schedule = daytime();
    for t in 0..1440 {
        assert_eq!(schedule.locate(t), schedule.locate(t));
    }
    let again = daytime();
    for t in 0..1440 {
        assert_eq!(schedule.locate(t), again.locate(t));
    }
}

#[test]
fn entries_come_in_the_order_of_the_day() {
    let schedule = Schedule::from_entries(vec![at("c", 18, 0), at("a", 6, 0), at("b", 12, 0)])
        .unwrap();
    assert_eq!(schedule.len(), 3);
    assert_eq!(schedule.entry(0), &at("a", 6, 0));
    assert_eq!(schedule.entry(1), &at("b", 12, 0));
    assert_eq!(schedule.entry(2), &at("c", 18, 0));
    assert_eq!(schedule.get(2), Some(&at("c", 18, 0)));
    assert_eq!(schedule.get(3), None);
}

#[test]
fn locate_takes_times_beyond_the_day() {
    let schedule = daytime();
    assert_eq!(schedule.locate(1440), 2);
    assert_eq!(schedule.locate(u32::MAX), 2);
}

#[test]
fn start_puts_the_cursor_behind_the_active_entry() {
    let (scheduler, active) = Scheduler::start(daytime(), 7 * 60);
    assert_eq!((active, scheduler.cursor()), (0, 1));
    let (scheduler, active) = Scheduler::start(daytime(), 13 * 60);
    assert_eq!((active, scheduler.cursor()), (1, 2));
    let (scheduler, active) = Scheduler::start(daytime(), 19 * 60);
    assert_eq!((active, scheduler.cursor()), (2, 0));
    let (scheduler, active) = Scheduler::start(daytime(), 60);
    assert_eq!((active, scheduler.cursor()), (2, 0));
}

#[test]
fn poll_is_idle_until_the_entry_time_has_passed() {
    let (mut scheduler, _) = Scheduler::start(daytime(), 7 * 60);
    assert_eq!(scheduler.poll(7 * 60 + 1), Action::Idle);
    assert_eq!(scheduler.poll(11 * 60 + 59), Action::Idle);
    assert_eq!(scheduler.poll(12 * 60), Action::Idle);
    assert_eq!(scheduler.cursor(), 1);
    assert_eq!(scheduler.poll(12 * 60 + 1), Action::Apply(1));
    assert_eq!(scheduler.cursor(), 2);
    assert_eq!(scheduler.poll(12 * 60 + 2), Action::Idle);
    assert_eq!(scheduler.cursor(), 2);
}

#[test]
fn poll_waits_for_morning_up_to_the_last_entry_time() {
    let (mut scheduler, _) = Scheduler::start(daytime(), 60);
    assert_eq!(scheduler.cursor(), 0);
    assert_eq!(scheduler.poll(60), Action::WaitForMorning);
    assert_eq!(scheduler.poll(6 * 60 + 1), Action::WaitForMorning);
    assert_eq!(scheduler.poll(18 * 60 - 1), Action::WaitForMorning);
    assert_eq!(scheduler.poll(18 * 60), Action::WaitForMorning);
    assert_eq!(scheduler.cursor(), 0);
    assert_eq!(scheduler.poll(18 * 60 + 1), Action::Apply(0));
    assert_eq!(scheduler.cursor(), 1);
}

#[test]
fn poll_applies_the_entry_under_the_cursor() {
    let (mut scheduler, _) = Scheduler::start(three(), 10 * 60 + 30);
    assert_eq!(scheduler.poll(15 * 60 + 59), Action::Idle);
    let action = scheduler.poll(16 * 60 + 1);
    assert_eq!(action, Action::Apply(2));
    if let Action::Apply(index) = action {
        assert_eq!(scheduler.schedule().get(index).unwrap().path, "c");
    }
    assert_eq!(scheduler.cursor(), 0);
}

#[test]
fn poll_leaves_the_timetable_alone() {
    let (mut scheduler, _) = Scheduler::start(three(), 0);
    for t in (0..1440).step_by(7) {
        scheduler.poll(t);
        assert_eq!(scheduler.schedule().len(), 3);
        assert_eq!(scheduler.schedule().get(0), Some(&at("a", 0, 0)));
        assert_eq!(scheduler.schedule().get(1), Some(&at("b", 8, 0)));
        assert_eq!(scheduler.schedule().get(2), Some(&at("c", 16, 0)));
        assert!(scheduler.cursor() < 3);
    }
}

#[test]
fn cursor_returns_after_as_many_steps_as_entries() {
    for n in 1..=12u32 {
        let entries: Vec<Wallpaper> = (0..n).map(|i| at("p", i, 0)).collect();
        for start_minute in [0u32, 61, 200, 719, 1439] {
            let schedule = Schedule::from_entries(entries.clone()).unwrap();
            let (mut scheduler, _) = Scheduler::start(schedule, start_minute);
            let begin = scheduler.cursor();
            for step in 0..n {
                let expected = (begin + step as usize) % n as usize;
                assert_eq!(scheduler.poll(1439), Action::Apply(expected));
            }
            assert_eq!(scheduler.cursor(), begin);
        }
    }
}

#[test]
fn clock_reading_is_a_minute_of_the_day() {
    for _ in 0..100 {
        assert!(current_minute_of_day() < 1440);
    }
}

#[test]
fn minute_of_a_clock_reading() {
    assert_eq!(minute_of(0, 0), 0);
    assert_eq!(minute_of(10, 30), 630);
    assert_eq!(minute_of(23, 59), 1439);
}

#[test]
fn flags_are_words_anywhere_on_the_line() {
    let line = |words: &[&str]| -> Vec<String> { words.iter().map(|w| w.to_string()).collect() };
    let off = Flags { auto_mode: false, verbose_mode: false };
    assert_eq!(Flags::from_args(&line(&[])), off);
    assert_eq!(Flags::from_args(&line(&["murpapier"])), off);
    assert_eq!(
        Flags::from_args(&line(&["murpapier", "auto"])),
        Flags { auto_mode: true, verbose_mode: false }
    );
    assert_eq!(
        Flags::from_args(&line(&["murpapier", "verbose"])),
        Flags { auto_mode: false, verbose_mode: true }
    );
    assert_eq!(
        Flags::from_args(&line(&["verbose", "x", "auto", "auto"])),
        Flags { auto_mode: true, verbose_mode: true }
    );
    assert_eq!(Flags::from_args(&line(&["--auto", "Auto", "verbos", "autoverbose"])), off);
}
