use webreg_ics::calendar::{fmt_date, fmt_u64, start_date_on_day, Timestamp};
use webreg_ics::date::Date;
use webreg_ics::types::{Course, Day, Days, Session, SessionType, Time, Timeslot};

fn term_start() -> Date {
    Date { year: 2024, month: 1, day: 8 }  // a Monday
}

fn term_end() -> Date {
    Date { year: 2024, month: 3, day: 16 }
}

fn now_stamp() -> Timestamp {
    Timestamp { date: Date { year: 2024, month: 1, day: 10 }, hour: 12, minute: 34, second: 56 }
}

fn course_with(sessions: Vec<Session>) -> Course {
    Course {
        code: "CSE 101".to_string(),
        title: "Algorithms".to_string(),
        sessions,
        instructor: "Smith, John".to_string(),
        units: 4,
        uuid: "0f443e5f-9f82-4be4-a07b-1e87f64fdefb".to_string(),
        start_date: term_start(),
        end_date: term_end(),
    }
}

fn weekly_session() -> Session {
    Session {
        section: Some("A00".to_string()),
        session_type: SessionType::Lecture,
        days: Days::Days(vec![Day::Monday, Day::Wednesday, Day::Friday]),
        timeslot: Some(Timeslot {
            start: Time { hour: 9, minute: 0 },
            end: Time { hour: 9, minute: 50 },
        }),
        building: "CENTR".to_string(),
        room: "115".to_string(),
    }
}

#[test]
fn weekly_session_round_trips_into_a_recurring_event() {
    let course = course_with(vec![weekly_session()]);
    let events = course.to_events(&now_stamp());
    assert_eq!(events.len(), 1);
    let e = &events[0];
    assert_eq!(e.start, "20240108T090000");
    assert_eq!(e.end, "20240108T095000");
    assert_eq!(
        e.rrule.as_deref(),
        Some("FREQ=WEEKLY;WKST=SU;UNTIL=20240316;BYDAY=MO,WE,FR")
    );
    assert_eq!(e.summary, "CSE 101 Lecture");
    assert_eq!(e.location, "CENTR 115");
    assert_eq!(e.uid, "0f443e5f-9f82-4be4-a07b-1e87f64fdefb-0");
    assert_eq!(e.tzid, "America/Los_Angeles");
    assert_eq!(e.transp, "OPAQUE");
    assert_eq!(e.changed, "20240110T123456");
}

#[test]
fn explicit_date_session_gets_a_single_dated_event() {
    let mut exam = weekly_session();
    exam.session_type = SessionType::Final;
    exam.days = Days::Date(Date { year: 2024, month: 2, day: 14 });
    let mut course = course_with(vec![exam]);
    let events = course.to_events(&now_stamp());
    assert_eq!(events.len(), 1);
    assert_eq!(events[0].start, "20240214T090000");
    assert!(events[0].rrule.is_none());
    // the explicit date wins regardless of the term dates
    course.start_date = Date { year: 2030, month: 6, day: 1 };
    course.end_date = Date { year: 2030, month: 9, day: 1 };
    let events = course.to_events(&now_stamp());
    assert_eq!(events[0].start, "20240214T090000");
    assert!(events[0].rrule.is_none());
}

#[test]
fn a_session_without_a_timeslot_yields_no_event() {
    let mut placeholder = weekly_session();
    placeholder.timeslot = None;
    let course = course_with(vec![placeholder, weekly_session()]);
    let events = course.to_events(&now_stamp());
    assert_eq!(events.len(), 1);
    // the surviving event keeps its session's index in its identifier
    assert_eq!(events[0].uid, "0f443e5f-9f82-4be4-a07b-1e87f64fdefb-1");
}

#[test]
fn empty_weekday_list_still_takes_the_weekly_branch() {
    let mut s = weekly_session();
    s.days = Days::Days(vec![]);
    let course = course_with(vec![s]);
    let events = course.to_events(&now_stamp());
    assert_eq!(events.len(), 1);
    // anchored on the earliest weekday's default, Monday = the term start
    assert_eq!(events[0].start, "20240108T090000");
    assert_eq!(
        events[0].rrule.as_deref(),
        Some("FREQ=WEEKLY;WKST=SU;UNTIL=20240316;BYDAY=")
    );
}

#[test]
fn anchor_lands_on_the_first_matching_weekday() {
    // 2024-01-08 is a Monday
    let start = term_start();
    let anchor = start_date_on_day(&start, Day::Monday);
    assert_eq!(anchor, Date { year: 2024, month: 1, day: 8 });
    let anchor = start_date_on_day(&start, Day::Friday);
    assert_eq!(anchor, Date { year: 2024, month: 1, day: 12 });
    // from a Tuesday, Monday lies six days ahead
    let tue = Date { year: 2024, month: 1, day: 9 };
    let anchor = start_date_on_day(&tue, Day::Monday);
    assert_eq!(anchor, Date { year: 2024, month: 1, day: 15 });
}

#[test]
fn shifting_the_start_a_week_shifts_the_anchor_a_week() {
    let start = Date { year: 2024, month: 1, day: 9 };
    let shifted = Date { year: 2024, month: 1, day: 16 };
    let a1 = start_date_on_day(&start, Day::Thursday);
    let a2 = start_date_on_day(&shifted, Day::Thursday);
    assert_eq!(a1, Date { year: 2024, month: 1, day: 11 });
    assert_eq!(a2, Date { year: 2024, month: 1, day: 18 });
}

#[test]
fn anchor_rolls_over_month_and_year_ends() {
    let dec = Date { year: 2023, month: 12, day: 30 };  // a Saturday
    let anchor = start_date_on_day(&dec, Day::Tuesday);
    assert_eq!(anchor, Date { year: 2024, month: 1, day: 2 });
}

#[test]
fn dates_and_numbers_format_zero_padded() {
    assert_eq!(fmt_date(&Date { year: 800, month: 3, day: 5 }), "08000305");
    assert_eq!(fmt_date(&Date { year: 2024, month: 12, day: 31 }), "20241231");
    assert_eq!(fmt_u64(0), "0");
    assert_eq!(fmt_u64(907), "907");
}

#[test]
fn weekday_codes_match_the_recurrence_vocabulary() {
    assert_eq!(Day::Monday.calendar_string(), "MO");
    assert_eq!(Day::Tuesday.calendar_string(), "TU");
    assert_eq!(Day::Wednesday.calendar_string(), "WE");
    assert_eq!(Day::Thursday.calendar_string(), "TH");
    assert_eq!(Day::Friday.calendar_string(), "FR");
    assert_eq!(Day::Saturday.calendar_string(), "SA");
    assert_eq!(Day::Sunday.calendar_string(), "SU");
}

#[test]
fn session_types_print_their_names() {
    assert_eq!(SessionType::Lecture.name(), "Lecture");
    assert_eq!(SessionType::Discussion.name(), "Discussion");
    assert_eq!(SessionType::Final.name(), "Final");
    assert_eq!(SessionType::Lab.name(), "Lab");
    assert_eq!(SessionType::Midterm.name(), "Midterm");
    assert_eq!(SessionType::Tutorial.name(), "Tutorial");
    assert_eq!(SessionType::Seminar.name(), "Seminar");
}
