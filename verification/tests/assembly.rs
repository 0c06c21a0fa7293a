use webreg_ics::date::Date;
use webreg_ics::parse::Row;
use webreg_ics::types::{Course, Day, Days, ParseError, Session, SessionType, Time, Timeslot};

fn term_start() -> Date {
    Date { year: 2024, month: 1, day: 8 }
}

fn term_end() -> Date {
    Date { year: 2024, month: 3, day: 16 }
}

fn slot() -> Timeslot {
    Timeslot { start: Time { hour: 9, minute: 0 }, end: Time { hour: 9, minute: 50 } }
}

/// A row that opens a course: carries the course-level fields too.
fn course_row(code: &str) -> Row {
    Row {
        code: Some(code.to_string()),
        title: Some("Algorithms".to_string()),
        section: Some("A00".to_string()),
        session_type: Some(SessionType::Lecture),
        instructor: Some("Smith, John".to_string()),
        units: Some(4),
        days: Some(Days::Days(vec![Day::Monday, Day::Wednesday, Day::Friday])),
        timeslot: Some(slot()),
        building: Some("CENTR".to_string()),
        room: Some("115".to_string()),
    }
}

/// A continuation row: session fields only.
fn session_row(session_type: SessionType) -> Row {
    Row {
        code: None,
        title: None,
        section: None,
        session_type: Some(session_type),
        instructor: None,
        units: None,
        days: Some(Days::Days(vec![Day::Tuesday])),
        timeslot: Some(slot()),
        building: Some("CENTR".to_string()),
        room: Some("115".to_string()),
    }
}

#[test]
fn one_course_collects_its_following_session_rows() {
    let rows = vec![course_row("CSE 101"), session_row(SessionType::Discussion)];
    let courses = Course::from_rows(rows, term_start(), term_end()).expect("courses");
    assert_eq!(courses.len(), 1);
    let c = &courses[0];
    assert_eq!(c.code, "CSE 101");
    assert_eq!(c.title, "Algorithms");
    assert_eq!(c.instructor, "Smith, John");
    assert_eq!(c.units, 4);
    assert_eq!(c.sessions.len(), 2);
    // sessions are kept in the order the reverse scan collected them
    assert!(matches!(c.sessions[0].session_type, SessionType::Discussion));
    assert!(matches!(c.sessions[1].session_type, SessionType::Lecture));
    assert_eq!(c.uuid.len(), 36);
    assert_eq!(c.start_date, term_start());
    assert_eq!(c.end_date, term_end());
}

#[test]
fn course_count_matches_course_defining_rows() {
    let rows = vec![
        course_row("CSE 101"),
        session_row(SessionType::Discussion),
        course_row("MATH 20C"),
        course_row("HIST 2"),
        session_row(SessionType::Final),
    ];
    let courses = Course::from_rows(rows, term_start(), term_end()).expect("courses");
    assert_eq!(courses.len(), 3);
    assert_eq!(courses[0].code, "CSE 101");
    assert_eq!(courses[1].code, "MATH 20C");
    assert_eq!(courses[2].code, "HIST 2");
    // the in-between session row belongs to the earlier course
    assert_eq!(courses[0].sessions.len(), 2);
    assert_eq!(courses[1].sessions.len(), 1);
    assert_eq!(courses[2].sessions.len(), 2);
}

#[test]
fn distinct_courses_get_distinct_identifiers() {
    let rows = vec![course_row("CSE 101"), course_row("MATH 20C")];
    let courses = Course::from_rows(rows, term_start(), term_end()).expect("courses");
    assert_eq!(courses.len(), 2);
    assert_eq!(courses[0].uuid.len(), 36);
    assert_eq!(courses[1].uuid.len(), 36);
    assert_ne!(courses[0].uuid, courses[1].uuid);
}

#[test]
fn leading_session_rows_without_a_course_are_dropped() {
    let rows = vec![session_row(SessionType::Lab)];
    let courses = Course::from_rows(rows, term_start(), term_end()).expect("courses");
    assert!(courses.is_empty());
    let rows = vec![session_row(SessionType::Lab), course_row("CSE 101")];
    let courses = Course::from_rows(rows, term_start(), term_end()).expect("courses");
    assert_eq!(courses.len(), 1);
    assert_eq!(courses[0].sessions.len(), 1);
}

#[test]
fn missing_units_fails_the_whole_conversion() {
    let mut bad = course_row("CSE 101");
    bad.units = None;
    let rows = vec![course_row("MATH 20C"), bad];
    let err = Course::from_rows(rows, term_start(), term_end()).unwrap_err();
    assert_eq!(err, ParseError::MissingUnits);
    assert_eq!(err.message(), "Course has no units");
}

#[test]
fn missing_title_and_instructor_have_their_own_errors() {
    let mut bad = course_row("CSE 101");
    bad.title = None;
    let err = Course::from_rows(vec![bad], term_start(), term_end()).unwrap_err();
    assert_eq!(err, ParseError::MissingTitle);
    assert_eq!(err.message(), "Course has no title");

    let mut bad = course_row("CSE 101");
    bad.instructor = None;
    let err = Course::from_rows(vec![bad], term_start(), term_end()).unwrap_err();
    assert_eq!(err, ParseError::MissingInstructor);
    assert_eq!(err.message(), "Course has no instructor");
}

#[test]
fn missing_session_fields_have_their_own_errors() {
    let mut bad = course_row("CSE 101");
    bad.session_type = None;
    let err = Course::from_rows(vec![bad], term_start(), term_end()).unwrap_err();
    assert_eq!(err, ParseError::MissingSessionType);

    let mut bad = course_row("CSE 101");
    bad.days = None;
    let err = Course::from_rows(vec![bad], term_start(), term_end()).unwrap_err();
    assert_eq!(err, ParseError::MissingDays);
    assert_eq!(err.message(), "Row has no days");

    let mut bad = course_row("CSE 101");
    bad.building = None;
    let err = Course::from_rows(vec![bad], term_start(), term_end()).unwrap_err();
    assert_eq!(err, ParseError::MissingBuilding);

    let mut bad = course_row("CSE 101");
    bad.room = None;
    let err = Course::from_rows(vec![bad], term_start(), term_end()).unwrap_err();
    assert_eq!(err, ParseError::MissingRoom);
}

#[test]
fn a_session_is_built_from_a_rows_fields() {
    let s = Session::from_row(course_row("CSE 101")).expect("session");
    assert_eq!(s.section.as_deref(), Some("A00"));
    assert!(matches!(s.session_type, SessionType::Lecture));
    assert_eq!(s.building, "CENTR");
    assert_eq!(s.room, "115");
    let mut bad = course_row("CSE 101");
    bad.days = None;
    assert_eq!(Session::from_row(bad).unwrap_err(), ParseError::MissingDays);
}

#[test]
fn a_session_without_a_timeslot_is_still_assembled() {
    let mut exam = session_row(SessionType::Final);
    exam.timeslot = None;
    let rows = vec![course_row("CSE 101"), exam];
    let courses = Course::from_rows(rows, term_start(), term_end()).expect("courses");
    assert_eq!(courses[0].sessions.len(), 2);
    assert!(courses[0].sessions[0].timeslot.is_none());
}
