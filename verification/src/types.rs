//! The schedule model: weekdays, session types, meeting times, sessions
//! and courses, and the errors a malformed table produces.

use crate::date::Date;
use vstd::prelude::*;

verus! {

/// A weekday, ordered Monday first as in the recurrence rules.
#[derive(Clone, Copy, Debug, PartialEq, Eq, Structural)]
pub enum Day {
    Monday,
    Tuesday,
    Wednesday,
    Thursday,
    Friday,
    Saturday,
    Sunday,
}

/// Position of a weekday in the week, 0 = Monday … 6 = Sunday.
pub open spec fn day_index(d: Day) -> int {
    match d {
        Day::Monday => 0,
        Day::Tuesday => 1,
        Day::Wednesday => 2,
        Day::Thursday => 3,
        Day::Friday => 4,
        Day::Saturday => 5,
        Day::Sunday => 6,
    }
}

/// The two-letter recurrence code of a weekday.
pub open spec fn day_code(d: Day) -> Seq<char> {
    match d {
        Day::Monday => "MO"@,
        Day::Tuesday => "TU"@,
        Day::Wednesday => "WE"@,
        Day::Thursday => "TH"@,
        Day::Friday => "FR"@,
        Day::Saturday => "SA"@,
        Day::Sunday => "SU"@,
    }
}

impl Day {
    /// The weekday's two-letter recurrence code.
    pub fn calendar_string(&self) -> (r: &str)
        ensures
            r@ == day_code(*self),
    {
        match self {
            Day::Monday => "MO",
            Day::Tuesday => "TU",
            Day::Wednesday => "WE",
            Day::Thursday => "TH",
            Day::Friday => "FR",
            Day::Saturday => "SA",
            Day::Sunday => "SU",
        }
    }

    /// Position of the weekday in the week, 0 = Monday … 6 = Sunday.
    pub fn index(&self) -> (r: u64)
        ensures
            r as int == day_index(*self),
    {
        match self {
            Day::Monday => 0,
            Day::Tuesday => 1,
            Day::Wednesday => 2,
            Day::Thursday => 3,
            Day::Friday => 4,
            Day::Saturday => 5,
            Day::Sunday => 6,
        }
    }
}

/// The kind of meeting a table row describes.
#[derive(Clone, Copy, Debug, PartialEq, Eq, Structural)]
pub enum SessionType {
    Lecture,
    Discussion,
    Final,
    Lab,
    Midterm,
    Tutorial,
    Seminar,
}

/// The printed name of a session type, used in event summaries.
pub open spec fn session_type_name(t: SessionType) -> Seq<char> {
    match t {
        SessionType::Lecture => "Lecture"@,
        SessionType::Discussion => "Discussion"@,
        SessionType::Final => "Final"@,
        SessionType::Lab => "Lab"@,
        SessionType::Midterm => "Midterm"@,
        SessionType::Tutorial => "Tutorial"@,
        SessionType::Seminar => "Seminar"@,
    }
}

impl SessionType {
    /// The printed name of the session type.
    pub fn name(&self) -> (r: &str)
        ensures
            r@ == session_type_name(*self),
    {
        match self {
            SessionType::Lecture => "Lecture",
            SessionType::Discussion => "Discussion",
            SessionType::Final => "Final",
            SessionType::Lab => "Lab",
            SessionType::Midterm => "Midterm",
            SessionType::Tutorial => "Tutorial",
            SessionType::Seminar => "Seminar",
        }
    }
}

/// A wall-clock time with no date part.
#[derive(Clone, Copy, Debug, PartialEq, Eq, Structural)]
pub struct Time {
    pub hour: u8,
    pub minute: u8,
}

/// The daily start and end times of a session.
#[derive(Clone, Copy, Debug, PartialEq, Eq, Structural)]
pub struct Timeslot {
    pub start: Time,
    pub end: Time,
}

/// When a session meets: on one explicit date (an exam), or on a list
/// of weekdays every week.
#[derive(Debug)]
pub enum Days {
    Date(Date),
    Days(Vec<Day>),
}

pub ghost enum DaysView {
    Date(Date),
    Weekdays(Seq<Day>),
}

impl View for Days {
    type V = DaysView;

    open spec fn view(&self) -> DaysView {
        match self {
            Days::Date(d) => DaysView::Date(*d),
            Days::Days(v) => DaysView::Weekdays(v@),
        }
    }
}

/// One scheduled meeting pattern of a course.
#[derive(Debug)]
pub struct Session {
    pub section: Option<String>,
    pub session_type: SessionType,
    pub days: Days,
    pub timeslot: Option<Timeslot>,
    pub building: String,
    pub room: String,
}

pub ghost struct SessionView {
    pub section: Option<Seq<char>>,
    pub session_type: SessionType,
    pub days: DaysView,
    pub timeslot: Option<Timeslot>,
    pub building: Seq<char>,
    pub room: Seq<char>,
}

impl View for Session {
    type V = SessionView;

    open spec fn view(&self) -> SessionView {
        SessionView {
            section: match self.section {
                Some(s) => Some(s@),
                None => None,
            },
            session_type: self.session_type,
            days: self.days@,
            timeslot: self.timeslot,
            building: self.building@,
            room: self.room@,
        }
    }
}

/// One registered class offering with its sessions and the term dates
/// supplied by the caller.
#[derive(Debug)]
pub struct Course {
    pub code: String,
    pub title: String,
    pub sessions: Vec<Session>,
    pub instructor: String,
    pub units: u8,
    pub uuid: String,
    pub start_date: Date,
    pub end_date: Date,
}

/// Why a document failed to convert: the one required field that was
/// absent when a session or course was assembled.
#[derive(Clone, Copy, Debug, PartialEq, Eq, Structural)]
pub enum ParseError {
    MissingSessionType,
    MissingDays,
    MissingBuilding,
    MissingRoom,
    MissingTitle,
    MissingInstructor,
    MissingUnits,
}

pub open spec fn error_message(e: ParseError) -> Seq<char> {
    match e {
        ParseError::MissingSessionType => "Row has no session type"@,
        ParseError::MissingDays => "Row has no days"@,
        ParseError::MissingBuilding => "Row has no building"@,
        ParseError::MissingRoom => "Row has no room"@,
        ParseError::MissingTitle => "Course has no title"@,
        ParseError::MissingInstructor => "Course has no instructor"@,
        ParseError::MissingUnits => "Course has no units"@,
    }
}

impl ParseError {
    /// A human-readable description naming the missing field.
    pub fn message(&self) -> (r: &str)
        ensures
            r@ == error_message(*self),
    {
        match self {
            ParseError::MissingSessionType => "Row has no session type",
            ParseError::MissingDays => "Row has no days",
            ParseError::MissingBuilding => "Row has no building",
            ParseError::MissingRoom => "Row has no room",
            ParseError::MissingTitle => "Course has no title",
            ParseError::MissingInstructor => "Course has no instructor",
            ParseError::MissingUnits => "Course has no units",
        }
    }
}

} // verus!
