//! Converts a captured schedule table (an HTML page from a course
//! registration site) into calendar events: rows are parsed into courses
//! and sessions, and each session becomes a single weekly-recurring event
//! or a one-off dated event.

pub mod calendar;
pub mod date;
pub mod parse;
pub mod text;
pub mod types;
