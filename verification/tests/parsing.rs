use webreg_ics::parse::{parse_units, Row};
use webreg_ics::text::{clean_cell, tag_text};
use webreg_ics::types::{Day, Days, SessionType, Timeslot};

fn cells(v: &[&str]) -> Vec<String> {
    v.iter().map(|s| s.to_string()).collect()
}

fn full_row_cells() -> Vec<String> {
    cells(&[
        "CSE 101",
        "Design &amp; Analysis of Algorithms",
        "A00",
        "LE",
        "<a href=\"x\">Smith, John</a>",
        "",
        "4.00",
        "MWF",
        "9:00a-9:50a",
        "<a href=\"x\">CENTR</a>",
        "<a href=\"x\">115</a>",
    ])
}

#[test]
fn session_type_codes_parse_exactly() {
    assert!(matches!(SessionType::parse("LE"), Some(SessionType::Lecture)));
    assert!(matches!(SessionType::parse("DI"), Some(SessionType::Discussion)));
    assert!(matches!(SessionType::parse("FI"), Some(SessionType::Final)));
    assert!(matches!(SessionType::parse("LA"), Some(SessionType::Lab)));
    assert!(matches!(SessionType::parse("MI"), Some(SessionType::Midterm)));
    assert!(matches!(SessionType::parse("TU"), Some(SessionType::Tutorial)));
    assert!(matches!(SessionType::parse("SE"), Some(SessionType::Seminar)));
}

#[test]
fn unknown_session_type_is_absent_not_default() {
    assert!(SessionType::parse("XX").is_none());
    assert!(SessionType::parse("LEC").is_none());
    assert!(SessionType::parse("le").is_none());
    assert!(SessionType::parse("").is_none());
    assert!(SessionType::parse("L").is_none());
}

#[test]
fn day_tokens_parse_exactly() {
    assert_eq!(Day::parse("M"), Some(Day::Monday));
    assert_eq!(Day::parse("Tu"), Some(Day::Tuesday));
    assert_eq!(Day::parse("W"), Some(Day::Wednesday));
    assert_eq!(Day::parse("Th"), Some(Day::Thursday));
    assert_eq!(Day::parse("F"), Some(Day::Friday));
    assert_eq!(Day::parse("Sa"), Some(Day::Saturday));
    assert_eq!(Day::parse("Su"), Some(Day::Sunday));
    assert_eq!(Day::parse("Mo"), None);
    assert_eq!(Day::parse("x"), None);
}

#[test]
fn concatenated_weekdays_parse_greedily() {
    match Days::parse("MWF") {
        Some(Days::Days(ds)) => assert_eq!(ds, vec![Day::Monday, Day::Wednesday, Day::Friday]),
        other => panic!("expected weekday list, got {:?}", other),
    }
    match Days::parse("TuTh") {
        Some(Days::Days(ds)) => assert_eq!(ds, vec![Day::Tuesday, Day::Thursday]),
        other => panic!("expected weekday list, got {:?}", other),
    }
}

#[test]
fn unrecognized_trailing_day_characters_are_dropped() {
    match Days::parse("MWFX") {
        Some(Days::Days(ds)) => assert_eq!(ds, vec![Day::Monday, Day::Wednesday, Day::Friday]),
        other => panic!("expected weekday list, got {:?}", other),
    }
    // an empty list is still a present weekday entry
    match Days::parse("") {
        Some(Days::Days(ds)) => assert!(ds.is_empty()),
        other => panic!("expected empty weekday list, got {:?}", other),
    }
}

#[test]
fn dated_days_column_parses_month_day_year() {
    match Days::parse("Mon 02/14/2024") {
        Some(Days::Date(d)) => {
            assert_eq!(d.year, 2024);
            assert_eq!(d.month, 2);
            assert_eq!(d.day, 14);
        }
        other => panic!("expected explicit date, got {:?}", other),
    }
}

#[test]
fn bad_dates_in_days_column_are_absent() {
    assert!(Days::parse("Mon 13/01/2024").is_none());
    assert!(Days::parse("Mon 02/30/2024").is_none());
    assert!(Days::parse("Mon 02/14/24").is_none());
    // a slash without any space to split on is absent too
    assert!(Days::parse("02/14/2024").is_none());
}

#[test]
fn leap_day_is_accepted_only_in_leap_years() {
    assert!(Days::parse("Thu 02/29/2024").is_some());
    assert!(Days::parse("Wed 02/29/2023").is_none());
}

#[test]
fn timeslot_parses_twelve_hour_ranges() {
    let t = Timeslot::parse("9:00a-9:50a").expect("timeslot");
    assert_eq!((t.start.hour, t.start.minute), (9, 0));
    assert_eq!((t.end.hour, t.end.minute), (9, 50));
    let t = Timeslot::parse("12:00p-1:30p").expect("timeslot");
    assert_eq!((t.start.hour, t.start.minute), (12, 0));
    assert_eq!((t.end.hour, t.end.minute), (13, 30));
    let t = Timeslot::parse("11:00a-12:00p").expect("timeslot");
    assert_eq!((t.start.hour, t.start.minute), (11, 0));
    assert_eq!((t.end.hour, t.end.minute), (12, 0));
    let t = Timeslot::parse("12:05a-1:00a").expect("timeslot");
    assert_eq!((t.start.hour, t.start.minute), (0, 5));
    assert_eq!((t.end.hour, t.end.minute), (1, 0));
}

#[test]
fn partial_or_malformed_timeslots_are_absent() {
    assert!(Timeslot::parse("9:00-9:50").is_none());
    assert!(Timeslot::parse("9:00a").is_none());
    assert!(Timeslot::parse("").is_none());
    assert!(Timeslot::parse("13:00a-2:00p").is_none());
    assert!(Timeslot::parse("9:60a-9:50a").is_none());
}

#[test]
fn units_truncate_decimal_numerals() {
    assert_eq!(parse_units("4.00"), Some(4));
    assert_eq!(parse_units("4"), Some(4));
    assert_eq!(parse_units(" 2.5 "), Some(2));
    assert_eq!(parse_units("0.5"), Some(0));
    assert_eq!(parse_units("999"), Some(255));
    assert_eq!(parse_units("abc"), None);
    assert_eq!(parse_units(""), None);
    assert_eq!(parse_units("1.2.3"), None);
}

#[test]
fn cell_cleanup_trims_collapses_and_decodes() {
    assert_eq!(clean_cell("  Design   &amp;  Analysis  "), Some("Design & Analysis".to_string()));
    assert_eq!(clean_cell("   "), None);
    assert_eq!(clean_cell("CSE 101"), Some("CSE 101".to_string()));
}

#[test]
fn anchor_cells_reduce_to_inner_text() {
    assert_eq!(tag_text("<a href=\"x\">Smith, John</a>"), Some("Smith, John".to_string()));
    assert_eq!(tag_text("TBA"), Some("TBA".to_string()));
    assert_eq!(tag_text(""), None);
    // untagged text that is not TBA reduces to an empty string
    assert_eq!(tag_text("Staff"), Some(String::new()));
}

#[test]
fn expand_marker_rows_are_skipped() {
    let mut c = full_row_cells();
    c[1] = "Expand: show all sections".to_string();
    assert!(Row::parse(&c).is_none());
    let mut c2 = full_row_cells();
    c2[10] = "x Expand: y".to_string();
    assert!(Row::parse(&c2).is_none());
}

#[test]
fn rows_with_too_few_cells_are_skipped() {
    let c = cells(&["CSE 101", "Algorithms", "A00", "LE"]);
    assert!(Row::parse(&c).is_none());
}

#[test]
fn a_full_row_parses_into_all_fields() {
    let row = Row::parse(&full_row_cells()).expect("row");
    assert_eq!(row.code.as_deref(), Some("CSE 101"));
    assert_eq!(row.title.as_deref(), Some("Design & Analysis of Algorithms"));
    assert_eq!(row.section.as_deref(), Some("A00"));
    assert!(matches!(row.session_type, Some(SessionType::Lecture)));
    assert_eq!(row.instructor.as_deref(), Some("Smith, John"));
    assert_eq!(row.units, Some(4));
    match row.days {
        Some(Days::Days(ref ds)) => {
            assert_eq!(ds, &vec![Day::Monday, Day::Wednesday, Day::Friday])
        }
        ref other => panic!("expected weekday list, got {:?}", other),
    }
    let ts = row.timeslot.expect("timeslot");
    assert_eq!((ts.start.hour, ts.start.minute), (9, 0));
    assert_eq!(row.building.as_deref(), Some("CENTR"));
    assert_eq!(row.room.as_deref(), Some("115"));
}
