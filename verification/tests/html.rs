use webreg_ics::date::Date;
use webreg_ics::types::{Course, Day, Days, ParseError, SessionType};

fn term_start() -> Date {
    Date { year: 2024, month: 1, day: 8 }
}

fn term_end() -> Date {
    Date { year: 2024, month: 3, day: 16 }
}

fn row_html(cells: &[&str]) -> String {
    let mut out = String::from("<tr>");
    for c in cells {
        out.push_str("<td>");
        out.push_str(c);
        out.push_str("</td>");
    }
    out.push_str("</tr>");
    out
}

fn document(rows: &[String]) -> String {
    let mut out = String::from(
        "<html><body><table id=\"list-id-table\"><tbody>\
         <tr><td>Header</td></tr>",
    );
    for r in rows {
        out.push_str(r);
    }
    out.push_str("</tbody></table></body></html>");
    out
}

fn lecture_row(code: &str) -> String {
    row_html(&[
        code,
        "Design &amp; Analysis",
        "A00",
        "LE",
        "<a href=\"x\">Smith, John</a>",
        "",
        "4.00",
        "MWF",
        "9:00a-9:50a",
        "<a href=\"x\">CENTR</a>",
        "<a href=\"x\">115</a>",
    ])
}

fn final_row() -> String {
    row_html(&[
        "",
        "",
        "",
        "FI",
        "",
        "",
        "",
        "Sat 03/16/2024",
        "3:00p-5:59p",
        "<a href=\"x\">CENTR</a>",
        "<a href=\"x\">115</a>",
    ])
}

#[test]
fn a_small_document_converts_end_to_end() {
    let html = document(&[lecture_row("CSE 101"), final_row()]);
    let courses = Course::from_html(&html, term_start(), term_end()).expect("courses");
    assert_eq!(courses.len(), 1);
    let c = &courses[0];
    assert_eq!(c.code, "CSE 101");
    // the parsed ampersand is re-escaped in inner HTML and decoded again
    assert_eq!(c.title, "Design & Analysis");
    assert_eq!(c.instructor, "Smith, John");
    assert_eq!(c.units, 4);
    assert_eq!(c.uuid.len(), 36);
    assert_eq!(c.sessions.len(), 2);
    // the exam row follows the course row, so the scan collects it first
    let exam = &c.sessions[0];
    assert!(matches!(exam.session_type, SessionType::Final));
    match exam.days {
        Days::Date(d) => assert_eq!(d, Date { year: 2024, month: 3, day: 16 }),
        ref other => panic!("expected explicit date, got {:?}", other),
    }
    let lec = &c.sessions[1];
    assert!(matches!(lec.session_type, SessionType::Lecture));
    match lec.days {
        Days::Days(ref ds) => assert_eq!(ds, &vec![Day::Monday, Day::Wednesday, Day::Friday]),
        ref other => panic!("expected weekday list, got {:?}", other),
    }
    // the whole pipeline: session events come out of the same course
    let now = webreg_ics::calendar::Timestamp {
        date: Date { year: 2024, month: 1, day: 10 },
        hour: 8,
        minute: 0,
        second: 0,
    };
    let events = c.to_events(&now);
    assert_eq!(events.len(), 2);
    assert_eq!(events[0].start, "20240316T150000");
    assert!(events[0].rrule.is_none());
    assert_eq!(
        events[1].rrule.as_deref(),
        Some("FREQ=WEEKLY;WKST=SU;UNTIL=20240316;BYDAY=MO,WE,FR")
    );
}

#[test]
fn expand_rows_in_a_document_contribute_nothing() {
    let expand = row_html(&["Expand: all sections"]);
    let with_marker = document(&[lecture_row("CSE 101"), expand, final_row()]);
    let without = document(&[lecture_row("CSE 101"), final_row()]);
    let a = Course::from_html(&with_marker, term_start(), term_end()).expect("courses");
    let b = Course::from_html(&without, term_start(), term_end()).expect("courses");
    assert_eq!(a.len(), b.len());
    assert_eq!(a[0].sessions.len(), b[0].sessions.len());
}

#[test]
fn a_document_missing_units_fails_without_partial_output() {
    let mut cellsless = lecture_row("MATH 20C");
    cellsless = cellsless.replace("<td>4.00</td>", "<td></td>");
    let html = document(&[lecture_row("CSE 101"), cellsless]);
    let err = Course::from_html(&html, term_start(), term_end()).unwrap_err();
    assert_eq!(err, ParseError::MissingUnits);
}

#[test]
fn a_document_without_the_table_yields_no_courses() {
    let html = "<html><body><p>nothing here</p></body></html>";
    let courses = Course::from_html(html, term_start(), term_end()).expect("courses");
    assert!(courses.is_empty());
}
