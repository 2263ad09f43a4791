use canvas_sync::report::{lookup_name, render_summary, sort_updates, SummaryLine};
use canvas_sync::types::Update;

fn record(course: u32, path: &str) -> Update {
    Update::new(course, path.to_string(), None)
}

fn names() -> Vec<(u32, String)> {
    vec![
        (2, "Beta".to_string()),
        (1, "Alpha".to_string()),
        (3, "Gamma".to_string()),
    ]
}

#[test]
fn lookup_finds_recorded_names() {
    let names = names();
    assert_eq!(lookup_name(&names, 1).unwrap().as_str(), "Alpha");
    assert_eq!(lookup_name(&names, 3).unwrap().as_str(), "Gamma");
    assert!(lookup_name(&names, 9).is_none());
}

#[test]
fn lookup_lets_the_later_entry_win() {
    let names = vec![(5u32, "Old".to_string()), (5u32, "New".to_string())];
    assert_eq!(lookup_name(&names, 5).unwrap().as_str(), "New");
}

#[test]
fn sort_orders_by_display_name() {
    let names = names();
    let records = vec![record(3, "g1"), record(1, "a1"), record(2, "b1")];
    let sorted = sort_updates(records, &names);
    let order: Vec<u32> = sorted.iter().map(|u| u.course_id).collect();
    assert_eq!(order, vec![1, 2, 3]);
}

#[test]
fn sort_puts_unknown_courses_first_and_keeps_emission_order() {
    let names = names();
    let records = vec![
        record(2, "b1"),
        record(9, "u1"),
        record(2, "b2"),
        record(9, "u2"),
        record(1, "a1"),
    ];
    let sorted = sort_updates(records, &names);
    let shown: Vec<(u32, String)> =
        sorted.iter().map(|u| (u.course_id, u.remote_path.clone())).collect();
    assert_eq!(
        shown,
        vec![
            (9, "u1".to_string()),
            (9, "u2".to_string()),
            (1, "a1".to_string()),
            (2, "b1".to_string()),
            (2, "b2".to_string()),
        ]
    );
}

#[test]
fn render_groups_consecutive_records() {
    let names = names();
    let records = vec![record(1, "a1"), record(1, "a2"), record(2, "b1")];
    let lines = render_summary(&records, &names);
    assert_eq!(lines.len(), 5);
    assert!(matches!(&lines[0], SummaryLine::CourseHeader(h) if h.as_str() == "Alpha"));
    assert!(matches!(&lines[1], SummaryLine::Entry(e) if e.as_str() == "a1"));
    assert!(matches!(&lines[2], SummaryLine::Entry(e) if e.as_str() == "a2"));
    assert!(matches!(&lines[3], SummaryLine::CourseHeader(h) if h.as_str() == "Beta"));
    assert!(matches!(&lines[4], SummaryLine::Entry(e) if e.as_str() == "b1"));
}

#[test]
fn render_marks_unknown_courses() {
    let names = names();
    let records = vec![record(9, "u1")];
    let lines = render_summary(&records, &names);
    assert!(matches!(lines[0], SummaryLine::UnknownCourse(9)));
    assert!(matches!(&lines[1], SummaryLine::Entry(e) if e.as_str() == "u1"));
}

#[test]
fn render_reports_up_to_date_when_empty() {
    let lines = render_summary(&Vec::new(), &names());
    assert_eq!(lines.len(), 1);
    assert!(matches!(lines[0], SummaryLine::UpToDate));
}
