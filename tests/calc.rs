use timetrack::calc::{calculate_project_total_time, ProjectTotals};
use timetrack::pipeline::{process_raw_log, totals_from_span_log, CalcError};
use timetrack::span::Span;

fn span(name: &str, start: u64, end: u64) -> Span {
    Span { name: String::from(name), start, end }
}

#[test]
fn calculate_project_total_time_single_project() {
    let mut spans = vec![];
    let proj_1_name = "proj1";
    spans.push(Span { name: String::from("proj1"), start: 1, end: 5 });
    spans.push(Span { name: String::from("proj1"), start: 11, end: 26 });

    let project_totals = calculate_project_total_time(spans);

    assert!(project_totals.contains_key(proj_1_name));
    assert_eq!(19u64, *project_totals.get(proj_1_name).unwrap());
}

#[test]
fn calculate_project_total_time_two_projects() {
    let mut spans = vec![];
    let proj_1_name = "proj1";
    let proj_2_name = "proj2";
    spans.push(Span { name: String::from("proj1"), start: 1, end: 5 });
    spans.push(Span { name: String::from("proj2"), start: 7, end: 12 });
    spans.push(Span { name: String::from("proj1"), start: 11, end: 26 });

    let project_totals = calculate_project_total_time(spans);

    assert!(project_totals.contains_key(proj_1_name));
    assert_eq!(19u64, *project_totals.get(proj_1_name).unwrap());
    assert!(project_totals.contains_key(proj_2_name));
    assert_eq!(5u64, *project_totals.get(proj_2_name).unwrap());
}

#[test]
fn zero_duration_span_keeps_project() {
    let totals = calculate_project_total_time(vec![span("P", 5, 5)]);
    assert!(totals.contains_key("P"));
    assert_eq!(0u64, *totals.get("P").unwrap());
    assert!(!totals.contains_key("Q"));
    assert!(totals.get("Q").is_none());
}

#[test]
fn empty_span_list_has_no_totals() {
    let totals = calculate_project_total_time(vec![]);
    assert!(totals.names.is_empty());
    assert!(!totals.contains_key("proj1"));
}

#[test]
fn aggregation_is_repeatable() {
    let spans = vec![span("proj1", 1, 5), span("proj2", 7, 12), span("proj1", 11, 26)];
    let first: ProjectTotals = calculate_project_total_time(spans.clone());
    let second: ProjectTotals = calculate_project_total_time(spans);
    for name in ["proj1", "proj2", "proj3"] {
        assert_eq!(first.get(name), second.get(name));
    }
    assert_eq!(first.names, second.names);
    assert_eq!(first.totals, second.totals);
}

#[test]
fn totals_near_the_limit() {
    let spans = vec![span("a", 0, u64::MAX - 1), span("a", 10, 11)];
    let totals = calculate_project_total_time(spans);
    assert_eq!(u64::MAX, *totals.get("a").unwrap());
}

#[test]
fn process_pairs_and_carries_tail() {
    let out = process_raw_log("P,1\nQ,3\nP,5\nP,11\nQ,4\n").unwrap();
    assert_eq!("P,1,5\nQ,3,4\n", out.new_spans);
    assert_eq!("P,11\n", out.raw_log);
}

#[test]
fn process_empty_raw_log() {
    let out = process_raw_log("").unwrap();
    assert_eq!("", out.new_spans);
    assert_eq!("", out.raw_log);
}

#[test]
fn process_rejects_malformed_raw_log() {
    assert_eq!(Err(CalcError::Parse { line: 2 }), process_raw_log("P,1\nP,x\n").map(|_| ()));
}

#[test]
fn process_rejects_backwards_span() {
    assert_eq!(Err(CalcError::EndBeforeStart), process_raw_log("P,9\nP,3\n").map(|_| ()));
}

#[test]
fn totals_from_span_log_sums() {
    let totals = totals_from_span_log("proj1,1,5\n\nproj2,7,12\nproj1,11,26\n").unwrap();
    assert_eq!(19u64, *totals.get("proj1").unwrap());
    assert_eq!(5u64, *totals.get("proj2").unwrap());
}

#[test]
fn totals_from_span_log_overflow() {
    let text = format!("a,0,{}\na,0,1\n", u64::MAX);
    assert_eq!(Err(CalcError::Overflow), totals_from_span_log(&text).map(|_| ()));
}

#[test]
fn totals_from_span_log_bad_line() {
    assert_eq!(Err(CalcError::Parse { line: 3 }), totals_from_span_log("a,1,2\n\nb,4\n").map(|_| ()));
    assert_eq!(Err(CalcError::Parse { line: 1 }), totals_from_span_log("a,5,2\n").map(|_| ()));
}
