use timetrack::builder::build_spans;
use timetrack::raw_log::RawLogEntry;
use timetrack::span::Span;

fn entry(name: &str, timestamp: u64) -> RawLogEntry {
    RawLogEntry { name: String::from(name), timestamp }
}

fn span(name: &str, start: u64, end: u64) -> Span {
    Span { name: String::from(name), start, end }
}

#[test]
fn even_count_is_fully_paired() {
    let (spans, checks) =
        build_spans(&vec![entry("P", 1), entry("P", 5), entry("P", 11), entry("P", 26)]);
    assert_eq!(vec![span("P", 1, 5), span("P", 11, 26)], spans);
    assert!(checks.is_empty());
}

#[test]
fn odd_tail_carries_forward() {
    let (spans, checks) = build_spans(&vec![entry("P", 1), entry("P", 5), entry("P", 11)]);
    assert_eq!(vec![span("P", 1, 5)], spans);
    assert_eq!(vec![entry("P", 11)], checks);
}

#[test]
fn no_entries_no_spans() {
    let (spans, checks) = build_spans(&vec![]);
    assert!(spans.is_empty());
    assert!(checks.is_empty());
}

#[test]
fn single_entry_becomes_checkpoint() {
    let (spans, checks) = build_spans(&vec![entry("P", 4)]);
    assert!(spans.is_empty());
    assert_eq!(vec![entry("P", 4)], checks);
}

#[test]
fn projects_grouped_in_first_seen_order() {
    let (spans, checks) = build_spans(&vec![
        entry("B", 1),
        entry("A", 2),
        entry("B", 3),
        entry("A", 2),
        entry("A", 9),
        entry("C", 10),
    ]);
    assert_eq!(vec![span("B", 1, 3), span("A", 2, 2)], spans);
    assert_eq!(vec![entry("A", 9), entry("C", 10)], checks);
}
