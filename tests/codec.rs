use timetrack::raw_log::{format_raw_log, parse_raw_log, ParseError, RawLogEntry};
use timetrack::span::{format_span_log, parse_span_log, Span};

fn entry(name: &str, timestamp: u64) -> RawLogEntry {
    RawLogEntry { name: String::from(name), timestamp }
}

#[test]
fn raw_line_parses() {
    assert_eq!(Ok(entry("proj1", 15)), RawLogEntry::parse_line("proj1,15"));
    assert_eq!(Ok(entry("my project", 0)), RawLogEntry::parse_line("my project,0"));
    assert_eq!(Ok(entry("p", 7)), RawLogEntry::parse_line("p,007"));
    assert_eq!(
        Ok(entry("p", u64::MAX)),
        RawLogEntry::parse_line("p,18446744073709551615")
    );
}

#[test]
fn raw_line_errors() {
    let err = Err(ParseError { line: 1 });
    assert_eq!(err, RawLogEntry::parse_line("proj1"));
    assert_eq!(err, RawLogEntry::parse_line("proj1,abc"));
    assert_eq!(err, RawLogEntry::parse_line(",5"));
    assert_eq!(err, RawLogEntry::parse_line("p,"));
    assert_eq!(err, RawLogEntry::parse_line("p,-5"));
    assert_eq!(err, RawLogEntry::parse_line("p,1,2"));
    assert_eq!(err, RawLogEntry::parse_line("p,18446744073709551616"));
}

#[test]
fn raw_line_round_trip() {
    for e in [entry("proj1", 0), entry("a b", 12345), entry("x", u64::MAX)] {
        let line = e.format();
        assert_eq!(Ok(e), RawLogEntry::parse_line(&line));
    }
    assert_eq!("proj1,1526", entry("proj1", 1526).format());
}

#[test]
fn raw_log_skips_blank_lines() {
    let es = parse_raw_log("\nP,1\n  \nQ,2\r\n\n").unwrap_err();
    assert_eq!(ParseError { line: 4 }, es);
    let es = parse_raw_log("\nP,1\n  \n\t\nQ,2").unwrap();
    assert_eq!(vec![entry("P", 1), entry("Q", 2)], es);
    assert_eq!(Ok(vec![]), parse_raw_log(""));
}

#[test]
fn malformed_line_aborts_batch() {
    assert_eq!(Err(ParseError { line: 2 }), parse_raw_log("proj1,5\nproj1,abc\n"));
}

#[test]
fn raw_log_round_trip() {
    let es = vec![entry("P", 11), entry("Q", 3)];
    let text = format_raw_log(&es);
    assert_eq!("P,11\nQ,3\n", text);
    assert_eq!(Ok(es), parse_raw_log(&text));
}

#[test]
fn span_line_parses() {
    let s = Span::parse_line("proj1,1,5").unwrap();
    assert_eq!(Span { name: String::from("proj1"), start: 1, end: 5 }, s);
    assert_eq!(4, s.duration());
    let z = Span::parse_line("P,5,5").unwrap();
    assert_eq!(0, z.duration());
}

#[test]
fn span_line_errors() {
    let err = Err(ParseError { line: 1 });
    assert_eq!(err, Span::parse_line("proj1,1"));
    assert_eq!(err, Span::parse_line("proj1,1,x"));
    assert_eq!(err, Span::parse_line(",1,2"));
    assert_eq!(err, Span::parse_line("p,1,2,3"));
    assert_eq!(err, Span::parse_line("p,9,3"));
}

#[test]
fn span_line_round_trip() {
    for s in [
        Span { name: String::from("proj1"), start: 1, end: 5 },
        Span { name: String::from("q"), start: 7, end: 7 },
        Span { name: String::from("r"), start: 0, end: u64::MAX },
    ] {
        let line = s.format();
        assert_eq!(Ok(s), Span::parse_line(&line));
    }
    assert_eq!("proj1,11,26", Span { name: String::from("proj1"), start: 11, end: 26 }.format());
}

#[test]
fn span_log_round_trip() {
    let ss = vec![
        Span { name: String::from("proj1"), start: 1, end: 5 },
        Span { name: String::from("proj2"), start: 7, end: 12 },
    ];
    let text = format_span_log(&ss);
    assert_eq!("proj1,1,5\nproj2,7,12\n", text);
    assert_eq!(Ok(ss), parse_span_log(&text));
}

#[test]
fn span_new_rejects_end_before_start() {
    assert_eq!(None, Span::new(String::from("P"), 9, 3));
    assert_eq!(
        Some(Span { name: String::from("P"), start: 5, end: 5 }),
        Span::new(String::from("P"), 5, 5)
    );
}
