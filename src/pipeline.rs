use vstd::prelude::*;

use crate::builder::{build_spans, checkpoints_for, projects, spans_for};
use crate::calc::{all_spans_ok, is_totals_of, totals_fit, try_totals, ProjectTotals};
use crate::raw_log::{format_raw_log, parse_raw_lines, parse_raw_log, raw_log_text};
use crate::span::{format_span_log, parse_span_lines, parse_span_log, span_log_text, spans_view, Span};
use crate::text::lines_of;

verus! {

/// Why a run stops.
#[derive(Debug, Clone, Copy, PartialEq, Eq)]
pub enum CalcError {
    /// A log line is malformed; `line` counts the lines of that log from 1.
    Parse { line: usize },
    /// Pairing the raw observations would make a span that ends before it starts.
    EndBeforeStart,
    /// A project's total does not fit in a `u64`.
    Overflow,
}

/// What one run writes back: lines to append to the span log, and the new raw log.
pub struct RunOutput {
    pub new_spans: String,
    pub raw_log: String,
}

fn spans_ok(spans: &Vec<Span>) -> (r: bool)
    ensures
        r == all_spans_ok(spans_view(spans@)),
{
    let mut i: usize = 0;
    while i < spans.len()
        invariant
            i <= spans@.len(),
            forall|j: int| 0 <= j < i ==> #[trigger] crate::span::span_ok(spans_view(spans@)[j]),
        decreases spans@.len() - i,
    {
        if spans[i].start > spans[i].end {
            assert(!crate::span::span_ok(spans_view(spans@)[i as int]));
            return false;
        }
        i = i + 1;
    }
    true
}

/// Turns the text of the raw log into the span lines to append to the span log and the text
/// that replaces the raw log: one line per project with an unpaired last observation.
pub fn process_raw_log(raw: &str) -> (r: Result<RunOutput, CalcError>)
    ensures
        match parse_raw_lines(lines_of(raw@)) {
            Err(k) => r matches Err(CalcError::Parse { line }) && line == k,
            Ok(es) => if all_spans_ok(spans_for(es, projects(es))) {
                r matches Ok(out) && out.new_spans@ == span_log_text(spans_for(es, projects(es)))
                    && out.raw_log@ == raw_log_text(checkpoints_for(es, projects(es)))
            } else {
                r matches Err(CalcError::EndBeforeStart)
            },
        },
{
    match parse_raw_log(raw) {
        Err(e) => Err(CalcError::Parse { line: e.line }),
        Ok(entries) => {
            let (spans, checks) = build_spans(&entries);
            if !spans_ok(&spans) {
                return Err(CalcError::EndBeforeStart);
            }
            let new_spans = format_span_log(&spans);
            let raw_log = format_raw_log(&checks);
            Ok(RunOutput { new_spans, raw_log })
        },
    }
}

/// Reads the whole span log and sums its spans per project.
pub fn totals_from_span_log(text: &str) -> (r: Result<ProjectTotals, CalcError>)
    ensures
        match parse_span_lines(lines_of(text@)) {
            Err(k) => r matches Err(CalcError::Parse { line }) && line == k,
            Ok(ss) => if totals_fit(ss) {
                r matches Ok(t) && t.wf() && is_totals_of(ss, t@)
            } else {
                r matches Err(CalcError::Overflow)
            },
        },
{
    match parse_span_log(text) {
        Err(e) => Err(CalcError::Parse { line: e.line }),
        Ok(spans) => {
            proof {
                assert forall|i: int| 0 <= i < spans@.len() implies #[trigger] crate::span::span_ok(
                    spans_view(spans@)[i],
                ) by {
                    assert(spans@[i].wf());
                }
            }
            match try_totals(&spans) {
                Some(t) => Ok(t),
                None => Err(CalcError::Overflow),
            }
        },
    }
}

} // verus!
