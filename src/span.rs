use vstd::prelude::*;

use crate::raw_log::{valid_name, ParseError};
use crate::text::{
    blank, chars_of, digits_of, find_char, first_index_of, is_blank, is_space, lemma_digits_of, lemma_lines_add_line,
    lemma_first_index_at, lines_of, lines_view, number_spec, parse_number, push_all, push_char,
    push_number, split_lines, string_of, NEWLINE, SEP,
};

verus! {

/// A closed block of time spent on one project, from `start` to `end`.
#[derive(Debug, Clone, PartialEq, Eq)]
pub struct Span {
    pub name: String,
    pub start: u64,
    pub end: u64,
}

impl View for Span {
    type V = (Seq<char>, u64, u64);

    open spec fn view(&self) -> (Seq<char>, u64, u64) {
        (self.name@, self.start, self.end)
    }
}

/// A span never ends before it starts.
pub open spec fn span_ok(s: (Seq<char>, u64, u64)) -> bool {
    s.1 <= s.2
}

impl Span {
    pub open spec fn wf(&self) -> bool {
        span_ok(self@)
    }

    /// A span from `start` to `end`; there is none where `end` comes before `start`.
    pub fn new(name: String, start: u64, end: u64) -> (r: Option<Span>)
        ensures
            r is Some <==> start <= end,
            r matches Some(s) ==> s@ == (name@, start, end),
    {
        if start <= end {
            Some(Span { name, start, end })
        } else {
            None
        }
    }

    /// The time between start and end.
    pub fn duration(&self) -> (r: u64)
        requires
            self.wf(),
        ensures
            r == self.end - self.start,
    {
        self.end - self.start
    }
}

/// The text of one span log line: `name,start,end`.
pub open spec fn span_line(s: (Seq<char>, u64, u64)) -> Seq<char> {
    s.0 + seq![SEP] + digits_of(s.1 as nat) + seq![SEP] + digits_of(s.2 as nat)
}

/// What one span log line holds, if it is well formed and its end is not before its start.
pub open spec fn parse_span_spec(l: Seq<char>) -> Option<(Seq<char>, u64, u64)> {
    let i = first_index_of(l, SEP);
    if i <= 0 {
        None
    } else {
        let rest = l.subrange(i + 1, l.len() as int);
        let j = first_index_of(rest, SEP);
        if j < 0 {
            None
        } else {
            match (number_spec(rest.take(j)), number_spec(rest.subrange(j + 1, rest.len() as int))) {
                (Some(a), Some(b)) => if a <= b {
                    Some((l.take(i), a, b))
                } else {
                    None
                },
                _ => None,
            }
        }
    }
}

/// The spans of a sequence of span lines, skipping blank ones, or the number (from 1) of the
/// first malformed line.
pub open spec fn parse_span_lines(ls: Seq<Seq<char>>) -> Result<Seq<(Seq<char>, u64, u64)>, nat>
    decreases ls.len(),
{
    if ls.len() == 0 {
        Ok(Seq::empty())
    } else {
        match parse_span_lines(ls.drop_last()) {
            Err(k) => Err(k),
            Ok(ss) => if is_blank(ls.last()) {
                Ok(ss)
            } else {
                match parse_span_spec(ls.last()) {
                    Some(s) => Ok(ss.push(s)),
                    None => Err(ls.len()),
                }
            },
        }
    }
}

/// The text of a span log: each span on a line of its own, each line ended by a newline.
pub open spec fn span_log_text(ss: Seq<(Seq<char>, u64, u64)>) -> Seq<char>
    decreases ss.len(),
{
    if ss.len() == 0 {
        Seq::empty()
    } else {
        span_log_text(ss.drop_last()) + span_line(ss.last()) + seq![NEWLINE]
    }
}

pub open spec fn spans_view(v: Seq<Span>) -> Seq<(Seq<char>, u64, u64)> {
    v.map_values(|s: Span| s@)
}

/// Once a prefix of the lines fails, the whole sequence fails with the same error.
pub proof fn lemma_span_error_sticks(ls: Seq<Seq<char>>, k: int)
    requires
        0 <= k <= ls.len(),
        parse_span_lines(ls.take(k)) is Err,
    ensures
        parse_span_lines(ls) == parse_span_lines(ls.take(k)),
    decreases ls.len(),
{
    if k < ls.len() {
        assert(ls.drop_last().take(k) =~= ls.take(k));
        lemma_span_error_sticks(ls.drop_last(), k);
    } else {
        assert(ls.take(k) =~= ls);
    }
}

/// Formatting a span line and reading it back gives the span again.
pub proof fn lemma_span_round_trip(s: (Seq<char>, u64, u64))
    requires
        valid_name(s.0),
        span_ok(s),
    ensures
        parse_span_spec(span_line(s)) == Some(s),
{
    let l = span_line(s);
    let n = s.0.len() as int;
    let d1 = digits_of(s.1 as nat);
    let d2 = digits_of(s.2 as nat);
    lemma_digits_of(s.1 as nat);
    lemma_digits_of(s.2 as nat);
    assert forall|j: int| 0 <= j < n implies l[j] != SEP by {
        assert(l[j] == s.0[j]);
    }
    lemma_first_index_at(l, SEP, n);
    let rest = l.subrange(n + 1, l.len() as int);
    assert(rest =~= d1 + seq![SEP] + d2);
    assert forall|j: int| 0 <= j < d1.len() implies rest[j] != SEP by {
        assert(rest[j] == d1[j]);
    }
    lemma_first_index_at(rest, SEP, d1.len() as int);
    assert(rest.take(d1.len() as int) =~= d1);
    assert(rest.subrange(d1.len() as int + 1, rest.len() as int) =~= d2);
    assert(l.take(n) =~= s.0);
}

/// Writing spans `a` and then appending spans `b` gives the same text as writing `a + b`.
pub proof fn lemma_span_log_append(a: Seq<(Seq<char>, u64, u64)>, b: Seq<(Seq<char>, u64, u64)>)
    ensures
        span_log_text(a + b) == span_log_text(a) + span_log_text(b),
    decreases b.len(),
{
    if b.len() == 0 {
        assert(a + b =~= a);
        assert(span_log_text(a) + span_log_text(b) =~= span_log_text(a));
    } else {
        assert((a + b).drop_last() =~= a + b.drop_last());
        assert((a + b).last() == b.last());
        lemma_span_log_append(a, b.drop_last());
        assert(span_log_text(a + b) =~= span_log_text(a) + span_log_text(b));
    }
}

/// Reading back a span log that was written from well-formed spans with valid names gives
/// those spans.
pub proof fn lemma_span_log_round_trip(ss: Seq<(Seq<char>, u64, u64)>)
    requires
        forall|i: int| 0 <= i < ss.len() ==> #[trigger] valid_name(ss[i].0) && span_ok(ss[i]),
    ensures
        parse_span_lines(lines_of(span_log_text(ss))) == Ok::<_, nat>(ss),
{
    lemma_span_log_lines(ss);
    lemma_span_lines_parse(ss);
}

proof fn lemma_span_log_lines(ss: Seq<(Seq<char>, u64, u64)>)
    requires
        forall|i: int| 0 <= i < ss.len() ==> #[trigger] valid_name(ss[i].0) && span_ok(ss[i]),
    ensures
        lines_of(span_log_text(ss)) == ss.map_values(|s: (Seq<char>, u64, u64)| span_line(s)).push(
            Seq::empty(),
        ),
    decreases ss.len(),
{
    if ss.len() == 0 {
        assert(lines_of(span_log_text(ss)) =~= seq![Seq::<char>::empty()]);
        assert(ss.map_values(|s: (Seq<char>, u64, u64)| span_line(s)).push(Seq::empty()) =~= seq![
            Seq::<char>::empty(),
        ]);
    } else {
        let init = ss.drop_last();
        assert forall|i: int| 0 <= i < init.len() implies #[trigger] valid_name(init[i].0)
            && span_ok(init[i]) by {
            assert(valid_name(ss[i].0) && span_ok(ss[i]));
        }
        lemma_span_log_lines(init);
        let x = ss.last();
        let l = span_line(x);
        assert(valid_name(ss[ss.len() - 1].0));
        lemma_digits_of(x.1 as nat);
        lemma_digits_of(x.2 as nat);
        let n = x.0.len() as int;
        let d1 = digits_of(x.1 as nat);
        assert forall|i: int| 0 <= i < l.len() implies l[i] != NEWLINE by {
            if i < n {
                assert(l[i] == x.0[i]);
            } else if n < i < n + 1 + d1.len() {
                assert(l[i] == d1[i - n - 1]);
            } else if i > n + 1 + d1.len() {
                assert(l[i] == digits_of(x.2 as nat)[i - n - 2 - d1.len()]);
            }
        }
        lemma_lines_add_line(span_log_text(init), l);
        assert(ss.map_values(|s: (Seq<char>, u64, u64)| span_line(s)) =~= init.map_values(
            |s: (Seq<char>, u64, u64)| span_line(s),
        ).push(l));
    }
}

proof fn lemma_span_lines_parse(ss: Seq<(Seq<char>, u64, u64)>)
    requires
        forall|i: int| 0 <= i < ss.len() ==> #[trigger] valid_name(ss[i].0) && span_ok(ss[i]),
    ensures
        parse_span_lines(ss.map_values(|s: (Seq<char>, u64, u64)| span_line(s))) == Ok::<_, nat>(ss),
        parse_span_lines(ss.map_values(|s: (Seq<char>, u64, u64)| span_line(s)).push(Seq::empty()))
            == Ok::<_, nat>(ss),
    decreases ss.len(),
{
    let ls = ss.map_values(|s: (Seq<char>, u64, u64)| span_line(s));
    assert(ls.push(Seq::empty()).drop_last() =~= ls);
    assert(is_blank(Seq::<char>::empty()));
    if ss.len() == 0 {
        assert(ss =~= Seq::<(Seq<char>, u64, u64)>::empty());
    } else {
        let init = ss.drop_last();
        assert forall|i: int| 0 <= i < init.len() implies #[trigger] valid_name(init[i].0)
            && span_ok(init[i]) by {
            assert(valid_name(ss[i].0) && span_ok(ss[i]));
        }
        lemma_span_lines_parse(init);
        assert(ls.drop_last() =~= init.map_values(|s: (Seq<char>, u64, u64)| span_line(s)));
        assert(valid_name(ss[ss.len() - 1].0) && span_ok(ss[ss.len() - 1]));
        lemma_span_round_trip(ss.last());
        let l = span_line(ss.last());
        assert(!is_space(l[ss.last().0.len() as int]));
        assert(init.push(ss.last()) =~= ss);
    }
}

impl Span {
    /// Reads one span log line of the form `name,start,end`.
    pub fn parse_line(line: &str) -> (r: Result<Span, ParseError>)
        ensures
            match r {
                Ok(s) => parse_span_spec(line@) == Some(s@),
                Err(err) => parse_span_spec(line@) is None && err.line == 1,
            },
    {
        let cs = chars_of(line);
        match parse_span_chars(&cs) {
            Some(s) => Ok(s),
            None => Err(ParseError { line: 1 }),
        }
    }

    /// The line that stands for this span in a span log, without a newline.
    pub fn format(&self) -> (r: String)
        ensures
            r@ == span_line(self@),
    {
        let mut out = String::new();
        push_all(&mut out, self.name.as_str());
        push_char(&mut out, SEP);
        push_number(&mut out, self.start);
        push_char(&mut out, SEP);
        push_number(&mut out, self.end);
        out
    }
}

fn parse_span_chars(l: &Vec<char>) -> (r: Option<Span>)
    ensures
        match r {
            Some(s) => parse_span_spec(l@) == Some(s@) && s.wf(),
            None => parse_span_spec(l@) is None,
        },
{
    let len = l.len();
    assert(l@.subrange(0, len as int) =~= l@);
    match find_char(l, 0, len, SEP) {
        None => None,
        Some(i) => {
            if i == 0 {
                return None;
            }
            let ghost rest = l@.subrange(i + 1, len as int);
            match find_char(l, i + 1, len, SEP) {
                None => None,
                Some(j) => {
                    assert(rest.take(j as int) =~= l@.subrange(i + 1, i + 1 + j));
                    assert(rest.subrange(j + 1, rest.len() as int) =~= l@.subrange(
                        i + 2 + j,
                        len as int,
                    ));
                    let a = parse_number(l, i + 1, i + 1 + j);
                    let b = parse_number(l, i + 2 + j, len);
                    match (a, b) {
                        (Some(a), Some(b)) => {
                            if a <= b {
                                let name = string_of(l, 0, i);
                                assert(l@.subrange(0, i as int) =~= l@.take(i as int));
                                Some(Span { name, start: a, end: b })
                            } else {
                                None
                            }
                        },
                        _ => None,
                    }
                },
            }
        },
    }
}

/// Reads a whole span log. Blank lines are skipped; any other line that is malformed, or whose
/// end comes before its start, fails the whole text, and the error names the first such line.
pub fn parse_span_log(text: &str) -> (r: Result<Vec<Span>, ParseError>)
    ensures
        match r {
            Ok(v) => parse_span_lines(lines_of(text@)) == Ok::<_, nat>(spans_view(v@)) && (forall|
                k: int,
            | 0 <= k < v@.len() ==> #[trigger] v@[k].wf()),
            Err(e) => parse_span_lines(lines_of(text@)) == Err::<Seq<(Seq<char>, u64, u64)>, _>(
                e.line as nat,
            ),
        },
{
    let lines = split_lines(text);
    let ghost ls = lines_of(text@);
    let mut out: Vec<Span> = Vec::new();
    let mut i: usize = 0;
    assert(ls.take(0) =~= Seq::<Seq<char>>::empty());
    assert(spans_view(out@) =~= Seq::<(Seq<char>, u64, u64)>::empty());
    while i < lines.len()
        invariant
            i <= lines@.len(),
            ls == lines_view(lines@),
            ls == lines_of(text@),
            parse_span_lines(ls.take(i as int)) == Ok::<_, nat>(spans_view(out@)),
            forall|k: int| 0 <= k < out@.len() ==> #[trigger] out@[k].wf(),
        decreases lines@.len() - i,
    {
        assert(ls.take(i + 1).drop_last() =~= ls.take(i as int));
        assert(ls.take(i + 1).last() == lines@[i as int]@);
        let ghost old_out = out@;
        if !blank(&lines[i]) {
            match parse_span_chars(&lines[i]) {
                None => {
                    proof {
                        lemma_span_error_sticks(ls, i + 1);
                    }
                    return Err(ParseError { line: i + 1 });
                },
                Some(s) => {
                    let ghost prev = spans_view(out@);
                    out.push(s);
                    assert(out@.drop_last() =~= old_out);
                    assert(spans_view(out@) =~= prev.push(out@.last()@));
                },
            }
        }
        i = i + 1;
    }
    assert(ls.take(i as int) =~= ls);
    Ok(out)
}

/// The text of a span log that holds `spans`, one line each.
pub fn format_span_log(spans: &Vec<Span>) -> (r: String)
    ensures
        r@ == span_log_text(spans_view(spans@)),
{
    let mut out = String::new();
    let mut i: usize = 0;
    while i < spans.len()
        invariant
            i <= spans@.len(),
            out@ == span_log_text(spans_view(spans@.take(i as int))),
        decreases spans@.len() - i,
    {
        let line = spans[i].format();
        push_all(&mut out, line.as_str());
        push_char(&mut out, NEWLINE);
        assert(spans_view(spans@.take(i + 1)).drop_last() =~= spans_view(spans@.take(i as int)));
        i = i + 1;
    }
    assert(spans@.take(i as int) =~= spans@);
    out
}

} // verus!
