use vstd::prelude::*;

use crate::text::{
    blank, chars_of, digits_of, find_char, first_index_of, is_blank, is_space, lemma_digits_of, lemma_lines_add_line,
    lemma_first_index_at, lines_of, lines_view, number_spec, parse_number, push_all, push_char,
    push_number, split_lines, string_of, NEWLINE, SEP,
};

verus! {

/// One observation of a project: the project was seen at `timestamp`.
#[derive(Debug, Clone, PartialEq, Eq)]
pub struct RawLogEntry {
    pub name: String,
    pub timestamp: u64,
}

impl View for RawLogEntry {
    type V = (Seq<char>, u64);

    open spec fn view(&self) -> (Seq<char>, u64) {
        (self.name@, self.timestamp)
    }
}

/// A malformed line; `line` counts the lines of the text from 1.
#[derive(Debug, Clone, Copy, PartialEq, Eq, Structural)]
pub struct ParseError {
    pub line: usize,
}

/// A project name that a log line can carry: not empty, and free of separators.
pub open spec fn valid_name(name: Seq<char>) -> bool {
    &&& name.len() > 0
    &&& forall|i: int| 0 <= i < name.len() ==> name[i] != SEP && name[i] != NEWLINE
}

/// The text of one raw log line: `name,timestamp`.
pub open spec fn raw_line(e: (Seq<char>, u64)) -> Seq<char> {
    e.0 + seq![SEP] + digits_of(e.1 as nat)
}

/// What one raw log line holds, if it is well formed.
pub open spec fn parse_raw_spec(l: Seq<char>) -> Option<(Seq<char>, u64)> {
    let i = first_index_of(l, SEP);
    if i <= 0 {
        None
    } else {
        match number_spec(l.subrange(i + 1, l.len() as int)) {
            Some(t) => Some((l.take(i), t)),
            None => None,
        }
    }
}

/// The entries of a sequence of raw lines, skipping blank ones, or the number (from 1) of the
/// first malformed line.
pub open spec fn parse_raw_lines(ls: Seq<Seq<char>>) -> Result<Seq<(Seq<char>, u64)>, nat>
    decreases ls.len(),
{
    if ls.len() == 0 {
        Ok(Seq::empty())
    } else {
        match parse_raw_lines(ls.drop_last()) {
            Err(k) => Err(k),
            Ok(es) => if is_blank(ls.last()) {
                Ok(es)
            } else {
                match parse_raw_spec(ls.last()) {
                    Some(e) => Ok(es.push(e)),
                    None => Err(ls.len()),
                }
            },
        }
    }
}

/// The text of a raw log: each entry on a line of its own, each line ended by a newline.
pub open spec fn raw_log_text(es: Seq<(Seq<char>, u64)>) -> Seq<char>
    decreases es.len(),
{
    if es.len() == 0 {
        Seq::empty()
    } else {
        raw_log_text(es.drop_last()) + raw_line(es.last()) + seq![NEWLINE]
    }
}

pub open spec fn entries_view(v: Seq<RawLogEntry>) -> Seq<(Seq<char>, u64)> {
    v.map_values(|e: RawLogEntry| e@)
}

/// Once a prefix of the lines fails, the whole sequence fails with the same error.
pub proof fn lemma_raw_error_sticks(ls: Seq<Seq<char>>, k: int)
    requires
        0 <= k <= ls.len(),
        parse_raw_lines(ls.take(k)) is Err,
    ensures
        parse_raw_lines(ls) == parse_raw_lines(ls.take(k)),
    decreases ls.len(),
{
    if k < ls.len() {
        assert(ls.drop_last().take(k) =~= ls.take(k));
        lemma_raw_error_sticks(ls.drop_last(), k);
    } else {
        assert(ls.take(k) =~= ls);
    }
}

/// Formatting a raw line and reading it back gives the entry again.
pub proof fn lemma_raw_round_trip(e: (Seq<char>, u64))
    requires
        valid_name(e.0),
    ensures
        parse_raw_spec(raw_line(e)) == Some(e),
{
    let l = raw_line(e);
    let n = e.0.len() as int;
    lemma_digits_of(e.1 as nat);
    assert forall|j: int| 0 <= j < n implies l[j] != SEP by {
        assert(l[j] == e.0[j]);
    }
    lemma_first_index_at(l, SEP, n);
    assert(l.subrange(n + 1, l.len() as int) =~= digits_of(e.1 as nat));
    assert(l.take(n) =~= e.0);
}

/// Reading back a raw log that was written from entries with valid names gives those entries.
pub proof fn lemma_raw_log_round_trip(es: Seq<(Seq<char>, u64)>)
    requires
        forall|i: int| 0 <= i < es.len() ==> #[trigger] valid_name(es[i].0),
    ensures
        parse_raw_lines(lines_of(raw_log_text(es))) == Ok::<_, nat>(es),
{
    lemma_raw_log_lines(es);
    lemma_raw_lines_parse(es);
}

proof fn lemma_raw_log_lines(es: Seq<(Seq<char>, u64)>)
    requires
        forall|i: int| 0 <= i < es.len() ==> #[trigger] valid_name(es[i].0),
    ensures
        lines_of(raw_log_text(es)) == es.map_values(|e: (Seq<char>, u64)| raw_line(e)).push(
            Seq::empty(),
        ),
    decreases es.len(),
{
    if es.len() == 0 {
        assert(lines_of(raw_log_text(es)) =~= seq![Seq::<char>::empty()]);
        assert(es.map_values(|e: (Seq<char>, u64)| raw_line(e)).push(Seq::empty()) =~= seq![
            Seq::<char>::empty(),
        ]);
    } else {
        let init = es.drop_last();
        assert forall|i: int| 0 <= i < init.len() implies #[trigger] valid_name(init[i].0) by {
            assert(valid_name(es[i].0));
        }
        lemma_raw_log_lines(init);
        let l = raw_line(es.last());
        assert(valid_name(es[es.len() - 1].0));
        lemma_digits_of(es.last().1 as nat);
        assert forall|i: int| 0 <= i < l.len() implies l[i] != NEWLINE by {
            if i < es.last().0.len() {
                assert(l[i] == es.last().0[i]);
            } else if i > es.last().0.len() {
                assert(l[i] == digits_of(es.last().1 as nat)[i - es.last().0.len() - 1]);
            }
        }
        lemma_lines_add_line(raw_log_text(init), l);
        assert(es.map_values(|e: (Seq<char>, u64)| raw_line(e)) =~= init.map_values(
            |e: (Seq<char>, u64)| raw_line(e),
        ).push(l));
    }
}

proof fn lemma_raw_lines_parse(es: Seq<(Seq<char>, u64)>)
    requires
        forall|i: int| 0 <= i < es.len() ==> #[trigger] valid_name(es[i].0),
    ensures
        parse_raw_lines(es.map_values(|e: (Seq<char>, u64)| raw_line(e))) == Ok::<_, nat>(es),
        parse_raw_lines(es.map_values(|e: (Seq<char>, u64)| raw_line(e)).push(Seq::empty()))
            == Ok::<_, nat>(es),
    decreases es.len(),
{
    let ls = es.map_values(|e: (Seq<char>, u64)| raw_line(e));
    assert(ls.push(Seq::empty()).drop_last() =~= ls);
    assert(is_blank(Seq::<char>::empty()));
    if es.len() == 0 {
        assert(es =~= Seq::<(Seq<char>, u64)>::empty());
    } else {
        let init = es.drop_last();
        assert forall|i: int| 0 <= i < init.len() implies #[trigger] valid_name(init[i].0) by {
            assert(valid_name(es[i].0));
        }
        lemma_raw_lines_parse(init);
        assert(ls.drop_last() =~= init.map_values(|e: (Seq<char>, u64)| raw_line(e)));
        assert(valid_name(es[es.len() - 1].0));
        lemma_raw_round_trip(es.last());
        let l = raw_line(es.last());
        assert(!is_space(l[es.last().0.len() as int]));
        assert(init.push(es.last()) =~= es);
    }
}

impl RawLogEntry {
    /// Reads one raw log line of the form `name,timestamp`.
    pub fn parse_line(line: &str) -> (r: Result<RawLogEntry, ParseError>)
        ensures
            match r {
                Ok(e) => parse_raw_spec(line@) == Some(e@),
                Err(err) => parse_raw_spec(line@) is None && err.line == 1,
            },
    {
        let cs = chars_of(line);
        match parse_raw_chars(&cs) {
            Some(e) => Ok(e),
            None => Err(ParseError { line: 1 }),
        }
    }

    /// The line that stands for this entry in a raw log, without a newline.
    pub fn format(&self) -> (r: String)
        ensures
            r@ == raw_line(self@),
    {
        let mut out = String::new();
        push_all(&mut out, self.name.as_str());
        push_char(&mut out, SEP);
        push_number(&mut out, self.timestamp);
        out
    }
}

fn parse_raw_chars(l: &Vec<char>) -> (r: Option<RawLogEntry>)
    ensures
        match r {
            Some(e) => parse_raw_spec(l@) == Some(e@),
            None => parse_raw_spec(l@) is None,
        },
{
    assert(l@.subrange(0, l@.len() as int) =~= l@);
    match find_char(l, 0, l.len(), SEP) {
        None => None,
        Some(i) => {
            if i == 0 {
                return None;
            }
            match parse_number(l, i + 1, l.len()) {
                None => None,
                Some(t) => {
                    let name = string_of(l, 0, i);
                    assert(l@.subrange(0, i as int) =~= l@.take(i as int));
                    Some(RawLogEntry { name, timestamp: t })
                },
            }
        },
    }
}

/// Reads a whole raw log. Blank lines are skipped; any other line that is malformed fails the
/// whole text, and the error names the first such line.
pub fn parse_raw_log(text: &str) -> (r: Result<Vec<RawLogEntry>, ParseError>)
    ensures
        match r {
            Ok(v) => parse_raw_lines(lines_of(text@)) == Ok::<_, nat>(entries_view(v@)),
            Err(e) => parse_raw_lines(lines_of(text@)) == Err::<Seq<(Seq<char>, u64)>, _>(
                e.line as nat,
            ),
        },
{
    let lines = split_lines(text);
    let ghost ls = lines_of(text@);
    let mut out: Vec<RawLogEntry> = Vec::new();
    let mut i: usize = 0;
    assert(ls.take(0) =~= Seq::<Seq<char>>::empty());
    assert(entries_view(out@) =~= Seq::<(Seq<char>, u64)>::empty());
    while i < lines.len()
        invariant
            i <= lines@.len(),
            ls == lines_view(lines@),
            ls == lines_of(text@),
            parse_raw_lines(ls.take(i as int)) == Ok::<_, nat>(entries_view(out@)),
        decreases lines@.len() - i,
    {
        assert(ls.take(i + 1).drop_last() =~= ls.take(i as int));
        assert(ls.take(i + 1).last() == lines@[i as int]@);
        let ghost old_out = out@;
        if !blank(&lines[i]) {
            match parse_raw_chars(&lines[i]) {
                None => {
                    proof {
                        lemma_raw_error_sticks(ls, i + 1);
                    }
                    return Err(ParseError { line: i + 1 });
                },
                Some(e) => {
                    let ghost prev = entries_view(out@);
                    out.push(e);
                    assert(out@.drop_last() =~= old_out);
                    assert(entries_view(out@) =~= prev.push(out@.last()@));
                },
            }
        }
        i = i + 1;
    }
    assert(ls.take(i as int) =~= ls);
    Ok(out)
}

/// The text of a raw log that holds `entries`, one line each.
pub fn format_raw_log(entries: &Vec<RawLogEntry>) -> (r: String)
    ensures
        r@ == raw_log_text(entries_view(entries@)),
{
    let mut out = String::new();
    let mut i: usize = 0;
    while i < entries.len()
        invariant
            i <= entries@.len(),
            out@ == raw_log_text(entries_view(entries@.take(i as int))),
        decreases entries@.len() - i,
    {
        let line = entries[i].format();
        push_all(&mut out, line.as_str());
        push_char(&mut out, NEWLINE);
        assert(entries_view(entries@.take(i + 1)).drop_last() =~= entries_view(entries@.take(i as int)));
        i = i + 1;
    }
    assert(entries@.take(i as int) =~= entries@);
    out
}

} // verus!
