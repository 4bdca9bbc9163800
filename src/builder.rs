use vstd::prelude::*;

use crate::raw_log::{entries_view, RawLogEntry};
use crate::span::{spans_view, Span};

verus! {

/// The projects that occur in `es`, each once, in the order in which they are first seen.
pub open spec fn projects(es: Seq<(Seq<char>, u64)>) -> Seq<Seq<char>>
    decreases es.len(),
{
    if es.len() == 0 {
        Seq::empty()
    } else {
        let ps = projects(es.drop_last());
        if ps.contains(es.last().0) {
            ps
        } else {
            ps.push(es.last().0)
        }
    }
}

/// The timestamps observed for project `p`, in the order of `es`.
pub open spec fn times_of(es: Seq<(Seq<char>, u64)>, p: Seq<char>) -> Seq<u64>
    decreases es.len(),
{
    if es.len() == 0 {
        Seq::empty()
    } else {
        let ts = times_of(es.drop_last(), p);
        if es.last().0 == p {
            ts.push(es.last().1)
        } else {
            ts
        }
    }
}

/// Consecutive observations taken two by two: the first and second make a span, the third and
/// fourth the next, and so on. A last, unpaired observation makes none.
pub open spec fn pair_spans(p: Seq<char>, ts: Seq<u64>) -> Seq<(Seq<char>, u64, u64)> {
    Seq::new(ts.len() / 2, |k: int| (p, ts[2 * k], ts[2 * k + 1]))
}

/// The spans of the projects `ps`, project after project.
pub open spec fn spans_for(es: Seq<(Seq<char>, u64)>, ps: Seq<Seq<char>>) -> Seq<(Seq<char>, u64, u64)>
    decreases ps.len(),
{
    if ps.len() == 0 {
        Seq::empty()
    } else {
        spans_for(es, ps.drop_last()) + pair_spans(ps.last(), times_of(es, ps.last()))
    }
}

/// For each project of `ps` with an odd number of observations, its last one.
pub open spec fn checkpoints_for(es: Seq<(Seq<char>, u64)>, ps: Seq<Seq<char>>) -> Seq<(Seq<char>, u64)>
    decreases ps.len(),
{
    if ps.len() == 0 {
        Seq::empty()
    } else {
        let cs = checkpoints_for(es, ps.drop_last());
        let ts = times_of(es, ps.last());
        if ts.len() % 2 == 1 {
            cs.push((ps.last(), ts.last()))
        } else {
            cs
        }
    }
}

pub open spec fn names_view(v: Seq<String>) -> Seq<Seq<char>> {
    v.map_values(|s: String| s@)
}

/// Where `x` stands in `names`, if it does.
fn find_name(names: &Vec<String>, x: &String) -> (r: Option<usize>)
    ensures
        match r {
            Some(j) => j < names@.len() && names@[j as int]@ == x@,
            None => forall|i: int| 0 <= i < names@.len() ==> names@[i]@ != x@,
        },
{
    let mut j: usize = 0;
    while j < names.len()
        invariant
            j <= names@.len(),
            forall|i: int| 0 <= i < j ==> names@[i]@ != x@,
        decreases names@.len() - j,
    {
        if names[j] == *x {
            return Some(j);
        }
        j = j + 1;
    }
    None
}

/// Groups the observations by project, in first-seen order, keeping the order of each project's
/// observations.
fn group(entries: &Vec<RawLogEntry>) -> (r: (Vec<String>, Vec<Vec<u64>>))
    ensures
        names_view(r.0@) == projects(entries_view(entries@)),
        r.1@.len() == r.0@.len(),
        forall|j: int|
            0 <= j < r.0@.len() ==> #[trigger] r.1@[j]@ == times_of(
                entries_view(entries@),
                r.0@[j]@,
            ),
{
    let ghost es = entries_view(entries@);
    let mut names: Vec<String> = Vec::new();
    let mut times: Vec<Vec<u64>> = Vec::new();
    let mut k: usize = 0;
    assert(names_view(names@) =~= projects(es.take(0)));
    while k < entries.len()
        invariant
            k <= entries@.len(),
            es == entries_view(entries@),
            names_view(names@) == projects(es.take(k as int)),
            times@.len() == names@.len(),
            forall|j: int|
                0 <= j < names@.len() ==> #[trigger] times@[j]@ == times_of(
                    es.take(k as int),
                    names@[j]@,
                ),
        decreases entries@.len() - k,
    {
        let e = &entries[k];
        let ghost pre = es.take(k as int);
        let ghost cur = es.take(k + 1);
        assert(cur.drop_last() =~= pre);
        assert(cur.last() == e@);
        let found = find_name(&names, &e.name);
        let ghost old_names = names@;
        let ghost old_times = times@;
        if let Some(j) = found {
            assert(names_view(names@)[j as int] == e.name@);
            times[j].push(e.timestamp);
            assert forall|i: int| 0 <= i < names@.len() implies #[trigger] times@[i]@ == times_of(
                cur,
                names@[i]@,
            ) by {
                assert(old_times[i]@ == times_of(pre, names@[i]@));
                lemma_projects_distinct(pre);
                assert(names_view(names@)[i] == names@[i]@);
                assert(names_view(names@)[j as int] == names@[j as int]@);
                if i != j {
                    assert(names@[i]@ != e.name@);
                }
            }
        } else {
            assert(!names_view(names@).contains(e.name@)) by {
                if names_view(names@).contains(e.name@) {
                    let i = choose|i: int| 0 <= i < names@.len() && names_view(names@)[i] == e.name@;
                    assert(names@[i]@ == e.name@);
                }
            }
            proof {
                lemma_times_absent(pre, e.name@);
            }
            names.push(e.name.clone());
            let mut ts: Vec<u64> = Vec::new();
            ts.push(e.timestamp);
            times.push(ts);
            assert(names_view(names@) =~= names_view(old_names).push(e.name@));
            assert forall|i: int| 0 <= i < names@.len() implies #[trigger] times@[i]@ == times_of(
                cur,
                names@[i]@,
            ) by {
                if i < old_names.len() {
                    assert(old_times[i]@ == times_of(pre, old_names[i]@));
                    assert(names@[i] == old_names[i]);
                } else {
                    assert(times_of(pre, e.name@) =~= Seq::<u64>::empty());
                }
            }
        }
        k = k + 1;
    }
    assert(es.take(k as int) =~= es);
    (names, times)
}

/// No project is listed twice.
pub proof fn lemma_projects_distinct(es: Seq<(Seq<char>, u64)>)
    ensures
        forall|i: int, j: int|
            0 <= i < j < projects(es).len() ==> projects(es)[i] != projects(es)[j],
    decreases es.len(),
{
    if es.len() > 0 {
        lemma_projects_distinct(es.drop_last());
        let ps = projects(es.drop_last());
        let x = es.last().0;
        if !ps.contains(x) {
            assert forall|i: int, j: int| 0 <= i < j < ps.push(x).len() implies ps.push(x)[i] != ps.push(
                x,
            )[j] by {
                if j == ps.len() {
                    assert(ps.push(x)[i] == ps[i]);
                    if ps[i] == x {
                        assert(ps.contains(x));
                    }
                }
            }
        }
    }
}

/// A project that `projects` does not list has no observations.
proof fn lemma_times_absent(es: Seq<(Seq<char>, u64)>, p: Seq<char>)
    requires
        !projects(es).contains(p),
    ensures
        times_of(es, p).len() == 0,
    decreases es.len(),
{
    if es.len() > 0 {
        let ps = projects(es.drop_last());
        if ps.contains(p) {
            assert(projects(es).contains(p)) by {
                let i = choose|i: int| 0 <= i < ps.len() && ps[i] == p;
                if !ps.contains(es.last().0) {
                    assert(ps.push(es.last().0)[i] == p);
                }
            }
        }
        if es.last().0 == p {
            if !ps.contains(p) {
                assert(ps.push(p)[ps.len() as int] == p);
            }
        }
        lemma_times_absent(es.drop_last(), p);
    }
}

/// Turns raw observations into spans. Observations are grouped by project, projects in the order
/// in which they are first seen; within a project they keep their order and are paired two by
/// two. The unpaired last observation of a project with an odd count is returned as that
/// project's checkpoint, to be carried forward into the next run's raw log.
pub fn build_spans(entries: &Vec<RawLogEntry>) -> (r: (Vec<Span>, Vec<RawLogEntry>))
    ensures
        spans_view(r.0@) == spans_for(entries_view(entries@), projects(entries_view(entries@))),
        entries_view(r.1@) == checkpoints_for(
            entries_view(entries@),
            projects(entries_view(entries@)),
        ),
{
    let ghost es = entries_view(entries@);
    let (names, times) = group(entries);
    let ghost ps = names_view(names@);
    let mut spans: Vec<Span> = Vec::new();
    let mut checks: Vec<RawLogEntry> = Vec::new();
    let mut g: usize = 0;
    assert(spans_view(spans@) =~= spans_for(es, ps.take(0)));
    assert(entries_view(checks@) =~= checkpoints_for(es, ps.take(0)));
    while g < names.len()
        invariant
            g <= names@.len(),
            es == entries_view(entries@),
            ps == names_view(names@),
            ps == projects(es),
            times@.len() == names@.len(),
            forall|j: int| 0 <= j < names@.len() ==> #[trigger] times@[j]@ == times_of(es, names@[j]@),
            spans_view(spans@) == spans_for(es, ps.take(g as int)),
            entries_view(checks@) == checkpoints_for(es, ps.take(g as int)),
        decreases names@.len() - g,
    {
        let ts = &times[g];
        let ghost p = names@[g as int]@;
        assert(ts@ == times_of(es, p));
        assert(ps.take(g + 1).drop_last() =~= ps.take(g as int));
        assert(ps.take(g + 1).last() == p);
        let ghost base = spans_view(spans@);
        let ghost pairs = pair_spans(p, ts@);
        let mut q: usize = 0;
        while q < ts.len() / 2
            invariant
                q <= ts@.len() / 2,
                g < names@.len(),
                p == names@[g as int]@,
                pairs == pair_spans(p, ts@),
                spans_view(spans@) == base + pairs.take(q as int),
            decreases ts@.len() / 2 - q,
        {
            let ghost before = spans_view(spans@);
            let s = Span { name: names[g].clone(), start: ts[2 * q], end: ts[2 * q + 1] };
            spans.push(s);
            assert(spans_view(spans@) =~= before.push(s@));
            assert(pairs.take(q + 1) =~= pairs.take(q as int).push(pairs[q as int]));
            q = q + 1;
        }
        assert(pairs.take(q as int) =~= pairs);
        if ts.len() % 2 == 1 {
            let ghost before = entries_view(checks@);
            let c = RawLogEntry { name: names[g].clone(), timestamp: ts[ts.len() - 1] };
            checks.push(c);
            assert(entries_view(checks@) =~= before.push(c@));
        }
        g = g + 1;
    }
    assert(ps.take(g as int) =~= ps);
    (spans, checks)
}

} // verus!
