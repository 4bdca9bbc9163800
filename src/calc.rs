use vstd::prelude::*;

use crate::builder::names_view;
use crate::span::{span_ok, spans_view, Span};
use crate::text::{first_index_of, lemma_first_index_of};

verus! {

/// Total time per project: `totals[j]` belongs to `names[j]`.
pub struct ProjectTotals {
    pub names: Vec<String>,
    pub totals: Vec<u64>,
}

/// The map that a list of names and a list of totals describe; a name that occurs twice takes
/// the total of its first occurrence.
pub open spec fn totals_map(names: Seq<Seq<char>>, totals: Seq<u64>) -> Map<Seq<char>, u64> {
    Map::new(|k: Seq<char>| names.contains(k), |k: Seq<char>| totals[first_index_of(names, k)])
}

impl View for ProjectTotals {
    type V = Map<Seq<char>, u64>;

    open spec fn view(&self) -> Map<Seq<char>, u64> {
        totals_map(names_view(self.names@), self.totals@)
    }
}

impl ProjectTotals {
    pub open spec fn wf(&self) -> bool {
        self.names@.len() == self.totals@.len()
    }

    /// Whether `name` has a total.
    pub fn contains_key(&self, name: &str) -> (r: bool)
        requires
            self.wf(),
        ensures
            r == self@.contains_key(name@),
    {
        self.get(name).is_some()
    }

    /// The total of `name`, if it has one.
    pub fn get(&self, name: &str) -> (r: Option<&u64>)
        requires
            self.wf(),
        ensures
            match r {
                Some(t) => self@.contains_key(name@) && *t == self@[name@],
                None => !self@.contains_key(name@),
            },
    {
        let key = name.to_owned();
        let ghost ns = names_view(self.names@);
        let mut j: usize = 0;
        while j < self.names.len()
            invariant
                self.wf(),
                j <= self.names@.len(),
                ns == names_view(self.names@),
                key@ == name@,
                forall|i: int| 0 <= i < j ==> ns[i] != key@,
            decreases self.names@.len() - j,
        {
            if self.names[j] == key {
                proof {
                    crate::text::lemma_first_index_at(ns, key@, j as int);
                    assert(ns.contains(key@)) by {
                        assert(ns[j as int] == key@);
                    }
                }
                return Some(&self.totals[j]);
            }
            j = j + 1;
        }
        assert(!ns.contains(name@)) by {
            if ns.contains(name@) {
                let i = choose|i: int| 0 <= i < ns.len() && ns[i] == name@;
                assert(ns[i] == key@);
            }
        }
        None
    }
}

/// Whether some span of `ss` belongs to project `p`.
pub open spec fn has_project(ss: Seq<(Seq<char>, u64, u64)>, p: Seq<char>) -> bool {
    exists|i: int| 0 <= i < ss.len() && #[trigger] ss[i].0 == p
}

/// The sum of `end - start` over the spans of `ss` that belong to project `p`.
pub open spec fn total_of(ss: Seq<(Seq<char>, u64, u64)>, p: Seq<char>) -> int
    decreases ss.len(),
{
    if ss.len() == 0 {
        0
    } else {
        total_of(ss.drop_last(), p) + if ss.last().0 == p {
            ss.last().2 - ss.last().1
        } else {
            0
        }
    }
}

pub open spec fn all_spans_ok(ss: Seq<(Seq<char>, u64, u64)>) -> bool {
    forall|i: int| 0 <= i < ss.len() ==> #[trigger] span_ok(ss[i])
}

/// Every project's total fits in a `u64`.
pub open spec fn totals_fit(ss: Seq<(Seq<char>, u64, u64)>) -> bool {
    forall|p: Seq<char>| #[trigger] total_of(ss, p) <= u64::MAX
}

/// `m` holds exactly the projects of `ss`, each with the sum of its spans' durations.
pub open spec fn is_totals_of(ss: Seq<(Seq<char>, u64, u64)>, m: Map<Seq<char>, u64>) -> bool {
    &&& forall|p: Seq<char>| #[trigger] m.contains_key(p) <==> has_project(ss, p)
    &&& forall|p: Seq<char>| #[trigger] m.contains_key(p) ==> m[p] == total_of(ss, p)
}

/// A project's total over a prefix of the spans is at most its total over all of them.
pub proof fn lemma_total_prefix(ss: Seq<(Seq<char>, u64, u64)>, k: int, p: Seq<char>)
    requires
        0 <= k <= ss.len(),
        all_spans_ok(ss),
    ensures
        0 <= total_of(ss.take(k), p) <= total_of(ss, p),
    decreases ss.len(),
{
    if k < ss.len() {
        assert(ss.drop_last().take(k) =~= ss.take(k));
        assert(span_ok(ss[ss.len() - 1]));
        assert forall|i: int| 0 <= i < ss.drop_last().len() implies #[trigger] span_ok(
            ss.drop_last()[i],
        ) by {
            assert(span_ok(ss[i]));
        }
        lemma_total_prefix(ss.drop_last(), k, p);
    } else {
        assert(ss.take(k) =~= ss);
        lemma_total_nonneg(ss, p);
    }
}

proof fn lemma_total_nonneg(ss: Seq<(Seq<char>, u64, u64)>, p: Seq<char>)
    requires
        all_spans_ok(ss),
    ensures
        total_of(ss, p) >= 0,
    decreases ss.len(),
{
    if ss.len() > 0 {
        assert(span_ok(ss[ss.len() - 1]));
        assert forall|i: int| 0 <= i < ss.drop_last().len() implies #[trigger] span_ok(
            ss.drop_last()[i],
        ) by {
            assert(span_ok(ss[i]));
        }
        lemma_total_nonneg(ss.drop_last(), p);
    }
}

/// Sums the spans' durations per project, or gives `None` where some project's total does not
/// fit in a `u64`.
pub fn try_totals(spans: &Vec<Span>) -> (r: Option<ProjectTotals>)
    requires
        all_spans_ok(spans_view(spans@)),
    ensures
        r is Some <==> totals_fit(spans_view(spans@)),
        match r {
            Some(t) => t.wf() && is_totals_of(spans_view(spans@), t@),
            None => true,
        },
{
    let ghost ss = spans_view(spans@);
    let mut names: Vec<String> = Vec::new();
    let mut totals: Vec<u64> = Vec::new();
    let mut k: usize = 0;
    while k < spans.len()
        invariant
            k <= spans@.len(),
            ss == spans_view(spans@),
            all_spans_ok(ss),
            names@.len() == totals@.len(),
            forall|p: Seq<char>|
                #[trigger] names_view(names@).contains(p) <==> has_project(ss.take(k as int), p),
            forall|j: int|
                0 <= j < names@.len() ==> #[trigger] totals@[j] == total_of(
                    ss.take(k as int),
                    names@[j]@,
                ),
            forall|i: int, j: int|
                0 <= i < j < names@.len() ==> names_view(names@)[i] != names_view(names@)[j],
        decreases spans@.len() - k,
    {
        let s = &spans[k];
        let ghost pre = ss.take(k as int);
        let ghost cur = ss.take(k + 1);
        assert(cur.drop_last() =~= pre);
        assert(cur.last() == s@);
        assert(span_ok(ss[k as int]));
        let d = s.end - s.start;
        let ghost old_names = names@;
        let ghost old_totals = totals@;
        assert forall|p: Seq<char>| has_project(cur, p) <==> has_project(pre, p) || p == s.name@ by {
            if has_project(pre, p) {
                let i = choose|i: int| 0 <= i < pre.len() && #[trigger] pre[i].0 == p;
                assert(cur[i] == pre[i]);
            }
            if p == s.name@ {
                assert(cur[k as int].0 == p);
            }
            if has_project(cur, p) && p != s.name@ {
                let i = choose|i: int| 0 <= i < cur.len() && #[trigger] cur[i].0 == p;
                assert(pre[i] == cur[i]);
            }
        }
        match find_total(&names, &s.name) {
            Some(j) => {
                match totals[j].checked_add(d) {
                    None => {
                        proof {
                            assert(total_of(cur, s.name@) > u64::MAX);
                            lemma_total_prefix(ss, k + 1, s.name@);
                            assert(!totals_fit(ss));
                        }
                        return None;
                    },
                    Some(t) => {
                        totals[j] = t;
                        assert forall|i: int| 0 <= i < names@.len() implies #[trigger] totals@[i]
                            == total_of(cur, names@[i]@) by {
                            assert(old_totals[i] == total_of(pre, names@[i]@));
                            assert(names_view(names@)[i] == names@[i]@);
                            assert(names_view(names@)[j as int] == names@[j as int]@);
                        }
                        assert forall|p: Seq<char>|
                            #[trigger] names_view(names@).contains(p) <==> has_project(cur, p) by {
                            if p == s.name@ {
                                assert(names_view(names@)[j as int] == p);
                            }
                        }
                    },
                }
            },
            None => {
                names.push(s.name.clone());
                totals.push(d);
                assert(names_view(names@) =~= names_view(old_names).push(s.name@));
                assert(!has_project(pre, s.name@));
                proof {
                    lemma_total_absent(pre, s.name@);
                }
                assert forall|i: int| 0 <= i < names@.len() implies #[trigger] totals@[i]
                    == total_of(cur, names@[i]@) by {
                    if i < old_names.len() {
                        assert(old_totals[i] == total_of(pre, old_names[i]@));
                        assert(names@[i] == old_names[i]);
                        assert(names_view(old_names)[i] == old_names[i]@);
                    }
                }
                assert forall|p: Seq<char>|
                    #[trigger] names_view(names@).contains(p) <==> has_project(cur, p) by {
                    if p == s.name@ {
                        assert(names_view(names@)[old_names.len() as int] == p);
                    }
                    if names_view(names@).contains(p) && p != s.name@ {
                        let i = choose|i: int| 0 <= i < names_view(names@).len() && names_view(names@)[i] == p;
                        assert(names_view(old_names)[i] == p);
                    }
                    if names_view(old_names).contains(p) {
                        let i = choose|i: int| 0 <= i < names_view(old_names).len() && names_view(old_names)[i] == p;
                        assert(names_view(names@)[i] == p);
                    }
                }
            },
        }
        k = k + 1;
    }
    assert(ss.take(k as int) =~= ss);
    let t = ProjectTotals { names, totals };
    proof {
        let ns = names_view(t.names@);
        assert forall|p: Seq<char>| #[trigger] t@.contains_key(p) implies t@[p] == total_of(ss, p) by {
            lemma_first_index_of(ns, p);
            let j = first_index_of(ns, p);
            assert(ns[j] == t.names@[j]@);
        }
        assert forall|p: Seq<char>| #[trigger] total_of(ss, p) <= u64::MAX by {
            if has_project(ss, p) {
                assert(names_view(t.names@).contains(p));
                lemma_first_index_of(ns, p);
                let j = first_index_of(ns, p);
                assert(ns[j] == t.names@[j]@);
                assert(t.totals@[j] == total_of(ss.take(ss.len() as int), t.names@[j]@));
            } else {
                lemma_total_absent(ss, p);
            }
        }
    }
    Some(t)
}

/// Sums the durations of the spans per project. Every project with at least one span has an
/// entry, spans of zero length included, and its total is the sum of `end - start` over its
/// spans.
pub fn calculate_project_total_time(spans: Vec<Span>) -> (r: ProjectTotals)
    requires
        all_spans_ok(spans_view(spans@)),
        totals_fit(spans_view(spans@)),
    ensures
        r.wf(),
        is_totals_of(spans_view(spans@), r@),
{
    try_totals(&spans).unwrap()
}

/// The totals of a span sequence are determined by the spans alone: two results that both meet
/// the contract of `calculate_project_total_time` for the same spans are equal, so computing
/// them again gives the same map.
pub proof fn lemma_totals_unique(
    ss: Seq<(Seq<char>, u64, u64)>,
    m1: Map<Seq<char>, u64>,
    m2: Map<Seq<char>, u64>,
)
    requires
        is_totals_of(ss, m1),
        is_totals_of(ss, m2),
    ensures
        m1 == m2,
{
    assert forall|p: Seq<char>| #[trigger] m1.contains_key(p) == m2.contains_key(p) by {
        assert(m1.contains_key(p) == has_project(ss, p));
        assert(m2.contains_key(p) == has_project(ss, p));
    }
    assert(m1.dom() =~= m2.dom());
    assert forall|p: Seq<char>| m1.contains_key(p) implies m1[p] == m2[p] by {
        assert(m1[p] == total_of(ss, p));
        assert(m2.contains_key(p));
        assert(m2[p] == total_of(ss, p));
    }
    assert(m1 =~= m2);
}

/// Totals add up over concatenation: a project's total over `a + b` is its total over `a` plus
/// its total over `b`.
pub proof fn lemma_total_additive(
    a: Seq<(Seq<char>, u64, u64)>,
    b: Seq<(Seq<char>, u64, u64)>,
    p: Seq<char>,
)
    ensures
        total_of(a + b, p) == total_of(a, p) + total_of(b, p),
    decreases b.len(),
{
    if b.len() == 0 {
        assert(a + b =~= a);
    } else {
        assert((a + b).drop_last() =~= a + b.drop_last());
        assert((a + b).last() == b.last());
        lemma_total_additive(a, b.drop_last(), p);
    }
}

/// A project without spans has a total of zero.
proof fn lemma_total_absent(ss: Seq<(Seq<char>, u64, u64)>, p: Seq<char>)
    requires
        !has_project(ss, p),
    ensures
        total_of(ss, p) == 0,
    decreases ss.len(),
{
    if ss.len() > 0 {
        assert(ss.last().0 != p) by {
            if ss.last().0 == p {
                assert(ss[ss.len() - 1].0 == p);
            }
        }
        assert(!has_project(ss.drop_last(), p)) by {
            if has_project(ss.drop_last(), p) {
                let i = choose|i: int| 0 <= i < ss.drop_last().len() && #[trigger] ss.drop_last()[i].0 == p;
                assert(ss[i].0 == p);
            }
        }
        lemma_total_absent(ss.drop_last(), p);
    }
}

/// Where `x` stands in `names`, if it does.
fn find_total(names: &Vec<String>, x: &String) -> (r: Option<usize>)
    ensures
        match r {
            Some(j) => j < names@.len() && names@[j as int]@ == x@,
            None => !names_view(names@).contains(x@),
        },
{
    let mut j: usize = 0;
    while j < names.len()
        invariant
            j <= names@.len(),
            forall|i: int| 0 <= i < j ==> names@[i]@ != x@,
        decreases names@.len() - j,
    {
        if names[j] == *x {
            return Some(j);
        }
        j = j + 1;
    }
    assert(!names_view(names@).contains(x@)) by {
        if names_view(names@).contains(x@) {
            let i = choose|i: int| 0 <= i < names@.len() && names_view(names@)[i] == x@;
            assert(names@[i]@ == x@);
        }
    }
    None
}

} // verus!
