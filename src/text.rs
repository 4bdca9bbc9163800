use vstd::prelude::*;

verus! {

/// Field separator inside one log line.
pub const SEP: char = ',';

/// Line separator inside a log.
pub const NEWLINE: char = '\n';

pub open spec fn is_digit(c: char) -> bool {
    c == '0' || c == '1' || c == '2' || c == '3' || c == '4' || c == '5' || c == '6' || c == '7'
        || c == '8' || c == '9'
}

pub open spec fn digit_value(c: char) -> nat {
    if c == '1' { 1 } else if c == '2' { 2 } else if c == '3' { 3 } else if c == '4' { 4 }
    else if c == '5' { 5 } else if c == '6' { 6 } else if c == '7' { 7 } else if c == '8' { 8 }
    else if c == '9' { 9 } else { 0 }
}

pub open spec fn digit_char(d: nat) -> char {
    if d == 1 { '1' } else if d == 2 { '2' } else if d == 3 { '3' } else if d == 4 { '4' }
    else if d == 5 { '5' } else if d == 6 { '6' } else if d == 7 { '7' } else if d == 8 { '8' }
    else if d == 9 { '9' } else { '0' }
}

pub open spec fn all_digits(s: Seq<char>) -> bool {
    forall|i: int| 0 <= i < s.len() ==> #[trigger] is_digit(s[i])
}

/// The number that a string of decimal digits denotes.
pub open spec fn value_of(s: Seq<char>) -> nat
    decreases s.len(),
{
    if s.len() == 0 {
        0
    } else {
        value_of(s.drop_last()) * 10 + digit_value(s.last())
    }
}

/// The decimal digits of `n`, without leading zeros.
pub open spec fn digits_of(n: nat) -> Seq<char>
    decreases n,
{
    if n < 10 {
        seq![digit_char(n)]
    } else {
        digits_of(n / 10).push(digit_char(n % 10))
    }
}

/// What a numeric field holds: one or more digits whose value fits in a `u64`.
pub open spec fn number_spec(s: Seq<char>) -> Option<u64> {
    if s.len() > 0 && all_digits(s) && value_of(s) <= u64::MAX {
        Some(value_of(s) as u64)
    } else {
        None
    }
}

/// Position of the first occurrence of `x` in `s`, or -1 where there is none.
pub open spec fn first_index_of<A>(s: Seq<A>, x: A) -> int
    decreases s.len(),
{
    if s.len() == 0 {
        -1
    } else {
        let p = first_index_of(s.drop_last(), x);
        if p >= 0 {
            p
        } else if s.last() == x {
            s.len() - 1
        } else {
            -1
        }
    }
}

/// The lines of a text, split at each newline: a text with `k` newlines has `k + 1` lines.
pub open spec fn lines_of(s: Seq<char>) -> Seq<Seq<char>>
    decreases s.len(),
{
    if s.len() == 0 {
        seq![Seq::empty()]
    } else {
        let ls = lines_of(s.drop_last());
        if s.last() == NEWLINE {
            ls.push(Seq::empty())
        } else {
            ls.update(ls.len() - 1, ls.last().push(s.last()))
        }
    }
}

pub open spec fn is_space(c: char) -> bool {
    c == ' ' || c == '\t' || c == '\r'
}

/// A line that holds nothing but white space; logs skip it.
pub open spec fn is_blank(s: Seq<char>) -> bool {
    forall|i: int| 0 <= i < s.len() ==> #[trigger] is_space(s[i])
}

/// The lines held in a vector of character vectors.
pub open spec fn lines_view(v: Seq<Vec<char>>) -> Seq<Seq<char>> {
    v.map_values(|l: Vec<char>| l@)
}

pub proof fn lemma_first_index_of<A>(s: Seq<A>, x: A)
    ensures
        -1 <= first_index_of(s, x) < s.len(),
        first_index_of(s, x) == -1 <==> (forall|i: int| 0 <= i < s.len() ==> s[i] != x),
        first_index_of(s, x) >= 0 ==> s[first_index_of(s, x)] == x,
        forall|j: int| 0 <= j < first_index_of(s, x) ==> s[j] != x,
    decreases s.len(),
{
    if s.len() > 0 {
        lemma_first_index_of(s.drop_last(), x);
        let p = first_index_of(s.drop_last(), x);
        if p < 0 {
            assert forall|i: int| 0 <= i < s.len() - 1 implies s[i] != x by {
                assert(s.drop_last()[i] == s[i]);
            }
        } else {
            assert(s.drop_last()[p] == s[p]);
            assert forall|j: int| 0 <= j < p implies s[j] != x by {
                assert(s.drop_last()[j] == s[j]);
            }
        }
    }
}

/// Where `x` stands at `i` and nowhere before, `i` is its first index.
pub proof fn lemma_first_index_at<A>(s: Seq<A>, x: A, i: int)
    requires
        0 <= i < s.len(),
        s[i] == x,
        forall|j: int| 0 <= j < i ==> s[j] != x,
    ensures
        first_index_of(s, x) == i,
{
    lemma_first_index_of(s, x);
}

pub proof fn lemma_lines_nonempty(s: Seq<char>)
    ensures
        lines_of(s).len() > 0,
    decreases s.len(),
{
    if s.len() > 0 {
        lemma_lines_nonempty(s.drop_last());
    }
}

/// Appending characters other than a newline extends the last line.
pub proof fn lemma_lines_append(t: Seq<char>, l: Seq<char>)
    requires
        forall|i: int| 0 <= i < l.len() ==> l[i] != NEWLINE,
    ensures
        lines_of(t + l) == lines_of(t).update(lines_of(t).len() - 1, lines_of(t).last() + l),
    decreases l.len(),
{
    lemma_lines_nonempty(t);
    if l.len() == 0 {
        assert(t + l =~= t);
        assert(lines_of(t).last() + l =~= lines_of(t).last());
        assert(lines_of(t).update(lines_of(t).len() - 1, lines_of(t).last()) =~= lines_of(t));
    } else {
        let l0 = l.drop_last();
        lemma_lines_append(t, l0);
        assert((t + l).drop_last() =~= t + l0);
        assert((t + l).last() == l.last());
        let ls = lines_of(t + l0);
        assert(ls.last() =~= lines_of(t).last() + l0);
        assert(ls.last().push(l.last()) =~= lines_of(t).last() + l);
        assert(lines_of(t + l) =~= lines_of(t).update(lines_of(t).len() - 1, lines_of(t).last() + l));
    }
}

/// A line followed by a newline, after a text that ends a line: the line is added, then a new
/// empty line begins.
pub proof fn lemma_lines_add_line(t: Seq<char>, l: Seq<char>)
    requires
        forall|i: int| 0 <= i < l.len() ==> l[i] != NEWLINE,
        lines_of(t).last() == Seq::<char>::empty(),
    ensures
        lines_of(t + l + seq![NEWLINE]) == lines_of(t).drop_last().push(l).push(Seq::empty()),
{
    lemma_lines_nonempty(t);
    lemma_lines_append(t, l);
    let u = t + l + seq![NEWLINE];
    assert(u.drop_last() =~= t + l);
    assert(Seq::<char>::empty() + l =~= l);
    assert(lines_of(t).update(lines_of(t).len() - 1, l) =~= lines_of(t).drop_last().push(l));
}

pub proof fn lemma_digits_of(n: nat)
    ensures
        digits_of(n).len() > 0,
        all_digits(digits_of(n)),
        value_of(digits_of(n)) == n,
        forall|i: int| 0 <= i < digits_of(n).len() ==> digits_of(n)[i] != SEP && digits_of(n)[i]
            != NEWLINE,
    decreases n,
{
    let c = digit_char(n % 10);
    assert(digit_value(c) == n % 10);
    if n >= 10 {
        lemma_digits_of(n / 10);
        let d = digits_of(n);
        assert(d.drop_last() =~= digits_of(n / 10));
        assert(d.last() == c);
        assert((n / 10) * 10 + n % 10 == n);
        assert(value_of(d) == value_of(digits_of(n / 10)) * 10 + digit_value(c));
    } else {
        assert(n % 10 == n);
        assert(digits_of(n).drop_last() =~= Seq::<char>::empty());
        assert(value_of(Seq::<char>::empty()) == 0);
        assert(value_of(digits_of(n)) == value_of(digits_of(n).drop_last()) * 10 + digit_value(c));
    }
}

pub proof fn lemma_value_prefix(s: Seq<char>, k: int)
    requires
        0 <= k <= s.len(),
    ensures
        value_of(s.take(k)) <= value_of(s),
    decreases s.len(),
{
    if k < s.len() {
        assert(s.drop_last().take(k) =~= s.take(k));
        lemma_value_prefix(s.drop_last(), k);
    } else {
        assert(s.take(k) =~= s);
    }
}

/// Relies on String::push: the character is appended at the end.
#[verifier::external_body]
pub(crate) fn push_char(s: &mut String, c: char)
    ensures
        final(s)@ == old(s)@.push(c),
{
    s.push(c);
}

/// The characters of a string, in order.
pub fn chars_of(s: &str) -> (r: Vec<char>)
    ensures
        r@ == s@,
{
    let mut out: Vec<char> = Vec::new();
    let chars = s.chars();
    for c in it: chars
        invariant
            out@ == it.history(),
    {
        out.push(c);
    }
    out
}

/// A string that holds `s[lo..hi]`.
pub fn string_of(s: &Vec<char>, lo: usize, hi: usize) -> (r: String)
    requires
        lo <= hi <= s@.len(),
    ensures
        r@ == s@.subrange(lo as int, hi as int),
{
    let mut out = String::new();
    let mut i: usize = lo;
    while i < hi
        invariant
            lo <= i <= hi <= s@.len(),
            out@ == s@.subrange(lo as int, i as int),
        decreases hi - i,
    {
        push_char(&mut out, s[i]);
        assert(s@.subrange(lo as int, i + 1) =~= s@.subrange(lo as int, i as int).push(s@[i as int]));
        i = i + 1;
    }
    out
}

/// Appends the characters of `s`.
pub fn push_all(out: &mut String, s: &str)
    ensures
        final(out)@ == old(out)@ + s@,
{
    let cs = chars_of(s);
    let mut k: usize = 0;
    while k < cs.len()
        invariant
            k <= cs@.len(),
            cs@ == s@,
            out@ == old(out)@ + cs@.take(k as int),
        decreases cs@.len() - k,
    {
        push_char(out, cs[k]);
        assert(cs@.take(k + 1) =~= cs@.take(k as int).push(cs@[k as int]));
        k = k + 1;
    }
    assert(cs@.take(k as int) =~= cs@);
}

/// Appends the decimal digits of `n`.
pub fn push_number(out: &mut String, n: u64)
    ensures
        final(out)@ == old(out)@ + digits_of(n as nat),
    decreases n,
{
    if n >= 10 {
        push_number(out, n / 10);
    }
    push_char(out, digit_to_char(n % 10));
    assert(old(out)@ + digits_of(n as nat) =~= if n >= 10 {
        old(out)@ + digits_of((n / 10) as nat) + seq![digit_char((n % 10) as nat)]
    } else {
        old(out)@ + seq![digit_char(n as nat)]
    });
}

fn digit_to_char(d: u64) -> (r: char)
    requires
        d < 10,
    ensures
        r == digit_char(d as nat),
{
    match d {
        0 => '0',
        1 => '1',
        2 => '2',
        3 => '3',
        4 => '4',
        5 => '5',
        6 => '6',
        7 => '7',
        8 => '8',
        _ => '9',
    }
}

fn char_to_digit(c: char) -> (r: Option<u64>)
    ensures
        r == (if is_digit(c) { Some(digit_value(c) as u64) } else { None::<u64> }),
{
    match c {
        '0' => Some(0),
        '1' => Some(1),
        '2' => Some(2),
        '3' => Some(3),
        '4' => Some(4),
        '5' => Some(5),
        '6' => Some(6),
        '7' => Some(7),
        '8' => Some(8),
        '9' => Some(9),
        _ => None,
    }
}

/// Reads the numeric field `s[lo..hi]`.
pub fn parse_number(s: &Vec<char>, lo: usize, hi: usize) -> (r: Option<u64>)
    requires
        lo <= hi <= s@.len(),
    ensures
        r == number_spec(s@.subrange(lo as int, hi as int)),
{
    let ghost f = s@.subrange(lo as int, hi as int);
    if lo == hi {
        return None;
    }
    let mut acc: u64 = 0;
    let mut i: usize = lo;
    while i < hi
        invariant
            lo <= i <= hi <= s@.len(),
            f == s@.subrange(lo as int, hi as int),
            all_digits(f.take(i - lo)),
            acc as nat == value_of(f.take(i - lo)),
        decreases hi - i,
    {
        let ghost k = i - lo;
        assert(f.take(k + 1).drop_last() =~= f.take(k));
        assert(f[k] == s@[i as int]);
        match char_to_digit(s[i]) {
            None => {
                return None;
            },
            Some(d) => {
                if acc > (u64::MAX - d) / 10 {
                    proof {
                        assert(value_of(f.take(k + 1)) > u64::MAX) by (nonlinear_arith)
                            requires
                                acc > (u64::MAX - d) / 10,
                                value_of(f.take(k + 1)) == acc * 10 + d,
                        ;
                        lemma_value_prefix(f, k + 1);
                    }
                    return None;
                }
                proof {
                    assert(acc * 10 + d <= u64::MAX) by (nonlinear_arith)
                        requires
                            acc <= (u64::MAX - d) / 10,
                            d < 10,
                    ;
                }
                acc = acc * 10 + d;
                assert forall|j: int| 0 <= j < k + 1 implies #[trigger] is_digit(f.take(k + 1)[j]) by {
                    if j < k {
                        assert(f.take(k + 1)[j] == f.take(k)[j]);
                    }
                }
            },
        }
        i = i + 1;
    }
    assert(f.take(hi - lo) =~= f);
    Some(acc)
}

/// Position of the first `x` in `s[lo..hi]`, counted from `lo`.
pub fn find_char(s: &Vec<char>, lo: usize, hi: usize, x: char) -> (r: Option<usize>)
    requires
        lo <= hi <= s@.len(),
    ensures
        match r {
            Some(k) => k < hi - lo && k as int == first_index_of(s@.subrange(lo as int, hi as int), x),
            None => first_index_of(s@.subrange(lo as int, hi as int), x) == -1,
        },
{
    let ghost f = s@.subrange(lo as int, hi as int);
    let mut i: usize = lo;
    while i < hi
        invariant
            lo <= i <= hi <= s@.len(),
            f == s@.subrange(lo as int, hi as int),
            forall|j: int| 0 <= j < i - lo ==> f[j] != x,
        decreases hi - i,
    {
        if s[i] == x {
            proof {
                lemma_first_index_at(f, x, i - lo);
            }
            return Some(i - lo);
        }
        i = i + 1;
    }
    proof {
        lemma_first_index_of(f, x);
    }
    None
}

/// Whether `s` holds nothing but white space.
pub fn blank(s: &Vec<char>) -> (r: bool)
    ensures
        r == is_blank(s@),
{
    let mut i: usize = 0;
    while i < s.len()
        invariant
            i <= s@.len(),
            forall|j: int| 0 <= j < i ==> is_space(s@[j]),
        decreases s@.len() - i,
    {
        let c = s[i];
        if !(c == ' ' || c == '\t' || c == '\r') {
            assert(!is_space(s@[i as int]));
            return false;
        }
        i = i + 1;
    }
    true
}

/// The lines of a text, as `lines_of` gives them.
pub fn split_lines(text: &str) -> (r: Vec<Vec<char>>)
    ensures
        lines_view(r@) == lines_of(text@),
{
    let cs = chars_of(text);
    let mut done: Vec<Vec<char>> = Vec::new();
    let mut cur: Vec<char> = Vec::new();
    let mut i: usize = 0;
    while i < cs.len()
        invariant
            i <= cs@.len(),
            cs@ == text@,
            lines_of(cs@.take(i as int)) == lines_view(done@).push(cur@),
        decreases cs@.len() - i,
    {
        let c = cs[i];
        assert(cs@.take(i + 1).drop_last() =~= cs@.take(i as int));
        proof {
            lemma_lines_nonempty(cs@.take(i as int));
        }
        let ghost before = lines_view(done@);
        let ghost old_cur = cur@;
        if c == NEWLINE {
            let line = cur;
            done.push(line);
            cur = Vec::new();
            assert(lines_view(done@) =~= before.push(old_cur));
            assert(lines_of(cs@.take(i + 1)) =~= lines_view(done@).push(cur@));
        } else {
            cur.push(c);
            assert(lines_view(done@) =~= before);
            assert(lines_of(cs@.take(i + 1)) =~= before.push(old_cur).update(before.len() as int, old_cur.push(c)));
            assert(before.push(old_cur).update(before.len() as int, old_cur.push(c)) =~= before.push(cur@));
        }
        i = i + 1;
    }
    assert(cs@.take(i as int) =~= text@);
    let ghost before = lines_view(done@);
    let ghost last = cur@;
    done.push(cur);
    assert(lines_view(done@) =~= before.push(last));
    done
}

} // verus!
