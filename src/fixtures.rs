//! Formatting fixtures: a text file of records, each made of a header line
//! `== message ==`, an input, the marker `[expect]` and the expected output.
use vstd::prelude::*;
use vstd::string::StrSliceExecFns;
use vstd::string::StringExecFns;

use crate::text::{chars_of, occurs_in, trim_bounds, trimmed};

verus! {

/// One fixture: what it checks, its input, the output it expects, and
/// whether it was marked `(only)`.
#[derive(PartialEq, Eq, Debug)]
pub struct Spec {
    pub message: String,
    pub file_text: String,
    pub expected_text: String,
    pub is_only: bool,
}

/// The lines of `t`: the pieces between its line feeds.
pub open spec fn split_lines(t: Seq<char>) -> Seq<Seq<char>>
    decreases t.len(),
{
    if t.len() == 0 {
        seq![Seq::empty()]
    } else {
        let p = split_lines(t.drop_last());
        if t.last() == '\n' {
            p.push(Seq::empty())
        } else {
            p.update(p.len() - 1, p.last().push(t.last()))
        }
    }
}

/// The lines `ls`, joined by line feeds.
pub open spec fn join_lines(ls: Seq<Seq<char>>) -> Seq<char>
    decreases ls.len(),
{
    if ls.len() == 0 {
        Seq::empty()
    } else if ls.len() == 1 {
        ls[0]
    } else {
        join_lines(ls.drop_last()) + seq!['\n'] + ls.last()
    }
}

/// Whether a line starts a record.
pub open spec fn is_header(l: Seq<char>) -> bool {
    l.len() >= 2 && l[0] == '=' && l[1] == '='
}

/// The indices of the header lines among the first `k` lines of `ls`.
pub open spec fn headers(ls: Seq<Seq<char>>, k: int) -> Seq<int>
    decreases k,
{
    if k <= 0 {
        Seq::empty()
    } else if is_header(ls[k - 1]) {
        headers(ls, k - 1).push(k - 1)
    } else {
        headers(ls, k - 1)
    }
}

/// The marker between a record's input and its expected output.
pub open spec fn expect_marker() -> Seq<char> {
    seq!['[', 'e', 'x', 'p', 'e', 'c', 't', ']']
}

/// The first position at or after `from` where `pat` stands in `t`, or the
/// length of `t` where it stands nowhere.
pub open spec fn find_from(t: Seq<char>, pat: Seq<char>, from: int) -> int
    decreases t.len() - from,
{
    if from < 0 || from >= t.len() || from + pat.len() > t.len() {
        t.len() as int
    } else if t.subrange(from, from + pat.len()) == pat {
        from
    } else {
        find_from(t, pat, from + 1)
    }
}

/// `c` with an ASCII capital letter made small.
pub open spec fn ascii_lower(c: char) -> char {
    if 'A' <= c && c <= 'Z' {
        ((c as u32) + 32) as char
    } else {
        c
    }
}

/// `t` with its ASCII capital letters made small.
pub open spec fn lowered(t: Seq<char>) -> Seq<char> {
    t.map_values(|c: char| ascii_lower(c))
}

/// The mark of a record that is to run alone.
pub open spec fn only_marker() -> Seq<char> {
    seq!['(', 'o', 'n', 'l', 'y', ')']
}

/// Whether `t` holds `(only)`, ignoring the case of ASCII letters.
pub open spec fn marks_only(t: Seq<char>) -> bool {
    occurs_in(only_marker(), lowered(t))
}

/// The body of the record whose header is line `s` and whose next header
/// (or the end of the file) is line `e`.
pub open spec fn record_body(ls: Seq<Seq<char>>, s: int, e: int) -> Seq<char> {
    join_lines(ls.subrange(s + 1, e))
}

/// Whether a record can be read: its header is long enough to hold both
/// `==` marks, and its body holds the marker with a character before it
/// and one after it.
pub open spec fn record_ok(ls: Seq<Seq<char>>, s: int, e: int) -> bool {
    let b = record_body(ls, s, e);
    let mark = find_from(b, expect_marker(), 0);
    let next_mark = find_from(b, expect_marker(), mark + 8);
    &&& ls[s].len() >= 4
    &&& 1 <= mark < b.len()
    &&& mark + 8 < next_mark
}

/// The line after the record that starts at header `h`.
pub open spec fn record_end(ls: Seq<Seq<char>>, hs: Seq<int>, h: int) -> int {
    if h + 1 < hs.len() {
        hs[h + 1]
    } else {
        ls.len() as int
    }
}

/// Whether every record of the file `t` can be read, the first line being
/// a header.
pub open spec fn fixture_file_ok(t: Seq<char>) -> bool {
    let ls = split_lines(t);
    let hs = headers(ls, ls.len() as int);
    &&& is_header(ls[0])
    &&& forall|h: int| 0 <= h < hs.len() ==> record_ok(ls, #[trigger] hs[h], record_end(ls, hs, h))
}

/// The record whose header is line `s` and that ends before line `e`: the
/// header's text between its `==` marks without surrounding white space,
/// the body before the marker less its last character, the body after the
/// marker (up to a second marker) less its first character, and whether
/// the header holds `(only)`.
pub open spec fn record(ls: Seq<Seq<char>>, s: int, e: int) -> (Seq<char>, Seq<char>, Seq<char>, bool) {
    let l = ls[s];
    let b = record_body(ls, s, e);
    let mark = find_from(b, expect_marker(), 0);
    let next_mark = find_from(b, expect_marker(), mark + 8);
    (
        trimmed(l.subrange(2, l.len() - 2)),
        b.subrange(0, mark - 1),
        b.subrange(mark + 9, next_mark),
        marks_only(l),
    )
}

/// The view of a fixture.
pub open spec fn spec_view(r: Spec) -> (Seq<char>, Seq<char>, Seq<char>, bool) {
    (r.message@, r.file_text@, r.expected_text@, r.is_only)
}

/// The views of a sequence of strings.
pub open spec fn line_views(v: Seq<String>) -> Seq<Seq<char>> {
    v.map_values(|s: String| s@)
}

/// Header indices are increasing and name header lines.
proof fn lemma_headers(ls: Seq<Seq<char>>, k: int)
    requires
        0 <= k <= ls.len(),
    ensures
        forall|a: int, b: int|
            0 <= a < b < headers(ls, k).len() ==> headers(ls, k)[a] < headers(ls, k)[b],
        forall|a: int|
            0 <= a < headers(ls, k).len() ==> 0 <= #[trigger] headers(ls, k)[a] < k && is_header(
                ls[headers(ls, k)[a]],
            ),
        k > 0 && is_header(ls[0]) ==> headers(ls, k).len() > 0 && headers(ls, k)[0] == 0,
    decreases k,
{
    if k > 0 {
        lemma_headers(ls, k - 1);
        let h = headers(ls, k);
        let h0 = headers(ls, k - 1);
        if is_header(ls[k - 1]) {
            assert(h == h0.push(k - 1));
            assert forall|a: int| 0 <= a < h0.len() implies h[a] == h0[a] by {}
        } else {
            assert(h == h0);
        }
        if k - 1 == 0 {
            assert(headers(ls, 0) =~= Seq::<int>::empty());
        }
    }
}

/// The lines of `text`.
fn lines_of(text: &str) -> (r: Vec<String>)
    ensures
        line_views(r@) == split_lines(text@),
{
    let cs = chars_of(text);
    let n = cs.len();
    let mut r: Vec<String> = Vec::new();
    let mut start: usize = 0;
    let mut k: usize = 0;
    assert(text@.take(0) =~= Seq::<char>::empty());
    assert(line_views(r@).push(text@.subrange(0, 0)) =~= split_lines(text@.take(0)));
    while k < n
        invariant
            cs@ == text@,
            n == cs@.len(),
            start <= k <= n,
            line_views(r@).push(text@.subrange(start as int, k as int)) == split_lines(
                text@.take(k as int),
            ),
        decreases n - k,
    {
        let ghost prev = split_lines(text@.take(k as int));
        let ghost r0 = r@;
        let ghost cur = text@.subrange(start as int, k as int);
        assert(text@.take(k + 1).drop_last() =~= text@.take(k as int));
        assert(text@.take(k + 1).last() == text@[k as int]);
        assert(line_views(r0).push(cur) == prev);
        if cs[k] == '\n' {
            assert(split_lines(text@.take(k + 1)) == prev.push(Seq::empty()));
            let line = String::from_str(text.substring_char(start, k));
            r.push(line);
            start = k + 1;
            assert(line_views(r@) =~= line_views(r0).push(cur));
            assert(text@.subrange(start as int, (k + 1) as int) =~= Seq::<char>::empty());
        } else {
            assert(split_lines(text@.take(k + 1)) == prev.update(prev.len() - 1, prev.last().push(
                text@[k as int],
            )));
            assert(prev.last() == cur);
            assert(text@.subrange(start as int, (k + 1) as int) =~= cur.push(text@[k as int]));
            assert(line_views(r@).push(text@.subrange(start as int, (k + 1) as int)) =~= prev.update(
                prev.len() - 1,
                cur.push(text@[k as int]),
            ));
        }
        k += 1;
    }
    let line = String::from_str(text.substring_char(start, n));
    r.push(line);
    assert(text@.take(n as int) =~= text@);
    r
}

/// The lines `a..b` of `lines`, joined by line feeds.
fn join_range(lines: &Vec<String>, a: usize, b: usize) -> (r: String)
    requires
        a <= b <= lines@.len(),
    ensures
        r@ == join_lines(line_views(lines@).subrange(a as int, b as int)),
{
    let ghost ls = line_views(lines@);
    let mut r = String::new();
    let mut j = a;
    proof {
        reveal_strlit("\n");
        assert("\n"@ =~= seq!['\n']);
    }
    assert(ls.subrange(a as int, a as int) =~= Seq::<Seq<char>>::empty());
    while j < b
        invariant
            ls == line_views(lines@),
            a <= j <= b <= lines@.len(),
            r@ == join_lines(ls.subrange(a as int, j as int)),
            "\n"@ == seq!['\n'],
        decreases b - j,
    {
        assert(ls.subrange(a as int, (j + 1) as int).drop_last() =~= ls.subrange(a as int, j as int));
        if j > a {
            r.append("\n");
        } else {
            assert(r@ =~= Seq::<char>::empty());
        }
        r.append(lines[j].as_str());
        j += 1;
    }
    r
}

/// The first position at or after `from` where `pat` stands in `t`, or the
/// length of `t`.
fn find_text(t: &Vec<char>, pat: &Vec<char>, from: usize) -> (r: usize)
    requires
        pat@.len() > 0,
    ensures
        r == find_from(t@, pat@, from as int),
{
    let n = t.len();
    let m = pat.len();
    let mut p = from;
    while p < n && m <= n - p
        invariant
            m == pat@.len() > 0,
            n == t@.len(),
            from <= p,
            find_from(t@, pat@, from as int) == find_from(t@, pat@, p as int),
        decreases n - p,
    {
        let mut q: usize = 0;
        while q < m && t[p + q] == pat[q]
            invariant
                m == pat@.len(),
                p + m <= n == t@.len(),
                q <= m,
                forall|x: int| 0 <= x < q ==> t@[p + x] == pat@[x],
            decreases m - q,
        {
            q += 1;
        }
        if q == m {
            assert(t@.subrange(p as int, (p + m) as int) =~= pat@);
            return p;
        }
        assert(t@.subrange(p as int, (p + m) as int)[q as int] != pat@[q as int]);
        p += 1;
    }
    n
}

/// `c` with an ASCII capital letter made small.
fn lower_char(c: char) -> (r: char)
    ensures
        r == ascii_lower(c),
{
    if 'A' <= c && c <= 'Z' {
        ((c as u8) + 32) as char
    } else {
        c
    }
}

/// Whether `x` holds `(only)`, ignoring the case of ASCII letters.
fn has_only_mark(x: &Vec<char>) -> (r: bool)
    ensures
        r == marks_only(x@),
{
    let mut low: Vec<char> = Vec::new();
    let mut i: usize = 0;
    while i < x.len()
        invariant
            i <= x@.len(),
            low@ == lowered(x@).take(i as int),
        decreases x@.len() - i,
    {
        low.push(lower_char(x[i]));
        assert(low@ =~= lowered(x@).take(i + 1));
        i += 1;
    }
    assert(low@ =~= lowered(x@));
    let mark = chars_of("(only)");
    proof {
        reveal_strlit("(only)");
        assert(mark@ =~= only_marker());
    }
    let p = find_text(&low, &mark, 0);
    proof {
        lemma_find_from(low@, mark@, 0);
    }
    p < low.len()
}

/// What `find_from` finds is the pattern, and it is the first place.
proof fn lemma_find_from(t: Seq<char>, pat: Seq<char>, from: int)
    requires
        0 <= from,
        pat.len() > 0,
    ensures
        find_from(t, pat, from) <= t.len(),
        find_from(t, pat, from) < t.len() ==> find_from(t, pat, from) + pat.len() <= t.len()
            && t.subrange(find_from(t, pat, from), find_from(t, pat, from) + pat.len()) == pat,
        find_from(t, pat, from) < t.len() ==> from <= find_from(t, pat, from),
        find_from(t, pat, from) == t.len() ==> forall|p: int|
            from <= p && p + pat.len() <= t.len() ==> #[trigger] t.subrange(p, p + pat.len())
                != pat,
    decreases t.len() - from,
{
    if !(from >= t.len() || from + pat.len() > t.len()) && t.subrange(from, from + pat.len())
        != pat {
        lemma_find_from(t, pat, from + 1);
    }
}

/// Reads the record whose header is line `s` and that ends before line `e`.
fn parse_single_spec(lines: &Vec<String>, s: usize, e: usize) -> (r: Spec)
    requires
        s < e <= lines@.len(),
        record_ok(line_views(lines@), s as int, e as int),
    ensures
        spec_view(r) == record(line_views(lines@), s as int, e as int),
{
    let ghost ls = line_views(lines@);
    let header = lines[s].as_str();
    let hc = chars_of(header);
    assert(hc@ == ls[s as int]);
    let (a, b) = trim_bounds(&hc, 2, hc.len() - 2);
    let message = String::from_str(header.substring_char(a, b));
    let body = join_range(lines, s + 1, e);
    let bc = chars_of(body.as_str());
    let marker = chars_of("[expect]");
    proof {
        reveal_strlit("[expect]");
        assert(marker@ =~= expect_marker());
    }
    let blen = bc.len();
    assert(bc@ == record_body(ls, s as int, e as int));
    let mark = find_text(&bc, &marker, 0);
    proof {
        lemma_find_from(bc@, marker@, find_from(bc@, marker@, 0) + 8);
    }
    assert(mark + 8 < blen);
    let next_mark = find_text(&bc, &marker, mark + 8);
    let file_text = String::from_str(body.as_str().substring_char(0, mark - 1));
    let expected_text = String::from_str(body.as_str().substring_char(mark + 9, next_mark));
    let is_only = has_only_mark(&hc);
    Spec { message, file_text, expected_text, is_only }
}

/// The indices of the header lines of `lines`.
fn header_lines(lines: &Vec<String>) -> (r: Vec<usize>)
    ensures
        r@.len() == headers(line_views(lines@), lines@.len() as int).len(),
        forall|a: int|
            0 <= a < r@.len() ==> r@[a] as int == headers(line_views(lines@), lines@.len() as int)[a],
{
    let ghost ls = line_views(lines@);
    let mut starts: Vec<usize> = Vec::new();
    let mut k: usize = 0;
    while k < lines.len()
        invariant
            ls == line_views(lines@),
            k <= lines@.len(),
            starts@.len() == headers(ls, k as int).len(),
            forall|a: int| 0 <= a < starts@.len() ==> starts@[a] as int == headers(ls, k as int)[a],
        decreases lines@.len() - k,
    {
        let line = chars_of(lines[k].as_str());
        assert(line@ == ls[k as int]);
        if line.len() >= 2 && line[0] == '=' && line[1] == '=' {
            starts.push(k);
        }
        k += 1;
    }
    starts
}

/// Reads every record of a fixture file, in order.
pub fn parse_specs(file_text: String) -> (r: Vec<Spec>)
    requires
        fixture_file_ok(file_text@),
    ensures
        ({
            let ls = split_lines(file_text@);
            let hs = headers(ls, ls.len() as int);
            &&& r@.len() == hs.len()
            &&& forall|h: int|
                0 <= h < hs.len() ==> #[trigger] spec_view(r@[h]) == record(
                    ls,
                    hs[h],
                    record_end(ls, hs, h),
                )
        }),
{
    let lines = lines_of(file_text.as_str());
    let ghost ls = split_lines(file_text@);
    let ghost hs = headers(ls, ls.len() as int);
    let starts = header_lines(&lines);
    proof {
        lemma_headers(ls, ls.len() as int);
    }
    let mut specs: Vec<Spec> = Vec::new();
    let mut h: usize = 0;
    while h < starts.len()
        invariant
            ls == line_views(lines@),
            hs == headers(ls, ls.len() as int),
            fixture_file_ok(file_text@),
            ls == split_lines(file_text@),
            starts@.len() == hs.len(),
            forall|a: int| 0 <= a < starts@.len() ==> starts@[a] as int == hs[a],
            forall|a: int, b: int| 0 <= a < b < hs.len() ==> hs[a] < hs[b],
            forall|a: int| 0 <= a < hs.len() ==> 0 <= #[trigger] hs[a] < ls.len(),
            h <= starts@.len(),
            specs@.len() == h,
            forall|a: int|
                0 <= a < h ==> #[trigger] spec_view(specs@[a]) == record(ls, hs[a], record_end(ls, hs, a)),
        decreases starts@.len() - h,
    {
        let s = starts[h];
        let e = if h + 1 < starts.len() {
            starts[h + 1]
        } else {
            lines.len()
        };
        assert(record_ok(ls, hs[h as int], record_end(ls, hs, h as int)));
        let one = parse_single_spec(&lines, s, e);
        specs.push(one);
        h += 1;
    }
    specs
}

/// A text always has at least one line.
proof fn lemma_split_lines_nonempty(t: Seq<char>)
    ensures
        split_lines(t).len() >= 1,
    decreases t.len(),
{
    if t.len() > 0 {
        lemma_split_lines_nonempty(t.drop_last());
    }
}

/// Whether the record whose header is line `s` and that ends before line
/// `e` can be read.
fn record_readable(lines: &Vec<String>, s: usize, e: usize) -> (r: bool)
    requires
        s < e <= lines@.len(),
    ensures
        r == record_ok(line_views(lines@), s as int, e as int),
{
    let ghost ls = line_views(lines@);
    let hc = chars_of(lines[s].as_str());
    assert(hc@ == ls[s as int]);
    if hc.len() < 4 {
        return false;
    }
    let body = join_range(lines, s + 1, e);
    let bc = chars_of(body.as_str());
    let marker = chars_of("[expect]");
    proof {
        reveal_strlit("[expect]");
        assert(marker@ =~= expect_marker());
    }
    let blen = bc.len();
    let mark = find_text(&bc, &marker, 0);
    if mark < 1 || mark >= blen || blen - mark <= 8 {
        proof {
            lemma_find_from(bc@, marker@, 0);
            if 1 <= mark < blen {
                lemma_find_from(bc@, marker@, (mark + 8) as int);
            }
        }
        return false;
    }
    let next_mark = find_text(&bc, &marker, mark + 8);
    mark + 8 < next_mark
}

/// Reads every record of a fixture file, or nothing where the file does
/// not start with a header or one of its records cannot be read.
pub fn try_parse_specs(file_text: String) -> (r: Option<Vec<Spec>>)
    ensures
        r is Some <==> fixture_file_ok(file_text@),
        r is Some ==> ({
            let ls = split_lines(file_text@);
            let hs = headers(ls, ls.len() as int);
            let v = r->Some_0;
            &&& v@.len() == hs.len()
            &&& forall|h: int|
                0 <= h < hs.len() ==> #[trigger] spec_view(v@[h]) == record(
                    ls,
                    hs[h],
                    record_end(ls, hs, h),
                )
        }),
{
    let lines = lines_of(file_text.as_str());
    let ghost ls = split_lines(file_text@);
    let ghost hs = headers(ls, ls.len() as int);
    proof {
        lemma_split_lines_nonempty(file_text@);
        lemma_headers(ls, ls.len() as int);
    }
    let first = chars_of(lines[0].as_str());
    assert(first@ == ls[0]);
    if !(first.len() >= 2 && first[0] == '=' && first[1] == '=') {
        return None;
    }
    let starts = header_lines(&lines);
    let mut h: usize = 0;
    while h < starts.len()
        invariant
            ls == line_views(lines@),
            ls == split_lines(file_text@),
            hs == headers(ls, ls.len() as int),
            starts@.len() == hs.len(),
            forall|a: int| 0 <= a < starts@.len() ==> starts@[a] as int == hs[a],
            forall|a: int, b: int| 0 <= a < b < hs.len() ==> hs[a] < hs[b],
            forall|a: int| 0 <= a < hs.len() ==> 0 <= #[trigger] hs[a] < ls.len(),
            h <= starts@.len(),
            forall|a: int| 0 <= a < h ==> record_ok(ls, #[trigger] hs[a], record_end(ls, hs, a)),
        decreases starts@.len() - h,
    {
        let s = starts[h];
        let e = if h + 1 < starts.len() {
            starts[h + 1]
        } else {
            lines.len()
        };
        assert(s as int == hs[h as int]);
        assert(e as int == record_end(ls, hs, h as int));
        if !record_readable(&lines, s, e) {
            assert(!record_ok(ls, hs[h as int], record_end(ls, hs, h as int)));
            return None;
        }
        h += 1;
    }
    Some(parse_specs(file_text))
}

} // verus!
