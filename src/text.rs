//! Character-level helpers on strings, stated over their `Seq<char>` views.
use vstd::prelude::*;
use vstd::std_specs::iter::IteratorSpec;
use vstd::string::StrSliceExecFns;
use vstd::string::StringExecFns;

verus! {

broadcast use vstd::string::group_string_axioms;

/// Whether `c` has the Unicode `White_Space` property: the controls from
/// tab to carriage return, space, next line, no-break space, ogham space
/// mark, the spaces from en quad to hair space, the line and paragraph
/// separators, narrow no-break space, medium mathematical space and
/// ideographic space.
pub open spec fn is_white_space(c: char) -> bool {
    let u = c as u32;
    (0x9 <= u && u <= 0xd) || u == 0x20 || u == 0x85 || u == 0xa0 || u == 0x1680 || (0x2000
        <= u && u <= 0x200a) || u == 0x2028 || u == 0x2029 || u == 0x202f || u == 0x205f || u
        == 0x3000
}

/// Whether `c` is white space.
fn white_space(c: char) -> (r: bool)
    ensures
        r == is_white_space(c),
{
    let u = c as u32;
    (0x9 <= u && u <= 0xd) || u == 0x20 || u == 0x85 || u == 0xa0 || u == 0x1680 || (0x2000 <= u
        && u <= 0x200a) || u == 0x2028 || u == 0x2029 || u == 0x202f || u == 0x205f || u == 0x3000
}

/// The characters of `s`, in order.
pub fn chars_of(s: &str) -> (r: Vec<char>)
    ensures
        r@ == s@,
{
    broadcast use vstd::string::next_postcondition;

    let mut it = s.chars();
    let mut r: Vec<char> = Vec::new();
    assert(r@ + it.remaining() =~= s@);
    loop
        invariant
            r@ + it.remaining() == s@,
            it.obeys_prophetic_iter_laws(),
            it.decrease() is Some,
        ensures
            r@ == s@,
        decreases it.decrease()->0,
    {
        match it.next() {
            Some(c) => {
                r.push(c);
            },
            None => {
                assert(r@ + it.remaining() =~= r@);
                break ;
            },
        }
    }
    r
}

} // verus!

verus! {

/// Whether `t` stands somewhere in `s`.
pub open spec fn occurs_in(t: Seq<char>, s: Seq<char>) -> bool {
    exists|p: int| 0 <= p && p + t.len() <= s.len() && #[trigger] s.subrange(p, p + t.len()) == t
}

/// `k` copies of `u`, one after another.
pub open spec fn repeat(u: Seq<char>, k: nat) -> Seq<char>
    decreases k,
{
    if k == 0 {
        Seq::empty()
    } else {
        repeat(u, (k - 1) as nat) + u
    }
}

/// `k` spaces.
pub open spec fn spaces(k: nat) -> Seq<char> {
    Seq::new(k, |_i: int| ' ')
}

/// `s` followed by as many spaces as bring it to `width` characters; `s`
/// itself where it is that long already.
pub open spec fn padded(s: Seq<char>, width: nat) -> Seq<char> {
    if s.len() < width {
        s + spaces((width - s.len()) as nat)
    } else {
        s
    }
}

/// `s` with every leading `//` removed.
pub open spec fn strip_markers(s: Seq<char>) -> Seq<char>
    decreases s.len(),
{
    if s.len() >= 2 && s[0] == '/' && s[1] == '/' {
        strip_markers(s.subrange(2, s.len() as int))
    } else {
        s
    }
}

/// `s` without its leading white space.
pub open spec fn trim_start(s: Seq<char>) -> Seq<char>
    decreases s.len(),
{
    if s.len() > 0 && is_white_space(s[0]) {
        trim_start(s.drop_first())
    } else {
        s
    }
}

/// `s` without its trailing white space.
pub open spec fn trim_end(s: Seq<char>) -> Seq<char>
    decreases s.len(),
{
    if s.len() > 0 && is_white_space(s.last()) {
        trim_end(s.drop_last())
    } else {
        s
    }
}

/// `s` without white space at either end.
pub open spec fn trimmed(s: Seq<char>) -> Seq<char> {
    trim_end(trim_start(s))
}

/// Appends `k` copies of `u` to `w`.
pub fn push_repeated(w: &mut String, u: &str, k: usize)
    ensures
        final(w)@ == old(w)@ + repeat(u@, k as nat),
{
    let mut i: usize = 0;
    while i < k
        invariant
            i <= k,
            w@ == old(w)@ + repeat(u@, i as nat),
        decreases k - i,
    {
        w.append(u);
        assert(old(w)@ + repeat(u@, (i + 1) as nat) =~= old(w)@ + repeat(u@, i as nat) + u@);
        i += 1;
    }
}

/// Appends `k` spaces to `w`.
pub fn push_spaces(w: &mut String, k: usize)
    ensures
        final(w)@ == old(w)@ + spaces(k as nat),
{
    proof {
        reveal_strlit(" ");
        assert(" "@ =~= seq![' ']);
    }
    let mut i: usize = 0;
    while i < k
        invariant
            i <= k,
            w@ == old(w)@ + spaces(i as nat),
            " "@ == seq![' '],
        decreases k - i,
    {
        w.append(" ");
        assert(old(w)@ + spaces((i + 1) as nat) =~= old(w)@ + spaces(i as nat) + " "@);
        i += 1;
    }
}

/// Whether `w` ends with an empty line: its last two characters are line
/// feeds.
pub open spec fn ends_with_blank_line(w: Seq<char>) -> bool {
    w.len() >= 2 && w[w.len() - 1] == '\n' && w[w.len() - 2] == '\n'
}

/// Whether `w` ends with an empty line.
pub fn has_blank_line_end(w: &String) -> (r: bool)
    ensures
        r == ends_with_blank_line(w@),
{
    let x = chars_of(w.as_str());
    let n = x.len();
    n >= 2 && x[n - 1] == '\n' && x[n - 2] == '\n'
}

/// Whether `a` and `b` hold the same characters.
pub fn same_text(a: &str, b: &str) -> (r: bool)
    ensures
        r == (a@ == b@),
{
    let x = chars_of(a);
    let y = chars_of(b);
    if x.len() != y.len() {
        return false;
    }
    let mut i: usize = 0;
    while i < x.len()
        invariant
            x@ == a@,
            y@ == b@,
            x@.len() == y@.len(),
            i <= x@.len(),
            forall|k: int| 0 <= k < i ==> x@[k] == y@[k],
        decreases x@.len() - i,
    {
        if x[i] != y[i] {
            return false;
        }
        i += 1;
    }
    assert(x@ =~= y@);
    true
}

/// Whether `s` starts with `&`, the mark of a reference.
pub fn starts_with_reference(s: &str) -> (r: bool)
    ensures
        r == (s@.len() > 0 && s@[0] == '&'),
{
    let x = chars_of(s);
    x.len() > 0 && x[0] == '&'
}

/// Where the characters `lo..hi` of `x` start and end once the white space
/// at either end is removed.
pub fn trim_bounds(x: &Vec<char>, lo: usize, hi: usize) -> (r: (usize, usize))
    requires
        lo <= hi <= x@.len(),
    ensures
        lo <= r.0 <= r.1 <= hi,
        x@.subrange(r.0 as int, r.1 as int) == trimmed(x@.subrange(lo as int, hi as int)),
{
    let mut i: usize = lo;
    while i < hi && white_space(x[i])
        invariant
            lo <= i <= hi <= x@.len(),
            trim_start(x@.subrange(lo as int, hi as int)) == trim_start(x@.subrange(i as int, hi as int)),
        decreases hi - i,
    {
        assert(x@.subrange(i as int, hi as int).drop_first() =~= x@.subrange(i + 1, hi as int));
        i += 1;
    }
    let mut j: usize = hi;
    assert(trim_start(x@.subrange(i as int, hi as int)) == x@.subrange(i as int, hi as int));
    while j > i && white_space(x[j - 1])
        invariant
            lo <= i <= j <= hi <= x@.len(),
            trimmed(x@.subrange(lo as int, hi as int)) == trim_end(x@.subrange(i as int, j as int)),
        decreases j - i,
    {
        assert(x@.subrange(i as int, j as int).drop_last() =~= x@.subrange(i as int, j - 1));
        j -= 1;
    }
    (i, j)
}

/// Where the text of `s` without leading `//` markers and without white
/// space at either end starts and ends.
fn comment_body_bounds(x: &Vec<char>) -> (r: (usize, usize))
    ensures
        r.0 <= r.1 <= x@.len(),
        x@.subrange(r.0 as int, r.1 as int) == trimmed(strip_markers(x@)),
{
    let n = x.len();
    let mut i: usize = 0;
    assert(x@.subrange(0, n as int) =~= x@);
    while n - i > 1 && x[i] == '/' && x[i + 1] == '/'
        invariant
            i <= n == x@.len(),
            strip_markers(x@) == strip_markers(x@.subrange(i as int, n as int)),
        decreases n - i,
    {
        assert(x@.subrange(i as int, n as int).subrange(2, (n - i) as int) =~= x@.subrange(
            i + 2,
            n as int,
        ));
        i += 2;
    }
    let ghost body = x@.subrange(i as int, n as int);
    assert(strip_markers(body) == body);
    trim_bounds(x, i, n)
}

/// Appends the text of the comment `s` without its leading `//` markers and
/// without white space at either end.
pub fn push_comment_body(w: &mut String, s: &str)
    ensures
        final(w)@ == old(w)@ + trimmed(strip_markers(s@)),
{
    let x = chars_of(s);
    let (i, j) = comment_body_bounds(&x);
    w.append(s.substring_char(i, j));
}

/// The decimal digit of `d`.
pub open spec fn digit(d: nat) -> char {
    if d == 0 {
        '0'
    } else
    if d == 1 {
        '1'
    } else
    if d == 2 {
        '2'
    } else
    if d == 3 {
        '3'
    } else
    if d == 4 {
        '4'
    } else
    if d == 5 {
        '5'
    } else
    if d == 6 {
        '6'
    } else
    if d == 7 {
        '7'
    } else
    if d == 8 {
        '8'
    } else {
        '9'
    }
}

/// `n` written in decimal.
pub open spec fn decimal(n: nat) -> Seq<char>
    decreases n,
{
    if n < 10 {
        seq![digit(n)]
    } else {
        decimal(n / 10).push(digit(n % 10))
    }
}

/// The decimal digit of `d`, as text.
fn digit_str(d: usize) -> (r: &'static str)
    requires
        d < 10,
    ensures
        r@ == seq![digit(d as nat)],
{
    if d == 0 {
        proof {
            reveal_strlit("0");
        }
        assert("0"@ =~= seq!['0']);
        "0"
    } else if d == 1 {
        proof {
            reveal_strlit("1");
        }
        assert("1"@ =~= seq!['1']);
        "1"
    } else if d == 2 {
        proof {
            reveal_strlit("2");
        }
        assert("2"@ =~= seq!['2']);
        "2"
    } else if d == 3 {
        proof {
            reveal_strlit("3");
        }
        assert("3"@ =~= seq!['3']);
        "3"
    } else if d == 4 {
        proof {
            reveal_strlit("4");
        }
        assert("4"@ =~= seq!['4']);
        "4"
    } else if d == 5 {
        proof {
            reveal_strlit("5");
        }
        assert("5"@ =~= seq!['5']);
        "5"
    } else if d == 6 {
        proof {
            reveal_strlit("6");
        }
        assert("6"@ =~= seq!['6']);
        "6"
    } else if d == 7 {
        proof {
            reveal_strlit("7");
        }
        assert("7"@ =~= seq!['7']);
        "7"
    } else if d == 8 {
        proof {
            reveal_strlit("8");
        }
        assert("8"@ =~= seq!['8']);
        "8"
    } else {
        proof {
            reveal_strlit("9");
        }
        assert("9"@ =~= seq!['9']);
        "9"
    }
}

/// Appends `n`, written in decimal, to `w`.
pub fn push_decimal(w: &mut String, n: usize)
    ensures
        final(w)@ == old(w)@ + decimal(n as nat),
    decreases n,
{
    if n >= 10 {
        push_decimal(w, n / 10);
    }
    w.append(digit_str(n % 10));
    assert(w@ =~= old(w)@ + decimal(n as nat));
}

/// What `trim_start` leaves is a suffix of its argument that does not
/// start with white space.
pub proof fn lemma_trim_start(s: Seq<char>)
    ensures
        trim_start(s).len() <= s.len(),
        trim_start(s) == s.subrange(s.len() - trim_start(s).len(), s.len() as int),
        trim_start(s).len() > 0 ==> !is_white_space(trim_start(s)[0]),
    decreases s.len(),
{
    if s.len() > 0 && is_white_space(s[0]) {
        lemma_trim_start(s.drop_first());
        assert(s.drop_first().subrange(
            s.drop_first().len() - trim_start(s).len(),
            s.drop_first().len() as int,
        ) =~= s.subrange(s.len() - trim_start(s).len(), s.len() as int));
    } else {
        assert(s.subrange(0, s.len() as int) =~= s);
    }
}

/// What `trim_end` leaves is a prefix of its argument that does not end
/// with white space.
pub proof fn lemma_trim_end(s: Seq<char>)
    ensures
        trim_end(s).len() <= s.len(),
        trim_end(s) == s.subrange(0, trim_end(s).len() as int),
        trim_end(s).len() > 0 ==> !is_white_space(trim_end(s).last()),
    decreases s.len(),
{
    if s.len() > 0 && is_white_space(s.last()) {
        lemma_trim_end(s.drop_last());
        assert(s.drop_last().subrange(0, trim_end(s).len() as int) =~= s.subrange(
            0,
            trim_end(s).len() as int,
        ));
    } else {
        assert(s.subrange(0, s.len() as int) =~= s);
    }
}

/// Trimming twice trims no more than trimming once.
pub proof fn lemma_trimmed_idempotent(s: Seq<char>)
    ensures
        trimmed(trimmed(s)) == trimmed(s),
{
    let u = trim_start(s);
    let v = trim_end(u);
    lemma_trim_start(s);
    lemma_trim_end(u);
    if v.len() > 0 {
        assert(v[0] == u[0]);
    }
    assert(trim_start(v) == v);
    assert(trim_end(v) == v);
}

/// What stands in a text stands in any text in which that text stands.
pub proof fn lemma_occurs_trans(t: Seq<char>, x: Seq<char>, y: Seq<char>)
    requires
        occurs_in(t, x),
        occurs_in(x, y),
    ensures
        occurs_in(t, y),
{
    let p = choose|p: int| 0 <= p && p + t.len() <= x.len() && #[trigger] x.subrange(p, p + t.len()) == t;
    let q = choose|q: int| 0 <= q && q + x.len() <= y.len() && #[trigger] y.subrange(q, q + x.len()) == x;
    assert(y.subrange(q + p, q + p + t.len()) =~= x.subrange(p, p + t.len()));
}

/// A text stands in any text made of something, it, and something more.
pub proof fn lemma_occurs_between(a: Seq<char>, t: Seq<char>, b: Seq<char>)
    ensures
        occurs_in(t, a + t + b),
{
    assert((a + t + b).subrange(a.len() as int, (a.len() + t.len()) as int) =~= t);
}

/// What stands in a part of a text stands in the text.
pub proof fn lemma_occurs_within(t: Seq<char>, a: Seq<char>, m: Seq<char>, b: Seq<char>)
    requires
        occurs_in(t, m),
    ensures
        occurs_in(t, a + m + b),
{
    lemma_occurs_between(a, m, b);
    lemma_occurs_trans(t, m, a + m + b);
}

} // verus!
