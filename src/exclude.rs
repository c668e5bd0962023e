//! Exclusion lists: one child name per line; whitespace around a name is
//! ignored, and so are blank lines.

use vstd::prelude::*;
use vstd::string::*;

verus! {

/// Unicode white space, as `char::is_whitespace` and `str::trim` know it.
pub open spec fn is_ws(c: char) -> bool {
    let u = c as u32;
    ||| 9 <= u <= 13
    ||| u == 32
    ||| u == 0x85
    ||| u == 0xA0
    ||| u == 0x1680
    ||| 0x2000 <= u <= 0x200A
    ||| u == 0x2028
    ||| u == 0x2029
    ||| u == 0x202F
    ||| u == 0x205F
    ||| u == 0x3000
}

/// Is `c` white space?
pub fn is_whitespace(c: char) -> (r: bool)
    ensures
        r == is_ws(c),
{
    let u = c as u32;
    (9 <= u && u <= 13) || u == 32 || u == 0x85 || u == 0xA0 || u == 0x1680 || (0x2000 <= u && u
        <= 0x200A) || u == 0x2028 || u == 0x2029 || u == 0x202F || u == 0x205F || u == 0x3000
}

pub open spec fn trim_start(s: Seq<char>) -> Seq<char>
    decreases s.len(),
{
    if s.len() > 0 && is_ws(s[0]) {
        trim_start(s.drop_first())
    } else {
        s
    }
}

pub open spec fn trim_end(s: Seq<char>) -> Seq<char>
    decreases s.len(),
{
    if s.len() > 0 && is_ws(s.last()) {
        trim_end(s.drop_last())
    } else {
        s
    }
}

/// A line without its leading and trailing white space.
pub open spec fn trim(s: Seq<char>) -> Seq<char> {
    trim_end(trim_start(s))
}

/// The index of the first `c` in `s`, or `s.len()` if there is none.
pub open spec fn first_char_index(s: Seq<char>, c: char) -> nat
    decreases s.len(),
{
    if s.len() == 0 {
        0
    } else if s[0] == c {
        0
    } else {
        1 + first_char_index(s.drop_first(), c)
    }
}

/// The text split at each newline; the last line need not end in one.
pub open spec fn lines_of(text: Seq<char>) -> Seq<Seq<char>>
    decreases text.len(),
{
    let j = first_char_index(text, '\n');
    if j >= text.len() {
        seq![text]
    } else {
        seq![text.subrange(0, j as int)] + lines_of(text.subrange(j as int + 1, text.len() as int))
    }
}

/// Does the exclusion list `text` name `name`?
pub open spec fn listed(text: Seq<char>, name: Seq<char>) -> bool {
    name.len() > 0 && exists|i: int| 0 <= i < lines_of(text).len() && #[trigger] trim(lines_of(text)[i]) == name
}

proof fn lemma_first_char_index_bound(s: Seq<char>, c: char)
    ensures
        first_char_index(s, c) <= s.len(),
    decreases s.len(),
{
    if s.len() > 0 && s[0] != c {
        lemma_first_char_index_bound(s.drop_first(), c);
    }
}

/// `from + first_char_index(s[from..], '\n')`.
fn find_newline(s: &str, from: usize, n: usize) -> (r: usize)
    requires
        from <= n == s@.len(),
    ensures
        r == from + first_char_index(s@.subrange(from as int, n as int), '\n'),
        from <= r <= n,
{
    let mut i = from;
    while i < n && s.get_char(i) != '\n'
        invariant
            from <= i <= n == s@.len(),
            first_char_index(s@.subrange(from as int, n as int), '\n') == (i - from) + first_char_index(
                s@.subrange(i as int, n as int),
                '\n',
            ),
        decreases n - i,
    {
        assert(s@.subrange(i as int, n as int).drop_first() =~= s@.subrange(i + 1, n as int));
        i = i + 1;
    }
    i
}

/// The bounds of `trim(s[from..to])`.
fn trim_bounds(s: &str, from: usize, to: usize) -> (r: (usize, usize))
    requires
        from <= to <= s@.len(),
    ensures
        from <= r.0 <= r.1 <= to,
        trim(s@.subrange(from as int, to as int)) == s@.subrange(r.0 as int, r.1 as int),
{
    let mut lo = from;
    while lo < to && is_whitespace(s.get_char(lo))
        invariant
            from <= lo <= to <= s@.len(),
            trim_start(s@.subrange(from as int, to as int)) == trim_start(s@.subrange(lo as int, to as int)),
        decreases to - lo,
    {
        assert(s@.subrange(lo as int, to as int).drop_first() =~= s@.subrange(lo + 1, to as int));
        lo = lo + 1;
    }
    let mut hi = to;
    while hi > lo && is_whitespace(s.get_char(hi - 1))
        invariant
            from <= lo <= hi <= to <= s@.len(),
            trim(s@.subrange(from as int, to as int)) == trim_end(s@.subrange(lo as int, hi as int)),
        decreases hi - lo,
    {
        assert(s@.subrange(lo as int, hi as int).drop_last() =~= s@.subrange(lo as int, hi - 1));
        hi = hi - 1;
    }
    (lo, hi)
}

/// Are `s[lo..hi]` and `name` the same characters?
fn range_eq(s: &str, lo: usize, hi: usize, name: &str) -> (r: bool)
    requires
        lo <= hi <= s@.len(),
    ensures
        r == (s@.subrange(lo as int, hi as int) == name@),
{
    let m = name.unicode_len();
    if hi - lo != m {
        return false;
    }
    let mut k: usize = 0;
    while k < m
        invariant
            lo <= hi <= s@.len(),
            m == hi - lo == name@.len(),
            k <= m,
            forall|q: int| 0 <= q < k ==> s@[lo + q] == name@[q],
        decreases m - k,
    {
        if s.get_char(lo + k) != name.get_char(k) {
            assert(s@.subrange(lo as int, hi as int)[k as int] != name@[k as int]);
            return false;
        }
        k = k + 1;
    }
    assert(s@.subrange(lo as int, hi as int) =~= name@);
    true
}

/// Does the exclusion list `text` name `name`?
pub fn is_listed(text: &str, name: &str) -> (r: bool)
    ensures
        r == listed(text@, name@),
{
    if name.unicode_len() == 0 {
        return false;
    }
    let n = text.unicode_len();
    let mut p: usize = 0;
    assert(text@.subrange(0, n as int) =~= text@);
    loop
        invariant
            p <= n == text@.len(),
            name@.len() > 0,
            listed(text@, name@) == listed(text@.subrange(p as int, n as int), name@),
        decreases n - p,
    {
        let ghost rest = text@.subrange(p as int, n as int);
        let j = find_newline(text, p, n);
        proof {
            lemma_first_char_index_bound(rest, '\n');
        }
        let (lo, hi) = trim_bounds(text, p, j);
        let hit = range_eq(text, lo, hi, name);
        let ghost line = text@.subrange(p as int, j as int);
        proof {
            let ls = lines_of(rest);
            assert(rest.subrange(0, j - p) =~= line);
            assert(ls[0] == line);
            if j < n {
                let after = text@.subrange(j + 1, n as int);
                assert(rest.subrange(j - p + 1, rest.len() as int) =~= after);
                assert(ls == seq![line] + lines_of(after));
                if !hit {
                    assert forall|i: int| 0 <= i < ls.len() && #[trigger] trim(ls[i]) == name@ implies
                        exists|k: int| 0 <= k < lines_of(after).len() && #[trigger] trim(lines_of(after)[k]) == name@ by {
                        assert(i > 0);
                        assert(ls[i] == lines_of(after)[i - 1]);
                    }
                    assert forall|k: int| 0 <= k < lines_of(after).len() && #[trigger] trim(lines_of(after)[k]) == name@ implies
                        exists|i: int| 0 <= i < ls.len() && #[trigger] trim(ls[i]) == name@ by {
                        assert(ls[k + 1] == lines_of(after)[k]);
                    }
                }
            } else {
                assert(ls == seq![rest]);
            }
            if hit {
                assert(trim(ls[0]) == name@);
            }
        }
        if hit {
            return true;
        }
        if j == n {
            return false;
        }
        p = j + 1;
    }
}

} // verus!
