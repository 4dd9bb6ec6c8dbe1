//! Character-level helpers shared by the line parser and the header check.
use vstd::prelude::*;

verus! {

/// Characters that carry Unicode's White_Space property.
pub open spec fn is_white_space(c: char) -> bool {
    ||| ('\u{9}' <= c && c <= '\u{d}')
    ||| c == ' '
    ||| c == '\u{85}'
    ||| c == '\u{a0}'
    ||| c == '\u{1680}'
    ||| ('\u{2000}' <= c && c <= '\u{200a}')
    ||| c == '\u{2028}'
    ||| c == '\u{2029}'
    ||| c == '\u{202f}'
    ||| c == '\u{205f}'
    ||| c == '\u{3000}'
}

/// Relies on `char::is_whitespace`: true exactly for the characters with the
/// Unicode White_Space property.
#[verifier::external_body]
fn white_space(c: char) -> (r: bool)
    ensures
        r == is_white_space(c),
{
    c.is_whitespace()
}

/// The characters of `s`, in order.
pub fn chars_of(s: &str) -> (r: Vec<char>)
    ensures
        r@ == s@,
{
    let mut r: Vec<char> = Vec::new();
    for c in it: s.chars()
        invariant
            r@ == it.seq().take(it.index() as int),
    {
        r.push(c);
    }
    r
}

/// Position of the first `c` in `s`, or the length of `s` where there is none.
pub open spec fn index_of(s: Seq<char>, c: char) -> nat
    decreases s.len(),
{
    if s.len() == 0 {
        0
    } else if s[0] == c {
        0
    } else {
        1 + index_of(s.drop_first(), c)
    }
}

/// `s` without its leading white space.
pub open spec fn trim_start(s: Seq<char>) -> Seq<char>
    decreases s.len(),
{
    if s.len() > 0 && is_white_space(s[0]) {
        trim_start(s.drop_first())
    } else {
        s
    }
}

/// `s` without its trailing white space.
pub open spec fn trim_end(s: Seq<char>) -> Seq<char>
    decreases s.len(),
{
    if s.len() > 0 && is_white_space(s.last()) {
        trim_end(s.drop_last())
    } else {
        s
    }
}

/// `s` without white space at either end.
pub open spec fn trim(s: Seq<char>) -> Seq<char> {
    trim_end(trim_start(s))
}

/// `s` without the leading characters equal to `c`.
pub open spec fn strip_leading(s: Seq<char>, c: char) -> Seq<char>
    decreases s.len(),
{
    if s.len() > 0 && s[0] == c {
        strip_leading(s.drop_first(), c)
    } else {
        s
    }
}

/// Where no `c` stands before `i`, and `s[i]` is `c` or `i` is the end, `i` is the first index.
pub proof fn lemma_index_of(s: Seq<char>, c: char, i: int)
    requires
        0 <= i <= s.len(),
        forall|j: int| 0 <= j < i ==> s[j] != c,
        i == s.len() || s[i] == c,
    ensures
        index_of(s, c) == i,
    decreases s.len(),
{
    if s.len() > 0 && s[0] != c {
        lemma_index_of(s.drop_first(), c, i - 1);
    }
}

/// The first position at or after `from` where `c` stands in `s`, or `s.len()`.
pub fn find_char(s: &Vec<char>, from: usize, c: char) -> (r: usize)
    requires
        from <= s.len(),
    ensures
        from <= r <= s.len(),
        r == from + index_of(s@.subrange(from as int, s.len() as int), c),
        r < s.len() ==> s@[r as int] == c,
{
    let mut i: usize = from;
    while i < s.len() && s[i] != c
        invariant
            from <= i <= s.len(),
            forall|j: int| from <= j < i ==> s@[j] != c,
        decreases s.len() - i,
    {
        i = i + 1;
    }
    proof {
        let t = s@.subrange(from as int, s.len() as int);
        lemma_index_of(t, c, i - from);
    }
    i
}

/// The number of leading characters of `s[from..]` that are white space.
pub fn skip_white_space(s: &Vec<char>, from: usize) -> (r: usize)
    requires
        from <= s.len(),
    ensures
        from <= r <= s.len(),
        trim_start(s@.subrange(from as int, s.len() as int)) == s@.subrange(r as int, s.len() as int),
{
    let mut i: usize = from;
    while i < s.len() && white_space(s[i])
        invariant
            from <= i <= s.len(),
            trim_start(s@.subrange(from as int, s.len() as int)) == trim_start(
                s@.subrange(i as int, s.len() as int),
            ),
        decreases s.len() - i,
    {
        assert(s@.subrange(i as int, s.len() as int).drop_first() =~= s@.subrange(
            i + 1,
            s.len() as int,
        ));
        i = i + 1;
    }
    i
}

/// The end of `s[from..to]` once trailing white space is dropped.
pub fn skip_white_space_back(s: &Vec<char>, from: usize, to: usize) -> (r: usize)
    requires
        from <= to <= s.len(),
    ensures
        from <= r <= to,
        trim_end(s@.subrange(from as int, to as int)) == s@.subrange(from as int, r as int),
{
    let mut i: usize = to;
    while i > from && white_space(s[i - 1])
        invariant
            from <= i <= to <= s.len(),
            trim_end(s@.subrange(from as int, to as int)) == trim_end(
                s@.subrange(from as int, i as int),
            ),
        decreases i,
    {
        assert(s@.subrange(from as int, i as int).drop_last() =~= s@.subrange(
            from as int,
            i - 1,
        ));
        i = i - 1;
    }
    i
}

/// The first position in `s[from..to]` where a character other than `c` stands, or `to`.
pub fn skip_leading(s: &Vec<char>, from: usize, to: usize, c: char) -> (r: usize)
    requires
        from <= to <= s.len(),
    ensures
        from <= r <= to,
        strip_leading(s@.subrange(from as int, to as int), c) == s@.subrange(r as int, to as int),
{
    let mut i: usize = from;
    while i < to && s[i] == c
        invariant
            from <= i <= to <= s.len(),
            strip_leading(s@.subrange(from as int, to as int), c) == strip_leading(
                s@.subrange(i as int, to as int),
                c,
            ),
        decreases to - i,
    {
        assert(s@.subrange(i as int, to as int).drop_first() =~= s@.subrange(i + 1, to as int));
        i = i + 1;
    }
    i
}

/// Every character of `s` is white space.
pub open spec fn all_white_space(s: Seq<char>) -> bool {
    forall|i: int| 0 <= i < s.len() ==> is_white_space(#[trigger] s[i])
}

/// Every character of `s` is `c`.
pub open spec fn all_equal(s: Seq<char>, c: char) -> bool {
    forall|i: int| 0 <= i < s.len() ==> #[trigger] s[i] == c
}

/// Leading white space goes in trimming.
pub proof fn lemma_trim_start_white(w: Seq<char>, y: Seq<char>)
    requires
        all_white_space(w),
    ensures
        trim_start(w + y) == trim_start(y),
    decreases w.len(),
{
    if w.len() > 0 {
        assert((w + y)[0] == w[0]);
        assert((w + y).drop_first() =~= w.drop_first() + y);
        lemma_trim_start_white(w.drop_first(), y);
    } else {
        assert(w + y =~= y);
    }
}

/// Trimming the end stops at a character that is not white space.
pub proof fn lemma_trim_end_keeps(p: Seq<char>, q: Seq<char>)
    requires
        p.len() > 0,
        !is_white_space(p.last()),
    ensures
        trim_end(p + q) == p + trim_end(q),
    decreases q.len(),
{
    if q.len() == 0 {
        assert(p + q =~= p);
        assert(p + trim_end(q) =~= p);
    } else if is_white_space(q.last()) {
        assert((p + q).drop_last() =~= p + q.drop_last());
        lemma_trim_end_keeps(p, q.drop_last());
    }
}

/// Leading `c`s go in stripping them.
pub proof fn lemma_strip_leading_equal(m: Seq<char>, y: Seq<char>, c: char)
    requires
        all_equal(m, c),
    ensures
        strip_leading(m + y, c) == strip_leading(y, c),
    decreases m.len(),
{
    if m.len() > 0 {
        assert((m + y)[0] == m[0]);
        assert((m + y).drop_first() =~= m.drop_first() + y);
        lemma_strip_leading_equal(m.drop_first(), y, c);
    } else {
        assert(m + y =~= y);
    }
}

/// Trimming the start drops a prefix of white space.
pub proof fn lemma_trim_start_split(s: Seq<char>) -> (n: int)
    ensures
        0 <= n <= s.len(),
        trim_start(s) == s.skip(n),
        all_white_space(s.take(n)),
    decreases s.len(),
{
    if s.len() > 0 && is_white_space(s[0]) {
        let k = lemma_trim_start_split(s.drop_first());
        assert(s.skip(k + 1) =~= s.drop_first().skip(k));
        assert forall|i: int| 0 <= i < k + 1 implies is_white_space(#[trigger] s.take(k + 1)[i]) by {
            if i > 0 {
                assert(s.take(k + 1)[i] == s.drop_first().take(k)[i - 1]);
            }
        }
        k + 1
    } else {
        assert(s.skip(0) =~= s);
        0
    }
}

/// Trimming the end keeps a prefix.
pub proof fn lemma_trim_end_split(s: Seq<char>) -> (e: int)
    ensures
        0 <= e <= s.len(),
        trim_end(s) == s.take(e),
    decreases s.len(),
{
    if s.len() > 0 && is_white_space(s.last()) {
        let k = lemma_trim_end_split(s.drop_last());
        assert(s.drop_last().take(k) =~= s.take(k));
        k
    } else {
        assert(s.take(s.len() as int) =~= s);
        s.len() as int
    }
}

/// Stripping leading `c`s drops a prefix made of `c`s.
pub proof fn lemma_strip_leading_split(s: Seq<char>, c: char) -> (n: int)
    ensures
        0 <= n <= s.len(),
        strip_leading(s, c) == s.skip(n),
        all_equal(s.take(n), c),
    decreases s.len(),
{
    if s.len() > 0 && s[0] == c {
        let k = lemma_strip_leading_split(s.drop_first(), c);
        assert(s.skip(k + 1) =~= s.drop_first().skip(k));
        assert forall|i: int| 0 <= i < k + 1 implies #[trigger] s.take(k + 1)[i] == c by {
            if i > 0 {
                assert(s.take(k + 1)[i] == s.drop_first().take(k)[i - 1]);
            }
        }
        k + 1
    } else {
        assert(s.skip(0) =~= s);
        0
    }
}

} // verus!
