//! Recognising the report's header line.
use vstd::prelude::*;

use crate::text::{
    chars_of, skip_leading, skip_white_space, skip_white_space_back, strip_leading, trim,
};

verus! {

/// The header that starts every call-tree report.
pub const START_LINE: &'static str = "Level,Function Name,Number of Calls,Elapsed Inclusive Time %,Elapsed Exclusive Time %,Avg Elapsed Inclusive Time,Avg Elapsed Exclusive Time,Module Name,";

/// The zero-width no-break space that some files start with.
pub const BYTE_ORDER_MARK: char = '\u{feff}';

/// Whether `line`, trimmed and without leading byte order marks, starts with the header.
pub open spec fn header_matches(line: Seq<char>) -> bool {
    START_LINE@.is_prefix_of(strip_leading(trim(line), BYTE_ORDER_MARK))
}

/// Whether `s[lo..hi]` starts with `p`.
fn starts_with_at(s: &Vec<char>, lo: usize, hi: usize, p: &Vec<char>) -> (r: bool)
    requires
        lo <= hi <= s.len(),
    ensures
        r == p@.is_prefix_of(s@.subrange(lo as int, hi as int)),
{
    if hi - lo < p.len() {
        return false;
    }
    let ghost t = s@.subrange(lo as int, hi as int);
    let mut i: usize = 0;
    while i < p.len()
        invariant
            lo <= hi <= s.len(),
            p.len() <= hi - lo,
            t == s@.subrange(lo as int, hi as int),
            i <= p.len(),
            forall|k: int| 0 <= k < i ==> p@[k] == t[k],
        decreases p.len() - i,
    {
        if s[lo + i] != p[i] {
            assert(t[i as int] == s@[lo + i]);
            assert(p@ != t.subrange(0, p.len() as int));
            return false;
        }
        i = i + 1;
    }
    assert(p@ =~= t.subrange(0, p.len() as int));
    true
}

/// Whether `line` is the report's header, allowing white space around it,
/// byte order marks before it, and anything after it.
pub fn line_matches_start_line(line: &str) -> (r: bool)
    ensures
        r == header_matches(line@),
{
    let s = chars_of(line);
    let a = skip_white_space(&s, 0);
    let b = skip_white_space_back(&s, a, s.len());
    assert(s@.subrange(0, s.len() as int) =~= line@);
    assert(trim(line@) == s@.subrange(a as int, b as int));
    let c = skip_leading(&s, a, b, BYTE_ORDER_MARK);
    let sig = chars_of(START_LINE);
    starts_with_at(&s, c, b, &sig)
}

/// The header starts with a letter and ends with a comma.
pub proof fn lemma_start_line_ends()
    ensures
        START_LINE@.len() > 0,
        START_LINE@[0] == 'L',
        START_LINE@.last() == ',',
{
    reveal_strlit("Level,Function Name,Number of Calls,Elapsed Inclusive Time %,Elapsed Exclusive Time %,Avg Elapsed Inclusive Time,Avg Elapsed Exclusive Time,Module Name,");
}

} // verus!
