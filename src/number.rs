//! Number fields: bare integers below 1000, or quoted integers written with
//! a comma between each group of three digits.
use vstd::prelude::*;

use crate::error::{ErrorKind, FoldError};
use crate::text::{chars_of, find_char, index_of};

verus! {

pub open spec fn is_digit(c: char) -> bool {
    '0' <= c && c <= '9'
}

pub open spec fn digit_value(c: char) -> nat {
    (c as u32 - '0' as u32) as nat
}

pub open spec fn all_digits(s: Seq<char>) -> bool {
    forall|i: int| 0 <= i < s.len() ==> is_digit(#[trigger] s[i])
}

/// One to three digits, then any number of groups made of a comma and
/// exactly three digits.
pub open spec fn is_grouped(s: Seq<char>) -> bool
    decreases s.len(),
{
    if s.len() <= 3 {
        1 <= s.len() && all_digits(s)
    } else {
        &&& s[s.len() - 4] == ','
        &&& all_digits(s.subrange(s.len() - 3, s.len() as int))
        &&& is_grouped(s.subrange(0, s.len() - 4))
    }
}

/// The digits of `s` read as a decimal number; commas are passed over.
pub open spec fn decimal_value(s: Seq<char>) -> nat
    decreases s.len(),
{
    if s.len() == 0 {
        0
    } else if s.last() == ',' {
        decimal_value(s.drop_last())
    } else {
        decimal_value(s.drop_last()) * 10 + digit_value(s.last())
    }
}

/// `s` without one leading comma, if it has one.
pub open spec fn strip_comma(s: Seq<char>) -> Seq<char> {
    if s.len() > 0 && s[0] == ',' {
        s.drop_first()
    } else {
        s
    }
}

/// The text of the number at the start of `s` and what follows it.
///
/// One leading comma is passed over. A quoted number runs to the closing
/// quote, and one comma after that quote is passed over too; a bare number
/// runs to the next comma, which is passed over.
pub open spec fn number_field(s: Seq<char>) -> Option<(Seq<char>, Seq<char>)> {
    let a = strip_comma(s);
    if a.len() > 0 && a[0] == '"' {
        let b = a.drop_first();
        let k = index_of(b, '"');
        if k < b.len() {
            Some((b.take(k as int), strip_comma(b.skip(k + 1int))))
        } else {
            None
        }
    } else {
        let k = index_of(a, ',');
        if k < a.len() {
            Some((a.take(k as int), a.skip(k + 1int)))
        } else {
            None
        }
    }
}

/// The number at the start of `s` and what follows it, where the number is
/// well grouped and fits in a `usize`.
pub open spec fn next_number(s: Seq<char>) -> Option<(nat, Seq<char>)> {
    match number_field(s) {
        Some((num, rest)) => if is_grouped(num) && decimal_value(num) <= usize::MAX {
            Some((decimal_value(num), rest))
        } else {
            None
        },
        None => None,
    }
}

proof fn lemma_grouped_chars(s: Seq<char>)
    requires
        is_grouped(s),
    ensures
        forall|i: int| 0 <= i < s.len() ==> is_digit(#[trigger] s[i]) || s[i] == ',',
    decreases s.len(),
{
    if s.len() > 3 {
        let p = s.subrange(0, s.len() - 4);
        let q = s.subrange(s.len() - 3, s.len() as int);
        lemma_grouped_chars(p);
        assert forall|i: int| 0 <= i < s.len() implies is_digit(#[trigger] s[i]) || s[i] == ',' by {
            if i < s.len() - 4 {
                assert(s[i] == p[i]);
            } else if i > s.len() - 4 {
                assert(s[i] == q[i - (s.len() - 3)]);
            }
        }
    }
}

proof fn lemma_decimal_value_grows(s: Seq<char>, i: int)
    requires
        0 <= i <= s.len(),
    ensures
        decimal_value(s.take(i)) <= decimal_value(s),
    decreases s.len() - i,
{
    if i < s.len() {
        lemma_decimal_value_grows(s, i + 1);
        assert(s.take(i + 1).drop_last() =~= s.take(i));
    } else {
        assert(s.take(i) =~= s);
    }
}

/// Whether `s[lo..hi]` is well grouped.
fn check_grouping(s: &Vec<char>, lo: usize, hi: usize) -> (r: bool)
    requires
        lo <= hi <= s.len(),
    ensures
        r == is_grouped(s@.subrange(lo as int, hi as int)),
{
    let mut j: usize = hi;
    while j - lo > 3
        invariant
            lo <= j <= hi <= s.len(),
            is_grouped(s@.subrange(lo as int, hi as int)) == is_grouped(
                s@.subrange(lo as int, j as int),
            ),
        decreases j,
    {
        let ghost t = s@.subrange(lo as int, j as int);
        let ghost tail = t.subrange(t.len() - 3, t.len() as int);
        assert(t.subrange(0, t.len() - 4) =~= s@.subrange(lo as int, j - 4));
        assert(tail[0] == s@[j - 3]);
        assert(tail[1] == s@[j - 2]);
        assert(tail[2] == s@[j - 1]);
        if s[j - 4] != ',' {
            return false;
        }
        if !(is_digit_char(s[j - 3]) && is_digit_char(s[j - 2]) && is_digit_char(s[j - 1])) {
            assert(!all_digits(tail));
            return false;
        }
        assert(all_digits(tail));
        j = j - 4;
    }
    if j == lo {
        return false;
    }
    let mut i: usize = lo;
    while i < j
        invariant
            lo <= i <= j <= hi <= s.len(),
            j - lo <= 3,
            is_grouped(s@.subrange(lo as int, hi as int)) == is_grouped(
                s@.subrange(lo as int, j as int),
            ),
            forall|k: int| lo <= k < i ==> is_digit(#[trigger] s@[k]),
        decreases j - i,
    {
        if !is_digit_char(s[i]) {
            let ghost t = s@.subrange(lo as int, j as int);
            assert(t[i - lo] == s@[i as int]);
            assert(!is_digit(t[i - lo]));
            return false;
        }
        i = i + 1;
    }
    assert(all_digits(s@.subrange(lo as int, j as int)));
    true
}

fn is_digit_char(c: char) -> (r: bool)
    ensures
        r == is_digit(c),
{
    '0' <= c && c <= '9'
}

/// The value of the well grouped number `s[lo..hi]`, or `None` where it does
/// not fit in a `usize`.
fn grouped_value(s: &Vec<char>, lo: usize, hi: usize) -> (r: Option<usize>)
    requires
        lo <= hi <= s.len(),
        is_grouped(s@.subrange(lo as int, hi as int)),
    ensures
        match r {
            Some(v) => v == decimal_value(s@.subrange(lo as int, hi as int)),
            None => decimal_value(s@.subrange(lo as int, hi as int)) > usize::MAX,
        },
{
    let ghost t = s@.subrange(lo as int, hi as int);
    proof {
        lemma_grouped_chars(t);
    }
    let mut n: usize = 0;
    let mut i: usize = lo;
    while i < hi
        invariant
            lo <= i <= hi <= s.len(),
            t == s@.subrange(lo as int, hi as int),
            forall|k: int| 0 <= k < t.len() ==> is_digit(#[trigger] t[k]) || t[k] == ',',
            n == decimal_value(t.take(i - lo)),
        decreases hi - i,
    {
        let c = s[i];
        assert(t[i - lo] == c);
        assert(t.take(i - lo + 1).drop_last() =~= t.take(i - lo));
        if c != ',' {
            let d = (c as u32 - '0' as u32) as usize;
            match n.checked_mul(10) {
                Some(m) => match m.checked_add(d) {
                    Some(v) => {
                        n = v;
                    },
                    None => {
                        proof {
                            lemma_decimal_value_grows(t, i - lo + 1);
                        }
                        return None;
                    },
                },
                None => {
                    proof {
                        lemma_decimal_value_grows(t, i - lo + 1);
                    }
                    return None;
                },
            }
        }
        i = i + 1;
    }
    assert(t.take(hi - lo) =~= t);
    Some(n)
}

/// Finds the number field at `s[from..]`: the bounds of its text and where
/// the rest starts.
fn field_bounds(s: &Vec<char>, from: usize) -> (r: Option<(usize, usize, usize)>)
    requires
        from <= s.len(),
    ensures
        match r {
            Some((lo, hi, rest)) => {
                &&& from <= lo <= hi <= rest <= s.len()
                &&& number_field(s@.subrange(from as int, s.len() as int)) == Some(
                    (s@.subrange(lo as int, hi as int), s@.subrange(rest as int, s.len() as int)),
                )
            },
            None => number_field(s@.subrange(from as int, s.len() as int)) is None,
        },
{
    let ghost t = s@.subrange(from as int, s.len() as int);
    let mut i: usize = from;
    if i < s.len() && s[i] == ',' {
        i = i + 1;
    }
    let ghost a = s@.subrange(i as int, s.len() as int);
    assert(a =~= strip_comma(t));
    if i < s.len() && s[i] == '"' {
        let lo = i + 1;
        let hi = find_char(s, lo, '"');
        assert(a.drop_first() =~= s@.subrange(lo as int, s.len() as int));
        if hi == s.len() {
            return None;
        }
        let mut rest = hi + 1;
        if rest < s.len() && s[rest] == ',' {
            rest = rest + 1;
        }
        let ghost b = a.drop_first();
        assert(b.take(hi - lo) =~= s@.subrange(lo as int, hi as int));
        assert(b.skip(hi - lo + 1) =~= s@.subrange(hi + 1, s.len() as int));
        assert(strip_comma(b.skip(hi - lo + 1)) =~= s@.subrange(rest as int, s.len() as int));
        Some((lo, hi, rest))
    } else {
        let lo = i;
        let hi = find_char(s, lo, ',');
        if hi == s.len() {
            return None;
        }
        assert(a.take(hi - lo) =~= s@.subrange(lo as int, hi as int));
        assert(a.skip(hi - lo + 1) =~= s@.subrange(hi + 1, s.len() as int));
        Some((lo, hi, hi + 1))
    }
}

/// Reads the number at `s[from..]`: its value and the position just after it.
pub fn next_number_at(s: &Vec<char>, from: usize) -> (r: Option<(usize, usize)>)
    requires
        from <= s.len(),
    ensures
        match r {
            Some((v, p)) => from <= p <= s.len() && next_number(s@.subrange(from as int, s.len() as int))
                == Some((v as nat, s@.subrange(p as int, s.len() as int))),
            None => next_number(s@.subrange(from as int, s.len() as int)) is None,
        },
{
    match field_bounds(s, from) {
        None => None,
        Some((lo, hi, rest)) => {
            if !check_grouping(s, lo, hi) {
                return None;
            }
            match grouped_value(s, lo, hi) {
                Some(v) => {
                    Some((v, rest))
                },
                None => None,
            }
        },
    }
}

/// Reads the number at the start of `line` and returns it with the rest of
/// the line.
///
/// A number below 1000 stands bare, as in `471,91.25,...`; a larger one is
/// quoted and grouped, as in `"2,893,824",54.37,...`. A leading comma is
/// passed over, and so is the comma after the number, so that the rest starts
/// at the next field either way.
pub fn get_next_number(line: &str) -> (r: Result<(usize, &str), FoldError>)
    ensures
        match next_number(line@) {
            Some((v, rest)) => r matches Ok((n, tail)) && n == v && tail@ == rest,
            None => r matches Err(e) && e.is(ErrorKind::MalformedNumber, line@),
        },
{
    let s = chars_of(line);
    assert(s@.subrange(0, s.len() as int) =~= line@);
    match next_number_at(&s, 0) {
        Some((v, p)) => Ok((v, line.substring_char(p, s.len()))),
        None => Err(FoldError::new(ErrorKind::MalformedNumber, line)),
    }
}

} // verus!
