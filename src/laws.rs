//! Properties of folding that hold across calls.
use vstd::prelude::*;

use crate::header::{header_matches, lemma_start_line_ends, BYTE_ORDER_MARK, START_LINE};
use crate::text::{
    all_equal, all_white_space, is_white_space, lemma_strip_leading_equal,
    lemma_strip_leading_split, lemma_trim_end_keeps, lemma_trim_end_split, lemma_trim_start_split,
    lemma_trim_start_white, strip_leading, trim, trim_end, trim_start,
};
use crate::folder::{
    close, collapse, data_line, emitted, feed, fold_into_parent, line_outcome, parse_line, step,
    Frame, Sample,
};

verus! {

/// The sum of the weights of `out`.
pub open spec fn total_weight(out: Seq<Sample>) -> int
    decreases out.len(),
{
    if out.len() == 0 {
        0
    } else {
        total_weight(out.drop_last()) + out.last().1
    }
}

/// Every weight in `out` is above zero.
pub open spec fn all_weights_positive(out: Seq<Sample>) -> bool {
    forall|i: int| 0 <= i < out.len() ==> (#[trigger] out[i]).1 > 0
}

proof fn lemma_close_len(stack: Seq<Frame>, carry: usize, k: nat)
    requires
        k <= stack.len(),
    ensures
        close(stack, carry, k).0.len() == stack.len() - k,
    decreases k,
{
    if k > 0 {
        let top = stack.last();
        lemma_close_len(fold_into_parent(stack.drop_last(), top.1), top.1, (k - 1) as nat);
    }
}

proof fn lemma_concat_positive(a: Seq<Sample>, b: Seq<Sample>)
    requires
        all_weights_positive(a),
        all_weights_positive(b),
    ensures
        all_weights_positive(a + b),
{
    assert forall|i: int| 0 <= i < (a + b).len() implies (#[trigger] (a + b)[i]).1 > 0 by {
        if i >= a.len() {
            assert((a + b)[i] == b[i - a.len()]);
        }
    }
}

proof fn lemma_close_positive(stack: Seq<Frame>, carry: usize, k: nat)
    ensures
        all_weights_positive(close(stack, carry, k).1),
    decreases k,
{
    if k > 0 && stack.len() > 0 {
        let top = stack.last();
        lemma_close_positive(fold_into_parent(stack.drop_last(), top.1), top.1, (k - 1) as nat);
        let out = if carry != top.1 {
            emitted(stack)
        } else {
            Seq::empty()
        };
        lemma_concat_positive(
            out,
            close(fold_into_parent(stack.drop_last(), top.1), top.1, (k - 1) as nat).1,
        );
    }
}

/// Depth: once a line at depth `d` of at least one has been taken, the
/// stack holds exactly `d` frames.
pub proof fn lemma_depth_invariant(stack: Seq<Frame>, line: Seq<char>)
    requires
        line_outcome(stack, line) is Ok,
        parse_line(line)->Ok_0.0 >= 1,
    ensures
        line_outcome(stack, line)->Ok_0.0.len() == parse_line(line)->Ok_0.0,
{
    let (depth, name, count) = parse_line(line)->Ok_0;
    let prev = stack.len();
    if prev > depth {
        lemma_close_len(stack, 0, (prev - depth + 1) as nat);
    }
}

/// Zero weights: no line, and no frame left at the end, yields a sample of
/// weight zero.
pub proof fn lemma_step_weights_positive(stack: Seq<Frame>, depth: usize, name: Seq<char>, count: usize)
    requires
        step(stack, depth, name, count) is Some,
    ensures
        all_weights_positive(step(stack, depth, name, count)->Some_0.1),
        all_weights_positive(emitted(stack)),
{
    let prev = stack.len();
    if prev > depth {
        lemma_close_positive(stack, 0, (prev - depth + 1) as nat);
    }
}

proof fn lemma_feed_positive(stack: Seq<Frame>, lines: Seq<Seq<char>>)
    requires
        feed(stack, lines) is Ok,
    ensures
        all_weights_positive(feed(stack, lines)->Ok_0.1),
    decreases lines.len(),
{
    if lines.len() > 0 {
        lemma_feed_positive(stack, lines.drop_last());
        let (st, out) = feed(stack, lines.drop_last())->Ok_0;
        let r = data_line(st, lines.last());
        let more = r->Ok_0.1;
        if more.len() > 0 {
            let (depth, name, count) = parse_line(trim_end(lines.last()))->Ok_0;
            lemma_step_weights_positive(st, depth, name, count);
        }
        lemma_concat_positive(out, more);
    }
}

/// Zero weights: every sample of a whole report has a weight above zero.
pub proof fn lemma_collapse_weights_positive(lines: Seq<Seq<char>>)
    requires
        collapse(lines) is Ok,
    ensures
        all_weights_positive(collapse(lines)->Ok_0),
{
    if lines.len() > 0 {
        lemma_feed_positive(Seq::empty(), lines.skip(1));
        let (st, out) = feed(Seq::empty(), lines.skip(1))->Ok_0;
        if st.len() > 0 {
            let top = st.last();
            lemma_step_weights_positive(st, st.len() as usize, top.0, top.1);
        }
        lemma_concat_positive(out, emitted(st));
    }
}

/// Replay: the outcome of a run of lines depends on the stack it starts
/// from alone, so a folder that was reset and a new one, both empty, give
/// the same stack and samples for the same lines.
pub proof fn lemma_reset_replay(reset: Seq<Frame>, fresh: Seq<Frame>, lines: Seq<Seq<char>>)
    requires
        reset == Seq::<Frame>::empty(),
        fresh == Seq::<Frame>::empty(),
    ensures
        feed(reset, lines) == feed(fresh, lines),
{
}

/// Conservation, for a root with one child that is closed by the next root:
/// the weights emitted sum to the root's call count, where the child has no
/// more calls than the root and does not have exactly half of them.
pub proof fn lemma_conservation_root_and_child(
    root: Seq<char>,
    root_calls: usize,
    child: Seq<char>,
    child_calls: usize,
    next: Seq<char>,
    next_calls: usize,
)
    requires
        child_calls <= root_calls,
        child_calls == root_calls || 2 * child_calls != root_calls,
    ensures
        ({
            let s1 = step(Seq::empty(), 1, root, root_calls)->Some_0;
            let s2 = step(s1.0, 2, child, child_calls)->Some_0;
            let s3 = step(s2.0, 1, next, next_calls)->Some_0;
            total_weight(s1.1 + s2.1 + s3.1) == root_calls
        }),
{
    let s1 = step(Seq::empty(), 1, root, root_calls)->Some_0;
    let s2 = step(s1.0, 2, child, child_calls)->Some_0;
    let stack = s2.0;
    assert(stack =~= seq![(root, root_calls), (child, child_calls)]);
    let parent = fold_into_parent(stack.drop_last(), child_calls);
    assert(stack.drop_last() =~= seq![(root, root_calls)]);
    let left = close(parent, child_calls, 1).1;
    let all = close(stack, 0, 2).1;
    let s3 = step(s2.0, 1, next, next_calls)->Some_0;
    assert(s3.1 == all);
    assert(s1.1 + s2.1 + s3.1 =~= all);
    assert(close(fold_into_parent(parent.drop_last(), parent.last().1), parent.last().1, 0).1
        =~= Seq::<Sample>::empty());
    reveal_with_fuel(total_weight, 3);
    if child_calls > 0 {
        assert(all =~= seq![(crate::folder::path_of(stack), child_calls)] + left);
    } else {
        assert(all =~= left);
    }
    if child_calls < root_calls {
        assert(left =~= emitted(parent));
    } else {
        assert(left =~= Seq::<Sample>::empty());
    }
}

proof fn lemma_header_accepts(w: Seq<char>, m: Seq<char>, rest: Seq<char>)
    requires
        all_white_space(w),
        all_equal(m, BYTE_ORDER_MARK),
    ensures
        header_matches(w + m + START_LINE@ + rest),
{
    let sig = START_LINE@;
    lemma_start_line_ends();
    let body = m + sig + rest;
    assert(w + m + sig + rest =~= w + body);
    lemma_trim_start_white(w, body);
    if m.len() > 0 {
        assert(body[0] == m[0]);
    } else {
        assert(body[0] == sig[0]);
    }
    assert(!is_white_space(body[0]));
    assert(trim_start(body) == body);
    let head = m + sig;
    assert(head.last() == sig.last());
    assert(body =~= head + rest);
    lemma_trim_end_keeps(head, rest);
    let tail = sig + trim_end(rest);
    assert(head + trim_end(rest) =~= m + tail);
    lemma_strip_leading_equal(m, tail, BYTE_ORDER_MARK);
    assert(tail[0] == sig[0]);
    assert(strip_leading(tail, BYTE_ORDER_MARK) == tail);
    assert(tail.subrange(0, sig.len() as int) =~= sig);
}

/// Header detection: a line is taken for the header exactly when it is white
/// space, then byte order marks, then the header, then anything.
pub proof fn lemma_header_detection(line: Seq<char>)
    ensures
        header_matches(line) <==> exists|w: Seq<char>, m: Seq<char>, rest: Seq<char>|
            all_white_space(w) && all_equal(m, BYTE_ORDER_MARK) && line == w + m + START_LINE@
                + rest,
{
    let sig = START_LINE@;
    if header_matches(line) {
        let n = lemma_trim_start_split(line);
        let t = line.skip(n);
        let e = lemma_trim_end_split(t);
        let u = t.take(e);
        assert(trim(line) == u);
        let k = lemma_strip_leading_split(u, BYTE_ORDER_MARK);
        let w = line.take(n);
        let m = u.take(k);
        let rest = line.skip(n + k + sig.len());
        assert(u.skip(k).subrange(0, sig.len() as int) =~= sig);
        assert(line =~= w + m + sig + rest);
    }
    if exists|w: Seq<char>, m: Seq<char>, rest: Seq<char>|
        all_white_space(w) && all_equal(m, BYTE_ORDER_MARK) && line == w + m + sig + rest {
        let (w, m, rest) = choose|w: Seq<char>, m: Seq<char>, rest: Seq<char>|
            all_white_space(w) && all_equal(m, BYTE_ORDER_MARK) && line == w + m + sig + rest;
        lemma_header_accepts(w, m, rest);
    }
}

} // verus!
