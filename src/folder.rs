//! Rebuilding call paths from a pre-order listing of a call tree.
use vstd::prelude::*;

use crate::error::{ErrorKind, FoldError};
use crate::number::{next_number, next_number_at};
use crate::header::{header_matches, line_matches_start_line};
use crate::text::{chars_of, find_char, index_of, skip_white_space_back, trim_end};

verus! {

/// A function on the active call path, with its remaining call count.
pub type Frame = (Seq<char>, usize);

/// A call path with its weight.
pub type Sample = (Seq<char>, usize);

/// The function names of `stack`, from the root, joined by `;`.
pub open spec fn path_of(stack: Seq<Frame>) -> Seq<char>
    decreases stack.len(),
{
    if stack.len() == 0 {
        Seq::empty()
    } else if stack.len() == 1 {
        stack[0].0
    } else {
        path_of(stack.drop_last()) + seq![';'] + stack.last().0
    }
}

/// The sample for the path to the top of `stack`, unless the stack is empty
/// or the top frame's count is zero.
pub open spec fn emitted(stack: Seq<Frame>) -> Seq<Sample> {
    if stack.len() > 0 && stack.last().1 > 0 {
        seq![(path_of(stack), stack.last().1)]
    } else {
        Seq::empty()
    }
}

/// `stack` after the calls `carry` of a closed child are taken off the new
/// top frame, where that frame has more calls than `carry`.
pub open spec fn fold_into_parent(stack: Seq<Frame>, carry: usize) -> Seq<Frame> {
    if stack.len() > 0 && carry < stack.last().1 {
        stack.update(stack.len() - 1, (stack.last().0, (stack.last().1 - carry) as usize))
    } else {
        stack
    }
}

/// Closes up to `k` frames of `stack`, `carry` being the count of the frame
/// closed just before: the stack that is left and the samples emitted.
pub open spec fn close(stack: Seq<Frame>, carry: usize, k: nat) -> (Seq<Frame>, Seq<Sample>)
    decreases k,
{
    if k == 0 || stack.len() == 0 {
        (stack, Seq::empty())
    } else {
        let top = stack.last();
        let out = if carry != top.1 {
            emitted(stack)
        } else {
            Seq::empty()
        };
        let rest = close(fold_into_parent(stack.drop_last(), top.1), top.1, (k - 1) as nat);
        (rest.0, out + rest.1)
    }
}

/// `stack` without its top frame, if it has one.
pub open spec fn pop_frame(stack: Seq<Frame>) -> Seq<Frame> {
    if stack.len() > 0 {
        stack.drop_last()
    } else {
        stack
    }
}

/// The stack and the samples after one line at `depth` for function `name`
/// with `count` calls; `None` where the line is more than one level deeper
/// than the stack.
pub open spec fn step(stack: Seq<Frame>, depth: usize, name: Seq<char>, count: usize) -> Option<
    (Seq<Frame>, Seq<Sample>),
> {
    let prev = stack.len();
    if prev < depth {
        if prev + 1 == depth {
            Some((stack.push((name, count)), Seq::empty()))
        } else {
            None
        }
    } else if prev == depth {
        Some((pop_frame(stack).push((name, count)), emitted(stack)))
    } else {
        let closed = close(stack, 0, (prev - depth + 1) as nat);
        Some((closed.0.push((name, count)), closed.1))
    }
}

/// The depth, function name and call count of a report line.
pub open spec fn parse_line(s: Seq<char>) -> Result<(usize, Seq<char>, usize), ErrorKind> {
    match next_number(s) {
        None => Err(ErrorKind::MalformedNumber),
        Some((depth, r)) => if r.len() > 0 && r[0] == '"' {
            let b = r.drop_first();
            let k = index_of(b, '"');
            if k < b.len() {
                match next_number(b.skip(k + 1int)) {
                    None => Err(ErrorKind::MalformedNumber),
                    Some((count, _)) => Ok((depth as usize, b.take(k as int), count as usize)),
                }
            } else {
                Err(ErrorKind::MalformedFunctionName)
            }
        } else {
            Err(ErrorKind::MalformedFunctionName)
        },
    }
}

/// The stack and samples after the report line `s`, or the kind of error it raises.
pub open spec fn line_outcome(stack: Seq<Frame>, s: Seq<char>) -> Result<
    (Seq<Frame>, Seq<Sample>),
    ErrorKind,
> {
    match parse_line(s) {
        Err(kind) => Err(kind),
        Ok((depth, name, count)) => match step(stack, depth, name, count) {
            Some(next) => Ok(next),
            None => Err(ErrorKind::TreeStructureViolation),
        },
    }
}

/// The stack and samples after the data line `s`, taken without trailing
/// white space and passed over where nothing is left; or the error, with the
/// line that raised it.
pub open spec fn data_line(stack: Seq<Frame>, s: Seq<char>) -> Result<
    (Seq<Frame>, Seq<Sample>),
    (ErrorKind, Seq<char>),
> {
    let l = trim_end(s);
    if l.len() == 0 {
        Ok((stack, Seq::empty()))
    } else {
        match line_outcome(stack, l) {
            Err(kind) => Err((kind, l)),
            Ok(next) => Ok(next),
        }
    }
}

/// The stack and samples after the data lines `lines`, each taken without
/// trailing white space and passed over where nothing is left; or the first
/// error, with the line that raised it.
pub open spec fn feed(stack: Seq<Frame>, lines: Seq<Seq<char>>) -> Result<
    (Seq<Frame>, Seq<Sample>),
    (ErrorKind, Seq<char>),
>
    decreases lines.len(),
{
    if lines.len() == 0 {
        Ok((stack, Seq::empty()))
    } else {
        match feed(stack, lines.drop_last()) {
            Err(e) => Err(e),
            Ok((st, out)) => match data_line(st, lines.last()) {
                Err(e) => Err(e),
                Ok((st2, more)) => Ok((st2, out + more)),
            },
        }
    }
}

/// The samples of a whole report, header line first; or the first error,
/// with the line that raised it. A report without lines gives no samples.
pub open spec fn collapse(lines: Seq<Seq<char>>) -> Result<Seq<Sample>, (ErrorKind, Seq<char>)> {
    if lines.len() == 0 {
        Ok(Seq::empty())
    } else if !header_matches(lines[0]) {
        Err((ErrorKind::UnexpectedHeader, lines[0]))
    } else {
        match feed(Seq::empty(), lines.skip(1)) {
            Err(e) => Err(e),
            Ok((stack, out)) => Ok(out + emitted(stack)),
        }
    }
}

/// The first line of `s`: the text before the first line feed.
pub open spec fn first_line(s: Seq<char>) -> Seq<char> {
    s.take(index_of(s, '\n') as int)
}

/// Lines as plain values.
pub open spec fn lines_view(v: Seq<String>) -> Seq<Seq<char>> {
    v.map_values(|l: String| l@)
}

/// Samples as plain values.
pub open spec fn samples_view(v: Seq<(String, usize)>) -> Seq<Sample> {
    v.map_values(|p: (String, usize)| (p.0@, p.1))
}

/// Folds a call-tree report into weighted call paths.
pub struct Folder {
    /// The functions on the active call path, root first, with their remaining call counts.
    stack: Vec<(String, usize)>,
}

/// Once some lines give an error, more lines give the same error.
pub proof fn lemma_feed_error_stays(stack: Seq<Frame>, lines: Seq<Seq<char>>, j: int)
    requires
        0 <= j <= lines.len(),
        feed(stack, lines.take(j)) is Err,
    ensures
        feed(stack, lines) == feed(stack, lines.take(j)),
    decreases lines.len(),
{
    if j < lines.len() {
        assert(lines.drop_last().take(j) =~= lines.take(j));
        lemma_feed_error_stays(stack, lines.drop_last(), j);
    } else {
        assert(lines.take(j) =~= lines);
    }
}

/// Closing more frames than the stack holds closes them all.
pub proof fn lemma_close_saturates(stack: Seq<Frame>, carry: usize, k: nat)
    requires
        k >= stack.len(),
    ensures
        close(stack, carry, k) == close(stack, carry, stack.len()),
    decreases k,
{
    if stack.len() > 0 {
        let top = stack.last();
        let next = fold_into_parent(stack.drop_last(), top.1);
        lemma_close_saturates(next, top.1, (k - 1) as nat);
        lemma_close_saturates(next, top.1, (stack.len() - 1) as nat);
    }
}

impl View for Folder {
    type V = Seq<Frame>;

    closed spec fn view(&self) -> Seq<Frame> {
        self.stack@.map_values(|f: (String, usize)| (f.0@, f.1))
    }
}

impl Default for Folder {
    fn default() -> (r: Folder)
        ensures
            r@ == Seq::<Frame>::empty(),
    {
        Folder::new()
    }
}

impl Folder {
    /// A folder with an empty stack.
    pub fn new() -> (r: Folder)
        ensures
            r@ == Seq::<Frame>::empty(),
    {
        let r = Folder { stack: Vec::new() };
        assert(r@ =~= Seq::<Frame>::empty());
        r
    }

    /// Empties the stack, so that the folder can take a new report.
    pub fn reset(&mut self)
        ensures
            final(self)@ == Seq::<Frame>::empty(),
    {
        self.stack.clear();
        assert(self@ =~= Seq::<Frame>::empty());
    }

    /// Takes one call-tree node at `depth`: the stack is brought to the
    /// node's parent, emitting the samples of the frames that are closed on
    /// the way, and the node is pushed.
    ///
    /// A node more than one level below the top of the stack is refused, and
    /// then nothing changes.
    pub fn observe(
        &mut self,
        depth: usize,
        function_name: String,
        number_of_calls: usize,
        occurrences: &mut Vec<(String, usize)>,
    ) -> (r: Result<(), ErrorKind>)
        ensures
            match step(old(self)@, depth, function_name@, number_of_calls) {
                Some((stack, out)) => {
                    &&& r is Ok
                    &&& final(self)@ == stack
                    &&& samples_view(final(occurrences)@) == samples_view(old(occurrences)@) + out
                },
                None => {
                    &&& r == Err::<(), ErrorKind>(ErrorKind::TreeStructureViolation)
                    &&& final(self)@ == old(self)@
                    &&& final(occurrences)@ == old(occurrences)@
                },
            },
    {
        let prev_depth = self.stack.len();
        if prev_depth < depth {
            if depth - 1 != prev_depth {
                return Err(ErrorKind::TreeStructureViolation);
            }
            let ghost before = self@;
            self.stack.push((function_name, number_of_calls));
            assert(self@ =~= before.push((function_name@, number_of_calls)));
            assert(samples_view(occurrences@) + Seq::<Sample>::empty() =~= samples_view(
                occurrences@,
            ));
        } else if prev_depth == depth {
            self.write_stack(occurrences);
            let ghost before = self@;
            self.stack.pop();
            assert(self@ =~= pop_frame(before));
            self.stack.push((function_name, number_of_calls));
            assert(self@ =~= pop_frame(before).push((function_name@, number_of_calls)));
        } else {
            // Close the frames down to the new node's parent. A parent's count
            // includes its children's calls, so the count of each closed frame
            // comes off its parent, unless it is not below the parent's; and a
            // frame whose count equals the one closed just before is not
            // emitted again.
            let ghost stack0 = self@;
            let ghost occ0 = samples_view(occurrences@);
            let ghost target = close(stack0, 0, (prev_depth - depth + 1) as nat);
            let k: usize = if depth == 0 {
                prev_depth
            } else {
                prev_depth - depth + 1
            };
            proof {
                if depth == 0 {
                    lemma_close_saturates(stack0, 0, (prev_depth - depth + 1) as nat);
                    lemma_close_saturates(stack0, 0, k as nat);
                }
            }
            let mut carry: usize = 0;
            let mut i: usize = 0;
            assert(occ0 + target.1 =~= samples_view(occurrences@) + close(
                self@,
                carry,
                (k - i) as nat,
            ).1);
            while i < k
                invariant
                    i <= k,
                    close(self@, carry, (k - i) as nat).0 == target.0,
                    occ0 + target.1 == samples_view(occurrences@) + close(
                        self@,
                        carry,
                        (k - i) as nat,
                    ).1,
                ensures
                    i == k || self@.len() == 0,
                    close(self@, carry, (k - i) as nat).0 == target.0,
                    occ0 + target.1 == samples_view(occurrences@) + close(
                        self@,
                        carry,
                        (k - i) as nat,
                    ).1,
                decreases k - i,
            {
                let n = self.stack.len();
                if n == 0 {
                    break;
                }
                let ghost cur = self@;
                let ghost occ_cur = samples_view(occurrences@);
                if carry != self.stack[n - 1].1 {
                    self.write_stack(occurrences);
                } else {
                    assert(samples_view(occurrences@) =~= occ_cur + Seq::<Sample>::empty());
                }
                let top = self.stack.pop().unwrap();
                assert(self@ =~= cur.drop_last());
                carry = top.1;
                let m = self.stack.len();
                if m > 0 && carry < self.stack[m - 1].1 {
                    let parent = self.stack.pop().unwrap();
                    self.stack.push((parent.0, parent.1 - carry));
                    assert(self@ =~= fold_into_parent(cur.drop_last(), carry));
                } else {
                    assert(self@ =~= fold_into_parent(cur.drop_last(), carry));
                }
                i = i + 1;
            }
            let ghost rest = close(self@, carry, (k - i) as nat);
            assert(rest.0 == self@ && rest.1 == Seq::<Sample>::empty());
            assert(samples_view(occurrences@) =~= occ0 + target.1);
            let ghost before = self@;
            self.stack.push((function_name, number_of_calls));
            assert(self@ =~= before.push((function_name@, number_of_calls)));
        }
        Ok(())
    }

    /// Takes one report line, such as
    /// `6,"System.String.IsNullOrEmpty(string)",4,0.00,0.00,0.00,0.00,"mscorlib.dll",`:
    /// reads its depth, function name and call count, and hands them to `observe`.
    ///
    /// On an error the stack and the samples are left as they were, and the
    /// error names the line.
    pub fn on_line(&mut self, line: &str, occurrences: &mut Vec<(String, usize)>) -> (r: Result<
        (),
        FoldError,
    >)
        ensures
            match line_outcome(old(self)@, line@) {
                Ok((stack, out)) => {
                    &&& r is Ok
                    &&& final(self)@ == stack
                    &&& samples_view(final(occurrences)@) == samples_view(old(occurrences)@) + out
                },
                Err(kind) => {
                    &&& r matches Err(e) && e.is(kind, line@)
                    &&& final(self)@ == old(self)@
                    &&& final(occurrences)@ == old(occurrences)@
                },
            },
    {
        let s = chars_of(line);
        let len = s.len();
        assert(s@.subrange(0, len as int) =~= line@);
        let (depth, p) = match next_number_at(&s, 0) {
            Some(v) => v,
            None => {
                return Err(FoldError::new(ErrorKind::MalformedNumber, line));
            },
        };
        let ghost rem = s@.subrange(p as int, len as int);
        if p >= len || s[p] != '"' {
            return Err(FoldError::new(ErrorKind::MalformedFunctionName, line));
        }
        let lo = p + 1;
        let hi = find_char(&s, lo, '"');
        let ghost b = rem.drop_first();
        assert(b =~= s@.subrange(lo as int, len as int));
        if hi == len {
            return Err(FoldError::new(ErrorKind::MalformedFunctionName, line));
        }
        assert(b.skip(hi - lo + 1) =~= s@.subrange(hi + 1, len as int));
        assert(b.take(hi - lo) =~= s@.subrange(lo as int, hi as int));
        let number_of_calls = match next_number_at(&s, hi + 1) {
            Some((v, _)) => v,
            None => {
                return Err(FoldError::new(ErrorKind::MalformedNumber, line));
            },
        };
        let function_name = String::from_str(line.substring_char(lo, hi));
        match self.observe(depth, function_name, number_of_calls, occurrences) {
            Ok(()) => Ok(()),
            Err(kind) => Err(FoldError::new(kind, line)),
        }
    }

    /// Folds a whole report, given as its lines: the header, then one line
    /// per call-tree node. Returns every sample in the order emitted, the
    /// last one for the path left on the stack at the end; equal paths are
    /// not merged. The stack is empty before and after.
    pub fn collapse_lines(&mut self, lines: &Vec<String>) -> (r: Result<
        Vec<(String, usize)>,
        FoldError,
    >)
        ensures
            final(self)@ == Seq::<Frame>::empty(),
            match collapse(lines_view(lines@)) {
                Ok(out) => r matches Ok(v) && samples_view(v@) == out,
                Err((kind, l)) => r matches Err(e) && e.is(kind, l),
            },
    {
        self.reset();
        let mut occurrences: Vec<(String, usize)> = Vec::new();
        let ghost ls = lines_view(lines@);
        if lines.len() == 0 {
            assert(samples_view(occurrences@) =~= Seq::<Sample>::empty());
            return Ok(occurrences);
        }
        assert(ls[0] == lines@[0]@);
        if !line_matches_start_line(lines[0].as_str()) {
            return Err(FoldError::new(ErrorKind::UnexpectedHeader, lines[0].as_str()));
        }
        let mut i: usize = 1;
        assert(ls.skip(1).subrange(0, 0) =~= Seq::<Seq<char>>::empty());
        assert(samples_view(occurrences@) =~= Seq::<Sample>::empty());
        while i < lines.len()
            invariant
                1 <= i <= lines.len(),
                ls == lines_view(lines@),
                header_matches(ls[0]),
                feed(Seq::empty(), ls.skip(1).subrange(0, i - 1)) == Ok::<
                    (Seq<Frame>, Seq<Sample>),
                    (ErrorKind, Seq<char>),
                >((self@, samples_view(occurrences@))),
            decreases lines.len() - i,
        {
            let ghost pre = ls.skip(1).subrange(0, i - 1);
            let ghost cur = ls.skip(1).subrange(0, i as int);
            assert(cur.drop_last() =~= pre);
            assert(cur.last() == lines@[i as int]@);
            match self.take_data_line(lines[i].as_str(), &mut occurrences) {
                Ok(()) => {},
                Err(err) => {
                    proof {
                        assert(ls.skip(1).take(i as int) =~= cur);
                        lemma_feed_error_stays(Seq::empty(), ls.skip(1), i as int);
                    }
                    self.reset();
                    return Err(err);
                },
            }
            i = i + 1;
        }
        assert(ls.skip(1).subrange(0, lines.len() - 1) =~= ls.skip(1));
        self.write_stack(&mut occurrences);
        self.reset();
        Ok(occurrences)
    }

    /// Takes one data line of a report: trailing white space is dropped, and
    /// a line with nothing left is passed over.
    fn take_data_line(&mut self, line: &str, occurrences: &mut Vec<(String, usize)>) -> (r: Result<
        (),
        FoldError,
    >)
        ensures
            match data_line(old(self)@, line@) {
                Ok((stack, out)) => {
                    &&& r is Ok
                    &&& final(self)@ == stack
                    &&& samples_view(final(occurrences)@) == samples_view(old(occurrences)@) + out
                },
                Err((kind, l)) => r matches Err(e) && e.is(kind, l),
            },
    {
        let s = chars_of(line);
        assert(s@.subrange(0, s.len() as int) =~= line@);
        let e = skip_white_space_back(&s, 0, s.len());
        if e == 0 {
            assert(samples_view(occurrences@) + Seq::<Sample>::empty() =~= samples_view(occurrences@));
            return Ok(());
        }
        let t = line.substring_char(0, e);
        self.on_line(t, occurrences)
    }

    /// Whether `input` is a report of this kind, judged by its first line.
    pub fn is_applicable(&mut self, input: &str) -> (r: Option<bool>)
        ensures
            r == Some(header_matches(first_line(input@))),
            final(self)@ == old(self)@,
    {
        let s = chars_of(input);
        let e = find_char(&s, 0, '\n');
        assert(s@.subrange(0, s.len() as int) =~= input@);
        let line = input.substring_char(0, e);
        assert(line@ =~= first_line(input@));
        Some(line_matches_start_line(line))
    }

    /// Adds the sample for the path to the top of the stack, unless the stack
    /// is empty or the top frame's count is zero.
    pub fn write_stack(&self, occurrences: &mut Vec<(String, usize)>)
        ensures
            samples_view(final(occurrences)@) == samples_view(old(occurrences)@) + emitted(self@),
    {
        let n = self.stack.len();
        if n == 0 || self.stack[n - 1].1 == 0 {
            assert(samples_view(occurrences@) + emitted(self@) =~= samples_view(occurrences@));
            return;
        }
        let mut path = String::new();
        let mut i: usize = 0;
        while i < n
            invariant
                n == self.stack.len(),
                i <= n,
                i > 0 ==> path@ == path_of(self@.take(i as int)),
                i == 0 ==> path@ == Seq::<char>::empty(),
            decreases n - i,
        {
            assert(self@.take(i + 1).drop_last() =~= self@.take(i as int));
            assert(self@[i as int].0 == self.stack@[i as int].0@);
            let ghost t = self@.take(i + 1);
            assert(t.last() == self@[i as int]);
            if i > 0 {
                proof {
                    reveal_strlit(";");
                }
                assert(";"@ =~= seq![';']);
                path.append(";");
                path.append(self.stack[i].0.as_str());
                assert(path@ =~= path_of(t));
            } else {
                assert(t[0] == self@[0]);
                path.append(self.stack[i].0.as_str());
                assert(path@ =~= path_of(t));
            }
            i = i + 1;
        }
        assert(self@.take(n as int) =~= self@);
        let ghost before = samples_view(occurrences@);
        occurrences.push((path, self.stack[n - 1].1));
        assert(samples_view(occurrences@) =~= before + emitted(self@));
    }
}

} // verus!
