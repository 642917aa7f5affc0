//! A whole text as the sequence of its physical lines.
use vstd::prelude::*;

use crate::line::{fixed_line, is_physical_line, line_changed};
use crate::rewriter::Rewriter;

verus! {

/// Length of the first physical line: up to and including the first `\n`,
/// or the whole text when it holds none.
pub open spec fn first_line_len(s: Seq<u8>) -> nat
    decreases s.len(),
{
    if s.len() == 0 {
        0
    } else if s[0] == 0x0au8 {
        1
    } else {
        1 + first_line_len(s.drop_first())
    }
}

/// The first line is not empty, holds no `\n` but its last byte, and ends in
/// one unless it is the whole text.
pub proof fn lemma_first_line_len_bounds(s: Seq<u8>)
    ensures
        s.len() > 0 ==> 1 <= first_line_len(s) <= s.len(),
        s.len() == 0 ==> first_line_len(s) == 0,
        forall|i: int| 0 <= i < first_line_len(s) - 1 ==> s[i] != 0x0au8,
        first_line_len(s) < s.len() ==> s[first_line_len(s) - 1] == 0x0au8,
    decreases s.len(),
{
    if s.len() > 0 && s[0] != 0x0au8 {
        let t = s.drop_first();
        lemma_first_line_len_bounds(t);
        assert forall|i: int| 0 <= i < first_line_len(s) - 1 implies s[i] != 0x0au8 by {
            if i > 0 {
                assert(s[i] == t[i - 1]);
            }
        }
        if first_line_len(s) < s.len() {
            assert(s[first_line_len(s) - 1] == t[first_line_len(t) - 1]);
        }
    }
}

/// Cutting a text after a `\n` does not move the end of its first line.
pub proof fn lemma_first_line_len_concat(a: Seq<u8>, b: Seq<u8>)
    requires
        a.len() > 0,
        a.last() == 0x0au8,
    ensures
        first_line_len(a + b) == first_line_len(a),
    decreases a.len(),
{
    if a[0] != 0x0au8 {
        assert((a + b).drop_first() =~= a.drop_first() + b);
        lemma_first_line_len_concat(a.drop_first(), b);
    }
}

/// The first line ends just after the first `\n` at or after `k`, when no
/// byte before `k` is a `\n`.
pub proof fn lemma_first_line_len_at(s: Seq<u8>, k: int)
    requires
        0 <= k <= s.len(),
        forall|i: int| 0 <= i < k ==> s[i] != 0x0au8,
        k == s.len() || s[k] == 0x0au8,
    ensures
        first_line_len(s) == if k < s.len() { k + 1 } else { k },
    decreases k,
{
    if k > 0 {
        let t = s.drop_first();
        assert forall|i: int| 0 <= i < k - 1 implies t[i] != 0x0au8 by {
            assert(s[i + 1] != 0x0au8);
        }
        lemma_first_line_len_at(t, k - 1);
    }
}

/// The physical lines of a text, in order: each runs up to and including a
/// `\n`, and a last run of bytes with no `\n` after it is a line too.
pub open spec fn lines_of(s: Seq<u8>) -> Seq<Seq<u8>>
    decreases s.len(),
    via lines_of_decreases
{
    if s.len() == 0 {
        seq![]
    } else {
        let n = first_line_len(s);
        seq![s.subrange(0, n as int)] + lines_of(s.subrange(n as int, s.len() as int))
    }
}

#[via_fn]
proof fn lines_of_decreases(s: Seq<u8>) {
    lemma_first_line_len_bounds(s);
}

/// The lines of a text that ends in a `\n`, followed by the lines of what
/// comes after it.
pub proof fn lemma_lines_of_concat(a: Seq<u8>, b: Seq<u8>)
    requires
        a.len() == 0 || a.last() == 0x0au8,
    ensures
        lines_of(a + b) == lines_of(a) + lines_of(b),
    decreases a.len(),
{
    if a.len() == 0 {
        assert(a + b =~= b);
        assert(lines_of(a) + lines_of(b) =~= lines_of(b));
    } else {
        let n = first_line_len(a);
        lemma_first_line_len_concat(a, b);
        lemma_first_line_len_bounds(a);
        let ab = a + b;
        assert(ab.subrange(0, n as int) =~= a.subrange(0, n as int));
        let ra = a.subrange(n as int, a.len() as int);
        assert(ab.subrange(n as int, ab.len() as int) =~= ra + b);
        lemma_lines_of_concat(ra, b);
        assert(lines_of(ab) =~= lines_of(a) + lines_of(b));
    }
}

/// A single physical line is cut as itself.
pub proof fn lemma_lines_of_one(l: Seq<u8>)
    requires
        is_physical_line(l),
    ensures
        lines_of(l) == seq![l],
{
    if l.last() == 0x0au8 {
        lemma_first_line_len_at(l, l.len() - 1);
    } else {
        lemma_first_line_len_at(l, l.len() as int);
    }
    assert(l.subrange(0, l.len() as int) =~= l);
    let e = l.subrange(l.len() as int, l.len() as int);
    assert(e =~= Seq::<u8>::empty());
    assert(lines_of(e) =~= Seq::<Seq<u8>>::empty());
    assert(lines_of(l) == seq![l.subrange(0, l.len() as int)] + lines_of(e));
    assert(lines_of(l) =~= seq![l]);
}

/// A sequence of physical lines of which all but the last end in a `\n`:
/// what cutting a text gives.
pub open spec fn is_line_seq(ls: Seq<Seq<u8>>) -> bool {
    forall|i: int|
        0 <= i < ls.len() ==> #[trigger] is_physical_line(ls[i]) && (i < ls.len() - 1
            ==> ls[i].last() == 0x0au8)
}

/// The lines written one after the other.
pub open spec fn concat_lines(ls: Seq<Seq<u8>>) -> Seq<u8>
    decreases ls.len(),
{
    if ls.len() == 0 {
        seq![]
    } else {
        concat_lines(ls.drop_last()) + ls.last()
    }
}

/// Writing a first line, then the rest.
pub proof fn lemma_concat_lines_front(x: Seq<u8>, r: Seq<Seq<u8>>)
    ensures
        concat_lines(seq![x] + r) == x + concat_lines(r),
    decreases r.len(),
{
    if r.len() == 0 {
        assert(seq![x] + r =~= seq![x]);
        assert(seq![x].drop_last() =~= Seq::<Seq<u8>>::empty());
        assert(concat_lines(r) =~= Seq::<u8>::empty());
        assert(x + concat_lines(r) =~= x);
        assert(concat_lines(seq![x].drop_last()) =~= Seq::<u8>::empty());
        assert(seq![x].last() == x);
        assert(concat_lines(seq![x]) =~= x);
    } else {
        assert((seq![x] + r).drop_last() =~= seq![x] + r.drop_last());
        lemma_concat_lines_front(x, r.drop_last());
        assert(concat_lines(seq![x] + r) =~= x + concat_lines(r));
    }
}

/// The lines of a text are a line sequence, and writing them out again gives
/// the text.
pub proof fn lemma_lines_of_shape(s: Seq<u8>)
    ensures
        is_line_seq(lines_of(s)),
        concat_lines(lines_of(s)) == s,
    decreases s.len(),
{
    if s.len() > 0 {
        let n = first_line_len(s);
        lemma_first_line_len_bounds(s);
        let x = s.subrange(0, n as int);
        let rest = s.subrange(n as int, s.len() as int);
        lemma_lines_of_shape(rest);
        lemma_concat_lines_front(x, lines_of(rest));
        assert(x + rest =~= s);
        let ls = lines_of(s);
        assert(ls =~= seq![x] + lines_of(rest));
        assert forall|i: int| 0 <= i < ls.len() implies #[trigger] is_physical_line(ls[i]) && (i
            < ls.len() - 1 ==> ls[i].last() == 0x0au8) by {
            if i > 0 {
                assert(ls[i] == lines_of(rest)[i - 1]);
            } else if i < ls.len() - 1 {
                assert(lines_of(rest).len() > 0);
                assert(rest.len() > 0);
            }
        }
    } else {
        assert(concat_lines(lines_of(s)) =~= s);
    }
}

/// Cutting the written-out lines of a line sequence gives the sequence back.
pub proof fn lemma_lines_of_concat_lines(ls: Seq<Seq<u8>>)
    requires
        is_line_seq(ls),
    ensures
        lines_of(concat_lines(ls)) == ls,
    decreases ls.len(),
{
    if ls.len() == 0 {
        assert(lines_of(concat_lines(ls)) =~= ls);
    } else {
        let init = ls.drop_last();
        let last = ls.last();
        assert(is_physical_line(ls[ls.len() - 1]));
        assert(is_line_seq(init)) by {
            assert forall|i: int| 0 <= i < init.len() implies #[trigger] is_physical_line(init[i])
                && (i < init.len() - 1 ==> init[i].last() == 0x0au8) by {
                assert(init[i] == ls[i]);
                assert(is_physical_line(ls[i]));
            }
        }
        lemma_lines_of_concat_lines(init);
        if init.len() > 0 {
            assert(is_physical_line(ls[init.len() - 1]));
            assert(init.last() == ls[init.len() - 1]);
            assert(concat_lines(init).last() == 0x0au8) by {
                assert(concat_lines(init) == concat_lines(init.drop_last()) + init.last());
            }
        }
        lemma_lines_of_concat(concat_lines(init), last);
        lemma_lines_of_one(last);
        assert(init + seq![last] =~= ls);
    }
}

/// The 1-based numbers, ascending, of the lines that rewriting changes.
pub open spec fn changed_numbers(ls: Seq<Seq<u8>>) -> Seq<int>
    decreases ls.len(),
{
    if ls.len() == 0 {
        seq![]
    } else if line_changed(ls.last()) {
        changed_numbers(ls.drop_last()).push(ls.len() as int)
    } else {
        changed_numbers(ls.drop_last())
    }
}

/// Each line rewritten.
pub open spec fn fixed_lines(ls: Seq<Seq<u8>>) -> Seq<Seq<u8>> {
    ls.map_values(|l: Seq<u8>| fixed_line(l))
}

/// The rewritten text: every line of it rewritten, in order.
pub open spec fn fixed_text(s: Seq<u8>) -> Seq<u8> {
    concat_lines(fixed_lines(lines_of(s)))
}

/// Rewrites a whole text held in memory: returns the text with the spaces and
/// tabs at the end of every line removed, each line keeping its ending, and the
/// ascending 1-based numbers of the lines that changed.
pub fn fix_text(text: &[u8]) -> (r: (Vec<u8>, Vec<usize>))
    ensures
        r.0@ == fixed_text(text@),
        r.1@.map_values(|n: usize| n as int) == changed_numbers(lines_of(text@)),
{
    let mut rw = Rewriter::new();
    let mut out: Vec<u8> = Vec::new();
    let mut pos: usize = 0;
    let ghost mut done: Seq<Seq<u8>> = seq![];
    assert(text@.subrange(0, text@.len() as int) =~= text@);
    assert(done + lines_of(text@) =~= lines_of(text@));
    while pos < text.len()
        invariant
            pos <= text@.len(),
            rw.wf(),
            rw@ == done,
            done.len() <= pos,
            lines_of(text@) == done + lines_of(text@.subrange(pos as int, text@.len() as int)),
            out@ == concat_lines(fixed_lines(done)),
        decreases text@.len() - pos,
    {
        let ghost rest = text@.subrange(pos as int, text@.len() as int);
        let mut j: usize = pos;
        while j < text.len() && text[j] != 0x0au8
            invariant
                pos <= j <= text@.len(),
                forall|i: int| pos <= i < j ==> text@[i] != 0x0au8,
            decreases text@.len() - j,
        {
            j = j + 1;
        }
        let end: usize = if j < text.len() {
            j + 1
        } else {
            j
        };
        proof {
            lemma_first_line_len_at(rest, j - pos);
        }
        let line = vstd::slice::slice_subrange(text, pos, end);
        let mut fixed = rw.feed(line);
        proof {
            let n = end - pos;
            assert(line@ =~= rest.subrange(0, n));
            assert(rest.subrange(n, rest.len() as int) =~= text@.subrange(end as int, text@.len() as int));
            assert(lines_of(rest) == seq![line@] + lines_of(text@.subrange(end as int, text@.len() as int)));
            assert(done.push(line@) + lines_of(text@.subrange(end as int, text@.len() as int))
                =~= done + lines_of(rest));
            assert(fixed_lines(done.push(line@)).drop_last() =~= fixed_lines(done));
            done = done.push(line@);
        }
        out.append(&mut fixed);
        pos = end;
    }
    proof {
        assert(done + lines_of(seq![]) =~= done);
        assert(text@.subrange(pos as int, text@.len() as int) =~= Seq::<u8>::empty());
    }
    (out, rw.finish())
}

} // verus!
