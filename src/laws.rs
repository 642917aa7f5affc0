//! What holds of rewriting a whole text.
use vstd::prelude::*;

use crate::line::{
    cr_before_lf, cr_hides_blank, ending_bytes, fixed_line, is_physical_line, lemma_fixed_line,
    line_changed, line_ending, LineEnding,
};
use crate::text::{
    changed_numbers, concat_lines, fixed_lines, fixed_text, is_line_seq, lemma_lines_of_concat_lines,
    lemma_lines_of_shape, lines_of,
};

verus! {

/// The rewritten lines without a last one that rewriting left empty (a last
/// line of only spaces and tabs with no newline after it).
pub open spec fn drop_empty_last(ls: Seq<Seq<u8>>) -> Seq<Seq<u8>> {
    if ls.len() > 0 && ls.last().len() == 0 {
        ls.drop_last()
    } else {
        ls
    }
}

/// Rewritten line by line, a line sequence stays one, up to an emptied last line
/// that adds no byte.
pub proof fn lemma_fixed_lines_shape(ls: Seq<Seq<u8>>)
    requires
        is_line_seq(ls),
    ensures
        is_line_seq(drop_empty_last(fixed_lines(ls))),
        concat_lines(drop_empty_last(fixed_lines(ls))) == concat_lines(fixed_lines(ls)),
        drop_empty_last(fixed_lines(ls)).len() == ls.len() || (drop_empty_last(fixed_lines(ls)).len()
            == ls.len() - 1 && fixed_line(ls.last()).len() == 0 && line_ending(ls.last())
            == LineEnding::Bare),
        forall|i: int|
            0 <= i < drop_empty_last(fixed_lines(ls)).len() ==> #[trigger] drop_empty_last(
                fixed_lines(ls),
            )[i] == fixed_line(ls[i]),
{
    let f = fixed_lines(ls);
    let g = drop_empty_last(f);
    assert forall|i: int| 0 <= i < g.len() implies #[trigger] is_physical_line(g[i]) && (i < g.len()
        - 1 ==> g[i].last() == 0x0au8) by {
        assert(is_physical_line(ls[i]));
        lemma_fixed_line(ls[i]);
        assert(g[i] == fixed_line(ls[i]));
        if i < ls.len() - 1 {
            assert(ls[i].last() == 0x0au8);
        }
    }
    if f.len() > 0 && f.last().len() == 0 {
        assert(is_physical_line(ls[ls.len() - 1]));
        lemma_fixed_line(ls.last());
        assert(concat_lines(f) =~= concat_lines(g));
    }
}

/// The lines of the rewritten text are the rewritten lines, but for an
/// emptied last line.
pub proof fn lemma_lines_of_fixed_text(s: Seq<u8>)
    ensures
        lines_of(fixed_text(s)) == drop_empty_last(fixed_lines(lines_of(s))),
        fixed_text(s) == concat_lines(drop_empty_last(fixed_lines(lines_of(s)))),
{
    lemma_lines_of_shape(s);
    lemma_fixed_lines_shape(lines_of(s));
    lemma_lines_of_concat_lines(drop_empty_last(fixed_lines(lines_of(s))));
}

/// No number is reported exactly when no line changes.
pub proof fn lemma_changed_numbers_empty(ls: Seq<Seq<u8>>)
    ensures
        changed_numbers(ls).len() == 0 <==> forall|i: int|
            0 <= i < ls.len() ==> !line_changed(#[trigger] ls[i]),
    decreases ls.len(),
{
    if ls.len() > 0 {
        let init = ls.drop_last();
        lemma_changed_numbers_empty(init);
        if forall|i: int| 0 <= i < ls.len() ==> !line_changed(#[trigger] ls[i]) {
            assert forall|i: int| 0 <= i < init.len() implies !line_changed(#[trigger] init[i]) by {
                assert(init[i] == ls[i]);
            }
        } else if !line_changed(ls.last()) {
            let i = choose|i: int| 0 <= i < ls.len() && line_changed(#[trigger] ls[i]);
            assert(init[i] == ls[i]);
        }
    }
}

/// Rewriting never lengthens the text, and shortens it when a line changes.
pub proof fn lemma_fixed_lines_len(ls: Seq<Seq<u8>>)
    requires
        is_line_seq(ls),
    ensures
        concat_lines(fixed_lines(ls)).len() <= concat_lines(ls).len(),
        changed_numbers(ls).len() > 0 ==> concat_lines(fixed_lines(ls)).len() < concat_lines(
            ls,
        ).len(),
    decreases ls.len(),
{
    if ls.len() > 0 {
        let init = ls.drop_last();
        assert(is_line_seq(init)) by {
            assert forall|i: int| 0 <= i < init.len() implies #[trigger] is_physical_line(init[i])
                && (i < init.len() - 1 ==> init[i].last() == 0x0au8) by {
                assert(init[i] == ls[i]);
                assert(is_physical_line(ls[i]));
            }
        }
        lemma_fixed_lines_len(init);
        assert(fixed_lines(ls).drop_last() =~= fixed_lines(init));
        assert(is_physical_line(ls[ls.len() - 1]));
        lemma_fixed_line(ls.last());
        crate::line::lemma_strip_blanks(crate::line::line_body(ls.last()));
    }
}

/// Rewriting a text twice gives what rewriting it once gives, and the second
/// pass changes no line. Left out are texts with a line that ends in a space
/// or a tab, then a carriage return and spaces or tabs, then a bare `\n`: the
/// first pass turns its ending into a CRLF and so uncovers the blank before it.
pub proof fn lemma_idempotent(s: Seq<u8>)
    requires
        forall|i: int| 0 <= i < lines_of(s).len() ==> !cr_hides_blank(#[trigger] lines_of(s)[i]),
    ensures
        fixed_text(fixed_text(s)) == fixed_text(s),
        changed_numbers(lines_of(fixed_text(s))) == Seq::<int>::empty(),
{
    let l = lines_of(s);
    let g = drop_empty_last(fixed_lines(l));
    lemma_lines_of_shape(s);
    lemma_fixed_lines_shape(l);
    lemma_lines_of_fixed_text(s);
    assert forall|i: int| 0 <= i < g.len() implies fixed_line(#[trigger] g[i]) == g[i]
        && !line_changed(g[i]) by {
        assert(is_physical_line(l[i]));
        assert(!cr_hides_blank(l[i]));
        lemma_fixed_line(l[i]);
    }
    assert(fixed_lines(g) =~= g);
    lemma_changed_numbers_empty(g);
    assert(changed_numbers(g) =~= Seq::<int>::empty());
}

/// A line that does not end in a space or a tab comes out byte for byte as it
/// went in, ending included, at the same place among the lines.
pub proof fn lemma_unchanged_lines_kept(s: Seq<u8>)
    ensures
        forall|i: int|
            0 <= i < lines_of(s).len() && !line_changed(#[trigger] lines_of(s)[i]) ==> i < lines_of(
                fixed_text(s),
            ).len() && lines_of(fixed_text(s))[i] == lines_of(s)[i],
{
    let l = lines_of(s);
    let g = drop_empty_last(fixed_lines(l));
    lemma_lines_of_shape(s);
    lemma_fixed_lines_shape(l);
    lemma_lines_of_fixed_text(s);
    assert forall|i: int| 0 <= i < l.len() && !line_changed(#[trigger] l[i]) implies i < g.len()
        && g[i] == l[i] by {
        assert(is_physical_line(l[i]));
        lemma_fixed_line(l[i]);
        if i == l.len() - 1 {
            assert(fixed_line(l.last()).len() > 0);
        }
    }
}

/// Every line keeps its ending bytes: each rewritten line ends in the bytes its
/// original ended in, a CRLF line stays CRLF, a last line with no newline gets
/// none, and an LF line stays LF unless what is left of its body ends in a
/// carriage return. Only a last line with no newline that held nothing but
/// spaces and tabs disappears. A text all of whose lines end in CRLF is all
/// CRLF afterwards.
pub proof fn lemma_endings_kept(s: Seq<u8>)
    ensures
        ({
            let l = lines_of(s);
            let m = lines_of(fixed_text(s));
            &&& m.len() <= l.len()
            &&& forall|i: int|
                0 <= i < l.len() && line_ending(#[trigger] l[i]) != LineEnding::Bare ==> i < m.len()
            &&& forall|i: int|
                0 <= i < m.len() ==> {
                    let e = ending_bytes(line_ending(l[i]));
                    &&& #[trigger] m[i] == fixed_line(l[i])
                    &&& e.len() <= m[i].len()
                    &&& m[i].subrange(m[i].len() - e.len(), m[i].len() as int) == e
                    &&& line_ending(l[i]) == LineEnding::CrLf ==> line_ending(m[i])
                        == LineEnding::CrLf
                    &&& !cr_before_lf(l[i]) ==> line_ending(m[i]) == line_ending(l[i])
                }
            &&& (forall|i: int| 0 <= i < l.len() ==> line_ending(#[trigger] l[i]) == LineEnding::CrLf)
                ==> m.len() == l.len() && forall|j: int|
                0 <= j < m.len() ==> line_ending(#[trigger] m[j]) == LineEnding::CrLf
        }),
{
    let l = lines_of(s);
    let m = lines_of(fixed_text(s));
    lemma_lines_of_shape(s);
    lemma_fixed_lines_shape(l);
    lemma_lines_of_fixed_text(s);
    assert forall|i: int| 0 <= i < m.len() implies {
        let e = ending_bytes(line_ending(l[i]));
        &&& #[trigger] m[i] == fixed_line(l[i])
        &&& e.len() <= m[i].len()
        &&& m[i].subrange(m[i].len() - e.len(), m[i].len() as int) == e
        &&& line_ending(l[i]) == LineEnding::CrLf ==> line_ending(m[i]) == LineEnding::CrLf
        &&& !cr_before_lf(l[i]) ==> line_ending(m[i]) == line_ending(l[i])
    } by {
        assert(is_physical_line(l[i]));
        lemma_fixed_line(l[i]);
    }
    if forall|i: int| 0 <= i < l.len() ==> line_ending(#[trigger] l[i]) == LineEnding::CrLf {
        if l.len() > 0 {
            assert(line_ending(l[l.len() - 1]) == LineEnding::CrLf);
        }
        assert forall|j: int| 0 <= j < m.len() implies line_ending(#[trigger] m[j])
            == LineEnding::CrLf by {
            assert(is_physical_line(l[j]));
            lemma_fixed_line(l[j]);
            assert(line_ending(l[j]) == LineEnding::CrLf);
        }
    }
}

/// A text is left exactly as it was if and only if no line of it ends in a
/// space or a tab, which is when no line number is reported.
pub proof fn lemma_untouched(s: Seq<u8>)
    ensures
        changed_numbers(lines_of(s)).len() == 0 <==> fixed_text(s) == s,
{
    let l = lines_of(s);
    lemma_lines_of_shape(s);
    lemma_changed_numbers_empty(l);
    lemma_fixed_lines_len(l);
    if changed_numbers(l).len() == 0 {
        assert forall|i: int| 0 <= i < l.len() implies #[trigger] fixed_lines(l)[i] == l[i] by {
            assert(is_physical_line(l[i]));
            lemma_fixed_line(l[i]);
        }
        assert(fixed_lines(l) =~= l);
    }
}

/// Rewriting a text one line at a time, in order, gives the rewritten text and
/// its changed line numbers: for any line sequence, the text that it writes
/// out is cut into exactly those lines again.
pub proof fn lemma_line_by_line(ls: Seq<Seq<u8>>)
    requires
        is_line_seq(ls),
    ensures
        lines_of(concat_lines(ls)) == ls,
        fixed_text(concat_lines(ls)) == concat_lines(fixed_lines(ls)),
        changed_numbers(lines_of(concat_lines(ls))) == changed_numbers(ls),
{
    lemma_lines_of_concat_lines(ls);
}

} // verus!
