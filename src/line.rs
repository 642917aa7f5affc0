//! One physical line: its ending, its body, and how it is rewritten.
use vstd::prelude::*;

verus! {

/// The end-of-line marker of one physical line.
#[derive(Clone, Copy, Debug, PartialEq, Eq, Structural)]
pub enum LineEnding {
    /// The final line of a text that has no newline after it.
    Bare,
    /// A single `\n`.
    Lf,
    /// `\r\n`.
    CrLf,
}

pub open spec fn is_blank(b: u8) -> bool {
    b == 0x20u8 || b == 0x09u8
}

/// Whether the bytes end in a space or a tab.
pub open spec fn ends_blank(s: Seq<u8>) -> bool {
    s.len() > 0 && is_blank(s.last())
}

/// The ending of a physical line: `\r\n`, `\n`, or none.
pub open spec fn line_ending(line: Seq<u8>) -> LineEnding {
    if line.len() >= 2 && line[line.len() - 2] == 0x0du8 && line[line.len() - 1] == 0x0au8 {
        LineEnding::CrLf
    } else if line.len() >= 1 && line[line.len() - 1] == 0x0au8 {
        LineEnding::Lf
    } else {
        LineEnding::Bare
    }
}

pub open spec fn ending_bytes(e: LineEnding) -> Seq<u8> {
    match e {
        LineEnding::Bare => seq![],
        LineEnding::Lf => seq![0x0au8],
        LineEnding::CrLf => seq![0x0du8, 0x0au8],
    }
}

/// A line without its ending.
pub open spec fn line_body(line: Seq<u8>) -> Seq<u8> {
    line.subrange(0, line.len() - ending_bytes(line_ending(line)).len())
}

/// The bytes with every space and tab at the end removed.
pub open spec fn strip_blanks(s: Seq<u8>) -> Seq<u8>
    decreases s.len(),
{
    if ends_blank(s) {
        strip_blanks(s.drop_last())
    } else {
        s
    }
}

/// Whether rewriting changes the line: its body ends in a space or a tab.
pub open spec fn line_changed(line: Seq<u8>) -> bool {
    ends_blank(line_body(line))
}

/// The rewritten line: the stripped body followed by the original ending.
pub open spec fn fixed_line(line: Seq<u8>) -> Seq<u8> {
    strip_blanks(line_body(line)) + ending_bytes(line_ending(line))
}

/// A physical line as a text is cut into: not empty, and no `\n` but
/// possibly its last byte.
pub open spec fn is_physical_line(line: Seq<u8>) -> bool {
    &&& line.len() > 0
    &&& forall|i: int| 0 <= i < line.len() - 1 ==> line[i] != 0x0au8
}

/// Whether the stripped body of an LF line ends in a carriage return, so that
/// the rewritten line reads as a CRLF line.
pub open spec fn cr_before_lf(line: Seq<u8>) -> bool {
    let kept = strip_blanks(line_body(line));
    &&& line_ending(line) == LineEnding::Lf
    &&& kept.len() > 0
    &&& kept.last() == 0x0du8
}

/// Whether rewriting the line uncovers new trailing blanks: its stripped body
/// ends in a carriage return with a space or a tab before it, and the line ends
/// in a bare `\n`.
pub open spec fn cr_hides_blank(line: Seq<u8>) -> bool {
    cr_before_lf(line) && ends_blank(strip_blanks(line_body(line)).drop_last())
}

/// Stripping keeps a prefix that does not end in a space or a tab.
pub proof fn lemma_strip_blanks(s: Seq<u8>)
    ensures
        strip_blanks(s).len() <= s.len(),
        strip_blanks(s) == s.subrange(0, strip_blanks(s).len() as int),
        !ends_blank(strip_blanks(s)),
        !ends_blank(s) ==> strip_blanks(s) == s,
    decreases s.len(),
{
    if ends_blank(s) {
        lemma_strip_blanks(s.drop_last());
        assert(s.drop_last().subrange(0, strip_blanks(s).len() as int)
            =~= s.subrange(0, strip_blanks(s).len() as int));
    } else {
        assert(s.subrange(0, s.len() as int) =~= s);
    }
}

/// The shape of a rewritten physical line.
pub proof fn lemma_fixed_line(line: Seq<u8>)
    requires
        is_physical_line(line),
    ensures
        ({
            let f = fixed_line(line);
            let e = ending_bytes(line_ending(line));
            &&& f.len() > 0 ==> is_physical_line(f)
            &&& f.len() == 0 ==> line_ending(line) == LineEnding::Bare
            &&& (f.len() > 0 && f.last() == 0x0au8) <==> line.last() == 0x0au8
            &&& e.len() <= f.len()
            &&& f.subrange(f.len() - e.len(), f.len() as int) == e
            &&& line_ending(line) == LineEnding::CrLf ==> line_ending(f) == LineEnding::CrLf
            &&& line_ending(line) == LineEnding::Bare ==> line_ending(f) == LineEnding::Bare
            &&& !cr_before_lf(line) ==> line_ending(f) == line_ending(line)
            &&& !line_changed(line) ==> f == line
            &&& !cr_hides_blank(line) ==> fixed_line(f) == f && !line_changed(f)
        }),
{
    let body = line_body(line);
    let ending = line_ending(line);
    let e = ending_bytes(ending);
    let kept = strip_blanks(body);
    let f = fixed_line(line);
    lemma_strip_blanks(body);
    assert(body + e =~= line);
    assert forall|i: int| 0 <= i < kept.len() implies kept[i] != 0x0au8 by {
        assert(kept[i] == body[i]);
        assert(body[i] == line[i]);
    }
    assert(f.subrange(f.len() - e.len(), f.len() as int) =~= e);
    assert(f.subrange(0, kept.len() as int) =~= kept);
    match ending {
        LineEnding::Bare => {
            assert(f =~= kept);
            assert(line_body(f) =~= f);
        },
        LineEnding::CrLf => {
            assert(line_body(f) =~= kept);
        },
        LineEnding::Lf => {
            if cr_before_lf(line) {
                assert(line_body(f) =~= kept.drop_last());
                assert(line_body(f) + ending_bytes(line_ending(f)) =~= f);
                if !cr_hides_blank(line) {
                    lemma_strip_blanks(line_body(f));
                }
            } else {
                assert(line_body(f) =~= kept);
            }
        },
    }
    if line_ending(f) != LineEnding::Lf || !cr_before_lf(line) {
        lemma_strip_blanks(line_body(f));
    }
}

pub fn ending_of(line: &[u8]) -> (r: LineEnding)
    ensures
        r == line_ending(line@),
{
    let n = line.len();
    if n >= 2 && line[n - 2] == 0x0du8 && line[n - 1] == 0x0au8 {
        LineEnding::CrLf
    } else if n >= 1 && line[n - 1] == 0x0au8 {
        LineEnding::Lf
    } else {
        LineEnding::Bare
    }
}

pub fn ending_len(e: LineEnding) -> (r: usize)
    ensures
        r == ending_bytes(e).len(),
{
    match e {
        LineEnding::Bare => 0,
        LineEnding::Lf => 1,
        LineEnding::CrLf => 2,
    }
}

/// Rewrites one physical line: returns the line with the spaces and tabs at the
/// end of its body removed and its ending kept, and whether anything was removed.
pub fn fix_line(line: &[u8]) -> (r: (Vec<u8>, bool))
    ensures
        r.0@ == fixed_line(line@),
        r.1 == line_changed(line@),
{
    let ending = ending_of(line);
    let body_len = line.len() - ending_len(ending);
    let ghost body = line_body(line@);
    let mut end: usize = body_len;
    assert(body.subrange(0, body_len as int) =~= body);
    while end > 0 && (line[end - 1] == 0x20u8 || line[end - 1] == 0x09u8)
        invariant
            end <= body_len,
            body_len == body.len(),
            body_len <= line@.len(),
            body == line@.subrange(0, body_len as int),
            strip_blanks(body.subrange(0, end as int)) == strip_blanks(body),
            end < body_len ==> ends_blank(body),
        decreases end,
    {
        assert(body.subrange(0, end - 1) =~= body.subrange(0, end as int).drop_last());
        end = end - 1;
    }
    assert(strip_blanks(body) == body.subrange(0, end as int));
    let mut out: Vec<u8> = Vec::with_capacity(line.len());
    let mut i: usize = 0;
    while i < end
        invariant
            i <= end,
            end <= body_len,
            body_len <= line@.len(),
            out@ =~= line@.subrange(0, i as int),
        decreases end - i,
    {
        out.push(line[i]);
        i = i + 1;
    }
    let mut j: usize = body_len;
    while j < line.len()
        invariant
            body_len <= j <= line@.len(),
            end <= body_len,
            out@ =~= line@.subrange(0, end as int) + line@.subrange(body_len as int, j as int),
        decreases line@.len() - j,
    {
        out.push(line[j]);
        j = j + 1;
    }
    assert(line@.subrange(0, end as int) =~= body.subrange(0, end as int));
    assert(line@.subrange(body_len as int, line@.len() as int) =~= ending_bytes(ending));
    (out, end < body_len)
}

} // verus!
