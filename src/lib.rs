//! Removes trailing spaces and tabs from every line of a text while keeping
//! each line's own ending (none, LF or CRLF), and reports which lines changed.
//!
//! `line` models one physical line, `text` a whole text as a sequence of such
//! lines, `rewriter` the line-by-line state that a streaming driver feeds, and
//! `laws` what holds of rewriting a whole text.
use vstd::prelude::*;

pub mod laws;
pub mod line;
pub mod rewriter;
pub mod text;

verus! {

/// The number that tells this run's staging file apart. Files are rewritten
/// one after the other and each staging file is gone before the next is made,
/// so one fixed number serves every file.
pub fn get_id() -> (r: usize)
    ensures
        r == 0,
{
    0
}

} // verus!
