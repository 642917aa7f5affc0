//! Rewriting a text as it arrives, one physical line at a time.
use vstd::prelude::*;

use crate::line::{fix_line, fixed_line};
use crate::text::changed_numbers;

verus! {

/// The state of one rewriting pass over a text that arrives a physical line at
/// a time: how many lines have been read, and which of them changed.
pub struct Rewriter {
    read: usize,
    changed: Vec<usize>,
    fed: Ghost<Seq<Seq<u8>>>,
}

impl View for Rewriter {
    type V = Seq<Seq<u8>>;

    /// The lines fed so far, in order.
    closed spec fn view(&self) -> Seq<Seq<u8>> {
        self.fed@
    }
}

impl Rewriter {
    pub closed spec fn wf(&self) -> bool {
        &&& self.read as int == self.fed@.len()
        &&& self.changed@.map_values(|n: usize| n as int) == changed_numbers(self.fed@)
    }

    /// A pass that has read nothing yet.
    pub fn new() -> (r: Rewriter)
        ensures
            r.wf(),
            r@ == Seq::<Seq<u8>>::empty(),
    {
        let r = Rewriter { read: 0, changed: Vec::new(), fed: Ghost(Seq::empty()) };
        assert(r.changed@.map_values(|n: usize| n as int) =~= Seq::<int>::empty());
        r
    }

    /// How many lines have been fed.
    pub fn line_count(&self) -> (r: usize)
        requires
            self.wf(),
        ensures
            r == self@.len(),
    {
        self.read
    }

    /// Takes the next physical line and returns the bytes to write in its place.
    pub fn feed(&mut self, line: &[u8]) -> (r: Vec<u8>)
        requires
            old(self).wf(),
            old(self)@.len() < usize::MAX,
        ensures
            final(self).wf(),
            final(self)@ == old(self)@.push(line@),
            r@ == fixed_line(line@),
    {
        let (fixed, changed) = fix_line(line);
        self.read = self.read + 1;
        let ghost before = self.changed@;
        if changed {
            self.changed.push(self.read);
            assert(self.changed@.map_values(|n: usize| n as int)
                =~= before.map_values(|n: usize| n as int).push(self.read as int));
        }
        self.fed = Ghost(self.fed@.push(line@));
        assert(self.fed@.drop_last() =~= old(self).fed@);
        fixed
    }

    /// Whether any line fed so far changed, so that the rewritten text has to
    /// replace the original.
    pub fn should_replace(&self) -> (r: bool)
        requires
            self.wf(),
        ensures
            r == (changed_numbers(self@).len() > 0),
    {
        self.changed.len() > 0
    }

    /// Ends the pass: the ascending 1-based numbers of the lines that changed.
    pub fn finish(self) -> (r: Vec<usize>)
        requires
            self.wf(),
        ensures
            r@.map_values(|n: usize| n as int) == changed_numbers(self@),
    {
        self.changed
    }
}

} // verus!
