//! A restartable record sequence bound to one offset window of an
//! input stream.

use crate::parser;
use crate::pgn::{PGN, PgnView};
use vstd::prelude::*;

verus! {

/// Yields the records of one input, one parse attempt at a time,
/// scanning only the window `[min_offset, max_offset)`.  The iterator
/// owns its input and its cursor exclusively; the cursor never moves
/// backwards.
pub struct PGNIterator {
    /// The characters of the underlying stream.
    pub input: Vec<char>,
    /// The length of the whole stream.
    pub total_size: usize,
    /// The current cursor: where the next parse attempt starts.
    pub min_offset: usize,
    /// The window end: no line starts at or past it.
    pub max_offset: usize,
}

impl PGNIterator {
    /// An iterator whose window is the whole input.
    pub fn new(input: String) -> (it: PGNIterator)
        ensures
            it.input@ == input@,
            it.total_size == input@.len(),
            it.min_offset == 0,
            it.max_offset == input@.len(),
    {
        let chars = parser::str_to_chars(input.as_str());
        let total_size = chars.len();
        PGNIterator { input: chars, total_size, min_offset: 0, max_offset: total_size }
    }

    /// An iterator bound to the window `[min_offset, max_offset)`, for
    /// partitioned scanning.
    pub fn with_window(input: String, min_offset: usize, max_offset: usize) -> (it: PGNIterator)
        ensures
            it.input@ == input@,
            it.total_size == input@.len(),
            it.min_offset == min_offset,
            it.max_offset == max_offset,
    {
        let chars = parser::str_to_chars(input.as_str());
        let total_size = chars.len();
        PGNIterator { input: chars, total_size, min_offset, max_offset }
    }

    /// The next record of the window, or `None` when the window is
    /// exhausted.  The cursor advances to the parse's resumption
    /// offset, so the records come in file order, each at most once.
    pub fn next(&mut self) -> (r: Option<PGN>)
        ensures
            final(self).input@ == old(self).input@,
            final(self).total_size == old(self).total_size,
            final(self).max_offset == old(self).max_offset,
            ({
                let (o, rec) = parser::parse_spec(
                    old(self).input@,
                    old(self).min_offset as int,
                    old(self).max_offset as int,
                );
                &&& final(self).min_offset as int == o
                &&& (match r {
                    Some(p) => rec == Some(p@),
                    None => rec is None,
                })
            }),
            old(self).min_offset <= final(self).min_offset,
            r is Some ==> old(self).min_offset < final(self).min_offset,
    {
        let (new_offset, pgn) = parser::parse_lines(
            self.input.as_slice(),
            self.min_offset,
            self.max_offset,
        );
        proof {
            parser::lemma_scan_bounds(
                self.input@,
                self.min_offset as int,
                self.max_offset as int,
                PgnView::unset(),
                parser::ScanState::ScanningTags,
            );
        }
        self.min_offset = new_offset;
        pgn
    }
}

/// Law: the next record is a pure function of the stream, the cursor
/// and the window end.  Re-invoking the parser from a previously
/// returned offset on the same stream therefore reproduces exactly the
/// record that uninterrupted sequential consumption yields next,
/// whatever the two iterators' histories were.
pub proof fn lemma_resumable(a: PGNIterator, b: PGNIterator)
    requires
        a.input@ == b.input@,
        a.min_offset == b.min_offset,
        a.max_offset == b.max_offset,
    ensures
        parser::parse_spec(a.input@, a.min_offset as int, a.max_offset as int)
            == parser::parse_spec(b.input@, b.min_offset as int, b.max_offset as int),
{
}

} // verus!
