//! Partitioning an input into offset windows, one iterator per window.

use crate::pgn_iterator::PGNIterator;
use vstd::prelude::*;
use vstd::string::StrSliceExecFns;

verus! {

/// Owns the iterators that together scan one input.  Today a single
/// window spans the whole input; the window construction is
/// window-count-agnostic, so callers may build more via
/// `PGNIterator::with_window`.
pub struct PGNHandler {
    /// The length of the input.
    pub total_size: usize,
    /// The requested worker count; only recorded, the partitioning
    /// built here always produces one window.
    pub thread_count: i8,
    /// One iterator per window, covering `[0, total_size)` together.
    pub chunks: Vec<PGNIterator>,
}

impl PGNHandler {
    /// Partitions `input` and returns the handler owning the windows.
    pub fn new(input: String, thread_count: i8) -> (h: PGNHandler)
        ensures
            h.total_size == input@.len(),
            h.thread_count == thread_count,
            h.chunks@.len() == 1,
            h.chunks@[0].input@ == input@,
            h.chunks@[0].total_size == input@.len(),
            h.chunks@[0].min_offset == 0,
            h.chunks@[0].max_offset == input@.len(),
    {
        let total_size = input.as_str().unicode_len();
        let chunks = PGNHandler::create_chunks(input, total_size);
        PGNHandler { total_size, thread_count, chunks }
    }

    /// Builds the window list: one iterator spanning `[0, total_size)`.
    pub fn create_chunks(input: String, total_size: usize) -> (v: Vec<PGNIterator>)
        ensures
            v@.len() == 1,
            v@[0].input@ == input@,
            v@[0].total_size == input@.len(),
            v@[0].min_offset == 0,
            v@[0].max_offset == total_size,
    {
        let mut iters: Vec<PGNIterator> = Vec::new();
        let iter = PGNIterator::with_window(input, 0, total_size);
        iters.push(iter);
        iters
    }
}

/// Whether some window of `its` is responsible for offset `p`.
pub open spec fn covered(its: Seq<PGNIterator>, p: int) -> bool {
    exists|i: int| 0 <= i < its.len() && (#[trigger] its[i]).min_offset <= p < its[i].max_offset
}

/// Two adjacent windows share exactly one boundary offset.
pub open spec fn contiguous(its: Seq<PGNIterator>) -> bool {
    &&& forall|i: int|
        0 <= i < its.len() - 1 ==> (#[trigger] its[i]).max_offset == its[i + 1].min_offset
    &&& forall|i: int| 0 <= i < its.len() ==> (#[trigger] its[i]).min_offset <= its[i].max_offset
}

/// Earlier windows end no later than later windows begin.
proof fn lemma_windows_ordered(its: Seq<PGNIterator>, i: int, j: int)
    requires
        contiguous(its),
        0 <= i < j < its.len(),
    ensures
        its[i].max_offset <= its[j].min_offset,
    decreases j - i,
{
    if i + 1 < j {
        lemma_windows_ordered(its, i, j - 1);
    }
}

/// Law: windows laid end to end from offset zero to `total` scan the
/// whole input together -- every offset of `[0, total)` belongs to some
/// window -- and no offset belongs to two windows.
pub proof fn lemma_partition_covers(its: Seq<PGNIterator>, total: int)
    requires
        its.len() >= 1,
        its[0].min_offset == 0,
        its[its.len() - 1].max_offset == total,
        contiguous(its),
    ensures
        forall|p: int| 0 <= p < total ==> #[trigger] covered(its, p),
        forall|i: int, j: int|
            #![trigger its[i].max_offset, its[j].min_offset]
            0 <= i < j < its.len() ==> its[i].max_offset <= its[j].min_offset,
    decreases its.len(),
{
    assert forall|i: int, j: int|
        #![trigger its[i].max_offset, its[j].min_offset]
        0 <= i < j < its.len() implies its[i].max_offset <= its[j].min_offset by {
        lemma_windows_ordered(its, i, j);
    }
    if its.len() == 1 {
        assert forall|p: int| 0 <= p < total implies #[trigger] covered(its, p) by {
            assert(its[0].min_offset <= p < its[0].max_offset);
        }
    } else {
        let front = its.drop_last();
        let mid = its[its.len() - 2].max_offset as int;
        assert(its[its.len() - 1].min_offset == mid);
        lemma_partition_covers(front, mid);
        assert forall|p: int| 0 <= p < total implies #[trigger] covered(its, p) by {
            if p < mid {
                assert(covered(front, p));
                let i = choose|i: int|
                    0 <= i < front.len() && (#[trigger] front[i]).min_offset <= p
                        < front[i].max_offset;
                assert(its[i] == front[i]);
                assert(its[i].min_offset <= p < its[i].max_offset);
            } else {
                let j = its.len() - 1;
                assert(its[j].min_offset <= p < its[j].max_offset);
            }
        }
    }
}

} // verus!
