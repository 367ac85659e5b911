//! The scan itself: one pass over a buffer, recording where lines end.

use crate::model::{
    as_positions, is_terminator, lemma_positions_ascend, lemma_positions_count,
    lemma_positions_empty, lemma_positions_exact, lemma_positions_none, lemma_positions_push,
    strictly_increasing, terminator_count, terminator_positions, CR, LF,
};
use crate::stream::IntegerStream;
use vstd::prelude::*;

verus! {

/// The longest buffer whose every position has a 32-bit offset.
pub const MAX_BUFFER_LEN: u64 = 0x1_0000_0000;

/// Why a buffer was not scanned.
#[derive(Clone, Copy, Debug, PartialEq, Eq, Structural)]
pub enum ScanError {
    /// The buffer is longer than [`MAX_BUFFER_LEN`]: it has positions that no
    /// 32-bit offset can name.
    OutOfRangeOffset,
}

/// Scans `buffer` and reports the offset of every carriage return and line
/// feed, in ascending order.
///
/// The buffer may hold any bytes. Its positions must all fit a 32-bit offset;
/// [`try_split_lines`] makes that test and rejects a buffer that is too long.
pub fn split_lines(buffer: &[u8]) -> (stream: IntegerStream)
    requires
        buffer@.len() <= MAX_BUFFER_LEN,
    ensures
        // The offsets are exactly the terminator positions, in order.
        stream.positions() == terminator_positions(buffer@),
        // There is one offset for each terminator byte.
        stream@.len() == terminator_count(buffer@),
        // The offsets ascend strictly, and each indexes a terminator of the buffer.
        strictly_increasing(stream.positions()),
        forall|k: int|
            0 <= k < stream@.len() ==> (#[trigger] stream@[k]) < buffer@.len() && is_terminator(
                buffer@[stream@[k] as int],
            ),
        // No terminator is missed.
        forall|p: int|
            0 <= p < buffer@.len() && is_terminator(#[trigger] buffer@[p])
                ==> stream.positions().contains(p),
        // An empty buffer, and one without terminators, give no offsets.
        buffer@.len() == 0 ==> stream@.len() == 0,
        (forall|p: int| 0 <= p < buffer@.len() ==> !is_terminator(#[trigger] buffer@[p]))
            ==> stream@.len() == 0,
{
    let mut indexes: Vec<u32> = Vec::new();
    proof {
        lemma_positions_empty();
        assert(buffer@.take(0) =~= Seq::<u8>::empty());
        assert(as_positions(indexes@) =~= Seq::<int>::empty());
    }
    for pos in 0..buffer.len()
        invariant
            buffer@.len() <= MAX_BUFFER_LEN,
            as_positions(indexes@) == terminator_positions(buffer@.take(pos as int)),
    {
        let b = buffer[pos];
        proof {
            assert(buffer@.take(pos + 1) =~= buffer@.take(pos as int).push(b));
            lemma_positions_push(buffer@.take(pos as int), b);
        }
        if b == CR || b == LF {
            let ghost before = indexes@;
            indexes.push(pos as u32);
            assert(as_positions(indexes@) =~= as_positions(before).push(pos as int));
        }
    }
    proof {
        assert(buffer@.take(buffer@.len() as int) =~= buffer@);
        lemma_positions_count(buffer@);
        lemma_positions_ascend(buffer@);
        lemma_positions_exact(buffer@);
        assert forall|k: int| 0 <= k < indexes@.len() implies (#[trigger] indexes@[k])
            < buffer@.len() && is_terminator(buffer@[indexes@[k] as int]) by {
            assert(as_positions(indexes@)[k] == indexes@[k] as int);
            assert(terminator_positions(buffer@).contains(indexes@[k] as int));
        }
        if forall|p: int| 0 <= p < buffer@.len() ==> !is_terminator(#[trigger] buffer@[p]) {
            lemma_positions_none(buffer@);
        }
    }
    IntegerStream::from_offsets(indexes)
}

/// Tests that every position of a buffer of `len` bytes fits a 32-bit offset.
pub fn check_buffer_len(len: usize) -> (res: Result<(), ScanError>)
    ensures
        res is Ok <==> len <= MAX_BUFFER_LEN,
        res matches Err(e) ==> e == ScanError::OutOfRangeOffset,
{
    if len as u64 > MAX_BUFFER_LEN {
        Err(ScanError::OutOfRangeOffset)
    } else {
        Ok(())
    }
}

/// Scans `buffer` as [`split_lines`] does, after testing with
/// [`check_buffer_len`] that every position of it fits a 32-bit offset.
pub fn try_split_lines(buffer: &[u8]) -> (res: Result<IntegerStream, ScanError>)
    ensures
        res is Ok <==> buffer@.len() <= MAX_BUFFER_LEN,
        res matches Ok(stream) ==> stream.positions() == terminator_positions(buffer@)
            && stream@.len() == terminator_count(buffer@),
        res matches Err(e) ==> e == ScanError::OutOfRangeOffset,
{
    match check_buffer_len(buffer.len()) {
        Ok(()) => Ok(split_lines(buffer)),
        Err(e) => Err(e),
    }
}

/// Scanning is a function of the bytes alone: two scans of the same bytes
/// report equally many offsets, and the same ones.
pub proof fn lemma_scan_repeatable(bytes: Seq<u8>, first: IntegerStream, second: IntegerStream)
    requires
        first.positions() == terminator_positions(bytes),
        second.positions() == terminator_positions(bytes),
    ensures
        first@.len() == second@.len(),
        first@ == second@,
{
    assert(first@.len() == first.positions().len());
    assert(second@.len() == second.positions().len());
    assert forall|k: int| 0 <= k < first@.len() implies first@[k] == second@[k] by {
        assert(first.positions()[k] == first@[k] as int);
        assert(second.positions()[k] == second@[k] as int);
    }
    assert(first@ =~= second@);
}

} // verus!
