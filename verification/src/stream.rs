//! The result of a scan: the offsets found, and the storage that holds them.

use crate::model::{as_positions, strictly_increasing};
use vstd::prelude::*;

verus! {

/// The offsets found by a scan, in the order in which they were found.
///
/// The stream owns its storage: the offsets live as long as the stream does and
/// are released with it, so what [`IntegerStream::offset`] hands out can never
/// outlive the data behind it.
#[derive(Debug)]
pub struct IntegerStream {
    offsets: Vec<u32>,
}

impl View for IntegerStream {
    type V = Seq<u32>;

    closed spec fn view(&self) -> Seq<u32> {
        self.offsets@
    }
}

impl IntegerStream {
    /// The offsets as mathematical integers.
    pub open spec fn positions(&self) -> Seq<int> {
        as_positions(self@)
    }

    /// The offsets of a stream ascend strictly.
    #[verifier::type_invariant]
    spec fn ascending(&self) -> bool {
        strictly_increasing(as_positions(self.offsets@))
    }

    /// Wraps offsets that ascend strictly.
    pub(crate) fn from_offsets(offsets: Vec<u32>) -> (stream: IntegerStream)
        requires
            strictly_increasing(as_positions(offsets@)),
        ensures
            stream@ == offsets@,
    {
        IntegerStream { offsets }
    }

    /// The storage of the offsets: where the first one stands, and as many
    /// elements as [`IntegerStream::size`] counts.
    pub fn offset(&self) -> (storage: &[u32])
        ensures
            storage@ == self@,
            strictly_increasing(self.positions()),
    {
        proof {
            use_type_invariant(self);
        }
        self.offsets.as_slice()
    }

    /// The number of offsets in the stream.
    pub fn size(&self) -> (count: usize)
        ensures
            count == self@.len(),
    {
        self.offsets.len()
    }
}

} // verus!
