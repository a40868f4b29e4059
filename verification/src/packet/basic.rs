//! A batch of packets without per-packet metadata.
use vstd::prelude::*;

use super::batch::Batch;
use super::layout::PacketLayout;
use super::raw::{RawBatch, RawBatchBuilder};

verus! {

/// A batch of packets with no additional metadata.
pub struct BasicBatch {
    /// The underlying raw batch.
    ///
    /// You generally don't need to access this directly, except when converting `BasicBatch`
    /// into another batch type.
    pub raw: RawBatch,
}

impl From<RawBatch> for BasicBatch {
    fn from(raw: RawBatch) -> (r: BasicBatch) {
        BasicBatch { raw }
    }
}

impl vstd::std_specs::convert::FromSpecImpl<RawBatch> for BasicBatch {
    open spec fn obeys_from_spec() -> bool {
        true
    }

    open spec fn from_spec(raw: RawBatch) -> BasicBatch {
        BasicBatch { raw }
    }
}

impl Batch for BasicBatch {
    type Metadata = ();

    open spec fn raw_view(&self) -> RawBatch {
        self.raw
    }

    open spec fn has_metadata(&self, i: int) -> bool {
        true
    }

    open spec fn metadata(&self, i: int) -> () {
        ()
    }

    fn as_raw(&self) -> (r: &RawBatch) {
        &self.raw
    }

    fn as_raw_mut(&mut self) -> (r: &mut RawBatch) {
        &mut self.raw
    }

    fn get_metadata(&self, _i: usize) -> (r: Option<()>) {
        Some(())
    }

    fn empty_clone(&self) -> (r: BasicBatch) {
        BasicBatch { raw: self.raw.empty_clone() }
    }
}

impl BasicBatch {
    /// Create a batch containing a single packet of the given size, with no padding, over a
    /// new buffer of that size.
    pub fn new_single(size: usize) -> (r: BasicBatch)
        ensures
            r.raw.wf(),
            r.raw.bytes() == Seq::new(size as nat, |i: int| 0u8),
            r.raw.layouts() == seq![PacketLayout { offset: 0, packet_len: size, pre_padding: 0, post_padding: 0 }],
            r.raw.is_contiguous(),
    {
        let mut builder = RawBatchBuilder::new(size);
        builder.push_layout(PacketLayout::new(0, size));
        BasicBatch { raw: builder.finish() }
    }
}

} // verus!
