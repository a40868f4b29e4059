//! Geometry of a single packet inside a backing buffer.
use core::ops::Range;
use vstd::prelude::*;

verus! {

/// Describes the boundaries of a packet within a [`Buffer`](super::buffer::Buffer).
///
/// ```text
/// |............|-----------------|----------------|------------------|.............|
///  <- offset -> <- pre_padding -> <- packet_len -> <- post_padding ->
/// ```
#[derive(Clone, Copy, Debug, PartialEq, Eq)]
pub struct PacketLayout {
    /// Absolute start byte offset in the buffer.
    pub offset: usize,
    /// Currently in-use bytes of the packet.
    pub packet_len: usize,
    /// Unused but reserved bytes in front of `packet_len`.
    pub pre_padding: usize,
    /// Unused but reserved bytes behind `packet_len`.
    pub post_padding: usize,
}

impl PacketLayout {
    /// Number of bytes owned by the layout (padding included).
    pub open spec fn spec_stride(self) -> int {
        self.pre_padding + self.packet_len + self.post_padding
    }

    /// First buffer index beyond the bytes owned by the layout.
    pub open spec fn spec_stride_end(self) -> int {
        self.offset + self.spec_stride()
    }

    /// First buffer index of the in-use packet bytes.
    pub open spec fn spec_start(self) -> int {
        self.offset + self.pre_padding
    }

    /// First buffer index beyond the in-use packet bytes.
    pub open spec fn spec_end(self) -> int {
        self.spec_start() + self.packet_len
    }

    /// All positions the layout describes are representable as `usize`.
    pub open spec fn fits(self) -> bool {
        self.spec_stride_end() <= usize::MAX
    }

    /// The layout owns exactly the bytes of `[lo, hi)` or lies inside it.
    pub open spec fn spec_is_within(self, lo: int, hi: int) -> bool {
        self.offset >= lo && self.spec_stride_end() <= hi
    }

    /// The layout after moving `delta` bytes between `packet_len` and `post_padding`.
    pub open spec fn resized_back(self, delta: int) -> PacketLayout {
        PacketLayout {
            packet_len: (self.packet_len + delta) as usize,
            post_padding: (self.post_padding - delta) as usize,
            ..self
        }
    }

    /// The layout after moving `delta` bytes between `packet_len` and `pre_padding`.
    pub open spec fn resized_front(self, delta: int) -> PacketLayout {
        PacketLayout {
            packet_len: (self.packet_len + delta) as usize,
            pre_padding: (self.pre_padding - delta) as usize,
            ..self
        }
    }

    /// `resize_back(delta)` neither underflows nor overflows a field.
    pub open spec fn can_resize_back(self, delta: int) -> bool {
        &&& self.packet_len + delta >= 0
        &&& self.post_padding - delta >= 0
        &&& self.post_padding - delta <= usize::MAX
        &&& self.packet_len + delta <= usize::MAX
        &&& delta > isize::MIN
    }

    /// `resize_front(delta)` neither underflows nor overflows a field.
    pub open spec fn can_resize_front(self, delta: int) -> bool {
        &&& self.packet_len + delta >= 0
        &&& self.pre_padding - delta >= 0
        &&& self.pre_padding - delta <= usize::MAX
        &&& self.packet_len + delta <= usize::MAX
        &&& delta > isize::MIN
    }

    /// Make a layout starting at absolute byte offset `offset`, with `packet_len` bytes and
    /// no padding.
    pub fn new(offset: usize, packet_len: usize) -> (r: PacketLayout)
        ensures
            r == (PacketLayout { offset, packet_len, pre_padding: 0, post_padding: 0 }),
    {
        Self::with_padding(offset, packet_len, 0, 0)
    }

    /// Make a layout starting at absolute byte offset `offset`, the given length and
    /// pre/post padding.
    pub fn with_padding(offset: usize, packet_len: usize, pre_padding: usize, post_padding: usize)
        -> (r: PacketLayout)
        ensures
            r == (PacketLayout { offset, packet_len, pre_padding, post_padding }),
    {
        PacketLayout { offset, packet_len, pre_padding, post_padding }
    }

    /// Total number of bytes owned by this layout.
    pub fn stride(&self) -> (r: usize)
        requires
            self.spec_stride() <= usize::MAX,
        ensures
            r == self.spec_stride(),
    {
        self.pre_padding + self.packet_len + self.post_padding
    }

    /// First buffer index beyond this layout.
    pub fn stride_end(&self) -> (r: usize)
        requires
            self.fits(),
        ensures
            r == self.spec_stride_end(),
    {
        self.offset + self.stride()
    }

    /// Buffer range owned by this layout.
    pub fn stride_range(&self) -> (r: Range<usize>)
        requires
            self.fits(),
        ensures
            r.start == self.offset,
            r.end == self.spec_stride_end(),
    {
        self.offset..self.stride_end()
    }

    /// Start of the `packet_len` range.
    pub fn start(&self) -> (r: usize)
        requires
            self.spec_start() <= usize::MAX,
        ensures
            r == self.spec_start(),
    {
        self.offset + self.pre_padding
    }

    /// End of the `packet_len` range.
    pub fn end(&self) -> (r: usize)
        requires
            self.spec_end() <= usize::MAX,
        ensures
            r == self.spec_end(),
    {
        self.start() + self.packet_len
    }

    /// Buffer range containing in-use packet bytes (defined by `packet_len`).
    pub fn range(&self) -> (r: Range<usize>)
        requires
            self.spec_end() <= usize::MAX,
        ensures
            r.start == self.spec_start(),
            r.end == self.spec_end(),
    {
        self.start()..self.end()
    }

    /// Report whether all the layout's bytes are within `range`.
    pub fn is_within(&self, range: Range<usize>) -> (r: bool)
        requires
            self.offset < range.start || self.fits(),
        ensures
            r == self.spec_is_within(range.start as int, range.end as int),
    {
        self.offset >= range.start && self.stride_end() <= range.end
    }

    /// Change `packet_len` by `delta` by changing the amount of `post_padding`.
    ///
    /// The caller must not make `packet_len` or `post_padding` negative.
    pub fn resize_back(&mut self, delta: isize)
        requires
            old(self).can_resize_back(delta as int),
        ensures
            *final(self) == old(self).resized_back(delta as int),
            final(self).spec_stride() == old(self).spec_stride(),
            final(self).packet_len == old(self).packet_len + delta,
            final(self).post_padding == old(self).post_padding - delta,
    {
        if delta < 0 {
            let num_bytes: usize = (-delta) as usize;
            self.packet_len = self.packet_len - num_bytes;
            self.post_padding = self.post_padding + num_bytes;
        } else {
            let num_bytes: usize = delta as usize;
            self.post_padding = self.post_padding - num_bytes;
            self.packet_len = self.packet_len + num_bytes;
        }
    }

    /// Change `packet_len` by `delta` by changing the amount of `pre_padding`.
    ///
    /// The caller must not make `packet_len` or `pre_padding` negative.
    pub fn resize_front(&mut self, num_bytes: isize)
        requires
            old(self).can_resize_front(num_bytes as int),
        ensures
            *final(self) == old(self).resized_front(num_bytes as int),
            final(self).spec_stride() == old(self).spec_stride(),
            final(self).packet_len == old(self).packet_len + num_bytes,
            final(self).pre_padding == old(self).pre_padding - num_bytes,
    {
        if num_bytes < 0 {
            let n: usize = (-num_bytes) as usize;
            self.packet_len = self.packet_len - n;
            self.pre_padding = self.pre_padding + n;
        } else {
            let n: usize = num_bytes as usize;
            self.pre_padding = self.pre_padding - n;
            self.packet_len = self.packet_len + n;
        }
    }
}

/// Resizing at either end moves bytes between the packet and its padding: the bytes the
/// layout owns (offset and stride) stay the same, and the in-use range stays inside them.
pub proof fn lemma_resize_keeps_ownership(l: PacketLayout, delta: int)
    ensures
        l.can_resize_back(delta) ==> {
            &&& l.resized_back(delta).offset == l.offset
            &&& l.resized_back(delta).spec_stride() == l.spec_stride()
            &&& l.resized_back(delta).spec_start() == l.spec_start()
            &&& l.resized_back(delta).spec_end() == l.spec_end() + delta
        },
        l.can_resize_front(delta) ==> {
            &&& l.resized_front(delta).offset == l.offset
            &&& l.resized_front(delta).spec_stride() == l.spec_stride()
            &&& l.resized_front(delta).spec_start() == l.spec_start() - delta
            &&& l.resized_front(delta).spec_end() == l.spec_end()
        },
{
}

/// The layout after the reshaping steps `steps` in turn, each a resize at the front (`true`)
/// or back (`false`) by its delta, or `None` if some step is not allowed. Appending `n` bytes
/// is resizing the back by `n`; prepending them is resizing the front by `n`.
pub open spec fn reshaped(l: PacketLayout, steps: Seq<(bool, int)>) -> Option<PacketLayout>
    decreases steps.len(),
{
    if steps.len() == 0 {
        Some(l)
    } else {
        match reshaped(l, steps.drop_last()) {
            None => None,
            Some(m) => {
                let (front, d) = steps.last();
                if front {
                    if m.can_resize_front(d) {
                        Some(m.resized_front(d))
                    } else {
                        None
                    }
                } else if m.can_resize_back(d) {
                    Some(m.resized_back(d))
                } else {
                    None
                }
            },
        }
    }
}

/// Any run of allowed reshaping steps keeps the bytes the layout owns: the offset and stride
/// stay, and the in-use range stays inside them.
pub proof fn lemma_reshaping_keeps_ownership(l: PacketLayout, steps: Seq<(bool, int)>)
    ensures
        reshaped(l, steps) is Some ==> {
            let m = reshaped(l, steps).unwrap();
            &&& m.offset == l.offset
            &&& m.spec_stride() == l.spec_stride()
            &&& m.offset <= m.spec_start() <= m.spec_end() <= m.spec_stride_end()
            &&& m.spec_end() - m.spec_start() == m.packet_len
        },
    decreases steps.len(),
{
    if steps.len() > 0 {
        lemma_reshaping_keeps_ownership(l, steps.drop_last());
    }
}

/// Resizing by `delta` and then by `-delta` restores the layout it started from, at either end.
pub proof fn lemma_resize_undo(l: PacketLayout, delta: isize)
    ensures
        l.can_resize_back(delta as int) ==> l.resized_back(delta as int).can_resize_back(-delta)
            && l.resized_back(delta as int).resized_back(-delta) == l,
        l.can_resize_front(delta as int) ==> l.resized_front(delta as int).can_resize_front(-delta)
            && l.resized_front(delta as int).resized_front(-delta) == l,
{
}

/// The in-use bytes of a layout lie within the bytes it owns.
pub proof fn lemma_range_within_stride(l: PacketLayout)
    ensures
        l.offset <= l.spec_start() <= l.spec_end() <= l.spec_stride_end(),
{
}

} // verus!
