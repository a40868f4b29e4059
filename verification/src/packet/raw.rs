//! Building blocks for batches of packets: a buffer plus the layouts of the packets in it.
//!
//! A batch owns the bytes its layouts describe. Layouts never overlap and are ordered by
//! ascending offset; a batch whose layouts leave no gap between them is marked contiguous,
//! which some operations use as a fast path.
use core::ops::Range;
use vstd::prelude::*;

use super::batch::Batch;
use super::buffer::Buffer;
use super::layout::PacketLayout;

verus! {

/// Every layout of `ls` ends within the first `len` bytes.
pub open spec fn layouts_in_bounds(ls: Seq<PacketLayout>, len: int) -> bool {
    forall|i: int| 0 <= i < ls.len() ==> (#[trigger] ls[i]).spec_stride_end() <= len
}

/// The layouts of `ls` are ordered by offset and do not overlap.
pub open spec fn layouts_ordered(ls: Seq<PacketLayout>) -> bool {
    forall|i: int, j: int| 0 <= i < j < ls.len() ==> (#[trigger] ls[i]).spec_stride_end() <= (#[trigger] ls[j]).offset
}

/// Layout `i` of `ls` starts exactly where layout `i - 1` ends.
pub open spec fn linked_at(ls: Seq<PacketLayout>, i: int) -> bool {
    ls[i].offset == ls[i - 1].spec_stride_end()
}

/// There are no gaps between consecutive layouts of `ls`.
pub open spec fn layouts_gap_free(ls: Seq<PacketLayout>) -> bool {
    forall|i: int| 1 <= i < ls.len() ==> #[trigger] linked_at(ls, i)
}

/// `dst` with the positions `lo .. hi` taken from `src`.
pub open spec fn splice(dst: Seq<u8>, src: Seq<u8>, lo: int, hi: int) -> Seq<u8> {
    Seq::new(dst.len(), |p: int| if lo <= p < hi { src[p] } else { dst[p] })
}

/// Byte position `p` lies in the bytes owned by some layout of `ls`.
pub open spec fn owns(ls: Seq<PacketLayout>, p: int) -> bool {
    exists|j: int| 0 <= j < ls.len() && (#[trigger] ls[j]).offset <= p < ls[j].spec_stride_end()
}

/// No layout of the ordered `ls` owns a position that lies after layout `a - 1` and before
/// layout `a`.
proof fn lemma_not_owned_between(ls: Seq<PacketLayout>, a: int, p: int)
    requires
        layouts_ordered(ls),
        0 <= a <= ls.len(),
        a == 0 || ls[a - 1].spec_stride_end() <= p,
        a == ls.len() || p < ls[a].offset,
    ensures
        !owns(ls, p),
{
    assert forall|j: int| 0 <= j < ls.len() implies !((#[trigger] ls[j]).offset <= p < ls[j].spec_stride_end()) by {
        if j < a - 1 {
            assert(ls[j].spec_stride_end() <= ls[a - 1].offset);
        } else if j > a {
            assert(ls[a].spec_stride_end() <= ls[j].offset);
        }
    }
}

/// Every position of a run of linked layouts `a ..= b` is owned.
proof fn lemma_run_owns(ls: Seq<PacketLayout>, a: int, b: int, p: int)
    requires
        0 <= a <= b < ls.len(),
        forall|j: int| a < j <= b ==> #[trigger] linked_at(ls, j),
        ls[a].offset <= p < ls[b].spec_stride_end(),
    ensures
        owns(ls, p),
    decreases b - a,
{
    if p >= ls[b].offset {
        assert(ls[b].offset <= p < ls[b].spec_stride_end());
    } else {
        assert(linked_at(ls, b));
        lemma_run_owns(ls, a, b - 1, p);
    }
}

/// Returns the maximal run of linked layouts that starts at `ls[cur]`: its first position,
/// its end position, and the index of the first layout after it.
fn next_run(ls: &Vec<PacketLayout>, cur: usize) -> (r: (usize, usize, usize))
    requires
        cur < ls@.len(),
        forall|j: int| 0 <= j < ls@.len() ==> (#[trigger] ls@[j]).fits(),
    ensures
        cur < r.2 <= ls@.len(),
        r.0 == ls@[cur as int].offset,
        r.1 == ls@[r.2 - 1].spec_stride_end(),
        forall|j: int| cur < j < r.2 ==> #[trigger] linked_at(ls@, j),
        r.2 < ls@.len() ==> !linked_at(ls@, r.2 as int),
{
    let n: usize = ls.len();
    let start: usize = ls[cur].offset;
    let mut end: usize = ls[cur].stride_end();
    let mut i: usize = cur + 1;
    while i < n && ls[i].offset == end
        invariant
            cur < i <= ls@.len(),
            n == ls@.len(),
            end == ls@[i - 1].spec_stride_end(),
            forall|j: int| 0 <= j < ls@.len() ==> (#[trigger] ls@[j]).fits(),
            forall|j: int| cur < j < i ==> #[trigger] linked_at(ls@, j),
        decreases ls@.len() - i,
    {
        assert(linked_at(ls@, i as int));
        end = ls[i].stride_end();
        i = i + 1;
    }
    (start, end, i)
}

/// If `ls` is ordered layout by layout it is ordered pairwise.
proof fn lemma_ordered_push(ls: Seq<PacketLayout>, l: PacketLayout)
    requires
        layouts_ordered(ls),
        ls.len() > 0 ==> ls.last().spec_stride_end() <= l.offset,
    ensures
        layouts_ordered(ls.push(l)),
{
    let s = ls.push(l);
    assert forall|i: int, j: int| 0 <= i < j < s.len() implies (#[trigger] s[i]).spec_stride_end()
        <= (#[trigger] s[j]).offset by {
        assert(s[i] == ls[i]);
        if j < ls.len() {
            assert(s[j] == ls[j]);
        } else if i < ls.len() - 1 {
            assert(ls[i].spec_stride_end() <= ls[ls.len() - 1].offset);
        }
    }
}

/// Appending `l` keeps `ls` gap-free exactly when `l` starts where `ls` ends.
pub(crate) proof fn lemma_gap_free_push(ls: Seq<PacketLayout>, l: PacketLayout)
    ensures
        layouts_gap_free(ls.push(l)) == (layouts_gap_free(ls) && (ls.len() == 0
            || l.offset == ls.last().spec_stride_end())),
{
    let s = ls.push(l);
    if layouts_gap_free(s) {
        assert forall|i: int| 1 <= i < ls.len() implies #[trigger] linked_at(ls, i) by {
            assert(linked_at(s, i));
        }
        if ls.len() > 0 {
            assert(linked_at(s, ls.len() as int));
        }
    }
    if layouts_gap_free(ls) && (ls.len() == 0 || l.offset == ls.last().spec_stride_end()) {
        assert forall|i: int| 1 <= i < s.len() implies #[trigger] linked_at(s, i) by {
            if i < ls.len() {
                assert(linked_at(ls, i));
            }
        }
    }
}

/// The end of `l`, or `None` if it is not representable.
fn checked_stride_end(l: &PacketLayout) -> (r: Option<usize>)
    ensures
        l.fits() ==> r == Some(l.spec_stride_end() as usize),
        !l.fits() ==> r is None,
{
    match l.pre_padding.checked_add(l.packet_len) {
        None => None,
        Some(a) => match a.checked_add(l.post_padding) {
            None => None,
            Some(b) => l.offset.checked_add(b),
        },
    }
}

/// Total stride of the first `k` layouts of `ls`.
pub open spec fn stride_prefix(ls: Seq<PacketLayout>, k: int) -> int
    decreases k,
{
    if k <= 0 {
        0
    } else {
        stride_prefix(ls, k - 1) + ls[k - 1].spec_stride()
    }
}

/// The bytes owned by the first `k` layouts of `ls`, one after the other.
pub open spec fn stride_bytes_upto(bytes: Seq<u8>, ls: Seq<PacketLayout>, k: int) -> Seq<u8>
    decreases k,
{
    if k <= 0 {
        Seq::empty()
    } else {
        stride_bytes_upto(bytes, ls, k - 1) + bytes.subrange(
            ls[k - 1].offset as int,
            ls[k - 1].spec_stride_end(),
        )
    }
}

proof fn lemma_stride_bytes_len(bytes: Seq<u8>, ls: Seq<PacketLayout>, k: int)
    requires
        0 <= k <= ls.len(),
        layouts_in_bounds(ls, bytes.len() as int),
    ensures
        stride_bytes_upto(bytes, ls, k).len() == stride_prefix(ls, k),
    decreases k,
{
    if k > 0 {
        lemma_stride_bytes_len(bytes, ls, k - 1);
        assert(ls[k - 1].spec_stride_end() <= bytes.len());
    }
}

/// Layout `i` is the `i`th piece of the bytes owned by the first `k` layouts.
proof fn lemma_stride_bytes_piece(bytes: Seq<u8>, ls: Seq<PacketLayout>, k: int, i: int)
    requires
        0 <= i < k <= ls.len(),
        layouts_in_bounds(ls, bytes.len() as int),
    ensures
        stride_bytes_upto(bytes, ls, k).subrange(stride_prefix(ls, i), stride_prefix(ls, i + 1))
            == bytes.subrange(ls[i].offset as int, ls[i].spec_stride_end()),
    decreases k,
{
    lemma_stride_bytes_len(bytes, ls, k - 1);
    assert(ls[k - 1].spec_stride_end() <= bytes.len());
    lemma_stride_prefix_mono(ls, 0, i);
    if i < k - 1 {
        lemma_stride_bytes_piece(bytes, ls, k - 1, i);
        lemma_stride_prefix_mono(ls, i + 1, k - 1);
        assert(stride_bytes_upto(bytes, ls, k).subrange(stride_prefix(ls, i), stride_prefix(ls, i + 1))
            =~= stride_bytes_upto(bytes, ls, k - 1).subrange(stride_prefix(ls, i), stride_prefix(ls, i + 1)));
    } else {
        assert(stride_bytes_upto(bytes, ls, k).subrange(stride_prefix(ls, i), stride_prefix(ls, i + 1))
            =~= bytes.subrange(ls[i].offset as int, ls[i].spec_stride_end()));
    }
}

/// Stride prefixes grow with `k`.
proof fn lemma_stride_prefix_mono(ls: Seq<PacketLayout>, a: int, b: int)
    requires
        0 <= a <= b <= ls.len(),
    ensures
        stride_prefix(ls, a) <= stride_prefix(ls, b),
    decreases b - a,
{
    if a < b {
        lemma_stride_prefix_mono(ls, a, b - 1);
    }
}

/// The owned bytes of ordered layouts are no more than the position where they end.
proof fn lemma_stride_prefix_bound(ls: Seq<PacketLayout>, k: int)
    requires
        1 <= k <= ls.len(),
        layouts_ordered(ls),
    ensures
        stride_prefix(ls, k) <= ls[k - 1].spec_stride_end(),
    decreases k,
{
    if k > 1 {
        lemma_stride_prefix_bound(ls, k - 1);
        assert(ls[k - 2].spec_stride_end() <= ls[k - 1].offset);
    } else {
        assert(stride_prefix(ls, 0) == 0);
    }
}

/// The owned bytes of ordered layouts within the first `len` bytes are no more than `len`.
proof fn lemma_stride_prefix_fits(ls: Seq<PacketLayout>, k: int, len: int)
    requires
        0 <= k <= ls.len(),
        layouts_ordered(ls),
        layouts_in_bounds(ls, len),
        len >= 0,
    ensures
        0 <= stride_prefix(ls, k) <= len,
{
    lemma_stride_prefix_mono(ls, 0, k);
    if ls.len() > 0 {
        lemma_stride_prefix_mono(ls, k, ls.len() as int);
        lemma_stride_prefix_bound(ls, ls.len() as int);
        assert(ls[ls.len() - 1].spec_stride_end() <= len);
    }
}

/// For gap-free layouts, the owned bytes are one range of the buffer.
proof fn lemma_stride_bytes_contiguous(bytes: Seq<u8>, ls: Seq<PacketLayout>, k: int)
    requires
        1 <= k <= ls.len(),
        layouts_in_bounds(ls, bytes.len() as int),
        layouts_gap_free(ls),
    ensures
        stride_bytes_upto(bytes, ls, k) == bytes.subrange(ls[0].offset as int, ls[k - 1].spec_stride_end()),
    decreases k,
{
    assert(ls[k - 1].spec_stride_end() <= bytes.len());
    if k > 1 {
        lemma_stride_bytes_contiguous(bytes, ls, k - 1);
        assert(linked_at(ls, k - 1));
        assert(ls[0].spec_stride_end() <= bytes.len());
        lemma_first_offset_le(ls, k - 1);
        assert(stride_bytes_upto(bytes, ls, k) =~= bytes.subrange(ls[0].offset as int, ls[k - 1].spec_stride_end()));
    } else {
        assert(stride_bytes_upto(bytes, ls, 0) == Seq::<u8>::empty());
        assert(stride_bytes_upto(bytes, ls, 1) =~= bytes.subrange(ls[0].offset as int, ls[0].spec_stride_end()));
    }
}

/// In gap-free layouts, the first offset is at most the end of any layout.
proof fn lemma_first_offset_le(ls: Seq<PacketLayout>, k: int)
    requires
        0 <= k < ls.len(),
        layouts_gap_free(ls),
    ensures
        ls[0].offset <= ls[k].offset,
    decreases k,
{
    if k > 0 {
        assert(linked_at(ls, k));
        lemma_first_offset_le(ls, k - 1);
    }
}

/// Changing a layout without changing the bytes it owns keeps a batch well formed.
proof fn lemma_same_strides_keep_wf(a: RawBatch, b: RawBatch, i: int)
    requires
        a.wf(),
        0 <= i < a.layouts().len(),
        b.bytes() == a.bytes(),
        b.is_contiguous() == a.is_contiguous(),
        b.layouts().len() == a.layouts().len(),
        b.layouts()[i].offset == a.layouts()[i].offset,
        b.layouts()[i].spec_stride() == a.layouts()[i].spec_stride(),
        forall|j: int| 0 <= j < a.layouts().len() && j != i ==> b.layouts()[j] == a.layouts()[j],
    ensures
        b.wf(),
{
    let la = a.layouts();
    let lb = b.layouts();
    assert forall|j: int| 0 <= j < lb.len() implies (#[trigger] lb[j]).spec_stride_end() <= b.bytes().len() by {
        assert(la[j].spec_stride_end() <= a.bytes().len());
    }
    assert forall|x: int, y: int| 0 <= x < y < lb.len() implies (#[trigger] lb[x]).spec_stride_end()
        <= (#[trigger] lb[y]).offset by {
        assert(la[x].spec_stride_end() <= la[y].offset);
    }
    if b.is_contiguous() {
        assert forall|j: int| 1 <= j < lb.len() implies #[trigger] linked_at(lb, j) by {
            assert(linked_at(la, j));
        }
    }
}

/// `dst` with the bytes of `src` written from position `at` on.
pub open spec fn overwrite(dst: Seq<u8>, at: int, src: Seq<u8>) -> Seq<u8> {
    Seq::new(dst.len(), |p: int| if at <= p < at + src.len() { src[p - at] } else { dst[p] })
}

/// Writing within the bytes that packet `i` owns leaves every other packet's bytes, padding
/// included, as they were: packets do not share bytes.
pub proof fn lemma_write_stays_in_packet(b: RawBatch, i: int, at: int, src: Seq<u8>)
    requires
        b.wf(),
        0 <= i < b.layouts().len(),
        b.layouts()[i].offset <= at,
        at + src.len() <= b.layouts()[i].spec_stride_end(),
    ensures
        overwrite(b.bytes(), at, src).len() == b.bytes().len(),
        forall|j: int|
            0 <= j < b.layouts().len() && j != i ==> #[trigger] overwrite(b.bytes(), at, src).subrange(
                b.layouts()[j].offset as int,
                b.layouts()[j].spec_stride_end(),
            ) == b.packet_stride_bytes(j),
{
    let ls = b.layouts();
    assert forall|j: int| 0 <= j < ls.len() && j != i implies #[trigger] overwrite(b.bytes(), at, src).subrange(
        ls[j].offset as int,
        ls[j].spec_stride_end(),
    ) == b.packet_stride_bytes(j) by {
        if j < i {
            assert(ls[j].spec_stride_end() <= ls[i].offset);
        } else {
            assert(ls[i].spec_stride_end() <= ls[j].offset);
        }
        assert(ls[j].spec_stride_end() <= b.bytes().len());
        assert(overwrite(b.bytes(), at, src).subrange(ls[j].offset as int, ls[j].spec_stride_end())
            =~= b.packet_stride_bytes(j));
    }
}

/// Constructs a [`RawBatch`] by layering [`PacketLayout`]s over a [`Buffer`].
pub struct RawBatchBuilder {
    buf: Buffer,
    buf_range: Range<usize>,
    layouts: Vec<PacketLayout>,
    // Unlike RawBatch, `contiguous` is true while no layout has been pushed.
    contiguous: bool,
}

impl RawBatchBuilder {
    /// The bytes of the buffer the batch is built over.
    pub closed spec fn bytes(&self) -> Seq<u8> {
        self.buf.data@
    }

    /// First position of the part of the buffer the builder may hand out.
    pub closed spec fn range_start(&self) -> int {
        self.buf_range.start as int
    }

    /// End of the part of the buffer the builder may hand out.
    pub closed spec fn range_end(&self) -> int {
        self.buf_range.end as int
    }

    /// The layouts pushed so far.
    pub closed spec fn layouts(&self) -> Seq<PacketLayout> {
        self.layouts@
    }

    /// Whether the layouts pushed so far tile the range from its start without a gap.
    pub closed spec fn is_contiguous(&self) -> bool {
        self.contiguous
    }

    /// Start of the part of the range that new layouts may use.
    pub open spec fn available_start(&self) -> int {
        if self.layouts().len() == 0 {
            self.range_start()
        } else {
            self.layouts().last().spec_stride_end()
        }
    }

    /// The builder's internal invariant.
    pub open spec fn wf(&self) -> bool {
        &&& self.range_start() <= self.range_end() <= self.bytes().len() <= usize::MAX
        &&& forall|i: int|
            0 <= i < self.layouts().len() ==> (#[trigger] self.layouts()[i]).spec_is_within(
                self.range_start(),
                self.range_end(),
            )
        &&& layouts_ordered(self.layouts())
        &&& self.is_contiguous() ==> {
            &&& layouts_gap_free(self.layouts())
            &&& self.layouts().len() > 0 ==> self.layouts()[0].offset == self.range_start()
        }
    }

    /// Build a batch over a newly allocated buffer of `buf_size` zero bytes.
    pub fn new(buf_size: usize) -> (r: RawBatchBuilder)
        ensures
            r.wf(),
            r.bytes() == Seq::new(buf_size as nat, |i: int| 0u8),
            r.range_start() == 0,
            r.range_end() == buf_size,
            r.layouts().len() == 0,
            r.is_contiguous(),
    {
        RawBatchBuilder {
            buf: Buffer::new(buf_size),
            buf_range: 0..buf_size,
            layouts: Vec::new(),
            contiguous: true,
        }
    }

    /// Build a batch over an existing buffer.
    pub fn from_buffer(buf: Buffer) -> (r: RawBatchBuilder)
        ensures
            r.wf(),
            r.bytes() == buf.data@,
            r.range_start() == 0,
            r.range_end() == buf.data@.len(),
            r.layouts().len() == 0,
            r.is_contiguous(),
    {
        let len: usize = buf.data.len();
        RawBatchBuilder {
            buf_range: 0..len,
            buf,
            layouts: Vec::new(),
            contiguous: true,
        }
    }

    /// Return the range of bytes that are still available for registration of new packets.
    pub fn available(&self) -> (r: Range<usize>)
        requires
            self.wf(),
        ensures
            r.start == self.available_start(),
            r.end == self.range_end(),
    {
        let n: usize = self.layouts.len();
        if n == 0 {
            self.buf_range.start..self.buf_range.end
        } else {
            let last = &self.layouts[n - 1];
            last.stride_end()..self.buf_range.end
        }
    }

    /// Allocate part of the buffer for use by a packet with the given layout.
    ///
    /// The new layout must lie within [`available`](Self::available): later in the buffer
    /// than every layout pushed before it, and inside the builder's range.
    pub fn push_layout(&mut self, layout: PacketLayout)
        requires
            old(self).wf(),
            layout.spec_is_within(old(self).available_start(), old(self).range_end()),
        ensures
            final(self).wf(),
            final(self).bytes() == old(self).bytes(),
            final(self).range_start() == old(self).range_start(),
            final(self).range_end() == old(self).range_end(),
            final(self).layouts() == old(self).layouts().push(layout),
            final(self).is_contiguous() == (old(self).is_contiguous() && layout.offset
                == old(self).available_start()),
    {
        let avail = self.available();
        self.contiguous = self.contiguous && layout.offset == avail.start;
        self.layouts.push(layout);
        proof {
            let ls = self.layouts@;
            let n = ls.len() - 1;
            assert forall|i: int, j: int| 0 <= i < j < ls.len() implies (#[trigger] ls[i]).spec_stride_end()
                <= (#[trigger] ls[j]).offset by {
                if j == n && i < n {
                    assert(ls[i] == old(self).layouts()[i]);
                    if i < n - 1 {
                        assert(ls[n - 1] == old(self).layouts()[n - 1]);
                    }
                }
            }
            if self.contiguous {
                assert forall|i: int| 1 <= i < ls.len() implies #[trigger] linked_at(ls, i) by {
                    if i < n {
                        assert(linked_at(old(self).layouts(), i));
                    }
                }
            }
        }
    }

    /// Consume the builder and return the built batch.
    pub fn finish(self) -> (r: RawBatch)
        requires
            self.wf(),
        ensures
            r.wf(),
            r.bytes() == self.bytes(),
            r.layouts() == self.layouts(),
            r.is_contiguous() == (self.layouts().len() > 0 && self.is_contiguous()),
    {
        let contiguous: bool = self.layouts.len() > 0 && self.contiguous;
        RawBatch { buf: self.buf, layouts: self.layouts, contiguous }
    }
}

/// A view on part of a buffer, presented as individual packets.
pub struct RawBatch {
    /// The backing storage for packets.
    buf: Buffer,
    /// The geometry of the packets owned by this batch: ordered, non-overlapping regions of
    /// `buf`.
    layouts: Vec<PacketLayout>,
    /// True only if `layouts` is non-empty and has no gaps between layouts. Some operations
    /// have fast paths for contiguous batches.
    contiguous: bool,
}

impl RawBatch {
    /// The bytes of the backing buffer.
    pub closed spec fn bytes(&self) -> Seq<u8> {
        self.buf.data@
    }

    /// The layouts of the batch's packets, in order.
    pub closed spec fn layouts(&self) -> Seq<PacketLayout> {
        self.layouts@
    }

    /// Whether the batch is marked as having no gaps between its layouts.
    pub closed spec fn is_contiguous(&self) -> bool {
        self.contiguous
    }

    /// The in-use bytes of the `i`th packet.
    pub open spec fn packet_data(&self, i: int) -> Seq<u8> {
        self.bytes().subrange(self.layouts()[i].spec_start(), self.layouts()[i].spec_end())
    }

    /// All bytes owned by the `i`th packet, padding included.
    pub open spec fn packet_stride_bytes(&self, i: int) -> Seq<u8> {
        self.bytes().subrange(self.layouts()[i].offset as int, self.layouts()[i].spec_stride_end())
    }

    /// The batch's packets: each packet's layout with the bytes it owns (padding included).
    pub open spec fn packets(&self) -> Seq<(PacketLayout, Seq<u8>)> {
        Seq::new(self.layouts().len(), |i: int| (self.layouts()[i], self.packet_stride_bytes(i)))
    }

    /// The batch's internal invariant.
    pub open spec fn wf(&self) -> bool {
        &&& self.bytes().len() <= usize::MAX
        &&& layouts_in_bounds(self.layouts(), self.bytes().len() as int)
        &&& layouts_ordered(self.layouts())
        &&& self.is_contiguous() ==> self.layouts().len() > 0 && layouts_gap_free(self.layouts())
    }

    /// Number of packets in the batch.
    pub fn len(&self) -> (r: usize)
        ensures
            r == self.layouts().len(),
    {
        self.layouts.len()
    }

    /// Get the bytes of the `i`th packet in the batch.
    pub fn get_data(&self, i: usize) -> (r: Option<&[u8]>)
        requires
            self.wf(),
        ensures
            i < self.layouts().len() ==> r is Some && r.unwrap()@ == self.packet_data(i as int),
            i >= self.layouts().len() ==> r is None,
    {
        if i < self.layouts.len() {
            let layout = &self.layouts[i];
            assert(self.layouts()[i as int] == *layout);
            Some(self.buf.index(layout.range()))
        } else {
            None
        }
    }

    /// Returns the byte range of this batch in the buffer, if the batch is contiguous.
    fn contiguous_range(&self) -> (r: Option<Range<usize>>)
        requires
            self.wf(),
        ensures
            self.is_contiguous() ==> r is Some && r.unwrap().start == self.layouts()[0].offset
                && r.unwrap().end == self.layouts().last().spec_stride_end(),
            !self.is_contiguous() ==> r is None,
    {
        if self.contiguous {
            let n: usize = self.layouts.len();
            assert(self.layouts()[n - 1] == self.layouts()[n - 1]);
            Some(self.layouts[0].offset..self.layouts[n - 1].stride_end())
        } else {
            None
        }
    }

    /// Append the `i`th packet of `src` to this batch, copying the bytes it owns.
    ///
    /// Both batches must be backed by buffers of the same size, and the packet must start
    /// after every packet of this batch. The batch stays contiguous only if the packet starts
    /// where the previous one ends; a batch that was empty becomes contiguous.
    pub fn push_packet_from(&mut self, src: &RawBatch, i: usize)
        requires
            old(self).wf(),
            src.wf(),
            i < src.layouts().len(),
            old(self).bytes().len() == src.bytes().len(),
            old(self).layouts().len() > 0 ==> old(self).layouts().last().spec_stride_end()
                <= src.layouts()[i as int].offset,
        ensures
            final(self).wf(),
            final(self).layouts() == old(self).layouts().push(src.layouts()[i as int]),
            final(self).bytes() == splice(
                old(self).bytes(),
                src.bytes(),
                src.layouts()[i as int].offset as int,
                src.layouts()[i as int].spec_stride_end(),
            ),
            final(self).is_contiguous() == if old(self).layouts().len() == 0 {
                true
            } else {
                old(self).is_contiguous() && src.layouts()[i as int].offset
                    == old(self).layouts().last().spec_stride_end()
            },
            final(self).packets() == old(self).packets().push(src.packets()[i as int]),
    {
        let layout = src.layouts[i];
        assert(src.layouts()[i as int] == layout);
        let n: usize = self.layouts.len();
        let contiguous = if n == 0 {
            true
        } else if layout.offset != self.layouts[n - 1].stride_end() {
            false
        } else {
            self.contiguous
        };
        let lo: usize = layout.offset;
        let hi: usize = layout.stride_end();
        let mut p: usize = lo;
        while p < hi
            invariant
                lo <= p <= hi,
                hi <= src.bytes().len(),
                old(self).bytes().len() == src.bytes().len(),
                self.buf.data@.len() == old(self).bytes().len(),
                self.layouts@ == old(self).layouts(),
                forall|q: int|
                    0 <= q < self.buf.data@.len() ==> #[trigger] self.buf.data@[q] == if lo <= q < p {
                        src.bytes()[q]
                    } else {
                        old(self).bytes()[q]
                    },
            decreases hi - p,
        {
            let b: u8 = src.buf.data[p];
            self.buf.data.set(p, b);
            p = p + 1;
        }
        self.layouts.push(layout);
        self.contiguous = contiguous;
        proof {
            let ls = self.layouts@;
            let old_ls = old(self).layouts();
            assert(self.buf.data@ =~= splice(old(self).bytes(), src.bytes(), lo as int, hi as int));
            assert forall|a: int, b: int| 0 <= a < b < ls.len() implies (#[trigger] ls[a]).spec_stride_end()
                <= (#[trigger] ls[b]).offset by {
                if b == n && a < n {
                    assert(ls[a] == old_ls[a]);
                    if a < n - 1 {
                        assert(ls[n - 1] == old_ls[n - 1]);
                    }
                }
            }
            assert forall|a: int| 0 <= a < ls.len() implies (#[trigger] ls[a]).spec_stride_end()
                <= self.buf.data@.len() by {
                if a < n {
                    assert(ls[a] == old_ls[a]);
                }
            }
            if self.contiguous {
                assert forall|a: int| 1 <= a < ls.len() implies #[trigger] linked_at(ls, a) by {
                    if a < n {
                        assert(linked_at(old_ls, a));
                    }
                }
            }
            let np = self.packets();
            let op = old(self).packets().push(src.packets()[i as int]);
            assert forall|a: int| 0 <= a < np.len() implies #[trigger] np[a] == op[a] by {
                if a < n {
                    assert(ls[a] == old_ls[a]);
                    assert(old_ls[a].spec_stride_end() <= old_ls[n - 1].spec_stride_end()) by {
                        if a < n - 1 {
                            assert(old_ls[a].spec_stride_end() <= old_ls[n - 1].offset);
                        }
                    }
                    assert(self.packet_stride_bytes(a) =~= old(self).packet_stride_bytes(a));
                } else {
                    assert(self.packet_stride_bytes(a) =~= src.packet_stride_bytes(i as int));
                }
            }
            assert(np =~= op);
        }
    }

    /// The layout of the `i`th packet.
    pub(crate) fn layout_at(&self, i: usize) -> (r: &PacketLayout)
        requires
            i < self.layouts().len(),
        ensures
            *r == self.layouts()[i as int],
    {
        &self.layouts[i]
    }

    /// Move `delta` bytes between the `i`th packet's in-use bytes and its post-padding.
    pub(crate) fn resize_back_at(&mut self, i: usize, delta: isize)
        requires
            old(self).wf(),
            i < old(self).layouts().len(),
            old(self).layouts()[i as int].can_resize_back(delta as int),
        ensures
            final(self).wf(),
            final(self).bytes() == old(self).bytes(),
            final(self).is_contiguous() == old(self).is_contiguous(),
            final(self).layouts() == old(self).layouts().update(
                i as int,
                old(self).layouts()[i as int].resized_back(delta as int),
            ),
    {
        let mut l = self.layouts[i];
        l.resize_back(delta);
        self.layouts.set(i, l);
        proof {
            lemma_same_strides_keep_wf(*old(self), *self, i as int);
        }
    }

    /// Move `delta` bytes between the `i`th packet's in-use bytes and its pre-padding.
    pub(crate) fn resize_front_at(&mut self, i: usize, delta: isize)
        requires
            old(self).wf(),
            i < old(self).layouts().len(),
            old(self).layouts()[i as int].can_resize_front(delta as int),
        ensures
            final(self).wf(),
            final(self).bytes() == old(self).bytes(),
            final(self).is_contiguous() == old(self).is_contiguous(),
            final(self).layouts() == old(self).layouts().update(
                i as int,
                old(self).layouts()[i as int].resized_front(delta as int),
            ),
    {
        let mut l = self.layouts[i];
        l.resize_front(delta);
        self.layouts.set(i, l);
        proof {
            lemma_same_strides_keep_wf(*old(self), *self, i as int);
        }
    }

    /// Overwrite the `i`th packet's in-use bytes from position `at` on with `src`.
    pub(crate) fn write_packet(&mut self, i: usize, at: usize, src: &[u8])
        requires
            old(self).wf(),
            i < old(self).layouts().len(),
            at + src@.len() <= old(self).layouts()[i as int].packet_len,
        ensures
            final(self).wf(),
            final(self).layouts() == old(self).layouts(),
            final(self).is_contiguous() == old(self).is_contiguous(),
            final(self).bytes() == overwrite(
                old(self).bytes(),
                old(self).layouts()[i as int].spec_start() + at,
                src@,
            ),
    {
        let l = self.layouts[i];
        assert(self.layouts()[i as int] == l);
        let base: usize = l.start() + at;
        let n: usize = src.len();
        let mut k: usize = 0;
        while k < n
            invariant
                k <= n,
                n == src@.len(),
                base == l.spec_start() + at,
                base + n <= old(self).bytes().len(),
                old(self).bytes().len() <= usize::MAX,
                self.layouts@ == old(self).layouts(),
                self.contiguous == old(self).is_contiguous(),
                self.buf.data@.len() == old(self).bytes().len(),
                forall|p: int|
                    0 <= p < self.buf.data@.len() ==> #[trigger] self.buf.data@[p] == if base <= p < base + k {
                        src@[p - base]
                    } else {
                        old(self).bytes()[p]
                    },
            decreases n - k,
        {
            self.buf.data.set(base + k, src[k]);
            k = k + 1;
        }
        assert(self.buf.data@ =~= overwrite(old(self).bytes(), base as int, src@));
    }

    /// Whether `l` may be placed in the bytes this batch owns: inside the batch's byte range
    /// for a contiguous batch, otherwise on owned bytes only (a layout without bytes still
    /// needs its position to be owned).
    pub open spec fn can_hold(&self, l: PacketLayout) -> bool {
        if self.is_contiguous() {
            l.spec_is_within(self.layouts()[0].offset as int, self.layouts().last().spec_stride_end())
        } else {
            forall|p: int|
                (p == l.offset || l.offset <= p < l.spec_stride_end()) ==> #[trigger] owns(
                    self.layouts(),
                    p,
                )
        }
    }

    /// Whether [`resegment`](Self::resegment) accepts `new`: an empty batch can only be
    /// resegmented into no packets; otherwise the new layouts must be ordered, must not
    /// overlap, and each must fit in the bytes the batch owns.
    pub open spec fn is_valid_resegment(&self, new: Seq<PacketLayout>) -> bool {
        if self.layouts().len() == 0 {
            new.len() == 0
        } else {
            &&& layouts_ordered(new)
            &&& forall|k: int| 0 <= k < new.len() ==> #[trigger] self.can_hold(new[k])
        }
    }

    /// Checks `new` against the bytes owned by the batch, stepping through each maximal run of
    /// linked layouts. Returns `None` if `new` is not a valid resegmentation, otherwise whether
    /// the new layouts leave no gaps.
    fn check_resegment(&self, new: &Vec<PacketLayout>) -> (r: Option<bool>)
        requires
            self.wf(),
            self.layouts().len() > 0,
            new@.len() > 0,
        ensures
            r is Some <==> self.is_valid_resegment(new@),
            r is Some ==> r.unwrap() == layouts_gap_free(new@),
    {
        let ghost ls = self.layouts@;
        let ghost nl = new@;
        let m: usize = new.len();
        let n_old: usize = self.layouts.len();
        assert forall|j: int| 0 <= j < ls.len() implies (#[trigger] ls[j]).fits() by {
            assert(ls[j].spec_stride_end() <= self.bytes().len());
        }
        let mut contiguous: bool = true;
        if self.contiguous {
            let range = self.contiguous_range().unwrap();
            let lo: usize = range.start;
            let hi: usize = range.end;
            let mut start: usize = lo;
            let mut k: usize = 0;
            while k < m
                invariant
                    self.wf(),
                    self.is_contiguous(),
                    ls == self.layouts(),
                    nl == new@,
                    m == nl.len(),
                    lo == ls[0].offset,
                    hi == ls.last().spec_stride_end(),
                    k <= m,
                    k == 0 ==> start == lo,
                    lo <= start,
                    k > 0 ==> start == nl[k - 1].spec_stride_end(),
                    layouts_ordered(nl.take(k as int)),
                    forall|j: int| 0 <= j < k ==> #[trigger] self.can_hold(nl[j]),
                    contiguous == layouts_gap_free(nl.take(k as int)),
                decreases m - k,
            {
                let l = &new[k];
                assert(nl[k as int] == *l);
                if l.offset < start {
                    proof {
                        if k > 0 {
                            assert(nl[k - 1].spec_stride_end() > nl[k as int].offset);
                        } else {
                            assert(!self.can_hold(nl[0]));
                        }
                    }
                    return None;
                }
                let end = checked_stride_end(l);
                match end {
                    None => {
                        assert(!self.can_hold(nl[k as int]));
                        return None;
                    },
                    Some(e) => {
                        if e > hi {
                            assert(!self.can_hold(nl[k as int]));
                            return None;
                        }
                        proof {
                            assert(nl.take(k + 1) == nl.take(k as int).push(nl[k as int]));
                            lemma_ordered_push(nl.take(k as int), nl[k as int]);
                            lemma_gap_free_push(nl.take(k as int), nl[k as int]);
                            assert(self.can_hold(nl[k as int]));
                        }
                        if k > 0 {
                            contiguous = contiguous && l.offset == start;
                        }
                        start = e;
                    },
                }
                k = k + 1;
            }
            assert(nl.take(m as int) == nl);
            return Some(contiguous);
        }
        // New layouts may span several old layouts, as long as those old layouts are linked,
        // so step through each maximal run of linked layouts rather than through the layouts.
        let first_run = next_run(&self.layouts, 0);
        let mut range_start: usize = first_run.0;
        let mut range_end: usize = first_run.1;
        let mut cur: usize = first_run.2;
        let ghost mut rs: int = 0;
        let mut prev_end: usize = new[0].offset;
        let mut k: usize = 0;
        while k < m
            invariant
                self.wf(),
                !self.is_contiguous(),
                ls == self.layouts(),
                nl == new@,
                m == nl.len(),
                n_old == ls.len(),
                forall|j: int| 0 <= j < ls.len() ==> (#[trigger] ls[j]).fits(),
                k <= m,
                0 <= rs < cur <= n_old,
                range_end == ls[cur - 1].spec_stride_end(),
                forall|j: int| rs < j < cur ==> #[trigger] linked_at(ls, j),
                cur < n_old ==> !linked_at(ls, cur as int),
                ls[rs].offset <= range_start <= range_end,
                k == 0 ==> rs == 0 && range_start == ls[0].offset && prev_end == nl[0].offset,
                k > 0 ==> range_start == nl[k - 1].spec_stride_end() && prev_end == range_start,
                layouts_ordered(nl.take(k as int)),
                forall|j: int| 0 <= j < k ==> #[trigger] self.can_hold(nl[j]),
                contiguous == layouts_gap_free(nl.take(k as int)),
            decreases m - k,
        {
            let l = &new[k];
            assert(nl[k as int] == *l);
            let ghost mut advanced: bool = false;
            while l.offset >= range_end
                invariant
                    self.wf(),
                    !self.is_contiguous(),
                    ls == self.layouts(),
                    nl == new@,
                    m == nl.len(),
                    n_old == ls.len(),
                    forall|j: int| 0 <= j < ls.len() ==> (#[trigger] ls[j]).fits(),
                    k < m,
                    nl[k as int] == *l,
                    0 <= rs < cur <= n_old,
                    range_end == ls[cur - 1].spec_stride_end(),
                    forall|j: int| rs < j < cur ==> #[trigger] linked_at(ls, j),
                    cur < n_old ==> !linked_at(ls, cur as int),
                    ls[rs].offset <= range_start <= range_end,
                    !advanced && k == 0 ==> rs == 0 && range_start == ls[0].offset,
                    !advanced && k > 0 ==> range_start == nl[k - 1].spec_stride_end(),
                    advanced ==> {
                        &&& rs > 0
                        &&& range_start == ls[rs].offset
                        &&& ls[rs - 1].spec_stride_end() <= l.offset
                        &&& k > 0 ==> nl[k - 1].spec_stride_end() <= ls[rs - 1].spec_stride_end()
                    },
                    k == 0 ==> prev_end == nl[0].offset,
                    k > 0 ==> prev_end == nl[k - 1].spec_stride_end(),
                decreases n_old - cur,
            {
                if cur >= n_old {
                    proof {
                        lemma_not_owned_between(ls, n_old as int, l.offset as int);
                        assert(!self.can_hold(nl[k as int]));
                    }
                    return None;
                }
                let next = next_run(&self.layouts, cur);
                proof {
                    if k > 0 && !advanced {
                        assert(nl[k - 1].spec_stride_end() <= ls[cur - 1].spec_stride_end());
                    }
                    if k > 0 && advanced {
                        assert(ls[rs - 1].spec_stride_end() <= ls[cur - 1].spec_stride_end()) by {
                            if rs - 1 < cur - 1 {
                                assert(ls[rs - 1].spec_stride_end() <= ls[cur - 1].offset);
                            }
                        }
                    }
                    assert(ls[cur - 1].spec_stride_end() <= ls[cur as int].offset);
                    rs = cur as int;
                    advanced = true;
                }
                range_start = next.0;
                range_end = next.1;
                cur = next.2;
            }
            if l.offset < range_start {
                proof {
                    if advanced {
                        lemma_not_owned_between(ls, rs, l.offset as int);
                        assert(!self.can_hold(nl[k as int]));
                    } else if k == 0 {
                        lemma_not_owned_between(ls, 0, l.offset as int);
                        assert(!self.can_hold(nl[k as int]));
                    } else {
                        assert(nl[k - 1].spec_stride_end() > nl[k as int].offset);
                    }
                }
                return None;
            }
            let end = checked_stride_end(l);
            let e: usize = match end {
                None => {
                    proof {
                        if cur < n_old {
                            assert(ls[cur - 1].spec_stride_end() <= ls[cur as int].offset);
                        }
                        lemma_not_owned_between(ls, cur as int, range_end as int);
                        assert(!owns(ls, range_end as int));
                        assert(!self.can_hold(nl[k as int]));
                    }
                    return None;
                },
                Some(e) => e,
            };
            if e > range_end {
                proof {
                    if cur < n_old {
                        assert(ls[cur - 1].spec_stride_end() <= ls[cur as int].offset);
                    }
                    lemma_not_owned_between(ls, cur as int, range_end as int);
                    assert(!owns(ls, range_end as int));
                    assert(!self.can_hold(nl[k as int]));
                }
                return None;
            }
            proof {
                assert forall|p: int|
                    (p == l.offset || l.offset <= p < l.spec_stride_end()) implies #[trigger] owns(
                    ls,
                    p,
                ) by {
                    lemma_run_owns(ls, rs, cur - 1, p);
                }
                assert(self.can_hold(nl[k as int]));
                if k > 0 && advanced {
                    assert(ls[rs - 1].spec_stride_end() <= ls[rs].offset);
                }
                assert(nl.take(k + 1) == nl.take(k as int).push(nl[k as int]));
                lemma_ordered_push(nl.take(k as int), nl[k as int]);
                lemma_gap_free_push(nl.take(k as int), nl[k as int]);
            }
            contiguous = contiguous && l.offset == prev_end;
            prev_end = e;
            range_start = e;
            k = k + 1;
        }
        assert(nl.take(m as int) == nl);
        Some(contiguous)
    }

    /// Whether [`resegment`](Self::resegment) accepts `layouts`; see
    /// [`is_valid_resegment`](Self::is_valid_resegment).
    pub fn can_resegment(&self, layouts: &Vec<PacketLayout>) -> (r: bool)
        requires
            self.wf(),
        ensures
            r == self.is_valid_resegment(layouts@),
    {
        if self.layouts.len() == 0 {
            layouts.len() == 0
        } else if layouts.len() == 0 {
            true
        } else {
            self.check_resegment(layouts).is_some()
        }
    }

    /// Redistribute the batch's bytes into the given packet layouts.
    ///
    /// The new layouts can only use bytes covered by the existing layouts (see
    /// [`is_valid_resegment`](Self::is_valid_resegment)). They may abandon bytes of the old
    /// layouts, which makes them permanently inaccessible.
    pub fn resegment(self, layouts: Vec<PacketLayout>) -> (r: RawBatch)
        requires
            self.wf(),
            self.is_valid_resegment(layouts@),
        ensures
            r.wf(),
            r.bytes() == self.bytes(),
            r.layouts() == layouts@,
            r.is_contiguous() == (layouts@.len() > 0 && layouts_gap_free(layouts@)),
    {
        if self.layouts.len() == 0 {
            return self;
        }
        if layouts.len() == 0 {
            // An empty batch over the same buffer.
            return RawBatch { buf: self.buf, layouts, contiguous: false };
        }
        let contiguous: bool = self.check_resegment(&layouts).unwrap();
        proof {
            let ls = self.layouts();
            let nl = layouts@;
            assert forall|k: int| 0 <= k < nl.len() implies (#[trigger] nl[k]).spec_stride_end()
                <= self.bytes().len() by {
                assert(self.can_hold(nl[k]));
                if !self.is_contiguous() {
                    let p = if nl[k].spec_stride() > 0 {
                        nl[k].spec_stride_end() - 1
                    } else {
                        nl[k].offset as int
                    };
                    assert(owns(ls, p));
                    let j = choose|j: int| 0 <= j < ls.len() && (#[trigger] ls[j]).offset <= p < ls[j].spec_stride_end();
                    assert(ls[j].spec_stride_end() <= self.bytes().len());
                } else {
                    assert(ls.last().spec_stride_end() <= self.bytes().len());
                }
            }
        }
        RawBatch { buf: self.buf, layouts, contiguous }
    }

    /// The bytes owned by the batch's packets, packet after packet.
    pub open spec fn owned_bytes(&self) -> Seq<u8> {
        stride_bytes_upto(self.bytes(), self.layouts(), self.layouts().len() as int)
    }

    /// The batch's layouts moved next to each other from position 0 on.
    pub open spec fn packed_layouts(&self) -> Seq<PacketLayout> {
        Seq::new(
            self.layouts().len(),
            |k: int|
                PacketLayout {
                    offset: stride_prefix(self.layouts(), k) as usize,
                    ..self.layouts()[k]
                },
        )
    }

    /// Make a deep copy of the batch into a new buffer, which holds the bytes owned by the
    /// packets one after the other.
    pub fn deep_copy(&self) -> (r: RawBatch)
        requires
            self.wf(),
        ensures
            r.wf(),
            r.bytes() == self.owned_bytes(),
            r.layouts() == self.packed_layouts(),
            r.is_contiguous() == (self.layouts().len() > 0),
            forall|i: int| 0 <= i < self.layouts().len() ==> #[trigger] r.packet_data(i) == self.packet_data(i),
    {
        let ghost ls = self.layouts();
        let ghost bytes = self.bytes();
        let n: usize = self.layouts.len();
        proof {
            lemma_stride_bytes_len(bytes, ls, n as int);
        }
        let buf: Buffer;
        let range = self.contiguous_range();
        if range.is_some() {
            let range = range.unwrap();
            proof {
                lemma_stride_bytes_contiguous(bytes, ls, n as int);
            }
            buf = Buffer::from_slice(self.buf.index(range));
        } else {
            let mut data: Vec<u8> = Vec::new();
            let mut i: usize = 0;
            while i < n
                invariant
                    self.wf(),
                    ls == self.layouts(),
                    bytes == self.bytes(),
                    n == ls.len(),
                    i <= n,
                    data@ == stride_bytes_upto(bytes, ls, i as int),
                decreases n - i,
            {
                let layout = &self.layouts[i];
                assert(ls[i as int] == *layout);
                let lo: usize = layout.offset;
                let hi: usize = layout.stride_end();
                let mut p: usize = lo;
                let ghost before = data@;
                while p < hi
                    invariant
                        lo <= p <= hi,
                        hi <= bytes.len(),
                        bytes == self.bytes(),
                        data@ == before + bytes.subrange(lo as int, p as int),
                    decreases hi - p,
                {
                    data.push(self.buf.data[p]);
                    p = p + 1;
                    assert(before + bytes.subrange(lo as int, p as int) =~= data@);
                }
                i = i + 1;
            }
            buf = Buffer { data };
        }
        let mut layouts: Vec<PacketLayout> = Vec::new();
        let mut offset: usize = 0;
        let mut i: usize = 0;
        while i < n
            invariant
                self.wf(),
                ls == self.layouts(),
                n == ls.len(),
                i <= n,
                bytes == self.bytes(),
                offset == stride_prefix(ls, i as int),
                layouts@ == self.packed_layouts().take(i as int),
            decreases n - i,
        {
            let layout = self.layouts[i];
            proof {
                assert(ls[i as int] == layout);
                lemma_stride_prefix_fits(ls, i + 1, bytes.len() as int);
                lemma_stride_prefix_fits(ls, i as int, bytes.len() as int);
                assert(ls[i as int].spec_stride_end() <= bytes.len());
            }
            layouts.push(PacketLayout { offset, ..layout });
            offset = offset + layout.stride();
            i = i + 1;
            assert(layouts@ =~= self.packed_layouts().take(i as int));
        }
        proof {
            let pl = self.packed_layouts();
            assert(layouts@ =~= pl);
            assert(buf.data@ == stride_bytes_upto(bytes, ls, n as int));
            assert forall|a: int| 0 <= a < pl.len() implies (#[trigger] pl[a]).offset == stride_prefix(ls, a)
                && pl[a].spec_stride_end() == stride_prefix(ls, a + 1) by {
                lemma_stride_prefix_fits(ls, a, bytes.len() as int);
            }
            assert forall|a: int, b: int| 0 <= a < b < pl.len() implies (#[trigger] pl[a]).spec_stride_end()
                <= (#[trigger] pl[b]).offset by {
                lemma_stride_prefix_mono(ls, a + 1, b);
            }
            assert forall|a: int| 0 <= a < pl.len() implies (#[trigger] pl[a]).spec_stride_end()
                <= buf.data@.len() by {
                lemma_stride_prefix_mono(ls, a + 1, n as int);
            }
            assert forall|a: int| 1 <= a < pl.len() implies #[trigger] linked_at(pl, a) by {}
        }
        let r = RawBatch { buf, layouts, contiguous: n > 0 };
        proof {
            assert forall|i: int| 0 <= i < ls.len() implies #[trigger] r.packet_data(i) == self.packet_data(i) by {
                lemma_stride_bytes_piece(bytes, ls, n as int, i);
                lemma_stride_prefix_fits(ls, i, bytes.len() as int);
                let piece = bytes.subrange(ls[i].offset as int, ls[i].spec_stride_end());
                let pre = ls[i].pre_padding as int;
                let len = ls[i].packet_len as int;
                assert(r.packet_data(i) =~= piece.subrange(pre, pre + len));
                assert(self.packet_data(i) =~= piece.subrange(pre, pre + len));
            }
        }
        r
    }
}

impl Batch for RawBatch {
    type Metadata = ();

    open spec fn raw_view(&self) -> RawBatch {
        *self
    }

    open spec fn has_metadata(&self, i: int) -> bool {
        true
    }

    open spec fn metadata(&self, i: int) -> () {
        ()
    }

    fn as_raw(&self) -> (r: &RawBatch) {
        self
    }

    fn as_raw_mut(&mut self) -> (r: &mut RawBatch) {
        self
    }

    fn get_metadata(&self, _i: usize) -> (r: Option<()>) {
        Some(())
    }

    fn empty_clone(&self) -> (r: RawBatch) {
        let r = RawBatch { buf: Buffer::new(self.buf.data.len()), layouts: Vec::new(), contiguous: false };
        assert(r.layouts() == Seq::<PacketLayout>::empty());
        assert(r.raw_view() == r);
        r
    }
}

} // verus!
