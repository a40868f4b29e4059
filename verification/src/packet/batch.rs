//! Packets as seen through a batch, and the operations every batch type offers.
use std::collections::BTreeMap;
use vstd::prelude::*;

use super::layout::PacketLayout;
use super::raw::{layouts_gap_free, overwrite, RawBatch};

verus! {

/// The elements of `s` whose flag in `keep` is set, in order.
pub open spec fn select<A>(s: Seq<A>, keep: Seq<bool>) -> Seq<A>
    decreases s.len(),
{
    if s.len() == 0 {
        Seq::empty()
    } else {
        let rest = select(s.drop_last(), keep.drop_last());
        if keep.last() {
            rest.push(s.last())
        } else {
            rest
        }
    }
}

/// The flags of `keep`, negated.
pub open spec fn negate(keep: Seq<bool>) -> Seq<bool> {
    keep.map_values(|b: bool| !b)
}

proof fn lemma_select_step<A>(s: Seq<A>, keep: Seq<bool>, i: int, b: bool)
    requires
        0 <= i < s.len(),
        keep.len() == i,
    ensures
        select(s.take(i + 1), keep.push(b)) == if b {
            select(s.take(i), keep).push(s[i])
        } else {
            select(s.take(i), keep)
        },
{
    assert(s.take(i + 1).drop_last() =~= s.take(i));
    assert(keep.push(b).drop_last() =~= keep);
}

/// A read-only view of a [`Batch`]'s packet.
#[derive(Clone)]
pub struct Packet<'batch, Metadata> {
    /// The packet's in-use bytes, without its pre- or post-padding.
    pub data: &'batch [u8],
    /// The packet's metadata.
    pub meta: Metadata,
}

/// A mutable view of a [`Batch`]'s packet: the batch and the packet's position in it.
///
/// Reshaping goes through the methods, which keep the batch's invariant.
pub struct PacketMut<'batch, Metadata> {
    /// The raw batch holding the packet.
    pub batch: &'batch mut RawBatch,
    /// The position of the packet in the batch.
    pub index: usize,
    /// The packet's metadata.
    pub meta: Metadata,
}

impl<'batch, Metadata> PacketMut<'batch, Metadata> {
    /// The view refers to an existing packet of a well-formed batch.
    pub open spec fn wf(&self) -> bool {
        self.batch.wf() && self.index < self.batch.layouts().len()
    }

    /// The packet's layout in the batch's buffer.
    pub open spec fn layout_view(&self) -> PacketLayout {
        self.batch.layouts()[self.index as int]
    }

    /// The packet's in-use bytes.
    pub open spec fn data_view(&self) -> Seq<u8> {
        self.batch.packet_data(self.index as int)
    }

    /// Return the packet's layout in the batch's underlying buffer.
    pub fn layout(&self) -> (r: &PacketLayout)
        requires
            self.wf(),
        ensures
            *r == self.layout_view(),
    {
        self.batch.layout_at(self.index)
    }

    /// The packet's in-use bytes.
    pub fn data(&self) -> (r: &[u8])
        requires
            self.wf(),
        ensures
            r@ == self.data_view(),
    {
        self.batch.get_data(self.index).unwrap()
    }

    /// Change `packet_len` by `delta` by changing the amount of post-padding.
    ///
    /// The packet's bytes stay where they are; the newly visible bytes are whatever the
    /// buffer holds there.
    pub fn resize_back(&mut self, delta: isize)
        requires
            old(self).wf(),
            old(self).layout_view().can_resize_back(delta as int),
        ensures
            final(self).wf(),
            final(self).index == old(self).index,
            final(self).meta == old(self).meta,
            *final(final(self).batch) == *final(old(self).batch),
            final(self).batch.bytes() == old(self).batch.bytes(),
            final(self).batch.is_contiguous() == old(self).batch.is_contiguous(),
            final(self).batch.layouts() == old(self).batch.layouts().update(
                old(self).index as int,
                old(self).layout_view().resized_back(delta as int),
            ),
            final(self).data_view() == old(self).batch.bytes().subrange(
                old(self).layout_view().spec_start(),
                old(self).layout_view().spec_end() + delta,
            ),
    {
        self.batch.resize_back_at(self.index, delta);
    }

    /// Change `packet_len` by `delta` by changing the amount of pre-padding.
    ///
    /// The packet's bytes stay where they are; the newly visible bytes are whatever the
    /// buffer holds there.
    pub fn resize_front(&mut self, delta: isize)
        requires
            old(self).wf(),
            old(self).layout_view().can_resize_front(delta as int),
        ensures
            final(self).wf(),
            final(self).index == old(self).index,
            final(self).meta == old(self).meta,
            *final(final(self).batch) == *final(old(self).batch),
            final(self).batch.bytes() == old(self).batch.bytes(),
            final(self).batch.is_contiguous() == old(self).batch.is_contiguous(),
            final(self).batch.layouts() == old(self).batch.layouts().update(
                old(self).index as int,
                old(self).layout_view().resized_front(delta as int),
            ),
            final(self).data_view() == old(self).batch.bytes().subrange(
                old(self).layout_view().spec_start() - delta,
                old(self).layout_view().spec_end(),
            ),
    {
        self.batch.resize_front_at(self.index, delta);
    }

    /// Append `bytes` to the packet, consuming `bytes.len()` bytes of post-padding.
    pub fn append_bytes(&mut self, bytes: &[u8])
        requires
            old(self).wf(),
            bytes@.len() <= old(self).layout_view().post_padding,
            bytes@.len() <= isize::MAX,
        ensures
            final(self).wf(),
            final(self).index == old(self).index,
            final(self).meta == old(self).meta,
            *final(final(self).batch) == *final(old(self).batch),
            final(self).layout_view() == old(self).layout_view().resized_back(bytes@.len() as int),
            final(self).data_view() == old(self).data_view() + bytes@,
            final(self).batch.layouts() == old(self).batch.layouts().update(
                old(self).index as int,
                old(self).layout_view().resized_back(bytes@.len() as int),
            ),
            final(self).batch.bytes() == overwrite(old(self).batch.bytes(), old(self).layout_view().spec_end(), bytes@),
            final(self).batch.is_contiguous() == old(self).batch.is_contiguous(),
    {
        let old_len: usize = self.layout().packet_len;
        self.resize_back(bytes.len() as isize);
        self.batch.write_packet(self.index, old_len, bytes);
        proof {
            let l = self.layout_view();
            assert(self.data_view() =~= old(self).data_view() + bytes@);
        }
    }

    /// Prepend `bytes` to the packet, consuming `bytes.len()` bytes of pre-padding.
    pub fn prepend_bytes(&mut self, bytes: &[u8])
        requires
            old(self).wf(),
            bytes@.len() <= old(self).layout_view().pre_padding,
            bytes@.len() <= isize::MAX,
        ensures
            final(self).wf(),
            final(self).index == old(self).index,
            final(self).meta == old(self).meta,
            *final(final(self).batch) == *final(old(self).batch),
            final(self).layout_view() == old(self).layout_view().resized_front(bytes@.len() as int),
            final(self).data_view() == bytes@ + old(self).data_view(),
            final(self).batch.layouts() == old(self).batch.layouts().update(
                old(self).index as int,
                old(self).layout_view().resized_front(bytes@.len() as int),
            ),
            final(self).batch.bytes() == overwrite(
                old(self).batch.bytes(),
                old(self).layout_view().spec_start() - bytes@.len(),
                bytes@,
            ),
            final(self).batch.is_contiguous() == old(self).batch.is_contiguous(),
    {
        self.resize_front(bytes.len() as isize);
        self.batch.write_packet(self.index, 0, bytes);
        proof {
            assert(self.data_view() =~= bytes@ + old(self).data_view());
        }
    }

    /// Overwrite the packet's in-use bytes with `src`, which must have the same length.
    pub fn copy_from_slice(&mut self, src: &[u8])
        requires
            old(self).wf(),
            src@.len() == old(self).data_view().len(),
        ensures
            final(self).wf(),
            final(self).index == old(self).index,
            final(self).meta == old(self).meta,
            *final(final(self).batch) == *final(old(self).batch),
            final(self).batch.layouts() == old(self).batch.layouts(),
            final(self).data_view() == src@,
            final(self).batch.bytes() == overwrite(old(self).batch.bytes(), old(self).layout_view().spec_start(), src@),
            final(self).batch.is_contiguous() == old(self).batch.is_contiguous(),
    {
        self.batch.write_packet(self.index, 0, src);
        proof {
            assert(self.data_view() =~= src@);
        }
    }

    /// Set every in-use byte of the packet to `value`.
    pub fn fill(&mut self, value: u8)
        requires
            old(self).wf(),
        ensures
            final(self).wf(),
            final(self).index == old(self).index,
            final(self).meta == old(self).meta,
            *final(final(self).batch) == *final(old(self).batch),
            final(self).batch.layouts() == old(self).batch.layouts(),
            final(self).data_view() == Seq::new(old(self).data_view().len(), |i: int| value),
            final(self).batch.bytes() == overwrite(
                old(self).batch.bytes(),
                old(self).layout_view().spec_start(),
                Seq::new(old(self).data_view().len(), |i: int| value),
            ),
            final(self).batch.is_contiguous() == old(self).batch.is_contiguous(),
    {
        let n: usize = self.layout().packet_len;
        let mut v: Vec<u8> = Vec::new();
        let mut k: usize = 0;
        while k < n
            invariant
                k <= n,
                v@ == Seq::new(k as nat, |i: int| value),
            decreases n - k,
        {
            v.push(value);
            k = k + 1;
        }
        self.batch.write_packet(self.index, 0, v.as_slice());
        proof {
            assert(self.data_view() =~= Seq::new(old(self).data_view().len(), |i: int| value));
        }
    }

    /// Turn the mutable view into a read-only one.
    pub fn into_packet(self) -> (r: Packet<'batch, Metadata>)
        requires
            self.wf(),
        ensures
            r.data@ == self.data_view(),
            r.meta == self.meta,
    {
        let PacketMut { batch, index, meta } = self;
        let b: &'batch RawBatch = batch;
        Packet { data: b.get_data(index).unwrap(), meta }
    }
}

/// The packet `(i, data)` was handed to `f`, which answered `b`.
pub open spec fn decided<M, F: Fn(usize, Packet<M>) -> bool>(
    f: F,
    i: int,
    data: Seq<u8>,
    b: bool,
) -> bool {
    exists|p: Packet<M>| p.data@ == data && #[trigger] call_ensures(f, (i as usize, p), b)
}

/// The packet `(i, data)` was handed to `f`, which answered the key `k`.
pub open spec fn keyed<M, F: Fn(usize, Packet<M>) -> u64>(f: F, i: int, data: Seq<u8>, k: u64) -> bool {
    exists|p: Packet<M>| p.data@ == data && #[trigger] call_ensures(f, (i as usize, p), k)
}

/// The flags that mark the packets whose key is `k`.
pub open spec fn key_flags(keys: Seq<u64>, k: u64) -> Seq<bool> {
    Seq::new(keys.len(), |i: int| keys[i] == k)
}

/// `b` is the group of the packets of `src` whose key is `k`: a well-formed batch over a
/// buffer of the same size, holding those packets in order.
pub open spec fn grouped(b: RawBatch, src: RawBatch, keys: Seq<u64>, k: u64) -> bool {
    &&& b.wf()
    &&& b.bytes().len() == src.bytes().len()
    &&& b.packets() == select(src.packets(), key_flags(keys, k))
    &&& b.is_contiguous() == (b.layouts().len() > 0 && layouts_gap_free(b.layouts()))
}

/// `b` holds, as `grouped` says, the packets before the `i`th whose key is `k`, and its last
/// layout is one of those packets'.
pub open spec fn grouped_upto(b: RawBatch, src: RawBatch, keys: Seq<u64>, k: u64, i: int) -> bool {
    &&& b.wf()
    &&& b.bytes().len() == src.bytes().len()
    &&& b.packets() == select(src.packets().take(i), key_flags(keys, k))
    &&& b.is_contiguous() == (b.layouts().len() > 0 && layouts_gap_free(b.layouts()))
    &&& b.layouts().len() > 0 ==> exists|j: int| 0 <= j < i && b.layouts().last() == #[trigger] src.layouts()[j]
}

/// `u64` keys are ordered as the integers they are, so maps keyed by them behave as maps.
pub open spec fn u64_keys_ordered() -> bool {
    vstd::laws_cmp::obeys_cmp::<u64>()
}

proof fn lemma_u64_keys_ordered()
    ensures
        u64_keys_ordered(),
{
    broadcast use vstd::laws_cmp::group_laws_cmp;
}

/// Selecting with no flag set selects nothing.
proof fn lemma_select_none<A>(s: Seq<A>, keep: Seq<bool>)
    requires
        s.len() == keep.len(),
        forall|i: int| 0 <= i < keep.len() ==> !#[trigger] keep[i],
    ensures
        select(s, keep) == Seq::<A>::empty(),
    decreases s.len(),
{
    if s.len() > 0 {
        assert(!keep[keep.len() - 1]);
        lemma_select_none(s.drop_last(), keep.drop_last());
    }
}

/// A batch of packets, and operations on them.
pub trait Batch: Sized {
    /// The type for per-packet metadata.
    type Metadata;

    /// The raw batch that holds the packets.
    spec fn raw_view(&self) -> RawBatch;

    /// Whether the `i`th packet has metadata.
    spec fn has_metadata(&self, i: int) -> bool;

    /// The metadata of the `i`th packet, where it has some.
    spec fn metadata(&self, i: int) -> Self::Metadata;

    /// The raw batch that holds the packets.
    fn as_raw(&self) -> (r: &RawBatch)
        ensures
            *r == self.raw_view(),
    ;

    /// The raw batch that holds the packets, for changing them.
    fn as_raw_mut(&mut self) -> (r: &mut RawBatch)
        ensures
            *r == old(self).raw_view(),
            final(self).raw_view() == *final(r),
    ;

    /// Return metadata for the `i`th packet in the batch.
    fn get_metadata(&self, i: usize) -> (r: Option<Self::Metadata>)
        ensures
            r is Some <==> self.has_metadata(i as int),
            r is Some ==> r.unwrap() == self.metadata(i as int),
    ;

    /// Return a batch over a buffer of the same size that holds no packets.
    fn empty_clone(&self) -> (r: Self)
        requires
            self.raw_view().wf(),
        ensures
            r.raw_view().wf(),
            r.raw_view().layouts().len() == 0,
            r.raw_view().bytes().len() == self.raw_view().bytes().len(),
            !r.raw_view().is_contiguous(),
    ;

    /// Return the number of packets in the batch.
    fn len(&self) -> (r: usize)
        ensures
            r == self.raw_view().layouts().len(),
    {
        self.as_raw().len()
    }

    /// Report whether the batch is empty.
    fn is_empty(&self) -> (r: bool)
        ensures
            r == (self.raw_view().layouts().len() == 0),
    {
        self.len() == 0
    }

    /// Get a reference to the `i`th packet in the batch.
    fn get(&self, i: usize) -> (r: Option<Packet<'_, Self::Metadata>>)
        requires
            self.raw_view().wf(),
        ensures
            r is Some <==> (self.has_metadata(i as int) && i < self.raw_view().layouts().len()),
            r is Some ==> r.unwrap().data@ == self.raw_view().packet_data(i as int),
            r is Some ==> r.unwrap().meta == self.metadata(i as int),
    {
        let meta = self.get_metadata(i)?;
        let data = self.as_raw().get_data(i)?;
        Some(Packet { data, meta })
    }

    /// Get a mutable reference to the `i`th packet in the batch.
    fn get_mut(&mut self, i: usize) -> (r: Option<PacketMut<'_, Self::Metadata>>)
        requires
            old(self).raw_view().wf(),
        ensures
            r is Some <==> (old(self).has_metadata(i as int) && i < old(self).raw_view().layouts().len()),
            r is Some ==> {
                &&& *r.unwrap().batch == old(self).raw_view()
                &&& r.unwrap().index == i
                &&& r.unwrap().wf()
                &&& r.unwrap().meta == old(self).metadata(i as int)
                &&& final(self).raw_view() == *final(r.unwrap().batch)
            },
            r is None ==> final(self).raw_view() == old(self).raw_view(),
    {
        let meta = match self.get_metadata(i) {
            Some(m) => m,
            None => return None,
        };
        if i >= self.len() {
            return None;
        }
        let batch = self.as_raw_mut();
        Some(PacketMut { batch, index: i, meta })
    }

    /// Get a reference to the `i`th packet in the batch, which must exist.
    fn index(&self, i: usize) -> (r: Packet<'_, Self::Metadata>)
        requires
            self.raw_view().wf(),
            i < self.raw_view().layouts().len(),
            self.has_metadata(i as int),
        ensures
            r.data@ == self.raw_view().packet_data(i as int),
            r.meta == self.metadata(i as int),
    {
        self.get(i).unwrap()
    }

    /// Get a mutable reference to the `i`th packet in the batch, which must exist.
    fn index_mut(&mut self, i: usize) -> (r: PacketMut<'_, Self::Metadata>)
        requires
            old(self).raw_view().wf(),
            i < old(self).raw_view().layouts().len(),
            old(self).has_metadata(i as int),
        ensures
            *r.batch == old(self).raw_view(),
            r.index == i,
            r.wf(),
            r.meta == old(self).metadata(i as int),
            final(self).raw_view() == *final(r.batch),
    {
        self.get_mut(i).unwrap()
    }

    /// Return an iterator over the packets in the batch.
    fn iter(&self) -> (r: BatchIterator<'_, Self>)
        ensures
            r.batch_view() == *self,
            r.position() == 0,
    {
        BatchIterator::new(self)
    }

    /// Split the batch in two at `idx`: the packets before it, and the others.
    fn split_at(self, idx: usize) -> (r: (Self, Self))
        requires
            self.raw_view().wf(),
            idx <= self.raw_view().layouts().len(),
        ensures
            r.0.raw_view().wf(),
            r.1.raw_view().wf(),
            r.0.raw_view().packets() == self.raw_view().packets().take(idx as int),
            r.1.raw_view().packets() == self.raw_view().packets().skip(idx as int),
            r.0.raw_view().is_contiguous() == (idx > 0 && layouts_gap_free(r.0.raw_view().layouts())),
            r.1.raw_view().is_contiguous() == (idx < self.raw_view().layouts().len()
                && layouts_gap_free(r.1.raw_view().layouts())),
    {
        let n: usize = self.len();
        let mut first = self.empty_clone();
        let mut second = self.empty_clone();
        let ghost src = self.raw_view();
        let mut i: usize = 0;
        while i < n
            invariant
                src == self.raw_view(),
                src.wf(),
                n == src.layouts().len(),
                idx <= n,
                i <= n,
                first.raw_view().wf(),
                second.raw_view().wf(),
                first.raw_view().bytes().len() == src.bytes().len(),
                second.raw_view().bytes().len() == src.bytes().len(),
                first.raw_view().packets() == src.packets().take(if i < idx { i as int } else { idx as int }),
                second.raw_view().packets() == src.packets().subrange(idx as int, if i < idx { idx as int } else { i as int }),
                first.raw_view().is_contiguous() == (first.raw_view().layouts().len() > 0
                    && layouts_gap_free(first.raw_view().layouts())),
                second.raw_view().is_contiguous() == (second.raw_view().layouts().len() > 0
                    && layouts_gap_free(second.raw_view().layouts())),
            decreases n - i,
        {
            if i < idx {
                let ghost before = first.raw_view();
                proof {
                    lemma_last_before(src, before, i as int);
                }
                first.as_raw_mut().push_packet_from(self.as_raw(), i);
                proof {
                    lemma_gap_free_after_push(before, first.raw_view(), src, i as int);
                    assert(first.raw_view().packets() =~= src.packets().take(i + 1));
                }
            } else {
                let ghost before = second.raw_view();
                proof {
                    lemma_last_before(src, before, i as int);
                }
                second.as_raw_mut().push_packet_from(self.as_raw(), i);
                proof {
                    lemma_gap_free_after_push(before, second.raw_view(), src, i as int);
                    assert(second.raw_view().packets() =~= src.packets().subrange(idx as int, i + 1));
                }
            }
            i = i + 1;
        }
        proof {
            assert(src.packets().subrange(idx as int, n as int) =~= src.packets().skip(idx as int));
            assert(first.raw_view().layouts().len() == first.raw_view().packets().len());
            assert(second.raw_view().layouts().len() == second.raw_view().packets().len());
        }
        (first, second)
    }

    /// Split the batch into a map of keys to batches of the matching packets, in order;
    /// `f` provides the key of each packet.
    fn group_by(self, f: impl Fn(usize, Packet<'_, Self::Metadata>) -> u64) -> (r: BTreeMap<u64, Self>)
        requires
            self.raw_view().wf(),
            forall|i: usize, p: Packet<Self::Metadata>| call_requires(f, (i, p)),
            forall|i: int| 0 <= i < self.raw_view().layouts().len() ==> #[trigger] self.has_metadata(i),
        ensures
            exists|keys: Seq<u64>|
                {
                    &&& keys.len() == self.raw_view().layouts().len()
                    &&& forall|i: int|
                        0 <= i < keys.len() ==> #[trigger] keyed(f, i, self.raw_view().packet_data(i), keys[i])
                    &&& r@.dom() == keys.to_set()
                    &&& forall|k: u64| #[trigger]
                        r@.contains_key(k) ==> grouped(r@[k].raw_view(), self.raw_view(), keys, k)
                },
    {
        proof {
            lemma_u64_keys_ordered();
        }
        broadcast use vstd::std_specs::btree::group_btree_axioms;

        let n: usize = self.len();
        let mut groups: BTreeMap<u64, Self> = BTreeMap::new();
        let ghost src = self.raw_view();
        let ghost mut keys: Seq<u64> = Seq::empty();
        let mut i: usize = 0;
        proof {
            assert(keys.to_set() =~= Set::<u64>::empty());
        }
        while i < n
            invariant
                u64_keys_ordered(),
                src == self.raw_view(),
                src.wf(),
                n == src.layouts().len(),
                i <= n,
                keys.len() == i,
                forall|i: usize, p: Packet<Self::Metadata>| call_requires(f, (i, p)),
                forall|j: int| 0 <= j < n ==> #[trigger] self.has_metadata(j),
                forall|j: int| 0 <= j < i ==> #[trigger] keyed(f, j, src.packet_data(j), keys[j]),
                groups@.dom() == keys.to_set(),
                forall|k: u64| #[trigger]
                    groups@.contains_key(k) ==> grouped_upto(groups@[k].raw_view(), src, keys, k, i as int),
            decreases n - i,
        {
            let packet = self.index(i);
            let ghost p = packet;
            let k: u64 = f(i, packet);
            proof {
                assert(call_ensures(f, ((i as int) as usize, p), k));
                assert(keyed(f, i as int, src.packet_data(i as int), k));
            }
            let ghost old_groups = groups@;
            let mut b = match groups.remove(&k) {
                Some(b) => b,
                None => {
                    let e = self.empty_clone();
                    proof {
                        assert forall|j: int| 0 <= j < i implies !#[trigger] key_flags(keys, k)[j] by {
                            if keys[j] == k {
                                assert(keys.to_set().contains(k));
                            }
                        }
                        lemma_select_none(src.packets().take(i as int), key_flags(keys, k));
                        assert(e.raw_view().packets() =~= Seq::<(PacketLayout, Seq<u8>)>::empty());
                    }
                    e
                },
            };
            assert(groups@ == old_groups.remove(k));
            let ghost before = b.raw_view();
            proof {
                assert(before.packets() == select(src.packets().take(i as int), key_flags(keys, k)));
                lemma_last_from_earlier(src, before, i as int);
            }
            b.as_raw_mut().push_packet_from(self.as_raw(), i);
            proof {
                lemma_gap_free_after_push(before, b.raw_view(), src, i as int);
                assert(b.raw_view().layouts().last() == src.layouts()[i as int]);
            }
            groups.insert(k, b);
            assert(groups@ == old_groups.remove(k).insert(k, b));
            proof {
                let nk = keys.push(k);
                keys.lemma_push_to_set_commute(k);
                assert forall|q: u64| #[trigger] key_flags(nk, q) =~= key_flags(keys, q).push(k == q) by {}
                assert forall|q: u64| #[trigger] groups@.contains_key(q) implies grouped_upto(
                    groups@[q].raw_view(),
                    src,
                    nk,
                    q,
                    i + 1,
                ) by {
                    lemma_select_step(src.packets(), key_flags(keys, q), i as int, k == q);
                    assert(key_flags(nk, q) == key_flags(keys, q).push(k == q));
                    if q != k {
                        assert(old_groups.contains_key(q));
                        assert(groups@[q] == old_groups[q]);
                        let g = groups@[q].raw_view();
                        if g.layouts().len() > 0 {
                            let j = choose|j: int| 0 <= j < i && g.layouts().last() == #[trigger] src.layouts()[j];
                            assert(0 <= j < i + 1 && g.layouts().last() == src.layouts()[j]);
                        }
                    } else {
                        assert(groups@[q] == b);
                        assert(0 <= i < i + 1 && b.raw_view().layouts().last() == src.layouts()[i as int]);
                    }
                    lemma_select_len(src.packets().take(i + 1), key_flags(nk, q));
                }
                assert(groups@.dom() =~= nk.to_set());
                assert forall|j: int| 0 <= j < i + 1 implies #[trigger] keyed(f, j, src.packet_data(j), nk[j]) by {
                    if j < i {
                        assert(nk[j] == keys[j]);
                    }
                }
                keys = nk;
            }
            i = i + 1;
        }
        proof {
            assert(src.packets().take(n as int) =~= src.packets());
            assert forall|k: u64| #[trigger] groups@.contains_key(k) implies grouped(groups@[k].raw_view(), src, keys, k) by {
                assert(grouped_upto(groups@[k].raw_view(), src, keys, k, n as int));
            }
        }
        groups
    }

    /// Return a batch containing only the packets for which `f` returns true.
    fn retain(self, f: impl Fn(usize, Packet<'_, Self::Metadata>) -> bool) -> (r: Self)
        requires
            self.raw_view().wf(),
            forall|i: usize, p: Packet<Self::Metadata>| call_requires(f, (i, p)),
            forall|i: int| 0 <= i < self.raw_view().layouts().len() ==> #[trigger] self.has_metadata(i),
        ensures
            r.raw_view().wf(),
            r.raw_view().bytes().len() == self.raw_view().bytes().len(),
            r.raw_view().is_contiguous() == (r.raw_view().layouts().len() > 0 && layouts_gap_free(
                r.raw_view().layouts(),
            )),
            exists|keep: Seq<bool>|
                {
                    &&& keep.len() == self.raw_view().layouts().len()
                    &&& forall|i: int|
                        0 <= i < keep.len() ==> #[trigger] decided(
                            f,
                            i,
                            self.raw_view().packet_data(i),
                            keep[i],
                        )
                    &&& r.raw_view().packets() == select(self.raw_view().packets(), keep)
                },
    {
        let (kept, _dropped) = self.partition(f);
        kept
    }

    /// Split the batch in two: the packets for which `f` returns `true`, and the others.
    fn partition(self, f: impl Fn(usize, Packet<'_, Self::Metadata>) -> bool) -> (r: (Self, Self))
        requires
            self.raw_view().wf(),
            forall|i: usize, p: Packet<Self::Metadata>| call_requires(f, (i, p)),
            forall|i: int| 0 <= i < self.raw_view().layouts().len() ==> #[trigger] self.has_metadata(i),
        ensures
            r.0.raw_view().wf(),
            r.1.raw_view().wf(),
            r.0.raw_view().bytes().len() == self.raw_view().bytes().len(),
            r.1.raw_view().bytes().len() == self.raw_view().bytes().len(),
            r.0.raw_view().is_contiguous() == (r.0.raw_view().layouts().len() > 0 && layouts_gap_free(
                r.0.raw_view().layouts(),
            )),
            r.1.raw_view().is_contiguous() == (r.1.raw_view().layouts().len() > 0 && layouts_gap_free(
                r.1.raw_view().layouts(),
            )),
            exists|keep: Seq<bool>|
                {
                    &&& keep.len() == self.raw_view().layouts().len()
                    &&& forall|i: int|
                        0 <= i < keep.len() ==> #[trigger] decided(
                            f,
                            i,
                            self.raw_view().packet_data(i),
                            keep[i],
                        )
                    &&& r.0.raw_view().packets() == select(self.raw_view().packets(), keep)
                    &&& r.1.raw_view().packets() == select(self.raw_view().packets(), negate(keep))
                },
    {
        let n: usize = self.len();
        let mut yes = self.empty_clone();
        let mut no = self.empty_clone();
        let ghost src = self.raw_view();
        let ghost mut keep: Seq<bool> = Seq::empty();
        let mut i: usize = 0;
        while i < n
            invariant
                src == self.raw_view(),
                src.wf(),
                n == src.layouts().len(),
                i <= n,
                keep.len() == i,
                forall|i: usize, p: Packet<Self::Metadata>| call_requires(f, (i, p)),
                forall|j: int| 0 <= j < n ==> #[trigger] self.has_metadata(j),
                forall|j: int| 0 <= j < i ==> #[trigger] decided(f, j, src.packet_data(j), keep[j]),
                yes.raw_view().wf(),
                no.raw_view().wf(),
                yes.raw_view().bytes().len() == src.bytes().len(),
                no.raw_view().bytes().len() == src.bytes().len(),
                yes.raw_view().packets() == select(src.packets().take(i as int), keep),
                no.raw_view().packets() == select(src.packets().take(i as int), negate(keep)),
                yes.raw_view().layouts().len() > 0 ==> exists|j: int|
                    0 <= j < i && yes.raw_view().layouts().last() == #[trigger] src.layouts()[j],
                no.raw_view().layouts().len() > 0 ==> exists|j: int|
                    0 <= j < i && no.raw_view().layouts().last() == #[trigger] src.layouts()[j],
                yes.raw_view().is_contiguous() == (yes.raw_view().layouts().len() > 0
                    && layouts_gap_free(yes.raw_view().layouts())),
                no.raw_view().is_contiguous() == (no.raw_view().layouts().len() > 0
                    && layouts_gap_free(no.raw_view().layouts())),
            decreases n - i,
        {
            let packet = self.index(i);
            let ghost p = packet;
            let b: bool = f(i, packet);
            proof {
                assert(call_ensures(f, ((i as int) as usize, p), b));
                assert(decided(f, i as int, src.packet_data(i as int), b));
                assert(negate(keep.push(b)) =~= negate(keep).push(!b));
                lemma_select_step(src.packets(), keep, i as int, b);
                lemma_select_step(src.packets(), negate(keep), i as int, !b);
            }
            if b {
                let ghost before = yes.raw_view();
                proof {
                    lemma_last_from_earlier(src, before, i as int);
                }
                yes.as_raw_mut().push_packet_from(self.as_raw(), i);
                proof {
                    lemma_gap_free_after_push(before, yes.raw_view(), src, i as int);
                    assert(yes.raw_view().layouts().last() == src.layouts()[i as int]);
                }
            } else {
                let ghost before = no.raw_view();
                proof {
                    lemma_last_from_earlier(src, before, i as int);
                }
                no.as_raw_mut().push_packet_from(self.as_raw(), i);
                proof {
                    lemma_gap_free_after_push(before, no.raw_view(), src, i as int);
                    assert(no.raw_view().layouts().last() == src.layouts()[i as int]);
                }
            }
            proof {
                keep = keep.push(b);
                assert forall|j: int| 0 <= j < i + 1 implies #[trigger] decided(f, j, src.packet_data(j), keep[j]) by {
                    if j < i {
                        assert(keep[j] == keep.drop_last()[j]);
                    }
                }
            }
            i = i + 1;
        }
        proof {
            assert(src.packets().take(n as int) =~= src.packets());
            lemma_select_len(src.packets(), keep);
            lemma_select_len(src.packets(), negate(keep));
        }
        (yes, no)
    }
}

/// Splitting by flags loses and duplicates nothing: the two sides together hold exactly the
/// elements of `s`, as many of each as `s` has.
pub proof fn lemma_partition_covers<A>(s: Seq<A>, keep: Seq<bool>)
    requires
        keep.len() == s.len(),
    ensures
        select(s, keep).len() + select(s, negate(keep)).len() == s.len(),
        select(s, keep).to_multiset().add(select(s, negate(keep)).to_multiset()) == s.to_multiset(),
    decreases s.len(),
{
    broadcast use vstd::seq_lib::group_to_multiset_ensures;

    if s.len() > 0 {
        let t = s.drop_last();
        let k = keep.drop_last();
        assert(negate(keep).drop_last() =~= negate(k));
        lemma_partition_covers(t, k);
        assert(s =~= t.push(s.last()));
        assert(select(s, keep).to_multiset().add(select(s, negate(keep)).to_multiset()) =~= s.to_multiset());
    } else {
        assert(s.to_multiset() =~= vstd::multiset::Multiset::empty());
        assert(select(s, keep).to_multiset().add(select(s, negate(keep)).to_multiset()) =~= s.to_multiset());
    }
}

/// The two halves of a split, put back together, are the batch's packets.
pub proof fn lemma_split_rejoins<A>(s: Seq<A>, idx: int)
    requires
        0 <= idx <= s.len(),
    ensures
        s.take(idx) + s.skip(idx) == s,
{
    assert(s.take(idx) + s.skip(idx) =~= s);
}

/// The packets of a batch keep the length of its layouts.
proof fn lemma_select_len<A>(s: Seq<A>, keep: Seq<bool>)
    ensures
        select(s, keep).len() <= s.len(),
    decreases s.len(),
{
    if s.len() > 0 {
        lemma_select_len(s.drop_last(), keep.drop_last());
    }
}

/// A batch that holds a prefix of `src` can take packet `i` of `src` next.
proof fn lemma_last_before(src: RawBatch, dst: RawBatch, i: int)
    requires
        src.wf(),
        0 <= i < src.layouts().len(),
        dst.packets().len() <= i,
        dst.packets() == src.packets().subrange(i - dst.packets().len(), i),
    ensures
        dst.layouts().len() > 0 ==> dst.layouts().last().spec_stride_end() <= src.layouts()[i].offset,
{
    if dst.layouts().len() > 0 {
        let k = dst.layouts().len() - 1;
        assert(dst.packets()[k] == src.packets()[i - 1]);
        assert(dst.packets()[k].0 == dst.layouts()[k]);
        assert(src.packets()[i - 1].0 == src.layouts()[i - 1]);
        assert(src.layouts()[i - 1].spec_stride_end() <= src.layouts()[i].offset);
    }
}

/// A batch whose last layout came from an earlier packet of `src` can take packet `i`.
proof fn lemma_last_from_earlier(src: RawBatch, dst: RawBatch, i: int)
    requires
        src.wf(),
        0 <= i < src.layouts().len(),
        dst.layouts().len() > 0 ==> exists|j: int|
            0 <= j < i && dst.layouts().last() == #[trigger] src.layouts()[j],
    ensures
        dst.layouts().len() > 0 ==> dst.layouts().last().spec_stride_end() <= src.layouts()[i].offset,
{
    if dst.layouts().len() > 0 {
        let j = choose|j: int| 0 <= j < i && dst.layouts().last() == #[trigger] src.layouts()[j];
        assert(src.layouts()[j].spec_stride_end() <= src.layouts()[i].offset);
    }
}

/// Pushing a packet keeps the flag equal to "non-empty and gap-free".
proof fn lemma_gap_free_after_push(before: RawBatch, after: RawBatch, src: RawBatch, i: int)
    requires
        0 <= i < src.layouts().len(),
        after.layouts() == before.layouts().push(src.layouts()[i]),
        before.is_contiguous() == (before.layouts().len() > 0 && layouts_gap_free(before.layouts())),
        after.is_contiguous() == if before.layouts().len() == 0 {
            true
        } else {
            before.is_contiguous() && src.layouts()[i].offset == before.layouts().last().spec_stride_end()
        },
    ensures
        after.is_contiguous() == (after.layouts().len() > 0 && layouts_gap_free(after.layouts())),
{
    super::raw::lemma_gap_free_push(before.layouts(), src.layouts()[i]);
}

/// Over a batch whose packets all have metadata, a run of the iterator (as `collect` does it)
/// ends only at the end of the batch: it yields every packet, in order, and then nothing.
pub proof fn lemma_run_reaches_end<B: Batch>(b: B, end: int)
    requires
        forall|k: int| 0 <= k < b.raw_view().layouts().len() ==> #[trigger] b.has_metadata(k),
        0 <= end <= b.raw_view().layouts().len(),
        end < b.raw_view().layouts().len() ==> !b.has_metadata(end),
    ensures
        end == b.raw_view().layouts().len(),
{
}

/// Iterator over a batch's packets.
pub struct BatchIterator<'batch, B> {
    batch: &'batch B,
    position: usize,
}

impl<'batch, B> BatchIterator<'batch, B> {
    /// The batch being iterated over.
    pub closed spec fn batch_view(&self) -> B {
        *self.batch
    }

    /// The index of the next packet.
    pub closed spec fn position(&self) -> int {
        self.position as int
    }

    /// Return an iterator for the given batch.
    pub fn new(batch: &'batch B) -> (r: BatchIterator<'batch, B>)
        ensures
            r.batch_view() == *batch,
            r.position() == 0,
    {
        BatchIterator { batch, position: 0 }
    }
}

impl<'batch, B: Batch> BatchIterator<'batch, B> {

    /// The next packet, if there is one.
    pub fn next(&mut self) -> (r: Option<Packet<'batch, B::Metadata>>)
        requires
            old(self).batch_view().raw_view().wf(),
        ensures
            final(self).batch_view() == old(self).batch_view(),
            r is Some <==> (old(self).batch_view().has_metadata(old(self).position())
                && old(self).position() < old(self).batch_view().raw_view().layouts().len()),
            r is Some ==> r.unwrap().data@ == old(self).batch_view().raw_view().packet_data(old(self).position())
                && r.unwrap().meta == old(self).batch_view().metadata(old(self).position())
                && final(self).position() == old(self).position() + 1,
            r is None ==> final(self).position() == old(self).position(),
    {
        let n: usize = self.batch.len();
        let result = self.batch.get(self.position);
        match result {
            Some(p) => {
                self.position = self.position + 1;
                Some(p)
            },
            None => None,
        }
    }

    /// Run the iterator to its end and collect what it yields: the packets from the current
    /// position on, in order, up to the end of the batch (or a packet without metadata, where
    /// iteration stops). Afterwards `next` yields nothing.
    pub fn collect(&mut self) -> (r: Vec<Packet<'batch, B::Metadata>>)
        requires
            old(self).batch_view().raw_view().wf(),
            0 <= old(self).position() <= old(self).batch_view().raw_view().layouts().len(),
        ensures
            final(self).batch_view() == old(self).batch_view(),
            old(self).position() <= final(self).position() <= old(self).batch_view().raw_view().layouts().len(),
            forall|k: int|
                old(self).position() <= k < final(self).position() ==> #[trigger] old(self).batch_view().has_metadata(k),
            final(self).position() < old(self).batch_view().raw_view().layouts().len()
                ==> !old(self).batch_view().has_metadata(final(self).position()),
            r@.len() == final(self).position() - old(self).position(),
            forall|j: int|
                0 <= j < r@.len() ==> (#[trigger] r@[j]).data@ == old(self).batch_view().raw_view().packet_data(
                    old(self).position() + j,
                ) && r@[j].meta == old(self).batch_view().metadata(old(self).position() + j),
    {
        let mut r: Vec<Packet<'batch, B::Metadata>> = Vec::new();
        let ghost start = self.position();
        let ghost b = self.batch_view();
        loop
            invariant
                self.batch_view() == b,
                b.raw_view().wf(),
                start <= self.position() <= b.raw_view().layouts().len(),
                forall|k: int| start <= k < self.position() ==> #[trigger] b.has_metadata(k),
                r@.len() == self.position() - start,
                forall|j: int| 0 <= j < r@.len() ==> (#[trigger] r@[j]).data@ == b.raw_view().packet_data(start + j)
                    && r@[j].meta == b.metadata(start + j),
            ensures
                self.batch_view() == b,
                start <= self.position() <= b.raw_view().layouts().len(),
                forall|k: int| start <= k < self.position() ==> #[trigger] b.has_metadata(k),
                self.position() < b.raw_view().layouts().len() ==> !b.has_metadata(self.position()),
                r@.len() == self.position() - start,
                forall|j: int| 0 <= j < r@.len() ==> (#[trigger] r@[j]).data@ == b.raw_view().packet_data(start + j)
                    && r@[j].meta == b.metadata(start + j),
            decreases b.raw_view().layouts().len() - self.position(),
        {
            match self.next() {
                Some(p) => {
                    r.push(p);
                },
                None => {
                    break;
                },
            }
        }
        r
    }
}

} // verus!
