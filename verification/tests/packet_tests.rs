use tailscale::{BasicBatch, Batch, Buffer, PacketLayout, RawBatch, RawBatchBuilder};

fn mkvec(r: std::ops::Range<u8>) -> Vec<u8> {
    r.collect()
}

fn check_packets(b: &RawBatch, packets: Vec<Vec<u8>>) {
    assert_eq!(b.len(), packets.len());
    let mut it = b.iter();
    for want in packets {
        let got = it.next().unwrap();
        assert_eq!(got.data, &want[..]);
    }
    assert!(it.next().is_none());
}

#[test]
fn test_packet_layout() {
    let mut layout = PacketLayout {
        offset: 12,
        pre_padding: 34,
        packet_len: 56,
        post_padding: 78,
    };
    assert_eq!(layout.stride(), 34 + 56 + 78);
    assert_eq!(layout.stride_range(), 12..12 + layout.stride());
    assert_eq!(layout.start(), 12 + 34);
    assert_eq!(layout.end(), layout.start() + 56);
    assert_eq!(layout.range(), layout.start()..layout.end());
    assert!(layout.is_within(0..200));
    assert!(!layout.is_within(200..400));
    assert!(layout.is_within(layout.stride_range()));

    // Grow/shrink changes the active range, but not stride.
    let len = layout.packet_len;
    let stride = layout.stride();

    layout.resize_back(10);
    assert_eq!(layout.packet_len, len + 10);
    assert_eq!(layout.stride(), stride);

    layout.resize_front(10);
    assert_eq!(layout.packet_len, len + 20);
    assert_eq!(layout.stride(), stride);

    layout.resize_front(-5);
    assert_eq!(layout.packet_len, len + 15);
    assert_eq!(layout.stride(), stride);

    layout.resize_back(-5);
    assert_eq!(layout.packet_len, len + 10);
    assert_eq!(layout.stride(), stride);
}

#[test]
fn test_batch_builder() {
    let bb: RawBatchBuilder = RawBatchBuilder::new(1000);
    let b = bb.finish();
    assert!(b.is_empty());

    let mut buf = Buffer::new(100);
    buf.data.copy_from_slice(&mkvec(0..100));
    let mut bb: RawBatchBuilder = RawBatchBuilder::from_buffer(buf);
    bb.push_layout(PacketLayout::new(0, 50));
    bb.push_layout(PacketLayout::new(50, 10));
    bb.push_layout(PacketLayout::new(80, 15));
    let b = bb.finish();
    check_packets(&b, vec![mkvec(0..50), mkvec(50..60), mkvec(80..95)]);
}

#[test]
fn test_resegment() {
    let mut bb: RawBatchBuilder = RawBatchBuilder::new(100);
    bb.push_layout(PacketLayout::new(0, 100));
    let mut b = bb.finish();
    b.index_mut(0).copy_from_slice(&mkvec(0..100));
    let layouts = vec![
        PacketLayout::new(0, 50),
        PacketLayout::new(50, 10),
        PacketLayout::new(80, 15),
    ];
    assert!(b.can_resegment(&layouts));
    let b = b.resegment(layouts);
    check_packets(&b, vec![mkvec(0..50), mkvec(50..60), mkvec(80..95)]);
}

#[test]
fn test_deep_copy() {
    let mut bb: RawBatchBuilder = RawBatchBuilder::new(100);
    bb.push_layout(PacketLayout::new(0, 100));
    let b = bb.finish();

    let mut b2 = b.deep_copy();
    b2.index_mut(0).fill(42);

    assert_ne!(b.index(0).data, b2.index(0).data);
}

#[test]
fn test_split_at() {
    let mut buf = Buffer::new(100);
    buf.data.copy_from_slice(&mkvec(0..100));
    let mut bb: RawBatchBuilder = RawBatchBuilder::from_buffer(buf);
    bb.push_layout(PacketLayout::new(0, 50));
    bb.push_layout(PacketLayout::new(50, 50));
    let b = bb.finish();

    let (mut b1, b2) = b.split_at(1);
    check_packets(&b1, vec![mkvec(0..50)]);
    check_packets(&b2, vec![mkvec(50..100)]);

    b1.index_mut(0).fill(42);
    check_packets(&b1, vec![vec![42; 50]]);
    check_packets(&b2, vec![mkvec(50..100)]);
}

#[test]
fn group_by_tens_digit() {
    let mut buf = Buffer::new(100);
    buf.data.copy_from_slice(&mkvec(0..100));
    let mut bb: RawBatchBuilder = RawBatchBuilder::from_buffer(buf);
    for i in 0..10 {
        bb.push_layout(PacketLayout::new(i * 10, 10));
    }
    let b = bb.finish();

    // An admittedly contrived split by whether the value of the packet's first byte has an
    // even tens digit (e.g. 25, 41, ...)
    let even_tens_digit = b.group_by(|_i, packet| {
        let first_byte = packet.data[0];
        let tens_digit_is_even = (first_byte / 10) % 2 == 0;
        u64::from(tens_digit_is_even)
    });

    check_packets(
        &even_tens_digit[&0],
        vec![
            mkvec(10..20),
            mkvec(30..40),
            mkvec(50..60),
            mkvec(70..80),
            mkvec(90..100),
        ],
    );
    check_packets(
        &even_tens_digit[&1],
        vec![
            mkvec(0..10),
            mkvec(20..30),
            mkvec(40..50),
            mkvec(60..70),
            mkvec(80..90),
        ],
    );
}

#[test]
fn partition_by_tens_digit() {
    let mut buf = Buffer::new(100);
    buf.data.copy_from_slice(&mkvec(0..100));
    let mut bb: RawBatchBuilder = RawBatchBuilder::from_buffer(buf);
    for i in 0..10 {
        bb.push_layout(PacketLayout::new(i * 10, 10));
    }
    let b = bb.finish();
    let (even, odd) = b.partition(|_i, packet| (packet.data[0] / 10) % 2 == 0);
    check_packets(&odd, vec![mkvec(10..20), mkvec(30..40), mkvec(50..60), mkvec(70..80), mkvec(90..100)]);
    check_packets(&even, vec![mkvec(0..10), mkvec(20..30), mkvec(40..50), mkvec(60..70), mkvec(80..90)]);
}

#[test]
fn group_by_three_keys_in_key_order() {
    let mut buf = Buffer::new(60);
    buf.data.copy_from_slice(&mkvec(0..60));
    let mut bb: RawBatchBuilder = RawBatchBuilder::from_buffer(buf);
    for i in 0..6 {
        bb.push_layout(PacketLayout::new(i * 10, 10));
    }
    let b = bb.finish();
    let groups = b.group_by(|i, _packet| (7 - i as u64) % 3);
    assert_eq!(groups.keys().copied().collect::<Vec<u64>>(), vec![0, 1, 2]);
    check_packets(&groups[&1], vec![mkvec(0..10), mkvec(30..40)]);
    check_packets(&groups[&0], vec![mkvec(10..20), mkvec(40..50)]);
    check_packets(&groups[&2], vec![mkvec(20..30), mkvec(50..60)]);
}

#[test]
fn test_packet_reshape_mut() {
    let mut buf = Buffer::new(100);
    buf.data.copy_from_slice(&mkvec(0..100));
    let mut bb: RawBatchBuilder = RawBatchBuilder::from_buffer(buf);
    bb.push_layout(PacketLayout::with_padding(0, 50, 25, 25));
    let mut b = bb.finish();

    assert_eq!(b.len(), 1);
    assert_eq!(b.index(0).data, &mkvec(25..75));

    let mut packet = b.index_mut(0);
    assert_eq!(packet.data(), &mkvec(25..75));
    packet.resize_back(10);
    assert_eq!(packet.data(), &mkvec(25..85));
    packet.resize_back(-5);
    assert_eq!(packet.data(), &mkvec(25..80));
    packet.resize_front(10);
    assert_eq!(packet.data(), &mkvec(15..80));
    packet.resize_front(-5);
    assert_eq!(packet.data(), &mkvec(20..80));

    // Resize in each dimension up to exactly the allowed amount.
    packet.resize_back(20);
    assert_eq!(packet.layout().packet_len, 80);
    assert_eq!(packet.layout().post_padding, 0);
    packet.resize_back(-80);
    assert_eq!(packet.layout().packet_len, 0);
    assert_eq!(packet.layout().post_padding, 80);
    packet.resize_front(20);
    assert_eq!(packet.layout().packet_len, 20);
    assert_eq!(packet.layout().pre_padding, 0);
    packet.resize_front(-20);
    assert_eq!(packet.layout().packet_len, 0);
    assert_eq!(packet.layout().pre_padding, 20);
}

#[test]
fn new_single_holds_one_zeroed_packet() {
    let b = BasicBatch::new_single(16);
    assert_eq!(b.len(), 1);
    assert_eq!(b.index(0).data, &[0u8; 16][..]);
}

#[test]
fn append_and_prepend_use_padding() {
    let mut bb = RawBatchBuilder::new(20);
    bb.push_layout(PacketLayout::with_padding(0, 4, 3, 3));
    let mut b = bb.finish();
    let mut p = b.index_mut(0);
    p.copy_from_slice(&[1, 2, 3, 4]);
    p.append_bytes(&[5, 6]);
    p.prepend_bytes(&[0]);
    assert_eq!(p.data(), &[0, 1, 2, 3, 4, 5, 6]);
    assert_eq!(p.layout().pre_padding, 2);
    assert_eq!(p.layout().post_padding, 1);
    assert_eq!(p.layout().stride(), 10);
}

#[test]
fn resegment_across_linked_layouts_of_a_gapped_batch() {
    let mut buf = Buffer::new(100);
    buf.data.copy_from_slice(&mkvec(0..100));
    let mut bb = RawBatchBuilder::from_buffer(buf);
    bb.push_layout(PacketLayout::new(10, 10));
    bb.push_layout(PacketLayout::new(20, 10));
    bb.push_layout(PacketLayout::new(50, 10));
    let b = bb.finish();
    // Spans the two linked layouts at 10..30.
    assert!(b.can_resegment(&vec![PacketLayout::new(15, 10), PacketLayout::new(52, 3)]));
    // Crosses the gap at 30..50.
    assert!(!b.can_resegment(&vec![PacketLayout::new(25, 10)]));
    // Out of order.
    assert!(!b.can_resegment(&vec![PacketLayout::new(52, 3), PacketLayout::new(15, 10)]));
    let b = b.resegment(vec![PacketLayout::new(15, 10), PacketLayout::new(52, 3)]);
    check_packets(&b, vec![mkvec(15..25), mkvec(52..55)]);
}

#[test]
fn deep_copy_packs_packets() {
    let mut buf = Buffer::new(100);
    buf.data.copy_from_slice(&mkvec(0..100));
    let mut bb = RawBatchBuilder::from_buffer(buf);
    bb.push_layout(PacketLayout::with_padding(10, 2, 1, 1));
    bb.push_layout(PacketLayout::new(40, 3));
    let b = bb.finish();
    let c = b.deep_copy();
    check_packets(&c, vec![mkvec(11..13), mkvec(40..43)]);
    let mut it = c.iter();
    assert_eq!(it.next().unwrap().data, &[11, 12]);
}

#[test]
fn retain_keeps_matching_packets_in_order() {
    let mut buf = Buffer::new(30);
    buf.data.copy_from_slice(&mkvec(0..30));
    let mut bb = RawBatchBuilder::from_buffer(buf);
    for i in 0..3 {
        bb.push_layout(PacketLayout::new(i * 10, 10));
    }
    let b = BasicBatch::from(bb.finish());
    let kept = b.retain(|i, _p| i != 1);
    check_packets(&kept.raw, vec![mkvec(0..10), mkvec(20..30)]);
}

#[test]
fn iterator_collect_yields_every_packet_then_nothing() {
    let mut buf = Buffer::new(30);
    buf.data.copy_from_slice(&mkvec(0..30));
    let mut bb: RawBatchBuilder = RawBatchBuilder::from_buffer(buf);
    for i in 0..3 {
        bb.push_layout(PacketLayout::new(i * 10, 10));
    }
    let b = bb.finish();
    let mut it = b.iter();
    assert_eq!(it.next().unwrap().data, &mkvec(0..10)[..]);
    let rest = it.collect();
    assert_eq!(rest.len(), 2);
    assert_eq!(rest[0].data, &mkvec(10..20)[..]);
    assert_eq!(rest[1].data, &mkvec(20..30)[..]);
    assert!(it.next().is_none());
    assert!(it.collect().is_empty());
}

#[test]
fn writing_one_packet_leaves_the_others() {
    let mut buf = Buffer::new(30);
    buf.data.copy_from_slice(&mkvec(0..30));
    let mut bb: RawBatchBuilder = RawBatchBuilder::from_buffer(buf);
    bb.push_layout(PacketLayout::new(0, 10));
    bb.push_layout(PacketLayout::with_padding(10, 6, 2, 2));
    bb.push_layout(PacketLayout::new(20, 10));
    let mut b = bb.finish();
    b.index_mut(1).fill(0xff);
    b.index_mut(1).append_bytes(&[1, 2]);
    b.index_mut(1).prepend_bytes(&[3, 4]);
    check_packets(&b, vec![mkvec(0..10), vec![3, 4, 0xff, 0xff, 0xff, 0xff, 0xff, 0xff, 1, 2], mkvec(20..30)]);
    b.index_mut(0).copy_from_slice(&[9; 10]);
    check_packets(&b, vec![vec![9; 10], vec![3, 4, 0xff, 0xff, 0xff, 0xff, 0xff, 0xff, 1, 2], mkvec(20..30)]);
}
