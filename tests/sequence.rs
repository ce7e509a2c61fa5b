use netcode::moving_average::MovingAverage;
use netcode::buffer::Buffer;
use netcode::sequence::NetworkSeq;
use netcode::sequence_buffer::SequenceBuffer;
use netcode::packet::{PacketType, SendPacket};
use std::cmp::Ordering;

#[test]
fn wrap_masks_to_the_sequence_space() {
    assert_eq!(NetworkSeq::wrap(0).unwrap(), 0);
    assert_eq!(NetworkSeq::wrap(63).unwrap(), 63);
    assert_eq!(NetworkSeq::wrap(64).unwrap(), 0);
    assert_eq!(NetworkSeq::wrap(0xFFFF).unwrap(), 63);
    assert_eq!(NetworkSeq::wrap(70).index(), 6);
}

#[test]
fn increment_wraps_at_the_end_of_the_space() {
    let mut s = NetworkSeq::wrap(62);
    s.wrapping_increment();
    assert_eq!(s.unwrap(), 63);
    s.wrapping_increment();
    assert_eq!(s.unwrap(), 0);
}

#[test]
fn subtraction_wraps_backwards() {
    assert_eq!(NetworkSeq::wrap(5).wrapping_sub(1).unwrap(), 4);
    assert_eq!(NetworkSeq::wrap(5).wrapping_sub(6).unwrap(), 63);
    assert_eq!(NetworkSeq::wrap(0).wrapping_sub(40).unwrap(), 24);
    assert_eq!(NetworkSeq::wrap(3).wrapping_sub(64 + 3).unwrap(), 0);
}

#[test]
fn modular_order_is_total_on_distinct_values() {
    for a in 0..64u16 {
        for b in 0..64u16 {
            let x = NetworkSeq::wrap(a);
            let y = NetworkSeq::wrap(b);
            if a == b {
                assert_eq!(x.partial_cmp(&y), Some(Ordering::Equal));
            } else {
                assert!(x.precedes(y) != y.precedes(x), "a={a} b={b}");
            }
        }
    }
}

#[test]
fn modular_order_follows_wrap_around() {
    assert!(NetworkSeq::wrap(0).precedes(NetworkSeq::wrap(1)));
    assert!(NetworkSeq::wrap(63).precedes(NetworkSeq::wrap(0)));
    assert!(NetworkSeq::wrap(60).precedes(NetworkSeq::wrap(10)));
    assert!(!NetworkSeq::wrap(10).precedes(NetworkSeq::wrap(60)));
    // exactly half the space apart: the larger value is the later one
    assert!(NetworkSeq::wrap(0).precedes(NetworkSeq::wrap(32)));
    assert!(!NetworkSeq::wrap(32).precedes(NetworkSeq::wrap(0)));
    for s in 0..64u16 {
        for k in 1..32u16 {
            assert!(NetworkSeq::wrap(s).precedes(NetworkSeq::wrap(s + k)));
        }
    }
}

#[test]
fn sequence_buffer_marks_and_clears_slots() {
    let mut b: SequenceBuffer<SendPacket> = SequenceBuffer::new();
    let s = NetworkSeq::wrap(5);
    assert!(!b.contains(s));
    b.mark_valid(s).first_send_time = Some(7);
    assert!(b.contains(s));
    assert_eq!(b.get(s).unwrap().first_send_time, Some(7));
    b.mark_invalid(s);
    assert!(!b.contains(s));
    assert!(b.get(s).is_none());
    assert!(b.get_mut(s).is_none());
}

#[test]
fn sequence_buffer_slot_holds_one_sequence_number() {
    let mut b: SequenceBuffer<SendPacket> = SequenceBuffer::new();
    b.mark_valid(NetworkSeq::wrap(3));
    assert!(b.contains(NetworkSeq::wrap(3)));
    assert!(!b.contains(NetworkSeq::wrap(4)));
    // the payload of a recycled slot is kept
    b.mark_valid(NetworkSeq::wrap(3)).first_send_time = Some(1);
    assert_eq!(b.mark_valid(NetworkSeq::wrap(3)).first_send_time, Some(1));
    b.reset();
    assert!(!b.contains(NetworkSeq::wrap(3)));
}

#[test]
fn buffer_writes_little_endian() {
    let mut b = Buffer::with_capacity(16);
    b.write(0x1234u16);
    b.write(0xA1B2C3D4u32);
    b.write(7u8);
    assert_eq!(b.written_size(), 7);
    assert_eq!(b.written_slice(), &[0x34, 0x12, 0xD4, 0xC3, 0xB2, 0xA1, 7]);
    b.write_at(0xBEEFu16, 0);
    assert_eq!(&b.written_slice()[0..2], &[0xEF, 0xBE]);
    b.reset_reader(7);
    assert_eq!(b.read_size(), 7);
    assert_eq!(b.peek::<u16>(), 0xBEEF);
    assert_eq!(b.read::<u16>(), 0xBEEF);
    assert_eq!(b.read::<u32>(), 0xA1B2C3D4);
    b.pad::<u8>();
    assert_eq!(b.written_size(), 7);
    b.reset_writer();
    assert_eq!(b.read_size(), 16);
    assert_eq!(b.written_size(), 0);
}

#[test]
fn buffer_reads_u64() {
    let mut b = Buffer::with_capacity(8);
    b.write(0x0102030405060708u64);
    assert_eq!(b.written_slice(), &[8, 7, 6, 5, 4, 3, 2, 1]);
    b.reset_reader(8);
    assert_eq!(b.read::<u64>(), 0x0102030405060708);
}

#[test]
fn packet_sizes_by_type() {
    assert_eq!(PacketType::ConnectionRequest.valid_size_range(), (16, 16));
    assert_eq!(PacketType::ConnectionAccepted.valid_size_range(), (17, 17));
    assert_eq!(PacketType::ConnectionKeepAlive.valid_size_range(), (16, 16));
    assert_eq!(PacketType::UserPayload.valid_size_range(), (16, 512));
    assert!(PacketType::ConnectionRequest.invalid_size(17));
    assert!(!PacketType::ConnectionAccepted.invalid_size(17));
    assert!(PacketType::UserPayload.invalid_size(15));
    assert!(PacketType::UserPayload.invalid_size(513));
    assert!(!PacketType::UserPayload.invalid_size(512));
    assert_eq!(PacketType::from_code(4), Some(PacketType::ConnectionKeepAlive));
    assert_eq!(PacketType::from_code(1), None);
    assert_eq!(PacketType::UserPayload.code(), 5);
}

#[test]
fn moving_average_weights_the_sample() {
    let mut avg = 1000u64;
    avg.exponential_moving_average(2000, 10);
    assert_eq!(avg, 1100);
    avg.exponential_moving_average(1100, 10);
    assert_eq!(avg, 1100);
    let mut z = 0u64;
    z.exponential_moving_average(30_000, 10);
    assert_eq!(z, 3000);
}
