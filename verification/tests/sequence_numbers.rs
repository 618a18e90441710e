use rudp::error::Error;
use rudp::header::Header;
use rudp::message::{Message, OwnedMessage};
use rudp::mod_ord::ModOrd;

fn ord(value: u32) -> ModOrd {
    ModOrd { value }
}

#[test]
fn zero_follows_before_zero() {
    assert_eq!(ModOrd::before_zero().new_plus(1), ModOrd::zero());
    assert_eq!(ModOrd::zero().new_minus(1), ModOrd::before_zero());
    assert!(ModOrd::before_zero() < ModOrd::zero());
}

#[test]
fn counting_wraps_around() {
    assert_eq!(ord(5).new_plus(7), ord(12));
    assert_eq!(ord(5).new_minus(7), ord(0xffff_fffd));
    assert_eq!(ord(0xffff_fff0).new_plus(0x20), ord(0x11));
    assert_eq!(ord(3).new_plus(u32::MAX), ord(3));
    assert_eq!(ord(3).new_minus(u32::MAX), ord(3));
}

#[test]
fn there_and_back_again() {
    for start in [0u32, 1, 77, 0x7fff_ffff, 0xffff_fffe] {
        for count in [0u32, 1, 1000, 0x8000_0000, u32::MAX] {
            assert_eq!(ord(start).new_plus(count).new_minus(count), ord(start));
        }
    }
}

#[test]
fn order_looks_at_the_shorter_way() {
    assert!(ord(1) < ord(2));
    assert!(ord(2) > ord(1));
    assert!(ord(7) <= ord(7));
    assert!(!(ord(7) < ord(7)));
    assert!(ord(0) < ord(0x7fff_ffff));
    assert!(ord(0) > ord(0x8000_0000));
    assert!(ord(0xffff_fff0) < ord(0x10));
}

#[test]
fn distance_takes_the_shorter_way() {
    assert_eq!(ord(10).abs_difference(ord(4)), 6);
    assert_eq!(ord(4).abs_difference(ord(10)), 6);
    assert_eq!(ord(0).abs_difference(ModOrd::before_zero()), 1);
    assert_eq!(ord(0).abs_difference(ord(0x7fff_ffff)), 0x7fff_ffff);
    assert_eq!(ord(0).abs_difference(ord(0x8000_0000)), 0x7fff_ffff);
}

#[test]
fn the_mark_is_no_sequence_number() {
    let mark = ModOrd::unnumbered();
    assert!(mark.special());
    assert!(!ModOrd::zero().special());
    assert!(!ModOrd::before_zero().special());
    assert!(!(mark < ord(3)) && !(mark > ord(3)));
    assert_eq!(mark.new_plus(4), mark);
    assert_eq!(mark.abs_difference(ord(0)), u32::MAX);
}

fn sample() -> Header {
    Header {
        ack: ord(0x0102_0304),
        id: ord(0x1112_1314),
        set_id: ord(0x2122_2324),
        wait_until: ord(0x3132_3334),
        del: true,
    }
}

#[test]
fn header_is_laid_out_in_order() {
    let mut buf = [0xaau8; 20];
    sample().write_to(&mut buf).unwrap();
    assert_eq!(
        buf,
        [
            0x01, 0x02, 0x03, 0x04, 0x11, 0x12, 0x13, 0x14, 0x21, 0x22, 0x23, 0x24, 0x31, 0x32,
            0x33, 0x34, 0x01, 0xaa, 0xaa, 0xaa
        ]
    );
}

#[test]
fn header_comes_back() {
    for del in [true, false] {
        let mut h = sample();
        h.del = del;
        let mut buf = [0u8; Header::BYTES];
        h.write_to(&mut buf).unwrap();
        let back = Header::read_from(&buf).unwrap();
        assert_eq!(back.ack, h.ack);
        assert_eq!(back.id, h.id);
        assert_eq!(back.set_id, h.set_id);
        assert_eq!(back.wait_until, h.wait_until);
        assert_eq!(back.del, del);
    }
}

#[test]
fn only_one_stands_for_a_promise() {
    let mut buf = [0u8; Header::BYTES];
    buf[16] = 2;
    assert!(!Header::read_from(&buf).unwrap().del);
}

#[test]
fn header_needs_its_room() {
    let mut buf = [0u8; Header::BYTES];
    for len in 0..Header::BYTES {
        assert!(matches!(sample().write_to(&mut buf[..len]), Err(Error::WriteZero)));
        assert!(matches!(Header::read_from(&buf[..len]), Err(Error::UnexpectedEof)));
    }
}

#[test]
fn messages_are_told_apart_by_id() {
    let a = sample();
    let mut b = sample();
    b.set_id = ord(9);
    b.del = false;
    let mut c = sample();
    c.id = ord(1);
    assert!(a == b);
    assert!(a != c);
    assert!(Message { h: a, start: 0, end: 1 } == Message { h: b, start: 5, end: 9 });
    let owned = OwnedMessage { h: a, payload: vec![1, 2] };
    assert!(owned == OwnedMessage { h: b, payload: vec![] });
    assert!(owned != OwnedMessage { h: c, payload: vec![1, 2] });
    assert_eq!(owned.clone().payload, vec![1, 2]);
}
