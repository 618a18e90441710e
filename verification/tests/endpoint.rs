use rudp::config::{EndpointConfig, Guarantee};
use rudp::endpoint::Endpoint;
use rudp::error::Error;
use rudp::header::Header;
use rudp::mod_ord::ModOrd;
use rudp::udp::UdpLike;
use std::cell::RefCell;
use std::collections::VecDeque;
use std::rc::Rc;

/// A socket that answers as it was told to, and remembers what was sent.
#[derive(Clone, Debug)]
struct Script {
    sent: Rc<RefCell<Vec<Vec<u8>>>>,
    incoming: Rc<RefCell<VecDeque<Vec<u8>>>>,
    refuse: Rc<RefCell<Option<usize>>>,
    claim: Rc<RefCell<Option<usize>>>,
}

impl Script {
    fn new() -> Script {
        Script {
            sent: Rc::new(RefCell::new(vec![])),
            incoming: Rc::new(RefCell::new(VecDeque::new())),
            refuse: Rc::new(RefCell::new(None)),
            claim: Rc::new(RefCell::new(None)),
        }
    }

    fn push(&self, d: Vec<u8>) {
        self.incoming.borrow_mut().push_back(d);
    }

    fn take_sent(&self) -> Vec<Vec<u8>> {
        self.sent.borrow_mut().drain(..).collect()
    }
}

impl UdpLike for Script {
    fn send(&mut self, buf: &[u8]) -> Result<usize, Error> {
        if *self.refuse.borrow() == Some(self.sent.borrow().len()) {
            return Err(Error::WouldBlock);
        }
        self.sent.borrow_mut().push(buf.to_vec());
        Ok(buf.len())
    }

    fn recv(&mut self, buf: &mut [u8]) -> Result<usize, Error> {
        if let Some(n) = *self.claim.borrow() {
            return Ok(n);
        }
        match self.incoming.borrow_mut().pop_front() {
            Some(d) => {
                buf[..d.len()].copy_from_slice(&d);
                Ok(d.len())
            }
            None => Err(Error::WouldBlock),
        }
    }
}

fn ord(value: u32) -> ModOrd {
    ModOrd { value }
}

fn header(id: u32, set_id: u32, wait_until: u32, del: bool) -> Header {
    Header {
        ack: ModOrd::before_zero(),
        id: ord(id),
        set_id: ord(set_id),
        wait_until: ord(wait_until),
        del,
    }
}

fn datagram(h: Header, payload: &[u8]) -> Vec<u8> {
    let mut d = payload.to_vec();
    let mut tail = [0u8; Header::BYTES];
    h.write_to(&mut tail).unwrap();
    d.extend_from_slice(&tail);
    d
}

fn config(max_msg_size: usize, buffer_grow_space: usize, window_size: u32) -> EndpointConfig {
    EndpointConfig { max_msg_size, buffer_grow_space, window_size }
}

fn drain(e: &mut Endpoint<Script>) -> Vec<Vec<u8>> {
    let mut got = vec![];
    while let Ok(p) = e.recv() {
        got.push(p.to_vec());
    }
    got
}

fn tail_of(d: &[u8]) -> Header {
    Header::read_from(&d[d.len() - Header::BYTES..]).unwrap()
}

#[test]
fn default_sizes() {
    let c = EndpointConfig::default();
    assert_eq!((c.max_msg_size, c.buffer_grow_space, c.window_size), (2048, 1024, 64));
}

#[test]
fn staleness_depends_on_age_and_distance() {
    let ms: u128 = 1_000_000;
    assert!(!Endpoint::<Script>::too_stale_func(0, 0));
    assert!(!Endpoint::<Script>::too_stale_func(0, 999 * ms));
    assert!(Endpoint::<Script>::too_stale_func(0, 1000 * ms));
    assert!(!Endpoint::<Script>::too_stale_func(125, 0));
    assert!(Endpoint::<Script>::too_stale_func(126, 0));
    assert!(!Endpoint::<Script>::too_stale_func(100, 200 * ms));
    assert!(Endpoint::<Script>::too_stale_func(100, 201 * ms));
    assert!(!Endpoint::<Script>::too_stale_func(100, 201 * ms - 1));
    assert!(Endpoint::<Script>::too_stale_func(u32::MAX, 0));
}

#[test]
fn sent_datagram_is_payload_and_header() {
    let wire = Script::new();
    let mut e = Endpoint::new(wire.clone());
    assert_eq!(e.send(Guarantee::Delivery, b"hello").unwrap(), 22);
    let sent = wire.take_sent();
    assert_eq!(sent, vec![datagram(header(0, 0, 0, true), b"hello")]);
}

#[test]
fn numbering_of_sets() {
    let wire = Script::new();
    let mut e = Endpoint::new(wire.clone());
    e.send(Guarantee::Delivery, b"a").unwrap();
    e.as_set(|mut s| {
        s.send(Guarantee::Delivery, b"b").unwrap();
        s.send(Guarantee::Order, b"c").unwrap();
        s.send(Guarantee::Nothing, b"d").unwrap();
        s.send(Guarantee::Delivery, b"e").unwrap();
    });
    e.send(Guarantee::Order, b"f").unwrap();
    e.send(Guarantee::Order, b"g").unwrap();
    let mut empty = e.get_set();
    empty.send(Guarantee::Nothing, b"h").unwrap();
    e.send(Guarantee::Delivery, b"i").unwrap();
    let heads: Vec<(u32, u32, u32, bool)> = wire
        .take_sent()
        .iter()
        .map(|d| tail_of(d))
        .map(|h| (h.id.value, h.set_id.value, h.wait_until.value, h.del))
        .collect();
    let none = u32::MAX;
    assert_eq!(
        heads,
        vec![
            (0, 0, 0, true),
            (1, 1, 1, true),
            (2, 1, 1, false),
            (none, 1, 1, false),
            (3, 1, 1, true),
            (4, 4, 3, false),
            (5, 5, 3, false),
            (none, 6, 3, false),
            (6, 6, 3, true),
        ]
    );
}

#[test]
fn a_refused_message_uses_no_number() {
    let wire = Script::new();
    let mut e = Endpoint::new(wire.clone());
    *wire.refuse.borrow_mut() = Some(0);
    assert!(matches!(e.send(Guarantee::Delivery, b"x"), Err(Error::WouldBlock)));
    *wire.refuse.borrow_mut() = None;
    e.send(Guarantee::Delivery, b"y").unwrap();
    let sent = wire.take_sent();
    assert_eq!(sent, vec![datagram(header(0, 0, 0, true), b"y")]);
}

#[test]
fn too_long_a_payload_does_not_fit() {
    let wire = Script::new();
    let mut e = Endpoint::new_with_config(wire.clone(), config(8, 2, 64));
    e.send(Guarantee::Nothing, &[1; 8]).unwrap();
    e.send(Guarantee::Nothing, &[1; 10]).unwrap();
    assert!(matches!(e.send(Guarantee::Nothing, &[1; 11]), Err(Error::WriteZero)));
    assert!(matches!(e.send(Guarantee::Delivery, &[1; 100]), Err(Error::WriteZero)));
    assert_eq!(wire.take_sent().len(), 2);
}

#[test]
fn the_configured_length_always_fits() {
    let wire = Script::new();
    let mut e = Endpoint::new_with_config(wire.clone(), config(8, 3, 64));
    for i in 0..20u8 {
        e.send(Guarantee::Delivery, &[i; 8]).unwrap();
    }
    let sent = wire.take_sent();
    assert_eq!(sent.len(), 20);
    for (i, d) in sent.iter().enumerate() {
        assert_eq!(&d[..8], &[i as u8; 8]);
    }
}

#[test]
fn space_runs_out_and_comes_back() {
    let wire = Script::new();
    let mut e = Endpoint::new_with_config(wire.clone(), config(8, 10, 64));
    assert!(!e.buf_cant_take_another());
    e.send(Guarantee::Delivery, &[1; 8]).unwrap();
    assert!(e.buf_cant_take_another());
    e.send(Guarantee::Nothing, &[1; 8]).unwrap();
    assert!(!e.buf_cant_take_another());
}

#[test]
fn what_is_sent_is_received() {
    let left = Script::new();
    let mut a = Endpoint::new(left.clone());
    let right = Script::new();
    let mut b = Endpoint::new(right.clone());
    let payloads: Vec<&[u8]> = vec![b"one", b"", b"three", b"four"];
    for p in payloads.iter() {
        a.send(Guarantee::Delivery, p).unwrap();
    }
    a.send(Guarantee::Order, b"five").unwrap();
    for d in left.take_sent() {
        right.push(d);
    }
    let got = drain(&mut b);
    assert_eq!(
        got,
        vec![b"one".to_vec(), b"".to_vec(), b"three".to_vec(), b"four".to_vec(), b"five".to_vec()]
    );
    // ... and acknowledged with the next message.
    b.send(Guarantee::Nothing, b"ok").unwrap();
    assert_eq!(tail_of(&right.take_sent()[0]).ack, ord(4));
}

#[test]
fn a_later_set_waits() {
    let wire = Script::new();
    let mut e = Endpoint::new(wire.clone());
    wire.push(datagram(header(2, 2, 2, true), b"third"));
    wire.push(datagram(header(1, 0, 0, true), b"second"));
    wire.push(datagram(header(0, 0, 0, true), b"first"));
    let got = drain(&mut e);
    assert_eq!(got, vec![b"second".to_vec(), b"first".to_vec(), b"third".to_vec()]);
}

#[test]
fn waiting_messages_survive_a_full_buffer() {
    let wire = Script::new();
    let mut e = Endpoint::new_with_config(wire.clone(), config(8, 0, 64));
    // The buffer holds one message; those that wait have to move out of it.
    for id in (1..6u32).rev() {
        wire.push(datagram(header(id, id, id, true), &[id as u8; 8]));
    }
    wire.push(datagram(header(0, 0, 0, true), &[0; 8]));
    let got = drain(&mut e);
    let want: Vec<Vec<u8>> = (0..6u8).map(|i| vec![i; 8]).collect();
    assert_eq!(got, want);
}

#[test]
fn duplicates_are_dropped() {
    let wire = Script::new();
    let mut e = Endpoint::new(wire.clone());
    let waiting = datagram(header(1, 1, 1, true), b"b");
    let first = datagram(header(0, 0, 0, true), b"a");
    for d in [&waiting, &first, &waiting, &first, &first, &waiting] {
        wire.push(d.clone());
    }
    let got = drain(&mut e);
    assert_eq!(got, vec![b"a".to_vec(), b"b".to_vec()]);
    wire.push(first);
    wire.push(waiting);
    assert!(drain(&mut e).is_empty());
}

#[test]
fn known_duplicate_tells() {
    let wire = Script::new();
    let mut e = Endpoint::new(wire.clone());
    let yielded = header(0, 0, 0, true);
    let waiting = header(7, 7, 7, true);
    let fresh = header(3, 3, 3, true);
    wire.push(datagram(waiting, b"w"));
    wire.push(datagram(yielded, b"y"));
    assert!(!e.known_duplicate(&yielded));
    assert_eq!(drain(&mut e), vec![b"y".to_vec()]);
    assert!(e.known_duplicate(&yielded));
    assert!(e.known_duplicate(&waiting));
    assert!(!e.known_duplicate(&fresh));
}

#[test]
fn a_past_set_is_too_old() {
    let wire = Script::new();
    let mut e = Endpoint::new(wire.clone());
    wire.push(datagram(header(5, 5, 0, false), b"new"));
    wire.push(datagram(header(2, 2, 0, false), b"old"));
    assert_eq!(drain(&mut e), vec![b"new".to_vec()]);
}

#[test]
fn the_window_is_kept() {
    let wire = Script::new();
    let mut e = Endpoint::new_with_config(wire.clone(), config(64, 64, 10));
    wire.push(datagram(header(11, 11, 0, false), b"far"));
    wire.push(datagram(header(10, 10, 0, false), b"near"));
    assert_eq!(drain(&mut e), vec![b"near".to_vec()]);
}

#[test]
fn unnumbered_messages_come_at_once_and_again() {
    let wire = Script::new();
    let mut e = Endpoint::new(wire.clone());
    let d = datagram(header(u32::MAX, 3, 9, false), b"now");
    wire.push(d.clone());
    wire.push(d);
    assert_eq!(drain(&mut e), vec![b"now".to_vec(), b"now".to_vec()]);
}

#[test]
fn a_short_datagram_is_bad() {
    let wire = Script::new();
    let mut e = Endpoint::new(wire.clone());
    wire.push(vec![0; 16]);
    wire.push(datagram(header(0, 0, 0, true), b"fine"));
    assert!(matches!(e.recv(), Err(Error::BadDatagram(16))));
    assert_eq!(e.recv().unwrap(), b"fine");
}

#[test]
fn a_socket_cannot_claim_too_much() {
    let wire = Script::new();
    let mut e = Endpoint::new_with_config(wire.clone(), config(8, 0, 64));
    // The buffer has room for 25 bytes.
    *wire.claim.borrow_mut() = Some(26);
    assert!(matches!(e.recv(), Err(Error::UnexpectedEof)));
    *wire.claim.borrow_mut() = Some(42);
    assert!(matches!(e.recv(), Err(Error::UnexpectedEof)));
    *wire.claim.borrow_mut() = Some(43);
    assert!(matches!(e.recv(), Err(Error::BadDatagram(43))));
}

#[test]
fn lent_payloads_stay_intact() {
    let wire = Script::new();
    let mut e = Endpoint::new_with_config(wire.clone(), config(8, 0, 64));
    wire.push(datagram(header(2, 2, 2, true), b"third"));
    wire.push(datagram(header(1, 1, 1, true), b"second"));
    wire.push(datagram(header(0, 0, 0, true), b"first"));
    assert_eq!(e.recv().unwrap(), b"first");
    assert_eq!(e.recv().unwrap(), b"second");
    assert_eq!(e.recv().unwrap(), b"third");
    assert!(matches!(e.recv(), Err(Error::WouldBlock)));
}

#[test]
fn resending_takes_what_is_stale() {
    let wire = Script::new();
    let mut e = Endpoint::new(wire.clone());
    e.as_set(|mut s| {
        for i in 0..130u8 {
            s.send(Guarantee::Delivery, &[i]).unwrap();
        }
    });
    let first = wire.take_sent();
    // A step of distance counts for eight milliseconds: the last ones are stale.
    e.resend_lost().unwrap();
    let again = wire.take_sent();
    assert!(again.len() >= 4);
    for d in first[126..].iter() {
        assert_eq!(again.iter().filter(|x| *x == d).count(), 1);
    }
    for d in again.iter() {
        assert!(first.contains(d));
    }
}

#[test]
fn resending_stops_at_what_is_acknowledged() {
    let wire = Script::new();
    let mut e = Endpoint::new_with_config(wire.clone(), config(8, 50, 64));
    e.as_set(|mut s| {
        for i in 0..200u8 {
            s.send(Guarantee::Delivery, &[i]).unwrap();
        }
    });
    let first = wire.take_sent();
    let mut h = header(0, 0, 0, false);
    h.ack = ord(197);
    wire.push(datagram(h, b"ack"));
    assert_eq!(e.recv().unwrap(), b"ack");
    e.resend_lost().unwrap();
    let mut again = wire.take_sent();
    again.sort();
    assert_eq!(again, vec![first[198].clone(), first[199].clone()]);
    // An older acknowledgement changes nothing.
    let mut h = header(1, 0, 0, false);
    h.ack = ord(3);
    wire.push(datagram(h, b"late"));
    assert_eq!(e.recv().unwrap(), b"late");
    e.resend_lost().unwrap();
    assert_eq!(wire.take_sent().len(), 2);
    let mut h = header(2, 0, 0, false);
    h.ack = ord(199);
    wire.push(datagram(h, b"done"));
    assert_eq!(e.recv().unwrap(), b"done");
    e.resend_lost().unwrap();
    assert!(wire.take_sent().is_empty());
}

#[test]
fn resending_ends_with_the_first_failure() {
    let wire = Script::new();
    let mut e = Endpoint::new(wire.clone());
    e.as_set(|mut s| {
        for i in 0..200u8 {
            s.send(Guarantee::Delivery, &[i]).unwrap();
        }
    });
    wire.take_sent();
    *wire.refuse.borrow_mut() = Some(5);
    assert!(matches!(e.resend_lost(), Err(Error::WouldBlock)));
    assert_eq!(wire.take_sent().len(), 5);
    *wire.refuse.borrow_mut() = None;
    e.resend_lost().unwrap();
    assert!(wire.take_sent().len() >= 74);
}

#[test]
fn fresh_datagrams_are_not_resent() {
    let wire = Script::new();
    let mut e = Endpoint::new(wire.clone());
    e.send(Guarantee::Delivery, b"x").unwrap();
    e.send(Guarantee::Order, b"y").unwrap();
    wire.take_sent();
    e.resend_lost().unwrap();
    assert!(wire.take_sent().is_empty());
}

#[test]
fn age_makes_a_datagram_stale() {
    let wire = Script::new();
    let mut e = Endpoint::new(wire.clone());
    e.send(Guarantee::Delivery, b"x").unwrap();
    e.send(Guarantee::Order, b"y").unwrap();
    let first = wire.take_sent();
    let start = std::time::Instant::now();
    while start.elapsed().as_millis() < 1010 {}
    e.resend_lost().unwrap();
    assert_eq!(wire.take_sent(), vec![first[0].clone()]);
    // It was stamped anew.
    e.resend_lost().unwrap();
    assert!(wire.take_sent().is_empty());
}

#[test]
fn jumbled_sets_are_sorted() {
    let left = Script::new();
    let mut a = Endpoint::new(left.clone());
    for set in 0..6u8 {
        a.as_set(|mut s| {
            for i in 0..=set {
                s.send(Guarantee::Delivery, &[set, i]).unwrap();
            }
        });
    }
    let sent = left.take_sent();
    for stride in [1usize, 2, 4, 5, 8, 10, 11, 13, 16, 17, 19, 20] {
        let right = Script::new();
        let mut b = Endpoint::new_with_config(right.clone(), config(4, 10, 64));
        for k in 0..2 * sent.len() {
            right.push(sent[(k * stride + 3) % sent.len()].clone());
        }
        let got = drain(&mut b);
        assert_eq!(got.len(), sent.len());
        assert!(got.windows(2).all(|w| w[0][0] <= w[1][0]));
        let mut sorted = got.clone();
        sorted.sort();
        sorted.dedup();
        assert_eq!(sorted.len(), sent.len());
    }
}

#[test]
fn only_the_last_set_is_remembered() {
    let wire = Script::new();
    let mut e = Endpoint::new(wire.clone());
    let first = header(0, 0, 0, true);
    let second = header(1, 1, 1, false);
    let third = header(2, 2, 1, false);
    wire.push(datagram(second, b"b"));
    wire.push(datagram(third, b"c"));
    wire.push(datagram(first, b"a"));
    let mut got = drain(&mut e);
    assert_eq!(got[0], b"a".to_vec());
    got.sort();
    assert_eq!(got, vec![b"a".to_vec(), b"b".to_vec(), b"c".to_vec()]);
    assert!(!e.known_duplicate(&first));
    assert!(!e.known_duplicate(&second));
    assert!(e.known_duplicate(&third));
    // What is not remembered is too old.
    for h in [first, second, third] {
        wire.push(datagram(h, b"again"));
    }
    assert!(drain(&mut e).is_empty());
}

#[test]
fn every_number_is_handed_out_once() {
    let wire = Script::new();
    let mut e = Endpoint::new_with_config(wire.clone(), config(8, 30, 64));
    // Sets of two; the first of each promises delivery.
    let all: Vec<Vec<u8>> = (0..10)
        .map(|i| datagram(header(i, i - i % 2, (i / 2 + 1) / 2, i % 2 == 0), &[i as u8]))
        .collect();
    let mut got = vec![];
    for step in [3, 7, 9, 1] {
        for k in 0..10 {
            wire.push(all[(k * step + 5) % 10].clone());
            wire.push(all[(k * step + 2) % 10].clone());
        }
        got.extend(drain(&mut e));
        e.resend_lost().unwrap();
        e.send(Guarantee::Delivery, b"mine").unwrap();
    }
    got.sort();
    let before = got.len();
    got.dedup();
    assert_eq!(got.len(), before);
    assert!(got.contains(&vec![0]));
}

/// A socket that keeps what the buffer held when it was asked.
#[derive(Debug)]
struct Peek {
    offered: Rc<RefCell<Vec<Vec<u8>>>>,
}

impl UdpLike for Peek {
    fn send(&mut self, buf: &[u8]) -> Result<usize, Error> {
        Ok(buf.len())
    }

    fn recv(&mut self, buf: &mut [u8]) -> Result<usize, Error> {
        self.offered.borrow_mut().push(buf.to_vec());
        Err(Error::WouldBlock)
    }
}

#[test]
fn a_new_buffer_holds_zeros() {
    let offered = Rc::new(RefCell::new(vec![]));
    let mut e = Endpoint::new_with_config(Peek { offered: offered.clone() }, config(16, 64, 32));
    assert!(e.recv().is_err());
    let mut f = Endpoint::new(Peek { offered: offered.clone() });
    assert!(f.recv().is_err());
    assert_eq!(*offered.borrow(), vec![vec![0u8; 97], vec![0u8; 3089]]);
}

#[test]
fn resending_leaves_the_buffer_alone() {
    let offered = Rc::new(RefCell::new(vec![]));
    let mut e = Endpoint::new_with_config(Peek { offered: offered.clone() }, config(16, 64, 32));
    e.send(Guarantee::Delivery, b"kept").unwrap();
    e.send(Guarantee::Nothing, b"scratch").unwrap();
    assert!(e.recv().is_err());
    e.resend_lost().unwrap();
    assert!(e.recv().is_err());
    let seen = offered.borrow();
    assert_eq!(&seen[0][..7], b"scratch");
    assert_eq!(seen[0], seen[1]);
}
