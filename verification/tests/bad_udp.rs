use rudp::config::{EndpointConfig, Guarantee};
use rudp::endpoint::Endpoint;
use rudp::error::Error;
use rudp::udp::BadUdp;

/*
    This tests a fake connection of some endpoint with itself
    the BadUdp object will connect messages but duplicate and jumble
    them before sending (no loss).
*/
#[test]
fn bad_udp() {
    let socket = BadUdp::new();
    let mut config = EndpointConfig::default();
    config.max_msg_size = 16;
    config.buffer_grow_space = 64;
    config.window_size = 32;

    println!("YAY");
    let mut e = Endpoint::new_with_config(socket, config);

    e.send(Guarantee::Delivery, b"Dank").unwrap();
    while let Ok(_msg) = e.recv() {}

    e.send(Guarantee::Delivery, b"Lower...").unwrap();
    e.send(Guarantee::Delivery, b"...case").unwrap();

    e.as_set(|mut s| {
        for letter in ('a' as u8)..=('e' as u8) {
            s.send(Guarantee::Delivery, &vec![letter]).unwrap();
        }
    });

    e.send(Guarantee::Delivery, b"Numbers").unwrap();

    e.as_set(|mut s| {
        for letter in ('1' as u8)..=('3' as u8) {
            s.send(Guarantee::Delivery, &vec![letter]).unwrap();
        }
    });

    e.send(Guarantee::Delivery, b"Up...").unwrap();
    e.send(Guarantee::Delivery, b"...percase").unwrap();

    e.as_set(|mut s| {
        for letter in ('X' as u8)..=('Z' as u8) {
            s.send(Guarantee::Delivery, &vec![letter]).unwrap();
        }
    });

    e.send(Guarantee::Delivery, b"Done").unwrap();

    let mut got = vec![];
    while let Ok(msg) = e.recv() {
        let out: String = String::from_utf8_lossy(&msg[..]).to_string();
        println!("--> yielded: {:?}\n", &out);
        got.push(out);
    }
    println!("got: {:?}", got);
    e.send(Guarantee::Delivery, b"wahey").unwrap();
    while let Ok(_msg) = e.recv() {}

    e.resend_lost().unwrap();

    println!("E {:#?}", e);

    // Each message once, set by set; within a set the order is open.
    assert_eq!(got.len(), 17);
    got[2..7].sort();
    got[8..11].sort();
    got[13..16].sort();
    assert_eq!(
        got,
        vec![
            "Lower...", "...case", "a", "b", "c", "d", "e", "Numbers", "1", "2", "3", "Up...",
            "...percase", "X", "Y", "Z", "Done"
        ]
    );
}

#[test]
fn an_idle_socket_would_block() {
    let mut socket = BadUdp::new();
    let mut buf = [7u8; 4];
    assert!(matches!(socket.recv(&mut buf), Err(Error::WouldBlock)));
    assert_eq!(buf, [7, 7, 7, 7]);
}

#[test]
fn every_datagram_comes_twice() {
    let mut socket = BadUdp::new();
    assert_eq!(socket.send(&[1, 2, 3]).unwrap(), 3);
    assert_eq!(socket.send(&[4]).unwrap(), 1);
    let mut got = vec![];
    loop {
        let mut buf = [0u8; 8];
        match socket.recv(&mut buf) {
            Ok(n) => got.push(buf[..n].to_vec()),
            Err(_) => break,
        }
    }
    got.sort();
    assert_eq!(got, vec![vec![1, 2, 3], vec![1, 2, 3], vec![4], vec![4]]);
}

#[test]
fn random_choice_reaches_every_datagram() {
    let mut first = [false, false];
    for _ in 0..200 {
        let mut socket = BadUdp::new();
        socket.send(&[0]).unwrap();
        socket.send(&[1]).unwrap();
        let mut buf = [9u8];
        socket.recv(&mut buf).unwrap();
        first[buf[0] as usize] = true;
    }
    assert_eq!(first, [true, true]);
}

#[test]
fn a_long_datagram_is_cut() {
    let mut socket = BadUdp::new();
    socket.send(&[1, 2, 3, 4]).unwrap();
    let mut buf = [0u8; 3];
    assert_eq!(socket.deliver(1, &mut buf), 3);
    assert_eq!(buf, [1, 2, 3]);
    let mut long = [9u8; 6];
    assert_eq!(socket.deliver(0, &mut long), 4);
    assert_eq!(long, [1, 2, 3, 4, 9, 9]);
}

#[test]
fn a_used_endpoint_sorts_round_after_round() {
    let mut config = EndpointConfig::default();
    config.max_msg_size = 4;
    config.buffer_grow_space = 50;
    config.window_size = 12;
    let mut e = Endpoint::new_with_config(BadUdp::new(), config);
    let mut next: u8 = 0;
    for round in 0..20 {
        // Sets of one, two and three messages.
        let mut sizes = vec![1, 2, 3];
        sizes.rotate_left(round % 3);
        let mut want = vec![];
        for size in sizes {
            let mut set = e.get_set();
            for _ in 0..size {
                set.send(Guarantee::Delivery, &[next]).unwrap();
                want.push(next);
                next += 1;
            }
        }
        let mut got = vec![];
        let end = loop {
            match e.recv() {
                Ok(p) => got.push(p[0]),
                Err(err) => break err,
            }
        };
        assert!(matches!(end, Error::WouldBlock));
        // Each once, and set by set.
        assert_eq!(got.len(), want.len());
        let mut from = 0;
        for size in [1usize, 2, 3].iter().cycle().skip(round % 3).take(3) {
            got[from..from + size].sort();
            from += size;
        }
        assert_eq!(got, want);
    }
}
