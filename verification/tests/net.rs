use ziran::net::{demo, dropped, in_flight, poll, self_test, DemoOutcome, Net, NetError, Socket, MTU};

#[test]
fn loopback_self_test() {
    let mut net = Net::new();
    let r = self_test(&mut net);
    assert_eq!((r.frame.src, r.frame.dst), (1, 2));
    assert_eq!(r.frame.payload, b"hello from ziran".to_vec());
    assert_eq!(r.delivered, 1);
    assert_eq!(dropped(&net), 1);
}

#[test]
fn bind_twice_is_refused() {
    let mut net = Net::new();
    let s = Socket::bind(&mut net, 5).unwrap();
    assert_eq!(s.address(), 5);
    assert_eq!(Socket::bind(&mut net, 5).err().map(|_| ()), Some(()));
    assert!(matches!(Socket::bind(&mut net, 5), Err(NetError::AddrInUse)));
    s.close(&mut net);
    assert!(Socket::bind(&mut net, 5).is_ok());
}

#[test]
fn frames_arrive_in_order_and_by_address() {
    let mut net = Net::new();
    let a = Socket::bind(&mut net, 1).unwrap();
    let b = Socket::bind(&mut net, 2).unwrap();
    a.send(&mut net, 2, b"one").unwrap();
    a.send(&mut net, 2, b"two").unwrap();
    a.send(&mut net, 7, b"lost").unwrap();
    assert!(b.recv(&mut net).is_none());
    assert_eq!(poll(&mut net), 2);
    assert_eq!(b.recv(&mut net).unwrap().payload, b"one".to_vec());
    assert_eq!(b.recv(&mut net).unwrap().payload, b"two".to_vec());
    assert!(b.recv(&mut net).is_none());
    assert!(a.recv(&mut net).is_none());
    assert_eq!(dropped(&net), 1);
}

#[test]
fn oversized_payload_is_refused() {
    let mut net = Net::new();
    let a = Socket::bind(&mut net, 1).unwrap();
    assert_eq!(a.send(&mut net, 2, &vec![0u8; MTU + 1]), Err(NetError::TooLong));
    assert_eq!(a.send(&mut net, 2, &vec![0u8; MTU]), Ok(()));
}

#[test]
fn demo_round_trip() {
    let mut net = Net::new();
    match demo(&mut net) {
        DemoOutcome::Received { frame, delivered } => {
            assert_eq!((frame.src, frame.dst), (1, 2));
            assert_eq!(frame.payload, b"hello from ziran".to_vec());
            assert_eq!(delivered, 1);
        }
        DemoOutcome::Busy => panic!("fresh interface reported busy"),
    }
    // The demo cleans up, so it can run again.
    assert!(matches!(demo(&mut net), DemoOutcome::Received { .. }));
}

#[test]
fn demo_reports_busy_when_address_taken() {
    let mut net = Net::new();
    let _held = Socket::bind(&mut net, 2).unwrap();
    assert!(matches!(demo(&mut net), DemoOutcome::Busy));
    assert_eq!(dropped(&net), 0);
}

#[test]
fn in_flight_counts_frames_until_polled() {
    let mut net = Net::new();
    let a = Socket::bind(&mut net, 5).unwrap();
    assert_eq!(in_flight(&net), 0);
    a.send(&mut net, 6, b"x").unwrap();
    a.send(&mut net, 7, b"y").unwrap();
    assert_eq!(in_flight(&net), 2);
    poll(&mut net);
    assert_eq!(in_flight(&net), 0);
    assert_eq!(dropped(&net), 2);
}
