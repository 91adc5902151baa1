use tunnel_mux::frame::{Frame, FrameBody};
use tunnel_mux::tunnel::{Tunnel, TunnelPortMsg, TunnelReadPort, TunnelWritePort};

fn open(t: &mut Tunnel) -> (TunnelWritePort, TunnelReadPort) {
    t.open_port().expect("port opens")
}

fn deliver(t: &mut Tunnel, port: u32, body: FrameBody) -> bool {
    t.deliver(Frame { port, body })
}

fn connected(t: &mut Tunnel) -> (TunnelWritePort, TunnelReadPort) {
    let (w, r) = open(t);
    assert!(w.connect(t, b"10.0.0.1:80".to_vec()));
    assert!(deliver(t, w.id(), FrameBody::ConnectOk(b"10.0.0.1:80".to_vec())));
    (w, r)
}

fn data_of(m: Option<TunnelPortMsg>) -> Vec<u8> {
    match m {
        Some(TunnelPortMsg::Data(d)) => d,
        _ => panic!("expected data"),
    }
}

#[test]
fn ports_get_distinct_ids() {
    let mut t = Tunnel::new();
    let (w0, r0) = open(&mut t);
    let (w1, r1) = open(&mut t);
    assert_eq!(w0.id(), r0.id());
    assert_eq!(w1.id(), r1.id());
    assert_ne!(w0.id(), w1.id());
}

#[test]
fn interleaved_ports_keep_their_own_order() {
    let mut t = Tunnel::new();
    let ports: Vec<(TunnelWritePort, TunnelReadPort)> = (0..3).map(|_| connected(&mut t)).collect();
    for round in 0..4u8 {
        for (k, (w, _)) in ports.iter().enumerate() {
            assert!(deliver(&mut t, w.id(), FrameBody::Data(vec![k as u8, round])));
        }
    }
    for (k, (_, r)) in ports.iter().enumerate() {
        assert!(matches!(r.try_read(&mut t), Some(TunnelPortMsg::ConnectOk(_))));
        for round in 0..4u8 {
            assert_eq!(data_of(r.try_read(&mut t)), vec![k as u8, round]);
        }
        assert!(r.try_read(&mut t).is_none());
    }
}

#[test]
fn close_before_any_data_ends_the_reader() {
    let mut t = Tunnel::new();
    let (w, r) = open(&mut t);
    assert!(w.close(&mut t));
    assert!(matches!(r.try_read(&mut t), Some(TunnelPortMsg::Closed)));
    // the port is reclaimed; its reader keeps seeing the end
    assert!(matches!(r.try_read(&mut t), Some(TunnelPortMsg::Closed)));
}

#[test]
fn close_after_connect_request_ends_the_reader() {
    let mut t = Tunnel::new();
    let (w, r) = open(&mut t);
    assert!(w.connect(&mut t, b"10.0.0.1:80".to_vec()));
    assert!(w.close(&mut t));
    assert!(matches!(r.try_read(&mut t), Some(TunnelPortMsg::Closed)));
    // a late answer to the connect request is dropped
    assert!(!deliver(&mut t, w.id(), FrameBody::ConnectOk(b"10.0.0.1:80".to_vec())));
}

#[test]
fn close_is_idempotent_and_write_after_close_is_refused() {
    let mut t = Tunnel::new();
    let (w, _r) = connected(&mut t);
    t.take_outbound();
    assert!(w.close(&mut t));
    assert!(!w.close(&mut t));
    assert!(!w.write(&mut t, vec![1, 2, 3]));
    let out = t.take_outbound();
    assert_eq!(out.len(), 1);
    assert!(matches!(out[0].body, FrameBody::Close));
}

#[test]
fn connect_ok_comes_first() {
    let mut t = Tunnel::new();
    let (w, r) = open(&mut t);
    assert!(w.connect(&mut t, b"10.0.0.1:80".to_vec()));
    // data before the answer to the connect request is out of protocol
    assert!(!deliver(&mut t, w.id(), FrameBody::Data(vec![9])));
    assert!(r.try_read(&mut t).is_none());
    assert!(deliver(&mut t, w.id(), FrameBody::ConnectOk(b"10.0.0.1:80".to_vec())));
    assert!(deliver(&mut t, w.id(), FrameBody::Data(vec![1])));
    assert!(!deliver(&mut t, w.id(), FrameBody::ConnectOk(b"10.0.0.1:80".to_vec())));
    assert!(matches!(r.try_read(&mut t), Some(TunnelPortMsg::ConnectOk(_))));
    assert_eq!(data_of(r.try_read(&mut t)), vec![1]);
}

#[test]
fn connect_failed_is_the_only_event() {
    let mut t = Tunnel::new();
    let (w, r) = open(&mut t);
    assert!(w.connect(&mut t, b"10.0.0.1:80".to_vec()));
    assert!(deliver(&mut t, w.id(), FrameBody::ConnectFailed));
    assert!(!deliver(&mut t, w.id(), FrameBody::Data(vec![1])));
    assert!(!deliver(&mut t, w.id(), FrameBody::Close));
    assert!(matches!(r.try_read(&mut t), Some(TunnelPortMsg::ConnectFailed)));
    assert!(r.try_read(&mut t).is_none());
}

#[test]
fn connect_twice_sends_once() {
    let mut t = Tunnel::new();
    let (w, _r) = open(&mut t);
    assert!(w.connect(&mut t, b"10.0.0.1:80".to_vec()));
    assert!(!w.connect_domain_name(&mut t, b"example.com".to_vec(), 80));
    assert_eq!(t.take_outbound().len(), 1);
}

#[test]
fn writes_go_out_in_order_and_round_trip() {
    let mut t = Tunnel::new();
    let (w, r) = connected(&mut t);
    t.take_outbound();
    let chunks: Vec<Vec<u8>> = vec![b"hel".to_vec(), b"lo, ".to_vec(), Vec::new(), b"world".to_vec()];
    for c in &chunks {
        assert!(w.write(&mut t, c.clone()));
    }
    let out = t.take_outbound();
    assert_eq!(out.len(), chunks.len());
    let mut wire: Vec<u8> = Vec::new();
    for f in &out {
        assert_eq!(f.port, w.id());
        wire.extend(f.encode());
    }
    // the relay echoes the frames back; decode them and hand them in
    let mut at = 0;
    while at < wire.len() {
        match tunnel_mux::frame::decode(&wire[at..]) {
            tunnel_mux::frame::Decoded::Frame(f, n) => {
                assert!(t.deliver(f));
                at += n;
            },
            _ => panic!("whole frames expected"),
        }
    }
    assert!(matches!(r.try_read(&mut t), Some(TunnelPortMsg::ConnectOk(_))));
    let mut got: Vec<u8> = Vec::new();
    for _ in 0..chunks.len() {
        got.extend(data_of(r.try_read(&mut t)));
    }
    assert_eq!(got, b"hello, world".to_vec());
}

#[test]
fn destroying_one_port_leaves_the_others() {
    let mut t = Tunnel::new();
    let (w0, r0) = connected(&mut t);
    let (w1, r1) = connected(&mut t);
    assert!(deliver(&mut t, w1.id(), FrameBody::Data(vec![7])));
    assert!(matches!(r0.try_read(&mut t), Some(TunnelPortMsg::ConnectOk(_))));
    assert!(w0.close(&mut t));
    assert!(deliver(&mut t, w0.id(), FrameBody::Close));
    assert!(matches!(r0.try_read(&mut t), Some(TunnelPortMsg::Closed)));
    // port 0 is gone: frames for it are dropped
    assert!(!deliver(&mut t, w0.id(), FrameBody::Data(vec![1])));
    assert!(matches!(r1.try_read(&mut t), Some(TunnelPortMsg::ConnectOk(_))));
    assert_eq!(data_of(r1.try_read(&mut t)), vec![7]);
    assert!(w1.write(&mut t, vec![8]));
}

#[test]
fn released_reader_lets_the_port_go() {
    let mut t = Tunnel::new();
    let (w, r) = connected(&mut t);
    assert!(deliver(&mut t, w.id(), FrameBody::Data(vec![1])));
    // the reader stops with events still queued; later frames are dropped
    r.release(&mut t);
    assert!(!deliver(&mut t, w.id(), FrameBody::Data(vec![2])));
    // closing the write side reclaims the port
    assert!(w.close(&mut t));
    assert!(!w.close(&mut t));
    assert!(!deliver(&mut t, w.id(), FrameBody::Close));
}

#[test]
fn release_after_close_reclaims_at_once() {
    let mut t = Tunnel::new();
    let (w, r) = connected(&mut t);
    assert!(w.close(&mut t));
    assert!(deliver(&mut t, w.id(), FrameBody::Data(vec![1])));
    r.release(&mut t);
    assert!(!deliver(&mut t, w.id(), FrameBody::Close));
    assert!(!w.write(&mut t, vec![1]));
}

#[test]
fn unknown_port_frames_are_dropped() {
    let mut t = Tunnel::new();
    assert!(!deliver(&mut t, 42, FrameBody::Data(vec![1])));
}

#[test]
fn transport_failure_ends_every_port() {
    let mut t = Tunnel::new();
    let ports: Vec<(TunnelWritePort, TunnelReadPort)> = (0..3).map(|_| connected(&mut t)).collect();
    assert!(t.is_alive());
    t.transport_failed();
    assert!(!t.is_alive());
    for (_, r) in &ports {
        assert!(matches!(r.try_read(&mut t), Some(TunnelPortMsg::ConnectOk(_))));
        assert!(matches!(r.try_read(&mut t), Some(TunnelPortMsg::Closed)));
    }
    assert!(t.open_port().is_none());
}
