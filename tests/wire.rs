use tunnel_mux::frame::{decode, Decoded, Frame, FrameBody};
use tunnel_mux::pump::{first_reply, read_pump_step, start_port, write_pump_step};
use tunnel_mux::setup::{args_ok, check_key_length, KeyLengthError};
use tunnel_mux::socks::{
    check_greeting, format_addr, format_addr6, greeting_reply, parse_addr6_text, parse_addr_text,
    parse_connect_request, reply_failure, Addr4, Addr6, ConnectDest,
};
use tunnel_mux::tunnel::{Tunnel, TunnelPortMsg};

#[test]
fn data_frame_bytes() {
    let f = Frame { port: 0x01020304, body: FrameBody::Data(vec![0xaa, 0xbb]) };
    assert_eq!(f.encode(), vec![3, 1, 2, 3, 4, 0, 0, 0, 2, 0xaa, 0xbb]);
}

#[test]
fn domain_frame_bytes_and_back() {
    let f = Frame { port: 7, body: FrameBody::ConnectDomain(b"ab".to_vec(), 443) };
    let mut bytes = f.encode();
    assert_eq!(bytes, vec![2, 0, 0, 0, 7, 0, 0, 0, 4, b'a', b'b', 1, 187]);
    bytes.push(99);
    match decode(&bytes) {
        Decoded::Frame(g, n) => {
            assert_eq!(n, 13);
            assert_eq!(g.port, 7);
            match g.body {
                FrameBody::ConnectDomain(name, port) => {
                    assert_eq!(name, b"ab".to_vec());
                    assert_eq!(port, 443);
                },
                _ => panic!("wrong kind"),
            }
        },
        _ => panic!("frame expected"),
    }
}

#[test]
fn close_frame_round_trip() {
    let f = Frame { port: 9, body: FrameBody::Close };
    let bytes = f.encode();
    assert_eq!(bytes.len(), 9);
    assert!(matches!(decode(&bytes), Decoded::Frame(Frame { port: 9, body: FrameBody::Close }, 9)));
}

#[test]
fn short_input_is_incomplete() {
    assert!(matches!(decode(&[]), Decoded::Incomplete));
    assert!(matches!(decode(&[3, 0, 0, 0, 1, 0, 0, 0, 5, 1, 2]), Decoded::Incomplete));
}

#[test]
fn bad_frames_are_malformed() {
    assert!(matches!(decode(&[0, 0, 0, 0, 1, 0, 0, 0, 0]), Decoded::Malformed));
    assert!(matches!(decode(&[4, 0, 0, 0, 1, 0, 0, 0, 1, 5]), Decoded::Malformed));
    assert!(matches!(decode(&[2, 0, 0, 0, 1, 0, 0, 0, 1, 5]), Decoded::Malformed));
}

#[test]
fn address_text() {
    let a = Addr4 { a: 93, b: 184, c: 216, d: 34, port: 80 };
    assert_eq!(format_addr(&a), b"93.184.216.34:80".to_vec());
    assert_eq!(parse_addr_text(b"93.184.216.34:80"), Some(a));
    assert_eq!(parse_addr_text(b"0.0.0.0:65535"), Some(Addr4 { a: 0, b: 0, c: 0, d: 0, port: 65535 }));
}

#[test]
fn address_text_rejects_others() {
    assert_eq!(parse_addr_text(b"93.184.216.34"), None);
    assert_eq!(parse_addr_text(b"93.184.216.034:80"), None);
    assert_eq!(parse_addr_text(b"256.1.1.1:80"), None);
    assert_eq!(parse_addr_text(b"1.1.1.1:65536"), None);
    assert_eq!(parse_addr_text(b"1.1.1.1:80 "), None);
    assert_eq!(parse_addr_text(b"example.com:80"), None);
}

#[test]
fn greeting() {
    assert!(check_greeting(&[5, 1, 0]));
    assert!(!check_greeting(&[4, 1, 0]));
    assert!(!check_greeting(&[5, 2, 0]));
    assert_eq!(greeting_reply(), vec![5, 0]);
}

#[test]
fn request_for_address() {
    match parse_connect_request(&[5, 1, 0, 1, 93, 184, 216, 34, 0, 80]) {
        ConnectDest::Addr(a) => assert_eq!(a, Addr4 { a: 93, b: 184, c: 216, d: 34, port: 80 }),
        _ => panic!("address expected"),
    }
}

#[test]
fn request_for_domain() {
    let mut req = vec![5, 1, 0, 3, 11];
    req.extend(b"example.com");
    req.extend([1, 187]);
    match parse_connect_request(&req) {
        ConnectDest::DomainName(n, p) => {
            assert_eq!(n, b"example.com".to_vec());
            assert_eq!(p, 443);
        },
        _ => panic!("domain expected"),
    }
}

#[test]
fn bad_requests_are_invalid() {
    assert!(matches!(parse_connect_request(&[5, 2, 0, 1, 1, 2, 3, 4, 0, 80]), ConnectDest::Invalid));
    assert!(matches!(parse_connect_request(&[5, 1, 0, 4, 1, 2, 3, 4, 0, 80]), ConnectDest::Invalid));
    assert!(matches!(parse_connect_request(&[5, 1, 0, 1, 1, 2, 3]), ConnectDest::Invalid));
    assert!(matches!(parse_connect_request(&[5, 1, 0, 3, 0, 0, 80]), ConnectDest::Invalid));
}

#[test]
fn connect_to_address_and_reply_success() {
    let mut t = Tunnel::new();
    let (w, r) = t.open_port().unwrap();
    let dest = parse_connect_request(&[5, 1, 0, 1, 93, 184, 216, 34, 0, 80]);
    let r = start_port(&mut t, &w, r, dest).unwrap();
    let out = t.take_outbound();
    assert_eq!(out.len(), 1);
    match &out[0].body {
        FrameBody::Connect(text) => assert_eq!(text, &b"93.184.216.34:80".to_vec()),
        _ => panic!("connect expected"),
    }
    assert!(t.deliver(Frame { port: w.id(), body: FrameBody::ConnectOk(b"93.184.216.34:80".to_vec()) }));
    let first = r.try_read(&mut t).unwrap();
    assert_eq!(first_reply(&first), vec![5, 0, 0, 1, 93, 184, 216, 34, 0, 80]);
}

#[test]
fn connect_to_domain_and_reply_failure() {
    let mut t = Tunnel::new();
    let (w, r) = t.open_port().unwrap();
    let mut req = vec![5, 1, 0, 3, 11];
    req.extend(b"example.com");
    req.extend([1, 187]);
    let r = start_port(&mut t, &w, r, parse_connect_request(&req)).unwrap();
    let out = t.take_outbound();
    match &out[0].body {
        FrameBody::ConnectDomain(n, p) => {
            assert_eq!(n, &b"example.com".to_vec());
            assert_eq!(*p, 443);
        },
        _ => panic!("domain connect expected"),
    }
    assert!(t.deliver(Frame { port: w.id(), body: FrameBody::ConnectFailed }));
    let first = r.try_read(&mut t).unwrap();
    assert_eq!(first_reply(&first), vec![5, 1, 0, 1, 0, 0, 0, 0, 0, 0]);
}

#[test]
fn invalid_request_closes_and_reclaims_the_port() {
    let mut t = Tunnel::new();
    let (w, r) = t.open_port().unwrap();
    assert!(start_port(&mut t, &w, r, ConnectDest::Invalid).is_none());
    let out = t.take_outbound();
    assert_eq!(out.len(), 1);
    assert!(matches!(out[0].body, FrameBody::Close));
    // the port is gone: frames for it are dropped, the handle sends nothing
    assert!(!t.deliver(Frame { port: w.id(), body: FrameBody::Close }));
    assert!(!w.close(&mut t));
}

fn loopback6(port: u16) -> Addr6 {
    Addr6 { g0: 0, g1: 0, g2: 0, g3: 0, g4: 0, g5: 0, g6: 0, g7: 1, port }
}

#[test]
fn ipv6_address_text() {
    assert_eq!(format_addr6(&loopback6(8080), 0, 0), b"[0:0:0:0:0:0:0:1]:8080".to_vec());
    assert_eq!(format_addr6(&loopback6(8080), 0, 7), b"[::1]:8080".to_vec());
    assert_eq!(parse_addr6_text(b"[::1]:8080"), Some(loopback6(8080)));
    assert_eq!(parse_addr6_text(b"[0:0:0:0:0:0:0:1]:8080"), Some(loopback6(8080)));
    assert_eq!(
        parse_addr6_text(b"[2001:db8::ff00:42]:443"),
        Some(Addr6 { g0: 0x2001, g1: 0xdb8, g2: 0, g3: 0, g4: 0, g5: 0, g6: 0xff00, g7: 0x42, port: 443 })
    );
    assert_eq!(parse_addr6_text(b"[::]:80"), Some(Addr6 { g0: 0, g1: 0, g2: 0, g3: 0, g4: 0, g5: 0, g6: 0, g7: 0, port: 80 }));
    assert_eq!(parse_addr6_text(b"[fe80::1:0]:1"), Some(Addr6 { g0: 0xfe80, g1: 0, g2: 0, g3: 0, g4: 0, g5: 0, g6: 1, g7: 0, port: 1 }));
}

#[test]
fn ipv6_address_text_rejects_others() {
    assert_eq!(parse_addr6_text(b"[::1]"), None);
    assert_eq!(parse_addr6_text(b"::1:80"), None);
    assert_eq!(parse_addr6_text(b"[1::2::3]:80"), None);
    assert_eq!(parse_addr6_text(b"[1:2:3:4:5:6:7]:80"), None);
    assert_eq!(parse_addr6_text(b"[1:2:3:4:5:6:7:8:9]:80"), None);
    assert_eq!(parse_addr6_text(b"[12345::1]:80"), None);
    assert_eq!(parse_addr6_text(b"[::1]:65536"), None);
}

#[test]
fn request_for_ipv6_address() {
    let mut req = vec![5, 1, 0, 4];
    req.extend([0x20, 0x01, 0x0d, 0xb8, 0, 0, 0, 0, 0, 0, 0, 0, 0, 0, 0, 1]);
    req.extend([0, 80]);
    match parse_connect_request(&req) {
        ConnectDest::Addr6(a) => assert_eq!(
            a,
            Addr6 { g0: 0x2001, g1: 0xdb8, g2: 0, g3: 0, g4: 0, g5: 0, g6: 0, g7: 1, port: 80 }
        ),
        _ => panic!("IPv6 address expected"),
    }
}

#[test]
fn connect_to_ipv6_and_reply_success() {
    let mut t = Tunnel::new();
    let (w, r) = t.open_port().unwrap();
    let mut req = vec![5, 1, 0, 4];
    req.extend([0, 0, 0, 0, 0, 0, 0, 0, 0, 0, 0, 0, 0, 0, 0, 1]);
    req.extend([0x1f, 0x90]);
    let r = start_port(&mut t, &w, r, parse_connect_request(&req)).unwrap();
    let out = t.take_outbound();
    match &out[0].body {
        FrameBody::Connect(text) => assert_eq!(text, &b"[0:0:0:0:0:0:0:1]:8080".to_vec()),
        _ => panic!("connect expected"),
    }
    assert!(t.deliver(Frame { port: w.id(), body: FrameBody::ConnectOk(b"[::1]:8080".to_vec()) }));
    let first = r.try_read(&mut t).unwrap();
    let mut expected = vec![5, 0, 0, 4];
    expected.extend([0, 0, 0, 0, 0, 0, 0, 0, 0, 0, 0, 0, 0, 0, 0, 1]);
    expected.extend([0x1f, 0x90]);
    assert_eq!(first_reply(&first), expected);
}

#[test]
fn unparsable_ipv6_connect_ok_replies_failure() {
    assert_eq!(first_reply(&TunnelPortMsg::ConnectOk(b"[::g]:80".to_vec())), reply_failure());
}

#[test]
fn unparsable_connect_ok_replies_failure() {
    assert_eq!(first_reply(&TunnelPortMsg::ConnectOk(b"not an address".to_vec())), reply_failure());
    assert_eq!(first_reply(&TunnelPortMsg::Closed), reply_failure());
}

#[test]
fn pump_steps() {
    let mut t = Tunnel::new();
    let (w, _r) = t.open_port().unwrap();
    assert!(w.connect(&mut t, b"1.2.3.4:5".to_vec()));
    assert!(write_pump_step(&mut t, &w, Some(vec![1, 2])));
    assert!(!write_pump_step(&mut t, &w, None));
    let out = t.take_outbound();
    assert_eq!(out.len(), 3);
    assert!(matches!(&out[1].body, FrameBody::Data(d) if d == &vec![1u8, 2]));
    assert!(matches!(out[2].body, FrameBody::Close));
    assert_eq!(read_pump_step(TunnelPortMsg::Data(vec![4])), Some(vec![4]));
    assert_eq!(read_pump_step(TunnelPortMsg::Closed), None);
}

#[test]
fn short_key_is_refused() {
    assert_eq!(check_key_length(1, 16, 32), Err(KeyLengthError { min: 16, max: 32 }));
    assert_eq!(check_key_length(33, 16, 32), Err(KeyLengthError { min: 16, max: 32 }));
    assert_eq!(check_key_length(16, 16, 32), Ok(()));
    assert_eq!(check_key_length(32, 16, 32), Ok(()));
}

#[test]
fn two_arguments_required() {
    assert!(args_ok(3));
    assert!(!args_ok(2));
    assert!(!args_ok(4));
}

#[test]
fn stream_of_frames_decodes_in_order() {
    let frames = vec![
        Frame { port: 1, body: FrameBody::Data(vec![1, 2, 3]) },
        Frame { port: 2, body: FrameBody::Close },
        Frame { port: 1, body: FrameBody::ConnectOk(b"1.2.3.4:5".to_vec()) },
    ];
    let mut wire: Vec<u8> = Vec::new();
    for f in &frames {
        wire.extend(f.encode());
    }
    let whole = wire.len();
    wire.extend([3, 0, 0]);
    let (got, used, bad) = tunnel_mux::frame::decode_stream(&wire);
    assert_eq!(used, whole);
    assert!(!bad);
    assert_eq!(got.len(), 3);
    assert!(matches!(&got[0], Frame { port: 1, body: FrameBody::Data(d) } if d == &vec![1u8, 2, 3]));
    assert!(matches!(&got[1], Frame { port: 2, body: FrameBody::Close }));
    assert!(matches!(&got[2], Frame { port: 1, body: FrameBody::ConnectOk(a) } if a == &b"1.2.3.4:5".to_vec()));
}

#[test]
fn stream_stops_at_a_bad_frame() {
    let mut wire = Frame { port: 1, body: FrameBody::Close }.encode();
    wire.extend([9, 0, 0, 0, 0, 0, 0, 0, 0]);
    let (got, used, bad) = tunnel_mux::frame::decode_stream(&wire);
    assert_eq!(got.len(), 1);
    assert_eq!(used, 9);
    assert!(bad);
}

#[test]
fn frames_delivered_in_a_batch() {
    let mut t = Tunnel::new();
    let (w, r) = t.open_port().unwrap();
    assert!(w.connect(&mut t, b"1.2.3.4:5".to_vec()));
    t.deliver_frames(vec![
        Frame { port: w.id(), body: FrameBody::ConnectOk(b"1.2.3.4:5".to_vec()) },
        Frame { port: w.id(), body: FrameBody::Data(vec![1]) },
        Frame { port: w.id(), body: FrameBody::Close },
    ]);
    assert!(matches!(r.try_read(&mut t), Some(TunnelPortMsg::ConnectOk(_))));
    assert_eq!(read_pump_step(r.try_read(&mut t).unwrap()), Some(vec![1]));
    assert!(matches!(r.try_read(&mut t), Some(TunnelPortMsg::Closed)));
}

#[test]
fn ipv6_text_forms_of_one_address() {
    let a = Addr6 { g0: 1, g1: 0, g2: 0, g3: 0, g4: 0, g5: 0, g6: 0, g7: 2, port: 9 };
    for text in [&b"[1::2]:9"[..], b"[1:0::2]:9", b"[1::0:2]:9", b"[1:0:0:0:0:0:0:2]:9"] {
        assert_eq!(parse_addr6_text(text), Some(a));
    }
    assert_eq!(parse_addr6_text(b"[1::2]:09"), None);
    assert_eq!(parse_addr6_text(b"[1:::2]:9"), None);
    assert_eq!(parse_addr6_text(b"[:1::2]:9"), None);
    assert_eq!(parse_addr6_text(b"[1::2:]:9"), None);
}
