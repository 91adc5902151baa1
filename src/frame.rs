//! Frames: the unit of multiplexing on the physical link, and their byte layout.
//!
//! A frame is written as one kind byte, the port identifier (4 bytes, big
//! endian), the payload length (4 bytes, big endian) and the payload.
use vstd::prelude::*;

verus! {

/// Bytes before the payload: kind, port identifier, payload length.
pub const HEADER_LEN: usize = 9;

pub const KIND_CONNECT: u8 = 1;
pub const KIND_CONNECT_DOMAIN: u8 = 2;
pub const KIND_DATA: u8 = 3;
pub const KIND_CLOSE: u8 = 4;
pub const KIND_CONNECT_OK: u8 = 5;
pub const KIND_CONNECT_FAILED: u8 = 6;

/// What a frame carries. The first four kinds go from this side to the relay,
/// the last two come back; `Data` and `Close` go both ways.
pub enum FrameBody {
    Connect(Vec<u8>),
    ConnectDomain(Vec<u8>, u16),
    Data(Vec<u8>),
    Close,
    ConnectOk(Vec<u8>),
    ConnectFailed,
}

pub struct Frame {
    pub port: u32,
    pub body: FrameBody,
}

pub enum BodyView {
    Connect(Seq<u8>),
    ConnectDomain(Seq<u8>, u16),
    Data(Seq<u8>),
    Close,
    ConnectOk(Seq<u8>),
    ConnectFailed,
}

pub struct FrameView {
    pub port: u32,
    pub body: BodyView,
}

impl View for FrameBody {
    type V = BodyView;

    open spec fn view(&self) -> BodyView {
        match self {
            FrameBody::Connect(a) => BodyView::Connect(a@),
            FrameBody::ConnectDomain(n, p) => BodyView::ConnectDomain(n@, *p),
            FrameBody::Data(d) => BodyView::Data(d@),
            FrameBody::Close => BodyView::Close,
            FrameBody::ConnectOk(a) => BodyView::ConnectOk(a@),
            FrameBody::ConnectFailed => BodyView::ConnectFailed,
        }
    }
}

impl View for Frame {
    type V = FrameView;

    open spec fn view(&self) -> FrameView {
        FrameView { port: self.port, body: self.body@ }
    }
}

pub open spec fn kind_of(b: BodyView) -> u8 {
    match b {
        BodyView::Connect(_) => KIND_CONNECT,
        BodyView::ConnectDomain(_, _) => KIND_CONNECT_DOMAIN,
        BodyView::Data(_) => KIND_DATA,
        BodyView::Close => KIND_CLOSE,
        BodyView::ConnectOk(_) => KIND_CONNECT_OK,
        BodyView::ConnectFailed => KIND_CONNECT_FAILED,
    }
}

pub open spec fn be16_bytes(x: u16) -> Seq<u8> {
    seq![(x >> 8u16) as u8, x as u8]
}

pub open spec fn be16_value(s: Seq<u8>) -> u16 {
    ((s[0] as u16) << 8u16) | (s[1] as u16)
}

pub open spec fn be32_bytes(x: u32) -> Seq<u8> {
    seq![(x >> 24u32) as u8, (x >> 16u32) as u8, (x >> 8u32) as u8, x as u8]
}

pub open spec fn be32_value(s: Seq<u8>) -> u32 {
    ((s[0] as u32) << 24u32) | ((s[1] as u32) << 16u32) | ((s[2] as u32) << 8u32) | (s[3] as u32)
}

/// The payload bytes of a body: a domain name is followed by its port.
pub open spec fn payload_of(b: BodyView) -> Seq<u8> {
    match b {
        BodyView::Connect(a) => a,
        BodyView::ConnectDomain(n, p) => n + be16_bytes(p),
        BodyView::Data(d) => d,
        BodyView::Close => Seq::empty(),
        BodyView::ConnectOk(a) => a,
        BodyView::ConnectFailed => Seq::empty(),
    }
}

/// A frame whose payload length fits the length field.
pub open spec fn fits(f: FrameView) -> bool {
    payload_of(f.body).len() <= u32::MAX
}

pub open spec fn encoding(f: FrameView) -> Seq<u8> {
    seq![kind_of(f.body)] + be32_bytes(f.port) + be32_bytes(payload_of(f.body).len() as u32)
        + payload_of(f.body)
}

pub enum DecodedView {
    Frame(FrameView, nat),
    Incomplete,
    Malformed,
}

/// The body that a kind byte and a payload stand for, if they make one.
pub open spec fn body_from(kind: u8, p: Seq<u8>) -> Option<BodyView> {
    if kind == KIND_CONNECT {
        Some(BodyView::Connect(p))
    } else if kind == KIND_CONNECT_DOMAIN {
        if p.len() >= 2 {
            Some(BodyView::ConnectDomain(p.take(p.len() - 2), be16_value(p.skip(p.len() - 2))))
        } else {
            None
        }
    } else if kind == KIND_DATA {
        Some(BodyView::Data(p))
    } else if kind == KIND_CLOSE && p.len() == 0 {
        Some(BodyView::Close)
    } else if kind == KIND_CONNECT_OK {
        Some(BodyView::ConnectOk(p))
    } else if kind == KIND_CONNECT_FAILED && p.len() == 0 {
        Some(BodyView::ConnectFailed)
    } else {
        None
    }
}

/// What the front of a byte stream holds: a whole frame and the number of
/// bytes it takes, too few bytes for one yet, or bytes that no frame starts with.
pub open spec fn decode_front(s: Seq<u8>) -> DecodedView {
    if s.len() < HEADER_LEN {
        DecodedView::Incomplete
    } else if s[0] < KIND_CONNECT || s[0] > KIND_CONNECT_FAILED {
        DecodedView::Malformed
    } else {
        let n = be32_value(s.subrange(5, 9)) as int;
        if s.len() < HEADER_LEN + n {
            DecodedView::Incomplete
        } else {
            match body_from(s[0], s.subrange(9, 9 + n)) {
                Some(b) => DecodedView::Frame(
                    FrameView { port: be32_value(s.subrange(1, 5)), body: b },
                    (HEADER_LEN + n) as nat,
                ),
                None => DecodedView::Malformed,
            }
        }
    }
}

pub enum Decoded {
    Frame(Frame, usize),
    Incomplete,
    Malformed,
}

impl View for Decoded {
    type V = DecodedView;

    open spec fn view(&self) -> DecodedView {
        match self {
            Decoded::Frame(f, n) => DecodedView::Frame(f@, *n as nat),
            Decoded::Incomplete => DecodedView::Incomplete,
            Decoded::Malformed => DecodedView::Malformed,
        }
    }
}

proof fn lemma_be16(x: u16)
    ensures
        be16_value(be16_bytes(x)) == x,
{
    assert((((x >> 8u16) as u8) as u16) << 8u16 | ((x as u8) as u16) == x) by (bit_vector);
}

proof fn lemma_be32(x: u32)
    ensures
        be32_value(be32_bytes(x)) == x,
{
    assert(((((x >> 24u32) as u8) as u32) << 24u32) | ((((x >> 16u32) as u8) as u32) << 16u32)
        | ((((x >> 8u32) as u8) as u32) << 8u32) | ((x as u8) as u32) == x) by (bit_vector);
}

fn push_be32(out: &mut Vec<u8>, x: u32)
    ensures
        final(out)@ == old(out)@ + be32_bytes(x),
{
    out.push((x >> 24u32) as u8);
    out.push((x >> 16u32) as u8);
    out.push((x >> 8u32) as u8);
    out.push(x as u8);
    assert(final(out)@ =~= old(out)@ + be32_bytes(x));
}

fn read_be32(s: &[u8], at: usize) -> (r: u32)
    requires
        at + 4 <= s@.len(),
    ensures
        r == be32_value(s@.subrange(at as int, at + 4)),
{
    ((s[at] as u32) << 24u32) | ((s[at + 1] as u32) << 16u32) | ((s[at + 2] as u32) << 8u32)
        | (s[at + 3] as u32)
}

fn append_all(out: &mut Vec<u8>, p: &Vec<u8>)
    ensures
        final(out)@ == old(out)@ + p@,
{
    let mut i: usize = 0;
    while i < p.len()
        invariant
            i <= p@.len(),
            out@ == old(out)@ + p@.take(i as int),
        decreases p@.len() - i,
    {
        out.push(p[i]);
        i = i + 1;
        assert(out@ =~= old(out)@ + p@.take(i as int));
    }
    assert(p@.take(i as int) =~= p@);
}

fn copy_range(s: &[u8], from: usize, to: usize) -> (r: Vec<u8>)
    requires
        from <= to <= s@.len(),
    ensures
        r@ == s@.subrange(from as int, to as int),
{
    let mut r: Vec<u8> = Vec::new();
    let mut i: usize = from;
    while i < to
        invariant
            from <= i <= to <= s@.len(),
            r@ == s@.subrange(from as int, i as int),
        decreases to - i,
    {
        r.push(s[i]);
        i = i + 1;
        assert(r@ =~= s@.subrange(from as int, i as int));
    }
    r
}

impl Frame {
    /// The bytes that carry this frame on the physical link.
    pub fn encode(&self) -> (r: Vec<u8>)
        requires
            fits(self@),
        ensures
            r@ == encoding(self@),
    {
        let mut out: Vec<u8> = Vec::new();
        let kind: u8 = match &self.body {
            FrameBody::Connect(_) => KIND_CONNECT,
            FrameBody::ConnectDomain(_, _) => KIND_CONNECT_DOMAIN,
            FrameBody::Data(_) => KIND_DATA,
            FrameBody::Close => KIND_CLOSE,
            FrameBody::ConnectOk(_) => KIND_CONNECT_OK,
            FrameBody::ConnectFailed => KIND_CONNECT_FAILED,
        };
        out.push(kind);
        push_be32(&mut out, self.port);
        match &self.body {
            FrameBody::Connect(a) | FrameBody::Data(a) | FrameBody::ConnectOk(a) => {
                push_be32(&mut out, a.len() as u32);
                append_all(&mut out, a);
            },
            FrameBody::ConnectDomain(n, p) => {
                push_be32(&mut out, (n.len() + 2) as u32);
                append_all(&mut out, n);
                out.push((*p >> 8u16) as u8);
                out.push(*p as u8);
            },
            FrameBody::Close | FrameBody::ConnectFailed => {
                push_be32(&mut out, 0);
            },
        }
        assert(out@ =~= encoding(self@));
        out
    }
}

/// Reads the frame at the front of `s`, if all of it is there.
pub fn decode(s: &[u8]) -> (r: Decoded)
    ensures
        r@ == decode_front(s@),
{
    if s.len() < HEADER_LEN {
        return Decoded::Incomplete;
    }
    let kind = s[0];
    if kind < KIND_CONNECT || kind > KIND_CONNECT_FAILED {
        return Decoded::Malformed;
    }
    let port = read_be32(s, 1);
    let n = read_be32(s, 5);
    if s.len() - HEADER_LEN < n as usize {
        return Decoded::Incomplete;
    }
    let end: usize = HEADER_LEN + n as usize;
    let ghost p = s@.subrange(9, end as int);
    let body = if kind == KIND_CONNECT {
        FrameBody::Connect(copy_range(s, HEADER_LEN, end))
    } else if kind == KIND_CONNECT_DOMAIN {
        if n < 2 {
            return Decoded::Malformed;
        }
        let name = copy_range(s, HEADER_LEN, end - 2);
        let port_no = ((s[end - 2] as u16) << 8u16) | (s[end - 1] as u16);
        assert(name@ =~= p.take(p.len() - 2));
        assert(p.skip(p.len() - 2)[0] == s[end - 2] && p.skip(p.len() - 2)[1] == s[end - 1]);
        FrameBody::ConnectDomain(name, port_no)
    } else if kind == KIND_DATA {
        FrameBody::Data(copy_range(s, HEADER_LEN, end))
    } else if kind == KIND_CLOSE {
        if n != 0 {
            return Decoded::Malformed;
        }
        FrameBody::Close
    } else if kind == KIND_CONNECT_OK {
        FrameBody::ConnectOk(copy_range(s, HEADER_LEN, end))
    } else {
        if n != 0 {
            return Decoded::Malformed;
        }
        FrameBody::ConnectFailed
    };
    Decoded::Frame(Frame { port, body }, end)
}

/// A frame read back from its encoding, with any bytes after it, is the same
/// frame, and it takes exactly the bytes of its encoding.
pub proof fn lemma_frame_round_trip(f: FrameView, rest: Seq<u8>)
    requires
        fits(f),
    ensures
        decode_front(encoding(f) + rest) == DecodedView::Frame(f, encoding(f).len()),
{
    let s = encoding(f) + rest;
    let p = payload_of(f.body);
    lemma_be32(f.port);
    lemma_be32(p.len() as u32);
    assert(s.subrange(1, 5) =~= be32_bytes(f.port));
    assert(s.subrange(5, 9) =~= be32_bytes(p.len() as u32));
    assert(s.subrange(9, 9 + p.len() as int) =~= p);
    match f.body {
        BodyView::ConnectDomain(n, q) => {
            lemma_be16(q);
            assert(p.take(p.len() - 2) =~= n);
            assert(p.skip(p.len() - 2) =~= be16_bytes(q));
        },
        _ => {},
    }
}

/// The bytes of a run of frames, one after another.
pub open spec fn encode_all(fs: Seq<FrameView>) -> Seq<u8>
    decreases fs.len(),
{
    if fs.len() == 0 {
        Seq::empty()
    } else {
        encoding(fs[0]) + encode_all(fs.drop_first())
    }
}

/// The whole frames at the front of a byte stream, the number of bytes they
/// take, and whether what follows them can start no frame.
pub open spec fn decode_all(s: Seq<u8>) -> (Seq<FrameView>, nat, bool)
    decreases s.len(),
{
    match decode_front(s) {
        DecodedView::Frame(f, n) => if 0 < n <= s.len() {
            let rest = decode_all(s.skip(n as int));
            (seq![f] + rest.0, n + rest.1, rest.2)
        } else {
            (Seq::empty(), 0, true)
        },
        DecodedView::Incomplete => (Seq::empty(), 0, false),
        DecodedView::Malformed => (Seq::empty(), 0, true),
    }
}

/// Frames written one after another onto the link are read back as the same
/// frames, in the same order, none lost or repeated, using every byte.
pub proof fn lemma_stream_round_trip(fs: Seq<FrameView>)
    requires
        forall|i: int| 0 <= i < fs.len() ==> fits(#[trigger] fs[i]),
    ensures
        decode_all(encode_all(fs)) == (fs, encode_all(fs).len(), false),
    decreases fs.len(),
{
    if fs.len() == 0 {
        assert(decode_front(Seq::<u8>::empty()) == DecodedView::Incomplete);
    } else {
        let rest = fs.drop_first();
        assert forall|i: int| 0 <= i < rest.len() implies fits(#[trigger] rest[i]) by {
            assert(rest[i] == fs[i + 1]);
        }
        lemma_stream_round_trip(rest);
        assert(fits(fs[0]));
        lemma_frame_round_trip(fs[0], encode_all(rest));
        let s = encode_all(fs);
        assert(s.skip(encoding(fs[0]).len() as int) =~= encode_all(rest));
        assert(seq![fs[0]] + rest =~= fs);
    }
}

/// Reads every whole frame at the front of `s`. The count says how many bytes
/// they took; `bad` says that the bytes after them start no frame, where the
/// link can only be given up.
pub fn decode_stream(s: &[u8]) -> (r: (Vec<Frame>, usize, bool))
    ensures
        (r.0@.map_values(|f: Frame| f@), r.1 as nat, r.2) == decode_all(s@),
{
    let mut out: Vec<Frame> = Vec::new();
    let mut pos: usize = 0;
    assert(s@.skip(0) =~= s@);
    assert(out@.map_values(|f: Frame| f@) + decode_all(s@).0 =~= decode_all(s@).0);
    loop
        invariant
            pos <= s@.len(),
            ({
                let rest = decode_all(s@.skip(pos as int));
                decode_all(s@) == (out@.map_values(|f: Frame| f@) + rest.0, (pos + rest.1) as nat, rest.2)
            }),
        decreases s@.len() - pos,
    {
        let tail = vstd::slice::slice_subrange(s, pos, s.len());
        assert(tail@ =~= s@.skip(pos as int));
        match decode(tail) {
            Decoded::Frame(f, n) => {
                assert(s@.skip(pos as int).skip(n as int) =~= s@.skip(pos + n));
                let ghost o = out@;
                let ghost fv = f@;
                out.push(f);
                proof {
                    assert(out@.map_values(|f: Frame| f@) =~= o.map_values(|f: Frame| f@).push(fv));
                    let r2 = decode_all(s@.skip(pos + n));
                    assert(o.map_values(|f: Frame| f@).push(fv) + r2.0 =~= o.map_values(|f: Frame| f@)
                        + (seq![fv] + r2.0));
                }
                pos = pos + n;
            },
            Decoded::Incomplete => {
                proof {
                    let o = out@.map_values(|f: Frame| f@);
                    assert(o + Seq::<FrameView>::empty() =~= o);
                }
                return (out, pos, false);
            },
            Decoded::Malformed => {
                proof {
                    let o = out@.map_values(|f: Frame| f@);
                    assert(o + Seq::<FrameView>::empty() =~= o);
                }
                return (out, pos, true);
            },
        }
    }
}

} // verus!
