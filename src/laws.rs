//! Properties of the port table that hold over whole runs of operations.
use vstd::prelude::*;
use crate::frame::{
    decode_all, encode_all, fits, lemma_stream_round_trip, payload_of, BodyView, FrameView,
};
use crate::tunnel::{
    can_open, close_port, close_spec, connect_spec, deliver_spec, event_for, fail_spec, finished,
    fresh_port, history, is_terminal, open_spec, port_ok, read_spec, receive, release_spec, settle, tunnel_ok,
    write_spec, LocalHalf, MsgView, PortView, RemoteHalf, TunnelView,
};

verus! {

/// One operation on the table, as the contracts of `Tunnel` and of the two
/// handles describe it.
pub enum Step {
    Open,
    Connect(u32, BodyView),
    Write(u32, Seq<u8>),
    Close(u32),
    Read(u32),
    Release(u32),
    Deliver(FrameView),
    Fail,
}

pub open spec fn step_spec(t: TunnelView, s: Step) -> TunnelView {
    match s {
        Step::Open => if can_open(t) { open_spec(t) } else { t },
        Step::Connect(id, b) => connect_spec(t, id, b),
        Step::Write(id, d) => write_spec(t, id, d),
        Step::Close(id) => close_spec(t, id),
        Step::Read(id) => read_spec(t, id).0,
        Step::Release(id) => release_spec(t, id),
        Step::Deliver(f) => deliver_spec(t, f),
        Step::Fail => fail_spec(t),
    }
}

/// The port that a step works on, if it works on one only.
pub open spec fn step_port(s: Step) -> Option<u32> {
    match s {
        Step::Connect(id, _) => Some(id),
        Step::Write(id, _) => Some(id),
        Step::Close(id) => Some(id),
        Step::Read(id) => Some(id),
        Step::Release(id) => Some(id),
        Step::Deliver(f) => Some(f.port),
        _ => None,
    }
}

proof fn lemma_receive_ok(p: PortView, b: BodyView)
    requires
        port_ok(p),
        !finished(p),
    ensures
        port_ok(receive(p, b)),
        !finished(receive(p, b)),
{
    let h = history(p);
    match event_for(p.remote, b) {
        Some(m) => if p.reader {
            let q = receive(p, b);
            assert(history(q) =~= h.push(m));
            let h2 = h.push(m);
            if p.remote == RemoteHalf::Connected {
                assert(h.len() > 0 && !is_terminal(h.last()));
                assert(h[0] is ConnectOk);
                assert forall|i: int| 1 <= i < h2.len() implies (#[trigger] h2[i] is Data || (i
                    == h2.len() - 1 && h2[i] is Closed)) by {
                    if i < h.len() {
                        assert(h2[i] == h[i]);
                        assert(h[i] is Data || (i == h.len() - 1 && h[i] is Closed));
                    }
                }
            }
        },
        None => {},
    }
}

proof fn lemma_settle_ok(t: TunnelView, id: u32)
    requires
        forall|k: u32| t.ports.contains_key(k) ==> k < t.next_id,
        forall|k: u32| #[trigger] t.ports.contains_key(k) ==> port_ok(t.ports[k]),
        forall|k: u32| #[trigger] t.ports.contains_key(k) && k != id ==> !finished(t.ports[k]),
    ensures
        tunnel_ok(settle(t, id)),
{
}

/// Every operation keeps the table consistent: each port's events follow its
/// protocol (a `ConnectOk` first and then data, or one terminal event alone),
/// its read state matches those events, and no finished port stays in it.
pub proof fn lemma_step_keeps_protocol(t: TunnelView, s: Step)
    requires
        tunnel_ok(t),
    ensures
        tunnel_ok(step_spec(t, s)),
{
    match s {
        Step::Open => {
            if can_open(t) {
                let t2 = open_spec(t);
                assert(history(fresh_port()) =~= Seq::<MsgView>::empty());
                assert forall|k: u32| #[trigger] t2.ports.contains_key(k) implies port_ok(t2.ports[k])
                    && !finished(t2.ports[k]) && k < t2.next_id by {
                    if k != t.next_id {
                        assert(t.ports.contains_key(k));
                    }
                }
            }
        },
        Step::Connect(id, b) => {
            if t.ports.contains_key(id) && t.ports[id].local == LocalHalf::Fresh {
                let p = PortView { local: LocalHalf::Open, ..t.ports[id] };
                assert(history(p) == history(t.ports[id]));
                let t1 = TunnelView {
                    ports: t.ports.insert(id, p),
                    outbound: t.outbound.push(FrameView { port: id, body: b }),
                    ..t
                };
                lemma_settle_ok(t1, id);
            }
        },
        Step::Write(id, d) => {
            if t.ports.contains_key(id) && t.ports[id].local == LocalHalf::Open {
                let t1 = TunnelView {
                    ports: t.ports.insert(id, t.ports[id]),
                    outbound: t.outbound.push(FrameView { port: id, body: BodyView::Data(d) }),
                    ..t
                };
                lemma_settle_ok(t1, id);
            }
        },
        Step::Close(id) => {
            if t.ports.contains_key(id) && t.ports[id].local != LocalHalf::Closed {
                let p = t.ports[id];
                let q = close_port(p);
                if p.remote == RemoteHalf::Awaiting {
                    assert(history(p).len() == 0);
                    assert(history(q) =~= seq![MsgView::Closed]);
                } else {
                    assert(history(q) == history(p));
                }
                let t1 = TunnelView {
                    ports: t.ports.insert(id, q),
                    outbound: t.outbound.push(FrameView { port: id, body: BodyView::Close }),
                    ..t
                };
                lemma_settle_ok(t1, id);
            }
        },
        Step::Read(id) => {
            if t.ports.contains_key(id) && t.ports[id].queue.len() > 0 {
                let p = t.ports[id];
                let q = PortView { seen: p.seen.push(p.queue[0]), queue: p.queue.drop_first(), ..p };
                assert(history(q) =~= history(p));
                lemma_settle_ok(TunnelView { ports: t.ports.insert(id, q), ..t }, id);
            }
        },
        Step::Release(id) => {
            if t.ports.contains_key(id) {
                let p = t.ports[id];
                let q = PortView { reader: false, seen: p.seen + p.queue, queue: Seq::empty(), ..p };
                assert(history(q) =~= history(p));
                lemma_settle_ok(TunnelView { ports: t.ports.insert(id, q), ..t }, id);
            }
        },
        Step::Deliver(f) => {
            if t.ports.contains_key(f.port) {
                lemma_receive_ok(t.ports[f.port], f.body);
            }
        },
        Step::Fail => {
            let t2 = fail_spec(t);
            assert forall|k: u32| #[trigger] t2.ports.contains_key(k) implies port_ok(t2.ports[k])
                && !finished(t2.ports[k]) by {
                let p = t.ports[k];
                if p.remote != RemoteHalf::Ended && p.reader {
                    let h = history(p);
                    let h2 = h.push(MsgView::Closed);
                    assert(history(t2.ports[k]) =~= h2);
                    if p.remote == RemoteHalf::Connected {
                        assert forall|i: int| 1 <= i < h2.len() implies (#[trigger] h2[i] is Data || (i
                            == h2.len() - 1 && h2[i] is Closed)) by {
                            if i < h.len() {
                                assert(h2[i] == h[i]);
                                assert(h[i] is Data || (i == h.len() - 1 && h[i] is Closed));
                            }
                        }
                    }
                }
            }
        },
    }
}

/// A fresh table is consistent.
pub proof fn lemma_new_keeps_protocol()
    ensures
        tunnel_ok(
            TunnelView { alive: true, next_id: 0, ports: Map::empty(), outbound: Seq::empty() },
        ),
{
}

/// On every port of a consistent table, the first event is a `ConnectOk`, or
/// else a terminal event that is the only one.
pub proof fn lemma_first_event(t: TunnelView, id: u32)
    requires
        tunnel_ok(t),
        t.ports.contains_key(id),
        history(t.ports[id]).len() > 0,
    ensures
        history(t.ports[id])[0] is ConnectOk || (history(t.ports[id]).len() == 1 && is_terminal(
            history(t.ports[id])[0],
        )),
{
    assert(port_ok(t.ports[id]));
}

/// An operation on one port leaves every other port of the table as it was:
/// still there, in the same state, with the same events.
pub proof fn lemma_step_isolates_ports(t: TunnelView, s: Step, k: u32)
    requires
        tunnel_ok(t),
        !(s is Fail),
        t.ports.contains_key(k),
        step_port(s) != Some(k),
    ensures
        step_spec(t, s).ports.contains_key(k),
        step_spec(t, s).ports[k] == t.ports[k],
{
}

pub open spec fn deliver_all(t: TunnelView, fs: Seq<FrameView>) -> TunnelView
    decreases fs.len(),
{
    if fs.len() == 0 {
        t
    } else {
        deliver_spec(deliver_all(t, fs.drop_last()), fs.last())
    }
}

/// The events that a run of data frames gives port `id`: one per frame that
/// names it, in the order of the frames.
pub open spec fn data_events(fs: Seq<FrameView>, id: u32) -> Seq<MsgView>
    decreases fs.len(),
{
    if fs.len() == 0 {
        Seq::empty()
    } else if fs.last().port == id {
        data_events(fs.drop_last(), id).push(MsgView::Data(payload_data(fs.last().body)))
    } else {
        data_events(fs.drop_last(), id)
    }
}

pub open spec fn payload_data(b: BodyView) -> Seq<u8> {
    match b {
        BodyView::Data(d) => d,
        _ => Seq::empty(),
    }
}

/// Data frames for any ports, interleaved in any way, reach a connected port
/// `id` in the order they arrived: its queue gains exactly the payloads of the
/// frames that name it, in order, and the port stays connected.
pub proof fn lemma_port_fifo(t: TunnelView, fs: Seq<FrameView>, id: u32)
    requires
        t.ports.contains_key(id),
        t.ports[id].remote == RemoteHalf::Connected,
        t.ports[id].reader,
        forall|i: int| 0 <= i < fs.len() ==> #[trigger] fs[i].body is Data,
    ensures
        deliver_all(t, fs).ports.contains_key(id),
        deliver_all(t, fs).ports[id].remote == RemoteHalf::Connected,
        deliver_all(t, fs).ports[id].reader,
        deliver_all(t, fs).ports[id].queue == t.ports[id].queue + data_events(fs, id),
        deliver_all(t, fs).ports[id].seen == t.ports[id].seen,
    decreases fs.len(),
{
    if fs.len() > 0 {
        let pre = fs.drop_last();
        assert forall|i: int| 0 <= i < pre.len() implies #[trigger] pre[i].body is Data by {
            assert(pre[i] == fs[i]);
        }
        lemma_port_fifo(t, pre, id);
        assert(fs[fs.len() - 1].body is Data);
        if fs.last().port == id {
            assert(t.ports[id].queue + data_events(fs, id) =~= (t.ports[id].queue + data_events(
                pre,
                id,
            )).push(MsgView::Data(payload_data(fs.last().body))));
        }
    }
}

pub open spec fn write_all(t: TunnelView, id: u32, ds: Seq<Seq<u8>>) -> TunnelView
    decreases ds.len(),
{
    if ds.len() == 0 {
        t
    } else {
        write_spec(write_all(t, id, ds.drop_last()), id, ds.last())
    }
}

/// Writes on an open port go out in the order they were made: the outbound
/// frames gain one data frame per write, naming the port, with the bytes of
/// that write.
pub proof fn lemma_write_order(t: TunnelView, id: u32, ds: Seq<Seq<u8>>)
    requires
        t.ports.contains_key(id),
        t.ports[id].local == LocalHalf::Open,
        !finished(t.ports[id]),
    ensures
        write_all(t, id, ds).ports.contains_key(id),
        write_all(t, id, ds).ports[id] == t.ports[id],
        write_all(t, id, ds).outbound == t.outbound + ds.map_values(
            |d: Seq<u8>| FrameView { port: id, body: BodyView::Data(d) },
        ),
    decreases ds.len(),
{
    if ds.len() > 0 {
        lemma_write_order(t, id, ds.drop_last());
        assert(t.outbound + ds.map_values(|d: Seq<u8>| FrameView { port: id, body: BodyView::Data(d) })
            =~= (t.outbound + ds.drop_last().map_values(
            |d: Seq<u8>| FrameView { port: id, body: BodyView::Data(d) },
        )).push(FrameView { port: id, body: BodyView::Data(ds.last()) }));
    }
}

/// Closing the write side of a port before the relay answered its connect
/// request leaves a terminal event for the read side, so no reader waits for
/// an answer that will not come.
pub proof fn lemma_close_before_answer(t: TunnelView, id: u32)
    requires
        t.ports.contains_key(id),
        t.ports[id].remote == RemoteHalf::Awaiting,
        t.ports[id].local != LocalHalf::Closed,
        t.ports[id].reader,
    ensures
        close_spec(t, id).ports.contains_key(id),
        close_spec(t, id).ports[id].queue.last() == MsgView::Closed,
        close_spec(t, id).ports[id].remote == RemoteHalf::Ended,
{
}

/// After the physical link fails, every port that was in the table is still
/// there with a terminal event as its last, and no port opens any more.
pub proof fn lemma_fail_ends_all(t: TunnelView, k: u32)
    requires
        tunnel_ok(t),
        t.ports.contains_key(k),
        t.ports[k].reader,
    ensures
        fail_spec(t).ports.contains_key(k),
        fail_spec(t).ports[k].remote == RemoteHalf::Ended,
        is_terminal(history(fail_spec(t).ports[k]).last()),
        !can_open(fail_spec(t)),
{
    let p = t.ports[k];
    assert(port_ok(p));
    if p.remote != RemoteHalf::Ended {
        assert(history(fail_spec(t).ports[k]) =~= history(p).push(MsgView::Closed));
    }
}

pub open spec fn data_frames(id: u32, ds: Seq<Seq<u8>>) -> Seq<FrameView> {
    ds.map_values(|d: Seq<u8>| FrameView { port: id, body: BodyView::Data(d) })
}

proof fn lemma_data_events_of(id: u32, ds: Seq<Seq<u8>>)
    ensures
        data_events(data_frames(id, ds), id) == ds.map_values(|d: Seq<u8>| MsgView::Data(d)),
    decreases ds.len(),
{
    if ds.len() > 0 {
        lemma_data_events_of(id, ds.drop_last());
        assert(data_frames(id, ds).drop_last() =~= data_frames(id, ds.drop_last()));
        assert(ds.map_values(|d: Seq<u8>| MsgView::Data(d)) =~= ds.drop_last().map_values(
            |d: Seq<u8>| MsgView::Data(d),
        ).push(MsgView::Data(ds.last())));
    }
}

/// Bytes written on a connected port in several writes come back, through a
/// relay that returns each frame as it came, as data events on the same port
/// with the same bytes in the same writes and order: the frames the writes
/// send are encoded onto the link, read back whole, and handed in.
pub proof fn lemma_relay_round_trip(t: TunnelView, id: u32, ds: Seq<Seq<u8>>)
    requires
        t.ports.contains_key(id),
        t.ports[id].local == LocalHalf::Open,
        t.ports[id].remote == RemoteHalf::Connected,
        t.ports[id].reader,
        t.outbound.len() == 0,
        forall|i: int| 0 <= i < ds.len() ==> (#[trigger] ds[i]).len() <= u32::MAX,
    ensures
        ({
            let sent = write_all(t, id, ds).outbound;
            let back = decode_all(encode_all(sent));
            &&& sent == data_frames(id, ds)
            &&& back.0 == sent && back.1 == encode_all(sent).len() && !back.2
            &&& deliver_all(t, back.0).ports[id].queue == t.ports[id].queue + ds.map_values(
                |d: Seq<u8>| MsgView::Data(d),
            )
        }),
{
    assert(!finished(t.ports[id]));
    lemma_write_order(t, id, ds);
    let sent = write_all(t, id, ds).outbound;
    assert(sent =~= data_frames(id, ds));
    assert forall|i: int| 0 <= i < sent.len() implies fits(#[trigger] sent[i]) by {
        assert(sent[i] == FrameView { port: id, body: BodyView::Data(ds[i]) });
        assert(payload_of(sent[i].body) == ds[i]);
    }
    lemma_stream_round_trip(sent);
    lemma_port_fifo(t, sent, id);
    lemma_data_events_of(id, ds);
}

/// A port leaves the table only when both halves are done, and never with
/// events that its reader still waits for: by the read that takes the
/// terminal event of a port whose write side is closed; by closing the write
/// side once the reader has taken the terminal event or let go; or by the
/// reader letting go of a port whose write side is closed.
pub proof fn lemma_reclaimed_only_when_settled(t: TunnelView, s: Step, k: u32)
    requires
        tunnel_ok(t),
        t.ports.contains_key(k),
        !step_spec(t, s).ports.contains_key(k),
    ensures
        step_port(s) == Some(k),
        s is Read || s is Close || s is Release,
        s is Read ==> t.ports[k].local == LocalHalf::Closed && t.ports[k].remote == RemoteHalf::Ended
            && t.ports[k].queue.len() == 1,
        s is Close ==> (t.ports[k].remote == RemoteHalf::Ended && t.ports[k].queue.len() == 0)
            || !t.ports[k].reader,
        s is Release ==> t.ports[k].local == LocalHalf::Closed,
{
}

/// Once the write side has closed and the read handle has let go, in either
/// order, the port is gone from the table: no port outlives both handles.
pub proof fn lemma_both_handles_done(t: TunnelView, k: u32)
    requires
        t.ports.contains_key(k),
    ensures
        !release_spec(close_spec(t, k), k).ports.contains_key(k),
        !close_spec(release_spec(t, k), k).ports.contains_key(k),
{
}

/// The tunnel after a write pump has forwarded the chunks it read from its
/// client, in order, and then seen its client's read fail: what
/// `write_pump_step` does with each `Some(chunk)` and then with `None`.
pub open spec fn write_pump_run(t: TunnelView, id: u32, chunks: Seq<Seq<u8>>) -> TunnelView {
    close_spec(write_all(t, id, chunks), id)
}

/// A write pump on a connected port sends its client's bytes exactly: one
/// data frame per chunk, in the order read, naming its own port, then one
/// `Close`; so the bytes sent are the client's bytes, none lost, repeated or
/// reordered, with nothing sent for any other port.
pub proof fn lemma_write_pump_run(t: TunnelView, id: u32, chunks: Seq<Seq<u8>>)
    requires
        t.ports.contains_key(id),
        t.ports[id].local == LocalHalf::Open,
        !finished(t.ports[id]),
    ensures
        write_pump_run(t, id, chunks).outbound == t.outbound + data_frames(id, chunks).push(
            FrameView { port: id, body: BodyView::Close },
        ),
        data_frames(id, chunks).map_values(|f: FrameView| payload_of(f.body)) == chunks,
{
    lemma_write_order(t, id, chunks);
    assert(t.outbound + data_frames(id, chunks).push(FrameView { port: id, body: BodyView::Close })
        =~= (t.outbound + data_frames(id, chunks)).push(FrameView { port: id, body: BodyView::Close }));
    assert(data_frames(id, chunks).map_values(|f: FrameView| payload_of(f.body)) =~= chunks);
}

/// The bytes a read pump writes to its client for the events it reads after
/// the first one: each data payload in turn, up to the first other event,
/// as `read_pump_step` hands them out.
pub open spec fn read_pump_output(es: Seq<MsgView>) -> Seq<u8>
    decreases es.len(),
{
    if es.len() == 0 {
        Seq::empty()
    } else {
        match es[0] {
            MsgView::Data(d) => d + read_pump_output(es.drop_first()),
            _ => Seq::empty(),
        }
    }
}

/// A read pump that reads data events and then a terminal one writes the
/// concatenation of their payloads, in order, each once.
pub proof fn lemma_read_pump_output(ds: Seq<Seq<u8>>, last: MsgView)
    requires
        !(last is Data),
    ensures
        read_pump_output(ds.map_values(|d: Seq<u8>| MsgView::Data(d)).push(last)) == ds.flatten(),
    decreases ds.len(),
{
    let es = ds.map_values(|d: Seq<u8>| MsgView::Data(d)).push(last);
    if ds.len() == 0 {
        assert(es[0] == last);
        assert(ds.flatten() =~= Seq::<u8>::empty());
    } else {
        lemma_read_pump_output(ds.drop_first(), last);
        assert(es.drop_first() =~= ds.drop_first().map_values(|d: Seq<u8>| MsgView::Data(d)).push(
            last,
        ));
        assert(es[0] == MsgView::Data(ds[0]));
        assert(ds.flatten() == ds[0] + ds.drop_first().flatten());
    }
}

} // verus!
